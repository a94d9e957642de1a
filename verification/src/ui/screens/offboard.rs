//! The firmware screen.
pub mod workflow;
