//! Decisions behind the user interface.
pub mod screens;
