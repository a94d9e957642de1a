//! Screen state that the interface keeps between device operations.
pub mod home;
pub mod offboard;
