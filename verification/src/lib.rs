//! Verified core of the PicoForge All desktop companion for Pico All security keys:
//! firmware image and OTP boot-policy decisions, picotool output parsing, and the
//! preference rules that the user interface relies on.
pub mod codec;
pub mod elevation;
pub mod hal;
pub mod preferences;
pub mod text;
pub mod ui;
