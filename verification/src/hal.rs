//! Hardware-facing logic: firmware inspection, signing-key trust and OTP provisioning.
pub mod firmware;
