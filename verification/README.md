# PicoForge All core

The verified core of the PicoForge All desktop companion for Pico All security
keys, written in Verus.

- `src/hal/firmware.rs` reads picotool's image and board reports, judges whether an
  image may be flashed on a board, and checks a flash request against the judged
  snapshot.
- `src/hal/firmware/security.rs` holds the RP2350 OTP boot policy: bitwise votes over
  redundant rows, OTP row parsing, the trusted-key lookup and the staged plan of OTP
  writes (register a key, harden, enable Secure Boot, lock).
- `src/hal/firmware/otp_state.rs` reads the OTP state row by row.
- `src/hal/firmware/provision.rs` holds the checks around a provisioning stage, the
  step function that orders verifying, programming and reading back its writes, and
  the laws that a plan only adds bits that a stage may write and refuses bad input.
- `src/hal/firmware/device.rs` interprets smart-card replies, picks the board, and
  decides each step of bringing a board into update mode.
- `src/preferences.rs` brings stored settings to known values.
- `src/ui/screens/offboard/workflow.rs` keeps what the firmware screen knows of the
  selected image and which request may continue to a flash.
- `src/codec.rs` and `src/text.rs` give the hexadecimal, digest and text primitives
  the rest is specified with.

`app/` is the ordinary Rust around it: running picotool, PC/SC, files, settings
storage, logging and Windows elevation. `tests/` runs the library on concrete cases.
