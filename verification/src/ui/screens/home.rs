//! What the home screen shows of a connected board.
use vstd::prelude::*;

verus! {

/// The unit a flash size is shown in.
#[derive(Clone, Copy, Debug, PartialEq, Eq, Structural)]
pub enum SizeUnit {
    MB,
    KB,
    B,
}

/// A flash chip size for display: whole megabytes when it is at least one and a
/// multiple of it, else whole kilobytes likewise, else bytes.
pub open spec fn spec_flash_size(bytes: u32) -> (u32, SizeUnit) {
    if bytes >= 0x10_0000 && bytes % 0x10_0000 == 0 {
        ((bytes / 0x10_0000) as u32, SizeUnit::MB)
    } else if bytes >= 1024 && bytes % 1024 == 0 {
        ((bytes / 1024) as u32, SizeUnit::KB)
    } else {
        (bytes, SizeUnit::B)
    }
}

/// The number and unit to show for a flash chip of `bytes` bytes (see
/// [`spec_flash_size`]); RP2350 boards have whole megabytes.
pub fn flash_size(bytes: u32) -> (r: (u32, SizeUnit))
    ensures
        r == spec_flash_size(bytes),
{
    if bytes >= 0x10_0000 && bytes % 0x10_0000 == 0 {
        (bytes / 0x10_0000, SizeUnit::MB)
    } else if bytes >= 1024 && bytes % 1024 == 0 {
        (bytes / 1024, SizeUnit::KB)
    } else {
        (bytes, SizeUnit::B)
    }
}

/// A shown flash size is exact: the number times its unit is the byte count. The
/// unit is megabytes exactly for a non-zero whole number of megabytes, kilobytes
/// exactly for a non-zero whole number of kilobytes that is not, and bytes otherwise.
pub proof fn law_flash_size_is_exact(bytes: u32)
    ensures
        ({
            let (n, unit) = spec_flash_size(bytes);
            &&& unit == SizeUnit::MB ==> n * 0x10_0000 == bytes
            &&& unit == SizeUnit::KB ==> n * 1024 == bytes
            &&& unit == SizeUnit::B ==> n == bytes
            &&& (unit == SizeUnit::MB <==> (bytes > 0 && bytes % 0x10_0000 == 0))
            &&& (unit == SizeUnit::KB <==> (bytes > 0 && bytes % 1024 == 0 && bytes % 0x10_0000
                != 0))
        }),
{
}

} // verus!
