//! Reporting how much has been indexed.
use vstd::prelude::*;

verus! {

/// The unit in which a byte count is shown: the largest of B, KiB, MiB, GiB
/// and TiB (as 0 to 4) that the count reaches at least once.
pub open spec fn byte_unit(bytes: int) -> int {
    if bytes >= 0x100_0000_0000 {
        4
    } else if bytes >= 0x4000_0000 {
        3
    } else if bytes >= 0x10_0000 {
        2
    } else if bytes >= 0x400 {
        1
    } else {
        0
    }
}

/// The unit in which a byte count is shown (0 for B up to 4 for TiB).
pub fn byte_unit_index(bytes: i64) -> (r: usize)
    ensures
        r == byte_unit(bytes as int),
{
    if bytes >= 0x100_0000_0000 {
        4
    } else if bytes >= 0x4000_0000 {
        3
    } else if bytes >= 0x10_0000 {
        2
    } else if bytes >= 0x400 {
        1
    } else {
        0
    }
}

/// The name of a byte unit.
pub open spec fn unit_name_of(index: int) -> Seq<char> {
    if index == 0 {
        "B"@
    } else if index == 1 {
        "KiB"@
    } else if index == 2 {
        "MiB"@
    } else if index == 3 {
        "GiB"@
    } else {
        "TiB"@
    }
}

/// The name of the byte unit with the given index (TiB beyond 4).
pub fn byte_unit_name(index: usize) -> (r: &'static str)
    ensures
        r@ == unit_name_of(index as int),
{
    if index == 0 {
        "B"
    } else if index == 1 {
        "KiB"
    } else if index == 2 {
        "MiB"
    } else if index == 3 {
        "GiB"
    } else {
        "TiB"
    }
}

} // verus!
