//! Names of the files written next to a target.
use vstd::prelude::*;
use crate::text::{decimal, u64_to_decimal};

verus! {

/// The backup file name of a target's previous contents:
/// `<base>.<epoch-seconds>.bak`.
pub fn backup_name(base: &str, timestamp: u64) -> (r: String)
    ensures
        r@ == base@ + "."@ + decimal(timestamp as nat) + ".bak"@,
{
    String::from_str(base).concat(".").concat(u64_to_decimal(timestamp).as_str()).concat(".bak")
}

/// The sibling `<target>.tmp` a new text is written to before it is
/// renamed over the target (same directory, so the rename is atomic).
pub fn temp_name(target: &str) -> (r: String)
    ensures
        r@ == target@ + ".tmp"@,
{
    String::from_str(target).concat(".tmp")
}

} // verus!
