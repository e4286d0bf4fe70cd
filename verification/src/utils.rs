use vstd::prelude::*;

verus! {

/// The position `n` rounded up to the next multiple of 4 (the OSC alignment
/// grid); a position already on the grid stays where it is.
pub open spec fn pad4(n: int) -> int {
    if n % 4 == 0 {
        n
    } else {
        n + (4 - n % 4)
    }
}

/// Returns the 4-byte padded position.
pub fn pad(pos: u64) -> (r: u64)
    requires
        pos + 3 <= u64::MAX,
    ensures
        r == pad4(pos as int),
{
    match pos % 4 {
        0 => pos,
        d => pos + (4 - d),
    }
}

} // verus!
