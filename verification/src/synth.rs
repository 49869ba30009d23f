//! Inputs for error injection.

use vstd::prelude::*;

verus! {

/// First `keep` bytes of `bytes`, an error-injection or seed input.
pub fn truncate_prefix(bytes: &[u8], keep: usize) -> (r: Vec<u8>)
    ensures
        r@ == bytes@.take(if keep < bytes@.len() {
            keep as int
        } else {
            bytes@.len() as int
        }),
{
    let end: usize = if keep < bytes.len() {
        keep
    } else {
        bytes.len()
    };
    let mut out: Vec<u8> = Vec::new();
    let mut i: usize = 0;
    while i < end
        invariant
            i <= end <= bytes@.len(),
            out@ == bytes@.take(i as int),
        decreases end - i,
    {
        out.push(bytes[i]);
        i = i + 1;
    }
    out
}

} // verus!
