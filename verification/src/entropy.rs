use vstd::prelude::*;

verus! {

/// Relies on rand::random_range: returns a value drawn from the given
/// half-open range; the call panics only on an empty range, which the
/// precondition rules out.
#[verifier::external_body]
pub(crate) fn random_usize_in(lo: usize, hi: usize) -> (r: usize)
    requires
        lo < hi,
    ensures
        lo <= r < hi,
{
    rand::random_range(lo..hi)
}

/// Relies on rand::random: draws one byte; nothing holds of its value.
#[verifier::external_body]
pub(crate) fn random_byte() -> u8 {
    rand::random()
}

/// A vector of freshly drawn random bytes of the asked-for length.
pub(crate) fn random_bytes(len: usize) -> (r: Vec<u8>)
    ensures
        r@.len() == len,
{
    let mut data: Vec<u8> = Vec::new();
    let mut idx: usize = 0;
    while idx < len
        invariant
            0 <= idx <= len,
            data@.len() == idx,
        decreases len - idx,
    {
        data.push(random_byte());
        idx = idx + 1;
    }
    data
}

} // verus!
