//! Small helpers shared by the key pool.

use vstd::prelude::*;

verus! {

/// `n` zero bytes.
pub open spec fn zeros(n: nat) -> Seq<u8> {
    Seq::new(n, |i: int| 0u8)
}

/// A vector of `amount` zero bytes.
pub fn u8_vector(amount: u8) -> (v: Vec<u8>)
    ensures
        v@ == zeros(amount as nat),
{
    let mut v: Vec<u8> = Vec::new();
    for i in 0..amount
        invariant
            v@ == zeros(i as nat),
    {
        v.push(0);
        assert(v@ =~= zeros((i + 1) as nat));
    }
    v
}

/// Whether a decoded plaintext reads as English.  Every string that
/// decodes is accepted: validity of the UTF-8 decoding is the only filter.
pub fn is_english(_text: String) -> (r: bool)
    ensures
        r,
{
    true
}

/// A byte-for-byte copy of `v`.
pub(crate) fn copy_bytes(v: &Vec<u8>) -> (r: Vec<u8>)
    ensures
        r@ == v@,
{
    let r = v.clone();
    assert(r@ =~= v@);
    r
}

} // verus!
