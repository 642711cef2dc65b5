//! Field-based Merkle tree authentication paths and the reduction of rank-1
//! constraint systems to quadratic arithmetic programs, over a 64-bit prime
//! field with large power-of-two subgroups.
pub mod bytes;
pub mod crh;
pub mod curves;
pub mod domain;
pub mod field;
pub mod field_based_mht;
pub mod merkle_laws;
pub mod path_bytes;
pub mod r1cs_to_qap;

use vstd::prelude::*;

verus! {

/// Errors of the cryptographic primitives.
#[derive(Clone, Copy, Debug, PartialEq, Eq, Structural)]
pub enum CryptoError {
    IncorrectInputLength(usize),
    NotPrimeOrder,
    FailedVerification,
}

/// The number of `false` values before the first `true`.
pub open spec fn leading_false_count(bits: Seq<bool>) -> nat
    decreases bits.len(),
{
    if bits.len() == 0 || bits[0] {
        0
    } else {
        1 + leading_false_count(bits.drop_first())
    }
}

/// The number of leading `false` values in `bits`.
pub fn leading_zeros(bits: Vec<bool>) -> (r: u32)
    requires
        bits@.len() <= u32::MAX,
    ensures
        r == leading_false_count(bits@),
{
    let mut ctr: u32 = 0;
    let mut done = false;
    let mut i: usize = 0;
    assert(bits@.skip(0) =~= bits@);
    while i < bits.len() && !done
        invariant
            i <= bits@.len(),
            bits@.len() <= u32::MAX,
            ctr == i,
            done ==> leading_false_count(bits@.skip(i as int)) == 0,
            leading_false_count(bits@) == ctr + leading_false_count(bits@.skip(i as int)),
        decreases bits@.len() - i + (if done { 0int } else { 1int }),
    {
        assert(bits@.skip(i as int)[0] == bits@[i as int]);
        if !bits[i] {
            assert(bits@.skip(i as int).drop_first() =~= bits@.skip(i + 1));
            ctr = ctr + 1;
            i = i + 1;
        } else {
            done = true;
        }
    }
    assert(done || bits@.skip(i as int).len() == 0);
    ctr
}

} // verus!
