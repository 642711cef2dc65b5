//! The algebraic hash capability that Merkle trees are built on, and the
//! parameter sets of the Poseidon instances.
use crate::field::{fadd, Fp};
use crate::field;
use vstd::arithmetic::div_mod::lemma_add_mod_noop;
use vstd::prelude::*;

verus! {

/// Parameters of a field-based hash: its rate, the number of field elements
/// absorbed per permutation.
pub trait FieldBasedHashParameters {
    spec fn spec_rate() -> nat;

    fn rate() -> (r: usize)
        ensures
            r as nat == Self::spec_rate(),
    ;
}

/// A hash that absorbs field elements one at a time and squeezes one field
/// element out. Its digest depends on the sequence of absorbed elements alone.
pub trait FieldBasedHash: Sized {
    type Parameters: FieldBasedHashParameters;

    /// The digest of a sequence of inputs.
    spec fn digest(inputs: Seq<Fp>) -> Fp;

    /// The inputs absorbed since the state was created or last reset.
    spec fn absorbed(&self) -> Seq<Fp>;

    fn init() -> (r: Self)
        ensures
            r.absorbed() == Seq::<Fp>::empty(),
    ;

    fn update(&mut self, input: Fp)
        ensures
            final(self).absorbed() == old(self).absorbed().push(input),
    ;

    fn finalize(&self) -> (r: Fp)
        ensures
            r == Self::digest(self.absorbed()),
    ;

    fn reset(&mut self)
        ensures
            final(self).absorbed() == Seq::<Fp>::empty(),
    ;
}

/// The sum of a sequence of elements' values.
pub open spec fn seq_sum(s: Seq<Fp>) -> int
    decreases s.len(),
{
    if s.len() == 0 {
        0
    } else {
        seq_sum(s.drop_last()) + s.last()@
    }
}

/// The parameters of `SumHash` with the given rate.
#[derive(Clone, Copy, Debug)]
pub struct SumHashParameters<const RATE: usize>;

impl<const RATE: usize> FieldBasedHashParameters for SumHashParameters<RATE> {
    open spec fn spec_rate() -> nat {
        RATE as nat
    }

    fn rate() -> (r: usize) {
        RATE
    }
}

/// A linear hash: the digest is the sum of the absorbed elements. It is not
/// collision resistant; it serves where a tree's bookkeeping, not its
/// security, is at stake.
pub struct SumHash<const RATE: usize> {
    sum: Fp,
    inputs: Ghost<Seq<Fp>>,
}

impl<const RATE: usize> SumHash<RATE> {
    #[verifier::type_invariant]
    spec fn sum_matches(&self) -> bool {
        self.sum@ == seq_sum(self.inputs@) % field::p()
    }
}

impl<const RATE: usize> FieldBasedHash for SumHash<RATE> {
    type Parameters = SumHashParameters<RATE>;

    open spec fn digest(inputs: Seq<Fp>) -> Fp {
        Fp::spec_from_int(seq_sum(inputs))
    }

    closed spec fn absorbed(&self) -> Seq<Fp> {
        self.inputs@
    }

    fn init() -> (r: Self) {
        proof {
            vstd::arithmetic::div_mod::lemma_small_mod(0, field::p() as nat);
        }
        assert(seq_sum(Seq::<Fp>::empty()) == 0);
        SumHash { sum: Fp::zero(), inputs: Ghost(Seq::empty()) }
    }

    fn update(&mut self, input: Fp) {
        proof {
            use_type_invariant(&*self);
            lemma_add_mod_noop(seq_sum(self.inputs@), input@, field::p());
            Fp::lemma_range(input);
            vstd::arithmetic::div_mod::lemma_small_mod(input@ as nat, field::p() as nat);
            let pushed = self.inputs@.push(input);
            assert(pushed.drop_last() =~= self.inputs@);
        }
        let sum = self.sum.add(&input);
        let ghost inputs = self.inputs@.push(input);
        proof {
            reveal(fadd);
            assert(seq_sum(inputs) == seq_sum(self.inputs@) + input@);
        }
        *self = SumHash { sum, inputs: Ghost(inputs) };
    }

    fn finalize(&self) -> (r: Fp) {
        proof {
            use_type_invariant(self);
            Fp::lemma_from_int(seq_sum(self.inputs@));
        }
        Fp::from_u64(self.sum.value())
    }

    fn reset(&mut self) {
        proof {
            vstd::arithmetic::div_mod::lemma_small_mod(0, field::p() as nat);
        }
        assert(seq_sum(Seq::<Fp>::empty()) == 0);
        *self = SumHash { sum: Fp::zero(), inputs: Ghost(Seq::empty()) };
    }
}

/// Round structure of a Poseidon permutation.
pub trait PoseidonParameters: FieldBasedHashParameters {
    /// Size of the internal state, in field elements.
    fn state_size() -> (r: usize)
        ensures
            r as nat == Self::spec_rate() + 1,
    ;

    /// Half the number of full rounds.
    fn half_full_rounds() -> i32;

    /// The number of partial rounds.
    fn partial_rounds() -> i32;
}

/// x^5-Poseidon-128 over the scalar field of the Tweedle Dee curve.
#[derive(Clone, Copy, Debug)]
pub struct FrPoseidonParameters;

impl FieldBasedHashParameters for FrPoseidonParameters {
    open spec fn spec_rate() -> nat {
        2
    }

    fn rate() -> (r: usize) {
        2
    }
}

impl PoseidonParameters for FrPoseidonParameters {
    fn state_size() -> (r: usize) {
        3
    }

    fn half_full_rounds() -> (r: i32)
        ensures
            r == 4,
    {
        4
    }

    fn partial_rounds() -> (r: i32)
        ensures
            r == 56,
    {
        56
    }
}

/// x^5-Poseidon-128 over the scalar field of the BN382 dual curve.
#[derive(Clone, Copy, Debug)]
pub struct BN382FqPoseidonParameters;

impl FieldBasedHashParameters for BN382FqPoseidonParameters {
    open spec fn spec_rate() -> nat {
        2
    }

    fn rate() -> (r: usize) {
        2
    }
}

impl PoseidonParameters for BN382FqPoseidonParameters {
    fn state_size() -> (r: usize) {
        3
    }

    fn half_full_rounds() -> (r: i32)
        ensures
            r == 4,
    {
        4
    }

    fn partial_rounds() -> (r: i32)
        ensures
            r == 56,
    {
        56
    }
}

} // verus!
