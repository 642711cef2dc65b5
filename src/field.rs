//! The prime field over which the library computes: integers modulo
//! `p = 2^64 - 2^32 + 1`, a prime whose multiplicative group has a subgroup
//! of order `2^32`, so that radix-2 evaluation domains of up to `2^32`
//! points exist.
use vstd::arithmetic::div_mod::{
    lemma_add_mod_noop, lemma_mod_add_multiples_vanish, lemma_mul_mod_noop_left,
    lemma_mul_mod_noop_right, lemma_small_mod,
};
use vstd::arithmetic::mul::lemma_mul_is_associative;
use vstd::prelude::*;

verus! {

/// The field modulus.
pub const MODULUS: u64 = 18446744069414584321;

/// The number of times 2 divides `MODULUS - 1`.
pub const TWO_ADICITY: u32 = 32;

/// A generator of the subgroup of order `2^TWO_ADICITY` (`7^((p-1)/2^32)`).
pub const TWO_ADIC_ROOT_OF_UNITY: u64 = 1753635133440165772;

/// A generator of the whole multiplicative group.
pub const MULTIPLICATIVE_GENERATOR: u64 = 7;

/// The inverse of `MULTIPLICATIVE_GENERATOR`.
pub const MULTIPLICATIVE_GENERATOR_INV: u64 = 2635249152773512046;

/// The inverse of 2.
pub const TWO_INV: u64 = 9223372034707292161;

pub open spec fn p() -> int {
    MODULUS as int
}

#[verifier::opaque]
pub open spec fn fadd(a: int, b: int) -> int {
    (a + b) % p()
}

#[verifier::opaque]
pub open spec fn fsub(a: int, b: int) -> int {
    (a - b) % p()
}

#[verifier::opaque]
pub open spec fn fmul(a: int, b: int) -> int {
    (a * b) % p()
}

/// `2^n`.
pub open spec fn pow2(n: nat) -> nat
    decreases n,
{
    if n == 0 {
        1
    } else {
        2 * pow2((n - 1) as nat)
    }
}

/// The values of a sequence of elements.
pub open spec fn vals(s: Seq<Fp>) -> Seq<int> {
    s.map_values(|x: Fp| x@)
}

/// `x^e` in the field (`x^0` is 1).
pub open spec fn fpow(x: int, e: nat) -> int
    decreases e,
{
    if e == 0 {
        1
    } else {
        fmul(fpow(x, (e - 1) as nat), x)
    }
}

/// The multiplicative inverse of a non-zero `x`, by Fermat's little theorem;
/// zero for zero.
pub open spec fn finv(x: int) -> int {
    fpow(x, (MODULUS - 2) as nat)
}

/// `a / b` in the field.
pub open spec fn fdiv(a: int, b: int) -> int {
    fmul(a, finv(b))
}

/// An element of the field, held in canonical form (below the modulus).
#[derive(Clone, Copy, Debug, PartialEq, Eq, Structural)]
pub struct Fp {
    v: u64,
}

impl View for Fp {
    type V = int;

    closed spec fn view(&self) -> int {
        self.v as int % p()
    }
}

pub proof fn lemma_fmul_assoc(a: int, b: int, c: int)
    ensures
        fmul(fmul(a, b), c) == fmul(a, fmul(b, c)),
{
    reveal(fmul);
    lemma_mul_mod_noop_left(a * b, c, p());
    lemma_mul_mod_noop_right(a, b * c, p());
    lemma_mul_is_associative(a, b, c);
}

pub proof fn lemma_fmul_canon(a: int, b: int)
    ensures
        0 <= fmul(a, b) < p(),
        fmul(a, b) == fmul(a % p(), b),
        fmul(a, b) == fmul(a, b % p()),
{
    reveal(fmul);
    lemma_mul_mod_noop_left(a, b, p());
    lemma_mul_mod_noop_right(a, b, p());
}

pub proof fn lemma_fmul_one(a: int)
    requires
        0 <= a < p(),
    ensures
        fmul(a, 1) == a,
        fmul(1, a) == a,
{
    reveal(fmul);
    lemma_small_mod(a as nat, p() as nat);
}

/// Powers add up: `x^(a+b) = x^a * x^b`.
pub proof fn lemma_fpow_add(x: int, a: nat, b: nat)
    requires
        0 <= x < p(),
    ensures
        fpow(x, a + b) == fmul(fpow(x, a), fpow(x, b)),
    decreases b,
{
    lemma_fpow_range(x, a);
    if b == 0 {
        lemma_fmul_one(fpow(x, a));
    } else {
        lemma_fpow_add(x, a, (b - 1) as nat);
        assert((a + b - 1) as nat == a + (b - 1) as nat);
        lemma_fmul_assoc(fpow(x, a), fpow(x, (b - 1) as nat), x);
    }
}

pub proof fn lemma_fpow_range(x: int, e: nat)
    requires
        0 <= x < p(),
    ensures
        0 <= fpow(x, e) < p(),
    decreases e,
{
    if e == 0 {
    } else {
        lemma_fmul_canon(fpow(x, (e - 1) as nat), x);
    }
}

/// Squaring the base halves the exponent: `x^(2k) = (x^2)^k`.
pub proof fn lemma_fpow_square(x: int, k: nat)
    requires
        0 <= x < p(),
    ensures
        fpow(x, 2 * k) == fpow(fmul(x, x), k),
    decreases k,
{
    if k > 0 {
        lemma_fpow_square(x, (k - 1) as nat);
        let km = (k - 1) as nat;
        assert(2 * k == (2 * km + 1) + 1);
        assert(fpow(x, 2 * k) == fmul(fpow(x, (2 * km + 1) as nat), x));
        assert(fpow(x, (2 * km + 1) as nat) == fmul(fpow(x, 2 * km), x));
        lemma_fmul_assoc(fpow(x, 2 * km), x, x);
    }
}

impl Fp {
    #[verifier::type_invariant]
    spec fn canonical(&self) -> bool {
        self.v < MODULUS
    }

    /// The value of an element lies below the modulus.
    pub proof fn lemma_range(a: Fp)
        ensures
            0 <= a@ < p(),
    {
    }

    /// The element `s mod p`.
    fn reduce(s: u128) -> (r: Fp)
        ensures
            r@ == s as int % p(),
            r == Fp::spec_from_int(s as int),
    {
        let v = (s % (MODULUS as u128)) as u64;
        proof {
            lemma_small_mod(v as nat, p() as nat);
        }
        Fp { v }
    }

    pub fn zero() -> (r: Fp)
        ensures
            r@ == 0,
    {
        Fp { v: 0 }
    }

    pub fn one() -> (r: Fp)
        ensures
            r@ == 1,
    {
        proof {
            lemma_small_mod(1, p() as nat);
        }
        Fp { v: 1 }
    }

    /// The element `x mod p`, in spec code.
    pub closed spec fn spec_from_int(x: int) -> Fp {
        Fp { v: (x % p()) as u64 }
    }

    pub proof fn lemma_from_int(x: int)
        ensures
            Fp::spec_from_int(x)@ == x % p(),
            Fp::spec_from_int(x) == Fp::spec_from_int(x % p()),
    {
        lemma_small_mod((x % p()) as nat, p() as nat);
        vstd::arithmetic::div_mod::lemma_mod_twice(x, p());
    }

    /// The element `x mod p`.
    pub fn from_u64(x: u64) -> (r: Fp)
        ensures
            r@ == x as int % p(),
            r == Fp::spec_from_int(x as int),
    {
        Fp::reduce(x as u128)
    }

    /// The canonical integer that stands for this element.
    pub fn value(&self) -> (r: u64)
        ensures
            r as int == self@,
    {
        proof {
            use_type_invariant(self);
            lemma_small_mod(self.v as nat, p() as nat);
        }
        self.v
    }

    /// Whether two elements are equal.
    pub fn equals(&self, other: &Fp) -> (r: bool)
        ensures
            r == (self@ == other@),
    {
        proof {
            use_type_invariant(self);
            lemma_small_mod(self.v as nat, p() as nat);
            use_type_invariant(other);
            lemma_small_mod(other.v as nat, p() as nat);
        }
        self.v == other.v
    }

    pub fn is_zero(&self) -> (r: bool)
        ensures
            r == (self@ == 0),
    {
        proof {
            use_type_invariant(self);
            lemma_small_mod(self.v as nat, p() as nat);
        }
        self.v == 0
    }

    pub fn add(&self, other: &Fp) -> (r: Fp)
        ensures
            r@ == fadd(self@, other@),
    {
        proof {
            reveal(fadd);
            use_type_invariant(self);
            lemma_small_mod(self.v as nat, p() as nat);
            use_type_invariant(other);
            lemma_small_mod(other.v as nat, p() as nat);
        }
        let s: u128 = self.v as u128 + other.v as u128;
        Fp::reduce(s)
    }

    pub fn sub(&self, other: &Fp) -> (r: Fp)
        ensures
            r@ == fsub(self@, other@),
    {
        proof {
            reveal(fsub);
            use_type_invariant(self);
            lemma_small_mod(self.v as nat, p() as nat);
            use_type_invariant(other);
            lemma_small_mod(other.v as nat, p() as nat);
            lemma_mod_add_multiples_vanish(self@ - other@, p());
        }
        let s: u128 = self.v as u128 + (MODULUS - other.v) as u128;
        Fp::reduce(s)
    }

    pub fn neg(&self) -> (r: Fp)
        ensures
            r@ == fsub(0, self@),
    {
        Fp::zero().sub(self)
    }

    pub fn mul(&self, other: &Fp) -> (r: Fp)
        ensures
            r@ == fmul(self@, other@),
    {
        proof {
            reveal(fmul);
            use_type_invariant(self);
            lemma_small_mod(self.v as nat, p() as nat);
            use_type_invariant(other);
            lemma_small_mod(other.v as nat, p() as nat);
        }
        let a: u128 = self.v as u128;
        let b: u128 = other.v as u128;
        assert(a * b <= 0xffff_ffff_ffff_ffff_ffff_ffff_ffff_ffffu128) by (nonlinear_arith)
            requires
                a <= 0xffff_ffff_ffff_ffffu128,
                b <= 0xffff_ffff_ffff_ffffu128,
        ;
        let m: u128 = a * b;
        Fp::reduce(m)
    }

    pub fn square(&self) -> (r: Fp)
        ensures
            r@ == fmul(self@, self@),
    {
        self.mul(self)
    }

    /// `self^e`, by square-and-multiply.
    pub fn pow(&self, e: u64) -> (r: Fp)
        ensures
            r@ == fpow(self@, e as nat),
    {
        proof {
            use_type_invariant(self);
            lemma_small_mod(self.v as nat, p() as nat);
        }
        let mut acc = Fp::one();
        let mut base = *self;
        let mut k: u64 = e;
        proof {
            Fp::lemma_range(*self);
            lemma_fpow_range(self@, e as nat);
            lemma_fmul_one(fpow(self@, e as nat));
        }
        while k > 0
            invariant
                0 <= base@ < p(),
                0 <= acc@ < p(),
                fmul(acc@, fpow(base@, k as nat)) == fpow(self@, e as nat),
            decreases k,
        {
            let ghost old_acc = acc@;
            let ghost old_base = base@;
            let ghost half = (k / 2) as nat;
            proof {
                lemma_fpow_square(old_base, half);
            }
            if k % 2 == 1 {
                acc = acc.mul(&base);
                proof {
                    assert(k as nat == 1 + 2 * half);
                    lemma_fpow_add(old_base, 1, 2 * half);
                    assert(fpow(old_base, 0) == 1);
                    assert(fpow(old_base, 1) == fmul(1, old_base));
                    lemma_fmul_one(old_base);
                    lemma_fmul_assoc(old_acc, old_base, fpow(old_base, 2 * half));
                }
            } else {
                assert(k as nat == 2 * half);
            }
            base = base.square();
            k = k / 2;
            proof {
                Fp::lemma_range(acc);
                Fp::lemma_range(base);
            }
        }
        proof {
            lemma_fmul_one(acc@);
        }
        acc
    }

    /// The multiplicative inverse of a non-zero element (zero for zero):
    /// `self^(p-2)`.
    pub fn inverse(&self) -> (r: Fp)
        ensures
            r@ == finv(self@),
    {
        self.pow(MODULUS - 2)
    }
}

} // verus!
