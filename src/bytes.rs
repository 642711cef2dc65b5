//! Little-endian byte encoding of integers and field elements.
use crate::field::{Fp, MODULUS};
use crate::field;
use vstd::arithmetic::div_mod::{lemma_fundamental_div_mod, lemma_small_mod};
use vstd::prelude::*;

verus! {

pub open spec fn pow256(k: nat) -> nat
    decreases k,
{
    if k == 0 {
        1
    } else {
        256 * pow256((k - 1) as nat)
    }
}

/// The `k` low bytes of `x`, least significant first.
pub open spec fn le_bytes(x: nat, k: nat) -> Seq<u8>
    decreases k,
{
    if k == 0 {
        Seq::empty()
    } else {
        seq![(x % 256) as u8] + le_bytes(x / 256, (k - 1) as nat)
    }
}

/// The number whose bytes, least significant first, are `s`.
pub open spec fn le_value(s: Seq<u8>) -> nat
    decreases s.len(),
{
    if s.len() == 0 {
        0
    } else {
        s[0] as nat + 256 * le_value(s.drop_first())
    }
}

/// The eight bytes of a field element's value.
pub open spec fn fp_bytes(x: Fp) -> Seq<u8> {
    le_bytes(x@ as nat, 8)
}

/// The value of the element whose eight bytes start at `pos`, if they are
/// there and their value is below the modulus.
pub open spec fn decode_fp(bytes: Seq<u8>, pos: nat) -> Option<int> {
    if pos + 8 <= bytes.len() && le_value(bytes.subrange(pos as int, pos + 8int)) < MODULUS {
        Some(le_value(bytes.subrange(pos as int, pos + 8int)) as int)
    } else {
        None
    }
}

pub proof fn lemma_pow256_8()
    ensures
        pow256(8) == 0x1_0000_0000_0000_0000,
{
    reveal_with_fuel(pow256, 9);
}

pub proof fn lemma_le_bytes_len(x: nat, k: nat)
    ensures
        le_bytes(x, k).len() == k,
    decreases k,
{
    if k > 0 {
        lemma_le_bytes_len(x / 256, (k - 1) as nat);
    }
}

pub proof fn lemma_le_round_trip(x: nat, k: nat)
    requires
        x < pow256(k),
    ensures
        le_value(le_bytes(x, k)) == x,
    decreases k,
{
    if k > 0 {
        let rest = le_bytes(x / 256, (k - 1) as nat);
        assert(le_bytes(x, k).drop_first() =~= rest);
        lemma_fundamental_div_mod(x as int, 256);
        assert(x / 256 < pow256((k - 1) as nat)) by (nonlinear_arith)
            requires
                x < 256 * pow256((k - 1) as nat),
        ;
        lemma_le_round_trip(x / 256, (k - 1) as nat);
    } else {
    }
}

pub proof fn lemma_le_value_bound(s: Seq<u8>)
    ensures
        le_value(s) < pow256(s.len()),
    decreases s.len(),
{
    if s.len() > 0 {
        lemma_le_value_bound(s.drop_first());
        let r = le_value(s.drop_first());
        let p = pow256((s.len() - 1) as nat);
        assert(s[0] as nat + 256 * r < 256 * p) by (nonlinear_arith)
            requires
                r < p,
                s[0] < 256,
        ;
    }
}

/// Where the eight bytes of `x` stand at `pos`, they are read back as `x`.
pub proof fn lemma_fp_round_trip(x: Fp, bytes: Seq<u8>, pos: nat)
    requires
        pos + 8 <= bytes.len(),
        bytes.subrange(pos as int, pos + 8int) == fp_bytes(x),
    ensures
        decode_fp(bytes, pos) == Some(x@),
{
    lemma_le_bytes_len(x@ as nat, 8);
    Fp::lemma_range(x);
    lemma_pow256_8();
    lemma_le_round_trip(x@ as nat, 8);
}

/// Appends the eight bytes of `x`.
pub fn write_fp(x: &Fp, out: &mut Vec<u8>)
    ensures
        final(out)@ == old(out)@ + fp_bytes(*x),
{
    let mut v: u64 = x.value();
    let ghost start = out@;
    let mut i: usize = 0;
    proof {
        lemma_le_bytes_len(x@ as nat, 8);
        assert(out@ + le_bytes(v as nat, 8) =~= start + fp_bytes(*x));
    }
    while i < 8
        invariant
            i <= 8,
            out@ + le_bytes(v as nat, (8 - i) as nat) == start + fp_bytes(*x),
        decreases 8 - i,
    {
        let ghost before = out@;
        let ghost tail = le_bytes((v / 256) as nat, (8 - i - 1) as nat);
        assert(le_bytes(v as nat, (8 - i) as nat) == seq![(v % 256) as u8] + tail);
        out.push((v % 256) as u8);
        assert(out@ + tail =~= before + (seq![(v % 256) as u8] + tail));
        v = v / 256;
        i = i + 1;
    }
    assert(out@ + le_bytes(v as nat, 0) =~= out@);
}

/// The element whose eight bytes start at `pos`, if they are there and
/// hold a value below the modulus.
pub fn read_fp(bytes: &Vec<u8>, pos: usize) -> (r: Option<Fp>)
    ensures
        r is Some == decode_fp(bytes@, pos as nat) is Some,
        r matches Some(x) ==> decode_fp(bytes@, pos as nat) == Some(x@),
{
    if pos > bytes.len() || bytes.len() - pos < 8 {
        return None;
    }
    let ghost s = bytes@.subrange(pos as int, pos + 8);
    let len = bytes.len();
    let mut acc: u64 = 0;
    let mut i: usize = 8;
    proof {
        assert(s.subrange(8, 8) =~= Seq::<u8>::empty());
    }
    while i > 0
        invariant
            i <= 8,
            len == bytes@.len(),
            pos + 8 <= bytes@.len(),
            s == bytes@.subrange(pos as int, pos + 8),
            acc as nat == le_value(s.subrange(i as int, 8)),
        decreases i,
    {
        let b = bytes[pos + i - 1];
        proof {
            let now = s.subrange(i - 1, 8);
            assert(now.drop_first() =~= s.subrange(i as int, 8));
            assert(now[0] == b);
            lemma_le_value_bound(now);
            lemma_pow256_8();
            lemma_pow256_monotone((9 - i) as nat, 8);
        }
        acc = acc * 256 + b as u64;
        i = i - 1;
    }
    assert(s.subrange(0, 8) =~= s);
    if acc < MODULUS {
        proof {
            lemma_small_mod(acc as nat, field::p() as nat);
        }
        Some(Fp::from_u64(acc))
    } else {
        None
    }
}

proof fn lemma_pow256_monotone(a: nat, b: nat)
    requires
        a <= b,
    ensures
        pow256(a) <= pow256(b),
    decreases b,
{
    if a < b {
        lemma_pow256_monotone(a, (b - 1) as nat);
    }
}

} // verus!
