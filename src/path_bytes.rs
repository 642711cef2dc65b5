//! The byte encoding of Merkle paths. Each count and position takes one
//! byte, so a path has at most 255 levels and a level at most 255 siblings.
use crate::bytes::{decode_fp, fp_bytes, lemma_fp_round_trip, lemma_le_bytes_len, read_fp};
use crate::field::{vals, Fp};
use vstd::prelude::*;

verus! {

/// The bytes of each element in turn.
pub open spec fn elements_bytes(s: Seq<Fp>) -> Seq<u8>
    decreases s.len(),
{
    if s.len() == 0 {
        Seq::empty()
    } else {
        elements_bytes(s.drop_last()) + fp_bytes(s.last())
    }
}

/// A level of a general path: the number of siblings, the siblings, the
/// position.
pub open spec fn general_level_bytes(level: (Seq<Fp>, usize)) -> Seq<u8> {
    seq![level.0.len() as u8] + elements_bytes(level.0) + seq![level.1 as u8]
}

pub open spec fn general_levels_bytes(levels: Seq<(Seq<Fp>, usize)>) -> Seq<u8>
    decreases levels.len(),
{
    if levels.len() == 0 {
        Seq::empty()
    } else {
        general_levels_bytes(levels.drop_last()) + general_level_bytes(levels.last())
    }
}

/// A general path: the number of levels, then the levels.
pub open spec fn general_path_bytes(levels: Seq<(Seq<Fp>, usize)>) -> Seq<u8> {
    seq![levels.len() as u8] + general_levels_bytes(levels)
}

/// A level of a binary path: the sibling, then 0 for left or 1 for right.
pub open spec fn binary_level_bytes(level: (Fp, bool)) -> Seq<u8> {
    fp_bytes(level.0) + seq![
        if level.1 {
            1u8
        } else {
            0u8
        },
    ]
}

pub open spec fn binary_levels_bytes(levels: Seq<(Fp, bool)>) -> Seq<u8>
    decreases levels.len(),
{
    if levels.len() == 0 {
        Seq::empty()
    } else {
        binary_levels_bytes(levels.drop_last()) + binary_level_bytes(levels.last())
    }
}

/// A binary path: the number of levels, then the levels.
pub open spec fn binary_path_bytes(levels: Seq<(Fp, bool)>) -> Seq<u8> {
    seq![levels.len() as u8] + binary_levels_bytes(levels)
}

/// The values of the elements of a general path.
pub open spec fn general_values(levels: Seq<(Seq<Fp>, usize)>) -> Seq<(Seq<int>, usize)> {
    levels.map_values(|l: (Seq<Fp>, usize)| (vals(l.0), l.1))
}

/// The values of the siblings of a binary path.
pub open spec fn binary_values(levels: Seq<(Fp, bool)>) -> Seq<(int, bool)> {
    levels.map_values(|l: (Fp, bool)| (l.0@, l.1))
}

/// Whether the counts and positions of a general path fit in a byte each.
pub open spec fn general_fits_bytes(levels: Seq<(Seq<Fp>, usize)>) -> bool {
    &&& levels.len() <= 255
    &&& forall|l: int|
        0 <= l < levels.len() ==> (#[trigger] levels[l]).0.len() <= 255 && levels[l].1 <= 255
}

/// `count` elements read from `pos` on, and the position after them.
pub open spec fn decode_elements(bytes: Seq<u8>, pos: nat, count: nat) -> Option<(Seq<int>, nat)>
    decreases count,
{
    if count == 0 {
        Some((Seq::empty(), pos))
    } else {
        match decode_elements(bytes, pos, (count - 1) as nat) {
            Some((xs, p)) => match decode_fp(bytes, p) {
                Some(x) => Some((xs.push(x), p + 8)),
                None => None,
            },
            None => None,
        }
    }
}

pub open spec fn decode_general_level(bytes: Seq<u8>, pos: nat) -> Option<((Seq<int>, usize), nat)> {
    if pos < bytes.len() {
        match decode_elements(bytes, pos + 1, bytes[pos as int] as nat) {
            Some((xs, p)) => if p < bytes.len() {
                Some(((xs, bytes[p as int] as usize), p + 1))
            } else {
                None
            },
            None => None,
        }
    } else {
        None
    }
}

pub open spec fn decode_general_levels(bytes: Seq<u8>, pos: nat, count: nat) -> Option<
    (Seq<(Seq<int>, usize)>, nat),
>
    decreases count,
{
    if count == 0 {
        Some((Seq::empty(), pos))
    } else {
        match decode_general_levels(bytes, pos, (count - 1) as nat) {
            Some((ls, p)) => match decode_general_level(bytes, p) {
                Some((l, q)) => Some((ls.push(l), q)),
                None => None,
            },
            None => None,
        }
    }
}

/// The general path at the start of `bytes`, as values, and the number of
/// bytes it takes.
pub open spec fn decode_general_path(bytes: Seq<u8>) -> Option<(Seq<(Seq<int>, usize)>, nat)> {
    if bytes.len() > 0 {
        decode_general_levels(bytes, 1, bytes[0] as nat)
    } else {
        None
    }
}

pub open spec fn decode_binary_level(bytes: Seq<u8>, pos: nat) -> Option<((int, bool), nat)> {
    match decode_fp(bytes, pos) {
        Some(x) => if pos + 8 < bytes.len() && bytes[pos + 8int] <= 1 {
            Some(((x, bytes[pos + 8int] == 1), pos + 9))
        } else {
            None
        },
        None => None,
    }
}

pub open spec fn decode_binary_levels(bytes: Seq<u8>, pos: nat, count: nat) -> Option<
    (Seq<(int, bool)>, nat),
>
    decreases count,
{
    if count == 0 {
        Some((Seq::empty(), pos))
    } else {
        match decode_binary_levels(bytes, pos, (count - 1) as nat) {
            Some((ls, p)) => match decode_binary_level(bytes, p) {
                Some((l, q)) => Some((ls.push(l), q)),
                None => None,
            },
            None => None,
        }
    }
}

/// The binary path at the start of `bytes`, as values, and the number of
/// bytes it takes.
pub open spec fn decode_binary_path(bytes: Seq<u8>) -> Option<(Seq<(int, bool)>, nat)> {
    if bytes.len() > 0 {
        decode_binary_levels(bytes, 1, bytes[0] as nat)
    } else {
        None
    }
}

pub proof fn lemma_elements_bytes_len(s: Seq<Fp>)
    ensures
        elements_bytes(s).len() == 8 * s.len(),
    decreases s.len(),
{
    if s.len() > 0 {
        lemma_elements_bytes_len(s.drop_last());
        lemma_le_bytes_len(s.last()@ as nat, 8);
    }
}

proof fn lemma_elements_round_trip(s: Seq<Fp>, bytes: Seq<u8>, pos: int)
    requires
        pos >= 0,
        pos + 8 * s.len() <= bytes.len(),
        bytes.subrange(pos, pos + 8 * s.len()) == elements_bytes(s),
    ensures
        decode_elements(bytes, pos as nat, s.len()) == Some((vals(s), (pos + 8 * s.len()) as nat)),
    decreases s.len(),
{
    if s.len() > 0 {
        let init = s.drop_last();
        let k: int = s.len() - 1;
        lemma_elements_bytes_len(init);
        lemma_le_bytes_len(s.last()@ as nat, 8);
        let whole = bytes.subrange(pos, pos + 8 * s.len());
        assert(whole.subrange(0, 8 * k) =~= elements_bytes(init));
        assert(bytes.subrange(pos, pos + 8 * k) =~= whole.subrange(0, 8 * k));
        lemma_elements_round_trip(init, bytes, pos);
        assert(bytes.subrange(pos + 8 * k, pos + 8 * k + 8) =~= whole.subrange(8 * k, 8 * k + 8));
        assert(whole.subrange(8 * k, 8 * k + 8) =~= fp_bytes(s.last()));
        lemma_fp_round_trip(s.last(), bytes, (pos + 8 * k) as nat);
        assert(vals(init).push(s.last()@) =~= vals(s));
    }
}

/// Reading back the bytes of a general path whose counts and positions fit
/// in a byte gives the path's values, whatever bytes follow.
pub proof fn lemma_general_path_round_trip(levels: Seq<(Seq<Fp>, usize)>, rest: Seq<u8>)
    requires
        general_fits_bytes(levels),
    ensures
        decode_general_path(general_path_bytes(levels) + rest) == Some(
            (general_values(levels), general_path_bytes(levels).len()),
        ),
{
    let bytes = general_path_bytes(levels) + rest;
    assert(bytes[0] == levels.len() as u8);
    assert(bytes.subrange(1, 1 + general_levels_bytes(levels).len() as int) =~= general_levels_bytes(
        levels,
    ));
    lemma_general_levels_round_trip(levels, bytes, 1);
}

proof fn lemma_general_levels_round_trip(levels: Seq<(Seq<Fp>, usize)>, bytes: Seq<u8>, pos: int)
    requires
        pos >= 0,
        general_fits_bytes(levels),
        pos + general_levels_bytes(levels).len() <= bytes.len(),
        bytes.subrange(pos, pos + general_levels_bytes(levels).len())
            == general_levels_bytes(levels),
    ensures
        decode_general_levels(bytes, pos as nat, levels.len()) == Some(
            (general_values(levels), (pos + general_levels_bytes(levels).len()) as nat),
        ),
    decreases levels.len(),
{
    if levels.len() > 0 {
        let init = levels.drop_last();
        let last = levels.last();
        assert(general_fits_bytes(init)) by {
            assert forall|l: int| 0 <= l < init.len() implies (#[trigger] init[l]).0.len() <= 255
                && init[l].1 <= 255 by {
                assert(init[l] == levels[l]);
            }
        }
        assert(last == levels[levels.len() - 1]);
        let a = general_levels_bytes(init);
        let e = general_level_bytes(last);
        assert(general_levels_bytes(levels) == a + e);
        let whole = bytes.subrange(pos, pos + a.len() + e.len());
        assert(whole =~= a + e);
        assert(whole.subrange(0, a.len() as int) =~= a);
        assert(bytes.subrange(pos, pos + a.len()) =~= whole.subrange(0, a.len() as int));
        lemma_general_levels_round_trip(init, bytes, pos);
        let p: int = pos + a.len();
        let k: int = last.0.len() as int;
        lemma_elements_bytes_len(last.0);
        assert(bytes[p] == whole[a.len() as int]);
        assert(bytes[p] == e[0]);
        assert(e[0] == k as u8);
        let al = a.len() as int;
        assert(e.subrange(1, 1 + 8 * k) =~= elements_bytes(last.0));
        assert(whole.subrange(al + 1, al + 1 + 8 * k) =~= e.subrange(1, 1 + 8 * k));
        assert(bytes.subrange(p + 1, p + 1 + 8 * k) =~= whole.subrange(al + 1, al + 1 + 8 * k));
        assert(bytes.subrange(p + 1, p + 1 + 8 * k) =~= elements_bytes(last.0));
        lemma_elements_round_trip(last.0, bytes, p + 1);
        assert(e[1 + 8 * k] == last.1 as u8);
        assert(bytes[p + 1 + 8 * k] == whole[al + 1 + 8 * k]);
        assert(bytes[p + 1 + 8 * k] == last.1 as u8);
        assert(general_values(init).push((vals(last.0), last.1)) =~= general_values(levels));
    }
}

/// Reading back the bytes of a binary path of at most 255 levels gives the
/// path's values, whatever bytes follow.
pub proof fn lemma_binary_path_round_trip(levels: Seq<(Fp, bool)>, rest: Seq<u8>)
    requires
        levels.len() <= 255,
    ensures
        decode_binary_path(binary_path_bytes(levels) + rest) == Some(
            (binary_values(levels), binary_path_bytes(levels).len()),
        ),
{
    let bytes = binary_path_bytes(levels) + rest;
    assert(bytes[0] == levels.len() as u8);
    lemma_binary_levels_len(levels);
    assert(bytes.subrange(1, 1 + binary_levels_bytes(levels).len() as int) =~= binary_levels_bytes(
        levels,
    ));
    lemma_binary_levels_round_trip(levels, bytes, 1);
}

pub proof fn lemma_binary_levels_len(levels: Seq<(Fp, bool)>)
    ensures
        binary_levels_bytes(levels).len() == 9 * levels.len(),
    decreases levels.len(),
{
    if levels.len() > 0 {
        lemma_binary_levels_len(levels.drop_last());
        lemma_le_bytes_len(levels.last().0@ as nat, 8);
    }
}

proof fn lemma_binary_levels_round_trip(levels: Seq<(Fp, bool)>, bytes: Seq<u8>, pos: int)
    requires
        pos >= 0,
        pos + 9 * levels.len() <= bytes.len(),
        bytes.subrange(pos, pos + 9 * levels.len()) == binary_levels_bytes(levels),
    ensures
        decode_binary_levels(bytes, pos as nat, levels.len()) == Some(
            (binary_values(levels), (pos + 9 * levels.len()) as nat),
        ),
    decreases levels.len(),
{
    if levels.len() > 0 {
        let init = levels.drop_last();
        let last = levels.last();
        lemma_binary_levels_len(levels);
        lemma_binary_levels_len(init);
        lemma_le_bytes_len(last.0@ as nat, 8);
        let k: int = init.len() as int;
        let whole = bytes.subrange(pos, pos + 9 * levels.len());
        assert(bytes.subrange(pos, pos + 9 * k) =~= whole.subrange(0, 9 * k));
        assert(whole.subrange(0, 9 * k) =~= binary_levels_bytes(init));
        lemma_binary_levels_round_trip(init, bytes, pos);
        let p: int = pos + 9 * k;
        assert(bytes.subrange(p, p + 8) =~= whole.subrange(9 * k, 9 * k + 8));
        assert(whole.subrange(9 * k, 9 * k + 8) =~= fp_bytes(last.0));
        lemma_fp_round_trip(last.0, bytes, p as nat);
        assert(bytes[p + 8] == whole[9 * k + 8]);
        assert(binary_values(init).push((last.0@, last.1)) =~= binary_values(levels));
    }
}

proof fn lemma_elements_stop(bytes: Seq<u8>, pos: nat, failed: nat, count: nat)
    requires
        failed <= count,
        decode_elements(bytes, pos, failed) is None,
    ensures
        decode_elements(bytes, pos, count) is None,
    decreases count,
{
    if count > failed {
        lemma_elements_stop(bytes, pos, failed, (count - 1) as nat);
    }
}

proof fn lemma_general_levels_stop(bytes: Seq<u8>, pos: nat, failed: nat, count: nat)
    requires
        failed <= count,
        decode_general_levels(bytes, pos, failed) is None,
    ensures
        decode_general_levels(bytes, pos, count) is None,
    decreases count,
{
    if count > failed {
        lemma_general_levels_stop(bytes, pos, failed, (count - 1) as nat);
    }
}

proof fn lemma_binary_levels_stop(bytes: Seq<u8>, pos: nat, failed: nat, count: nat)
    requires
        failed <= count,
        decode_binary_levels(bytes, pos, failed) is None,
    ensures
        decode_binary_levels(bytes, pos, count) is None,
    decreases count,
{
    if count > failed {
        lemma_binary_levels_stop(bytes, pos, failed, (count - 1) as nat);
    }
}

/// Reads one level of a general path at `pos`.
fn read_general_level(bytes: &Vec<u8>, pos: usize) -> (r: Option<((Vec<Fp>, usize), usize)>)
    ensures
        r is Some == decode_general_level(bytes@, pos as nat) is Some,
        r matches Some((level, next)) ==> decode_general_level(bytes@, pos as nat) == Some(
            ((vals(level.0@), level.1), next as nat),
        ),
{
    if pos >= bytes.len() {
        return None;
    }
    let count = bytes[pos] as usize;
    let len = bytes.len();
    let mut p: usize = pos + 1;
    let mut xs: Vec<Fp> = Vec::new();
    let mut i: usize = 0;
    while i < count
        invariant
            pos < bytes@.len(),
            len == bytes@.len(),
            count == bytes@[pos as int],
            i <= count,
            xs@.len() == i,
            p <= bytes@.len(),
            decode_elements(bytes@, (pos + 1) as nat, i as nat) == Some((vals(xs@), p as nat)),
        decreases count - i,
    {
        match read_fp(bytes, p) {
            Some(x) => {
                let ghost before = xs@;
                xs.push(x);
                assert(vals(xs@) =~= vals(before).push(x@));
                p = p + 8;
            },
            None => {
                proof {
                    lemma_elements_stop(bytes@, (pos + 1) as nat, (i + 1) as nat, count as nat);
                }
                return None;
            },
        }
        i = i + 1;
    }
    if p >= bytes.len() {
        return None;
    }
    let position = bytes[p] as usize;
    Some(((xs, position), p + 1))
}

/// Reads the levels of a general path, `count` of them from `pos` on.
pub fn read_general_levels(bytes: &Vec<u8>, pos: usize, count: usize) -> (r: Option<
    (Vec<(Vec<Fp>, usize)>, usize),
>)
    ensures
        r is Some == decode_general_levels(bytes@, pos as nat, count as nat) is Some,
        r matches Some((levels, next)) ==> decode_general_levels(bytes@, pos as nat, count as nat)
            == Some((general_values(crate::field_based_mht::general_levels_view(levels@)), next as nat)),
{
    let mut p: usize = pos;
    let mut levels: Vec<(Vec<Fp>, usize)> = Vec::new();
    let mut l: usize = 0;
    while l < count
        invariant
            l <= count,
            decode_general_levels(bytes@, pos as nat, l as nat) == Some(
                (general_values(crate::field_based_mht::general_levels_view(levels@)), p as nat),
            ),
        decreases count - l,
    {
        match read_general_level(bytes, p) {
            Some((level, next)) => {
                let ghost before = levels@;
                let ghost lv = (vals(level.0@), level.1);
                levels.push(level);
                assert(general_values(crate::field_based_mht::general_levels_view(levels@))
                    =~= general_values(crate::field_based_mht::general_levels_view(before)).push(lv));
                p = next;
            },
            None => {
                proof {
                    lemma_general_levels_stop(bytes@, pos as nat, (l + 1) as nat, count as nat);
                }
                return None;
            },
        }
        l = l + 1;
    }
    Some((levels, p))
}

/// Reads the levels of a binary path, `count` of them from `pos` on.
pub fn read_binary_levels(bytes: &Vec<u8>, pos: usize, count: usize) -> (r: Option<
    (Vec<(Fp, bool)>, usize),
>)
    ensures
        r is Some == decode_binary_levels(bytes@, pos as nat, count as nat) is Some,
        r matches Some((levels, next)) ==> decode_binary_levels(bytes@, pos as nat, count as nat)
            == Some((binary_values(levels@), next as nat)),
{
    let mut p: usize = pos;
    let len = bytes.len();
    let mut levels: Vec<(Fp, bool)> = Vec::new();
    let mut l: usize = 0;
    while l < count
        invariant
            l <= count,
            len == bytes@.len(),
            decode_binary_levels(bytes@, pos as nat, l as nat) == Some(
                (binary_values(levels@), p as nat),
            ),
        decreases count - l,
    {
        let sibling = read_fp(bytes, p);
        let ok = match sibling {
            Some(_) => p + 8 < bytes.len() && bytes[p + 8] <= 1,
            None => false,
        };
        if !ok {
            proof {
                lemma_binary_levels_stop(bytes@, pos as nat, (l + 1) as nat, count as nat);
            }
            return None;
        }
        let node = sibling.unwrap();
        let direction = bytes[p + 8] == 1;
        let ghost before = levels@;
        levels.push((node, direction));
        assert(binary_values(levels@) =~= binary_values(before).push((node@, direction)));
        p = p + 9;
        l = l + 1;
    }
    Some((levels, p))
}

/// Appends the bytes of `s`.
pub fn write_elements(s: &Vec<Fp>, out: &mut Vec<u8>)
    ensures
        final(out)@ == old(out)@ + elements_bytes(s@),
{
    let ghost start = out@;
    let mut i: usize = 0;
    assert(s@.take(0) =~= Seq::<Fp>::empty());
    assert(start + elements_bytes(Seq::<Fp>::empty()) =~= start);
    while i < s.len()
        invariant
            i <= s@.len(),
            out@ == start + elements_bytes(s@.take(i as int)),
        decreases s.len() - i,
    {
        crate::bytes::write_fp(&s[i], out);
        i = i + 1;
        assert(s@.take(i as int).drop_last() =~= s@.take(i - 1));
        assert(out@ =~= start + elements_bytes(s@.take(i as int)));
    }
    assert(s@.take(i as int) =~= s@);
}

} // verus!
