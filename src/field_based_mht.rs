//! Authentication paths of field-based Merkle trees, for any arity and in a
//! compact form for binary trees, and their verification against a root.
use crate::crh::{FieldBasedHash, FieldBasedHashParameters, SumHash};
use crate::field::Fp;
use crate::path_bytes::{
    binary_level_bytes, binary_levels_bytes, binary_path_bytes, binary_values, decode_binary_path,
    decode_general_path, general_fits_bytes, general_level_bytes, general_levels_bytes,
    general_path_bytes, general_values, read_binary_levels, read_general_levels, write_elements,
};
use crate::CryptoError;
use core::marker::PhantomData;
use vstd::prelude::*;

verus! {

/// The shape of a Merkle tree: its hash, and how many children each inner
/// node has.
pub trait FieldBasedMerkleTreeParameters {
    type H: FieldBasedHash;

    spec fn spec_arity() -> nat;

    fn merkle_arity() -> (r: usize)
        ensures
            r as nat == Self::spec_arity(),
    ;
}

/// Trees of the given arity over `SumHash` of the same rate.
#[derive(Clone, Copy, Debug)]
pub struct SumTreeParameters<const ARITY: usize>;

impl<const ARITY: usize> FieldBasedMerkleTreeParameters for SumTreeParameters<ARITY> {
    type H = SumHash<ARITY>;

    open spec fn spec_arity() -> nat {
        ARITY as nat
    }

    fn merkle_arity() -> (r: usize) {
        ARITY
    }
}

/// The hash inputs of one level of a path of the given arity: the current
/// node in the slot `position % arity`, and in every other slot `i` the
/// sibling at `i % (arity - 1)`.
pub open spec fn level_inputs(node: Fp, siblings: Seq<Fp>, position: nat, arity: nat) -> Seq<Fp> {
    Seq::new(
        arity,
        |i: int|
            if i == position % arity {
                node
            } else {
                siblings[i % (arity - 1)]
            },
    )
}

/// The node reached from `node` by hashing up through the given levels.
pub open spec fn path_root<H: FieldBasedHash>(
    node: Fp,
    levels: Seq<(Seq<Fp>, usize)>,
    arity: nat,
) -> Fp
    decreases levels.len(),
{
    if levels.len() == 0 {
        node
    } else {
        path_root::<H>(
            H::digest(level_inputs(node, levels[0].0, levels[0].1 as nat, arity)),
            levels.drop_first(),
            arity,
        )
    }
}

/// The two hash inputs of a binary level: the node on the left when the
/// direction is `false`, on the right when it is `true`.
pub open spec fn ordered_pair(node: Fp, sibling: Fp, direction: bool) -> Seq<Fp> {
    if direction {
        seq![sibling, node]
    } else {
        seq![node, sibling]
    }
}

/// The node reached from `node` by hashing up through the given binary levels.
pub open spec fn binary_path_root<H: FieldBasedHash>(node: Fp, levels: Seq<(Fp, bool)>) -> Fp
    decreases levels.len(),
{
    if levels.len() == 0 {
        node
    } else {
        binary_path_root::<H>(
            H::digest(ordered_pair(node, levels[0].0, levels[0].1)),
            levels.drop_first(),
        )
    }
}

/// Every level holds `arity - 1` siblings.
pub open spec fn siblings_well_sized(levels: Seq<(Seq<Fp>, usize)>, arity: nat) -> bool {
    forall|l: int| 0 <= l < levels.len() ==> (#[trigger] levels[l]).0.len() == arity - 1
}

/// Every level holds one sibling and a position of 0 or 1.
pub open spec fn binary_compatible(levels: Seq<(Seq<Fp>, usize)>) -> bool {
    forall|l: int|
        0 <= l < levels.len() ==> (#[trigger] levels[l]).0.len() == 1 && (levels[l].1 == 0
            || levels[l].1 == 1)
}

/// A general path of arity 2 in the binary form: position 0 is direction `false`.
pub open spec fn general_to_binary(levels: Seq<(Seq<Fp>, usize)>) -> Seq<(Fp, bool)> {
    levels.map_values(|l: (Seq<Fp>, usize)| (l.0[0], l.1 != 0))
}

/// A binary path in the general form: direction `false` is position 0.
pub open spec fn binary_to_general(levels: Seq<(Fp, bool)>) -> Seq<(Seq<Fp>, usize)> {
    levels.map_values(
        |l: (Fp, bool)|
            (
                seq![l.0],
                if l.1 {
                    1usize
                } else {
                    0usize
                },
            ),
    )
}

pub open spec fn general_levels_view(p: Seq<(Vec<Fp>, usize)>) -> Seq<(Seq<Fp>, usize)> {
    p.map_values(|l: (Vec<Fp>, usize)| (l.0@, l.1))
}

/// Copies a vector of field elements.
fn copy_elements(v: &Vec<Fp>) -> (r: Vec<Fp>)
    ensures
        r@ == v@,
{
    let mut r: Vec<Fp> = Vec::with_capacity(v.len());
    let mut i: usize = 0;
    while i < v.len()
        invariant
            i <= v.len(),
            r@ == v@.take(i as int),
        decreases v.len() - i,
    {
        r.push(v[i]);
        i = i + 1;
        assert(r@ =~= v@.take(i as int));
    }
    assert(v@.take(v.len() as int) =~= v@);
    r
}

/// Copies the levels of a general path.
fn copy_general_levels(p: &Vec<(Vec<Fp>, usize)>) -> (r: Vec<(Vec<Fp>, usize)>)
    ensures
        general_levels_view(r@) == general_levels_view(p@),
{
    let mut r: Vec<(Vec<Fp>, usize)> = Vec::with_capacity(p.len());
    let mut i: usize = 0;
    while i < p.len()
        invariant
            i <= p.len(),
            r@.len() == i,
            general_levels_view(r@) == general_levels_view(p@).take(i as int),
        decreases p.len() - i,
    {
        let siblings = copy_elements(&p[i].0);
        r.push((siblings, p[i].1));
        assert(general_levels_view(r@)[i as int] == general_levels_view(p@)[i as int]);
        i = i + 1;
        assert(general_levels_view(r@) =~= general_levels_view(p@).take(i as int));
    }
    assert(general_levels_view(p@).take(p.len() as int) =~= general_levels_view(p@));
    r
}

/// A Merkle path for a leaf of a tree of any arity: for each level from the
/// leaf up, the `arity - 1` siblings of the current node and the slot the
/// current node takes among the hash inputs.
pub struct FieldBasedMHTPath<T: FieldBasedMerkleTreeParameters> {
    path: Vec<(Vec<Fp>, usize)>,
    params: PhantomData<T>,
}

impl<T: FieldBasedMerkleTreeParameters> View for FieldBasedMHTPath<T> {
    type V = Seq<(Seq<Fp>, usize)>;

    closed spec fn view(&self) -> Seq<(Seq<Fp>, usize)> {
        general_levels_view(self.path@)
    }
}

impl<T: FieldBasedMerkleTreeParameters> FieldBasedMHTPath<T> {
    pub fn new(path: Vec<(Vec<Fp>, usize)>) -> (r: Self)
        ensures
            r@ == general_levels_view(path@),
    {
        FieldBasedMHTPath { path, params: PhantomData }
    }

    /// Hashes `leaf` up through the levels of the path and tells whether the
    /// result is `root`. The number of levels is taken as it is.
    pub fn verify_without_length_check(&self, leaf: &Fp, root: &Fp) -> (r: Result<bool, CryptoError>)
        requires
            T::spec_arity() >= 2,
            <T::H as FieldBasedHash>::Parameters::spec_rate() == T::spec_arity(),
            siblings_well_sized(self@, T::spec_arity()),
        ensures
            r == Ok::<bool, CryptoError>(path_root::<T::H>(*leaf, self@, T::spec_arity()) == *root),
    {
        let arity = T::merkle_arity();
        let ghost levels = self@;
        let mut digest = T::H::init();
        let mut prev_node: Fp = *leaf;
        let mut l: usize = 0;
        assert(levels.skip(0) =~= levels);
        while l < self.path.len()
            invariant
                l <= self.path.len(),
                levels == self@,
                arity as nat == T::spec_arity(),
                arity >= 2,
                siblings_well_sized(levels, arity as nat),
                digest.absorbed() == Seq::<Fp>::empty(),
                path_root::<T::H>(prev_node, levels.skip(l as int), arity as nat) == path_root::<
                    T::H,
                >(*leaf, levels, arity as nat),
            decreases self.path.len() - l,
        {
            let siblings = &self.path[l].0;
            let position = self.path[l].1;
            let ghost inputs = level_inputs(prev_node, siblings@, position as nat, arity as nat);
            assert(levels[l as int].0 == siblings@);
            let prev_node_position = position % arity;
            let mut i: usize = 0;
            while i < arity
                invariant
                    i <= arity,
                    arity >= 2,
                    siblings@.len() == arity - 1,
                    prev_node_position == position % arity,
                    inputs == level_inputs(prev_node, siblings@, position as nat, arity as nat),
                    digest.absorbed() == inputs.take(i as int),
                decreases arity - i,
            {
                if i == prev_node_position {
                    digest.update(prev_node);
                } else {
                    let index = i % (arity - 1);
                    digest.update(siblings[index]);
                }
                i = i + 1;
                assert(digest.absorbed() =~= inputs.take(i as int));
            }
            assert(inputs.take(arity as int) =~= inputs);
            let ghost rest = levels.skip(l as int);
            assert(rest[0] == levels[l as int]);
            assert(rest.drop_first() =~= levels.skip(l + 1));
            prev_node = digest.finalize();
            digest.reset();
            l = l + 1;
        }
        assert(levels.skip(l as int) =~= Seq::<(Seq<Fp>, usize)>::empty());
        if prev_node == *root {
            Ok(true)
        } else {
            Ok(false)
        }
    }

    pub fn get_raw_path(&self) -> (r: Vec<(Vec<Fp>, usize)>)
        ensures
            general_levels_view(r@) == self@,
    {
        copy_general_levels(&self.path)
    }

    pub fn get_length(&self) -> (r: usize)
        ensures
            r == self@.len(),
    {
        self.path.len()
    }

    /// Appends the bytes of the path: the number of levels, then for each
    /// level the number of siblings, the siblings and the position, each count
    /// and position in one byte.
    pub fn write(&self, out: &mut Vec<u8>)
        requires
            general_fits_bytes(self@),
        ensures
            final(out)@ == old(out)@ + general_path_bytes(self@),
    {
        let ghost levels = self@;
        let ghost start = out@;
        out.push(self.path.len() as u8);
        let mut l: usize = 0;
        assert(levels.take(0) =~= Seq::<(Seq<Fp>, usize)>::empty());
        assert(out@ =~= start + seq![levels.len() as u8] + general_levels_bytes(levels.take(0)));
        while l < self.path.len()
            invariant
                l <= self.path.len(),
                levels == self@,
                general_fits_bytes(levels),
                out@ == start + seq![levels.len() as u8] + general_levels_bytes(levels.take(l as int)),
            decreases self.path.len() - l,
        {
            let siblings = &self.path[l].0;
            let position = self.path[l].1;
            assert(levels[l as int] == (siblings@, position));
            let ghost before = out@;
            out.push(siblings.len() as u8);
            write_elements(siblings, out);
            out.push(position as u8);
            assert(out@ =~= before + general_level_bytes(levels[l as int]));
            l = l + 1;
            assert(levels.take(l as int).drop_last() =~= levels.take(l - 1));
            assert(out@ =~= start + seq![levels.len() as u8] + general_levels_bytes(levels.take(l as int)));
        }
        assert(levels.take(l as int) =~= levels);
    }

    /// Reads a path from the start of `bytes`, as `write` lays it out, and
    /// the number of bytes it took; `None` where the bytes end early or hold
    /// a value that is not below the modulus.
    pub fn read(bytes: &Vec<u8>) -> (r: Option<(Self, usize)>)
        ensures
            r is Some == decode_general_path(bytes@) is Some,
            r matches Some((p, n)) ==> decode_general_path(bytes@) == Some((general_values(p@), n as nat)),
    {
        if bytes.len() == 0 {
            return None;
        }
        match read_general_levels(bytes, 1, bytes[0] as usize) {
            Some((levels, next)) => Some((FieldBasedMHTPath::new(levels), next)),
            None => None,
        }
    }

    /// Whether two paths hold the same levels.
    pub fn eq(&self, other: &Self) -> (r: bool)
        ensures
            r == (self@ == other@),
    {
        if self.path.len() != other.path.len() {
            return false;
        }
        let mut l: usize = 0;
        while l < self.path.len()
            invariant
                l <= self.path.len(),
                self.path.len() == other.path.len(),
                self@.take(l as int) == other@.take(l as int),
            decreases self.path.len() - l,
        {
            let a = &self.path[l].0;
            let b = &other.path[l].0;
            assert(self@[l as int] == (a@, self.path@[l as int].1));
            assert(other@[l as int] == (b@, other.path@[l as int].1));
            if self.path[l].1 != other.path[l].1 || a.len() != b.len() {
                assert(self@[l as int] != other@[l as int]);
                return false;
            }
            let mut i: usize = 0;
            while i < a.len()
                invariant
                    i <= a.len(),
                    a.len() == b.len(),
                    a@.take(i as int) == b@.take(i as int),
                    self@[l as int].0 == a@,
                    other@[l as int].0 == b@,
                decreases a.len() - i,
            {
                if a[i] != b[i] {
                    assert(a@[i as int] != b@[i as int]);
                    assert(self@[l as int].0[i as int] != other@[l as int].0[i as int]);
                    return false;
                }
                i = i + 1;
                assert(a@.take(i as int) =~= a@.take(i - 1).push(a@[i - 1]));
                assert(b@.take(i as int) =~= b@.take(i - 1).push(b@[i - 1]));
            }
            assert(a@ =~= a@.take(i as int));
            assert(b@ =~= b@.take(i as int));
            l = l + 1;
            assert(self@.take(l as int) =~= self@.take(l - 1).push(self@[l - 1]));
            assert(other@.take(l as int) =~= other@.take(l - 1).push(other@[l - 1]));
        }
        assert(self@ =~= self@.take(l as int));
        assert(other@ =~= other@.take(l as int));
        true
    }

    /// The general form of a binary path: direction `false` becomes
    /// position 0, `true` position 1.
    pub fn from_binary(other: FieldBasedBinaryMHTPath<T>) -> (r: Self)
        ensures
            r@ == binary_to_general(other@),
    {
        let mut converted: Vec<(Vec<Fp>, usize)> = Vec::with_capacity(other.path.len());
        let mut l: usize = 0;
        while l < other.path.len()
            invariant
                l <= other.path.len(),
                converted@.len() == l,
                general_levels_view(converted@) == binary_to_general(other@).take(l as int),
            decreases other.path.len() - l,
        {
            let (node, direction) = other.path[l];
            let mut siblings: Vec<Fp> = Vec::new();
            siblings.push(node);
            let position: usize = if !direction {
                0
            } else {
                1
            };
            converted.push((siblings, position));
            assert(siblings@ =~= seq![node]);
            assert(other@[l as int] == (node, direction));
            assert(general_levels_view(converted@)[l as int] == binary_to_general(other@)[l as int]);
            l = l + 1;
            assert(general_levels_view(converted@) =~= binary_to_general(other@).take(l as int));
        }
        assert(binary_to_general(other@).take(l as int) =~= binary_to_general(other@));
        FieldBasedMHTPath::new(converted)
    }
}

/// A Merkle path for a leaf of a binary tree: for each level from the leaf
/// up, the sibling of the current node and whether the current node is the
/// right child.
pub struct FieldBasedBinaryMHTPath<T: FieldBasedMerkleTreeParameters> {
    path: Vec<(Fp, bool)>,
    params: PhantomData<T>,
}

impl<T: FieldBasedMerkleTreeParameters> View for FieldBasedBinaryMHTPath<T> {
    type V = Seq<(Fp, bool)>;

    closed spec fn view(&self) -> Seq<(Fp, bool)> {
        self.path@
    }
}

impl<T: FieldBasedMerkleTreeParameters> FieldBasedBinaryMHTPath<T> {
    pub fn new(path: Vec<(Fp, bool)>) -> (r: Self)
        ensures
            r@ == path@,
    {
        FieldBasedBinaryMHTPath { path, params: PhantomData }
    }

    /// Hashes `leaf` up through the levels of the path, left input first, and
    /// tells whether the result is `root`. The number of levels is taken as it is.
    pub fn verify_without_length_check(&self, leaf: &Fp, root: &Fp) -> (r: Result<bool, CryptoError>)
        requires
            <T::H as FieldBasedHash>::Parameters::spec_rate() == T::spec_arity(),
        ensures
            r == Ok::<bool, CryptoError>(binary_path_root::<T::H>(*leaf, self@) == *root),
    {
        let ghost levels = self@;
        let mut digest = T::H::init();
        let mut prev_node: Fp = *leaf;
        let mut l: usize = 0;
        assert(levels.skip(0) =~= levels);
        while l < self.path.len()
            invariant
                l <= self.path.len(),
                levels == self@,
                digest.absorbed() == Seq::<Fp>::empty(),
                binary_path_root::<T::H>(prev_node, levels.skip(l as int))
                    == binary_path_root::<T::H>(*leaf, levels),
            decreases self.path.len() - l,
        {
            let (sibling, direction) = self.path[l];
            let (left, right) = if !direction {
                (prev_node, sibling)
            } else {
                (sibling, prev_node)
            };
            digest.update(left);
            digest.update(right);
            assert(digest.absorbed() =~= ordered_pair(prev_node, sibling, direction));
            let ghost rest = levels.skip(l as int);
            assert(rest[0] == levels[l as int]);
            assert(rest.drop_first() =~= levels.skip(l + 1));
            prev_node = digest.finalize();
            digest.reset();
            l = l + 1;
        }
        assert(levels.skip(l as int) =~= Seq::<(Fp, bool)>::empty());
        if prev_node == *root {
            Ok(true)
        } else {
            Ok(false)
        }
    }

    pub fn get_raw_path(&self) -> (r: Vec<(Fp, bool)>)
        ensures
            r@ == self@,
    {
        let mut r: Vec<(Fp, bool)> = Vec::with_capacity(self.path.len());
        let mut i: usize = 0;
        while i < self.path.len()
            invariant
                i <= self.path.len(),
                r@ == self@.take(i as int),
            decreases self.path.len() - i,
        {
            let (node, direction) = self.path[i];
            r.push((node, direction));
            i = i + 1;
            assert(r@ =~= self@.take(i as int));
        }
        assert(self@.take(i as int) =~= self@);
        r
    }

    pub fn get_length(&self) -> (r: usize)
        ensures
            r == self@.len(),
    {
        self.path.len()
    }

    /// Appends the bytes of the path: the number of levels in one byte, then
    /// for each level the sibling and a byte 0 for left or 1 for right.
    pub fn write(&self, out: &mut Vec<u8>)
        requires
            self@.len() <= 255,
        ensures
            final(out)@ == old(out)@ + binary_path_bytes(self@),
    {
        let ghost levels = self@;
        let ghost start = out@;
        out.push(self.path.len() as u8);
        let mut l: usize = 0;
        assert(levels.take(0) =~= Seq::<(Fp, bool)>::empty());
        assert(out@ =~= start + seq![levels.len() as u8] + binary_levels_bytes(levels.take(0)));
        while l < self.path.len()
            invariant
                l <= self.path.len(),
                levels == self@,
                out@ == start + seq![levels.len() as u8] + binary_levels_bytes(levels.take(l as int)),
            decreases self.path.len() - l,
        {
            let (node, direction) = self.path[l];
            let ghost before = out@;
            crate::bytes::write_fp(&node, out);
            out.push(if direction { 1u8 } else { 0u8 });
            assert(out@ =~= before + binary_level_bytes(levels[l as int]));
            l = l + 1;
            assert(levels.take(l as int).drop_last() =~= levels.take(l - 1));
            assert(out@ =~= start + seq![levels.len() as u8] + binary_levels_bytes(levels.take(l as int)));
        }
        assert(levels.take(l as int) =~= levels);
    }

    /// Reads a path from the start of `bytes`, as `write` lays it out, and
    /// the number of bytes it took; `None` where the bytes end early, hold a
    /// value that is not below the modulus, or a direction byte other than 0
    /// or 1.
    pub fn read(bytes: &Vec<u8>) -> (r: Option<(Self, usize)>)
        ensures
            r is Some == decode_binary_path(bytes@) is Some,
            r matches Some((p, n)) ==> decode_binary_path(bytes@) == Some((binary_values(p@), n as nat)),
    {
        if bytes.len() == 0 {
            return None;
        }
        match read_binary_levels(bytes, 1, bytes[0] as usize) {
            Some((levels, next)) => Some((FieldBasedBinaryMHTPath::new(levels), next)),
            None => None,
        }
    }

    /// Whether two paths hold the same levels.
    pub fn eq(&self, other: &Self) -> (r: bool)
        ensures
            r == (self@ == other@),
    {
        if self.path.len() != other.path.len() {
            return false;
        }
        let mut l: usize = 0;
        while l < self.path.len()
            invariant
                l <= self.path.len(),
                self.path.len() == other.path.len(),
                self@.take(l as int) == other@.take(l as int),
            decreases self.path.len() - l,
        {
            let (a, da) = self.path[l];
            let (b, db) = other.path[l];
            if a != b || da != db {
                assert(self@[l as int] != other@[l as int]);
                return false;
            }
            l = l + 1;
            assert(self@.take(l as int) =~= self@.take(l - 1).push(self@[l - 1]));
            assert(other@.take(l as int) =~= other@.take(l - 1).push(other@[l - 1]));
        }
        assert(self@ =~= self@.take(l as int));
        assert(other@ =~= other@.take(l as int));
        true
    }

    /// The binary form of a general path whose levels each hold one sibling
    /// and a position of 0 or 1: position 0 becomes direction `false`.
    pub fn from_general(other: FieldBasedMHTPath<T>) -> (r: Self)
        requires
            binary_compatible(other@),
        ensures
            r@ == general_to_binary(other@),
    {
        let mut converted: Vec<(Fp, bool)> = Vec::with_capacity(other.path.len());
        let mut l: usize = 0;
        while l < other.path.len()
            invariant
                l <= other.path.len(),
                binary_compatible(other@),
                converted@ == general_to_binary(other@).take(l as int),
            decreases other.path.len() - l,
        {
            assert(other@[l as int].0 == other.path[l as int].0@);
            let node = other.path[l].0[0];
            let position = other.path[l].1;
            converted.push((node, if position == 0 { false } else { true }));
            l = l + 1;
            assert(converted@ =~= general_to_binary(other@).take(l as int));
        }
        assert(general_to_binary(other@).take(l as int) =~= general_to_binary(other@));
        FieldBasedBinaryMHTPath::new(converted)
    }
}

} // verus!
