//! What holds of Merkle paths across calls: conversions between the two
//! forms, agreement of the two verifiers, and soundness of verification.
use crate::crh::FieldBasedHash;
use crate::field::{pow2, Fp};
use crate::field_based_mht::{
    binary_compatible, binary_path_root, binary_to_general, general_to_binary, level_inputs,
    ordered_pair, path_root,
};
use vstd::prelude::*;

verus! {

/// Converting a general path of arity 2 to the binary form and back gives the
/// same path.
pub proof fn lemma_general_round_trip(levels: Seq<(Seq<Fp>, usize)>)
    requires
        binary_compatible(levels),
    ensures
        binary_to_general(general_to_binary(levels)) == levels,
{
    let back = binary_to_general(general_to_binary(levels));
    assert forall|l: int| 0 <= l < levels.len() implies back[l] == levels[l] by {
        assert(levels[l].0 =~= seq![levels[l].0[0]]);
    }
    assert(back =~= levels);
}

/// Converting a binary path to the general form gives a path of arity 2,
/// which converts back to the same binary path.
pub proof fn lemma_binary_round_trip(levels: Seq<(Fp, bool)>)
    ensures
        binary_compatible(binary_to_general(levels)),
        general_to_binary(binary_to_general(levels)) == levels,
{
    assert(general_to_binary(binary_to_general(levels)) =~= levels);
}

/// For arity 2, hashing up a binary path and hashing up its general form reach
/// the same node, so the two verifiers agree on every root.
pub proof fn lemma_binary_general_agree<H: FieldBasedHash>(leaf: Fp, levels: Seq<(Fp, bool)>)
    ensures
        path_root::<H>(leaf, binary_to_general(levels), 2) == binary_path_root::<H>(leaf, levels),
    decreases levels.len(),
{
    if levels.len() > 0 {
        let general = binary_to_general(levels);
        let (sibling, direction) = levels[0];
        let position: nat = if direction {
            1
        } else {
            0
        };
        assert(general[0] == (seq![sibling], if direction { 1usize } else { 0usize }));
        assert(level_inputs(leaf, seq![sibling], position, 2) =~= ordered_pair(
            leaf,
            sibling,
            direction,
        ));
        let next = H::digest(ordered_pair(leaf, sibling, direction));
        assert(general.drop_first() =~= binary_to_general(levels.drop_first()));
        lemma_binary_general_agree::<H>(next, levels.drop_first());
    }
}

/// For arity 2, a general path and its binary form reach the same node.
pub proof fn lemma_general_binary_agree<H: FieldBasedHash>(
    leaf: Fp,
    levels: Seq<(Seq<Fp>, usize)>,
)
    requires
        binary_compatible(levels),
    ensures
        path_root::<H>(leaf, levels, 2) == binary_path_root::<H>(leaf, general_to_binary(levels)),
{
    lemma_general_round_trip(levels);
    lemma_binary_general_agree::<H>(leaf, general_to_binary(levels));
}

/// The node at `level` and `index` of the binary tree built over `leaves`
/// (level 0 holds the leaves).
pub open spec fn tree_node<H: FieldBasedHash>(leaves: Seq<Fp>, level: nat, index: nat) -> Fp
    decreases level,
{
    if level == 0 {
        leaves[index as int]
    } else {
        H::digest(
            seq![
                tree_node::<H>(leaves, (level - 1) as nat, 2 * index),
                tree_node::<H>(leaves, (level - 1) as nat, 2 * index + 1),
            ],
        )
    }
}

pub open spec fn sibling_index(index: nat) -> nat {
    if index % 2 == 0 {
        index + 1
    } else {
        (index - 1) as nat
    }
}

/// The levels of the path from the node at `level` and `index` up to level
/// `height` of the binary tree over `leaves`.
pub open spec fn authentication_path<H: FieldBasedHash>(
    leaves: Seq<Fp>,
    level: nat,
    height: nat,
    index: nat,
) -> Seq<(Fp, bool)>
    decreases height - level,
{
    if level >= height {
        Seq::empty()
    } else {
        seq![(tree_node::<H>(leaves, level, sibling_index(index)), index % 2 == 1)]
            + authentication_path::<H>(leaves, level + 1, height, index / 2)
    }
}

/// `index` halved `k` times.
pub open spec fn ancestor_index(index: nat, k: nat) -> nat
    decreases k,
{
    if k == 0 {
        index
    } else {
        ancestor_index(index / 2, (k - 1) as nat)
    }
}

proof fn lemma_path_reaches_ancestor<H: FieldBasedHash>(
    leaves: Seq<Fp>,
    level: nat,
    height: nat,
    index: nat,
)
    requires
        level <= height,
    ensures
        binary_path_root::<H>(
            tree_node::<H>(leaves, level, index),
            authentication_path::<H>(leaves, level, height, index),
        ) == tree_node::<H>(leaves, height, ancestor_index(index, (height - level) as nat)),
    decreases height - level,
{
    if level < height {
        let path = authentication_path::<H>(leaves, level, height, index);
        let rest = authentication_path::<H>(leaves, level + 1, height, index / 2);
        let node = tree_node::<H>(leaves, level, index);
        let sibling = tree_node::<H>(leaves, level, sibling_index(index));
        assert(path[0] == (sibling, index % 2 == 1));
        assert(path.drop_first() =~= rest);
        let j = index / 2;
        if index % 2 == 0 {
            assert(index == 2 * j);
            assert(ordered_pair(node, sibling, false) =~= seq![
                tree_node::<H>(leaves, level, 2 * j),
                tree_node::<H>(leaves, level, 2 * j + 1),
            ]);
        } else {
            assert(index == 2 * j + 1);
            assert(ordered_pair(node, sibling, true) =~= seq![
                tree_node::<H>(leaves, level, 2 * j),
                tree_node::<H>(leaves, level, 2 * j + 1),
            ]);
        }
        assert(tree_node::<H>(leaves, level + 1, j) == H::digest(
            seq![tree_node::<H>(leaves, level, 2 * j), tree_node::<H>(leaves, level, 2 * j + 1)],
        ));
        lemma_path_reaches_ancestor::<H>(leaves, level + 1, height, j);
        assert((height - level) as nat == ((height - (level + 1)) as nat) + 1);
    }
}

proof fn lemma_ancestor_of_leaf_is_root(index: nat, k: nat)
    requires
        index < pow2(k),
    ensures
        ancestor_index(index, k) == 0,
    decreases k,
{
    if k > 0 {
        lemma_ancestor_of_leaf_is_root(index / 2, (k - 1) as nat);
    }
}

/// In a binary tree of the given height built by hashing `leaves`, the path
/// taken from the tree for the leaf at `index` hashes that leaf up to the
/// tree's root: binary verification of it against the root succeeds.
pub proof fn lemma_honest_path_verifies<H: FieldBasedHash>(
    leaves: Seq<Fp>,
    height: nat,
    index: nat,
)
    requires
        leaves.len() == pow2(height),
        index < leaves.len(),
    ensures
        authentication_path::<H>(leaves, 0, height, index).len() == height,
        binary_path_root::<H>(leaves[index as int], authentication_path::<H>(leaves, 0, height, index))
            == tree_node::<H>(leaves, height, 0),
{
    lemma_path_length::<H>(leaves, 0, height, index);
    lemma_path_reaches_ancestor::<H>(leaves, 0, height, index);
    lemma_ancestor_of_leaf_is_root(index, height);
}

proof fn lemma_path_length<H: FieldBasedHash>(leaves: Seq<Fp>, level: nat, height: nat, index: nat)
    requires
        level <= height,
    ensures
        authentication_path::<H>(leaves, level, height, index).len() == height - level,
    decreases height - level,
{
    if level < height {
        lemma_path_length::<H>(leaves, level + 1, height, index / 2);
    }
}

/// The node that enters level `j` when hashing `leaf` up through `levels`.
pub open spec fn node_at_level<H: FieldBasedHash>(leaf: Fp, levels: Seq<(Fp, bool)>, j: int) -> Fp {
    binary_path_root::<H>(leaf, levels.take(j))
}

/// The two hash inputs of level `j` when hashing `leaf` up through `levels`.
pub open spec fn inputs_at_level<H: FieldBasedHash>(
    leaf: Fp,
    levels: Seq<(Fp, bool)>,
    j: int,
) -> Seq<Fp> {
    ordered_pair(node_at_level::<H>(leaf, levels, j), levels[j].0, levels[j].1)
}

proof fn lemma_binary_root_append<H: FieldBasedHash>(
    node: Fp,
    a: Seq<(Fp, bool)>,
    b: Seq<(Fp, bool)>,
)
    ensures
        binary_path_root::<H>(node, a + b) == binary_path_root::<H>(
            binary_path_root::<H>(node, a),
            b,
        ),
    decreases a.len(),
{
    if a.len() > 0 {
        assert((a + b).drop_first() =~= a.drop_first() + b);
        assert((a + b)[0] == a[0]);
        lemma_binary_root_append::<H>(
            H::digest(ordered_pair(node, a[0].0, a[0].1)),
            a.drop_first(),
            b,
        );
    }
}

proof fn lemma_next_node<H: FieldBasedHash>(leaf: Fp, levels: Seq<(Fp, bool)>, j: int)
    requires
        0 <= j < levels.len(),
    ensures
        node_at_level::<H>(leaf, levels, j + 1) == H::digest(inputs_at_level::<H>(leaf, levels, j)),
{
    let last = seq![levels[j]];
    assert(levels.take(j + 1) =~= levels.take(j) + last);
    lemma_binary_root_append::<H>(leaf, levels.take(j), last);
    assert(last.drop_first() =~= Seq::<(Fp, bool)>::empty());
    let x = binary_path_root::<H>(leaf, levels.take(j));
    let d = H::digest(ordered_pair(x, levels[j].0, levels[j].1));
    assert(binary_path_root::<H>(d, last.drop_first()) == d);
    assert(binary_path_root::<H>(x, last) == d);
}

/// From a level `j` on whose inputs differ between the two computations, when
/// both reach the same node at the top, some level at or above `j` hashes two
/// different input pairs to one digest.
proof fn lemma_collision_above<H: FieldBasedHash>(
    leaf: Fp,
    levels: Seq<(Fp, bool)>,
    forged: Seq<(Fp, bool)>,
    k: int,
    j: int,
)
    requires
        0 <= k <= j < levels.len(),
        forged.len() == levels.len(),
        forall|i: int| k < i < levels.len() ==> #[trigger] forged[i] == levels[i],
        inputs_at_level::<H>(leaf, levels, j) != inputs_at_level::<H>(leaf, forged, j),
        binary_path_root::<H>(leaf, levels) == binary_path_root::<H>(leaf, forged),
    ensures
        exists|i: int|
            k <= i < levels.len() && #[trigger] inputs_at_level::<H>(leaf, levels, i)
                != inputs_at_level::<H>(leaf, forged, i) && H::digest(
                inputs_at_level::<H>(leaf, levels, i),
            ) == H::digest(inputs_at_level::<H>(leaf, forged, i)),
    decreases levels.len() - j,
{
    let a = inputs_at_level::<H>(leaf, levels, j);
    let b = inputs_at_level::<H>(leaf, forged, j);
    if H::digest(a) != H::digest(b) {
        lemma_next_node::<H>(leaf, levels, j);
        lemma_next_node::<H>(leaf, forged, j);
        if j + 1 == levels.len() {
            assert(levels.take(j + 1) =~= levels);
            assert(forged.take(j + 1) =~= forged);
            assert(false);
        } else {
            let na = node_at_level::<H>(leaf, levels, j + 1);
            let nb = node_at_level::<H>(leaf, forged, j + 1);
            assert(forged[j + 1] == levels[j + 1]);
            assert(na != nb);
            let s = levels[j + 1];
            assert(ordered_pair(na, s.0, s.1)[if s.1 { 1int } else { 0int }] == na);
            assert(ordered_pair(nb, s.0, s.1)[if s.1 { 1int } else { 0int }] == nb);
            lemma_collision_above::<H>(leaf, levels, forged, k, j + 1);
        }
    }
}

/// A path that hashes `leaf` up to `root` reaches no other root: binary
/// verification against any other value fails. And replacing the level `k`
/// of such a path with one whose two hash inputs differ from the present
/// ones (another sibling, or the other direction where the sibling differs
/// from the node) keeps verification against `root` succeeding only where
/// the hash maps two different input pairs of one level at or above `k` to
/// one digest.
pub proof fn lemma_tampered_path_fails<H: FieldBasedHash>(
    leaf: Fp,
    levels: Seq<(Fp, bool)>,
    root: Fp,
    other_root: Fp,
    k: int,
    replacement: (Fp, bool),
)
    requires
        binary_path_root::<H>(leaf, levels) == root,
        0 <= k < levels.len(),
        ordered_pair(node_at_level::<H>(leaf, levels, k), replacement.0, replacement.1)
            != inputs_at_level::<H>(leaf, levels, k),
    ensures
        other_root != root ==> binary_path_root::<H>(leaf, levels) != other_root,
        binary_path_root::<H>(leaf, levels.update(k, replacement)) == root ==> exists|i: int|
            k <= i < levels.len() && #[trigger] inputs_at_level::<H>(leaf, levels, i)
                != inputs_at_level::<H>(leaf, levels.update(k, replacement), i) && H::digest(
                inputs_at_level::<H>(leaf, levels, i),
            ) == H::digest(inputs_at_level::<H>(leaf, levels.update(k, replacement), i)),
{
    let forged = levels.update(k, replacement);
    if binary_path_root::<H>(leaf, forged) == root {
        assert(forged.take(k) =~= levels.take(k));
        assert(forged[k] == replacement);
        lemma_collision_above::<H>(leaf, levels, forged, k, k);
    }
}

/// The node that enters level `j` when hashing `leaf` up through the general
/// `levels`.
pub open spec fn general_node_at_level<H: FieldBasedHash>(
    leaf: Fp,
    levels: Seq<(Seq<Fp>, usize)>,
    arity: nat,
    j: int,
) -> Fp {
    path_root::<H>(leaf, levels.take(j), arity)
}

/// The hash inputs of level `j` when hashing `leaf` up through the general
/// `levels`.
pub open spec fn general_inputs_at_level<H: FieldBasedHash>(
    leaf: Fp,
    levels: Seq<(Seq<Fp>, usize)>,
    arity: nat,
    j: int,
) -> Seq<Fp> {
    level_inputs(
        general_node_at_level::<H>(leaf, levels, arity, j),
        levels[j].0,
        levels[j].1 as nat,
        arity,
    )
}

proof fn lemma_general_root_append<H: FieldBasedHash>(
    node: Fp,
    a: Seq<(Seq<Fp>, usize)>,
    b: Seq<(Seq<Fp>, usize)>,
    arity: nat,
)
    ensures
        path_root::<H>(node, a + b, arity) == path_root::<H>(path_root::<H>(node, a, arity), b, arity),
    decreases a.len(),
{
    if a.len() > 0 {
        assert((a + b).drop_first() =~= a.drop_first() + b);
        assert((a + b)[0] == a[0]);
        lemma_general_root_append::<H>(
            H::digest(level_inputs(node, a[0].0, a[0].1 as nat, arity)),
            a.drop_first(),
            b,
            arity,
        );
    }
}

proof fn lemma_general_next_node<H: FieldBasedHash>(
    leaf: Fp,
    levels: Seq<(Seq<Fp>, usize)>,
    arity: nat,
    j: int,
)
    requires
        0 <= j < levels.len(),
    ensures
        general_node_at_level::<H>(leaf, levels, arity, j + 1) == H::digest(
            general_inputs_at_level::<H>(leaf, levels, arity, j),
        ),
{
    let last = seq![levels[j]];
    assert(levels.take(j + 1) =~= levels.take(j) + last);
    lemma_general_root_append::<H>(leaf, levels.take(j), last, arity);
    assert(last.drop_first() =~= Seq::<(Seq<Fp>, usize)>::empty());
    let x = path_root::<H>(leaf, levels.take(j), arity);
    let d = H::digest(level_inputs(x, levels[j].0, levels[j].1 as nat, arity));
    assert(path_root::<H>(d, last.drop_first(), arity) == d);
    assert(path_root::<H>(x, last, arity) == d);
}

proof fn lemma_general_collision_above<H: FieldBasedHash>(
    leaf: Fp,
    levels: Seq<(Seq<Fp>, usize)>,
    forged: Seq<(Seq<Fp>, usize)>,
    arity: nat,
    k: int,
    j: int,
)
    requires
        arity >= 1,
        0 <= k <= j < levels.len(),
        forged.len() == levels.len(),
        forall|i: int| k < i < levels.len() ==> #[trigger] forged[i] == levels[i],
        general_inputs_at_level::<H>(leaf, levels, arity, j) != general_inputs_at_level::<H>(
            leaf,
            forged,
            arity,
            j,
        ),
        path_root::<H>(leaf, levels, arity) == path_root::<H>(leaf, forged, arity),
    ensures
        exists|i: int|
            k <= i < levels.len() && #[trigger] general_inputs_at_level::<H>(leaf, levels, arity, i)
                != general_inputs_at_level::<H>(leaf, forged, arity, i) && H::digest(
                general_inputs_at_level::<H>(leaf, levels, arity, i),
            ) == H::digest(general_inputs_at_level::<H>(leaf, forged, arity, i)),
    decreases levels.len() - j,
{
    let a = general_inputs_at_level::<H>(leaf, levels, arity, j);
    let b = general_inputs_at_level::<H>(leaf, forged, arity, j);
    if H::digest(a) != H::digest(b) {
        lemma_general_next_node::<H>(leaf, levels, arity, j);
        lemma_general_next_node::<H>(leaf, forged, arity, j);
        if j + 1 == levels.len() {
            assert(levels.take(j + 1) =~= levels);
            assert(forged.take(j + 1) =~= forged);
            assert(false);
        } else {
            let na = general_node_at_level::<H>(leaf, levels, arity, j + 1);
            let nb = general_node_at_level::<H>(leaf, forged, arity, j + 1);
            assert(forged[j + 1] == levels[j + 1]);
            let s = levels[j + 1];
            let slot = (s.1 as nat % arity) as int;
            assert(level_inputs(na, s.0, s.1 as nat, arity)[slot] == na);
            assert(level_inputs(nb, s.0, s.1 as nat, arity)[slot] == nb);
            lemma_general_collision_above::<H>(leaf, levels, forged, arity, k, j + 1);
        }
    }
}

/// For a general path of arity at least 1 that hashes `leaf` up to `root`:
/// verification against any other value fails, and replacing its level `k`
/// with one that changes the hash inputs of that level (another sibling
/// that is read, or another position where it moves a different value into
/// a slot) keeps verification against `root` succeeding only where the hash
/// maps two different input sequences of one level at or above `k` to one
/// digest.
pub proof fn lemma_tampered_general_path_fails<H: FieldBasedHash>(
    leaf: Fp,
    levels: Seq<(Seq<Fp>, usize)>,
    arity: nat,
    root: Fp,
    other_root: Fp,
    k: int,
    replacement: (Seq<Fp>, usize),
)
    requires
        arity >= 1,
        path_root::<H>(leaf, levels, arity) == root,
        0 <= k < levels.len(),
        level_inputs(
            general_node_at_level::<H>(leaf, levels, arity, k),
            replacement.0,
            replacement.1 as nat,
            arity,
        ) != general_inputs_at_level::<H>(leaf, levels, arity, k),
    ensures
        other_root != root ==> path_root::<H>(leaf, levels, arity) != other_root,
        path_root::<H>(leaf, levels.update(k, replacement), arity) == root ==> exists|i: int|
            k <= i < levels.len() && #[trigger] general_inputs_at_level::<H>(leaf, levels, arity, i)
                != general_inputs_at_level::<H>(leaf, levels.update(k, replacement), arity, i)
                && H::digest(general_inputs_at_level::<H>(leaf, levels, arity, i)) == H::digest(
                general_inputs_at_level::<H>(leaf, levels.update(k, replacement), arity, i),
            ),
{
    let forged = levels.update(k, replacement);
    if path_root::<H>(leaf, forged, arity) == root {
        assert(forged.take(k) =~= levels.take(k));
        assert(forged[k] == replacement);
        lemma_general_collision_above::<H>(leaf, levels, forged, arity, k, k);
    }
}

} // verus!
