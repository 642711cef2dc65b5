use primitives::crh::{FieldBasedHash, SumHash};
use primitives::field::Fp;
use primitives::field_based_mht::{FieldBasedBinaryMHTPath, FieldBasedMHTPath, SumTreeParameters};

type Binary = SumTreeParameters<2>;
type Ternary = SumTreeParameters<3>;

fn fp(x: u64) -> Fp {
    Fp::from_u64(x)
}

fn hash2(x: Fp, y: Fp) -> Fp {
    let mut h = SumHash::<2>::init();
    h.update(x);
    h.update(y);
    h.finalize()
}

/// Leaves, inner nodes and root of the binary tree over four leaves.
fn four_leaf_tree() -> (Vec<Fp>, Fp, Fp, Fp) {
    let leaves = vec![fp(3), fp(5), fp(11), fp(17)];
    let n01 = hash2(leaves[0], leaves[1]);
    let n23 = hash2(leaves[2], leaves[3]);
    let root = hash2(n01, n23);
    (leaves, n01, n23, root)
}

fn honest_path(index: usize) -> FieldBasedBinaryMHTPath<Binary> {
    let (leaves, n01, n23, _) = four_leaf_tree();
    let sibling = leaves[index ^ 1];
    let upper = if index < 2 { n23 } else { n01 };
    FieldBasedBinaryMHTPath::new(vec![(sibling, index % 2 == 1), (upper, index >= 2)])
}

#[test]
fn sum_hash_adds_its_inputs() {
    let mut h = SumHash::<3>::init();
    h.update(fp(1));
    h.update(fp(2));
    h.update(fp(4));
    assert_eq!(h.finalize(), fp(7));
    h.reset();
    h.update(fp(9));
    assert_eq!(h.finalize(), fp(9));
}

#[test]
fn depth_two_tree_path_for_first_leaf() {
    let (l, _, n23, root) = four_leaf_tree();
    assert_eq!(root, fp(3 + 5 + 11 + 17));
    let path = FieldBasedBinaryMHTPath::<Binary>::new(vec![(l[1], false), (hash2(l[2], l[3]), false)]);
    assert_eq!(n23, fp(28));
    assert_eq!(path.verify_without_length_check(&l[0], &root), Ok(true));
    assert_eq!(path.verify_without_length_check(&l[0], &fp(37)), Ok(false));
    assert_eq!(path.verify_without_length_check(&l[0], &fp(0)), Ok(false));
}

#[test]
fn honest_paths_verify_for_every_leaf() {
    let (leaves, _, _, root) = four_leaf_tree();
    for i in 0..4 {
        let path = honest_path(i);
        assert_eq!(path.get_length(), 2);
        assert_eq!(path.verify_without_length_check(&leaves[i], &root), Ok(true));
    }
}

#[test]
fn mutated_sibling_or_root_fails() {
    let (leaves, _, _, root) = four_leaf_tree();
    let raw = honest_path(2).get_raw_path();
    for level in 0..2 {
        let mut changed = raw.clone();
        changed[level].0 = changed[level].0.add(&fp(1));
        let path = FieldBasedBinaryMHTPath::<Binary>::new(changed);
        assert_eq!(path.verify_without_length_check(&leaves[2], &root), Ok(false));
    }
    let path = honest_path(2);
    assert_eq!(path.verify_without_length_check(&leaves[2], &root.add(&fp(1))), Ok(false));
    assert_eq!(path.verify_without_length_check(&leaves[3], &root), Ok(false));
}

#[test]
fn binary_to_general_and_back_is_identity() {
    let binary = honest_path(1);
    let general = FieldBasedMHTPath::from_binary(FieldBasedBinaryMHTPath::<Binary>::new(binary.get_raw_path()));
    let raw = general.get_raw_path();
    assert_eq!(raw, vec![(vec![fp(3)], 1), (vec![fp(28)], 0)]);
    let back = FieldBasedBinaryMHTPath::from_general(general);
    assert!(back.eq(&binary));
}

#[test]
fn general_to_binary_and_back_is_identity() {
    let levels = vec![(vec![fp(4)], 0), (vec![fp(9)], 1), (vec![fp(2)], 1)];
    let general = FieldBasedMHTPath::<Binary>::new(levels.clone());
    let binary = FieldBasedBinaryMHTPath::from_general(FieldBasedMHTPath::<Binary>::new(levels.clone()));
    assert_eq!(binary.get_raw_path(), vec![(fp(4), false), (fp(9), true), (fp(2), true)]);
    let back = FieldBasedMHTPath::from_binary(binary);
    assert!(back.eq(&general));
    assert_eq!(back.get_raw_path(), levels);
}

#[test]
fn general_and_binary_verifiers_agree() {
    let (leaves, _, _, root) = four_leaf_tree();
    for i in 0..4 {
        let binary = honest_path(i);
        let general = FieldBasedMHTPath::from_binary(honest_path(i));
        for candidate in [root, root.add(&fp(1)), leaves[i]] {
            assert_eq!(
                binary.verify_without_length_check(&leaves[i], &candidate),
                general.verify_without_length_check(&leaves[i], &candidate)
            );
        }
    }
}

#[test]
fn general_verifier_feeds_siblings_modulo_arity_minus_one() {
    // Position 1 of 3: the slots are sibling 0, the node, then sibling 2 % 2 = 0.
    let path = FieldBasedMHTPath::<Ternary>::new(vec![(vec![fp(10), fp(100)], 1)]);
    assert_eq!(path.verify_without_length_check(&fp(1), &fp(21)), Ok(true));
    assert_eq!(path.verify_without_length_check(&fp(1), &fp(111)), Ok(false));
    // Position 0 of 3: the node, sibling 1, sibling 0.
    let path = FieldBasedMHTPath::<Ternary>::new(vec![(vec![fp(10), fp(100)], 0), (vec![fp(5), fp(6)], 2)]);
    assert_eq!(path.verify_without_length_check(&fp(1), &fp(122)), Ok(true));
    assert_eq!(path.get_length(), 2);
}

#[test]
fn empty_path_compares_leaf_with_root() {
    let path = FieldBasedBinaryMHTPath::<Binary>::new(vec![]);
    assert_eq!(path.verify_without_length_check(&fp(8), &fp(8)), Ok(true));
    assert_eq!(path.verify_without_length_check(&fp(8), &fp(9)), Ok(false));
    let general = FieldBasedMHTPath::<Ternary>::new(vec![]);
    assert_eq!(general.verify_without_length_check(&fp(8), &fp(8)), Ok(true));
}

#[test]
fn path_equality_compares_levels() {
    let a = FieldBasedMHTPath::<Binary>::new(vec![(vec![fp(1)], 0)]);
    let b = FieldBasedMHTPath::<Binary>::new(vec![(vec![fp(1)], 1)]);
    let c = FieldBasedMHTPath::<Binary>::new(vec![(vec![fp(1)], 0)]);
    assert!(!a.eq(&b));
    assert!(a.eq(&c));
    let d = FieldBasedBinaryMHTPath::<Binary>::new(vec![(fp(1), false)]);
    let e = FieldBasedBinaryMHTPath::<Binary>::new(vec![(fp(2), false)]);
    assert!(!d.eq(&e));
    assert!(d.eq(&FieldBasedBinaryMHTPath::<Binary>::new(vec![(fp(1), false)])));
}

#[test]
fn middle_position_of_three_reads_first_sibling_twice() {
    // With arity 3 and position 1 the second sibling is never read.
    let a = FieldBasedMHTPath::<Ternary>::new(vec![(vec![fp(10), fp(100)], 1)]);
    let b = FieldBasedMHTPath::<Ternary>::new(vec![(vec![fp(10), fp(555)], 1)]);
    assert_eq!(a.verify_without_length_check(&fp(1), &fp(21)), Ok(true));
    assert_eq!(b.verify_without_length_check(&fp(1), &fp(21)), Ok(true));
}
