use primitives::field::{Fp, MODULUS};
use primitives::field_based_mht::{FieldBasedBinaryMHTPath, FieldBasedMHTPath, SumTreeParameters};

type Binary = SumTreeParameters<2>;
type Ternary = SumTreeParameters<3>;

fn fp(x: u64) -> Fp {
    Fp::from_u64(x)
}

#[test]
fn binary_path_bytes_layout() {
    let path = FieldBasedBinaryMHTPath::<Binary>::new(vec![(fp(1), false), (fp(0x0201), true)]);
    let mut out = vec![];
    path.write(&mut out);
    assert_eq!(out, vec![2, 1, 0, 0, 0, 0, 0, 0, 0, 0, 1, 2, 0, 0, 0, 0, 0, 0, 1]);
}

#[test]
fn general_path_bytes_layout() {
    let path = FieldBasedMHTPath::<Ternary>::new(vec![(vec![fp(5), fp(6)], 2)]);
    let mut out = vec![9];
    path.write(&mut out);
    assert_eq!(out, vec![9, 1, 2, 5, 0, 0, 0, 0, 0, 0, 0, 6, 0, 0, 0, 0, 0, 0, 0, 2]);
}

#[test]
fn paths_read_back_what_was_written() {
    let general = FieldBasedMHTPath::<Ternary>::new(vec![
        (vec![fp(MODULUS - 1), fp(7)], 0),
        (vec![fp(1 << 40), fp(3)], 1),
    ]);
    let mut bytes = vec![];
    general.write(&mut bytes);
    let written = bytes.len();
    bytes.extend_from_slice(&[0xff, 0xff]);
    let (back, used) = FieldBasedMHTPath::<Ternary>::read(&bytes).unwrap();
    assert_eq!(used, written);
    assert!(back.eq(&general));

    let binary = FieldBasedBinaryMHTPath::<Binary>::new(vec![(fp(12345), true), (fp(0), false)]);
    let mut bytes = vec![];
    binary.write(&mut bytes);
    let (back, used) = FieldBasedBinaryMHTPath::<Binary>::read(&bytes).unwrap();
    assert_eq!(used, bytes.len());
    assert!(back.eq(&binary));
}

#[test]
fn malformed_bytes_are_refused() {
    assert!(FieldBasedBinaryMHTPath::<Binary>::read(&vec![]).is_none());
    assert!(FieldBasedMHTPath::<Binary>::read(&vec![]).is_none());
    // One level announced, none there.
    assert!(FieldBasedBinaryMHTPath::<Binary>::read(&vec![1]).is_none());
    // A direction byte other than 0 or 1.
    assert!(FieldBasedBinaryMHTPath::<Binary>::read(&vec![1, 1, 0, 0, 0, 0, 0, 0, 0, 2]).is_none());
    // A value not below the modulus.
    let mut bytes = vec![1];
    bytes.extend_from_slice(&MODULUS.to_le_bytes());
    bytes.push(0);
    assert!(FieldBasedBinaryMHTPath::<Binary>::read(&bytes).is_none());
    // A general level whose position byte is missing.
    assert!(FieldBasedMHTPath::<Binary>::read(&vec![1, 1, 4, 0, 0, 0, 0, 0, 0, 0]).is_none());
    let (empty, used) = FieldBasedMHTPath::<Binary>::read(&vec![0, 7]).unwrap();
    assert_eq!(used, 1);
    assert_eq!(empty.get_length(), 0);
}
