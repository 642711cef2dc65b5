use primitives::crh::{BN382FqPoseidonParameters, FieldBasedHashParameters, FrPoseidonParameters, PoseidonParameters};
use primitives::curves::{G1Prepared, G2Prepared, GroupAffine};
use primitives::field::{Fp, MODULUS};
use primitives::{leading_zeros, CryptoError};

#[test]
fn leading_zeros_counts_false_prefix() {
    assert_eq!(leading_zeros(vec![]), 0);
    assert_eq!(leading_zeros(vec![true, false]), 0);
    assert_eq!(leading_zeros(vec![false, false, true, false]), 2);
    assert_eq!(leading_zeros(vec![false, false, false]), 3);
}

#[test]
fn field_arithmetic_wraps_at_the_modulus() {
    let minus_one = Fp::from_u64(MODULUS - 1);
    assert_eq!(minus_one.add(&Fp::one()), Fp::zero());
    assert_eq!(Fp::zero().sub(&Fp::one()), minus_one);
    assert_eq!(Fp::one().neg(), minus_one);
    assert_eq!(minus_one.mul(&minus_one), Fp::one());
    assert_eq!(Fp::from_u64(MODULUS), Fp::zero());
    assert_eq!(Fp::from_u64(3).pow(4).value(), 81);
    assert_eq!(Fp::from_u64(2).pow(64), Fp::from_u64(u32::MAX as u64));
    assert!(Fp::from_u64(MODULUS).is_zero());
    assert!(Fp::from_u64(5).equals(&Fp::from_u64(MODULUS + 5)));
}

#[test]
fn inverse_multiplies_to_one() {
    for x in [1u64, 2, 7, 123456789, MODULUS - 1] {
        let a = Fp::from_u64(x);
        assert_eq!(a.mul(&a.inverse()), Fp::one());
    }
    assert_eq!(Fp::from_u64(2).inverse().value(), (MODULUS + 1) / 2);
    assert_eq!(Fp::zero().inverse(), Fp::zero());
}

#[test]
fn prepared_points_report_infinity() {
    let p = GroupAffine { x: 1u64, y: 2u64, infinity: false };
    let g1 = G1Prepared::from_affine(p);
    assert_eq!(g1.0, p);
    assert!(!g1.is_zero());
    let inf = G1Prepared::from_affine(GroupAffine { x: 0u64, y: 0u64, infinity: true });
    assert!(inf.is_zero());
    let g2: G2Prepared<u64> = G2Prepared { ell_coeffs: vec![], infinity: true };
    assert!(g2.is_zero());
    let g2 = G2Prepared { ell_coeffs: vec![(1u64, 2u64, 3u64)], infinity: false };
    assert!(!g2.is_zero());
}

#[test]
fn poseidon_parameter_sets() {
    assert_eq!(FrPoseidonParameters::rate(), 2);
    assert_eq!(FrPoseidonParameters::state_size(), 3);
    assert_eq!(FrPoseidonParameters::half_full_rounds(), 4);
    assert_eq!(FrPoseidonParameters::partial_rounds(), 56);
    assert_eq!(BN382FqPoseidonParameters::rate(), 2);
    assert_eq!(BN382FqPoseidonParameters::state_size(), 3);
    assert_eq!(BN382FqPoseidonParameters::partial_rounds(), 56);
}

#[test]
fn crypto_errors_compare_by_variant() {
    assert_eq!(CryptoError::IncorrectInputLength(3), CryptoError::IncorrectInputLength(3));
    assert_ne!(CryptoError::IncorrectInputLength(3), CryptoError::IncorrectInputLength(4));
    assert_ne!(CryptoError::NotPrimeOrder, CryptoError::FailedVerification);
}
