use primitives::domain::EvaluationDomain;
use primitives::field::Fp;
use primitives::r1cs_to_qap::{Index, KeypairAssembly, ProvingAssignment, R1CStoQAP, SynthesisError};

fn fp(x: u64) -> Fp {
    Fp::from_u64(x)
}

fn eval(coeffs: &[Fp], x: &Fp) -> Fp {
    let mut acc = Fp::zero();
    let mut power = Fp::one();
    for c in coeffs {
        acc = acc.add(&c.mul(&power));
        power = power.mul(x);
    }
    acc
}

fn dot(a: &[Fp], b: &[Fp]) -> Fp {
    let mut acc = Fp::zero();
    for (x, y) in a.iter().zip(b.iter()) {
        acc = acc.add(&x.mul(y));
    }
    acc
}

/// `x * y = z` and `(x + y) * 1 = w`, with inputs `1, z, w` and witness `x, y`.
fn rows() -> (Vec<Vec<(Fp, Index)>>, Vec<Vec<(Fp, Index)>>, Vec<Vec<(Fp, Index)>>) {
    let at = vec![
        vec![(fp(1), Index::Aux(0))],
        vec![(fp(1), Index::Aux(0)), (fp(1), Index::Aux(1))],
    ];
    let bt = vec![vec![(fp(1), Index::Aux(1))], vec![(fp(1), Index::Input(0))]];
    let ct = vec![vec![(fp(1), Index::Input(1))], vec![(fp(1), Index::Input(2))]];
    (at, bt, ct)
}

fn assembly() -> KeypairAssembly {
    let (at, bt, ct) = rows();
    KeypairAssembly { num_inputs: 3, num_aux: 2, num_constraints: 2, at, bt, ct }
}

fn prover(x: u64, y: u64, z: u64, w: u64) -> ProvingAssignment {
    let (at, bt, ct) = rows();
    ProvingAssignment {
        at,
        bt,
        ct,
        input_assignment: vec![fp(1), fp(z), fp(w)],
        aux_assignment: vec![fp(x), fp(y)],
        num_inputs: 3,
        num_aux: 2,
        num_constraints: 2,
    }
}

#[test]
fn qap_identity_holds_for_satisfying_assignment() {
    let t = fp(123456789);
    let (a, b, c, zt, num_vars, domain_size) =
        R1CStoQAP::instance_map_with_evaluation(&assembly(), &t).unwrap();
    let (assignment, h, witness_domain_size) = R1CStoQAP::witness_map(&prover(3, 4, 12, 7)).unwrap();
    assert_eq!(num_vars, 4);
    assert_eq!(a.len(), 5);
    assert_eq!(assignment, vec![fp(1), fp(12), fp(7), fp(3), fp(4)]);
    assert_eq!(domain_size, 8);
    assert_eq!(witness_domain_size, domain_size);
    assert_eq!(h.len(), domain_size - 1);
    let lhs = dot(&a, &assignment).mul(&dot(&b, &assignment)).sub(&dot(&c, &assignment));
    assert_eq!(lhs, eval(&h, &t).mul(&zt));
}

#[test]
fn qap_identity_fails_for_unsatisfying_assignment() {
    let t = fp(987654321);
    let (a, b, c, zt, _, _) = R1CStoQAP::instance_map_with_evaluation(&assembly(), &t).unwrap();
    let (assignment, h, _) = R1CStoQAP::witness_map(&prover(3, 4, 13, 7)).unwrap();
    let lhs = dot(&a, &assignment).mul(&dot(&b, &assignment)).sub(&dot(&c, &assignment));
    assert_ne!(lhs, eval(&h, &t).mul(&zt));
}

#[test]
fn domain_sizes_agree_between_maps() {
    for m in 0..6usize {
        let at = vec![vec![]; m];
        let system = KeypairAssembly { num_inputs: 1, num_aux: 0, num_constraints: m, at: at.clone(), bt: at.clone(), ct: at.clone() };
        let pa = ProvingAssignment {
            at: at.clone(),
            bt: at.clone(),
            ct: at,
            input_assignment: vec![fp(1)],
            aux_assignment: vec![],
            num_inputs: 1,
            num_aux: 0,
            num_constraints: m,
        };
        let (_, _, _, _, _, ds1) = R1CStoQAP::instance_map_with_evaluation(&system, &fp(5)).unwrap();
        let (_, _, ds2) = R1CStoQAP::witness_map(&pa).unwrap();
        assert_eq!(ds1, ds2);
        assert_eq!(ds1, (m + 1).next_power_of_two());
    }
}

#[test]
fn instance_map_accumulates_lagrange_weights() {
    let t = fp(42);
    let (a, b, c, zt, _, ds) = R1CStoQAP::instance_map_with_evaluation(&assembly(), &t).unwrap();
    let domain = EvaluationDomain::new(5).unwrap();
    let u = domain.evaluate_all_lagrange_coefficients(&t);
    assert_eq!(ds, 8);
    assert_eq!(zt, domain.evaluate_vanishing_polynomial(&t));
    // Inputs take the rows after the constraints.
    assert_eq!(a[0], u[2]);
    assert_eq!(a[1], u[3]);
    assert_eq!(a[2], u[4]);
    // x appears in A of both rows, y in A of the second row only.
    assert_eq!(a[3], u[0].add(&u[1]));
    assert_eq!(a[4], u[1]);
    assert_eq!(b, vec![u[1], Fp::zero(), Fp::zero(), Fp::zero(), u[0]]);
    assert_eq!(c, vec![Fp::zero(), u[0], u[1], Fp::zero(), Fp::zero()]);
}

#[test]
fn unsupported_domain_is_reported() {
    assert!(EvaluationDomain::new((1usize << 32) + 1).is_none());
    assert!(EvaluationDomain::new(1usize << 32).is_some());
    assert_eq!(SynthesisError::PolynomialDegreeTooLarge, SynthesisError::PolynomialDegreeTooLarge);
}

#[test]
fn domain_sizes_are_smallest_powers_of_two() {
    assert_eq!(EvaluationDomain::new(0).unwrap().size(), 1);
    assert_eq!(EvaluationDomain::new(1).unwrap().size(), 1);
    assert_eq!(EvaluationDomain::new(5).unwrap().size(), 8);
    assert_eq!(EvaluationDomain::new(8).unwrap().size(), 8);
    assert_eq!(EvaluationDomain::new(9).unwrap().size(), 16);
}

#[test]
fn transforms_invert_each_other() {
    let domain = EvaluationDomain::new(4).unwrap();
    let coeffs = vec![fp(1), fp(2), fp(3), fp(4)];
    let mut v = coeffs.clone();
    domain.fft_in_place(&mut v);
    // The value at 1 is the sum of the coefficients.
    assert_eq!(v[0], fp(10));
    domain.ifft_in_place(&mut v);
    assert_eq!(v, coeffs);
    let mut w = coeffs.clone();
    domain.coset_fft_in_place(&mut w);
    assert_eq!(w[0], eval(&coeffs, &fp(7)));
    domain.coset_ifft_in_place(&mut w);
    assert_eq!(w, coeffs);
}

#[test]
fn lagrange_coefficients_sum_to_one() {
    let domain = EvaluationDomain::new(8).unwrap();
    let u = domain.evaluate_all_lagrange_coefficients(&fp(1000));
    let mut sum = Fp::zero();
    for x in &u {
        sum = sum.add(x);
    }
    assert_eq!(sum, Fp::one());
    // On a point of the domain, the coefficients pick that point.
    let on_point = domain.evaluate_all_lagrange_coefficients(&Fp::one());
    assert_eq!(on_point[0], Fp::one());
    for x in &on_point[1..] {
        assert!(x.is_zero());
    }
    assert!(domain.evaluate_vanishing_polynomial(&Fp::one()).is_zero());
}

#[test]
fn quotient_is_zero_for_trivially_satisfied_system() {
    // One constraint 0 * 0 = 0 and a single input.
    let system_rows = vec![vec![]];
    let pa = ProvingAssignment {
        at: system_rows.clone(),
        bt: system_rows.clone(),
        ct: system_rows,
        input_assignment: vec![fp(1)],
        aux_assignment: vec![],
        num_inputs: 1,
        num_aux: 0,
        num_constraints: 1,
    };
    let (assignment, h, ds) = R1CStoQAP::witness_map(&pa).unwrap();
    assert_eq!(assignment, vec![fp(1)]);
    assert_eq!(ds, 2);
    assert_eq!(h, vec![Fp::zero()]);
}

#[test]
fn qap_identity_holds_for_squaring_chain() {
    // x_{i+1} = x_i * x_i for nine rows; the last value is the public input.
    let rows_count = 9usize;
    let mut at = vec![];
    let mut bt = vec![];
    let mut ct = vec![];
    for i in 0..rows_count {
        at.push(vec![(fp(1), Index::Aux(i))]);
        bt.push(vec![(fp(1), Index::Aux(i))]);
        if i + 1 < rows_count {
            ct.push(vec![(fp(1), Index::Aux(i + 1))]);
        } else {
            ct.push(vec![(fp(1), Index::Input(1))]);
        }
    }
    let mut aux = vec![fp(3)];
    for i in 0..rows_count - 1 {
        let next = aux[i].mul(&aux[i]);
        aux.push(next);
    }
    let out = aux[rows_count - 1].mul(&aux[rows_count - 1]);
    let system = KeypairAssembly {
        num_inputs: 2,
        num_aux: rows_count,
        num_constraints: rows_count,
        at: at.clone(),
        bt: bt.clone(),
        ct: ct.clone(),
    };
    let pa = ProvingAssignment {
        at,
        bt,
        ct,
        input_assignment: vec![fp(1), out],
        aux_assignment: aux,
        num_inputs: 2,
        num_aux: rows_count,
        num_constraints: rows_count,
    };
    let t = fp(31337);
    let (a, b, c, zt, _, ds) = R1CStoQAP::instance_map_with_evaluation(&system, &t).unwrap();
    let (assignment, h, ds2) = R1CStoQAP::witness_map(&pa).unwrap();
    assert_eq!(ds, 16);
    assert_eq!(ds2, 16);
    assert_eq!(h.len(), 15);
    let lhs = dot(&a, &assignment).mul(&dot(&b, &assignment)).sub(&dot(&c, &assignment));
    assert_eq!(lhs, eval(&h, &t).mul(&zt));
}
