//! The reduction of a rank-1 constraint system to a quadratic arithmetic
//! program: the QAP's polynomials evaluated at a point for key generation,
//! and the quotient polynomial of a witness for proving.
use crate::domain::{
    coset_gen, domain_exists, domain_log, is_domain_log, spec_coset_fft, spec_coset_ifft,
    spec_ifft, spec_lagrange, spec_vanishing, zeros, EvaluationDomain,
};
use crate::field::{fadd, finv, fmul, fsub, pow2, vals, Fp};
use vstd::prelude::*;

verus! {

/// A variable of a constraint system: a public input or an auxiliary
/// (witness) variable, by its position among its kind.
#[derive(Clone, Copy, Debug, PartialEq, Eq, Structural)]
pub enum Index {
    Input(usize),
    Aux(usize),
}

#[derive(Clone, Copy, Debug, PartialEq, Eq, Structural)]
pub enum SynthesisError {
    /// No evaluation domain is large enough for the constraint system.
    PolynomialDegreeTooLarge,
}

/// A constraint system as key generation sees it: for each constraint, the
/// linear combinations `A`, `B` and `C` as (coefficient, variable) terms.
pub struct KeypairAssembly {
    pub num_inputs: usize,
    pub num_aux: usize,
    pub num_constraints: usize,
    pub at: Vec<Vec<(Fp, Index)>>,
    pub bt: Vec<Vec<(Fp, Index)>>,
    pub ct: Vec<Vec<(Fp, Index)>>,
}

/// A constraint system as the prover sees it: the linear combinations and
/// the values assigned to the input and auxiliary variables.
pub struct ProvingAssignment {
    pub at: Vec<Vec<(Fp, Index)>>,
    pub bt: Vec<Vec<(Fp, Index)>>,
    pub ct: Vec<Vec<(Fp, Index)>>,
    pub input_assignment: Vec<Fp>,
    pub aux_assignment: Vec<Fp>,
    pub num_inputs: usize,
    pub num_aux: usize,
    pub num_constraints: usize,
}

/// The position of a variable among all variables, inputs first.
pub open spec fn flat_index(index: Index, num_inputs: nat) -> nat {
    match index {
        Index::Input(i) => i as nat,
        Index::Aux(i) => num_inputs + i as nat,
    }
}

pub open spec fn rows_view(rows: Seq<Vec<(Fp, Index)>>) -> Seq<Seq<(Fp, Index)>> {
    rows.map_values(|r: Vec<(Fp, Index)>| r@)
}

/// Every term names an existing variable.
pub open spec fn terms_in_range(rows: Seq<Seq<(Fp, Index)>>, num_inputs: nat, num_aux: nat) -> bool {
    forall|i: int, j: int|
        0 <= i < rows.len() && 0 <= j < rows[i].len() ==> match (#[trigger] rows[i][j]).1 {
            Index::Input(k) => k < num_inputs,
            Index::Aux(k) => k < num_aux,
        }
}

/// Every term's variable lies below `bound` among all variables.
pub open spec fn indices_below(rows: Seq<Seq<(Fp, Index)>>, num_inputs: nat, bound: nat) -> bool {
    forall|i: int, j: int|
        0 <= i < rows.len() && 0 <= j < rows[i].len() ==> flat_index(
            (#[trigger] rows[i][j]).1,
            num_inputs,
        ) < bound
}

/// `init` plus `weight * coefficient` for each term on the variable `target`,
/// added in the order of the terms.
pub open spec fn lc_accumulate(
    init: int,
    terms: Seq<(Fp, Index)>,
    weight: int,
    target: nat,
    num_inputs: nat,
) -> int
    decreases terms.len(),
{
    if terms.len() == 0 {
        init
    } else {
        let prev = lc_accumulate(init, terms.drop_last(), weight, target, num_inputs);
        if flat_index(terms.last().1, num_inputs) == target {
            fadd(prev, fmul(weight, terms.last().0@))
        } else {
            prev
        }
    }
}

/// `init` plus, over the first `count` rows, each row's terms on `target`
/// weighted by that row's `u`.
pub open spec fn rows_accumulate(
    init: int,
    rows: Seq<Seq<(Fp, Index)>>,
    u: Seq<int>,
    target: nat,
    num_inputs: nat,
    count: nat,
) -> int
    decreases count,
{
    if count == 0 {
        init
    } else {
        lc_accumulate(
            rows_accumulate(init, rows, u, target, num_inputs, (count - 1) as nat),
            rows[count - 1],
            u[count - 1],
            target,
            num_inputs,
        )
    }
}

/// The value of a linear combination under an assignment of all variables.
pub open spec fn lc_value(terms: Seq<(Fp, Index)>, assignment: Seq<int>, num_inputs: nat) -> int
    decreases terms.len(),
{
    if terms.len() == 0 {
        0
    } else {
        fadd(
            lc_value(terms.drop_last(), assignment, num_inputs),
            fmul(assignment[flat_index(terms.last().1, num_inputs) as int], terms.last().0@),
        )
    }
}

/// The values of the rows' linear combinations in the first `m` slots of `n`,
/// zero in the others.
pub open spec fn row_values(
    rows: Seq<Seq<(Fp, Index)>>,
    assignment: Seq<int>,
    num_inputs: nat,
    m: nat,
    n: nat,
) -> Seq<int> {
    Seq::new(n, |k: int| if k < m { lc_value(rows[k], assignment, num_inputs) } else { 0 })
}

/// The `A` values with the input-consistency rows: after the `m` constraint
/// rows, 1 for the first input and each other input's value.
pub open spec fn a_values(
    rows: Seq<Seq<(Fp, Index)>>,
    assignment: Seq<int>,
    num_inputs: nat,
    m: nat,
    n: nat,
) -> Seq<int> {
    Seq::new(
        n,
        |k: int|
            if k < m {
                lc_value(rows[k], assignment, num_inputs)
            } else if k < m + num_inputs {
                if k == m {
                    1
                } else {
                    assignment[k - m]
                }
            } else {
                0
            },
    )
}

/// The coefficients of `(A*B - C) / Z` over the domain of size `2^log`,
/// given the values of `A`, `B` and `C` on the domain, all but the last.
pub open spec fn quotient_coefficients(log: nat, a: Seq<int>, b: Seq<int>, c: Seq<int>) -> Seq<
    int,
> {
    let ac = spec_coset_fft(log, spec_ifft(log, a));
    let bc = spec_coset_fft(log, spec_ifft(log, b));
    let cc = spec_coset_fft(log, spec_ifft(log, c));
    let z_inv = finv(spec_vanishing(log, coset_gen()));
    let quotient = Seq::new(
        pow2(log),
        |k: int| fmul(fsub(fmul(ac[k], bc[k]), cc[k]), z_inv),
    );
    spec_coset_ifft(log, quotient).take(pow2(log) - 1)
}

/// The value of a linear combination under `assignment`.
fn evaluate_constraint(terms: &Vec<(Fp, Index)>, assignment: &Vec<Fp>, num_input: usize) -> (r: Fp)
    requires
        forall|j: int|
            0 <= j < terms@.len() ==> flat_index((#[trigger] terms@[j]).1, num_input as nat)
                < assignment@.len(),
    ensures
        r@ == lc_value(terms@, vals(assignment@), num_input as nat),
{
    let mut acc = Fp::zero();
    let len = assignment.len();
    let mut j: usize = 0;
    while j < terms.len()
        invariant
            j <= terms.len(),
            len == assignment@.len(),
            forall|t: int|
                0 <= t < terms@.len() ==> flat_index((#[trigger] terms@[t]).1, num_input as nat)
                    < assignment@.len(),
            acc@ == lc_value(terms@.take(j as int), vals(assignment@), num_input as nat),
        decreases terms.len() - j,
    {
        let (coeff, index) = terms[j];
        assert(index == terms@[j as int].1);
        assert(flat_index(index, num_input as nat) < assignment@.len());
        let val = match index {
            Index::Input(i) => assignment[i],
            Index::Aux(i) => {
                assert(flat_index(index, num_input as nat) == num_input + i);
                assignment[num_input + i]
            },
        };
        let ghost before = terms@.take(j as int);
        acc = acc.add(&val.mul(&coeff));
        j = j + 1;
        proof {
            let now = terms@.take(j as int);
            assert(now.drop_last() =~= before);
            assert(now.last() == terms@[j - 1]);
        }
    }
    assert(terms@.take(j as int) =~= terms@);
    acc
}

/// The values of the first `m` rows under `assignment`, then zeros up to `n`.
fn constraint_values(
    rows: &Vec<Vec<(Fp, Index)>>,
    assignment: &Vec<Fp>,
    num_inputs: usize,
    m: usize,
    n: usize,
) -> (r: Vec<Fp>)
    requires
        m <= n,
        rows@.len() == m,
        indices_below(rows_view(rows@), num_inputs as nat, assignment@.len()),
    ensures
        r@.len() == n,
        vals(r@) == row_values(rows_view(rows@), vals(assignment@), num_inputs as nat, m as nat, n as nat),
{
    let ghost target = row_values(rows_view(rows@), vals(assignment@), num_inputs as nat, m as nat, n as nat);
    let mut r: Vec<Fp> = Vec::with_capacity(n);
    let mut k: usize = 0;
    while k < n
        invariant
            k <= n,
            m <= n,
            rows@.len() == m,
            r@.len() == k,
            indices_below(rows_view(rows@), num_inputs as nat, assignment@.len()),
            target == row_values(rows_view(rows@), vals(assignment@), num_inputs as nat, m as nat, n as nat),
            vals(r@) == target.take(k as int),
        decreases n - k,
    {
        if k < m {
            assert(rows_view(rows@)[k as int] == rows@[k as int]@);
            assert forall|j: int| 0 <= j < rows@[k as int]@.len() implies flat_index(
                (#[trigger] rows@[k as int]@[j]).1,
                num_inputs as nat,
            ) < assignment@.len() by {
                assert(rows_view(rows@)[k as int][j] == rows@[k as int]@[j]);
            }
            r.push(evaluate_constraint(&rows[k], assignment, num_inputs));
        } else {
            r.push(Fp::zero());
        }
        k = k + 1;
        assert(vals(r@) =~= target.take(k as int));
    }
    assert(target.take(k as int) =~= target);
    r
}

/// Adds to `acc[v]`, for each of the first `num_rows` rows `i` and each term
/// of it on variable `v`, `u[i]` times the term's coefficient.
fn accumulate_rows(
    acc: &mut Vec<Fp>,
    rows: &Vec<Vec<(Fp, Index)>>,
    u: &Vec<Fp>,
    num_rows: usize,
    num_inputs: usize,
)
    requires
        rows@.len() == num_rows,
        u@.len() >= num_rows,
        indices_below(rows_view(rows@), num_inputs as nat, old(acc)@.len()),
    ensures
        final(acc)@.len() == old(acc)@.len(),
        forall|t: int|
            0 <= t < old(acc)@.len() ==> (#[trigger] final(acc)@[t])@ == rows_accumulate(
                old(acc)@[t]@,
                rows_view(rows@),
                vals(u@),
                t as nat,
                num_inputs as nat,
                num_rows as nat,
            ),
{
    let len = acc.len();
    let ghost start = acc@;
    let ghost rv = rows_view(rows@);
    let ghost uv = vals(u@);
    let ghost ni = num_inputs as nat;
    let mut i: usize = 0;
    while i < num_rows
        invariant
            i <= num_rows,
            rows@.len() == num_rows,
            u@.len() >= num_rows,
            acc@.len() == start.len(),
            len == start.len(),
            ni == num_inputs as nat,
            rv == rows_view(rows@),
            uv == vals(u@),
            indices_below(rv, ni, start.len()),
            forall|t: int|
                0 <= t < start.len() ==> (#[trigger] acc@[t])@ == rows_accumulate(
                    start[t]@,
                    rv,
                    uv,
                    t as nat,
                    ni,
                    i as nat,
                ),
        decreases num_rows - i,
    {
        let row = &rows[i];
        let weight = u[i];
        assert(rv[i as int] == row@);
        assert(uv[i as int] == weight@);
        let mut j: usize = 0;
        while j < row.len()
            invariant
                i < num_rows,
                j <= row.len(),
                rv[i as int] == row@,
                uv[i as int] == weight@,
                acc@.len() == start.len(),
                len == start.len(),
                ni == num_inputs as nat,
                rv == rows_view(rows@),
                rows@.len() == num_rows,
                indices_below(rv, ni, start.len()),
                forall|t: int|
                    0 <= t < start.len() ==> (#[trigger] acc@[t])@ == lc_accumulate(
                        rows_accumulate(start[t]@, rv, uv, t as nat, ni, i as nat),
                        row@.take(j as int),
                        weight@,
                        t as nat,
                        ni,
                    ),
            decreases row.len() - j,
        {
            let (coeff, index) = row[j];
            assert(index == row@[j as int].1);
            assert(rv[i as int][j as int] == row@[j as int]);
            assert(flat_index(index, ni) < start.len());
            let idx = match index {
                Index::Input(k) => k,
                Index::Aux(k) => {
                    assert(flat_index(index, ni) == num_inputs + k);
                    num_inputs + k
                },
            };
            let ghost before = acc@;
            let val = acc[idx].add(&weight.mul(&coeff));
            acc.set(idx, val);
            j = j + 1;
            proof {
                let now = row@.take(j as int);
                assert(now.drop_last() =~= row@.take(j - 1));
                assert(now.last() == row@[j - 1]);
                assert forall|t: int| 0 <= t < start.len() implies (#[trigger] acc@[t])@
                    == lc_accumulate(
                    rows_accumulate(start[t]@, rv, uv, t as nat, ni, i as nat),
                    now,
                    weight@,
                    t as nat,
                    ni,
                ) by {
                    if t != idx {
                        assert(acc@[t] == before[t]);
                    }
                }
            }
        }
        assert(row@.take(j as int) =~= row@);
        i = i + 1;
    }
}

/// The reduction from a rank-1 constraint system to a quadratic arithmetic
/// program.
pub struct R1CStoQAP;

impl R1CStoQAP {
    /// For key generation: the QAP's `A`, `B` and `C` polynomials of each
    /// variable evaluated at `t`, the vanishing polynomial at `t`, the number
    /// of variables but the first, and the domain size.
    pub fn instance_map_with_evaluation(assembly: &KeypairAssembly, t: &Fp) -> (r: Result<
        (Vec<Fp>, Vec<Fp>, Vec<Fp>, Fp, usize, usize),
        SynthesisError,
    >)
        requires
            assembly.num_inputs >= 1,
            assembly.num_constraints + assembly.num_inputs <= usize::MAX,
            assembly.num_inputs + assembly.num_aux <= usize::MAX,
            assembly.at@.len() == assembly.num_constraints,
            assembly.bt@.len() == assembly.num_constraints,
            assembly.ct@.len() == assembly.num_constraints,
            terms_in_range(rows_view(assembly.at@), assembly.num_inputs as nat, assembly.num_aux as nat),
            terms_in_range(rows_view(assembly.bt@), assembly.num_inputs as nat, assembly.num_aux as nat),
            terms_in_range(rows_view(assembly.ct@), assembly.num_inputs as nat, assembly.num_aux as nat),
        ensures
            ({
                let m = assembly.num_constraints as nat;
                let ni = assembly.num_inputs as nat;
                let nv = (ni - 1 + assembly.num_aux) as nat;
                let log = domain_log(m + ni);
                let u = spec_lagrange(log, t@);
                match r {
                    Ok((a, b, c, zt, num_vars, domain_size)) => {
                        &&& domain_exists(m + ni)
                        &&& is_domain_log(log, m + ni)
                        &&& domain_size == pow2(log)
                        &&& zt@ == spec_vanishing(log, t@)
                        &&& num_vars == nv
                        &&& a@.len() == nv + 1 && b@.len() == nv + 1 && c@.len() == nv + 1
                        &&& forall|v: int| 0 <= v <= nv ==> (#[trigger] a@[v])@ == rows_accumulate(
                            if v < ni { u[m + v] } else { 0 },
                            rows_view(assembly.at@),
                            u,
                            v as nat,
                            ni,
                            m,
                        )
                        &&& forall|v: int| 0 <= v <= nv ==> (#[trigger] b@[v])@ == rows_accumulate(
                            0,
                            rows_view(assembly.bt@),
                            u,
                            v as nat,
                            ni,
                            m,
                        )
                        &&& forall|v: int| 0 <= v <= nv ==> (#[trigger] c@[v])@ == rows_accumulate(
                            0,
                            rows_view(assembly.ct@),
                            u,
                            v as nat,
                            ni,
                            m,
                        )
                    },
                    Err(e) => !domain_exists(m + ni) && e == SynthesisError::PolynomialDegreeTooLarge,
                }
            }),
    {
        let m = assembly.num_constraints;
        let ni = assembly.num_inputs;
        let domain = match EvaluationDomain::new(m + (ni - 1) + 1) {
            Some(d) => d,
            None => return Err(SynthesisError::PolynomialDegreeTooLarge),
        };
        let domain_size = domain.size();
        let zt = domain.evaluate_vanishing_polynomial(t);
        let u = domain.evaluate_all_lagrange_coefficients(t);
        let ghost uv = vals(u@);
        let ghost log = domain.log_size();
        assert(uv.len() == u@.len());
        assert(spec_lagrange(log, t@).len() == pow2(log));

        let qap_num_variables = (ni - 1) + assembly.num_aux;
        let mut a = zeros(qap_num_variables + 1);
        let mut b = zeros(qap_num_variables + 1);
        let mut c = zeros(qap_num_variables + 1);

        let mut i: usize = 0;
        while i < ni
            invariant
                i <= ni,
                a@.len() == qap_num_variables + 1,
                qap_num_variables + 1 == ni + assembly.num_aux,
                u@.len() == domain_size,
                domain_size >= m + ni,
                forall|v: int| 0 <= v < i ==> (#[trigger] a@[v])@ == vals(u@)[m + v],
                forall|v: int| i <= v < a@.len() ==> (#[trigger] a@[v])@ == 0,
            decreases ni - i,
        {
            a.set(i, u[m + i]);
            i = i + 1;
        }
        proof {
            let ni_n = ni as nat;
            let na = assembly.num_aux as nat;
            assert(indices_below(rows_view(assembly.at@), ni_n, a@.len()));
            assert(indices_below(rows_view(assembly.bt@), ni_n, b@.len()));
            assert(indices_below(rows_view(assembly.ct@), ni_n, c@.len()));
        }
        let ghost a0 = a@;
        let ghost b0 = b@;
        let ghost c0 = c@;
        accumulate_rows(&mut a, &assembly.at, &u, m, ni);
        accumulate_rows(&mut b, &assembly.bt, &u, m, ni);
        accumulate_rows(&mut c, &assembly.ct, &u, m, ni);
        proof {
            assert forall|v: int| 0 <= v < a@.len() implies (#[trigger] a0[v])@ == (if v < ni {
                uv[m + v]
            } else {
                0
            }) by {}
            assert forall|v: int| 0 <= v < b@.len() implies (#[trigger] b0[v])@ == 0 by {}
            assert forall|v: int| 0 <= v < c@.len() implies (#[trigger] c0[v])@ == 0 by {}
        }
        Ok((a, b, c, zt, qap_num_variables, domain_size))
    }

    /// For proving: the assignment of all variables, inputs first, and the
    /// coefficients of the quotient `(A*B - C) / Z` of the witness's QAP
    /// polynomials by the domain's vanishing polynomial, and the domain size.
    pub fn witness_map(prover: &ProvingAssignment) -> (r: Result<(Vec<Fp>, Vec<Fp>, usize), SynthesisError>)
        requires
            prover.num_inputs >= 1,
            prover.num_constraints + prover.num_inputs <= usize::MAX,
            prover.num_inputs + prover.num_aux <= usize::MAX,
            prover.input_assignment@.len() == prover.num_inputs,
            prover.aux_assignment@.len() == prover.num_aux,
            prover.at@.len() == prover.num_constraints,
            prover.bt@.len() == prover.num_constraints,
            prover.ct@.len() == prover.num_constraints,
            terms_in_range(rows_view(prover.at@), prover.num_inputs as nat, prover.num_aux as nat),
            terms_in_range(rows_view(prover.bt@), prover.num_inputs as nat, prover.num_aux as nat),
            terms_in_range(rows_view(prover.ct@), prover.num_inputs as nat, prover.num_aux as nat),
        ensures
            ({
                let m = prover.num_constraints as nat;
                let ni = prover.num_inputs as nat;
                let log = domain_log(m + ni);
                let n = pow2(log);
                let full = vals(prover.input_assignment@) + vals(prover.aux_assignment@);
                match r {
                    Ok((assignment, h, domain_size)) => {
                        &&& domain_exists(m + ni)
                        &&& is_domain_log(log, m + ni)
                        &&& domain_size == n
                        &&& vals(assignment@) == full
                        &&& vals(h@) == quotient_coefficients(
                            log,
                            a_values(rows_view(prover.at@), full, ni, m, n),
                            row_values(rows_view(prover.bt@), full, ni, m, n),
                            row_values(rows_view(prover.ct@), full, ni, m, n),
                        )
                    },
                    Err(e) => !domain_exists(m + ni) && e == SynthesisError::PolynomialDegreeTooLarge,
                }
            }),
    {
        let m = prover.num_constraints;
        let ni = prover.num_inputs;
        let mut full_input_assignment: Vec<Fp> = Vec::with_capacity(ni + prover.num_aux);
        let mut k: usize = 0;
        while k < ni
            invariant
                k <= ni,
                ni == prover.input_assignment@.len(),
                full_input_assignment@ == prover.input_assignment@.take(k as int),
            decreases ni - k,
        {
            full_input_assignment.push(prover.input_assignment[k]);
            k = k + 1;
            assert(full_input_assignment@ =~= prover.input_assignment@.take(k as int));
        }
        let mut k: usize = 0;
        while k < prover.num_aux
            invariant
                k <= prover.num_aux,
                prover.num_aux == prover.aux_assignment@.len(),
                ni == prover.input_assignment@.len(),
                full_input_assignment@ == prover.input_assignment@ + prover.aux_assignment@.take(k as int),
            decreases prover.num_aux - k,
        {
            full_input_assignment.push(prover.aux_assignment[k]);
            k = k + 1;
            assert(full_input_assignment@ =~= prover.input_assignment@ + prover.aux_assignment@.take(k as int));
        }
        assert(prover.aux_assignment@.take(k as int) =~= prover.aux_assignment@);
        assert(vals(full_input_assignment@) =~= vals(prover.input_assignment@) + vals(prover.aux_assignment@));

        let domain = match EvaluationDomain::new(m + (ni - 1) + 1) {
            Some(d) => d,
            None => return Err(SynthesisError::PolynomialDegreeTooLarge),
        };
        let domain_size = domain.size();
        let ghost log = domain.log_size();
        let ghost full = vals(full_input_assignment@);
        proof {
            let ni_n = ni as nat;
            let len = full_input_assignment@.len();
            assert(indices_below(rows_view(prover.at@), ni_n, len));
            assert(indices_below(rows_view(prover.bt@), ni_n, len));
            assert(indices_below(rows_view(prover.ct@), ni_n, len));
        }

        let mut a = constraint_values(&prover.at, &full_input_assignment, ni, m, domain_size);
        let mut b = constraint_values(&prover.bt, &full_input_assignment, ni, m, domain_size);
        let ghost a_target = a_values(rows_view(prover.at@), full, ni as nat, m as nat, domain_size as nat);
        let ghost a_rows = vals(a@);
        let one = Fp::one();
        assert forall|v: int| 0 <= v < m implies (#[trigger] a@[v])@ == a_target[v] by {
            assert(a@[v]@ == a_rows[v]);
        }
        let mut i: usize = 0;
        while i < ni
            invariant
                i <= ni,
                ni <= full_input_assignment@.len(),
                a@.len() == domain_size,
                domain_size >= m + ni,
                one@ == 1,
                full == vals(full_input_assignment@),
                a_rows == row_values(rows_view(prover.at@), full, ni as nat, m as nat, domain_size as nat),
                a_target == a_values(rows_view(prover.at@), full, ni as nat, m as nat, domain_size as nat),
                forall|v: int| 0 <= v < m + i ==> (#[trigger] a@[v])@ == a_target[v],
                forall|v: int| m + i <= v < domain_size ==> (#[trigger] a@[v])@ == a_rows[v],
            decreases ni - i,
        {
            let x = if i > 0 {
                full_input_assignment[i]
            } else {
                one
            };
            a.set(m + i, x);
            i = i + 1;
        }
        assert(vals(a@) =~= a_target);
        let ghost b_target = vals(b@);

        domain.ifft_in_place(&mut a);
        domain.ifft_in_place(&mut b);
        domain.coset_fft_in_place(&mut a);
        domain.coset_fft_in_place(&mut b);
        let ghost ac = vals(a@);
        let ghost bc = vals(b@);
        let mut ab = domain.mul_polynomials_in_evaluation_domain(&a, &b);

        let mut c = constraint_values(&prover.ct, &full_input_assignment, ni, m, domain_size);
        let ghost c_target = vals(c@);
        domain.ifft_in_place(&mut c);
        domain.coset_fft_in_place(&mut c);
        let ghost cc = vals(c@);

        let ghost products = vals(ab@);
        let mut j: usize = 0;
        while j < ab.len()
            invariant
                j <= ab@.len(),
                ab@.len() == c@.len(),
                products.len() == ab@.len(),
                forall|v: int| 0 <= v < j ==> (#[trigger] ab@[v])@ == fsub(products[v], c@[v]@),
                forall|v: int| j <= v < ab@.len() ==> (#[trigger] ab@[v])@ == products[v],
            decreases ab@.len() - j,
        {
            let x = ab[j].sub(&c[j]);
            ab.set(j, x);
            j = j + 1;
        }

        let ghost differences = vals(ab@);
        domain.divide_by_vanishing_poly_on_coset_in_place(&mut ab);
        let ghost quotient = vals(ab@);
        domain.coset_ifft_in_place(&mut ab);
        let ghost coefficients = vals(ab@);

        let mut h: Vec<Fp> = Vec::with_capacity(domain_size - 1);
        let mut j: usize = 0;
        while j < domain_size - 1
            invariant
                j <= domain_size - 1,
                ab@.len() == domain_size,
                h@ == ab@.take(j as int),
            decreases domain_size - 1 - j,
        {
            h.push(ab[j]);
            j = j + 1;
            assert(h@ =~= ab@.take(j as int));
        }
        proof {
            let n = domain_size as nat;
            let ni_n = ni as nat;
            let m_n = m as nat;
            let qa = a_values(rows_view(prover.at@), full, ni_n, m_n, n);
            let qb = row_values(rows_view(prover.bt@), full, ni_n, m_n, n);
            let qc = row_values(rows_view(prover.ct@), full, ni_n, m_n, n);
            assert(a_target == qa);
            assert(b_target == qb);
            assert(c_target == qc);
            assert(ac == spec_coset_fft(log, spec_ifft(log, qa)));
            assert(bc == spec_coset_fft(log, spec_ifft(log, qb)));
            assert(cc == spec_coset_fft(log, spec_ifft(log, qc)));
            let z_inv = finv(spec_vanishing(log, coset_gen()));
            let expected = Seq::new(n, |k: int| fmul(fsub(fmul(ac[k], bc[k]), cc[k]), z_inv));
            assert forall|k: int| 0 <= k < n implies #[trigger] quotient[k] == expected[k] by {
                assert(differences[k] == fsub(products[k], cc[k]));
                assert(products[k] == fmul(ac[k], bc[k]));
            }
            assert(quotient =~= expected);
            assert(coefficients == spec_coset_ifft(log, expected));
            assert(vals(h@) =~= coefficients.take(n - 1));
            assert(vals(h@) =~= quotient_coefficients(log, qa, qb, qc));
        }
        Ok((full_input_assignment, h, domain_size))
    }
}

} // verus!
