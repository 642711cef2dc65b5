//! Radix-2 evaluation domains: the subgroups of order `2^k` of the field's
//! multiplicative group, with conversion between the coefficients of a
//! polynomial and its values on a subgroup or on a coset of it. Each
//! transform evaluates the polynomial at every point by direct summation,
//! in time quadratic in the domain size, so that each output is exactly the
//! sum its contract states.
use crate::field::{
    fadd, finv, fmul, fpow, fsub, pow2, vals, Fp, MULTIPLICATIVE_GENERATOR,
    MULTIPLICATIVE_GENERATOR_INV, TWO_ADICITY, TWO_ADIC_ROOT_OF_UNITY, TWO_INV,
};
use crate::field;
use vstd::prelude::*;

verus! {

/// `x` squared `k` times over.
pub open spec fn repeated_square(x: int, k: nat) -> int
    decreases k,
{
    if k == 0 {
        x
    } else {
        let y = repeated_square(x, (k - 1) as nat);
        fmul(y, y)
    }
}

/// The generator of the subgroup of order `2^log`.
pub open spec fn group_gen(log: nat) -> int {
    repeated_square(TWO_ADIC_ROOT_OF_UNITY as int % field::p(), (TWO_ADICITY - log) as nat)
}

/// The inverse of the subgroup's generator: `g^(2^log - 1)`.
pub open spec fn group_gen_inv(log: nat) -> int {
    fpow(group_gen(log), (pow2(log) - 1) as nat)
}

/// The inverse of the subgroup's order: `(1/2)^log`.
pub open spec fn size_inv(log: nat) -> int {
    fpow(TWO_INV as int % field::p(), log)
}

/// The generator of the coset on which quotients are taken.
pub open spec fn coset_gen() -> int {
    MULTIPLICATIVE_GENERATOR as int % field::p()
}

pub open spec fn coset_gen_inv() -> int {
    MULTIPLICATIVE_GENERATOR_INV as int % field::p()
}

/// `sum_j c[j] * x^j`.
pub open spec fn poly_eval(c: Seq<int>, x: int) -> int
    decreases c.len(),
{
    if c.len() == 0 {
        0
    } else {
        fadd(poly_eval(c.drop_last(), x), fmul(c.last(), fpow(x, (c.len() - 1) as nat)))
    }
}

/// The values of the polynomial with coefficients `c` at `w^0, ..., w^(n-1)`.
pub open spec fn evaluations_at_powers(c: Seq<int>, w: int, n: nat) -> Seq<int> {
    Seq::new(n, |k: int| poly_eval(c, fpow(w, k as nat)))
}

/// `c[j] * g^j` for each `j`.
pub open spec fn distribute_powers(c: Seq<int>, g: int) -> Seq<int> {
    Seq::new(c.len(), |j: int| fmul(c[j], fpow(g, j as nat)))
}

/// The values on the subgroup of order `2^log` of the polynomial with
/// coefficients `c`.
pub open spec fn spec_fft(log: nat, c: Seq<int>) -> Seq<int> {
    evaluations_at_powers(c, group_gen(log), c.len())
}

/// The coefficients of the polynomial with the values `v` on the subgroup of
/// order `2^log`.
pub open spec fn spec_ifft(log: nat, v: Seq<int>) -> Seq<int> {
    Seq::new(
        v.len(),
        |k: int| fmul(poly_eval(v, fpow(group_gen_inv(log), k as nat)), size_inv(log)),
    )
}

/// The values on the coset of the subgroup of order `2^log` of the
/// polynomial with coefficients `c`.
pub open spec fn spec_coset_fft(log: nat, c: Seq<int>) -> Seq<int> {
    spec_fft(log, distribute_powers(c, coset_gen()))
}

/// The coefficients of the polynomial with the values `v` on the coset.
pub open spec fn spec_coset_ifft(log: nat, v: Seq<int>) -> Seq<int> {
    distribute_powers(spec_ifft(log, v), coset_gen_inv())
}

/// `t^(2^log) - 1`: the polynomial that vanishes on the subgroup, at `t`.
pub open spec fn spec_vanishing(log: nat, t: int) -> int {
    fsub(fpow(t, pow2(log)), 1)
}

/// On a point `t` of the subgroup: 1 at the first index `i` with `w^i = t`,
/// 0 elsewhere.
pub open spec fn lagrange_on_domain(log: nat, t: int) -> Seq<int> {
    let w = group_gen(log);
    Seq::new(
        pow2(log),
        |i: int|
            if fpow(w, i as nat) == t && (forall|j: int|
                0 <= j < i ==> #[trigger] fpow(w, j as nat) != t) {
                1
            } else {
                0
            },
    )
}

/// Off the subgroup: `(t^n - 1) / n * w^i / (t - w^i)` at index `i`.
pub open spec fn lagrange_off_domain(log: nat, t: int) -> Seq<int> {
    let w = group_gen(log);
    let l0 = fmul(fsub(fpow(t, pow2(log)), 1), size_inv(log));
    Seq::new(
        pow2(log),
        |i: int| fmul(fmul(l0, fpow(w, i as nat)), finv(fsub(t, fpow(w, i as nat)))),
    )
}

/// The value at `t` of each Lagrange basis polynomial of the subgroup of
/// order `n = 2^log`, generated by `w`.
pub open spec fn spec_lagrange(log: nat, t: int) -> Seq<int> {
    if fpow(t, pow2(log)) == 1 {
        lagrange_on_domain(log, t)
    } else {
        lagrange_off_domain(log, t)
    }
}

/// `2^log` is the smallest power of two, with `log <= TWO_ADICITY`, of at
/// least `n`.
pub open spec fn is_domain_log(log: nat, n: nat) -> bool {
    &&& log <= TWO_ADICITY
    &&& pow2(log) >= n
    &&& forall|j: nat| j < log ==> #[trigger] pow2(j) < n
}

/// The base-2 logarithm of the size of the domain chosen for `n` points.
pub open spec fn domain_log(n: nat) -> nat {
    choose|log: nat| is_domain_log(log, n)
}

/// Whether a domain of at least `n` points exists whose size fits in `usize`.
pub open spec fn domain_exists(n: nat) -> bool {
    exists|k: nat| k <= TWO_ADICITY && #[trigger] pow2(k) >= n && pow2(k) <= usize::MAX
}

/// Only one size is the smallest admissible for `n` points: every
/// computation that chooses a domain for `n` points chooses the same.
pub proof fn lemma_domain_log_unique(log: nat, n: nat)
    requires
        is_domain_log(log, n),
    ensures
        domain_log(n) == log,
{
    let other = domain_log(n);
    assert(is_domain_log(other, n));
    if other < log {
        assert(pow2(other) < n);
    } else if other > log {
        assert(pow2(log) < n);
    }
}

/// A vector of `n` zeros.
pub fn zeros(n: usize) -> (r: Vec<Fp>)
    ensures
        r@.len() == n,
        forall|i: int| 0 <= i < n ==> (#[trigger] r@[i])@ == 0,
{
    let mut r: Vec<Fp> = Vec::with_capacity(n);
    let mut i: usize = 0;
    while i < n
        invariant
            i <= n,
            r@.len() == i,
            forall|j: int| 0 <= j < i ==> (#[trigger] r@[j])@ == 0,
        decreases n - i,
    {
        r.push(Fp::zero());
        i = i + 1;
    }
    r
}

/// The value of the polynomial with coefficients `c` at `x`.
pub fn evaluate_polynomial(c: &Vec<Fp>, x: &Fp) -> (r: Fp)
    ensures
        r@ == poly_eval(vals(c@), x@),
{
    let mut acc = Fp::zero();
    let mut xp = Fp::one();
    let mut j: usize = 0;
    while j < c.len()
        invariant
            j <= c.len(),
            acc@ == poly_eval(vals(c@).take(j as int), x@),
            xp@ == fpow(x@, j as nat),
        decreases c.len() - j,
    {
        let ghost before = vals(c@).take(j as int);
        acc = acc.add(&c[j].mul(&xp));
        xp = xp.mul(x);
        j = j + 1;
        proof {
            let now = vals(c@).take(j as int);
            assert(now.drop_last() =~= before);
            assert(now.last() == c@[j - 1]@);
        }
    }
    assert(vals(c@).take(j as int) =~= vals(c@));
    acc
}

/// The values of the polynomial with coefficients `c` at `w^0, ..., w^(n-1)`.
fn evaluate_at_powers(c: &Vec<Fp>, w: &Fp, n: usize) -> (r: Vec<Fp>)
    ensures
        r@.len() == n,
        vals(r@) == evaluations_at_powers(vals(c@), w@, n as nat),
{
    let mut r: Vec<Fp> = Vec::with_capacity(n);
    let mut point = Fp::one();
    let mut k: usize = 0;
    while k < n
        invariant
            k <= n,
            r@.len() == k,
            point@ == fpow(w@, k as nat),
            vals(r@) == evaluations_at_powers(vals(c@), w@, n as nat).take(k as int),
        decreases n - k,
    {
        r.push(evaluate_polynomial(c, &point));
        point = point.mul(w);
        k = k + 1;
        assert(vals(r@) =~= evaluations_at_powers(vals(c@), w@, n as nat).take(k as int));
    }
    assert(evaluations_at_powers(vals(c@), w@, n as nat).take(k as int) =~= evaluations_at_powers(
        vals(c@),
        w@,
        n as nat,
    ));
    r
}

/// Multiplies each `v[j]` by `g^j`.
fn distribute_powers_in_place(v: &mut Vec<Fp>, g: &Fp)
    ensures
        final(v)@.len() == old(v)@.len(),
        vals(final(v)@) == distribute_powers(vals(old(v)@), g@),
{
    let ghost initial = vals(v@);
    let mut power = Fp::one();
    let mut j: usize = 0;
    while j < v.len()
        invariant
            j <= v.len(),
            initial.len() == v@.len(),
            power@ == fpow(g@, j as nat),
            forall|i: int| 0 <= i < j ==> #[trigger] v@[i]@ == distribute_powers(initial, g@)[i],
            forall|i: int| j <= i < v@.len() ==> #[trigger] v@[i]@ == initial[i],
        decreases v.len() - j,
    {
        let x = v[j].mul(&power);
        v.set(j, x);
        power = power.mul(g);
        j = j + 1;
    }
    assert(vals(v@) =~= distribute_powers(initial, g@));
}

/// Multiplies each element by `s`.
fn scale_in_place(v: &mut Vec<Fp>, s: &Fp)
    ensures
        final(v)@.len() == old(v)@.len(),
        vals(final(v)@) == vals(old(v)@).map_values(|x: int| fmul(x, s@)),
{
    let ghost initial = vals(v@);
    let mut j: usize = 0;
    while j < v.len()
        invariant
            j <= v.len(),
            initial.len() == v@.len(),
            forall|i: int| 0 <= i < j ==> #[trigger] v@[i]@ == fmul(initial[i], s@),
            forall|i: int| j <= i < v@.len() ==> #[trigger] v@[i]@ == initial[i],
        decreases v.len() - j,
    {
        let x = v[j].mul(s);
        v.set(j, x);
        j = j + 1;
    }
    assert(vals(v@) =~= initial.map_values(|x: int| fmul(x, s@)));
}

/// A subgroup of order `2^k` of the field's multiplicative group, with the
/// constants that transforms over it use.
pub struct EvaluationDomain {
    size: usize,
    log_size_of_group: u32,
    size_inv: Fp,
    group_gen: Fp,
    group_gen_inv: Fp,
}

impl EvaluationDomain {
    #[verifier::type_invariant]
    spec fn well_formed(&self) -> bool {
        &&& self.log_size_of_group <= TWO_ADICITY
        &&& self.size as nat == pow2(self.log_size_of_group as nat)
        &&& self.size_inv@ == size_inv(self.log_size_of_group as nat)
        &&& self.group_gen@ == group_gen(self.log_size_of_group as nat)
        &&& self.group_gen_inv@ == group_gen_inv(self.log_size_of_group as nat)
    }

    /// The base-2 logarithm of the domain's size.
    pub closed spec fn log_size(&self) -> nat {
        self.log_size_of_group as nat
    }

    /// The smallest domain with at least `num_coeffs` points, if one of at
    /// most `2^TWO_ADICITY` points, whose size fits in `usize`, will do.
    pub fn new(num_coeffs: usize) -> (r: Option<EvaluationDomain>)
        ensures
            r is Some <==> domain_exists(num_coeffs as nat),
            r matches Some(d) ==> is_domain_log(d.log_size(), num_coeffs as nat) && d.log_size()
                == domain_log(num_coeffs as nat),
    {
        let mut size: usize = 1;
        let mut log: u32 = 0;
        while size < num_coeffs && log < TWO_ADICITY && size <= usize::MAX / 2
            invariant
                log <= TWO_ADICITY,
                size as nat == pow2(log as nat),
                forall|j: nat| j < log ==> #[trigger] pow2(j) < num_coeffs,
            decreases TWO_ADICITY - log,
        {
            proof {
                assert(pow2((log + 1) as nat) == 2 * pow2(log as nat));
            }
            size = size * 2;
            log = log + 1;
        }
        if size < num_coeffs {
            proof {
                assert forall|k: nat| k <= TWO_ADICITY && #[trigger] pow2(k) >= num_coeffs
                    implies pow2(k) > usize::MAX by {
                    if k > log {
                        lemma_pow2_monotone(log as nat + 1, k);
                        assert(pow2(log as nat + 1) == 2 * pow2(log as nat));
                    }
                }
            }
            return None;
        }
        let mut group_gen = Fp::from_u64(TWO_ADIC_ROOT_OF_UNITY);
        let mut k: u32 = 0;
        while k < TWO_ADICITY - log
            invariant
                log <= TWO_ADICITY,
                k <= TWO_ADICITY - log,
                group_gen@ == repeated_square(TWO_ADIC_ROOT_OF_UNITY as int % field::p(), k as nat),
            decreases TWO_ADICITY - log - k,
        {
            group_gen = group_gen.square();
            k = k + 1;
        }
        proof {
            lemma_pow2_monotone(0, log as nat);
        }
        proof {
            lemma_domain_log_unique(log as nat, num_coeffs as nat);
        }
        let group_gen_inv = group_gen.pow((size - 1) as u64);
        let size_inv = Fp::from_u64(TWO_INV).pow(log as u64);
        Some(EvaluationDomain { size, log_size_of_group: log, size_inv, group_gen, group_gen_inv })
    }

    pub fn size(&self) -> (r: usize)
        ensures
            r as nat == pow2(self.log_size()),
            self.log_size() <= TWO_ADICITY,
    {
        proof {
            use_type_invariant(self);
        }
        self.size
    }

    /// `tau^n - 1`, for `n` the domain's size.
    pub fn evaluate_vanishing_polynomial(&self, tau: &Fp) -> (r: Fp)
        ensures
            r@ == spec_vanishing(self.log_size(), tau@),
    {
        proof {
            use_type_invariant(self);
        }
        tau.pow(self.size as u64).sub(&Fp::one())
    }

    /// The value at `tau` of each Lagrange basis polynomial of the domain.
    pub fn evaluate_all_lagrange_coefficients(&self, tau: &Fp) -> (r: Vec<Fp>)
        ensures
            vals(r@) == spec_lagrange(self.log_size(), tau@),
    {
        proof {
            use_type_invariant(self);
        }
        let t_size = tau.pow(self.size as u64);
        if t_size.equals(&Fp::one()) {
            self.lagrange_coefficients_on_domain(tau)
        } else {
            self.lagrange_coefficients_off_domain(tau, &t_size)
        }
    }

    fn lagrange_coefficients_on_domain(&self, tau: &Fp) -> (r: Vec<Fp>)
        ensures
            vals(r@) == lagrange_on_domain(self.log_size(), tau@),
    {
        proof {
            use_type_invariant(self);
        }
        let size = self.size;
        let ghost log = self.log_size();
        let ghost w = group_gen(log);
        let one = Fp::one();
        let mut u = zeros(size);
        let mut omega_i = one;
        let mut i: usize = 0;
        let mut found = false;
        while i < size && !found
            invariant
                i <= size,
                u@.len() == size,
                one@ == 1,
                self.group_gen@ == w,
                w == group_gen(log),
                log == self.log_size(),
                !found ==> omega_i@ == fpow(w, i as nat),
                !found ==> forall|j: int| 0 <= j < i ==> #[trigger] fpow(w, j as nat) != tau@,
                !found ==> forall|j: int| 0 <= j < size ==> (#[trigger] u@[j])@ == 0,
                found ==> vals(u@) == lagrange_on_domain(log, tau@),
                size == pow2(log),
            decreases size - i + (if found { 0int } else { 1int }),
        {
            if omega_i.equals(tau) {
                let ghost before = u@;
                u.set(i, one);
                found = true;
                proof {
                    assert forall|k: int| 0 <= k < size implies #[trigger] vals(u@)[k]
                        == lagrange_on_domain(log, tau@)[k] by {
                        assert(vals(u@)[k] == u@[k]@);
                        let spec_k = lagrange_on_domain(log, tau@)[k];
                        if k < i {
                            assert(u@[k] == before[k]);
                            assert(fpow(w, k as nat) != tau@);
                            assert(spec_k == 0);
                            assert(before[k]@ == 0);
                        } else if k == i {
                            assert(fpow(w, k as nat) == tau@);
                            assert(spec_k == 1);
                            assert(u@[k] == one);
                        } else {
                            assert(u@[k] == before[k]);
                            let j = i as int;
                            assert(fpow(w, j as nat) == tau@);
                            assert(0 <= j < k);
                            assert(spec_k == 0);
                            assert(before[k]@ == 0);
                        }
                    }
                    assert(vals(u@) =~= lagrange_on_domain(log, tau@));
                }
            } else {
                omega_i = omega_i.mul(&self.group_gen);
                i = i + 1;
            }
        }
        proof {
            if !found {
                assert(vals(u@) =~= lagrange_on_domain(log, tau@));
            }
        }
        u
    }

    fn lagrange_coefficients_off_domain(&self, tau: &Fp, t_size: &Fp) -> (r: Vec<Fp>)
        requires
            t_size@ == fpow(tau@, pow2(self.log_size())),
        ensures
            vals(r@) == lagrange_off_domain(self.log_size(), tau@),
    {
        proof {
            use_type_invariant(self);
        }
        let size = self.size;
        let ghost log = self.log_size();
        let ghost w = group_gen(log);
        let ghost target = lagrange_off_domain(log, tau@);
        let l0 = t_size.sub(&Fp::one()).mul(&self.size_inv);
        let mut l = l0;
        let mut r = Fp::one();
        proof {
            Fp::lemma_range(l0);
            field::lemma_fmul_one(l0@);
        }
        let mut u: Vec<Fp> = Vec::with_capacity(size);
        let mut i: usize = 0;
        while i < size
            invariant
                i <= size,
                u@.len() == i,
                self.group_gen@ == w,
                w == group_gen(log),
                log == self.log_size(),
                l@ == fmul(l0@, fpow(w, i as nat)),
                r@ == fpow(w, i as nat),
                size == pow2(log),
                target == lagrange_off_domain(log, tau@),
                l0@ == fmul(fsub(fpow(tau@, pow2(log)), 1), size_inv(log)),
                vals(u@) == target.take(i as int),
            decreases size - i,
        {
            let x = l.mul(&tau.sub(&r).inverse());
            u.push(x);
            proof {
                assert(target[i as int] == x@);
                field::lemma_fmul_assoc(l0@, fpow(w, i as nat), w);
            }
            l = l.mul(&self.group_gen);
            r = r.mul(&self.group_gen);
            i = i + 1;
            assert(vals(u@) =~= target.take(i as int));
        }
        assert(target.take(i as int) =~= target);
        u
    }

    /// Turns the coefficients in `v` into the values on the domain.
    pub fn fft_in_place(&self, v: &mut Vec<Fp>)
        requires
            old(v)@.len() == pow2(self.log_size()),
        ensures
            final(v)@.len() == old(v)@.len(),
            vals(final(v)@) == spec_fft(self.log_size(), vals(old(v)@)),
    {
        proof {
            use_type_invariant(self);
        }
        let r = evaluate_at_powers(v, &self.group_gen, v.len());
        *v = r;
    }

    /// Turns the values on the domain in `v` into coefficients.
    pub fn ifft_in_place(&self, v: &mut Vec<Fp>)
        requires
            old(v)@.len() == pow2(self.log_size()),
        ensures
            final(v)@.len() == old(v)@.len(),
            vals(final(v)@) == spec_ifft(self.log_size(), vals(old(v)@)),
    {
        proof {
            use_type_invariant(self);
        }
        let ghost initial = vals(v@);
        let mut r = evaluate_at_powers(v, &self.group_gen_inv, v.len());
        scale_in_place(&mut r, &self.size_inv);
        *v = r;
        assert(vals(v@) =~= spec_ifft(self.log_size(), initial));
    }

    /// Turns the coefficients in `v` into the values on the coset.
    pub fn coset_fft_in_place(&self, v: &mut Vec<Fp>)
        requires
            old(v)@.len() == pow2(self.log_size()),
        ensures
            final(v)@.len() == old(v)@.len(),
            vals(final(v)@) == spec_coset_fft(self.log_size(), vals(old(v)@)),
    {
        distribute_powers_in_place(v, &Fp::from_u64(MULTIPLICATIVE_GENERATOR));
        self.fft_in_place(v);
    }

    /// Turns the values on the coset in `v` into coefficients.
    pub fn coset_ifft_in_place(&self, v: &mut Vec<Fp>)
        requires
            old(v)@.len() == pow2(self.log_size()),
        ensures
            final(v)@.len() == old(v)@.len(),
            vals(final(v)@) == spec_coset_ifft(self.log_size(), vals(old(v)@)),
    {
        self.ifft_in_place(v);
        distribute_powers_in_place(v, &Fp::from_u64(MULTIPLICATIVE_GENERATOR_INV));
    }

    /// The pointwise product of two vectors of values.
    pub fn mul_polynomials_in_evaluation_domain(&self, a: &Vec<Fp>, b: &Vec<Fp>) -> (r: Vec<Fp>)
        requires
            a@.len() == b@.len(),
        ensures
            r@.len() == a@.len(),
            forall|i: int| 0 <= i < a@.len() ==> (#[trigger] r@[i])@ == fmul(a@[i]@, b@[i]@),
    {
        let mut r: Vec<Fp> = Vec::with_capacity(a.len());
        let mut i: usize = 0;
        while i < a.len()
            invariant
                i <= a.len(),
                a@.len() == b@.len(),
                r@.len() == i,
                forall|j: int| 0 <= j < i ==> (#[trigger] r@[j])@ == fmul(a@[j]@, b@[j]@),
            decreases a.len() - i,
        {
            r.push(a[i].mul(&b[i]));
            i = i + 1;
        }
        r
    }

    /// Divides values on the coset by those of the vanishing polynomial,
    /// which is the constant `g^n - 1` there.
    pub fn divide_by_vanishing_poly_on_coset_in_place(&self, v: &mut Vec<Fp>)
        ensures
            final(v)@.len() == old(v)@.len(),
            vals(final(v)@) == vals(old(v)@).map_values(
                |x: int| fmul(x, finv(spec_vanishing(self.log_size(), coset_gen()))),
            ),
    {
        let z = self.evaluate_vanishing_polynomial(&Fp::from_u64(MULTIPLICATIVE_GENERATOR));
        scale_in_place(v, &z.inverse());
    }
}

pub proof fn lemma_pow2_monotone(a: nat, b: nat)
    requires
        a <= b,
    ensures
        pow2(a) <= pow2(b),
        pow2(a) >= 1,
    decreases b,
{
    if b > a {
        lemma_pow2_monotone(a, (b - 1) as nat);
    } else if a > 0 {
        lemma_pow2_monotone((a - 1) as nat, (a - 1) as nat);
    }
}

} // verus!
