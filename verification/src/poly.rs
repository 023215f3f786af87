//! The multilinear extension (MLE) polynomial: an owned table of `2^num_var`
//! field values, one per hypercube vertex. Supports folding (binding the
//! highest-indexed variable, halving the table) and full-point evaluation
//! (inner product with the indicator table of the point).

use crate::eq::{eq_eval, lemma_eq_eval_double, EqPolynomial};
use crate::scalar::{
    add_seq, all_in_field, f_add, f_mul, f_sub, f_sum, in_field, lemma_add_ident,
    lemma_f_sum_concat, lemma_f_sum_pointwise_add, lemma_mul_assoc, lemma_mul_distrib,
    lemma_mul_ident, lemma_ops_in_field, seq_vals, Scalar,
};
use vstd::arithmetic::power2::{lemma2_to64, lemma_pow2_pos, lemma_pow2_unfold, pow2};
use vstd::prelude::*;

verus! {

/// One fold of an evaluation table at challenge `rho`: for `half = len / 2`,
/// slot `i` of the halved table is `(1 - rho) * s[i] + rho * s[i + half]`.
pub open spec fn fold_step(s: Seq<int>, rho: int) -> Seq<int> {
    Seq::new(
        s.len() / 2,
        |i: int| f_add(f_mul(f_sub(1, rho), s[i]), f_mul(rho, s[i + s.len() / 2])),
    )
}

/// Folding with each challenge of `rs` in turn, first challenge first.
pub open spec fn fold_all(s: Seq<int>, rs: Seq<int>) -> Seq<int>
    decreases rs.len(),
{
    if rs.len() == 0 {
        s
    } else {
        fold_all(fold_step(s, rs[0]), rs.subrange(1, rs.len() as int))
    }
}

/// The weighted terms of a full-point evaluation: slot `i` carries
/// `eq_eval(point, i) * evals[i]`.
pub open spec fn mle_terms(evals: Seq<int>, point: Seq<int>) -> Seq<int> {
    Seq::new(evals.len(), |i: int| f_mul(eq_eval(point, i), evals[i]))
}

/// The value at `point` of the multilinear extension of the table `evals`:
/// the inner product of the indicator table of `point` with `evals`.
pub open spec fn mle_eval(evals: Seq<int>, point: Seq<int>) -> int {
    f_sum(mle_terms(evals, point))
}

/// One fold binds the highest-indexed variable: evaluating the folded table at
/// `point` equals evaluating the original table at `point` extended by the
/// challenge.
pub proof fn lemma_fold_step_eval(s: Seq<int>, point: Seq<int>, rho: int)
    requires
        s.len() == pow2((point.len() + 1) as nat),
    ensures
        mle_eval(fold_step(s, rho), point) == mle_eval(s, point.push(rho)),
{
    let m = pow2(point.len()) as int;
    lemma_pow2_unfold((point.len() + 1) as nat);
    let q = point.push(rho);
    assert(q.take(q.len() as int) =~= q);
    assert(q.take(q.len() - 1) =~= point);
    let big = mle_terms(s, q);
    let a = Seq::new(m as nat, |i: int| f_mul(f_mul(eq_eval(point, i), f_sub(1, rho)), s[i]));
    let b = Seq::new(m as nat, |i: int| f_mul(f_mul(eq_eval(point, i), rho), s[i + m]));
    assert forall|i: int| 0 <= i < 2 * m implies big[i] == (a + b)[i] by {
        if i < m {
            lemma_eq_eval_double(q, q.len() - 1, i);
        } else {
            lemma_eq_eval_double(q, q.len() - 1, i - m);
        }
    }
    assert(big =~= a + b);
    lemma_f_sum_concat(a, b);
    let f = fold_step(s, rho);
    let lhs = mle_terms(f, point);
    let a2 = Seq::new(m as nat, |i: int| f_mul(eq_eval(point, i), f_mul(f_sub(1, rho), s[i])));
    let b2 = Seq::new(m as nat, |i: int| f_mul(eq_eval(point, i), f_mul(rho, s[i + m])));
    assert forall|i: int| 0 <= i < m implies lhs[i] == add_seq(a2, b2)[i] by {
        lemma_mul_distrib(eq_eval(point, i), f_mul(f_sub(1, rho), s[i]), f_mul(rho, s[i + m]));
    }
    assert(lhs =~= add_seq(a2, b2));
    lemma_f_sum_pointwise_add(a2, b2);
    assert forall|i: int| 0 <= i < m implies a2[i] == a[i] by {
        lemma_mul_assoc(eq_eval(point, i), f_sub(1, rho), s[i]);
    }
    assert(a2 =~= a);
    assert forall|i: int| 0 <= i < m implies b2[i] == b[i] by {
        lemma_mul_assoc(eq_eval(point, i), rho, s[i + m]);
    }
    assert(b2 =~= b);
}

/// Fold/evaluate equivalence. Each fold binds the highest-indexed variable, so
/// folding a table of `2^n` values with challenges `r_0, ..., r_{n-1}` in turn
/// leaves the single value of the polynomial at the reversed point
/// `(r_{n-1}, ..., r_0)` — the same value `evaluate` computes at that point.
pub proof fn lemma_fold_evaluate_agree(s: Seq<int>, rs: Seq<int>)
    requires
        all_in_field(s),
        s.len() == pow2(rs.len()),
    ensures
        fold_all(s, rs).len() == 1,
        fold_all(s, rs)[0] == mle_eval(s, rs.reverse()),
    decreases rs.len(),
{
    if rs.len() == 0 {
        lemma2_to64();
        let t = mle_terms(s, rs.reverse());
        assert(t.len() == 1);
        assert(t.drop_last() =~= Seq::<int>::empty());
        assert(f_sum(Seq::<int>::empty()) == 0);
        assert(rs.reverse().len() == 0);
        assert(t[0] == f_mul(eq_eval(rs.reverse(), 0), s[0]));
        lemma_mul_ident(s[0]);
        lemma_add_ident(s[0]);
    } else {
        let r0 = rs[0];
        let rest = rs.subrange(1, rs.len() as int);
        let f = fold_step(s, r0);
        lemma_pow2_unfold(rs.len());
        assert(f.len() == pow2(rest.len()));
        assert forall|i: int| 0 <= i < f.len() implies in_field(#[trigger] f[i]) by {
            lemma_ops_in_field(f_mul(f_sub(1, r0), s[i]), f_mul(r0, s[i + s.len() / 2]));
        }
        lemma_fold_evaluate_agree(f, rest);
        lemma_fold_step_eval(s, rest.reverse(), r0);
        assert(rest.reverse().push(r0) =~= rs.reverse());
    }
}

/// A multilinear polynomial held as its table of evaluations over the
/// hypercube: `evals` has length exactly `2^num_var`.
pub struct MLEPolynomial {
    pub num_var: usize,
    pub evals: Vec<Scalar>,
}

impl MLEPolynomial {
    /// The table has hypercube shape and holds canonical field values.
    pub open spec fn wf(&self) -> bool {
        self.evals@.len() == pow2(self.num_var as nat) && all_in_field(seq_vals(self.evals@))
    }

    /// Builds the polynomial whose evaluation table is `vs`, zero-padded up to
    /// the next power of two; `num_var` is the base-two logarithm of the
    /// padded length. An empty input yields the single-value zero polynomial.
    pub fn new(vs: &[Scalar]) -> (r: Self)
        requires
            2 * vs@.len() <= usize::MAX,
            all_in_field(seq_vals(vs@)),
        ensures
            r.wf(),
            r.evals@.len() == pow2(r.num_var as nat),
            vs@.len() <= pow2(r.num_var as nat),
            r.num_var == 0 || pow2((r.num_var - 1) as nat) < vs@.len(),
            forall|i: int|
                0 <= i < vs@.len() ==> #[trigger] seq_vals(r.evals@)[i] == seq_vals(vs@)[i],
            forall|i: int|
                vs@.len() <= i < r.evals@.len() ==> #[trigger] seq_vals(r.evals@)[i] == 0,
    {
        let mut size: usize = 1;
        let mut n: usize = 0;
        proof {
            lemma2_to64();
        }
        while size < vs.len()
            invariant
                size == pow2(n as nat),
                1 <= size,
                n <= size,
                n == 0 || pow2((n - 1) as nat) < vs@.len(),
                2 * vs@.len() <= usize::MAX,
            decreases 2 * vs@.len() - size,
        {
            proof {
                lemma_pow2_unfold((n + 1) as nat);
            }
            size = size * 2;
            n = n + 1;
        }
        let mut evals: Vec<Scalar> = Vec::new();
        let mut i: usize = 0;
        while i < vs.len()
            invariant
                i <= vs@.len(),
                evals@.len() == i,
                size == pow2(n as nat),
                vs@.len() <= size,
                all_in_field(seq_vals(vs@)),
                n == 0 || pow2((n - 1) as nat) < vs@.len(),
                forall|j: int| 0 <= j < i ==> #[trigger] evals@[j] == vs@[j],
            decreases vs@.len() - i,
        {
            evals.push(vs[i]);
            i = i + 1;
        }
        while evals.len() < size
            invariant
                vs@.len() <= evals@.len() <= size,
                size == pow2(n as nat),
                all_in_field(seq_vals(vs@)),
                n == 0 || pow2((n - 1) as nat) < vs@.len(),
                forall|j: int| 0 <= j < vs@.len() ==> #[trigger] evals@[j] == vs@[j],
                forall|j: int| vs@.len() <= j < evals@.len() ==> #[trigger] evals@[j]@ == 0,
            decreases size - evals@.len(),
        {
            evals.push(Scalar::zero());
        }
        proof {
            assert(forall|j: int|
                0 <= j < evals@.len() ==> #[trigger] seq_vals(evals@)[j] == evals@[j]@);
            assert(forall|j: int|
                0 <= j < vs@.len() ==> #[trigger] seq_vals(vs@)[j] == vs@[j]@);
            assert forall|j: int| 0 <= j < evals@.len() implies in_field(
                #[trigger] seq_vals(evals@)[j],
            ) by {
                assert(seq_vals(evals@)[j] == evals@[j]@);
                if j < vs@.len() {
                    assert(seq_vals(vs@)[j] == vs@[j]@);
                }
            }
        }
        MLEPolynomial { num_var: n, evals }
    }

    /// The length of the evaluation table, `2^num_var`.
    pub fn len(&self) -> (r: usize)
        ensures
            r == self.evals@.len(),
    {
        self.evals.len()
    }

    /// Direct read of the table slot `index`.
    pub fn get(&self, index: usize) -> (r: Scalar)
        requires
            index < self.evals@.len(),
        ensures
            r == self.evals@[index as int],
            r@ == seq_vals(self.evals@)[index as int],
    {
        self.evals[index]
    }

    /// Binds the highest-indexed variable to `rho`: every slot `i` of the
    /// halved table becomes `(1 - rho) * evals[i] + rho * evals[i + half]`,
    /// and `num_var` drops by one.
    pub fn fold_into_half(&mut self, rho: &Scalar)
        requires
            old(self).wf(),
            old(self).num_var > 0,
            in_field(rho@),
        ensures
            final(self).wf(),
            final(self).num_var == old(self).num_var - 1,
            seq_vals(final(self).evals@) == fold_step(seq_vals(old(self).evals@), rho@),
    {
        let ghost orig = seq_vals(old(self).evals@);
        let half = self.evals.len() / 2;
        let r = *rho;
        let mut i: usize = 0;
        proof {
            lemma_pow2_unfold(self.num_var as nat);
            lemma_pow2_pos((self.num_var - 1) as nat);
        }
        while i < half
            invariant
                i <= half,
                self.num_var == old(self).num_var,
                self.evals@.len() == orig.len(),
                orig.len() <= usize::MAX,
                half == orig.len() / 2,
                half < orig.len(),
                in_field(r@),
                r@ == rho@,
                all_in_field(orig),
                forall|m: int|
                    0 <= m < i ==> #[trigger] self.evals@[m]@ == fold_step(orig, r@)[m],
                forall|m: int| i <= m < orig.len() ==> #[trigger] self.evals@[m]@ == orig[m],
            decreases half - i,
        {
            let one = Scalar::one();
            let a = one.sub(r).mul(self.evals[i]);
            let b = r.mul(self.evals[i + half]);
            let v = a.add(b);
            self.evals.set(i, v);
            i = i + 1;
        }
        self.evals.truncate(half);
        self.num_var = self.num_var - 1;
        proof {
            assert(seq_vals(self.evals@) =~= fold_step(orig, rho@));
            lemma_pow2_unfold(old(self).num_var as nat);
        }
    }

    /// The value of the polynomial at `rs`: builds the indicator table of the
    /// point and takes its inner product with the evaluation table. Requires a
    /// point of dimension exactly `num_var`.
    pub fn evaluate(&self, rs: &[Scalar]) -> (r: Scalar)
        requires
            self.wf(),
            rs@.len() == self.num_var,
            all_in_field(seq_vals(rs@)),
        ensures
            r@ == mle_eval(seq_vals(self.evals@), seq_vals(rs@)),
            in_field(r@),
    {
        let ghost point = seq_vals(rs@);
        let mut point_vec: Vec<Scalar> = Vec::new();
        let mut i: usize = 0;
        while i < rs.len()
            invariant
                i <= rs@.len(),
                point_vec@.len() == i,
                forall|j: int| 0 <= j < i ==> #[trigger] point_vec@[j] == rs@[j],
            decreases rs@.len() - i,
        {
            point_vec.push(rs[i]);
            i = i + 1;
        }
        proof {
            assert(seq_vals(point_vec@) =~= point);
        }
        let full = self.evals.len();
        let chi = EqPolynomial::new(&point_vec).evals_over_hypercube();
        let ghost terms = mle_terms(seq_vals(self.evals@), point);
        let mut acc = Scalar::zero();
        let mut k: usize = 0;
        proof {
            assert(terms.take(0) =~= Seq::<int>::empty());
        }
        while k < full
            invariant
                k <= full,
                full == self.evals@.len(),
                self.wf(),
                rs@.len() == self.num_var,
                point == seq_vals(rs@),
                chi@.len() == full,
                forall|m: int|
                    0 <= m < chi@.len() ==> #[trigger] seq_vals(chi@)[m] == eq_eval(point, m),
                all_in_field(seq_vals(chi@)),
                terms == mle_terms(seq_vals(self.evals@), point),
                terms.len() == full,
                acc@ == f_sum(terms.take(k as int)),
                in_field(acc@),
            decreases full - k,
        {
            proof {
                assert(chi@[k as int]@ == seq_vals(chi@)[k as int]);
                assert(self.evals@[k as int]@ == seq_vals(self.evals@)[k as int]);
                assert(terms.take(k + 1).drop_last() =~= terms.take(k as int));
                assert(terms.take(k + 1).last() == terms[k as int]);
            }
            let t = chi[k].mul(self.evals[k]);
            acc = acc.add(t);
            k = k + 1;
        }
        proof {
            assert(terms.take(terms.len() as int) =~= terms);
        }
        acc
    }
}

} // verus!
