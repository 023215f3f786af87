//! The indicator ("eq") polynomial: for a fixed coordinate vector it is the
//! multilinear polynomial that is one at exactly one vertex of the boolean
//! hypercube and zero at every other vertex. Vertices are indexed by the
//! little-endian bits of an integer: bit `j` set means coordinate `j`
//! contributes the factor `x_j`, bit clear the factor `1 - x_j`.

use crate::scalar::{
    all_in_field, f_add, f_mul, f_sub, f_sum, in_field, lemma_add_ident, lemma_f_sum_concat,
    lemma_f_sum_scale, lemma_mul_ident, lemma_mul_sub_factor, lemma_mul_zero, lemma_one_minus_plus,
    lemma_ops_in_field, scale_seq, seq_vals, Scalar,
};
use vstd::arithmetic::div_mod::{
    lemma_basic_div_specific_divisor, lemma_div_basics, lemma_div_denominator,
    lemma_div_plus_one, lemma_fundamental_div_mod_converse, lemma_mod_add_multiples_vanish,
    lemma_mod_bound, lemma_mod_breakdown, lemma_small_mod,
};
use vstd::arithmetic::power2::{
    lemma2_to64, lemma_pow2_pos, lemma_pow2_strictly_increases, lemma_pow2_unfold, pow2,
};
use vstd::prelude::*;

verus! {

/// The contribution of one coordinate to an indicator value: `x` when the
/// vertex bit is set, `1 - x` when it is clear.
pub open spec fn eq_factor(x: int, bit: bool) -> int {
    if bit {
        x
    } else {
        f_sub(1, x)
    }
}

/// The indicator value for coordinates `xs` at hypercube vertex `i`: the field
/// product over all `j` of `eq_factor(xs[j], bit j of i)`, bits little-endian.
pub open spec fn eq_eval(xs: Seq<int>, i: int) -> int
    decreases xs.len(),
{
    if xs.len() == 0 {
        1
    } else {
        let h = pow2((xs.len() - 1) as nat) as int;
        f_mul(eq_eval(xs.drop_last(), i % h), eq_factor(xs.last(), (i / h) % 2 == 1))
    }
}

/// The full table of indicator values over all `2^n` hypercube vertices.
pub open spec fn eq_table(xs: Seq<int>) -> Seq<int> {
    Seq::new(pow2(xs.len()), |i: int| eq_eval(xs, i))
}

/// Splitting an index below `2 * h` into its low part and its `h` bit agrees
/// with the low part and bit of the full index.
proof fn lemma_index_split(i: int, h: int)
    requires
        0 <= i,
        0 < h,
    ensures
        (i % (2 * h)) % h == i % h,
        (i % (2 * h)) / h == (i / h) % 2,
{
    lemma_mod_breakdown(i, h, 2);
    lemma_mod_bound(i, h);
    vstd::arithmetic::mul::lemma_mul_is_commutative(h, (i / h) % 2);
    lemma_mod_bound(i / h, 2);
    lemma_fundamental_div_mod_converse(i % (2 * h), h, (i / h) % 2, i % h);
}

/// Peeling one coordinate off the front of the running product: extending the
/// processed prefix from `j` to `j + 1` coordinates multiplies the indicator
/// value by the factor selected by bit `j` of the vertex index.
pub proof fn lemma_eq_eval_unfold(xs: Seq<int>, j: int, i: int)
    requires
        0 <= j < xs.len(),
        0 <= i,
    ensures
        eq_eval(xs.take(j + 1), i % (pow2((j + 1) as nat) as int)) == f_mul(
            eq_eval(xs.take(j), i % (pow2(j as nat) as int)),
            eq_factor(xs[j], (i / (pow2(j as nat) as int)) % 2 == 1),
        ),
{
    let h = pow2(j as nat) as int;
    lemma_pow2_pos(j as nat);
    lemma_pow2_unfold((j + 1) as nat);
    let s = xs.take(j + 1);
    assert(s.drop_last() =~= xs.take(j));
    assert(s.last() == xs[j]);
    let m = i % (2 * h);
    lemma_index_split(i, h);
    lemma_mod_bound(i, 2 * h);
    lemma_mod_bound(i / h, 2);
    lemma_small_mod(((i / h) % 2) as nat, 2);
}

/// The doubling step: the indicator table for `k + 1` coordinates is the table
/// for `k` coordinates with every entry split into a lower copy scaled by
/// `1 - x_k` and an upper copy scaled by `x_k`.
pub proof fn lemma_eq_eval_double(xs: Seq<int>, k: int, j: int)
    requires
        0 <= k < xs.len(),
        0 <= j < pow2(k as nat),
    ensures
        eq_eval(xs.take(k + 1), j) == f_mul(eq_eval(xs.take(k), j), f_sub(1, xs[k])),
        eq_eval(xs.take(k + 1), j + pow2(k as nat)) == f_mul(eq_eval(xs.take(k), j), xs[k]),
{
    let h = pow2(k as nat) as int;
    lemma_pow2_pos(k as nat);
    let s = xs.take(k + 1);
    assert(s.drop_last() =~= xs.take(k));
    assert(s.last() == xs[k]);
    lemma_small_mod(j as nat, pow2(k as nat));
    lemma_basic_div_specific_divisor(h);
    lemma_mod_add_multiples_vanish(j, h);
    lemma_div_plus_one(j, h);
}

/// Computes `2^n` as a machine integer.
pub fn pow2_usize(n: usize) -> (r: usize)
    requires
        pow2(n as nat) <= usize::MAX,
    ensures
        r == pow2(n as nat),
{
    let mut r: usize = 1;
    let mut k: usize = 0;
    proof {
        lemma2_to64();
    }
    while k < n
        invariant
            k <= n,
            r == pow2(k as nat),
            pow2(n as nat) <= usize::MAX,
        decreases n - k,
    {
        proof {
            lemma_pow2_unfold((k + 1) as nat);
            if k + 1 < n {
                lemma_pow2_strictly_increases((k + 1) as nat, n as nat);
            }
        }
        r = r * 2;
        k = k + 1;
    }
    r
}

/// An indicator polynomial over a fixed coordinate vector.
pub struct EqPolynomial {
    x_vec: Vec<Scalar>,
}

impl View for EqPolynomial {
    type V = Seq<int>;

    closed spec fn view(&self) -> Seq<int> {
        seq_vals(self.x_vec@)
    }
}

impl EqPolynomial {
    /// All stored coordinates are canonical field values.
    pub open spec fn wf(&self) -> bool {
        all_in_field(self@)
    }

    /// Builds the indicator polynomial for the given coordinates; stores a copy.
    pub fn new(x_vec: &Vec<Scalar>) -> (r: Self)
        ensures
            r@ == seq_vals(x_vec@),
    {
        let mut copy: Vec<Scalar> = Vec::new();
        let mut i: usize = 0;
        while i < x_vec.len()
            invariant
                i <= x_vec@.len(),
                copy@.len() == i,
                forall|j: int| 0 <= j < i ==> #[trigger] copy@[j] == x_vec@[j],
            decreases x_vec@.len() - i,
        {
            copy.push(x_vec[i]);
            i = i + 1;
        }
        let r = EqPolynomial { x_vec: copy };
        proof {
            assert(r@ =~= seq_vals(x_vec@));
        }
        r
    }

    /// The indicator value at the single hypercube vertex `i`, computed in
    /// one pass over the coordinates from the little-endian bits of `i`.
    pub fn eval(&self, i: usize) -> (r: Scalar)
        requires
            self.wf(),
            (i as int) < pow2(self@.len() as nat),
        ensures
            r@ == eq_eval(self@, i as int),
            in_field(r@),
    {
        let n = self.x_vec.len();
        let mut acc = Scalar::one();
        let mut cur: usize = i;
        let mut j: usize = 0;
        proof {
            assert(self@.take(0) =~= Seq::<int>::empty());
            lemma2_to64();
            lemma_div_basics(i as int);
        }
        while j < n
            invariant
                j <= n,
                n == self@.len(),
                self.wf(),
                acc@ == eq_eval(self@.take(j as int), (i as int) % (pow2(j as nat) as int)),
                in_field(acc@),
                cur as int == (i as int) / (pow2(j as nat) as int),
            decreases n - j,
        {
            let b = cur % 2 == 1;
            let x = self.x_vec[j];
            proof {
                assert(x@ == self@[j as int]);
                assert(in_field(self@[j as int]));
            }
            let factor = if b {
                x
            } else {
                Scalar::one().sub(x)
            };
            proof {
                lemma_pow2_pos(j as nat);
                lemma_eq_eval_unfold(self@, j as int, i as int);
                lemma_pow2_unfold((j + 1) as nat);
                lemma_div_denominator(i as int, pow2(j as nat) as int, 2);
            }
            acc = acc.mul(factor);
            cur = cur / 2;
            j = j + 1;
        }
        proof {
            assert(self@.take(n as int) =~= self@);
            lemma_small_mod(i as nat, pow2(n as nat));
        }
        acc
    }

    /// The bilinear equality kernel between the stored coordinates and an
    /// arbitrary point of the same dimension:
    /// the field product over `j` of `(1 - x_j) * (1 - r_j) + x_j * r_j`.
    pub fn evaluate(&self, r_vec: &[Scalar]) -> (r: Scalar)
        requires
            self.wf(),
            all_in_field(seq_vals(r_vec@)),
            r_vec@.len() == self@.len(),
        ensures
            r@ == eq_points(self@, seq_vals(r_vec@)),
            in_field(r@),
    {
        let n = self.x_vec.len();
        let ghost ys = seq_vals(r_vec@);
        let mut acc = Scalar::one();
        let mut j: usize = 0;
        proof {
            assert(self@.take(0) =~= Seq::<int>::empty());
        }
        while j < n
            invariant
                j <= n,
                n == self@.len(),
                self.wf(),
                ys == seq_vals(r_vec@),
                ys.len() == n,
                all_in_field(ys),
                acc@ == eq_points(self@.take(j as int), ys.take(j as int)),
                in_field(acc@),
            decreases n - j,
        {
            let one = Scalar::one();
            let x = self.x_vec[j];
            let y = r_vec[j];
            proof {
                assert(x@ == self@[j as int]);
                assert(in_field(self@[j as int]));
                assert(y@ == ys[j as int]);
                assert(in_field(ys[j as int]));
            }
            let blend = (one.sub(x)).mul(one.sub(y)).add(x.mul(y));
            proof {
                assert(self@.take(j + 1).drop_last() =~= self@.take(j as int));
                assert(ys.take(j + 1).drop_last() =~= ys.take(j as int));
            }
            acc = acc.mul(blend);
            j = j + 1;
        }
        proof {
            assert(self@.take(n as int) =~= self@);
            assert(ys.take(n as int) =~= ys);
        }
        acc
    }

    /// All `2^n` indicator values in one linear pass: the table doubles once
    /// per coordinate, the upper copy scaled by `x_k` and the lower copy
    /// obtained by the multiplication-saving subtraction `e - e * x_k`.
    pub fn evals_over_hypercube(&self) -> (r: Vec<Scalar>)
        requires
            self.wf(),
            pow2(self@.len() as nat) <= usize::MAX,
        ensures
            r@.len() == pow2(self@.len() as nat),
            forall|i: int| 0 <= i < r@.len() ==> #[trigger] seq_vals(r@)[i] == eq_eval(self@, i),
            all_in_field(seq_vals(r@)),
    {
        let n = self.x_vec.len();
        let full = pow2_usize(n);
        let mut evals: Vec<Scalar> = Vec::new();
        while evals.len() < full
            invariant
                evals@.len() <= full,
                forall|m: int| 0 <= m < evals@.len() ==> #[trigger] evals@[m]@ == 1,
            decreases full - evals@.len(),
        {
            evals.push(Scalar::one());
        }
        let mut half: usize = 1;
        let mut k: usize = 0;
        proof {
            assert(self@.take(0) =~= Seq::<int>::empty());
            lemma2_to64();
            lemma_pow2_pos(n as nat);
        }
        while k < n
            invariant
                k <= n,
                n == self@.len(),
                self.wf(),
                half == pow2(k as nat),
                full == pow2(n as nat),
                evals@.len() == full,
                half <= full,
                forall|m: int|
                    0 <= m < half ==> #[trigger] evals@[m]@ == eq_eval(self@.take(k as int), m),
                forall|m: int| half <= m < full ==> #[trigger] evals@[m]@ == 1,
                forall|m: int| 0 <= m < full ==> in_field(#[trigger] evals@[m]@),
            decreases n - k,
        {
            proof {
                lemma_pow2_unfold((k + 1) as nat);
                if k + 1 < n {
                    lemma_pow2_strictly_increases((k + 1) as nat, n as nat);
                }
            }
            let x = self.x_vec[k];
            proof {
                assert(x@ == self@[k as int]);
                assert(in_field(self@[k as int]));
            }
            let mut j: usize = 0;
            while j < half
                invariant
                    j <= half,
                    k < n,
                    n == self@.len(),
                    self.wf(),
                    half == pow2(k as nat),
                    full == pow2(n as nat),
                    2 * half <= full,
                    evals@.len() == full,
                    x@ == self@[k as int],
                    in_field(x@),
                    forall|m: int|
                        0 <= m < j ==> #[trigger] evals@[m]@ == eq_eval(self@.take(k + 1), m),
                    forall|m: int|
                        half <= m < half + j ==> #[trigger] evals@[m]@ == eq_eval(
                            self@.take(k + 1),
                            m,
                        ),
                    forall|m: int|
                        j <= m < half ==> #[trigger] evals@[m]@ == eq_eval(
                            self@.take(k as int),
                            m,
                        ),
                    forall|m: int| half + j <= m < full ==> #[trigger] evals@[m]@ == 1,
                    forall|m: int| 0 <= m < full ==> in_field(#[trigger] evals@[m]@),
                decreases half - j,
            {
                let v = evals[j];
                let hi = v.mul(x);
                evals.set(j + half, hi);
                let lo = v.sub(hi);
                evals.set(j, lo);
                proof {
                    lemma_eq_eval_double(self@, k as int, j as int);
                    lemma_mul_sub_factor(v@, x@);
                }
                j = j + 1;
            }
            half = half * 2;
            k = k + 1;
        }
        proof {
            assert(self@.take(n as int) =~= self@);
            assert(forall|i: int|
                0 <= i < evals@.len() ==> #[trigger] seq_vals(evals@)[i] == evals@[i]@);
        }
        evals
    }

    /// The same table as `evals_over_hypercube`, computed the direct way: one
    /// per-vertex pass that decomposes every index into its bits and takes the
    /// product of the per-coordinate blend `(1 - x)(1 - b) + x * b`.
    pub fn evals_over_hypercube_slow(&self) -> (r: Vec<Scalar>)
        requires
            self.wf(),
            pow2(self@.len() as nat) <= usize::MAX,
        ensures
            r@.len() == pow2(self@.len() as nat),
            forall|i: int| 0 <= i < r@.len() ==> #[trigger] seq_vals(r@)[i] == eq_eval(self@, i),
            all_in_field(seq_vals(r@)),
    {
        let n = self.x_vec.len();
        let full = pow2_usize(n);
        let mut evals: Vec<Scalar> = Vec::new();
        let mut i: usize = 0;
        while i < full
            invariant
                i <= full,
                n == self@.len(),
                self.wf(),
                full == pow2(n as nat),
                evals@.len() == i,
                forall|m: int| 0 <= m < i ==> #[trigger] evals@[m]@ == eq_eval(self@, m),
                forall|m: int| 0 <= m < i ==> in_field(#[trigger] evals@[m]@),
            decreases full - i,
        {
            let mut acc = Scalar::one();
            let mut cur: usize = i;
            let mut j: usize = 0;
            proof {
                assert(self@.take(0) =~= Seq::<int>::empty());
                lemma2_to64();
                lemma_div_basics(i as int);
            }
            while j < n
                invariant
                    j <= n,
                    n == self@.len(),
                    self.wf(),
                    acc@ == eq_eval(self@.take(j as int), (i as int) % (pow2(j as nat) as int)),
                    in_field(acc@),
                    cur as int == (i as int) / (pow2(j as nat) as int),
                decreases n - j,
            {
                let b = cur % 2 == 1;
                let bit = if b {
                    Scalar::one()
                } else {
                    Scalar::zero()
                };
                let one = Scalar::one();
                let x = self.x_vec[j];
                proof {
                    assert(x@ == self@[j as int]);
                    assert(in_field(self@[j as int]));
                }
                let eq_j = (one.sub(x)).mul(one.sub(bit)).add(x.mul(bit));
                proof {
                    lemma_ops_in_field(1, x@);
                    if b {
                        lemma_small_mod(0, crate::scalar::FIELD_MODULUS as nat);
                        lemma_mul_zero(f_sub(1, x@));
                        lemma_mul_ident(x@);
                        lemma_add_ident(x@);
                    } else {
                        lemma_small_mod(1, crate::scalar::FIELD_MODULUS as nat);
                        lemma_mul_ident(f_sub(1, x@));
                        lemma_mul_zero(x@);
                        lemma_add_ident(f_sub(1, x@));
                    }
                    assert(eq_j@ == eq_factor(self@[j as int], b));
                    lemma_pow2_pos(j as nat);
                    lemma_eq_eval_unfold(self@, j as int, i as int);
                    lemma_pow2_unfold((j + 1) as nat);
                    lemma_div_denominator(i as int, pow2(j as nat) as int, 2);
                }
                acc = acc.mul(eq_j);
                cur = cur / 2;
                j = j + 1;
            }
            proof {
                assert(self@.take(n as int) =~= self@);
                lemma_small_mod(i as nat, pow2(n as nat));
            }
            evals.push(acc);
            i = i + 1;
        }
        proof {
            assert(forall|m: int|
                0 <= m < evals@.len() ==> #[trigger] seq_vals(evals@)[m] == evals@[m]@);
        }
        evals
    }
}

/// The bilinear blend of one coordinate pair: `(1 - x)(1 - y) + x * y`.
pub open spec fn eq_blend(x: int, y: int) -> int {
    f_add(f_mul(f_sub(1, x), f_sub(1, y)), f_mul(x, y))
}

/// The equality kernel between two arbitrary points of equal dimension: the
/// field product over `j` of `eq_blend(xs[j], ys[j])`.
pub open spec fn eq_points(xs: Seq<int>, ys: Seq<int>) -> int
    decreases xs.len(),
{
    if xs.len() == 0 {
        1
    } else {
        f_mul(eq_points(xs.drop_last(), ys.drop_last()), eq_blend(xs.last(), ys.last()))
    }
}

/// The table of indicator values is determined pointwise, so the fast doubling
/// construction and the direct per-vertex construction agree elementwise.
pub proof fn lemma_fast_slow_agree(xs: Seq<int>, fast: Seq<int>, slow: Seq<int>)
    requires
        fast.len() == pow2(xs.len()),
        slow.len() == pow2(xs.len()),
        forall|i: int| 0 <= i < fast.len() ==> #[trigger] fast[i] == eq_eval(xs, i),
        forall|i: int| 0 <= i < slow.len() ==> #[trigger] slow[i] == eq_eval(xs, i),
    ensures
        fast == slow,
{
    assert(fast =~= slow);
}

/// Single-point consistency: the hypercube table holds at slot `i` exactly the
/// single-vertex indicator value at `i`.
pub proof fn lemma_single_point_consistency(xs: Seq<int>, table: Seq<int>, i: int)
    requires
        table.len() == pow2(xs.len()),
        forall|j: int| 0 <= j < table.len() ==> #[trigger] table[j] == eq_eval(xs, j),
        0 <= i < table.len(),
    ensures
        table[i] == eq_eval(xs, i),
{
}

/// Partition of unity: the indicator values over all hypercube vertices sum
/// to one in the field.
pub proof fn lemma_partition_of_unity(xs: Seq<int>)
    requires
        all_in_field(xs),
    ensures
        f_sum(eq_table(xs)) == 1,
    decreases xs.len(),
{
    let t = eq_table(xs);
    if xs.len() == 0 {
        lemma2_to64();
        assert(t.len() == 1);
        assert(t.drop_last() =~= Seq::<int>::empty());
        assert(t.last() == 1);
        assert(f_sum(Seq::<int>::empty()) == 0);
        lemma_add_ident(1);
        assert(f_sum(t) == f_add(0, 1));
    } else {
        let ys = xs.drop_last();
        let x = xs.last();
        let m = pow2(ys.len()) as int;
        lemma_pow2_unfold(xs.len());
        lemma_pow2_pos(ys.len());
        lemma_partition_of_unity(ys);
        let lo = scale_seq(eq_table(ys), f_sub(1, x));
        let hi = scale_seq(eq_table(ys), x);
        assert(xs.take(xs.len() as int) =~= xs);
        assert(xs.take(xs.len() - 1) =~= ys);
        assert forall|i: int| 0 <= i < t.len() implies t[i] == (lo + hi)[i] by {
            if i < m {
                lemma_eq_eval_double(xs, xs.len() - 1, i);
            } else {
                lemma_eq_eval_double(xs, xs.len() - 1, i - m);
            }
        }
        assert(t =~= lo + hi);
        lemma_f_sum_concat(lo, hi);
        lemma_f_sum_scale(eq_table(ys), f_sub(1, x));
        lemma_f_sum_scale(eq_table(ys), x);
        lemma_ops_in_field(1, x);
        lemma_mul_ident(f_sub(1, x));
        lemma_mul_ident(x);
        lemma_one_minus_plus(x);
    }
}

} // verus!
