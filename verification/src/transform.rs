//! Conversion between the evaluation-table and monomial-coefficient
//! representations of a multilinear polynomial. Slot `i` of a coefficient
//! table (little-endian bits `b_0..b_{n-1}`) holds the coefficient of the
//! monomial that is the product of the variables whose bit is set. The two
//! transforms are exact inverses: `n` passes of block-wise differencing one
//! way, the symmetric accumulation passes in reverse offset order the other.

use crate::eq::pow2_usize;
use crate::scalar::{
    all_in_field, f_add, f_sub, in_field, lemma_ops_in_field, lemma_sub_then_add, seq_vals, Scalar,
};
use vstd::arithmetic::div_mod::{lemma_basic_div_specific_divisor, lemma_div_minus_one};
use vstd::arithmetic::power2::{is_pow2, lemma_pow2_strictly_increases, lemma_pow2_unfold, pow2};
use vstd::prelude::*;

verus! {

/// One differencing pass at offset `h`: every slot whose `h` digit is odd has
/// the value of the slot `h` below it subtracted from it.
pub open spec fn diff_pass(s: Seq<int>, h: int) -> Seq<int> {
    Seq::new(
        s.len(),
        |m: int|
            if (m / h) % 2 == 1 {
                f_sub(s[m], s[m - h])
            } else {
                s[m]
            },
    )
}

/// One accumulation pass at offset `h`: every slot whose `h` digit is odd has
/// the value of the slot `h` below it added to it.
pub open spec fn sum_pass(s: Seq<int>, h: int) -> Seq<int> {
    Seq::new(
        s.len(),
        |m: int|
            if (m / h) % 2 == 1 {
                f_add(s[m], s[m - h])
            } else {
                s[m]
            },
    )
}

/// The full evaluation-to-coefficient transform: differencing passes at
/// offsets `h, h/2, ..., 1`, largest offset first.
pub open spec fn coeffs_of_evals(s: Seq<int>, h: int) -> Seq<int>
    decreases h,
{
    if h < 1 {
        s
    } else {
        coeffs_of_evals(diff_pass(s, h), h / 2)
    }
}

/// The full coefficient-to-evaluation transform: accumulation passes at
/// offsets `1, 2, ..., h`, smallest offset first.
pub open spec fn evals_of_coeffs(s: Seq<int>, h: int) -> Seq<int>
    decreases h,
{
    if h < 1 {
        s
    } else {
        sum_pass(evals_of_coeffs(s, h / 2), h)
    }
}

/// The sequence padded with zeros up to length `n`.
pub open spec fn zero_pad(s: Seq<int>, n: nat) -> Seq<int> {
    s + Seq::new((n - s.len()) as nat, |i: int| 0)
}

/// A differencing pass keeps every value canonical.
pub proof fn lemma_diff_pass_in_field(s: Seq<int>, h: int)
    requires
        all_in_field(s),
        h >= 1,
    ensures
        all_in_field(diff_pass(s, h)),
{
    assert forall|m: int| 0 <= m < s.len() implies in_field(#[trigger] diff_pass(s, h)[m]) by {
        if (m / h) % 2 == 1 {
            lemma_basic_div_specific_divisor(h);
            lemma_ops_in_field(s[m], s[m - h]);
        }
    }
}

/// One accumulation pass undoes one differencing pass at the same offset.
pub proof fn lemma_pass_inverse(s: Seq<int>, h: int)
    requires
        all_in_field(s),
        h >= 1,
    ensures
        sum_pass(diff_pass(s, h), h) == s,
{
    let d = diff_pass(s, h);
    assert forall|m: int| 0 <= m < s.len() implies sum_pass(d, h)[m] == s[m] by {
        if (m / h) % 2 == 1 {
            lemma_basic_div_specific_divisor(h);
            assert(m >= h);
            lemma_div_minus_one(m, h);
            assert(d[m - h] == s[m - h]);
            lemma_sub_then_add(s[m], s[m - h]);
        }
    }
    assert(sum_pass(d, h) =~= s);
}

/// The transforms keep the table's length.
pub proof fn lemma_coeffs_of_evals_len(s: Seq<int>, h: int)
    ensures
        coeffs_of_evals(s, h).len() == s.len(),
    decreases h,
{
    if h >= 1 {
        lemma_coeffs_of_evals_len(diff_pass(s, h), h / 2);
    }
}

/// Transform round trip: differencing down from offset `h` and accumulating
/// back up to offset `h` returns every canonical table to itself exactly.
pub proof fn lemma_transform_round_trip(s: Seq<int>, h: int)
    requires
        all_in_field(s),
    ensures
        evals_of_coeffs(coeffs_of_evals(s, h), h) == s,
    decreases h,
{
    if h >= 1 {
        let d = diff_pass(s, h);
        lemma_diff_pass_in_field(s, h);
        lemma_transform_round_trip(d, h / 2);
        lemma_pass_inverse(s, h);
    }
}

/// Degree-zero case: on a single-slot table both transforms run no pass at
/// all and are the identity.
pub proof fn lemma_transform_degree_zero(s: Seq<int>)
    ensures
        coeffs_of_evals(s, 0) == s,
        evals_of_coeffs(s, 0) == s,
{
}

/// Transform round trip at the interface: a table of length `2^n`, turned
/// into coefficients and back (padding included), is returned exactly.
pub proof fn lemma_transform_round_trip_table(t: Seq<int>, n: nat)
    requires
        all_in_field(t),
        t.len() == pow2(n),
    ensures
        evals_of_coeffs(
            zero_pad(coeffs_of_evals(t, t.len() as int / 2), pow2(n)),
            pow2(n) as int / 2,
        ) == t,
{
    let c = coeffs_of_evals(t, t.len() as int / 2);
    lemma_coeffs_of_evals_len(t, t.len() as int / 2);
    assert(zero_pad(c, pow2(n)) =~= c);
    lemma_transform_round_trip(t, t.len() as int / 2);
}

/// Turns an evaluation table of power-of-two length into the coefficient
/// table of the same multilinear polynomial, by block-wise differencing
/// passes of halving offset.
pub fn compute_coeffs_from_evals(evals: &Vec<Scalar>) -> (r: Vec<Scalar>)
    requires
        is_pow2(evals@.len() as int),
        all_in_field(seq_vals(evals@)),
    ensures
        r@.len() == evals@.len(),
        seq_vals(r@) == coeffs_of_evals(seq_vals(evals@), evals@.len() as int / 2),
        all_in_field(seq_vals(r@)),
{
    let len = evals.len();
    let ghost orig = seq_vals(evals@);
    let mut coeffs: Vec<Scalar> = Vec::new();
    let mut i: usize = 0;
    while i < len
        invariant
            i <= len,
            len == evals@.len(),
            orig == seq_vals(evals@),
            all_in_field(orig),
            coeffs@.len() == i,
            forall|j: int| 0 <= j < i ==> #[trigger] coeffs@[j] == evals@[j],
        decreases len - i,
    {
        coeffs.push(evals[i]);
        i = i + 1;
    }
    proof {
        assert(seq_vals(coeffs@) =~= orig);
    }
    let mut h: usize = len / 2;
    while h >= 1
        invariant
            len == evals@.len(),
            orig == seq_vals(evals@),
            coeffs@.len() == len,
            all_in_field(seq_vals(coeffs@)),
            coeffs_of_evals(orig, len as int / 2) == coeffs_of_evals(
                seq_vals(coeffs@),
                h as int,
            ),
        decreases h,
    {
        let ghost pre = seq_vals(coeffs@);
        proof {
            assert forall|t: int| 0 <= t < len implies in_field(#[trigger] coeffs@[t]@) by {
                assert(seq_vals(coeffs@)[t] == coeffs@[t]@);
            }
        }
        let mut m: usize = 0;
        while m < len
            invariant
                m <= len,
                h >= 1,
                coeffs@.len() == len,
                pre.len() == len,
                all_in_field(pre),
                forall|t: int| 0 <= t < m ==> #[trigger] coeffs@[t]@ == diff_pass(pre, h as int)[t],
                forall|t: int| m <= t < len ==> #[trigger] coeffs@[t]@ == pre[t],
                forall|t: int| 0 <= t < len ==> in_field(#[trigger] coeffs@[t]@),
            decreases len - m,
        {
            if (m / h) % 2 == 1 {
                proof {
                    lemma_basic_div_specific_divisor(h as int);
                    assert(m >= h);
                    lemma_div_minus_one(m as int, h as int);
                }
                let a = coeffs[m - h];
                let v = coeffs[m].sub(a);
                coeffs.set(m, v);
            }
            m = m + 1;
        }
        proof {
            assert forall|t: int| 0 <= t < len implies #[trigger] seq_vals(coeffs@)[t]
                == diff_pass(pre, h as int)[t] by {
                assert(seq_vals(coeffs@)[t] == coeffs@[t]@);
            }
            assert(seq_vals(coeffs@) =~= diff_pass(pre, h as int));
        }
        h = h / 2;
    }
    coeffs
}

/// Turns a coefficient table (zero-padded up to length `2^num_var`) into the
/// evaluation table of the same multilinear polynomial, by accumulation
/// passes of doubling offset.
pub fn compute_evals_from_coeffs(num_var: usize, coeffs: &[Scalar]) -> (r: Vec<Scalar>)
    requires
        coeffs@.len() <= pow2(num_var as nat),
        pow2(num_var as nat) <= usize::MAX,
        all_in_field(seq_vals(coeffs@)),
    ensures
        r@.len() == pow2(num_var as nat),
        seq_vals(r@) == evals_of_coeffs(
            zero_pad(seq_vals(coeffs@), pow2(num_var as nat)),
            pow2(num_var as nat) as int / 2,
        ),
        all_in_field(seq_vals(r@)),
{
    let len = pow2_usize(num_var);
    let ghost padded = zero_pad(seq_vals(coeffs@), pow2(num_var as nat));
    let mut evals: Vec<Scalar> = Vec::new();
    let mut i: usize = 0;
    while i < coeffs.len()
        invariant
            i <= coeffs@.len(),
            coeffs@.len() <= len,
            len == pow2(num_var as nat),
            padded == zero_pad(seq_vals(coeffs@), pow2(num_var as nat)),
            all_in_field(seq_vals(coeffs@)),
            evals@.len() == i,
            forall|j: int| 0 <= j < i ==> #[trigger] evals@[j] == coeffs@[j],
        decreases coeffs@.len() - i,
    {
        evals.push(coeffs[i]);
        i = i + 1;
    }
    while evals.len() < len
        invariant
            coeffs@.len() <= evals@.len() <= len,
            len == pow2(num_var as nat),
            padded == zero_pad(seq_vals(coeffs@), pow2(num_var as nat)),
            all_in_field(seq_vals(coeffs@)),
            forall|j: int| 0 <= j < coeffs@.len() ==> #[trigger] evals@[j] == coeffs@[j],
            forall|j: int| coeffs@.len() <= j < evals@.len() ==> #[trigger] evals@[j]@ == 0,
        decreases len - evals@.len(),
    {
        evals.push(Scalar::zero());
    }
    proof {
        assert forall|j: int| 0 <= j < len implies #[trigger] seq_vals(evals@)[j] == padded[j] by {
            assert(seq_vals(evals@)[j] == evals@[j]@);
            if j < coeffs@.len() {
                assert(seq_vals(coeffs@)[j] == coeffs@[j]@);
            }
        }
        assert(seq_vals(evals@) =~= padded);
        assert forall|j: int| 0 <= j < len implies in_field(#[trigger] seq_vals(evals@)[j]) by {
            assert(seq_vals(evals@)[j] == evals@[j]@);
            if j < coeffs@.len() {
                assert(seq_vals(coeffs@)[j] == coeffs@[j]@);
            }
        }
    }
    let mut h: usize = 1;
    let ghost mut e: nat = 0;
    proof {
        vstd::arithmetic::power2::lemma2_to64();
        vstd::arithmetic::power2::lemma_pow2_pos(num_var as nat);
    }
    while h < len
        invariant
            1 <= h <= len,
            h == pow2(e),
            e <= num_var,
            len == pow2(num_var as nat),
            evals@.len() == len,
            all_in_field(seq_vals(evals@)),
            seq_vals(evals@) == evals_of_coeffs(padded, h as int / 2),
        decreases len - h,
    {
        let ghost pre = seq_vals(evals@);
        proof {
            assert forall|t: int| 0 <= t < len implies in_field(#[trigger] evals@[t]@) by {
                assert(seq_vals(evals@)[t] == evals@[t]@);
            }
        }
        let mut m: usize = 0;
        while m < len
            invariant
                m <= len,
                h >= 1,
                evals@.len() == len,
                pre.len() == len,
                all_in_field(pre),
                forall|t: int| 0 <= t < m ==> #[trigger] evals@[t]@ == sum_pass(pre, h as int)[t],
                forall|t: int| m <= t < len ==> #[trigger] evals@[t]@ == pre[t],
                forall|t: int| 0 <= t < len ==> in_field(#[trigger] evals@[t]@),
            decreases len - m,
        {
            if (m / h) % 2 == 1 {
                proof {
                    lemma_basic_div_specific_divisor(h as int);
                    assert(m >= h);
                    lemma_div_minus_one(m as int, h as int);
                }
                let a = evals[m - h];
                let v = evals[m].add(a);
                evals.set(m, v);
            }
            m = m + 1;
        }
        proof {
            assert forall|t: int| 0 <= t < len implies #[trigger] seq_vals(evals@)[t]
                == sum_pass(pre, h as int)[t] by {
                assert(seq_vals(evals@)[t] == evals@[t]@);
            }
            assert(seq_vals(evals@) =~= sum_pass(pre, h as int));
            if e >= num_var {
                if e > num_var {
                    lemma_pow2_strictly_increases(num_var as nat, e);
                }
                assert(false);
            }
            lemma_pow2_unfold((e + 1) as nat);
            if e + 1 < num_var {
                lemma_pow2_strictly_increases((e + 1) as nat, num_var as nat);
            }
            e = e + 1;
        }
        h = h * 2;
    }
    evals
}

} // verus!
