//! The field element type and its mathematical model: arithmetic in the prime
//! field of order `FIELD_MODULUS`, together with the ring lemmas and the
//! field-sum machinery that the polynomial proofs build on.

use vstd::arithmetic::div_mod::{
    lemma_add_mod_noop, lemma_add_mod_noop_right, lemma_mod_add_multiples_vanish,
    lemma_mod_bound, lemma_mul_mod_noop_left, lemma_mul_mod_noop_right, lemma_small_mod,
    lemma_sub_mod_noop_right,
};
use vstd::arithmetic::mul::{
    lemma_mul_is_associative, lemma_mul_is_commutative, lemma_mul_is_distributive_add,
    lemma_mul_is_distributive_sub, lemma_mul_upper_bound,
};
use vstd::prelude::*;

verus! {

/// Order of the field: the Mersenne prime `2^61 - 1`.
pub const FIELD_MODULUS: u64 = 0x1fff_ffff_ffff_ffff;

/// The field modulus as a mathematical integer.
pub open spec fn modulus() -> int {
    FIELD_MODULUS as int
}

/// A mathematical value is in canonical field form when it lies in `[0, modulus)`.
pub open spec fn in_field(a: int) -> bool {
    0 <= a < modulus()
}

/// Field addition on mathematical integers.
pub open spec fn f_add(a: int, b: int) -> int {
    (a + b) % modulus()
}

/// Field subtraction on mathematical integers.
pub open spec fn f_sub(a: int, b: int) -> int {
    (a - b) % modulus()
}

/// Field multiplication on mathematical integers.
pub open spec fn f_mul(a: int, b: int) -> int {
    (a * b) % modulus()
}

/// Field sum of a sequence of values, accumulated left to right.
pub open spec fn f_sum(s: Seq<int>) -> int
    decreases s.len(),
{
    if s.len() == 0 {
        0
    } else {
        f_add(f_sum(s.drop_last()), s.last())
    }
}

/// The sequence scaled elementwise by `c` in the field.
pub open spec fn scale_seq(s: Seq<int>, c: int) -> Seq<int> {
    Seq::new(s.len(), |i: int| f_mul(s[i], c))
}

/// Elementwise field sum of two sequences of equal length.
pub open spec fn add_seq(a: Seq<int>, b: Seq<int>) -> Seq<int> {
    Seq::new(a.len(), |i: int| f_add(a[i], b[i]))
}

/// An element of the prime field of order `FIELD_MODULUS`, kept in canonical
/// form. This is the scalar type all polynomial tables are made of.
#[derive(Clone, Copy, Debug, PartialEq, Eq, Structural)]
pub struct Scalar {
    v: u64,
}

impl View for Scalar {
    type V = int;

    closed spec fn view(&self) -> int {
        self.v as int
    }
}

/// The canonical mathematical values of a sequence of field elements.
pub open spec fn seq_vals(s: Seq<Scalar>) -> Seq<int> {
    Seq::new(s.len(), |i: int| s[i]@)
}

/// Every value of the sequence is in canonical field form.
pub open spec fn all_in_field(s: Seq<int>) -> bool {
    forall|i: int| 0 <= i < s.len() ==> in_field(#[trigger] s[i])
}

impl Scalar {
    /// The additive identity.
    pub fn zero() -> (r: Scalar)
        ensures
            r@ == 0,
            in_field(r@),
    {
        Scalar { v: 0 }
    }

    /// The multiplicative identity.
    pub fn one() -> (r: Scalar)
        ensures
            r@ == 1,
            in_field(r@),
    {
        Scalar { v: 1 }
    }

    /// The field element of a machine integer, reduced mod the field order.
    pub fn from_u64(x: u64) -> (r: Scalar)
        ensures
            r@ == (x as int) % modulus(),
            in_field(r@),
    {
        proof {
            lemma_mod_bound(x as int, modulus());
        }
        Scalar { v: x % FIELD_MODULUS }
    }

    /// Field addition.
    pub fn add(self, other: Scalar) -> (r: Scalar)
        requires
            in_field(self@),
            in_field(other@),
        ensures
            r@ == f_add(self@, other@),
            in_field(r@),
    {
        let s: u64 = self.v + other.v;
        if s >= FIELD_MODULUS {
            proof {
                lemma_mod_add_multiples_vanish(s - FIELD_MODULUS, modulus());
                lemma_small_mod((s - FIELD_MODULUS) as nat, FIELD_MODULUS as nat);
            }
            Scalar { v: s - FIELD_MODULUS }
        } else {
            proof {
                lemma_small_mod(s as nat, FIELD_MODULUS as nat);
            }
            Scalar { v: s }
        }
    }

    /// Field subtraction.
    pub fn sub(self, other: Scalar) -> (r: Scalar)
        requires
            in_field(self@),
            in_field(other@),
        ensures
            r@ == f_sub(self@, other@),
            in_field(r@),
    {
        if self.v >= other.v {
            proof {
                lemma_small_mod((self.v - other.v) as nat, FIELD_MODULUS as nat);
            }
            Scalar { v: self.v - other.v }
        } else {
            proof {
                lemma_mod_add_multiples_vanish(self@ - other@, modulus());
                lemma_small_mod((self.v + FIELD_MODULUS - other.v) as nat, FIELD_MODULUS as nat);
            }
            Scalar { v: self.v + FIELD_MODULUS - other.v }
        }
    }

    /// Field multiplication.
    pub fn mul(self, other: Scalar) -> (r: Scalar)
        requires
            in_field(self@),
            in_field(other@),
        ensures
            r@ == f_mul(self@, other@),
            in_field(r@),
    {
        proof {
            lemma_mul_upper_bound(self@, modulus() - 1, other@, modulus() - 1);
            assert((modulus() - 1) * (modulus() - 1) == 5316911983139663482391856204266602500int)
                by (nonlinear_arith);
            lemma_mod_bound(self@ * other@, modulus());
        }
        let p: u128 = (self.v as u128) * (other.v as u128);
        let r: u128 = p % (FIELD_MODULUS as u128);
        Scalar { v: r as u64 }
    }

    /// The field elements of a vector of machine integers, each reduced mod
    /// the field order.
    pub fn from_usize_vector(vs: &[usize]) -> (r: Vec<Scalar>)
        ensures
            r@.len() == vs@.len(),
            forall|i: int|
                0 <= i < vs@.len() ==> seq_vals(r@)[i] == (vs@[i] as int) % modulus(),
            all_in_field(seq_vals(r@)),
    {
        let mut r: Vec<Scalar> = Vec::new();
        let mut i: usize = 0;
        while i < vs.len()
            invariant
                i <= vs@.len(),
                r@.len() == i,
                forall|j: int|
                    0 <= j < i ==> #[trigger] r@[j]@ == (vs@[j] as int) % modulus(),
                forall|j: int| 0 <= j < i ==> in_field(#[trigger] r@[j]@),
            decreases vs@.len() - i,
        {
            r.push(Scalar::from_u64(vs[i] as u64));
            i = i + 1;
        }
        assert(forall|j: int| 0 <= j < r@.len() ==> #[trigger] seq_vals(r@)[j] == r@[j]@);
        r
    }
}

/// Field addition and multiplication return canonical values.
pub proof fn lemma_ops_in_field(a: int, b: int)
    ensures
        in_field(f_add(a, b)),
        in_field(f_sub(a, b)),
        in_field(f_mul(a, b)),
{
    lemma_mod_bound(a + b, modulus());
    lemma_mod_bound(a - b, modulus());
    lemma_mod_bound(a * b, modulus());
}

/// Zero is the additive identity on canonical values.
pub proof fn lemma_add_ident(a: int)
    requires
        in_field(a),
    ensures
        f_add(a, 0) == a,
        f_add(0, a) == a,
{
    lemma_small_mod(a as nat, FIELD_MODULUS as nat);
}

/// One is the multiplicative identity on canonical values.
pub proof fn lemma_mul_ident(a: int)
    requires
        in_field(a),
    ensures
        f_mul(a, 1) == a,
        f_mul(1, a) == a,
{
    lemma_small_mod(a as nat, FIELD_MODULUS as nat);
}

/// Multiplication by zero gives zero.
pub proof fn lemma_mul_zero(a: int)
    ensures
        f_mul(a, 0) == 0,
        f_mul(0, a) == 0,
{
    lemma_small_mod(0, FIELD_MODULUS as nat);
}

/// Field addition is associative.
pub proof fn lemma_add_assoc(a: int, b: int, c: int)
    ensures
        f_add(f_add(a, b), c) == f_add(a, f_add(b, c)),
{
    lemma_add_mod_noop_right(c, a + b, modulus());
    lemma_add_mod_noop_right(a, b + c, modulus());
}

/// Field multiplication is associative.
pub proof fn lemma_mul_assoc(a: int, b: int, c: int)
    ensures
        f_mul(f_mul(a, b), c) == f_mul(a, f_mul(b, c)),
{
    lemma_mul_mod_noop_left(a * b, c, modulus());
    lemma_mul_mod_noop_right(a, b * c, modulus());
    lemma_mul_is_associative(a, b, c);
}

/// Field multiplication is commutative.
pub proof fn lemma_mul_comm(a: int, b: int)
    ensures
        f_mul(a, b) == f_mul(b, a),
{
    lemma_mul_is_commutative(a, b);
}

/// Field multiplication distributes over field addition.
pub proof fn lemma_mul_distrib(a: int, b: int, c: int)
    ensures
        f_mul(a, f_add(b, c)) == f_add(f_mul(a, b), f_mul(a, c)),
{
    lemma_mul_mod_noop_right(a, b + c, modulus());
    lemma_mul_is_distributive_add(a, b, c);
    lemma_add_mod_noop(a * b, a * c, modulus());
}

/// Subtracting and adding back the same value is the identity on canonical values.
pub proof fn lemma_sub_then_add(a: int, b: int)
    requires
        in_field(a),
    ensures
        f_add(f_sub(a, b), b) == a,
{
    lemma_add_mod_noop_right(b, a - b, modulus());
    lemma_small_mod(a as nat, FIELD_MODULUS as nat);
}

/// The two indicator factors of one coordinate sum to one: `(1 - x) + x == 1`.
pub proof fn lemma_one_minus_plus(x: int)
    ensures
        f_add(f_sub(1, x), x) == 1,
{
    lemma_add_mod_noop_right(x, 1 - x, modulus());
    lemma_small_mod(1, FIELD_MODULUS as nat);
}

/// The multiplication-saving step of the doubling construction:
/// `v - v * x == v * (1 - x)` in the field.
pub proof fn lemma_mul_sub_factor(v: int, x: int)
    ensures
        f_sub(v, f_mul(v, x)) == f_mul(v, f_sub(1, x)),
{
    lemma_sub_mod_noop_right(v, v * x, modulus());
    lemma_mul_mod_noop_right(v, 1 - x, modulus());
    lemma_mul_is_distributive_sub(v, 1, x);
}

/// A field sum is a canonical value.
pub proof fn lemma_f_sum_in_field(s: Seq<int>)
    ensures
        in_field(f_sum(s)),
    decreases s.len(),
{
    if s.len() == 0 {
    } else {
        lemma_f_sum_in_field(s.drop_last());
        lemma_ops_in_field(f_sum(s.drop_last()), s.last());
    }
}

/// A field sum splits over concatenation.
pub proof fn lemma_f_sum_concat(a: Seq<int>, b: Seq<int>)
    ensures
        f_sum(a + b) == f_add(f_sum(a), f_sum(b)),
    decreases b.len(),
{
    if b.len() == 0 {
        assert(a + b =~= a);
        lemma_f_sum_in_field(a);
        lemma_add_ident(f_sum(a));
    } else {
        assert((a + b).drop_last() =~= a + b.drop_last());
        assert((a + b).last() == b.last());
        lemma_f_sum_concat(a, b.drop_last());
        lemma_add_assoc(f_sum(a), f_sum(b.drop_last()), b.last());
    }
}

/// A field sum splits over an elementwise field sum of two sequences.
pub proof fn lemma_f_sum_pointwise_add(a: Seq<int>, b: Seq<int>)
    requires
        a.len() == b.len(),
    ensures
        f_sum(add_seq(a, b)) == f_add(f_sum(a), f_sum(b)),
    decreases a.len(),
{
    if a.len() == 0 {
        lemma_add_ident(0);
    } else {
        let a1 = a.drop_last();
        let b1 = b.drop_last();
        assert(add_seq(a, b).drop_last() =~= add_seq(a1, b1));
        lemma_f_sum_pointwise_add(a1, b1);
        let sa = f_sum(a1);
        let sb = f_sum(b1);
        let la = a.last();
        let lb = b.last();
        // f_add(f_add(sa, la), f_add(sb, lb)) == f_add(f_add(sa, sb), f_add(la, lb))
        lemma_add_assoc(sa, la, f_add(sb, lb));
        lemma_add_assoc(la, sb, lb);
        lemma_add_assoc(sb, la, lb);
        lemma_add_assoc(sa, sb, f_add(la, lb));
    }
}

/// A field sum commutes with scaling by a constant.
pub proof fn lemma_f_sum_scale(s: Seq<int>, c: int)
    ensures
        f_sum(scale_seq(s, c)) == f_mul(f_sum(s), c),
    decreases s.len(),
{
    if s.len() == 0 {
        lemma_mul_zero(c);
    } else {
        assert(scale_seq(s, c).drop_last() =~= scale_seq(s.drop_last(), c));
        lemma_f_sum_scale(s.drop_last(), c);
        let sp = f_sum(s.drop_last());
        let l = s.last();
        lemma_mul_comm(sp, c);
        lemma_mul_comm(l, c);
        lemma_mul_distrib(c, sp, l);
        lemma_mul_comm(c, f_add(sp, l));
    }
}

} // verus!
