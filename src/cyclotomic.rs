use vstd::arithmetic::power2::{lemma2_to64, lemma_pow2_unfold, pow2};
use vstd::prelude::*;

use crate::bits::{le_bits, le_value, lemma_le_value_strip, lemma_words_value_le, word_bits_le, words_value};
use crate::field::{lemma_mul_swap4, lemma_one_mul, lemma_pow_add, lemma_pow_double, lemma_pow_wf, pow_spec, Field};

verus! {

/// The integer that signed digits denote, least significant digit first.
pub open spec fn signed_value(d: Seq<i8>) -> int
    decreases d.len(),
{
    if d.len() == 0 {
        0
    } else {
        d[0] + 2 * signed_value(d.skip(1))
    }
}

/// Digits in `{-1, 0, 1}` with no two adjacent nonzero digits.
pub open spec fn is_naf(d: Seq<i8>) -> bool {
    &&& forall|k: int| 0 <= k < d.len() ==> -1 <= #[trigger] d[k] <= 1
    &&& forall|k: int| 0 <= k < d.len() - 1 && #[trigger] d[k] != 0 ==> d[k + 1] == 0
}

pub proof fn lemma_signed_value_push(d: Seq<i8>, x: i8)
    ensures
        signed_value(d.push(x)) == signed_value(d) + x * pow2(d.len()),
    decreases d.len(),
{
    let e = d.push(x);
    if d.len() == 0 {
        lemma2_to64();
        assert(e.skip(1) =~= Seq::<i8>::empty());
        assert(signed_value(e.skip(1)) == 0);
        assert(signed_value(e) == x);
        assert(signed_value(d) == 0);
    } else {
        lemma_signed_value_push(d.skip(1), x);
        assert(e.skip(1) =~= d.skip(1).push(x));
        lemma_pow2_unfold(d.len());
        assert(e[0] == d[0]);
        assert(2 * (x * pow2((d.len() - 1) as nat)) == x * pow2(d.len())) by (nonlinear_arith)
            requires
                pow2(d.len()) == 2 * pow2((d.len() - 1) as nat),
        ;
        assert(signed_value(e) == e[0] + 2 * signed_value(e.skip(1)));
        assert(signed_value(d) == d[0] + 2 * signed_value(d.skip(1)));
    }
}

/// The non-adjacent form of the number that the words of `e` denote, least
/// significant digit first.
pub fn find_naf(e: &[u64]) -> (r: Vec<i8>)
    requires
        64 * e@.len() + 1 <= usize::MAX,
    ensures
        r@.len() == 64 * e@.len() + 1,
        is_naf(r@),
        signed_value(r@) == words_value(e@),
{
    let ghost b = le_bits(e@);
    let n = e.len() * 64;
    let mut r: Vec<i8> = Vec::new();
    let mut carry: u8 = 0;
    let mut i: usize = 0;
    while i <= n
        invariant
            n == 64 * e@.len(),
            n + 1 <= usize::MAX,
            b == le_bits(e@),
            i <= n + 1,
            r@.len() == i,
            carry <= 1,
            i == n + 1 ==> carry == 0,
            is_naf(r@),
            i > 0 && i <= n && r@[i - 1] != 0 ==> (if i < n && b[i as int] {
                1int
            } else {
                0int
            }) + carry != 1,
            signed_value(r@) + carry * pow2(i as nat) == le_value(b.take(
                if i <= n {
                    i as int
                } else {
                    n as int
                },
            )),
        decreases n + 1 - i,
    {
        let bit: u8 = if i < n && word_bits_le(e, i) {
            1
        } else {
            0
        };
        let next: u8 = if i + 1 < n && word_bits_le(e, i + 1) {
            1
        } else {
            0
        };
        let t = bit + carry;
        let ghost old_r = r@;
        let ghost old_carry = carry;
        let digit: i8;
        if t == 1 {
            if next == 1 {
                digit = -1;
                carry = 1;
            } else {
                digit = 1;
                carry = 0;
            }
        } else if t == 2 {
            digit = 0;
            carry = 1;
        } else {
            digit = 0;
            carry = 0;
        }
        r.push(digit);
        proof {
            lemma_signed_value_push(old_r, digit);
            lemma_pow2_unfold((i + 1) as nat);
            if i < n {
                assert(b.take(i + 1).drop_last() =~= b.take(i as int));
                assert(bit == 1 <==> b[i as int]);
            } else {
                assert(bit == 0);
            }
            if i + 1 < n {
                assert(next == 1 <==> b[i + 1]);
            }
            if i > 0 && old_r[i - 1] != 0 {
                assert(t != 1);
                assert(digit == 0);
            }
            assert forall|k: int| 0 <= k < r@.len() - 1 && #[trigger] r@[k] != 0 implies r@[k
                + 1] == 0 by {
                if k == i - 1 {
                    assert(old_r[k] != 0);
                }
            }
            let p = pow2(i as nat);
            assert(digit * p + carry * (2 * p) == t * p) by (nonlinear_arith)
                requires
                    t == 1 && next == 1 ==> digit == -1 && carry == 1,
                    t == 1 && next != 1 ==> digit == 1 && carry == 0,
                    t == 2 ==> digit == 0 && carry == 1,
                    t == 0 ==> digit == 0 && carry == 0,
                    t <= 2,
            ;
        }
        i = i + 1;
    }
    proof {
        assert(b.take(n as int) =~= b);
        lemma_words_value_le(e@);
    }
    r
}

/// A field with a multiplicative subgroup in which squaring and inversion may be cheap.
/// The operations of this trait are meant for elements of that subgroup.
pub trait CyclotomicMultSubgroup: Field {
    spec fn inverse_is_fast_spec() -> bool;

    /// Whether inversion is cheap, which makes exponentiation by non-adjacent form pay.
    fn inverse_is_fast() -> (r: bool)
        ensures
            r == Self::inverse_is_fast_spec(),
    ;

    /// Membership in the cyclotomic subgroup, on which the operations below are meant.
    spec fn in_cyclotomic_subgroup(self) -> bool;

    proof fn lemma_subgroup_one()
        ensures
            Self::one_spec().in_cyclotomic_subgroup(),
    ;

    proof fn lemma_subgroup_mul(a: Self, b: Self)
        requires
            a.wf(),
            b.wf(),
            a.in_cyclotomic_subgroup(),
            b.in_cyclotomic_subgroup(),
        ensures
            Self::mul_spec(a, b).in_cyclotomic_subgroup(),
    ;

    proof fn lemma_subgroup_inverse(a: Self, y: Self)
        requires
            a.wf(),
            y.wf(),
            a.in_cyclotomic_subgroup(),
            Self::mul_spec(a, y) == Self::one_spec(),
        ensures
            y.in_cyclotomic_subgroup(),
    ;

    /// The square of a subgroup element; an override may use the subgroup's structure.
    fn cyclotomic_square(&self) -> (r: Self)
        requires
            self.wf(),
            self.in_cyclotomic_subgroup(),
        ensures
            r == Self::mul_spec(*self, *self),
    {
        self.square()
    }

    /// The inverse of a subgroup element; an override may use the subgroup's structure.
    fn cyclotomic_inverse(&self) -> (r: Option<Self>)
        requires
            self.wf(),
            self.in_cyclotomic_subgroup(),
        ensures
            r is None <==> *self == Self::zero_spec(),
            r matches Some(y) ==> y.wf() && y.in_cyclotomic_subgroup() && Self::mul_spec(*self, y)
                == Self::one_spec(),
    {
        let r = self.inverse();
        proof {
            if r is Some {
                Self::lemma_subgroup_inverse(*self, r->0);
            }
        }
        r
    }
}

/// `xi^n * x^n == 1` when `x * xi == 1`.
proof fn lemma_pow_inverse<F: Field>(x: F, xi: F, n: nat)
    requires
        x.wf(),
        xi.wf(),
        F::mul_spec(x, xi) == F::one_spec(),
    ensures
        F::mul_spec(pow_spec(xi, n), pow_spec(x, n)) == F::one_spec(),
    decreases n,
{
    F::lemma_constants();
    if n == 0 {
        F::lemma_mul_one(F::one_spec());
    } else {
        let m = (n - 1) as nat;
        lemma_pow_inverse(x, xi, m);
        lemma_mul_swap4(pow_spec(xi, m), xi, pow_spec(x, m), x);
        F::lemma_mul_comm(xi, x);
        F::lemma_mul_one(F::one_spec());
    }
}

/// `x^n` for an integer `n`, with `xi` standing for `x^(-1)`.
pub open spec fn zpow<F: Field>(x: F, xi: F, n: int) -> F {
    if n >= 0 {
        pow_spec(x, n as nat)
    } else {
        pow_spec(xi, (-n) as nat)
    }
}

proof fn lemma_zpow_double<F: Field>(x: F, xi: F, n: int)
    requires
        x.wf(),
        xi.wf(),
    ensures
        F::mul_spec(zpow(x, xi, n), zpow(x, xi, n)) == zpow(x, xi, 2 * n),
{
    if n >= 0 {
        lemma_pow_double(x, n as nat);
    } else {
        lemma_pow_double(xi, (-n) as nat);
    }
}

proof fn lemma_zpow_succ<F: Field>(x: F, xi: F, m: int)
    requires
        x.wf(),
        xi.wf(),
        m < 0 ==> F::mul_spec(x, xi) == F::one_spec(),
    ensures
        F::mul_spec(zpow(x, xi, m), x) == zpow(x, xi, m + 1),
{
    if m < 0 {
        let k = (-m - 1) as nat;
        lemma_pow_wf(xi, k);
        F::lemma_mul_assoc(pow_spec(xi, k), xi, x);
        F::lemma_mul_comm(xi, x);
        F::lemma_mul_one(pow_spec(xi, k));
        assert((-(m + 1)) as nat == k);
        if m + 1 == 0 {
            assert(pow_spec(xi, 0) == pow_spec(x, 0));
        }
    }
}

proof fn lemma_zpow_pred<F: Field>(x: F, xi: F, m: int)
    requires
        x.wf(),
        xi.wf(),
        F::mul_spec(x, xi) == F::one_spec(),
    ensures
        F::mul_spec(zpow(x, xi, m), xi) == zpow(x, xi, m - 1),
{
    if m > 0 {
        let k = (m - 1) as nat;
        lemma_pow_wf(x, k);
        F::lemma_mul_assoc(pow_spec(x, k), x, xi);
        F::lemma_mul_one(pow_spec(x, k));
        assert(pow_spec(x, m as nat) == F::mul_spec(pow_spec(x, k), x));
    } else {
        let k = (-m) as nat;
        assert((-(m - 1)) as nat == k + 1);
        assert(pow_spec(xi, k + 1) == F::mul_spec(pow_spec(xi, k), xi));
        if m == 0 {
            assert(pow_spec(x, 0) == pow_spec(xi, 0));
        }
    }
}

proof fn lemma_signed_value_nonneg(d: Seq<i8>)
    requires
        forall|k: int| 0 <= k < d.len() ==> #[trigger] d[k] >= 0,
    ensures
        signed_value(d) >= 0,
    decreases d.len(),
{
    if d.len() > 0 {
        lemma_signed_value_nonneg(d.skip(1));
    }
}

/// Square-and-multiply over signed digits, given least significant first and
/// consumed most significant first: a digit `-1` multiplies by the inverse.
fn exp_loop<F: CyclotomicMultSubgroup>(f: &mut F, e: &Vec<i8>)
    requires
        old(f).wf(),
        *old(f) != F::zero_spec(),
        old(f).in_cyclotomic_subgroup(),
        forall|k: int| 0 <= k < e@.len() ==> -1 <= #[trigger] e@[k] <= 1,
        !F::inverse_is_fast_spec() ==> forall|k: int| 0 <= k < e@.len() ==> #[trigger] e@[k] >= 0,
    ensures
        final(f).wf(),
        signed_value(e@) >= 0 ==> *final(f) == pow_spec(*old(f), signed_value(e@) as nat),
        signed_value(e@) < 0 ==> F::mul_spec(
            *final(f),
            pow_spec(*old(f), (-signed_value(e@)) as nat),
        ) == F::one_spec(),
{
    let ghost x = *f;
    let fast = F::inverse_is_fast();
    proof {
        F::lemma_constants();
        F::lemma_subgroup_one();
    }
    let self_inverse = if fast {
        f.cyclotomic_inverse().unwrap()
    } else {
        F::one()
    };
    let mut res = F::one();
    let mut found_nonzero = false;
    let mut i = e.len();
    proof {
        assert(e@.skip(i as int) =~= Seq::<i8>::empty());
        F::lemma_subgroup_one();
    }
    while i > 0
        invariant
            x == *f,
            x.wf(),
            x.in_cyclotomic_subgroup(),
            res.in_cyclotomic_subgroup(),
            self_inverse.in_cyclotomic_subgroup(),
            self_inverse.wf(),
            fast == F::inverse_is_fast_spec(),
            fast ==> F::mul_spec(x, self_inverse) == F::one_spec(),
            !fast ==> forall|k: int| 0 <= k < e@.len() ==> #[trigger] e@[k] >= 0,
            forall|k: int| 0 <= k < e@.len() ==> -1 <= #[trigger] e@[k] <= 1,
            i <= e@.len(),
            res.wf(),
            res == zpow(x, self_inverse, signed_value(e@.skip(i as int))),
            !found_nonzero ==> signed_value(e@.skip(i as int)) == 0,
        decreases i,
    {
        i = i - 1;
        let value = e[i];
        let ghost v = signed_value(e@.skip(i + 1));
        proof {
            assert(e@.skip(i as int).skip(1) =~= e@.skip(i + 1));
            assert(signed_value(e@.skip(i as int)) == value + 2 * v);
            lemma_zpow_double(x, self_inverse, v);
            if !fast {
                assert forall|k: int| 0 <= k < e@.skip(i + 1).len() implies #[trigger] e@.skip(
                    i + 1,
                )[k] >= 0 by {
                    assert(e@.skip(i + 1)[k] == e@[i + 1 + k]);
                }
                lemma_signed_value_nonneg(e@.skip(i + 1));
            }
        }
        if found_nonzero {
            proof {
                F::lemma_closed(res, res);
                F::lemma_subgroup_mul(res, res);
            }
            res = res.cyclotomic_square();
        }
        if value != 0 {
            found_nonzero = true;
            if value > 0 {
                proof {
                    lemma_zpow_succ(x, self_inverse, 2 * v);
                    F::lemma_closed(res, x);
                    F::lemma_subgroup_mul(res, x);
                }
                res = res.mul(f);
            } else if fast {
                proof {
                    lemma_zpow_pred(x, self_inverse, 2 * v);
                    F::lemma_closed(res, self_inverse);
                    F::lemma_subgroup_mul(res, self_inverse);
                }
                res = res.mul(&self_inverse);
            }
        }
    }
    proof {
        assert(e@.skip(0) =~= e@);
        if signed_value(e@) < 0 {
            if !fast {
                lemma_signed_value_nonneg(e@);
            }
            lemma_pow_inverse(x, self_inverse, (-signed_value(e@)) as nat);
        }
    }
    *f = res;
}

/// Raises `f` in place to the number that the words of `e` denote, by the
/// cyclotomic operations; zero is left as it is.
pub fn cyclotomic_exp_in_place<F: CyclotomicMultSubgroup>(f: &mut F, e: &[u64])
    requires
        old(f).wf(),
        *old(f) != F::zero_spec() ==> old(f).in_cyclotomic_subgroup(),
        64 * e@.len() + 1 <= usize::MAX,
    ensures
        final(f).wf(),
        *old(f) == F::zero_spec() ==> *final(f) == *old(f),
        *old(f) != F::zero_spec() ==> *final(f) == pow_spec(*old(f), words_value(e@)),
{
    if f.is_zero() {
        return;
    }
    if F::inverse_is_fast() {
        let naf = find_naf(e);
        exp_loop(f, &naf);
    } else {
        let bits = crate::bits::BitIteratorLE::without_trailing_zeros(e);
        let mut digits: Vec<i8> = Vec::new();
        let mut i: usize = 0;
        while i < bits.len()
            invariant
                i <= bits@.len(),
                digits@.len() == i,
                forall|k: int| 0 <= k < i ==> #[trigger] digits@[k] == if bits@[k] {
                    1i8
                } else {
                    0i8
                },
                signed_value(digits@) == le_value(bits@.take(i as int)),
            decreases bits@.len() - i,
        {
            let d: i8 = if bits[i] {
                1
            } else {
                0
            };
            proof {
                lemma_signed_value_push(digits@, d);
                assert(bits@.take(i + 1).drop_last() =~= bits@.take(i as int));
            }
            digits.push(d);
            i = i + 1;
        }
        proof {
            assert(bits@.take(i as int) =~= bits@);
            lemma_le_value_strip(le_bits(e@), bits@);
            lemma_words_value_le(e@);
        }
        exp_loop(f, &digits);
    }
}

/// `f` raised to the number that the words of `e` denote, by the cyclotomic
/// operations; zero gives zero.
pub fn cyclotomic_exp<F: CyclotomicMultSubgroup>(f: &F, e: &[u64]) -> (r: F)
    requires
        f.wf(),
        *f != F::zero_spec() ==> f.in_cyclotomic_subgroup(),
        64 * e@.len() + 1 <= usize::MAX,
    ensures
        r.wf(),
        *f == F::zero_spec() ==> r == *f,
        *f != F::zero_spec() ==> r == pow_spec(*f, words_value(e@)),
{
    let mut result = *f;
    cyclotomic_exp_in_place(&mut result, e);
    result
}

} // verus!
