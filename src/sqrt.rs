use vstd::prelude::*;

use vstd::arithmetic::power2::{lemma2_to64, lemma_pow2_adds, lemma_pow2_unfold, pow2};

use crate::bits::words_value;
use crate::field::{
    lemma_mul_swap4, lemma_one_mul, lemma_pow_add, lemma_pow_distrib, lemma_pow_double,
    lemma_pow_mul, lemma_pow_of_one, lemma_pow_small, lemma_pow_wf, pow_spec, Field,
};
use crate::pow::pow;

verus! {

/// The quadratic character of a field element.
#[derive(Debug, PartialEq, Eq, Structural)]
pub enum LegendreSymbol {
    Zero,
    QuadraticResidue,
    QuadraticNonResidue,
}

impl LegendreSymbol {
    pub fn is_zero(&self) -> (r: bool)
        ensures
            r == (*self is Zero),
    {
        *self == LegendreSymbol::Zero
    }

    /// Whether the element is a quadratic non-residue.
    pub fn is_qnr(&self) -> (r: bool)
        ensures
            r == (*self is QuadraticNonResidue),
    {
        *self == LegendreSymbol::QuadraticNonResidue
    }

    /// Whether the element is a nonzero quadratic residue.
    pub fn is_qr(&self) -> (r: bool)
        ensures
            r == (*self is QuadraticResidue),
    {
        *self == LegendreSymbol::QuadraticResidue
    }
}

/// How a field computes square roots; one variant is bound to each field type.
pub enum SqrtPrecomputation<F: Field> {
    /// Tonelli-Shanks, for any odd modulus: `p - 1 == 2^two_adicity * t` with `t` odd.
    TonelliShanks {
        two_adicity: u32,
        quadratic_nonresidue_to_trace: F,
        trace_of_modulus_minus_one_div_two: Vec<u64>,
    },
    /// For a modulus that is 3 mod 4: the candidate root is `x^((p + 1) / 4)`.
    Case3Mod4 { modulus_plus_one_div_four: Vec<u64> },
}

/// Whether `elem` is the square of some element.
pub open spec fn is_square<F: Field>(elem: F) -> bool {
    exists|y: F| y.wf() && #[trigger] F::mul_spec(y, y) == elem
}

/// A Tonelli-Shanks descriptor fits its field: `c` has order exactly `2^s`, and
/// every nonzero `x` has `x^(t * 2^s) == 1`, where `t == 2 * half + 1`.
pub open spec fn valid_tonelli_shanks<F: Field>(s: nat, c: F, half: nat) -> bool {
    &&& pow_spec(c, pow2(s)) == F::one_spec()
    &&& s >= 1 ==> pow_spec(c, pow2((s - 1) as nat)) != F::one_spec()
    &&& forall|x: F|
        x.wf() && x != F::zero_spec() ==> #[trigger] pow_spec(x, (2 * half + 1) * pow2(s))
            == F::one_spec()
}

/// A 3-mod-4 descriptor fits its field: every nonzero square `x` has `x^(2e) == x`.
pub open spec fn valid_case_3_mod_4<F: Field>(e: nat) -> bool {
    forall|y: F|
        y.wf() && y != F::zero_spec() ==> #[trigger] pow_spec(F::mul_spec(y, y), 2 * e)
            == F::mul_spec(y, y)
}

impl<F: Field> SqrtPrecomputation<F> {
    pub open spec fn wf(&self) -> bool {
        match self {
            SqrtPrecomputation::TonelliShanks {
                two_adicity,
                quadratic_nonresidue_to_trace,
                trace_of_modulus_minus_one_div_two,
            } => quadratic_nonresidue_to_trace.wf() && 64 * trace_of_modulus_minus_one_div_two@.len()
                <= usize::MAX,
            SqrtPrecomputation::Case3Mod4 { modulus_plus_one_div_four } => 64
                * modulus_plus_one_div_four@.len() <= usize::MAX,
        }
    }

    /// The descriptor fits the field `F`.
    pub open spec fn valid(&self) -> bool {
        &&& self.wf()
        &&& match self {
            SqrtPrecomputation::TonelliShanks {
                two_adicity,
                quadratic_nonresidue_to_trace,
                trace_of_modulus_minus_one_div_two,
            } => valid_tonelli_shanks(
                *two_adicity as nat,
                *quadratic_nonresidue_to_trace,
                words_value(trace_of_modulus_minus_one_div_two@),
            ),
            SqrtPrecomputation::Case3Mod4 { modulus_plus_one_div_four } => valid_case_3_mod_4::<F>(
                words_value(modulus_plus_one_div_four@),
            ),
        }
    }

    /// A square root of `elem`: zero for zero; otherwise a `y` with `y * y == elem`,
    /// or absent. With a valid descriptor it is absent exactly for non-squares.
    pub fn sqrt(&self, elem: &F) -> (r: Option<F>)
        requires
            self.wf(),
            elem.wf(),
        ensures
            *elem == F::zero_spec() ==> r == Some(F::zero_spec()),
            r matches Some(y) ==> y.wf() && F::mul_spec(y, y) == *elem,
            self.valid() && is_square(*elem) ==> r is Some,
            *self matches SqrtPrecomputation::Case3Mod4 { modulus_plus_one_div_four: e }
                ==> *elem != F::zero_spec() ==> {
                let c = pow_spec(*elem, words_value(e@));
                &&& r is Some <==> F::mul_spec(c, c) == *elem
                &&& r matches Some(y) ==> y == c
            },
    {
        proof {
            F::lemma_constants();
            F::lemma_mul_zero(F::zero_spec());
        }
        if elem.is_zero() {
            return Some(F::zero());
        }
        match self {
            SqrtPrecomputation::TonelliShanks {
                two_adicity,
                quadratic_nonresidue_to_trace,
                trace_of_modulus_minus_one_div_two,
            } => tonelli_shanks(
                *two_adicity,
                quadratic_nonresidue_to_trace,
                trace_of_modulus_minus_one_div_two.as_slice(),
                elem,
            ),
            SqrtPrecomputation::Case3Mod4 { modulus_plus_one_div_four } => {
                let result = pow(elem, modulus_plus_one_div_four.as_slice());
                let r2 = result.square();
                proof {
                    F::lemma_closed(result, result);
                    let e = words_value(modulus_plus_one_div_four@);
                    if self.valid() && is_square(*elem) {
                        let y = choose|y: F| y.wf() && #[trigger] F::mul_spec(y, y) == *elem;
                        if y == F::zero_spec() {
                            F::lemma_mul_zero(y);
                        }
                        assert(pow_spec(F::mul_spec(y, y), 2 * e) == F::mul_spec(y, y));
                        lemma_pow_double(*elem, e);
                    }
                }
                if r2.equals(elem) {
                    Some(result)
                } else {
                    None
                }
            },
        }
    }
}

/// Tonelli-Shanks on a nonzero element, with `s`, `c == g^t` for a non-residue `g`,
/// and the words of `(t - 1) / 2`.
fn tonelli_shanks<F: Field>(two_adicity: u32, quadratic_nonresidue_to_trace: &F, half: &[u64], elem: &F) -> (r:
    Option<F>)
    requires
        quadratic_nonresidue_to_trace.wf(),
        64 * half@.len() <= usize::MAX,
        elem.wf(),
        *elem != F::zero_spec(),
    ensures
        r matches Some(y) ==> y.wf() && F::mul_spec(y, y) == *elem,
        valid_tonelli_shanks(two_adicity as nat, *quadratic_nonresidue_to_trace, words_value(half@))
            && is_square(*elem) ==> r is Some,
{
    let ghost s = two_adicity as nat;
    let ghost c = *quadratic_nonresidue_to_trace;
    let ghost hv = words_value(half@);
    let ghost t = 2 * hv + 1;
    let ghost ok = valid_tonelli_shanks(s, c, hv) && is_square(*elem);
    let ghost e = *elem;
    proof {
        F::lemma_constants();
    }
    let mut z = *quadratic_nonresidue_to_trace;
    let mut w = pow(elem, half);
    proof {
        F::lemma_closed(w, *elem);
    }
    let mut x = w.mul(elem);
    proof {
        F::lemma_closed(x, w);
    }
    let mut b = x.mul(&w);
    proof {
        // x * x == b * elem
        F::lemma_mul_assoc(x, w, e);
        // b == elem^t
        lemma_pow_wf(e, hv);
        F::lemma_mul_comm(w, e);
        assert(pow_spec(e, hv + 1) == F::mul_spec(pow_spec(e, hv), e));
        lemma_pow_add(e, hv + 1, hv);
        assert(b == pow_spec(e, t));
        if ok {
            let y = choose|y: F| y.wf() && #[trigger] F::mul_spec(y, y) == e;
            if y == F::zero_spec() {
                F::lemma_mul_zero(y);
            }
            lemma_pow_small(y);
            lemma_pow_mul(y, 2, t);
            assert(pow_spec(y, (2 * hv + 1) * pow2(s)) == F::one_spec());
            if s >= 1 {
                lemma_pow2_unfold(s);
                lemma_pow_mul(e, t, pow2((s - 1) as nat));
                lemma_pow_mul(y, 2, t * pow2((s - 1) as nat));
                assert(2 * (t * pow2((s - 1) as nat)) == t * pow2(s)) by (nonlinear_arith)
                    requires
                        pow2(s) == 2 * pow2((s - 1) as nat),
                ;
            } else {
                lemma2_to64();
                assert(t * pow2(0) == t);
                lemma_pow_mul(y, t, 2);
                assert(t * 2 == 2 * t);
                lemma_pow_of_one::<F>(2);
            }
        }
    }
    let mut v: u32 = two_adicity;
    while !b.is_one()
        invariant
            z.wf(),
            w.wf(),
            x.wf(),
            b.wf(),
            elem.wf(),
            e == *elem,
            ok == (valid_tonelli_shanks(two_adicity as nat, *quadratic_nonresidue_to_trace, words_value(half@))
                && is_square(*elem)),
            F::mul_spec(x, x) == F::mul_spec(b, e),
            ok ==> (b == F::one_spec() || (v >= 1 && pow_spec(b, pow2((v - 1) as nat))
                == F::one_spec())),
            ok ==> pow_spec(z, pow2(v as nat)) == F::one_spec(),
            ok && v >= 1 ==> pow_spec(z, pow2((v - 1) as nat)) != F::one_spec(),
        decreases v,
    {
        // The least k with b^(2^k) == 1. For a valid descriptor and a square it is
        // below v; reaching v means that elem has no square root.
        let mut k: u32 = 0;
        let mut b2k = b;
        proof {
            lemma_pow_small(b);
            lemma2_to64();
        }
        while !b2k.is_one() && k < v
            invariant
                b.wf(),
                b2k.wf(),
                k <= v,
                b2k == pow_spec(b, pow2(k as nat)),
                forall|j: nat| j < k ==> #[trigger] pow_spec(b, pow2(j)) != F::one_spec(),
                b != F::one_spec(),
                ok == (valid_tonelli_shanks(two_adicity as nat, *quadratic_nonresidue_to_trace, words_value(half@))
                    && is_square(*elem)),
                ok ==> v >= 1 && pow_spec(b, pow2((v - 1) as nat)) == F::one_spec(),
            decreases v - k,
        {
            proof {
                F::lemma_closed(b2k, b2k);
                lemma_pow_double(b, pow2(k as nat));
                lemma_pow2_unfold((k + 1) as nat);
                assert(pow_spec(b, pow2(k as nat)) != F::one_spec());
                assert forall|j: nat| j < k + 1 implies #[trigger] pow_spec(b, pow2(j))
                    != F::one_spec() by {}
            }
            b2k = b2k.square();
            k = k + 1;
        }
        if k >= v {
            proof {
                if ok {
                    let jj = (v - 1) as nat;
                    assert(jj < k);
                    assert(pow_spec(b, pow2(jj)) != F::one_spec());
                }
            }
            return None;
        }
        proof {
            lemma2_to64();
            assert(k >= 1);
        }
        let j = v - k;
        w = z;
        let mut i: u32 = 1;
        proof {
            lemma_pow_small(z);
        }
        while i < j
            invariant
                z.wf(),
                w.wf(),
                1 <= i <= j,
                w == pow_spec(z, pow2((i - 1) as nat)),
            decreases j - i,
        {
            proof {
                F::lemma_closed(w, w);
                lemma_pow_double(z, pow2((i - 1) as nat));
                lemma_pow2_unfold(i as nat);
            }
            w = w.square();
            i = i + 1;
        }
        proof {
            F::lemma_closed(w, w);
            lemma_pow_double(z, pow2((j - 1) as nat));
            lemma_pow2_unfold(j as nat);
        }
        let ghost old_z = z;
        let ghost old_b = b;
        let ghost old_x = x;
        z = w.square();
        proof {
            F::lemma_closed(b, z);
            F::lemma_closed(x, w);
            // x' * x' == b' * elem
            lemma_mul_swap4(old_x, w, old_x, w);
            F::lemma_mul_assoc(old_b, e, F::mul_spec(w, w));
            F::lemma_mul_comm(e, F::mul_spec(w, w));
            F::lemma_mul_assoc(old_b, F::mul_spec(w, w), e);
            // z' == old_z^(2^(v-k))
            assert(z == pow_spec(old_z, pow2(j as nat)));
            if ok {
                let n = pow2((k - 1) as nat);
                lemma_pow2_unfold(k as nat);
                lemma_pow_wf(old_z, pow2(j as nat));
                lemma_pow_mul(old_z, pow2(j as nat), n);
                lemma_pow2_adds(j as nat, (k - 1) as nat);
                assert(j + (k - 1) == v - 1);
                lemma_pow_mul(old_z, pow2(j as nat), pow2(k as nat));
                lemma_pow2_adds(j as nat, k as nat);
                // a == b^(2^(k-1)) and cc == z'^(2^(k-1)) are square roots of one other than one.
                let a = pow_spec(old_b, n);
                let cc = pow_spec(z, n);
                lemma_pow_wf(old_b, n);
                lemma_pow_wf(z, n);
                lemma_pow_double(old_b, n);
                lemma_pow_double(z, n);
                assert(pow_spec(old_b, pow2((k - 1) as nat)) != F::one_spec());
                F::lemma_square_roots_of_one(a, cc);
                lemma_pow_distrib(old_b, z, n);
            }
        }
        b = b.mul(&z);
        x = x.mul(&w);
        v = k;
    }
    let x2 = x.square();
    proof {
        F::lemma_closed(x, x);
        lemma_one_mul(e);
    }
    if x2.equals(elem) {
        Some(x)
    } else {
        None
    }
}

/// A field with a square-root strategy, chosen once for the type.
pub trait SqrtField: Field {
    fn sqrt_precomputation() -> (r: SqrtPrecomputation<Self>)
        ensures
            r.valid(),
    ;
}

/// The square root of `x` by the field's own strategy: zero for zero, a `y` with
/// `y * y == x` for a square `x`, and absent exactly for non-squares.
pub fn sqrt<F: SqrtField>(x: &F) -> (r: Option<F>)
    requires
        x.wf(),
    ensures
        *x == F::zero_spec() ==> r == Some(F::zero_spec()),
        r matches Some(y) ==> y.wf() && F::mul_spec(y, y) == *x,
        r is None <==> !is_square(*x),
{
    let tv = F::sqrt_precomputation();
    let r = tv.sqrt(x);
    proof {
        if r is Some {
            assert(F::mul_spec(r->0, r->0) == *x);
        }
    }
    r
}

/// Replaces `x` by its square root and returns `true` where `x` is a square, or
/// leaves it and returns `false` where it is not.
pub fn sqrt_in_place<F: SqrtField>(x: &mut F) -> (r: bool)
    requires
        old(x).wf(),
    ensures
        final(x).wf(),
        *old(x) == F::zero_spec() ==> r && *final(x) == *old(x),
        r ==> F::mul_spec(*final(x), *final(x)) == *old(x),
        r <==> is_square(*old(x)),
        !r ==> *final(x) == *old(x),
{
    match sqrt(x) {
        Some(y) => {
            *x = y;
            true
        },
        None => false,
    }
}

/// An element that is no square has no square root: `sqrt` returns absent.
pub proof fn law_sqrt_of_nonresidue<F: Field>(z: F, r: Option<F>)
    requires
        z.wf(),
        forall|y: F| y.wf() ==> #[trigger] F::mul_spec(y, y) != z,
        r matches Some(y) ==> y.wf() && F::mul_spec(y, y) == z,
    ensures
        r is None,
{
    if r is Some {
        assert(F::mul_spec(r->0, r->0) != z);
    }
}

} // verus!
