use vstd::prelude::*;

use crate::sqrt::LegendreSymbol;

verus! {

/// The capability set of a field that the generic algorithms rely on.
///
/// A field type describes its elements by spec functions (`zero_spec`,
/// `one_spec`, `add_spec`, `mul_spec`), implements them by executable methods,
/// and proves the ring and field laws that the algorithms use. `wf` says which
/// values are canonical elements; every operation keeps it.
pub trait Field: Sized + Copy {
    spec fn wf(self) -> bool;

    spec fn zero_spec() -> Self;

    spec fn one_spec() -> Self;

    spec fn add_spec(a: Self, b: Self) -> Self;

    spec fn mul_spec(a: Self, b: Self) -> Self;

    /// The image of a natural number under the map `n -> 1 + 1 + ... + 1`.
    spec fn from_nat_spec(n: nat) -> Self;

    fn zero() -> (r: Self)
        ensures
            r == Self::zero_spec(),
    ;

    fn one() -> (r: Self)
        ensures
            r == Self::one_spec(),
    ;

    fn from_u64(n: u64) -> (r: Self)
        ensures
            r == Self::from_nat_spec(n as nat),
    ;

    fn is_zero(&self) -> (r: bool)
        requires
            self.wf(),
        ensures
            r == (*self == Self::zero_spec()),
    ;

    fn is_one(&self) -> (r: bool)
        requires
            self.wf(),
        ensures
            r == (*self == Self::one_spec()),
    ;

    fn equals(&self, other: &Self) -> (r: bool)
        requires
            self.wf(),
            other.wf(),
        ensures
            r == (*self == *other),
    ;

    fn add(&self, other: &Self) -> (r: Self)
        requires
            self.wf(),
            other.wf(),
        ensures
            r == Self::add_spec(*self, *other),
    ;

    fn mul(&self, other: &Self) -> (r: Self)
        requires
            self.wf(),
            other.wf(),
        ensures
            r == Self::mul_spec(*self, *other),
    ;

    fn square(&self) -> (r: Self)
        requires
            self.wf(),
        ensures
            r == Self::mul_spec(*self, *self),
    ;

    /// The multiplicative inverse, absent exactly for zero.
    fn inverse(&self) -> (r: Option<Self>)
        requires
            self.wf(),
        ensures
            r is None <==> *self == Self::zero_spec(),
            r matches Some(y) ==> y.wf() && Self::mul_spec(*self, y) == Self::one_spec(),
    ;

    /// The quadratic character of an element.
    fn legendre(&self) -> (r: LegendreSymbol)
        requires
            self.wf(),
        ensures
            r is Zero <==> *self == Self::zero_spec(),
            r is QuadraticResidue <==> *self != Self::zero_spec() && exists|y: Self|
                y.wf() && #[trigger] Self::mul_spec(y, y) == *self,
    ;

    proof fn lemma_constants()
        ensures
            Self::zero_spec().wf(),
            Self::one_spec().wf(),
            Self::zero_spec() != Self::one_spec(),
    ;

    proof fn lemma_closed(a: Self, b: Self)
        requires
            a.wf(),
            b.wf(),
        ensures
            Self::add_spec(a, b).wf(),
            Self::mul_spec(a, b).wf(),
    ;

    proof fn lemma_from_nat_wf(n: nat)
        ensures
            Self::from_nat_spec(n).wf(),
    ;

    proof fn lemma_mul_comm(a: Self, b: Self)
        ensures
            Self::mul_spec(a, b) == Self::mul_spec(b, a),
    ;

    proof fn lemma_mul_assoc(a: Self, b: Self, c: Self)
        ensures
            Self::mul_spec(Self::mul_spec(a, b), c) == Self::mul_spec(a, Self::mul_spec(b, c)),
    ;

    proof fn lemma_mul_one(a: Self)
        requires
            a.wf(),
        ensures
            Self::mul_spec(a, Self::one_spec()) == a,
    ;

    proof fn lemma_mul_zero(a: Self)
        ensures
            Self::mul_spec(a, Self::zero_spec()) == Self::zero_spec(),
    ;

    /// A product of nonzero elements is nonzero.
    proof fn lemma_no_zero_divisors(a: Self, b: Self)
        requires
            a.wf(),
            b.wf(),
            a != Self::zero_spec(),
            b != Self::zero_spec(),
        ensures
            Self::mul_spec(a, b) != Self::zero_spec(),
    ;

    /// One has at most one square root besides itself (in a field, `1` and `-1`).
    proof fn lemma_square_roots_of_one(a: Self, c: Self)
        requires
            a.wf(),
            c.wf(),
            Self::mul_spec(a, a) == Self::one_spec(),
            Self::mul_spec(c, c) == Self::one_spec(),
            a != Self::one_spec(),
            c != Self::one_spec(),
        ensures
            a == c,
    ;

    /// Multiplication by a nonzero element is injective.
    proof fn lemma_mul_cancel(a: Self, y1: Self, y2: Self)
        requires
            a.wf(),
            y1.wf(),
            y2.wf(),
            a != Self::zero_spec(),
            Self::mul_spec(y1, a) == Self::mul_spec(y2, a),
        ensures
            y1 == y2,
    ;

    proof fn lemma_from_nat_add(m: nat, n: nat)
        ensures
            Self::from_nat_spec(m + n) == Self::add_spec(
                Self::from_nat_spec(m),
                Self::from_nat_spec(n),
            ),
    ;

    proof fn lemma_from_nat_mul(m: nat, n: nat)
        ensures
            Self::from_nat_spec(m * n) == Self::mul_spec(
                Self::from_nat_spec(m),
                Self::from_nat_spec(n),
            ),
    ;
}

/// `x` raised to the power `n`.
pub open spec fn pow_spec<F: Field>(x: F, n: nat) -> F
    decreases n,
{
    if n == 0 {
        F::one_spec()
    } else {
        F::mul_spec(pow_spec(x, (n - 1) as nat), x)
    }
}

pub proof fn lemma_pow_wf<F: Field>(x: F, n: nat)
    requires
        x.wf(),
    ensures
        pow_spec(x, n).wf(),
    decreases n,
{
    F::lemma_constants();
    if n > 0 {
        lemma_pow_wf(x, (n - 1) as nat);
        F::lemma_closed(pow_spec(x, (n - 1) as nat), x);
    }
}

pub proof fn lemma_one_mul<F: Field>(a: F)
    requires
        a.wf(),
    ensures
        F::mul_spec(F::one_spec(), a) == a,
{
    F::lemma_mul_comm(F::one_spec(), a);
    F::lemma_mul_one(a);
}

pub proof fn lemma_pow_of_one<F: Field>(n: nat)
    ensures
        pow_spec(F::one_spec(), n) == F::one_spec(),
    decreases n,
{
    F::lemma_constants();
    if n > 0 {
        lemma_pow_of_one::<F>((n - 1) as nat);
        F::lemma_mul_one(F::one_spec());
    }
}

pub proof fn lemma_pow_small<F: Field>(x: F)
    requires
        x.wf(),
    ensures
        pow_spec(x, 1) == x,
        pow_spec(x, 2) == F::mul_spec(x, x),
{
    reveal_with_fuel(pow_spec, 3);
    lemma_one_mul(x);
}

/// `(a * b)^n == a^n * b^n`.
pub proof fn lemma_pow_distrib<F: Field>(a: F, b: F, n: nat)
    requires
        a.wf(),
        b.wf(),
    ensures
        pow_spec(F::mul_spec(a, b), n) == F::mul_spec(pow_spec(a, n), pow_spec(b, n)),
    decreases n,
{
    F::lemma_constants();
    if n == 0 {
        F::lemma_mul_one(F::one_spec());
    } else {
        let m = (n - 1) as nat;
        lemma_pow_distrib(a, b, m);
        let pa = pow_spec(a, m);
        let pb = pow_spec(b, m);
        // (pa * pb) * (a * b) == (pa * a) * (pb * b)
        F::lemma_mul_assoc(pa, pb, F::mul_spec(a, b));
        F::lemma_mul_assoc(pb, a, b);
        F::lemma_mul_comm(pb, a);
        F::lemma_mul_assoc(a, pb, b);
        F::lemma_mul_assoc(pa, a, F::mul_spec(pb, b));
    }
}

/// `(a * b) * (c * d) == (a * c) * (b * d)`.
pub proof fn lemma_mul_swap4<F: Field>(a: F, b: F, c: F, d: F)
    ensures
        F::mul_spec(F::mul_spec(a, b), F::mul_spec(c, d)) == F::mul_spec(
            F::mul_spec(a, c),
            F::mul_spec(b, d),
        ),
{
    F::lemma_mul_assoc(a, b, F::mul_spec(c, d));
    F::lemma_mul_assoc(b, c, d);
    F::lemma_mul_comm(b, c);
    F::lemma_mul_assoc(c, b, d);
    F::lemma_mul_assoc(a, c, F::mul_spec(b, d));
}

/// `x^(m + n) == x^m * x^n`.
pub proof fn lemma_pow_add<F: Field>(x: F, m: nat, n: nat)
    requires
        x.wf(),
    ensures
        pow_spec(x, m + n) == F::mul_spec(pow_spec(x, m), pow_spec(x, n)),
    decreases n,
{
    lemma_pow_wf(x, m);
    if n == 0 {
        F::lemma_mul_one(pow_spec(x, m));
    } else {
        lemma_pow_add(x, m, (n - 1) as nat);
        assert((m + n - 1) as nat == m + (n - 1) as nat);
        F::lemma_mul_assoc(pow_spec(x, m), pow_spec(x, (n - 1) as nat), x);
    }
}

/// `(x^m)^n == x^(m * n)`.
pub proof fn lemma_pow_mul<F: Field>(x: F, m: nat, n: nat)
    requires
        x.wf(),
    ensures
        pow_spec(pow_spec(x, m), n) == pow_spec(x, m * n),
    decreases n,
{
    if n == 0 {
        assert(m * n == 0) by (nonlinear_arith)
            requires
                n == 0,
        ;
    } else {
        lemma_pow_mul(x, m, (n - 1) as nat);
        assert(m * (n - 1) as nat + m == m * n) by (nonlinear_arith)
            requires
                n > 0,
        ;
        lemma_pow_add(x, m * (n - 1) as nat, m);
    }
}

/// `x^n * x^n == x^(2n)`.
pub proof fn lemma_pow_double<F: Field>(x: F, n: nat)
    requires
        x.wf(),
    ensures
        F::mul_spec(pow_spec(x, n), pow_spec(x, n)) == pow_spec(x, 2 * n),
{
    lemma_pow_add(x, n, n);
}

/// `a[0] * b[0] + ... + a[n-1] * b[n-1]`.
pub open spec fn dot_product<F: Field>(a: Seq<F>, b: Seq<F>, n: nat) -> F
    decreases n,
{
    if n == 0 {
        F::zero_spec()
    } else {
        F::add_spec(
            dot_product(a, b, (n - 1) as nat),
            F::mul_spec(a[n - 1], b[n - 1]),
        )
    }
}

/// The sum of the products `a[i] * b[i]` of two arrays of equal length.
pub fn sum_of_products<F: Field, const T: usize>(a: &[F; T], b: &[F; T]) -> (r: F)
    requires
        forall|i: int| 0 <= i < T ==> (#[trigger] a@[i]).wf() && b@[i].wf(),
    ensures
        r.wf(),
        r == dot_product(a@, b@, T as nat),
{
    proof {
        F::lemma_constants();
    }
    let mut sum = F::zero();
    let mut i: usize = 0;
    while i < T
        invariant
            i <= T,
            a@.len() == T,
            b@.len() == T,
            forall|i: int| 0 <= i < T ==> (#[trigger] a@[i]).wf() && b@[i].wf(),
            sum.wf(),
            sum == dot_product(a@, b@, i as nat),
        decreases T - i,
    {
        proof {
            F::lemma_closed(a@[i as int], b@[i as int]);
            F::lemma_closed(sum, F::mul_spec(a@[i as int], b@[i as int]));
        }
        let p = a[i].mul(&b[i]);
        sum = sum.add(&p);
        i = i + 1;
    }
    sum
}

/// The law of inverses: the inverse `y` of a nonzero `x` (so `x * y == 1`) is
/// nonzero and inverts `x` from the other side too.
pub proof fn law_inverse_two_sided<F: Field>(x: F, y: F)
    requires
        x.wf(),
        y.wf(),
        x != F::zero_spec(),
        F::mul_spec(x, y) == F::one_spec(),
    ensures
        F::mul_spec(y, x) == F::one_spec(),
        y != F::zero_spec(),
{
    F::lemma_mul_comm(x, y);
    F::lemma_constants();
    F::lemma_mul_zero(x);
}

} // verus!
