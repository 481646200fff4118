use vstd::arithmetic::div_mod::{
    lemma_add_mod_noop, lemma_mul_mod_noop, lemma_mul_mod_noop_left, lemma_mul_mod_noop_right,
};
use vstd::arithmetic::mul::lemma_mul_is_associative;
use vstd::arithmetic::power2::pow2;
use vstd::prelude::*;

use crate::cyclotomic::CyclotomicMultSubgroup;
use crate::fft::FftField;
use crate::field::{lemma_pow_double, pow_spec, Field};
use crate::prime::PrimeField;
use crate::sqrt::{LegendreSymbol, SqrtField, SqrtPrecomputation};

verus! {

/// The integers modulo the prime 17, whose multiplicative group is generated by 3.
#[derive(Clone, Copy, Debug, PartialEq, Eq, Structural)]
pub struct F17 {
    /// The least nonnegative representative; canonical values (`wf`) are below 17.
    /// Build elements with `new`, which reduces.
    pub v: u64,
}

/// The nonzero squares modulo 17.
pub open spec fn is_square_mod_17(v: u64) -> bool {
    v == 1 || v == 2 || v == 4 || v == 8 || v == 9 || v == 13 || v == 15 || v == 16
}

proof fn lemma_squares_mod_17(y: u64)
    requires
        y < 17,
    ensures
        y != 0 ==> is_square_mod_17(((y * y) % 17) as u64),
        y == 0 ==> (y * y) % 17 == 0,
{
    if y == 0 {
    } else if y == 1 {
    } else if y == 2 {
    } else if y == 3 {
    } else if y == 4 {
    } else if y == 5 {
    } else if y == 6 {
    } else if y == 7 {
    } else if y == 8 {
    } else if y == 9 {
    } else if y == 10 {
    } else if y == 11 {
    } else if y == 12 {
    } else if y == 13 {
    } else if y == 14 {
    } else if y == 15 {
    } else {
        assert(y == 16);
    }
}

proof fn lemma_roots_of_one_mod_17(y: u64)
    requires
        y < 17,
    ensures
        (y * y) % 17 == 1 ==> y == 1 || y == 16,
{
    lemma_squares_mod_17(y);
    if y == 2 {
    } else if y == 3 {
    } else if y == 4 {
    } else if y == 5 {
        assert((5 * 5) % 17 == 8) by (nonlinear_arith);
    } else if y == 6 {
        assert((6 * 6) % 17 == 2) by (nonlinear_arith);
    } else if y == 7 {
        assert((7 * 7) % 17 == 15) by (nonlinear_arith);
    } else if y == 8 {
        assert((8 * 8) % 17 == 13) by (nonlinear_arith);
    } else if y == 9 {
        assert((9 * 9) % 17 == 13) by (nonlinear_arith);
    } else if y == 10 {
        assert((10 * 10) % 17 == 15) by (nonlinear_arith);
    } else if y == 11 {
        assert((11 * 11) % 17 == 2) by (nonlinear_arith);
    } else if y == 12 {
        assert((12 * 12) % 17 == 8) by (nonlinear_arith);
    } else if y == 13 {
        assert((13 * 13) % 17 == 16) by (nonlinear_arith);
    } else if y == 14 {
        assert((14 * 14) % 17 == 9) by (nonlinear_arith);
    } else if y == 15 {
        assert((15 * 15) % 17 == 4) by (nonlinear_arith);
    }
}

impl F17 {
    pub open spec fn value_spec(&self) -> u64 {
        self.v
    }

    /// The element `v mod 17`.
    pub fn new(v: u64) -> (r: F17)
        ensures
            r == F17::from_nat_spec(v as nat),
            r.wf(),
    {
        F17 { v: v % 17 }
    }

    /// The least nonnegative representative.
    pub fn value(&self) -> (r: u64)
        ensures
            r == self.value_spec(),
    {
        self.v
    }
}

impl Field for F17 {
    open spec fn wf(self) -> bool {
        self.v < 17
    }

    open spec fn zero_spec() -> Self {
        F17 { v: 0 }
    }

    open spec fn one_spec() -> Self {
        F17 { v: 1 }
    }

    open spec fn add_spec(a: Self, b: Self) -> Self {
        F17 { v: ((a.v + b.v) % 17) as u64 }
    }

    open spec fn mul_spec(a: Self, b: Self) -> Self {
        F17 { v: ((a.v * b.v) % 17) as u64 }
    }

    open spec fn from_nat_spec(n: nat) -> Self {
        F17 { v: (n % 17) as u64 }
    }

    fn zero() -> (r: Self) {
        F17 { v: 0 }
    }

    fn one() -> (r: Self) {
        F17 { v: 1 }
    }

    fn from_u64(n: u64) -> (r: Self) {
        F17 { v: n % 17 }
    }

    fn is_zero(&self) -> (r: bool) {
        self.v == 0
    }

    fn is_one(&self) -> (r: bool) {
        self.v == 1
    }

    fn equals(&self, other: &Self) -> (r: bool) {
        self.v == other.v
    }

    fn add(&self, other: &Self) -> (r: Self) {
        F17 { v: (self.v + other.v) % 17 }
    }

    fn mul(&self, other: &Self) -> (r: Self) {
        assert(self.v * other.v < 289) by (nonlinear_arith)
            requires
                self.v < 17,
                other.v < 17,
        ;
        F17 { v: (self.v * other.v) % 17 }
    }

    fn square(&self) -> (r: Self) {
        assert(self.v * self.v < 289) by (nonlinear_arith)
            requires
                self.v < 17,
        ;
        F17 { v: (self.v * self.v) % 17 }
    }

    fn inverse(&self) -> (r: Option<Self>) {
        let v = self.v;
        let y: u64 = if v == 1 {
            1
        } else if v == 2 {
            9
        } else if v == 3 {
            6
        } else if v == 4 {
            13
        } else if v == 5 {
            7
        } else if v == 6 {
            3
        } else if v == 7 {
            5
        } else if v == 8 {
            15
        } else if v == 9 {
            2
        } else if v == 10 {
            12
        } else if v == 11 {
            14
        } else if v == 12 {
            10
        } else if v == 13 {
            4
        } else if v == 14 {
            11
        } else if v == 15 {
            8
        } else if v == 16 {
            16
        } else {
            return None;
        };
        Some(F17 { v: y })
    }

    fn legendre(&self) -> (r: LegendreSymbol) {
        let v = self.v;
        if v == 0 {
            LegendreSymbol::Zero
        } else if v == 1 || v == 2 || v == 4 || v == 8 || v == 9 || v == 13 || v == 15 || v == 16 {
            proof {
                let w: u64 = if v == 1 {
                    1
                } else if v == 2 {
                    6
                } else if v == 4 {
                    2
                } else if v == 8 {
                    5
                } else if v == 9 {
                    3
                } else if v == 13 {
                    8
                } else if v == 15 {
                    7
                } else {
                    4
                };
                let y = F17 { v: w };
                assert(F17::mul_spec(y, y) == *self);
            }
            LegendreSymbol::QuadraticResidue
        } else {
            proof {
                assert forall|y: F17| y.wf() implies #[trigger] F17::mul_spec(y, y) != *self by {
                    lemma_squares_mod_17(y.v);
                }
            }
            LegendreSymbol::QuadraticNonResidue
        }
    }

    proof fn lemma_constants() {
    }

    proof fn lemma_closed(a: Self, b: Self) {
    }

    proof fn lemma_from_nat_wf(n: nat) {
    }

    proof fn lemma_mul_comm(a: Self, b: Self) {
        assert(a.v * b.v == b.v * a.v) by (nonlinear_arith);
    }

    proof fn lemma_mul_assoc(a: Self, b: Self, c: Self) {
        let x = a.v as int;
        let y = b.v as int;
        let z = c.v as int;
        lemma_mul_mod_noop_left(x * y, z, 17);
        lemma_mul_mod_noop_right(x, y * z, 17);
        lemma_mul_is_associative(x, y, z);
    }

    proof fn lemma_mul_one(a: Self) {
    }

    proof fn lemma_mul_zero(a: Self) {
    }

    proof fn lemma_no_zero_divisors(a: Self, b: Self) {
        let x = a.v;
        let y = b.v;
        assert((x * y) % 17 != 0) by (nonlinear_arith)
            requires
                1 <= x < 17,
                1 <= y < 17,
        {
            if x == 1 {
            } else if x == 2 {
            } else if x == 3 {
            } else if x == 4 {
            } else if x == 5 {
            } else if x == 6 {
            } else if x == 7 {
            } else if x == 8 {
            } else if x == 9 {
            } else if x == 10 {
            } else if x == 11 {
            } else if x == 12 {
            } else if x == 13 {
            } else if x == 14 {
            } else if x == 15 {
            } else {
            }
        }
    }

    proof fn lemma_square_roots_of_one(a: Self, c: Self) {
        lemma_roots_of_one_mod_17(a.v);
        lemma_roots_of_one_mod_17(c.v);
    }

    proof fn lemma_mul_cancel(a: Self, y1: Self, y2: Self) {
        let x = a.v as int;
        let i: int = if x == 1 {
            1
        } else if x == 2 {
            9
        } else if x == 3 {
            6
        } else if x == 4 {
            13
        } else if x == 5 {
            7
        } else if x == 6 {
            3
        } else if x == 7 {
            5
        } else if x == 8 {
            15
        } else if x == 9 {
            2
        } else if x == 10 {
            12
        } else if x == 11 {
            14
        } else if x == 12 {
            10
        } else if x == 13 {
            4
        } else if x == 14 {
            11
        } else if x == 15 {
            8
        } else {
            16
        };
        assert((x * i) % 17 == 1) by (nonlinear_arith)
            requires
                1 <= x <= 16,
                x == 1 ==> i == 1,
                x == 2 ==> i == 9,
                x == 3 ==> i == 6,
                x == 4 ==> i == 13,
                x == 5 ==> i == 7,
                x == 6 ==> i == 3,
                x == 7 ==> i == 5,
                x == 8 ==> i == 15,
                x == 9 ==> i == 2,
                x == 10 ==> i == 12,
                x == 11 ==> i == 14,
                x == 12 ==> i == 10,
                x == 13 ==> i == 4,
                x == 14 ==> i == 11,
                x == 15 ==> i == 8,
                x == 16 ==> i == 16,
        ;
        let u = y1.v as int;
        let w = y2.v as int;
        // (u * x) % 17 == (w * x) % 17, so u == u * (x * i) == w * (x * i) == w modulo 17.
        lemma_mul_mod_noop_left(u * x, i, 17);
        lemma_mul_mod_noop_left(w * x, i, 17);
        lemma_mul_is_associative(u, x, i);
        lemma_mul_is_associative(w, x, i);
        lemma_mul_mod_noop_right(u, x * i, 17);
        lemma_mul_mod_noop_right(w, x * i, 17);
        assert(u * 1 == u && w * 1 == w);
        vstd::arithmetic::div_mod::lemma_small_mod(u as nat, 17);
        vstd::arithmetic::div_mod::lemma_small_mod(w as nat, 17);
    }

    proof fn lemma_from_nat_add(m: nat, n: nat) {
        lemma_add_mod_noop(m as int, n as int, 17);
    }

    proof fn lemma_from_nat_mul(m: nat, n: nat) {
        lemma_mul_mod_noop(m as int, n as int, 17);
    }
}

impl SqrtField for F17 {
    fn sqrt_precomputation() -> (r: SqrtPrecomputation<Self>) {
        proof {
            crate::bits::lemma_words_value_single(0);
            F17::lemma_two_adic_root_order();
            vstd::arithmetic::power2::lemma2_to64();
            assert forall|x: F17| x.wf() && x != F17::zero_spec() implies #[trigger] pow_spec(
                x,
                (2 * 0 + 1) * pow2(4),
            ) == F17::one_spec() by {
                law_fermat(x);
            }
        }
        // 17 - 1 == 2^4 * 1: the trace is 1, and 3 is a non-residue.
        let half: Vec<u64> = vec![0u64];
        assert(half@ =~= seq![0u64]);
        SqrtPrecomputation::TonelliShanks {
            two_adicity: 4,
            quadratic_nonresidue_to_trace: F17 { v: 3 },
            trace_of_modulus_minus_one_div_two: half,
        }
    }
}

impl FftField for F17 {
    open spec fn two_adicity_spec() -> u32 {
        4
    }

    open spec fn two_adic_root_of_unity_spec() -> Self {
        F17 { v: 3 }
    }

    open spec fn small_subgroup_base_spec() -> Option<u32> {
        None
    }

    open spec fn small_subgroup_base_adicity_spec() -> Option<u32> {
        None
    }

    open spec fn large_subgroup_root_of_unity_spec() -> Option<Self> {
        None
    }

    fn two_adicity() -> (r: u32) {
        4
    }

    fn two_adic_root_of_unity() -> (r: Self) {
        F17 { v: 3 }
    }

    fn small_subgroup_base() -> (r: Option<u32>) {
        None
    }

    fn small_subgroup_base_adicity() -> (r: Option<u32>) {
        None
    }

    fn large_subgroup_root_of_unity() -> (r: Option<Self>) {
        None
    }

    proof fn lemma_two_adic_root_order() {
        let g = F17 { v: 3 };
        vstd::arithmetic::power2::lemma2_to64();
        assert(pow_spec(g, 1) == g) by {
            reveal_with_fuel(pow_spec, 2);
        }
        lemma_pow_double(g, 1);
        lemma_pow_double(g, 2);
        lemma_pow_double(g, 4);
        lemma_pow_double(g, 8);
        assert(pow_spec(g, 2) == F17 { v: 9 });
        assert((9 * 9) % 17 == 13) by (nonlinear_arith);
        assert(F17::mul_spec(F17 { v: 9 }, F17 { v: 9 }) == F17 { v: 13 });
        assert(pow_spec(g, 4) == F17 { v: 13 });
        assert((13 * 13) % 17 == 16) by (nonlinear_arith);
        assert(F17::mul_spec(F17 { v: 13 }, F17 { v: 13 }) == F17 { v: 16 });
        assert(pow_spec(g, 8) == F17 { v: 16 });
        assert((16 * 16) % 17 == 1) by (nonlinear_arith);
        assert(F17::mul_spec(F17 { v: 16 }, F17 { v: 16 }) == F17 { v: 1 });
        assert(pow_spec(g, 16) == F17 { v: 1 });
    }
}

impl PrimeField for F17 {
    open spec fn modulus_spec() -> nat {
        17
    }

    proof fn lemma_fermat(x: Self) {
        law_fermat(x);
    }

    fn modulus_bit_size() -> (r: u32) {
        proof {
            vstd::arithmetic::power2::lemma2_to64();
        }
        5
    }
}

impl CyclotomicMultSubgroup for F17 {
    /// Inversion here is a table lookup.
    open spec fn inverse_is_fast_spec() -> bool {
        true
    }

    fn inverse_is_fast() -> (r: bool) {
        true
    }

    /// The whole multiplicative group.
    open spec fn in_cyclotomic_subgroup(self) -> bool {
        self.v != 0
    }

    proof fn lemma_subgroup_one() {
    }

    proof fn lemma_subgroup_mul(a: Self, b: Self) {
        F17::lemma_no_zero_divisors(a, b);
    }

    proof fn lemma_subgroup_inverse(a: Self, y: Self) {
        F17::lemma_mul_zero(a);
    }
}

/// Fermat's little theorem in this field: `x^16 == 1` for every nonzero `x`.
pub proof fn law_fermat(x: F17)
    requires
        x.wf(),
        x != F17::zero_spec(),
    ensures
        pow_spec(x, 16) == F17::one_spec(),
{
    assert(pow_spec(x, 1) == x) by {
        reveal_with_fuel(pow_spec, 2);
        crate::field::lemma_one_mul(x);
    }
    lemma_pow_double(x, 1);
    lemma_pow_double(x, 2);
    lemma_pow_double(x, 4);
    lemma_pow_double(x, 8);
    assert(pow_spec(x, 16) == F17::one_spec()) by {
        if x.v == 1 {
            assert((1 * 1) % 17 == 1) by (nonlinear_arith);
        } else if x.v == 2 {
            assert((2 * 2) % 17 == 4) by (nonlinear_arith);
            assert((4 * 4) % 17 == 16) by (nonlinear_arith);
            assert((16 * 16) % 17 == 1) by (nonlinear_arith);
            assert((1 * 1) % 17 == 1) by (nonlinear_arith);
        } else if x.v == 3 {
            assert((3 * 3) % 17 == 9) by (nonlinear_arith);
            assert((9 * 9) % 17 == 13) by (nonlinear_arith);
            assert((13 * 13) % 17 == 16) by (nonlinear_arith);
            assert((16 * 16) % 17 == 1) by (nonlinear_arith);
        } else if x.v == 4 {
            assert((4 * 4) % 17 == 16) by (nonlinear_arith);
            assert((16 * 16) % 17 == 1) by (nonlinear_arith);
            assert((1 * 1) % 17 == 1) by (nonlinear_arith);
        } else if x.v == 5 {
            assert((5 * 5) % 17 == 8) by (nonlinear_arith);
            assert((8 * 8) % 17 == 13) by (nonlinear_arith);
            assert((13 * 13) % 17 == 16) by (nonlinear_arith);
            assert((16 * 16) % 17 == 1) by (nonlinear_arith);
        } else if x.v == 6 {
            assert((6 * 6) % 17 == 2) by (nonlinear_arith);
            assert((2 * 2) % 17 == 4) by (nonlinear_arith);
            assert((4 * 4) % 17 == 16) by (nonlinear_arith);
            assert((16 * 16) % 17 == 1) by (nonlinear_arith);
        } else if x.v == 7 {
            assert((7 * 7) % 17 == 15) by (nonlinear_arith);
            assert((15 * 15) % 17 == 4) by (nonlinear_arith);
            assert((4 * 4) % 17 == 16) by (nonlinear_arith);
            assert((16 * 16) % 17 == 1) by (nonlinear_arith);
        } else if x.v == 8 {
            assert((8 * 8) % 17 == 13) by (nonlinear_arith);
            assert((13 * 13) % 17 == 16) by (nonlinear_arith);
            assert((16 * 16) % 17 == 1) by (nonlinear_arith);
            assert((1 * 1) % 17 == 1) by (nonlinear_arith);
        } else if x.v == 9 {
            assert((9 * 9) % 17 == 13) by (nonlinear_arith);
            assert((13 * 13) % 17 == 16) by (nonlinear_arith);
            assert((16 * 16) % 17 == 1) by (nonlinear_arith);
            assert((1 * 1) % 17 == 1) by (nonlinear_arith);
        } else if x.v == 10 {
            assert((10 * 10) % 17 == 15) by (nonlinear_arith);
            assert((15 * 15) % 17 == 4) by (nonlinear_arith);
            assert((4 * 4) % 17 == 16) by (nonlinear_arith);
            assert((16 * 16) % 17 == 1) by (nonlinear_arith);
        } else if x.v == 11 {
            assert((11 * 11) % 17 == 2) by (nonlinear_arith);
            assert((2 * 2) % 17 == 4) by (nonlinear_arith);
            assert((4 * 4) % 17 == 16) by (nonlinear_arith);
            assert((16 * 16) % 17 == 1) by (nonlinear_arith);
        } else if x.v == 12 {
            assert((12 * 12) % 17 == 8) by (nonlinear_arith);
            assert((8 * 8) % 17 == 13) by (nonlinear_arith);
            assert((13 * 13) % 17 == 16) by (nonlinear_arith);
            assert((16 * 16) % 17 == 1) by (nonlinear_arith);
        } else if x.v == 13 {
            assert((13 * 13) % 17 == 16) by (nonlinear_arith);
            assert((16 * 16) % 17 == 1) by (nonlinear_arith);
            assert((1 * 1) % 17 == 1) by (nonlinear_arith);
        } else if x.v == 14 {
            assert((14 * 14) % 17 == 9) by (nonlinear_arith);
            assert((9 * 9) % 17 == 13) by (nonlinear_arith);
            assert((13 * 13) % 17 == 16) by (nonlinear_arith);
            assert((16 * 16) % 17 == 1) by (nonlinear_arith);
        } else if x.v == 15 {
            assert((15 * 15) % 17 == 4) by (nonlinear_arith);
            assert((4 * 4) % 17 == 16) by (nonlinear_arith);
            assert((16 * 16) % 17 == 1) by (nonlinear_arith);
            assert((1 * 1) % 17 == 1) by (nonlinear_arith);
        } else if x.v == 16 {
            assert((16 * 16) % 17 == 1) by (nonlinear_arith);
            assert((1 * 1) % 17 == 1) by (nonlinear_arith);
        }
    }
}

} // verus!
