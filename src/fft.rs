use vstd::arithmetic::div_mod::{
    lemma_fundamental_div_mod, lemma_mod_sub_multiples_vanish, lemma_mul_mod_noop, lemma_small_mod,
};
use vstd::arithmetic::power2::{lemma2_to64, lemma_pow2_adds, lemma_pow2_unfold, lemma_pow2_strictly_increases, pow2};
use vstd::prelude::*;

use crate::bits::{lemma_words_value_single, words_value};
use crate::field::{lemma_pow_add, lemma_pow_mul, lemma_pow_of_one, lemma_pow_wf, pow_spec, Field};
use crate::pow::pow as field_pow;

verus! {

/// A field whose multiplicative group has a large subgroup of order a power of two
/// (and, optionally, one of mixed order `2^a * q^b`), as used by FFTs.
pub trait FftField: Field {
    spec fn two_adicity_spec() -> u32;

    spec fn two_adic_root_of_unity_spec() -> Self;

    spec fn small_subgroup_base_spec() -> Option<u32>;

    spec fn small_subgroup_base_adicity_spec() -> Option<u32>;

    spec fn large_subgroup_root_of_unity_spec() -> Option<Self>;

    /// The `s` with `|F*| == 2^s * t`, `t` odd.
    fn two_adicity() -> (r: u32)
        ensures
            r == Self::two_adicity_spec(),
    ;

    /// A root of unity of order `2^s`.
    fn two_adic_root_of_unity() -> (r: Self)
        ensures
            r == Self::two_adic_root_of_unity_spec(),
            r.wf(),
    ;

    fn small_subgroup_base() -> (r: Option<u32>)
        ensures
            r == Self::small_subgroup_base_spec(),
            r matches Some(q) ==> q >= 2,
    ;

    fn small_subgroup_base_adicity() -> (r: Option<u32>)
        ensures
            r == Self::small_subgroup_base_adicity_spec(),
    ;

    /// A root of unity of order `2^s * q^b`, set only together with the base `q`
    /// and the adicity `b`.
    fn large_subgroup_root_of_unity() -> (r: Option<Self>)
        ensures
            r == Self::large_subgroup_root_of_unity_spec(),
            r matches Some(w) ==> w.wf() && Self::small_subgroup_base_spec() is Some
                && Self::small_subgroup_base_adicity_spec() is Some,
    ;

    /// The two-adic root of unity has order exactly `2^s`.
    proof fn lemma_two_adic_root_order()
        ensures
            Self::two_adic_root_of_unity_spec().wf(),
            pow_spec(Self::two_adic_root_of_unity_spec(), pow2(Self::two_adicity_spec() as nat))
                == Self::one_spec(),
            Self::two_adicity_spec() > 0 ==> pow_spec(
                Self::two_adic_root_of_unity_spec(),
                pow2((Self::two_adicity_spec() - 1) as nat),
            ) != Self::one_spec(),
    ;
}

/// `b^e` over the naturals.
pub open spec fn nat_pow(b: nat, e: nat) -> nat
    decreases e,
{
    if e == 0 {
        1
    } else {
        b * nat_pow(b, (e - 1) as nat)
    }
}

/// The number of times that `k` divides `n` (zero for `n <= 1`).
pub open spec fn adicity(k: nat, n: nat) -> nat
    decreases n,
    via adicity_decreases
{
    if k >= 2 && n > 1 && n % k == 0 {
        1 + adicity(k, n / k)
    } else {
        0
    }
}

#[via_fn]
proof fn adicity_decreases(k: nat, n: nat) {
    if k >= 2 && n > 1 && n % k == 0 {
        assert(n / k < n) by (nonlinear_arith)
            requires
                k >= 2,
                n > 1,
        ;
    }
}

/// The number of times that `k` divides `n`.
pub fn k_adicity(k: u64, n: u64) -> (r: u32)
    requires
        k >= 2,
    ensures
        r == adicity(k as nat, n as nat),
{
    let mut r: u32 = 0;
    let mut m = n;
    proof {
        lemma2_to64();
    }
    while m > 1 && m % k == 0
        invariant
            k >= 2,
            r as nat + adicity(k as nat, m as nat) == adicity(k as nat, n as nat),
            (m as int) * pow2(r as nat) <= n,
            r <= 64,
        decreases m,
    {
        let ghost p = pow2(r as nat);
        proof {
            assert(m / k < m && (m / k) * 2 <= m) by (nonlinear_arith)
                requires
                    k >= 2,
                    m > 1,
            ;
            lemma_pow2_adds(r as nat, 1);
            lemma2_to64();
            assert((m / k) as int * pow2((r + 1) as nat) <= n) by (nonlinear_arith)
                requires
                    (m / k) * 2 <= m,
                    pow2((r + 1) as nat) == p * 2,
                    (m as int) * p <= n,
            ;
            assert(p <= n) by (nonlinear_arith)
                requires
                    (m as int) * p <= n,
                    m >= 1,
                    p >= 0,
            ;
            if r >= 64 {
                lemma_pow2_strictly_increases(63, r as nat);
            }
        }
        r = r + 1;
        m = m / k;
    }
    r
}

proof fn lemma_nat_pow_mono(b: nat, i: nat, j: nat)
    requires
        b >= 1,
        i <= j,
    ensures
        nat_pow(b, i) <= nat_pow(b, j),
    decreases j,
{
    if i < j {
        lemma_nat_pow_mono(b, i, (j - 1) as nat);
        assert(nat_pow(b, (j - 1) as nat) <= b * nat_pow(b, (j - 1) as nat)) by (nonlinear_arith)
            requires
                b >= 1,
        ;
    }
}

/// `base^exp`, absent where it exceeds `u64::MAX`.
pub fn checked_pow(base: u64, exp: u32) -> (r: Option<u64>)
    ensures
        r matches Some(v) ==> v == nat_pow(base as nat, exp as nat),
        r is None <==> nat_pow(base as nat, exp as nat) > u64::MAX,
{
    let mut acc: u64 = 1;
    let mut i: u32 = 0;
    while i < exp
        invariant
            i <= exp,
            acc == nat_pow(base as nat, i as nat),
        decreases exp - i,
    {
        assert(nat_pow(base as nat, (i + 1) as nat) == acc * base) by (nonlinear_arith)
            requires
                nat_pow(base as nat, (i + 1) as nat) == base * nat_pow(base as nat, i as nat),
                acc == nat_pow(base as nat, i as nat),
        ;
        match acc.checked_mul(base) {
            Some(v) => {
                acc = v;
            },
            None => {
                proof {
                    assert(base >= 1) by (nonlinear_arith)
                        requires
                            acc * base > u64::MAX,
                    ;
                    lemma_nat_pow_mono(base as nat, (i + 1) as nat, exp as nat);
                }
                return None;
            },
        }
        i = i + 1;
    }
    Some(acc)
}

/// Relies on ark_std::log2: the least `r` with `2^r >= x`, and zero for zero.
#[verifier::external_body]
fn ceil_log2(x: usize) -> (r: u32)
    ensures
        x == 0 ==> r == 0,
        x > 0 ==> pow2(r as nat) >= x && (r == 0 || pow2((r - 1) as nat) < x),
{
    ark_std::log2(x)
}

proof fn lemma_ceil_log2_exact(n: nat, log: nat, k: nat)
    requires
        n == pow2(k),
        pow2(log) >= n,
        log == 0 || pow2((log - 1) as nat) < n,
    ensures
        k == log,
{
    if log < k {
        lemma_pow2_strictly_increases(log, k);
    } else if log > k {
        if k < (log - 1) as nat {
            lemma_pow2_strictly_increases(k, (log - 1) as nat);
        }
    }
}

/// A root of unity of order `n` in the two-adic subgroup: the two-adic root squared
/// `s - k` times, where `n == 2^k` with `k <= s`.
pub open spec fn two_adic_root_for<F: FftField>(k: nat) -> F {
    pow_spec(F::two_adic_root_of_unity_spec(), pow2((F::two_adicity_spec() - k) as nat))
}

/// Squares `omega` `times` times.
fn square_times<F: Field>(omega: F, times: u32) -> (r: F)
    requires
        omega.wf(),
    ensures
        r.wf(),
        r == pow_spec(omega, pow2(times as nat)),
{
    let mut w = omega;
    let mut i: u32 = 0;
    proof {
        lemma2_to64();
        F::lemma_constants();
        crate::field::lemma_one_mul(omega);
    }
    assert(pow_spec(omega, 1) == F::mul_spec(F::one_spec(), omega)) by {
        reveal_with_fuel(pow_spec, 2);
    }
    while i < times
        invariant
            omega.wf(),
            i <= times,
            w.wf(),
            w == pow_spec(omega, pow2(i as nat)),
        decreases times - i,
    {
        proof {
            F::lemma_closed(w, w);
            lemma_pow_wf(omega, pow2(i as nat));
            crate::field::lemma_pow_double(omega, pow2(i as nat));
            lemma_pow2_adds(i as nat, 1);
            lemma2_to64();
        }
        w = w.square();
        i = i + 1;
    }
    w
}

/// A root of unity of order `n`, if the field has one in its two-adic (or
/// mixed-radix) subgroup.
pub fn get_root_of_unity<F: FftField>(n: u64) -> (r: Option<F>)
    requires
        n <= usize::MAX,
    ensures
        r matches Some(w) ==> w.wf(),
        F::large_subgroup_root_of_unity_spec() is None ==> {
            &&& r is Some <==> exists|k: nat|
                k <= F::two_adicity_spec() && n == pow2(k)
            &&& forall|k: nat|
                k <= F::two_adicity_spec() && n == pow2(k) ==> r == Some(two_adic_root_for::<F>(k))
        },
        F::large_subgroup_root_of_unity_spec() matches Some(large) ==> {
            let q = F::small_subgroup_base_spec()->0 as nat;
            let b = F::small_subgroup_base_adicity_spec()->0 as nat;
            let qa = adicity(q, n as nat);
            let ta = adicity(2, n as nat);
            &&& r is Some <==> nat_pow(q, qa) <= u64::MAX && nat_pow(2, ta) <= u64::MAX && n
                == nat_pow(2, ta) * nat_pow(q, qa) && ta <= F::two_adicity_spec() && qa <= b
            &&& r matches Some(w) ==> w == pow_spec(
                large,
                nat_pow(q, (b - qa) as nat) * pow2(
                    (F::two_adicity_spec() - ta) as nat,
                ),
            )
        },
{
    let s = F::two_adicity();
    match F::large_subgroup_root_of_unity() {
        Some(large) => {
            let q = F::small_subgroup_base().unwrap() as u64;
            let small_subgroup_base_adicity = F::small_subgroup_base_adicity().unwrap();
            let q_adicity = k_adicity(q, n);
            let q_part = match checked_pow(q, q_adicity) {
                Some(v) => v,
                None => return None,
            };
            let two_adicity = k_adicity(2, n);
            let two_part = match checked_pow(2, two_adicity) {
                Some(v) => v,
                None => return None,
            };
            assert((two_part as u128) * (q_part as u128) <= u128::MAX) by (nonlinear_arith)
                requires
                    two_part <= u64::MAX,
                    q_part <= u64::MAX,
            ;
            if (two_part as u128) * (q_part as u128) != n as u128 || two_adicity > s
                || q_adicity > small_subgroup_base_adicity {
                return None;
            }
            let exp_q: Vec<u64> = vec![q];
            let ghost qv = words_value(exp_q@);
            proof {
                lemma_words_value_single(q);
                assert(exp_q@ =~= seq![q]);
            }
            let mut omega = large;
            let mut i = q_adicity;
            proof {
                lemma_pow_wf(large, 1);
                crate::field::lemma_one_mul(large);
            }
            assert(pow_spec(large, 1) == large) by {
                reveal_with_fuel(pow_spec, 2);
            }
            while i < small_subgroup_base_adicity
                invariant
                    large.wf(),
                    exp_q@ == seq![q],
                    qv == words_value(exp_q@),
                    q_adicity <= i <= small_subgroup_base_adicity,
                    omega.wf(),
                    omega == pow_spec(large, nat_pow(qv, (i - q_adicity) as nat)),
                decreases small_subgroup_base_adicity - i,
            {
                let ghost e = nat_pow(qv, (i - q_adicity) as nat);
                omega = field_pow(&omega, exp_q.as_slice());
                proof {
                    lemma_pow_mul(large, e, qv);
                    assert(nat_pow(qv, (i + 1 - q_adicity) as nat) == qv * e);
                    assert(e * qv == qv * e) by (nonlinear_arith);
                }
                i = i + 1;
            }
            let ghost before = omega;
            omega = square_times(omega, s - two_adicity);
            proof {
                lemma_pow_mul(
                    large,
                    nat_pow(qv, (small_subgroup_base_adicity - q_adicity) as nat),
                    pow2((s - two_adicity) as nat),
                );
            }
            Some(omega)
        },
        None => {
            let log_size_of_group = ceil_log2(n as usize);
            proof {
                lemma2_to64();
                assert forall|k: nat| n == pow2(k) implies k == log_size_of_group by {
                    lemma_ceil_log2_exact(n as nat, log_size_of_group as nat, k);
                }
            }
            if log_size_of_group > s || log_size_of_group >= 64 {
                proof {
                    assert forall|k: nat| k <= s && n == pow2(k) implies false by {
                        if k > 64 {
                            lemma_pow2_strictly_increases(64, k);
                        }
                    }
                }
                return None;
            }
            proof {
                lemma_pow2_strictly_increases(log_size_of_group as nat, 64);
            }
            let size: u64 = 1u64 << log_size_of_group;
            proof {
                vstd::bits::lemma_u64_shl_is_mul(1u64, log_size_of_group as u64);
            }
            if n != size {
                return None;
            }
            let omega = square_times(F::two_adic_root_of_unity(), s - log_size_of_group);
            proof {
                F::lemma_two_adic_root_order();
                lemma_pow_wf(F::two_adic_root_of_unity_spec(), pow2((s - log_size_of_group) as nat));
            }
            Some(omega)
        },
    }
}

/// If `g^a` and `g^b` are one, so is `g^(a mod b)`.
proof fn lemma_pow_one_mod<F: Field>(g: F, a: nat, b: nat)
    requires
        g.wf(),
        b > 0,
        pow_spec(g, a) == F::one_spec(),
        pow_spec(g, b) == F::one_spec(),
    ensures
        pow_spec(g, a % b) == F::one_spec(),
    decreases a,
{
    if a < b {
        lemma_small_mod(a, b);
    } else {
        let d = (a - b) as nat;
        lemma_pow_add(g, d, b);
        lemma_pow_wf(g, d);
        F::lemma_mul_one(pow_spec(g, d));
        lemma_pow_one_mod(g, d, b);
        lemma_mod_sub_multiples_vanish(a as int, b as int);
    }
}

/// A cofactor of a power of two that is odd is one.
proof fn lemma_odd_cofactor(m: nat, c: nat, k: nat)
    requires
        m * c == pow2(k),
        c % 2 == 1,
    ensures
        c == 1,
    decreases k,
{
    if k == 0 {
        lemma2_to64();
        assert(c == 1) by (nonlinear_arith)
            requires
                m * c == 1,
        ;
    } else {
        lemma_pow2_unfold(k);
        lemma_mul_mod_noop(m as int, c as int, 2);
        assert(m % 2 == 0) by (nonlinear_arith)
            requires
                ((m % 2) * (c % 2)) % 2 == (m * c) % 2,
                c % 2 == 1,
                m * c == 2 * pow2((k - 1) as nat),
        ;
        let h = m / 2;
        assert(h * c == pow2((k - 1) as nat)) by (nonlinear_arith)
            requires
                m % 2 == 0,
                h == m / 2,
                m * c == 2 * pow2((k - 1) as nat),
        ;
        lemma_odd_cofactor(h, c, (k - 1) as nat);
    }
}

/// An element with `y^(2^k) == 1` and `y^(2^(k-1)) != 1` has no positive power
/// below `2^k` equal to one.
proof fn lemma_no_smaller_order<F: Field>(y: F, k: nat, m: nat)
    requires
        y.wf(),
        k > 0,
        pow_spec(y, pow2(k)) == F::one_spec(),
        pow_spec(y, pow2((k - 1) as nat)) != F::one_spec(),
        0 < m < pow2(k),
    ensures
        pow_spec(y, m) != F::one_spec(),
    decreases m,
{
    if pow_spec(y, m) == F::one_spec() {
        let n = pow2(k);
        let r = n % m;
        lemma_pow_one_mod(y, n, m);
        if r > 0 {
            assert(r < m);
            lemma_no_smaller_order(y, k, r);
        } else {
            let c = n / m;
            lemma_fundamental_div_mod(n as int, m as int);
            assert(m * c == n);
            assert(c >= 2) by (nonlinear_arith)
                requires
                    m * c == n,
                    m < n,
                    m > 0,
            ;
            if c % 2 == 1 {
                lemma_odd_cofactor(m, c, k);
            }
            lemma_pow2_unfold(k);
            let h = c / 2;
            assert(m * h == pow2((k - 1) as nat)) by (nonlinear_arith)
                requires
                    c % 2 == 0,
                    h == c / 2,
                    m * c == 2 * pow2((k - 1) as nat),
            ;
            lemma_pow_mul(y, m, h);
            lemma_pow_of_one::<F>(h);
        }
    }
}

/// The root of unity of order `2^k` (`k <= s`) that `get_root_of_unity` gives has
/// `2^k`-th power one, and no smaller positive power of it is one.
pub proof fn law_root_of_unity_order<F: FftField>(k: nat)
    requires
        k <= F::two_adicity_spec(),
    ensures
        pow_spec(two_adic_root_for::<F>(k), pow2(k)) == F::one_spec(),
        forall|m: nat|
            0 < m < pow2(k) ==> #[trigger] pow_spec(two_adic_root_for::<F>(k), m) != F::one_spec(),
{
    let s = F::two_adicity_spec() as nat;
    F::lemma_two_adic_root_order();
    lemma_pow_mul(F::two_adic_root_of_unity_spec(), pow2((s - k) as nat), pow2(k));
    lemma_pow2_adds((s - k) as nat, k);
    if k > 0 {
        lemma_pow_mul(F::two_adic_root_of_unity_spec(), pow2((s - k) as nat), pow2((k - 1) as nat));
        lemma_pow2_adds((s - k) as nat, (k - 1) as nat);
        assert((s - k) as nat + (k - 1) as nat == (s - 1) as nat);
        lemma_pow_wf(F::two_adic_root_of_unity_spec(), pow2((s - k) as nat));
        assert forall|m: nat| 0 < m < pow2(k) implies #[trigger] pow_spec(
            two_adic_root_for::<F>(k),
            m,
        ) != F::one_spec() by {
            lemma_no_smaller_order(two_adic_root_for::<F>(k), k, m);
        }
    } else {
        lemma2_to64();
    }
}

} // verus!
