use vstd::arithmetic::power2::{lemma_pow2_unfold, pow2};
use vstd::prelude::*;

use crate::bits::{
    be_bits, be_value, le_bits, le_value, lemma_be_value_push, lemma_be_value_strip,
    lemma_le_value_strip, lemma_words_value_le, words_value, BitIteratorBE, BitIteratorLE,
};
use crate::field::{lemma_pow_add, lemma_pow_double, lemma_pow_wf, pow_spec, Field};

verus! {

/// The product of `t[i]` over the positions `i` at which `b` holds `true`,
/// taken in increasing order of `i`.
pub open spec fn table_product<F: Field>(t: Seq<F>, b: Seq<bool>) -> F
    decreases b.len(),
{
    if b.len() == 0 {
        F::one_spec()
    } else if b.last() {
        F::mul_spec(table_product(t, b.drop_last()), t[b.len() - 1])
    } else {
        table_product(t, b.drop_last())
    }
}

/// `t` holds `x, x^2, x^4, ...`.
pub open spec fn is_powers_of_two_table<F: Field>(x: F, t: Seq<F>) -> bool {
    forall|i: int| 0 <= i < t.len() ==> #[trigger] t[i] == pow_spec(x, pow2(i as nat))
}

/// `x` raised to the number that the words of `exp` denote (least significant word first),
/// by square-and-multiply over its bits from the most significant one down.
pub fn pow<F: Field>(x: &F, exp: &[u64]) -> (r: F)
    requires
        x.wf(),
        64 * exp@.len() <= usize::MAX,
    ensures
        r.wf(),
        r == pow_spec(*x, words_value(exp@)),
{
    let bits = BitIteratorBE::without_leading_zeros(exp);
    proof {
        lemma_be_value_strip(be_bits(exp@), bits@);
        F::lemma_constants();
    }
    let mut res = F::one();
    let mut i: usize = 0;
    while i < bits.len()
        invariant
            x.wf(),
            i <= bits@.len(),
            res.wf(),
            res == pow_spec(*x, be_value(bits@.take(i as int))),
        decreases bits@.len() - i,
    {
        let ghost v = be_value(bits@.take(i as int));
        res = res.square();
        proof {
            lemma_pow_double(*x, v);
            lemma_pow_wf(*x, 2 * v);
        }
        if bits[i] {
            res = res.mul(x);
            proof {
                F::lemma_closed(pow_spec(*x, 2 * v), *x);
            }
        }
        proof {
            assert(bits@.take(i + 1) =~= bits@.take(i as int).push(bits@[i as int]));
            lemma_be_value_push(bits@.take(i as int), bits@[i as int]);
        }
        i = i + 1;
    }
    assert(bits@.take(i as int) =~= bits@);
    res
}

/// Trailing `false` values leave the product unchanged.
proof fn lemma_table_product_strip<F: Field>(t: Seq<F>, b: Seq<bool>, k: int)
    requires
        0 <= k <= b.len(),
        forall|j: int| k <= j < b.len() ==> !b[j],
    ensures
        table_product(t, b) == table_product(t, b.take(k)),
    decreases b.len(),
{
    if b.len() > k {
        assert(b.drop_last().take(k) =~= b.take(k));
        lemma_table_product_strip(t, b.drop_last(), k);
    } else {
        assert(b.take(k) =~= b);
    }
}

/// `x` raised to the number that the words of `exp` denote, from a table of the
/// powers `x^(2^i)`: absent exactly when `exp` has a set bit past the table's end.
pub fn pow_with_table<F: Field>(powers_of_2: &[F], exp: &[u64]) -> (r: Option<F>)
    requires
        forall|i: int| 0 <= i < powers_of_2@.len() ==> (#[trigger] powers_of_2@[i]).wf(),
        64 * exp@.len() <= usize::MAX,
    ensures
        r is None <==> exists|j: int|
            powers_of_2@.len() <= j < 64 * exp@.len() && #[trigger] le_bits(exp@)[j],
        r matches Some(y) ==> y.wf() && y == table_product(powers_of_2@, le_bits(exp@)),
{
    let bits = BitIteratorLE::without_trailing_zeros(exp);
    let ghost b = le_bits(exp@);
    proof {
        F::lemma_constants();
        lemma_table_product_strip(powers_of_2@, b, bits@.len() as int);
    }
    let mut res = F::one();
    let mut i: usize = 0;
    while i < bits.len()
        invariant
            forall|i: int| 0 <= i < powers_of_2@.len() ==> (#[trigger] powers_of_2@[i]).wf(),
            b == le_bits(exp@),
            bits@ == b.take(bits@.len() as int),
            bits@.len() <= b.len(),
            b.len() == 64 * exp@.len(),
            i <= bits@.len(),
            forall|j: int| 0 <= j < i && bits@[j] ==> j < powers_of_2@.len(),
            res.wf(),
            res == table_product(powers_of_2@, bits@.take(i as int)),
        decreases bits@.len() - i,
    {
        proof {
            assert(bits@.take(i + 1).drop_last() =~= bits@.take(i as int));
        }
        if bits[i] {
            if i >= powers_of_2.len() {
                assert(bits@[i as int] == b[i as int]);
                assert(le_bits(exp@)[i as int]);
                return None;
            }
            proof {
                F::lemma_closed(res, powers_of_2@[i as int]);
            }
            res = res.mul(&powers_of_2[i]);
        }
        i = i + 1;
    }
    assert(bits@.take(i as int) =~= bits@);
    assert forall|j: int| powers_of_2@.len() <= j < 64 * exp@.len() implies !b[j] by {
        if j < bits@.len() {
            assert(b[j] == bits@[j]);
        }
    }
    Some(res)
}

/// Over a table of powers of two of `x`, the product picked by the bits of `b`
/// is `x` raised to the number that `b` denotes.
pub proof fn lemma_table_product_pow<F: Field>(x: F, t: Seq<F>, b: Seq<bool>)
    requires
        x.wf(),
        is_powers_of_two_table(x, t),
        forall|j: int| t.len() <= j < b.len() ==> !b[j],
    ensures
        table_product(t, b) == pow_spec(x, le_value(b)),
    decreases b.len(),
{
    F::lemma_constants();
    if b.len() > 0 {
        let n = (b.len() - 1) as nat;
        lemma_table_product_pow(x, t, b.drop_last());
        if b.last() {
            lemma_pow_add(x, le_value(b.drop_last()), pow2(n));
        }
    }
}

/// Exponentiation by a table of powers of two agrees with plain exponentiation
/// whenever the table covers the exponent's bits.
pub proof fn law_pow_with_table_agrees<F: Field>(x: F, t: Seq<F>, exp: Seq<u64>)
    requires
        x.wf(),
        is_powers_of_two_table(x, t),
        forall|j: int| t.len() <= j < 64 * exp.len() ==> !(#[trigger] le_bits(exp)[j]),
    ensures
        table_product(t, le_bits(exp)) == pow_spec(x, words_value(exp)),
{
    lemma_table_product_pow(x, t, le_bits(exp));
    lemma_words_value_le(exp);
}

} // verus!
