use vstd::arithmetic::power2::pow2;
use vstd::prelude::*;

use crate::bits::words_value;
use crate::fft::FftField;
use crate::field::{pow_spec, Field};
use crate::sqrt::SqrtField;

verus! {

/// The number that bytes denote, most significant first.
pub open spec fn be_bytes_value(b: Seq<u8>) -> nat
    decreases b.len(),
{
    if b.len() == 0 {
        0
    } else {
        256 * be_bytes_value(b.drop_last()) + b.last() as nat
    }
}

/// `b` read backwards.
pub open spec fn reversed(b: Seq<u8>) -> Seq<u8> {
    Seq::new(b.len(), |i: int| b[b.len() - 1 - i])
}

/// Reads bytes in big-endian order as a field element, reducing as it goes:
/// the result is the image of the number that the bytes denote.
pub fn from_be_bytes_mod_order<F: Field>(bytes: &[u8]) -> (r: F)
    ensures
        r.wf(),
        r == F::from_nat_spec(be_bytes_value(bytes@)),
{
    let window_size = F::from_u64(256);
    let mut res = F::from_u64(0);
    proof {
        F::lemma_from_nat_wf(256);
        F::lemma_from_nat_wf(0);
    }
    let mut i: usize = 0;
    while i < bytes.len()
        invariant
            i <= bytes@.len(),
            window_size == F::from_nat_spec(256),
            window_size.wf(),
            res.wf(),
            res == F::from_nat_spec(be_bytes_value(bytes@.take(i as int))),
        decreases bytes@.len() - i,
    {
        let ghost v = be_bytes_value(bytes@.take(i as int));
        let byte = F::from_u64(bytes[i] as u64);
        proof {
            assert(bytes@.take(i + 1).drop_last() =~= bytes@.take(i as int));
            F::lemma_from_nat_mul(v, 256);
            F::lemma_from_nat_add(v * 256, bytes@[i as int] as nat);
            F::lemma_from_nat_wf(bytes@[i as int] as nat);
            F::lemma_closed(res, window_size);
            F::lemma_closed(F::mul_spec(res, window_size), byte);
            assert(256 * v == v * 256);
        }
        res = res.mul(&window_size);
        res = res.add(&byte);
        i = i + 1;
    }
    assert(bytes@.take(i as int) =~= bytes@);
    res
}

/// Reads bytes in little-endian order as a field element, reducing as it goes.
pub fn from_le_bytes_mod_order<F: Field>(bytes: &[u8]) -> (r: F)
    ensures
        r.wf(),
        r == F::from_nat_spec(be_bytes_value(reversed(bytes@))),
{
    let mut bytes_copy: Vec<u8> = Vec::new();
    let mut i = bytes.len();
    while i > 0
        invariant
            i <= bytes@.len(),
            bytes_copy@ == reversed(bytes@).take(bytes@.len() - i),
        decreases i,
    {
        i = i - 1;
        bytes_copy.push(bytes[i]);
        assert(bytes_copy@ =~= reversed(bytes@).take(bytes@.len() - i));
    }
    assert(bytes_copy@ =~= reversed(bytes@));
    from_be_bytes_mod_order(bytes_copy.as_slice())
}

/// A prime field: the integers modulo a prime `p`, with every capability above.
pub trait PrimeField: FftField + SqrtField {
    /// The modulus `p`.
    spec fn modulus_spec() -> nat;

    /// The size of the modulus in bits.
    fn modulus_bit_size() -> (r: u32)
        ensures
            1 <= r,
            pow2((r - 1) as nat) <= Self::modulus_spec() < pow2(r as nat),
    ;

    /// Fermat's little theorem: `x^(p-1) == 1` for every nonzero `x`.
    proof fn lemma_fermat(x: Self)
        requires
            x.wf(),
            x != Self::zero_spec(),
        ensures
            pow_spec(x, (Self::modulus_spec() - 1) as nat) == Self::one_spec(),
    ;

    /// Reads bytes in big-endian order, reducing modulo `p`.
    fn from_be_bytes_mod_order(bytes: &[u8]) -> (r: Self)
        ensures
            r.wf(),
            r == Self::from_nat_spec(be_bytes_value(bytes@)),
    {
        from_be_bytes_mod_order(bytes)
    }

    /// Reads bytes in little-endian order, reducing modulo `p`.
    fn from_le_bytes_mod_order(bytes: &[u8]) -> (r: Self)
        ensures
            r.wf(),
            r == Self::from_nat_spec(be_bytes_value(reversed(bytes@))),
    {
        from_le_bytes_mod_order(bytes)
    }
}

/// In a prime field of order `p`, raising a nonzero element to the number that the
/// words `p - 1` denote gives one.
pub proof fn law_fermat_pow<F: PrimeField>(x: F, exp: Seq<u64>)
    requires
        x.wf(),
        x != F::zero_spec(),
        words_value(exp) == F::modulus_spec() - 1,
    ensures
        pow_spec(x, words_value(exp)) == F::one_spec(),
{
    F::lemma_fermat(x);
}

} // verus!
