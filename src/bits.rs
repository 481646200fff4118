use vstd::prelude::*;
use vstd::arithmetic::power2::{lemma2_to64, lemma_pow2_unfold, pow2};
use vstd::std_specs::bits::axiom_u64_leading_zeros;

verus! {

/// Whether bit `i` (counting from the least significant bit of word 0) is set.
pub open spec fn bit_of(s: Seq<u64>, i: int) -> bool {
    (s[i / 64] >> ((i % 64) as u64)) & 1u64 == 1u64
}

/// All bits of the words, least significant first.
pub open spec fn le_bits(s: Seq<u64>) -> Seq<bool> {
    Seq::new((64 * s.len()) as nat, |k: int| bit_of(s, k))
}

/// All bits of the words, most significant first.
pub open spec fn be_bits(s: Seq<u64>) -> Seq<bool> {
    Seq::new((64 * s.len()) as nat, |k: int| bit_of(s, 64 * s.len() - 1 - k))
}

/// `r` is `b` with its leading `false` values dropped.
pub open spec fn strips_leading_zeros(b: Seq<bool>, r: Seq<bool>) -> bool {
    &&& r.len() <= b.len()
    &&& r == b.skip(b.len() - r.len())
    &&& forall|j: int| 0 <= j < b.len() - r.len() ==> !b[j]
    &&& r.len() > 0 ==> r[0]
}

/// `r` is `b` with its trailing `false` values dropped.
pub open spec fn strips_trailing_zeros(b: Seq<bool>, r: Seq<bool>) -> bool {
    &&& r.len() <= b.len()
    &&& r == b.take(r.len() as int)
    &&& forall|j: int| r.len() <= j < b.len() ==> !b[j]
    &&& r.len() > 0 ==> r.last()
}

/// The number that a sequence of bits denotes, most significant first.
pub open spec fn be_value(b: Seq<bool>) -> nat
    decreases b.len(),
{
    if b.len() == 0 {
        0
    } else {
        (if b[0] {
            pow2((b.len() - 1) as nat)
        } else {
            0nat
        }) + be_value(b.skip(1))
    }
}

/// The number that a sequence of bits denotes, least significant first.
pub open spec fn le_value(b: Seq<bool>) -> nat
    decreases b.len(),
{
    if b.len() == 0 {
        0
    } else {
        le_value(b.drop_last()) + if b.last() {
            pow2((b.len() - 1) as nat)
        } else {
            0nat
        }
    }
}

/// Appending a bit at the least significant end doubles the value and adds the bit.
pub proof fn lemma_be_value_push(b: Seq<bool>, bit: bool)
    ensures
        be_value(b.push(bit)) == 2 * be_value(b) + if bit {
            1nat
        } else {
            0nat
        },
    decreases b.len(),
{
    let c = b.push(bit);
    if b.len() > 0 {
        lemma_be_value_push(b.skip(1), bit);
        assert(c.skip(1) =~= b.skip(1).push(bit));
        lemma_pow2_unfold(b.len());
        assert(c[0] == b[0]);
    } else {
        lemma2_to64();
        assert(c.skip(1) =~= Seq::<bool>::empty());
        assert(be_value(c.skip(1)) == 0);
    }
}

/// Leading zeros do not change the value.
pub proof fn lemma_be_value_strip(b: Seq<bool>, r: Seq<bool>)
    requires
        strips_leading_zeros(b, r),
    ensures
        be_value(r) == be_value(b),
    decreases b.len(),
{
    if b.len() > r.len() {
        assert(!b[0]);
        assert(b.skip(1).skip(b.skip(1).len() - r.len()) =~= b.skip(b.len() - r.len()));
        lemma_be_value_strip(b.skip(1), r);
    } else {
        assert(r =~= b);
    }
}

/// Trailing zeros do not change the value.
pub proof fn lemma_le_value_strip(b: Seq<bool>, r: Seq<bool>)
    requires
        strips_trailing_zeros(b, r),
    ensures
        le_value(r) == le_value(b),
    decreases b.len(),
{
    if b.len() > r.len() {
        assert(!b.last());
        assert(b.drop_last().take(r.len() as int) =~= b.take(r.len() as int));
        lemma_le_value_strip(b.drop_last(), r);
    } else {
        assert(r =~= b);
    }
}

/// Reading a sequence backwards swaps the two orders.
pub proof fn lemma_be_le_reverse(b: Seq<bool>, c: Seq<bool>)
    requires
        c.len() == b.len(),
        forall|k: int| 0 <= k < b.len() ==> c[k] == b[b.len() - 1 - k],
    ensures
        be_value(c) == le_value(b),
    decreases b.len(),
{
    if b.len() > 0 {
        lemma_be_le_reverse(b.drop_last(), c.skip(1));
    }
}

/// The bit sequences of a word slice in the two orders denote the same number.
pub proof fn lemma_words_value_le(s: Seq<u64>)
    ensures
        le_value(le_bits(s)) == words_value(s),
{
    lemma_be_le_reverse(le_bits(s), be_bits(s));
}

/// The number that a sequence of 64-bit words denotes, least significant word first.
pub open spec fn words_value(s: Seq<u64>) -> nat {
    be_value(be_bits(s))
}

/// One word denotes itself.
pub proof fn lemma_words_value_single(w: u64)
    ensures
        words_value(seq![w]) == w,
{
    let s = seq![w];
    let b = le_bits(s);
    assert forall|i: nat| i <= 64 implies #[trigger] le_value(b.take(i as int)) == w as nat % pow2(
        i,
    ) by {
        lemma_le_value_low_bits(w, i);
    }
    assert(b.take(64) =~= b);
    lemma2_to64();
    vstd::arithmetic::div_mod::lemma_small_mod(w as nat, pow2(64));
    lemma_words_value_le(s);
}

proof fn lemma_le_value_low_bits(w: u64, i: nat)
    requires
        i <= 64,
    ensures
        le_value(le_bits(seq![w]).take(i as int)) == w as nat % pow2(i),
    decreases i,
{
    let b = le_bits(seq![w]);
    lemma2_to64();
    if i == 0 {
        assert(b.take(0) =~= Seq::<bool>::empty());
    } else {
        let j = (i - 1) as nat;
        lemma_le_value_low_bits(w, j);
        assert(b.take(i as int).drop_last() =~= b.take(j as int));
        assert(j / 64 == 0 && j % 64 == j);
        let q = w >> (j as u64);
        vstd::bits::lemma_u64_shr_is_div(w, j as u64);
        assert(q & 1u64 == q % 2) by (bit_vector);
        vstd::arithmetic::power2::lemma_pow2_pos(j);
        vstd::arithmetic::div_mod::lemma_mod_breakdown(w as int, pow2(j) as int, 2);
        lemma_pow2_unfold(i);
        assert(pow2(j) * 2 == pow2(i));
        assert(b[j as int] == (q % 2 == 1));
    }
}

fn word_bit(s: &[u64], i: usize) -> (r: bool)
    requires
        i < 64 * s@.len(),
    ensures
        r == bit_of(s@, i as int),
{
    let part = i / 64;
    let bit = i - 64 * part;
    (s[part] >> (bit as u64)) & 1u64 == 1u64
}

/// Bit `i` of the words, least significant first.
pub fn word_bits_le(s: &[u64], i: usize) -> (r: bool)
    requires
        i < 64 * s@.len(),
    ensures
        r == le_bits(s@)[i as int],
{
    word_bit(s, i)
}

/// Iterates over the bits of a slice of words, most significant first.
pub struct BitIteratorBE {
    s: Vec<u64>,
    n: usize,
}

impl BitIteratorBE {
    /// The bits that are still to come.
    pub closed spec fn remaining(&self) -> Seq<bool> {
        be_bits(self.s@).skip(64 * self.s@.len() - self.n)
    }

    pub closed spec fn wf(&self) -> bool {
        self.n <= 64 * self.s@.len()
    }

    pub fn new(s: Vec<u64>) -> (r: Self)
        requires
            64 * s@.len() <= usize::MAX,
        ensures
            r.wf(),
            r.remaining() == be_bits(s@),
    {
        let n = s.len() * 64;
        let r = BitIteratorBE { s, n };
        assert(r.remaining() =~= be_bits(r.s@));
        r
    }

    pub fn next(&mut self) -> (r: Option<bool>)
        requires
            old(self).wf(),
        ensures
            final(self).wf(),
            old(self).remaining().len() == 0 ==> r is None && final(self).remaining().len() == 0,
            old(self).remaining().len() > 0 ==> r == Some(old(self).remaining()[0])
                && final(self).remaining() == old(self).remaining().skip(1),
    {
        if self.n == 0 {
            None
        } else {
            self.n = self.n - 1;
            let b = word_bit(self.s.as_slice(), self.n);
            assert(final(self).remaining() =~= old(self).remaining().skip(1));
            Some(b)
        }
    }

    /// The bits of `s`, most significant first, from the most significant one on.
    pub fn without_leading_zeros(s: &[u64]) -> (r: Vec<bool>)
        requires
            64 * s@.len() <= usize::MAX,
        ensures
            strips_leading_zeros(be_bits(s@), r@),
    {
        let ghost b = be_bits(s@);
        let total = s.len() * 64;
        let mut r: Vec<bool> = Vec::new();
        let mut found = false;
        let mut n = total;
        let ghost mut start: int = 0;
        while n > 0
            invariant
                total == 64 * s@.len(),
                b == be_bits(s@),
                n <= total,
                !found ==> r@.len() == 0 && forall|j: int| 0 <= j < total - n ==> !b[j],
                found ==> 0 <= start < total - n && r@ == b.subrange(start, total - n) && b[start]
                    && forall|j: int| 0 <= j < start ==> !b[j],
            decreases n,
        {
            n = n - 1;
            let bit = word_bit(s, n);
            assert(bit == b[total - 1 - n]);
            if found || bit {
                if !found {
                    proof {
                        start = total - 1 - n;
                    }
                }
                found = true;
                r.push(bit);
            }
            assert(found ==> r@ =~= b.subrange(start, total - n));
        }
        proof {
            if found {
                assert(r@ =~= b.skip(start));
            } else {
                assert(r@ =~= b.skip(b.len() as int));
            }
        }
        r
    }
}

/// Iterates over the bits of a slice of words, least significant first.
pub struct BitIteratorLE {
    s: Vec<u64>,
    n: usize,
    max_len: usize,
}

impl BitIteratorLE {
    /// The bits that are still to come.
    pub closed spec fn remaining(&self) -> Seq<bool> {
        le_bits(self.s@).subrange(self.n as int, self.max_len as int)
    }

    pub closed spec fn wf(&self) -> bool {
        self.n <= self.max_len <= 64 * self.s@.len()
    }

    pub fn new(s: Vec<u64>) -> (r: Self)
        requires
            64 * s@.len() <= usize::MAX,
        ensures
            r.wf(),
            r.remaining() == le_bits(s@),
    {
        let max_len = s.len() * 64;
        let r = BitIteratorLE { s, n: 0, max_len };
        assert(r.remaining() =~= le_bits(r.s@));
        r
    }

    pub fn next(&mut self) -> (r: Option<bool>)
        requires
            old(self).wf(),
        ensures
            final(self).wf(),
            old(self).remaining().len() == 0 ==> r is None && final(self).remaining().len() == 0,
            old(self).remaining().len() > 0 ==> r == Some(old(self).remaining()[0])
                && final(self).remaining() == old(self).remaining().skip(1),
    {
        if self.n == self.max_len {
            None
        } else {
            let b = word_bit(self.s.as_slice(), self.n);
            self.n = self.n + 1;
            assert(final(self).remaining() =~= old(self).remaining().skip(1));
            Some(b)
        }
    }

    /// The bits of `s`, least significant first, up to the most significant one.
    pub fn without_trailing_zeros(s: &[u64]) -> (r: Vec<bool>)
        requires
            64 * s@.len() <= usize::MAX,
        ensures
            strips_trailing_zeros(le_bits(s@), r@),
    {
        let ghost b = le_bits(s@);
        let mut first_trailing_zero: usize = 0;
        let mut i = s.len();
        let mut found = false;
        while i > 0 && !found
            invariant
                i <= s@.len(),
                64 * s@.len() <= usize::MAX,
                b == le_bits(s@),
                !found ==> first_trailing_zero == 0 && forall|j: int|
                    64 * i <= j < b.len() ==> !b[j],
                found ==> 1 <= first_trailing_zero <= b.len() && b[first_trailing_zero - 1]
                    && forall|j: int| first_trailing_zero <= j < b.len() ==> !b[j],
            decreases i,
        {
            i = i - 1;
            let limb = s[i];
            let lz = limb.leading_zeros();
            proof {
                axiom_u64_leading_zeros(limb);
            }
            let top = 64 - lz as usize;
            proof {
                assert forall|j: int| 64 * i + top <= j < 64 * (i + 1) implies !b[j] by {
                    let k = (j - 64 * i) as u64;
                    assert(j / 64 == i && j % 64 == k) by (nonlinear_arith)
                        requires
                            64 * i <= j < 64 * (i + 1),
                            k == j - 64 * i,
                    ;
                }
            }
            if limb != 0 {
                first_trailing_zero = i * 64 + top;
                found = true;
                proof {
                    let j = 64 * i + top - 1;
                    assert(j / 64 == i && j % 64 == top - 1) by (nonlinear_arith)
                        requires
                            j == 64 * i + top - 1,
                            1 <= top <= 64,
                    ;
                    assert(63u64 - lz as u64 == (top - 1) as u64);
                    let x = limb >> ((top - 1) as u64);
                    assert(x & 1u64 != 0u64);
                    assert(x & 1u64 != 0u64 ==> x & 1u64 == 1u64) by (bit_vector);
                    assert(b[j]);
                }
            }
        }
        let mut r: Vec<bool> = Vec::new();
        let mut k: usize = 0;
        while k < first_trailing_zero
            invariant
                k <= first_trailing_zero <= 64 * s@.len(),
                b == le_bits(s@),
                r@ == b.take(k as int),
            decreases first_trailing_zero - k,
        {
            let bit = word_bit(s, k);
            r.push(bit);
            k = k + 1;
            assert(r@ =~= b.take(k as int));
        }
        r
    }
}

} // verus!
