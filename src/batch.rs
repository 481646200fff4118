use vstd::prelude::*;

use crate::field::Field;

verus! {

/// The nonzero elements of `s`, in order.
pub open spec fn nonzeros<F: Field>(s: Seq<F>) -> Seq<F>
    decreases s.len(),
{
    if s.len() == 0 {
        Seq::empty()
    } else if s.last() != F::zero_spec() {
        nonzeros(s.drop_last()).push(s.last())
    } else {
        nonzeros(s.drop_last())
    }
}

/// The product of the elements of `s`, left to right.
pub open spec fn seq_product<F: Field>(s: Seq<F>) -> F
    decreases s.len(),
{
    if s.len() == 0 {
        F::one_spec()
    } else {
        F::mul_spec(seq_product(s.drop_last()), s.last())
    }
}

/// `new` is what batch inversion scaled by `c` makes of `old`: zero stays,
/// and a nonzero element becomes the `y` with `y * old == c`.
pub open spec fn inverted_and_scaled<F: Field>(old: F, new: F, c: F) -> bool {
    if old == F::zero_spec() {
        new == old
    } else {
        new.wf() && F::mul_spec(new, old) == c
    }
}

pub open spec fn all_wf<F: Field>(s: Seq<F>) -> bool {
    forall|i: int| 0 <= i < s.len() ==> (#[trigger] s[i]).wf()
}

proof fn lemma_nonzeros_prefix<F: Field>(s: Seq<F>, i: int)
    requires
        0 <= i <= s.len(),
    ensures
        nonzeros(s.take(i)).len() <= nonzeros(s).len(),
        nonzeros(s).take(nonzeros(s.take(i)).len() as int) == nonzeros(s.take(i)),
    decreases s.len(),
{
    if i == s.len() {
        assert(s.take(i) =~= s);
        assert(nonzeros(s).take(nonzeros(s).len() as int) =~= nonzeros(s));
    } else {
        assert(s.drop_last().take(i) =~= s.take(i));
        lemma_nonzeros_prefix(s.drop_last(), i);
        let a = nonzeros(s.drop_last());
        let n = nonzeros(s.take(i)).len() as int;
        if s.last() != F::zero_spec() {
            assert(a.push(s.last()).take(n) =~= a.take(n));
        }
    }
}

proof fn lemma_nonzeros_wf<F: Field>(s: Seq<F>)
    requires
        all_wf(s),
    ensures
        all_wf(nonzeros(s)),
        forall|i: int| 0 <= i < nonzeros(s).len() ==> nonzeros(s)[i] != F::zero_spec(),
    decreases s.len(),
{
    if s.len() > 0 {
        lemma_nonzeros_wf(s.drop_last());
    }
}

proof fn lemma_product_nonzero<F: Field>(s: Seq<F>)
    requires
        all_wf(s),
        forall|i: int| 0 <= i < s.len() ==> s[i] != F::zero_spec(),
    ensures
        seq_product(s).wf(),
        seq_product(s) != F::zero_spec(),
    decreases s.len(),
{
    F::lemma_constants();
    if s.len() > 0 {
        lemma_product_nonzero(s.drop_last());
        F::lemma_closed(seq_product(s.drop_last()), s.last());
        F::lemma_no_zero_divisors(seq_product(s.drop_last()), s.last());
    }
}

/// Montgomery's trick on `v[lo..hi]`: one inversion for the whole range.
fn serial_batch_inversion_and_mul_range<F: Field>(v: &mut Vec<F>, lo: usize, hi: usize, coeff: &F)
    requires
        lo <= hi <= old(v)@.len(),
        all_wf(old(v)@),
        coeff.wf(),
    ensures
        final(v)@.len() == old(v)@.len(),
        forall|i: int|
            lo <= i < hi ==> inverted_and_scaled(old(v)@[i], #[trigger] final(v)@[i], *coeff),
        forall|i: int| 0 <= i < lo || hi <= i < old(v)@.len() ==> #[trigger] final(v)@[i] == old(v)@[i],
{
    let ghost orig = v@;
    let ghost whole = orig.subrange(lo as int, hi as int);
    proof {
        F::lemma_constants();
    }
    // First pass: the running products of the nonzero elements.
    let mut prod: Vec<F> = Vec::new();
    let mut tmp = F::one();
    let mut idx = lo;
    while idx < hi
        invariant
            lo <= idx <= hi <= orig.len(),
            v@ == orig,
            all_wf(orig),
            whole == orig.subrange(lo as int, hi as int),
            prod@.len() == nonzeros(orig.subrange(lo as int, idx as int)).len(),
            forall|m: int|
                0 <= m < prod@.len() ==> #[trigger] prod@[m] == seq_product(
                    nonzeros(orig.subrange(lo as int, idx as int)).take(m + 1),
                ),
            tmp == seq_product(nonzeros(orig.subrange(lo as int, idx as int))),
            tmp.wf(),
            tmp != F::zero_spec(),
        decreases hi - idx,
    {
        let ghost pre = orig.subrange(lo as int, idx as int);
        let f = v[idx];
        assert(orig.subrange(lo as int, idx + 1).drop_last() =~= pre);
        if !f.is_zero() {
            proof {
                F::lemma_closed(tmp, f);
                F::lemma_no_zero_divisors(tmp, f);
                let n2 = nonzeros(pre).push(f);
                assert(n2.take(n2.len() as int).drop_last() =~= nonzeros(pre));
                assert(n2.take(n2.len() as int) =~= n2);
                assert forall|m: int| 0 <= m < prod@.len() implies #[trigger] n2.take(m + 1)
                    =~= nonzeros(pre).take(m + 1) by {}
            }
            tmp = tmp.mul(&f);
            prod.push(tmp);
        }
        idx = idx + 1;
    }
    assert(orig.subrange(lo as int, hi as int) == whole);
    let ghost total = tmp;
    // The one inversion, scaled by the coefficient.
    let inv = tmp.inverse();
    let y = inv.unwrap();
    tmp = y.mul(coeff);
    proof {
        F::lemma_closed(y, *coeff);
        F::lemma_mul_comm(y, *coeff);
        F::lemma_mul_assoc(*coeff, y, total);
        F::lemma_mul_comm(y, total);
        F::lemma_mul_comm(total, y);
        F::lemma_mul_one(*coeff);
    }
    // Second pass, backwards.
    let mut k = prod.len();
    let mut j = hi;
    while j > lo
        invariant
            lo <= j <= hi <= orig.len(),
            v@.len() == orig.len(),
            all_wf(orig),
            coeff.wf(),
            whole == orig.subrange(lo as int, hi as int),
            prod@.len() == nonzeros(whole).len(),
            forall|m: int|
                0 <= m < prod@.len() ==> #[trigger] prod@[m] == seq_product(
                    nonzeros(whole).take(m + 1),
                ),
            k == nonzeros(orig.subrange(lo as int, j as int)).len(),
            tmp.wf(),
            F::mul_spec(tmp, seq_product(nonzeros(orig.subrange(lo as int, j as int)))) == *coeff,
            forall|i: int| j <= i < hi ==> inverted_and_scaled(orig[i], #[trigger] v@[i], *coeff),
            forall|i: int| 0 <= i < j || hi <= i < orig.len() ==> #[trigger] v@[i] == orig[i],
        decreases j,
    {
        j = j - 1;
        let ghost pre = orig.subrange(lo as int, j as int);
        let ghost pre1 = orig.subrange(lo as int, j + 1);
        assert(pre1.drop_last() =~= pre);
        let f = v[j];
        if !f.is_zero() {
            proof {
                assert(whole.take(j + 1 - lo) =~= pre1);
                assert(whole.take(j - lo) =~= pre);
                lemma_nonzeros_prefix(whole, j - lo);
                lemma_nonzeros_wf(pre);
                assert(all_wf(pre));
                lemma_product_nonzero(nonzeros(pre));
            }
            let s = if k >= 2 {
                proof {
                    assert(nonzeros(whole).take(k - 1) =~= nonzeros(pre));
                }
                prod[k - 2]
            } else {
                proof {
                    assert(nonzeros(pre).len() == 0);
                }
                F::one()
            };
            assert(s == seq_product(nonzeros(pre)));
            proof {
                let p = seq_product(nonzeros(pre));
                assert(nonzeros(pre1).drop_last() =~= nonzeros(pre));
                F::lemma_mul_assoc(tmp, p, f);
                F::lemma_mul_assoc(tmp, f, p);
                F::lemma_mul_comm(f, p);
                F::lemma_closed(tmp, p);
                F::lemma_closed(tmp, f);
            }
            let new_tmp = tmp.mul(&f);
            let r = tmp.mul(&s);
            v.set(j, r);
            tmp = new_tmp;
            k = k - 1;
        }
    }
}

/// Replaces every nonzero element `v[i]` by `coeff / v[i]`, leaving zeros as they are,
/// with a single field inversion.
pub fn serial_batch_inversion_and_mul<F: Field>(v: &mut Vec<F>, coeff: &F)
    requires
        all_wf(old(v)@),
        coeff.wf(),
    ensures
        final(v)@.len() == old(v)@.len(),
        forall|i: int|
            0 <= i < old(v)@.len() ==> inverted_and_scaled(old(v)@[i], #[trigger] final(v)@[i], *coeff),
{
    let n = v.len();
    serial_batch_inversion_and_mul_range(v, 0, n, coeff);
}

/// Runs Montgomery's trick on consecutive chunks of `chunk_size` elements each (the
/// last may be shorter), each chunk with its own single inversion. The result is
/// the same for every positive chunk size.
pub fn batch_inversion_and_mul_chunked<F: Field>(v: &mut Vec<F>, coeff: &F, chunk_size: usize)
    requires
        all_wf(old(v)@),
        coeff.wf(),
        chunk_size > 0,
    ensures
        final(v)@.len() == old(v)@.len(),
        forall|i: int|
            0 <= i < old(v)@.len() ==> inverted_and_scaled(old(v)@[i], #[trigger] final(v)@[i], *coeff),
{
    let ghost orig = v@;
    let n = v.len();
    let mut lo: usize = 0;
    while lo < n
        invariant
            n == orig.len(),
            v@.len() == n,
            lo <= n,
            chunk_size > 0,
            coeff.wf(),
            all_wf(orig),
            forall|i: int| 0 <= i < lo ==> inverted_and_scaled(orig[i], #[trigger] v@[i], *coeff),
            forall|i: int| lo <= i < n ==> #[trigger] v@[i] == orig[i],
        decreases n - lo,
    {
        let hi = if n - lo > chunk_size {
            lo + chunk_size
        } else {
            n
        };
        assert(all_wf(v@)) by {
            assert forall|i: int| 0 <= i < v@.len() implies (#[trigger] v@[i]).wf() by {
                if i < lo {
                    assert(inverted_and_scaled(orig[i], v@[i], *coeff));
                }
            }
        }
        let ghost before = v@;
        serial_batch_inversion_and_mul_range(v, lo, hi, coeff);
        assert forall|i: int| 0 <= i < hi implies inverted_and_scaled(
            orig[i],
            #[trigger] v@[i],
            *coeff,
        ) by {
            if i < lo {
                assert(v@[i] == before[i]);
            }
        }
        lo = hi;
    }
}

/// Replaces every nonzero element `v[i]` by `coeff / v[i]`, leaving zeros as they are,
/// on the calling thread. A caller with worker threads can hand each one a chunk of
/// its own through `batch_inversion_and_mul_chunked`'s rule: the result is the same.
pub fn batch_inversion_and_mul<F: Field>(v: &mut Vec<F>, coeff: &F)
    requires
        all_wf(old(v)@),
        coeff.wf(),
    ensures
        final(v)@.len() == old(v)@.len(),
        forall|i: int|
            0 <= i < old(v)@.len() ==> inverted_and_scaled(old(v)@[i], #[trigger] final(v)@[i], *coeff),
{
    serial_batch_inversion_and_mul(v, coeff);
}

/// Replaces every nonzero element of `v` by its inverse, leaving zeros as they are.
pub fn batch_inversion<F: Field>(v: &mut Vec<F>)
    requires
        all_wf(old(v)@),
    ensures
        final(v)@.len() == old(v)@.len(),
        forall|i: int|
            0 <= i < old(v)@.len() ==> inverted_and_scaled(
                old(v)@[i],
                #[trigger] final(v)@[i],
                F::one_spec(),
            ),
{
    proof {
        F::lemma_constants();
    }
    let one = F::one();
    batch_inversion_and_mul(v, &one);
}

/// At a nonzero position, batch inversion scaled by `c` puts `c * x^(-1)`: for
/// `x` with inverse `inv`, the entry is `c * inv`.
pub proof fn law_batch_entry_is_scaled_inverse<F: Field>(x: F, new: F, c: F, inv: F)
    requires
        x.wf(),
        c.wf(),
        inv.wf(),
        x != F::zero_spec(),
        F::mul_spec(x, inv) == F::one_spec(),
        inverted_and_scaled(x, new, c),
    ensures
        new == F::mul_spec(c, inv),
{
    F::lemma_closed(c, inv);
    F::lemma_mul_assoc(c, inv, x);
    F::lemma_mul_comm(inv, x);
    F::lemma_mul_one(c);
    F::lemma_mul_cancel(x, new, F::mul_spec(c, inv));
}

/// The result of batch inversion is determined by its input: any two results
/// (of the serial run, or of chunked runs with any chunk sizes) are equal.
pub proof fn law_batch_result_unique<F: Field>(v: Seq<F>, r1: Seq<F>, r2: Seq<F>, c: F)
    requires
        all_wf(v),
        c.wf(),
        r1.len() == v.len(),
        r2.len() == v.len(),
        forall|i: int| 0 <= i < v.len() ==> inverted_and_scaled(v[i], #[trigger] r1[i], c),
        forall|i: int| 0 <= i < v.len() ==> inverted_and_scaled(v[i], #[trigger] r2[i], c),
    ensures
        r1 == r2,
{
    assert forall|i: int| 0 <= i < v.len() implies r1[i] == r2[i] by {
        assert(inverted_and_scaled(v[i], r1[i], c));
        assert(inverted_and_scaled(v[i], r2[i], c));
        if v[i] != F::zero_spec() {
            F::lemma_mul_cancel(v[i], r1[i], r2[i]);
        }
    }
    assert(r1 =~= r2);
}

} // verus!
