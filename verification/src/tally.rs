//! Counting the `true` entries of a bitmap.

use vstd::prelude::*;

verus! {

/// How many entries of `bits` are `true`.
pub open spec fn count_true(bits: Seq<bool>) -> nat
    decreases bits.len(),
{
    if bits.len() == 0 {
        0
    } else {
        count_true(bits.drop_last()) + if bits.last() { 1nat } else { 0nat }
    }
}

/// A bitmap holds at most as many `true` entries as it has entries.
pub proof fn lemma_count_bound(bits: Seq<bool>)
    ensures
        count_true(bits) <= bits.len(),
    decreases bits.len(),
{
    if bits.len() > 0 {
        lemma_count_bound(bits.drop_last());
    }
}

/// Setting one `false` entry to `true` adds exactly one to the count.
pub proof fn lemma_count_set(bits: Seq<bool>, i: int)
    requires
        0 <= i < bits.len(),
    ensures
        !bits[i] ==> count_true(bits.update(i, true)) == count_true(bits) + 1,
        bits[i] ==> bits.update(i, true) == bits,
    decreases bits.len(),
{
    let set = bits.update(i, true);
    if bits[i] {
        assert(set =~= bits);
    } else if i == bits.len() - 1 {
        assert(set.drop_last() =~= bits.drop_last());
    } else {
        lemma_count_set(bits.drop_last(), i);
        assert(set.drop_last() =~= bits.drop_last().update(i, true));
    }
}

/// Counts grow with the set of `true` entries.
pub proof fn lemma_count_monotone(a: Seq<bool>, b: Seq<bool>)
    requires
        a.len() == b.len(),
        forall|i: int| 0 <= i < a.len() && #[trigger] a[i] ==> b[i],
    ensures
        count_true(a) <= count_true(b),
    decreases a.len(),
{
    if a.len() > 0 {
        assert forall|i: int| 0 <= i < a.drop_last().len() && #[trigger] a.drop_last()[i] implies b.drop_last()[i] by {
            assert(a[i]);
        }
        lemma_count_monotone(a.drop_last(), b.drop_last());
        if a.last() {
            assert(a[a.len() - 1]);
        }
    }
}

/// An all-`false` bitmap counts zero.
pub proof fn lemma_count_none(bits: Seq<bool>)
    requires
        forall|i: int| 0 <= i < bits.len() ==> !#[trigger] bits[i],
    ensures
        count_true(bits) == 0,
    decreases bits.len(),
{
    if bits.len() > 0 {
        assert forall|i: int| 0 <= i < bits.drop_last().len() implies !#[trigger] bits.drop_last()[i] by {
            assert(!bits[i]);
        }
        lemma_count_none(bits.drop_last());
    }
}

/// Counts the `true` entries of `bits`.
pub fn count_set(bits: &Vec<bool>) -> (count: usize)
    ensures
        count == count_true(bits@),
{
    let mut count: usize = 0;
    for i in 0..bits.len()
        invariant
            count == count_true(bits@.take(i as int)),
            count <= i,
    {
        assert(bits@.take(i + 1).drop_last() =~= bits@.take(i as int));
        if bits[i] {
            count += 1;
        }
    }
    assert(bits@.take(bits@.len() as int) =~= bits@);
    count
}

/// Sets every entry of `bits` to `value`.
pub(crate) fn fill(bits: &mut Vec<bool>, value: bool)
    ensures
        final(bits)@ == Seq::new(old(bits)@.len(), |i: int| value),
{
    let n = bits.len();
    for i in 0..n
        invariant
            n == bits@.len() == old(bits)@.len(),
            forall|j: int| 0 <= j < i ==> bits@[j] == value,
    {
        bits[i] = value;
    }
    assert(bits@ =~= Seq::new(old(bits)@.len(), |i: int| value));
}

} // verus!
