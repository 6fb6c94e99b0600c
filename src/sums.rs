//! Weighted sums over sequences, and how they change under the edits the
//! book performs (insert, remove, update).

use vstd::prelude::*;

verus! {

/// The sum of the weights of the elements of `s`.
pub open spec fn wsum<T>(s: Seq<T>, w: spec_fn(T) -> nat) -> nat
    decreases s.len(),
{
    if s.len() == 0 {
        0
    } else {
        wsum(s.drop_last(), w) + w(s.last())
    }
}

pub proof fn lemma_wsum_concat<T>(a: Seq<T>, b: Seq<T>, w: spec_fn(T) -> nat)
    ensures
        wsum(a + b, w) == wsum(a, w) + wsum(b, w),
    decreases b.len(),
{
    if b.len() == 0 {
        assert(a + b =~= a);
    } else {
        lemma_wsum_concat(a, b.drop_last(), w);
        assert((a + b).drop_last() =~= a + b.drop_last());
    }
}

pub proof fn lemma_wsum_single<T>(x: T, w: spec_fn(T) -> nat)
    ensures
        wsum(seq![x], w) == w(x),
{
    assert(seq![x].drop_last() =~= Seq::<T>::empty());
    assert(wsum(seq![x].drop_last(), w) == 0);
    assert(seq![x].last() == x);
}

/// Splits a sum around position `i`.
pub proof fn lemma_wsum_split<T>(s: Seq<T>, i: int, w: spec_fn(T) -> nat)
    requires
        0 <= i < s.len(),
    ensures
        wsum(s, w) == wsum(s.subrange(0, i), w) + w(s[i]) + wsum(s.subrange(i + 1, s.len() as int), w),
{
    let a = s.subrange(0, i);
    let b = s.subrange(i + 1, s.len() as int);
    assert(s =~= a + seq![s[i]] + b);
    lemma_wsum_concat(a + seq![s[i]], b, w);
    lemma_wsum_concat(a, seq![s[i]], w);
    lemma_wsum_single(s[i], w);
}

pub proof fn lemma_wsum_insert<T>(s: Seq<T>, i: int, x: T, w: spec_fn(T) -> nat)
    requires
        0 <= i <= s.len(),
    ensures
        wsum(s.insert(i, x), w) == wsum(s, w) + w(x),
{
    let t = s.insert(i, x);
    lemma_wsum_split(t, i, w);
    assert(t.subrange(0, i) =~= s.subrange(0, i));
    assert(t.subrange(i + 1, t.len() as int) =~= s.subrange(i, s.len() as int));
    assert(s =~= s.subrange(0, i) + s.subrange(i, s.len() as int));
    lemma_wsum_concat(s.subrange(0, i), s.subrange(i, s.len() as int), w);
}

pub proof fn lemma_wsum_push<T>(s: Seq<T>, x: T, w: spec_fn(T) -> nat)
    ensures
        wsum(s.push(x), w) == wsum(s, w) + w(x),
{
    assert(s.push(x).drop_last() =~= s);
}

pub proof fn lemma_wsum_remove<T>(s: Seq<T>, i: int, w: spec_fn(T) -> nat)
    requires
        0 <= i < s.len(),
    ensures
        wsum(s.remove(i), w) + w(s[i]) == wsum(s, w),
{
    lemma_wsum_split(s, i, w);
    assert(s.remove(i) =~= s.subrange(0, i) + s.subrange(i + 1, s.len() as int));
    lemma_wsum_concat(s.subrange(0, i), s.subrange(i + 1, s.len() as int), w);
}

pub proof fn lemma_wsum_update<T>(s: Seq<T>, i: int, x: T, w: spec_fn(T) -> nat)
    requires
        0 <= i < s.len(),
    ensures
        wsum(s.update(i, x), w) + w(s[i]) == wsum(s, w) + w(x),
{
    let t = s.update(i, x);
    lemma_wsum_split(s, i, w);
    lemma_wsum_split(t, i, w);
    assert(t.subrange(0, i) =~= s.subrange(0, i));
    assert(t.subrange(i + 1, t.len() as int) =~= s.subrange(i + 1, s.len() as int));
}

/// One element weighs no more than the whole sequence.
pub proof fn lemma_wsum_ge<T>(s: Seq<T>, i: int, w: spec_fn(T) -> nat)
    requires
        0 <= i < s.len(),
    ensures
        w(s[i]) <= wsum(s, w),
{
    lemma_wsum_split(s, i, w);
}

pub proof fn lemma_wsum_zero<T>(s: Seq<T>, w: spec_fn(T) -> nat)
    requires
        forall|i: int| 0 <= i < s.len() ==> w(#[trigger] s[i]) == 0,
    ensures
        wsum(s, w) == 0,
    decreases s.len(),
{
    if s.len() > 0 {
        assert forall|i: int| 0 <= i < s.drop_last().len() implies w(#[trigger] s.drop_last()[i]) == 0 by {
            assert(s.drop_last()[i] == s[i]);
        }
        lemma_wsum_zero(s.drop_last(), w);
        assert(w(s[s.len() - 1]) == 0);
    }
}

/// A weight that is pointwise smaller gives a smaller sum.
pub proof fn lemma_wsum_le<T>(s: Seq<T>, v: spec_fn(T) -> nat, w: spec_fn(T) -> nat)
    requires
        forall|x: T| #[trigger] v(x) <= w(x),
    ensures
        wsum(s, v) <= wsum(s, w),
    decreases s.len(),
{
    if s.len() > 0 {
        lemma_wsum_le(s.drop_last(), v, w);
        assert(v(s.last()) <= w(s.last()));
    }
}

/// A prefix weighs no more than the whole sequence.
pub proof fn lemma_wsum_prefix<T>(s: Seq<T>, i: int, w: spec_fn(T) -> nat)
    requires
        0 <= i <= s.len(),
    ensures
        wsum(s.subrange(0, i), w) <= wsum(s, w),
{
    assert(s =~= s.subrange(0, i) + s.subrange(i, s.len() as int));
    lemma_wsum_concat(s.subrange(0, i), s.subrange(i, s.len() as int), w);
}

/// Extending a prefix by one element adds that element's weight.
pub proof fn lemma_wsum_prefix_step<T>(s: Seq<T>, i: int, w: spec_fn(T) -> nat)
    requires
        0 <= i < s.len(),
    ensures
        wsum(s.subrange(0, i + 1), w) == wsum(s.subrange(0, i), w) + w(s[i]),
{
    assert(s.subrange(0, i + 1).drop_last() =~= s.subrange(0, i));
}

} // verus!
