//! In-place ordering of a vector, done by the standard library's slice
//! algorithms, and what is known of a sequence once one position of it holds
//! the value that a full sort would put there.

use crate::order::{
    ascending, le, leq, lemma_leq_total_ordering, lemma_order_laws, sorted, total_order,
};
use vstd::prelude::*;
use vstd::seq_lib::{lemma_multiset_commutative, lemma_sorted_unique};

verus! {

/// Position `k` of `s` divides it: nothing before `k` is larger than `s[k]`,
/// and nothing after it is smaller.
pub open spec fn divided_at<T: Ord>(s: Seq<T>, k: int) -> bool {
    &&& 0 <= k < s.len()
    &&& forall|i: int| 0 <= i < k ==> le(#[trigger] s[i], s[k])
    &&& forall|j: int| k < j < s.len() ==> le(s[k], #[trigger] s[j])
}

/// Sorts `v` with `<[T]>::sort_unstable`.
///
/// Taken on trust from the standard library's documentation: afterwards the
/// vector holds the values it held before, each as often as before, in
/// ascending order. The standard library may panic when `Ord` is not a total
/// order, which the precondition rules out.
#[verifier::external_body]
pub(crate) fn sort_unstable<T: Ord>(v: &mut Vec<T>)
    requires
        total_order::<T>(),
    ensures
        final(v)@.to_multiset() == old(v)@.to_multiset(),
        ascending(final(v)@),
{
    v.sort_unstable();
}

/// Reorders `v` with `<[T]>::select_nth_unstable` so that position `index`
/// holds the value that a full sort would put there.
///
/// Taken on trust from the standard library's documentation: afterwards the
/// vector holds the values it held before, each as often as before; every
/// value before `index` is less than or equal to the one at `index`, and every
/// value after it is greater than or equal to it. The standard library panics
/// when `index` is not below the length, and may panic when `Ord` is not a
/// total order; the preconditions rule out both.
#[verifier::external_body]
pub(crate) fn select_nth_unstable<T: Ord>(v: &mut Vec<T>, index: usize)
    requires
        total_order::<T>(),
        index < old(v)@.len(),
    ensures
        final(v)@.to_multiset() == old(v)@.to_multiset(),
        divided_at(final(v)@, index as int),
{
    v.select_nth_unstable(index);
}

/// Every value of a sequence stands somewhere in each rearrangement of it.
pub proof fn lemma_rearranged_member<T>(s: Seq<T>, t: Seq<T>, x: int) -> (y: int)
    requires
        s.to_multiset() == t.to_multiset(),
        0 <= x < s.len(),
    ensures
        0 <= y < t.len(),
        t[y] == s[x],
{
    s.to_multiset_ensures();
    t.to_multiset_ensures();
    assert(s.contains(s[x]));
    assert(s.to_multiset().count(s[x]) > 0);
    assert(t.to_multiset().count(s[x]) > 0);
    assert(t.contains(s[x]));
    choose|y: int| 0 <= y < t.len() && t[y] == s[x]
}

/// A sequence that holds one value only holds it as often as it is long.
pub proof fn lemma_count_of_constant<T>(s: Seq<T>, c: T)
    requires
        forall|i: int| 0 <= i < s.len() ==> s[i] == c,
    ensures
        s.to_multiset().count(c) == s.len(),
    decreases s.len(),
{
    broadcast use vstd::seq_lib::group_to_multiset_ensures;

    if s.len() == 0 {
        assert(s.to_multiset().len() == 0);
        if s.to_multiset().count(c) > 0 {
            assert(s.contains(c));
        }
    } else {
        let front = s.drop_last();
        lemma_count_of_constant(front, c);
        assert(s =~= front.push(c));
    }
}

/// A sequence holds a value at least as often as a stretch of it that holds
/// nothing else is long.
pub proof fn lemma_count_of_run<T>(s: Seq<T>, from: int, to: int, c: T)
    requires
        0 <= from <= to <= s.len(),
        forall|i: int| from <= i < to ==> s[i] == c,
    ensures
        s.to_multiset().count(c) >= to - from,
{
    let run = s.subrange(from, to);
    let head = s.subrange(0, from);
    let tail = s.subrange(to, s.len() as int);
    assert(s =~= head + run + tail);
    lemma_multiset_commutative(head, run);
    lemma_multiset_commutative(head + run, tail);
    lemma_count_of_constant(run, c);
}

/// Two sequences that hold the same values, each as often, sort to the same
/// sequence.
pub proof fn lemma_sorted_of_rearranged<T: Ord>(s: Seq<T>, t: Seq<T>)
    requires
        total_order::<T>(),
        s.to_multiset() == t.to_multiset(),
    ensures
        sorted(s) == sorted(t),
        sorted(s).len() == s.len(),
        ascending(sorted(s)),
        sorted(s).to_multiset() == s.to_multiset(),
{
    lemma_leq_total_ordering::<T>();
    s.lemma_sort_by_ensures(leq::<T>());
    t.lemma_sort_by_ensures(leq::<T>());
    lemma_sorted_unique(sorted(s), sorted(t), leq::<T>());
    sorted(s).to_multiset_ensures();
    s.to_multiset_ensures();
}

/// A sequence in ascending order is its own sorted form.
pub proof fn lemma_sorted_of_ascending<T: Ord>(s: Seq<T>)
    requires
        total_order::<T>(),
        ascending(s),
    ensures
        sorted(s) == s,
{
    lemma_leq_total_ordering::<T>();
    s.lemma_sort_by_ensures(leq::<T>());
    lemma_sorted_unique(sorted(s), s, leq::<T>());
}

/// An ascending sequence that holds the values of `s`, each as often as `s`
/// holds it, is `s` sorted: there is no other.
pub proof fn lemma_sorted_is_the_ascending_rearrangement<T: Ord>(s: Seq<T>, t: Seq<T>)
    requires
        total_order::<T>(),
        ascending(t),
        t.to_multiset() == s.to_multiset(),
    ensures
        sorted(s) == t,
{
    lemma_sorted_of_rearranged(s, t);
    lemma_sorted_of_ascending(t);
}

/// Sorting twice gives what sorting once gives.
pub proof fn lemma_sorted_idempotent<T: Ord>(s: Seq<T>)
    requires
        total_order::<T>(),
    ensures
        sorted(sorted(s)) == sorted(s),
{
    lemma_sorted_of_rearranged(s, s);
    lemma_sorted_of_ascending(sorted(s));
}

/// A position that divides a sequence holds the value that sorting the
/// sequence puts at that position.
pub proof fn lemma_divided_position_is_sorted_position<T: Ord>(s: Seq<T>, k: int)
    requires
        total_order::<T>(),
        divided_at(s, k),
    ensures
        sorted(s).len() == s.len(),
        sorted(s)[k] == s[k],
{
    lemma_leq_total_ordering::<T>();
    lemma_order_laws::<T>();
    let left = s.subrange(0, k);
    let right = s.subrange(k + 1, s.len() as int);
    let low = sorted(left);
    let high = sorted(right);
    lemma_sorted_of_rearranged(left, left);
    lemma_sorted_of_rearranged(right, right);
    left.lemma_sort_by_ensures(leq::<T>());
    right.lemma_sort_by_ensures(leq::<T>());
    let c = low + seq![s[k]] + high;
    assert(s =~= left + seq![s[k]] + right);
    lemma_multiset_commutative(left, seq![s[k]]);
    lemma_multiset_commutative(left + seq![s[k]], right);
    lemma_multiset_commutative(low, seq![s[k]]);
    lemma_multiset_commutative(low + seq![s[k]], high);
    assert(c.to_multiset() =~= s.to_multiset());
    assert forall|i: int| 0 <= i < low.len() implies le(#[trigger] low[i], s[k]) by {
        assert(low.contains(low[i]));
        assert(left.contains(low[i]));
        let w = choose|w: int| 0 <= w < left.len() && left[w] == low[i];
        assert(le(s[w], s[k]));
    }
    assert forall|j: int| 0 <= j < high.len() implies le(s[k], #[trigger] high[j]) by {
        assert(high.contains(high[j]));
        assert(right.contains(high[j]));
        let w = choose|w: int| 0 <= w < right.len() && right[w] == high[j];
        assert(le(s[k], s[k + 1 + w]));
    }
    assert forall|i: int, j: int| 0 <= i < j < c.len() implies #[trigger] leq::<T>()(
        c[i],
        c[j],
    ) by {
        if j < k {
            assert(leq::<T>()(low[i], low[j]));
        } else if j == k {
            assert(le(low[i], s[k]));
        } else if i < k {
            assert(le(low[i], s[k]));
            assert(le(s[k], high[j - k - 1]));
        } else if i == k {
            assert(le(s[k], high[j - k - 1]));
        } else {
            assert(leq::<T>()(high[i - k - 1], high[j - k - 1]));
        }
    }
    lemma_sorted_of_rearranged(s, c);
    lemma_sorted_of_ascending(c);
}

/// Where nothing before position `k` is larger than anything from `k` on,
/// sorting the sequence is sorting the two parts, each for itself.
pub proof fn lemma_sorted_of_two_parts<T: Ord>(s: Seq<T>, k: int)
    requires
        total_order::<T>(),
        0 <= k <= s.len(),
        forall|i: int, j: int| 0 <= i < k <= j < s.len() ==> le(#[trigger] s[i], #[trigger] s[j]),
    ensures
        sorted(s) == sorted(s.take(k)) + sorted(s.skip(k)),
        sorted(s.take(k)).len() == k,
{
    lemma_leq_total_ordering::<T>();
    let left = s.take(k);
    let right = s.skip(k);
    let low = sorted(left);
    let high = sorted(right);
    lemma_sorted_of_rearranged(left, left);
    lemma_sorted_of_rearranged(right, right);
    let c = low + high;
    assert(s =~= left + right);
    lemma_multiset_commutative(left, right);
    lemma_multiset_commutative(low, high);
    assert forall|i: int, j: int| 0 <= i < j < c.len() implies #[trigger] leq::<T>()(
        c[i],
        c[j],
    ) by {
        if j < k {
            assert(leq::<T>()(low[i], low[j]));
        } else if i >= k {
            assert(leq::<T>()(high[i - k], high[j - k]));
        } else {
            let x = lemma_rearranged_member(low, left, i);
            let y = lemma_rearranged_member(high, right, j - k);
            assert(le(s[x], s[k + y]));
        }
    }
    lemma_sorted_of_rearranged(s, c);
    lemma_sorted_of_ascending(c);
}

/// Sorting keeps the length.
pub proof fn lemma_sorted_len<T: Ord>(s: Seq<T>)
    requires
        total_order::<T>(),
    ensures
        sorted(s).len() == s.len(),
{
    lemma_sorted_of_rearranged(s, s);
}

/// A stretch of a sequence that is two sequences laid end to end is cut into
/// the two where the first of them ends.
pub proof fn lemma_stretch_cut<T>(whole: Seq<T>, from: int, cut: int, to: int, a: Seq<T>, b: Seq<T>)
    requires
        0 <= from <= cut <= to <= whole.len(),
        whole.subrange(from, to) == a + b,
        a.len() == cut - from,
    ensures
        a == whole.subrange(from, cut),
        b == whole.subrange(cut, to),
{
    let stretch = whole.subrange(from, to);
    assert(stretch.len() == to - from);
    assert((a + b).len() == a.len() + b.len());
    assert(b.len() == to - cut);
    assert forall|i: int| 0 <= i < a.len() implies a[i] == whole.subrange(from, cut)[i] by {
        assert(stretch[i] == (a + b)[i]);
    }
    assert forall|i: int| 0 <= i < b.len() implies b[i] == whole.subrange(cut, to)[i] by {
        assert((a + b)[a.len() + i] == b[i]);
        assert(stretch[a.len() + i] == whole[cut + i]);
    }
    assert(a =~= whole.subrange(from, cut));
    assert(b =~= whole.subrange(cut, to));
}

/// The least value of a sequence comes first when the sequence is sorted.
pub proof fn lemma_least_is_first_sorted<T: Ord>(s: Seq<T>, least: T)
    requires
        total_order::<T>(),
        s.contains(least),
        forall|i: int| 0 <= i < s.len() ==> le(least, #[trigger] s[i]),
    ensures
        s.len() > 0,
        sorted(s)[0] == least,
{
    lemma_order_laws::<T>();
    lemma_sorted_of_rearranged(s, s);
    let t = sorted(s);
    let at = choose|i: int| 0 <= i < s.len() && s[i] == least;
    let y = lemma_rearranged_member(s, t, at);
    let x = lemma_rearranged_member(t, s, 0);
    assert(le(least, s[x]));
    if y > 0 {
        assert(leq::<T>()(t[0], t[y]));
    }
}

} // verus!
