//! A row of buckets seen as one collection: what it holds, and how many
//! values stand before each bucket.

use crate::bucket::Bucket;
use vstd::prelude::*;
use vstd::seq_lib::lemma_multiset_commutative;

verus! {

/// The contents of the buckets, one bucket after the other.
pub open spec fn gathered<T: Ord + Clone>(row: Seq<Bucket<T>>) -> Seq<T>
    decreases row.len(),
{
    if row.len() == 0 {
        Seq::empty()
    } else {
        row.first()@ + gathered(row.drop_first())
    }
}

/// The sum of the sizes of the buckets.
#[verifier::opaque]
pub open spec fn total_size<T: Ord + Clone>(row: Seq<Bucket<T>>) -> nat
    decreases row.len(),
{
    if row.len() == 0 {
        0
    } else {
        total_size(row.drop_last()) + row.last()@.len()
    }
}

/// The number of values in the buckets before bucket `i`.
pub open spec fn size_before<T: Ord + Clone>(row: Seq<Bucket<T>>, i: int) -> nat {
    total_size(row.take(i))
}

/// The sizes of the buckets of a row, in the order of the row.
pub open spec fn sizes<T: Ord + Clone>(row: Seq<Bucket<T>>) -> Seq<nat> {
    Seq::new(row.len(), |i: int| row[i]@.len())
}

/// The bounds of the buckets, in the order of the row.
pub open spec fn bounds<T: Ord + Clone>(row: Seq<Bucket<T>>) -> Seq<T> {
    Seq::new(row.len(), |i: int| row[i].bound())
}

/// Gathering two rows laid end to end gives the two gatherings end to end.
pub proof fn lemma_gathered_concat<T: Ord + Clone>(a: Seq<Bucket<T>>, b: Seq<Bucket<T>>)
    ensures
        gathered(a + b) == gathered(a) + gathered(b),
    decreases a.len(),
{
    if a.len() == 0 {
        assert(a + b =~= b);
        assert(gathered(a) + gathered(b) =~= gathered(b));
    } else {
        lemma_gathered_concat(a.drop_first(), b);
        assert((a + b).drop_first() =~= a.drop_first() + b);
        assert(gathered(a + b) =~= gathered(a) + gathered(b));
    }
}

/// The gathering of a row, cut at bucket `j`.
pub proof fn lemma_gathered_around<T: Ord + Clone>(row: Seq<Bucket<T>>, j: int)
    requires
        0 <= j < row.len(),
    ensures
        gathered(row) == gathered(row.take(j)) + row[j]@ + gathered(row.skip(j + 1)),
{
    let rest = row.skip(j);
    assert(row =~= row.take(j) + rest);
    lemma_gathered_concat(row.take(j), rest);
    assert(rest.first() == row[j]);
    assert(rest.drop_first() =~= row.skip(j + 1));
    assert(gathered(row) =~= gathered(row.take(j)) + row[j]@ + gathered(row.skip(j + 1)));
}

/// A row of one bucket gathers the contents of that bucket.
pub proof fn lemma_gathered_single<T: Ord + Clone>(b: Bucket<T>)
    ensures
        gathered(seq![b]) == b@,
        size_before(seq![b], 0) == 0,
{
    let row = seq![b];
    assert(gathered(row.drop_first()) =~= Seq::<T>::empty());
    assert(gathered(row) =~= b@);
    lemma_size_before_none(row);
}

/// The gathering of a row has as many values as the sizes of its buckets sum
/// to.
pub proof fn lemma_gathered_len<T: Ord + Clone>(row: Seq<Bucket<T>>)
    ensures
        gathered(row).len() == total_size(row),
    decreases row.len(),
{
    reveal(total_size);
    if row.len() > 0 {
        let front = row.drop_last();
        lemma_gathered_len(front);
        assert(row =~= front + seq![row.last()]);
        lemma_gathered_concat(front, seq![row.last()]);
        let single = seq![row.last()];
        assert(gathered(single.drop_first()) =~= Seq::<T>::empty());
        assert(gathered(single) =~= row.last()@);
    }
}

/// No value stands before the first bucket.
pub proof fn lemma_size_before_none<T: Ord + Clone>(row: Seq<Bucket<T>>)
    ensures
        size_before(row, 0) == 0,
{
    reveal(total_size);
    assert(row.take(0).len() == 0);
}

/// One bucket more before the position means that bucket's size more.
pub proof fn lemma_size_before_step<T: Ord + Clone>(row: Seq<Bucket<T>>, i: int)
    requires
        0 <= i < row.len(),
    ensures
        size_before(row, i + 1) == size_before(row, i) + row[i]@.len(),
        size_before(row, 0) == 0,
{
    reveal(total_size);
    lemma_size_before_none(row);
    assert(row.take(i + 1).drop_last() =~= row.take(i));
    assert(row.take(i + 1).last() == row[i]);
}

/// The number of values before a position grows with the position.
pub proof fn lemma_size_before_monotone<T: Ord + Clone>(row: Seq<Bucket<T>>, i: int, j: int)
    requires
        0 <= i <= j <= row.len(),
    ensures
        size_before(row, i) <= size_before(row, j),
        size_before(row, row.len() as int) == total_size(row),
    decreases j - i,
{
    assert(row.take(row.len() as int) =~= row);
    if i < j {
        lemma_size_before_step(row, i);
        lemma_size_before_monotone(row, i + 1, j);
    }
}

/// Every value of the gathering stands in one of the buckets.
pub proof fn lemma_gathered_member<T: Ord + Clone>(row: Seq<Bucket<T>>, p: int) -> (at: (int, int))
    requires
        0 <= p < gathered(row).len(),
    ensures
        0 <= at.0 < row.len(),
        0 <= at.1 < row[at.0]@.len(),
        gathered(row)[p] == row[at.0]@[at.1],
    decreases row.len(),
{
    if p < row.first()@.len() {
        (0, p)
    } else {
        let rest = row.drop_first();
        let inner = lemma_gathered_member(rest, p - row.first()@.len());
        (inner.0 + 1, inner.1)
    }
}

/// What the row gathers, and how many values stand before each position, once
/// bucket `j` has been replaced by `b`.
pub proof fn lemma_replace_bucket<T: Ord + Clone>(row: Seq<Bucket<T>>, j: int, b: Bucket<T>)
    requires
        0 <= j < row.len(),
    ensures
        gathered(row.update(j, b)) == gathered(row.take(j)) + b@ + gathered(row.skip(j + 1)),
        gathered(row) == gathered(row.take(j)) + row[j]@ + gathered(row.skip(j + 1)),
        forall|i: int|
            0 <= i <= j ==> #[trigger] size_before(row.update(j, b), i) == size_before(row, i),
        forall|i: int|
            j < i <= row.len() ==> #[trigger] size_before(row.update(j, b), i) + row[j]@.len()
                == size_before(row, i) + b@.len(),
{
    let changed = row.update(j, b);
    lemma_gathered_around(row, j);
    lemma_gathered_around(changed, j);
    assert(changed.take(j) =~= row.take(j));
    assert(changed.skip(j + 1) =~= row.skip(j + 1));
    assert forall|i: int| 0 <= i <= j implies #[trigger] size_before(changed, i) == size_before(
        row,
        i,
    ) by {
        assert(changed.take(i) =~= row.take(i));
    }
    assert forall|i: int| j < i <= row.len() implies #[trigger] size_before(changed, i)
        + row[j]@.len() == size_before(row, i) + b@.len() by {
        let front = row.take(i);
        let changed_front = changed.take(i);
        assert(changed_front =~= front.update(j, b));
        lemma_gathered_around(front, j);
        lemma_gathered_around(changed_front, j);
        assert(changed_front.take(j) =~= front.take(j));
        assert(changed_front.skip(j + 1) =~= front.skip(j + 1));
        lemma_gathered_len(front);
        lemma_gathered_len(changed_front);
    }
}

/// Appending a value to bucket `j` adds that value to what the row gathers.
pub proof fn lemma_push_into_bucket<T: Ord + Clone>(
    row: Seq<Bucket<T>>,
    j: int,
    b: Bucket<T>,
    v: T,
)
    requires
        0 <= j < row.len(),
        b@ == row[j]@.push(v),
    ensures
        gathered(row.update(j, b)).to_multiset() == gathered(row).to_multiset().insert(v),
{
    lemma_replace_bucket(row, j, b);
    let before = gathered(row.take(j));
    let after = gathered(row.skip(j + 1));
    lemma_multiset_commutative(before, row[j]@);
    lemma_multiset_commutative(before + row[j]@, after);
    lemma_multiset_commutative(before, b@);
    lemma_multiset_commutative(before + b@, after);
    row[j]@.to_multiset_ensures();
    assert(gathered(row.update(j, b)).to_multiset() =~= gathered(row).to_multiset().insert(v));
}

/// Rearranging the values of bucket `j` leaves what the row gathers the same,
/// up to order.
pub proof fn lemma_rearrange_bucket<T: Ord + Clone>(row: Seq<Bucket<T>>, j: int, b: Bucket<T>)
    requires
        0 <= j < row.len(),
        b@.to_multiset() == row[j]@.to_multiset(),
    ensures
        gathered(row.update(j, b)).to_multiset() == gathered(row).to_multiset(),
        forall|i: int|
            0 <= i <= row.len() ==> #[trigger] size_before(row.update(j, b), i) == size_before(
                row,
                i,
            ),
{
    lemma_replace_bucket(row, j, b);
    let before = gathered(row.take(j));
    let after = gathered(row.skip(j + 1));
    lemma_multiset_commutative(before, row[j]@);
    lemma_multiset_commutative(before + row[j]@, after);
    lemma_multiset_commutative(before, b@);
    lemma_multiset_commutative(before + b@, after);
    row[j]@.to_multiset_ensures();
    b@.to_multiset_ensures();
    assert(gathered(row.update(j, b)).to_multiset() =~= gathered(row).to_multiset());
}

/// Splitting bucket `j` into `lower`, which takes its place, and `upper`,
/// which follows it, leaves what the row gathers the same, up to order.
pub proof fn lemma_split_bucket<T: Ord + Clone>(
    row: Seq<Bucket<T>>,
    j: int,
    lower: Bucket<T>,
    upper: Bucket<T>,
)
    requires
        0 <= j < row.len(),
        (lower@ + upper@).to_multiset() == row[j]@.to_multiset(),
    ensures
        gathered(row.update(j, lower).insert(j + 1, upper)).to_multiset() == gathered(
            row,
        ).to_multiset(),
        forall|i: int|
            0 <= i <= j ==> #[trigger] size_before(row.update(j, lower).insert(j + 1, upper), i)
                == size_before(row, i),
        size_before(row.update(j, lower).insert(j + 1, upper), j + 1) == size_before(row, j)
            + lower@.len(),
{
    let changed = row.update(j, lower).insert(j + 1, upper);
    let before = gathered(row.take(j));
    let after = gathered(row.skip(j + 1));
    lemma_gathered_around(row, j);
    lemma_gathered_around(changed, j);
    lemma_gathered_around(changed, j + 1);
    assert(changed.take(j) =~= row.take(j));
    assert(changed.skip(j + 2) =~= row.skip(j + 1));
    let tail = changed.skip(j + 1);
    assert(tail.first() == upper);
    assert(tail.drop_first() =~= changed.skip(j + 2));
    assert(gathered(changed) =~= before + (lower@ + upper@) + after);
    lemma_multiset_commutative(before, row[j]@);
    lemma_multiset_commutative(before + row[j]@, after);
    lemma_multiset_commutative(before, lower@ + upper@);
    lemma_multiset_commutative(before + (lower@ + upper@), after);
    assert(gathered(changed).to_multiset() =~= gathered(row).to_multiset());
    assert forall|i: int| 0 <= i <= j implies #[trigger] size_before(changed, i) == size_before(
        row,
        i,
    ) by {
        assert(changed.take(i) =~= row.take(i));
    }
    lemma_size_before_step(changed, j);
}

/// After bucket `j` has been split in two, as many values as before stand
/// before each bucket that follows the two.
pub proof fn lemma_size_before_past_split<T: Ord + Clone>(
    row: Seq<Bucket<T>>,
    j: int,
    lower: Bucket<T>,
    upper: Bucket<T>,
    i: int,
)
    requires
        0 <= j < i <= row.len(),
        lower@.len() + upper@.len() == row[j]@.len(),
    ensures
        size_before(row.update(j, lower).insert(j + 1, upper), i + 1) == size_before(row, i),
    decreases i,
{
    let changed = row.update(j, lower).insert(j + 1, upper);
    lemma_size_before_step(changed, i);
    lemma_size_before_step(row, i - 1);
    if i == j + 1 {
        lemma_size_before_step(changed, j);
        assert(changed.take(j) =~= row.take(j));
    } else {
        lemma_size_before_past_split(row, j, lower, upper, i - 1);
    }
}

/// How many values stand before each bucket once bucket `j` has been split in
/// two: as many as before up to the first of the two, the size of the first
/// more before the second, and as many as stood before the bucket that was
/// one place further down before any later one.
pub proof fn lemma_size_before_split<T: Ord + Clone>(
    row: Seq<Bucket<T>>,
    j: int,
    lower: Bucket<T>,
    upper: Bucket<T>,
    k: int,
)
    requires
        0 <= j < row.len(),
        0 <= k <= row.len() + 1,
        lower@.len() + upper@.len() == row[j]@.len(),
    ensures
        size_before(row.update(j, lower).insert(j + 1, upper), k) == if k <= j {
            size_before(row, k)
        } else if k == j + 1 {
            size_before(row, j) + lower@.len()
        } else {
            size_before(row, k - 1)
        },
{
    let changed = row.update(j, lower).insert(j + 1, upper);
    if k <= j {
        assert(changed.take(k) =~= row.take(k));
    } else if k == j + 1 {
        assert(changed.take(j) =~= row.take(j));
        lemma_size_before_step(changed, j);
    } else {
        lemma_size_before_past_split(row, j, lower, upper, k - 1);
    }
}

/// What a row gathers holds a value at least as often as one of its buckets
/// does.
pub proof fn lemma_count_in_bucket<T: Ord + Clone>(row: Seq<Bucket<T>>, j: int, c: T)
    requires
        0 <= j < row.len(),
    ensures
        gathered(row).to_multiset().count(c) >= row[j]@.to_multiset().count(c),
{
    lemma_gathered_around(row, j);
    let before = gathered(row.take(j));
    let after = gathered(row.skip(j + 1));
    lemma_multiset_commutative(before, row[j]@);
    lemma_multiset_commutative(before + row[j]@, after);
}

/// Unless it is alone in the row, every bucket holds at least `least` values.
pub open spec fn filled<T: Ord + Clone>(row: Seq<Bucket<T>>, least: nat) -> bool {
    row.len() > 1 ==> forall|i: int| 0 <= i < row.len() ==> (#[trigger] row[i])@.len() >= least
}

/// A row stays filled when a bucket is replaced by one that is no smaller.
pub proof fn lemma_filled_after_replace<T: Ord + Clone>(
    row: Seq<Bucket<T>>,
    j: int,
    b: Bucket<T>,
    least: nat,
)
    requires
        filled(row, least),
        0 <= j < row.len(),
        b@.len() >= row[j]@.len(),
    ensures
        filled(row.update(j, b), least),
{
    let changed = row.update(j, b);
    if changed.len() > 1 {
        assert forall|i: int| 0 <= i < changed.len() implies (#[trigger] changed[i])@.len()
            >= least by {
            assert(row[i]@.len() >= least);
        }
    }
}

/// A row stays filled when a bucket is split into two that each hold the
/// least number of values.
pub proof fn lemma_filled_after_split<T: Ord + Clone>(
    row: Seq<Bucket<T>>,
    j: int,
    lower: Bucket<T>,
    upper: Bucket<T>,
    least: nat,
)
    requires
        filled(row, least),
        0 <= j < row.len(),
        lower@.len() >= least,
        upper@.len() >= least,
    ensures
        filled(row.update(j, lower).insert(j + 1, upper), least),
{
    let changed = row.update(j, lower).insert(j + 1, upper);
    assert forall|i: int| 0 <= i < changed.len() implies (#[trigger] changed[i])@.len()
        >= least by {
        if i < j {
            assert(row[i]@.len() >= least);
        } else if i > j + 1 {
            assert(row[i - 1]@.len() >= least);
        }
    }
}

/// In a filled row of more than one bucket, at least `least` values for each
/// bucket before it stand before a bucket.
pub proof fn lemma_filled_size_before<T: Ord + Clone>(row: Seq<Bucket<T>>, i: int, least: nat)
    requires
        filled(row, least),
        row.len() > 1,
        0 <= i <= row.len(),
    ensures
        size_before(row, i) >= least * i,
    decreases i,
{
    if i > 0 {
        lemma_filled_size_before(row, i - 1, least);
        lemma_size_before_step(row, i - 1);
        assert(row[i - 1]@.len() >= least);
        assert(least * i == least * (i - 1) + least) by (nonlinear_arith);
    } else {
        assert(least * i == 0) by (nonlinear_arith)
            requires
                i == 0,
        ;
    }
}

} // verus!
