//! How a row changes when the bucket that holds a wanted value is split until
//! the part that holds the value is small enough: which buckets stay as they
//! are, and which sizes the parts have.

use crate::bucket::Bucket;
use crate::order::{sorted, total_order};
use crate::row::{
    lemma_rearrange_bucket, lemma_size_before_monotone, lemma_size_before_split,
    lemma_size_before_step, size_before, sizes,
};
use crate::sorting::{lemma_sorted_len, lemma_sorted_of_rearranged, lemma_stretch_cut};
use vstd::prelude::*;

verus! {

/// `row` is `start` with bucket `a` split into one bucket or more: the
/// buckets before it and after it are as they were, in the same order, and
/// none of the buckets that stand in its place is larger than it was.
#[verifier::opaque]
pub open spec fn split_of<T: Ord + Clone>(
    row: Seq<Bucket<T>>,
    start: Seq<Bucket<T>>,
    a: int,
) -> bool {
    let grown = row.len() - start.len();
    &&& 0 <= a < start.len()
    &&& grown >= 0
    &&& forall|i: int| 0 <= i < a ==> #[trigger] row[i] == start[i]
    &&& forall|i: int| a < i < start.len() ==> row[i + grown] == #[trigger] start[i]
    &&& forall|i: int| a <= i <= a + grown ==> (#[trigger] row[i])@.len() <= start[a]@.len()
}

/// The sizes of the buckets that a bucket of `n` values becomes when it is
/// split in halves, `n / 2` values below and the others above, and the half
/// that holds position `r` is split on, until that half has at most `limit`
/// values.
pub open spec fn piece_sizes(n: nat, r: nat, limit: nat) -> Seq<nat>
    decreases n,
{
    if n <= limit || n < 2 {
        seq![n]
    } else if r >= n / 2 {
        seq![n / 2] + piece_sizes((n - n / 2) as nat, (r - n / 2) as nat, limit)
    } else {
        piece_sizes(n / 2, r, limit) + seq![(n - n / 2) as nat]
    }
}

/// The buckets `from` to `to` of the row are such that, when the first `t` of
/// them and the last ones are left as they are, and bucket `from + t`, with
/// the wanted value at its position `r`, is split until the half that holds
/// the wanted value has at most `limit` values, their sizes are `goal`.
#[verifier::opaque]
pub open spec fn splitting_toward<T: Ord + Clone>(
    row: Seq<Bucket<T>>,
    from: int,
    to: int,
    t: int,
    r: nat,
    limit: nat,
    goal: Seq<nat>,
) -> bool {
    let now = sizes(row.subrange(from, to + 1));
    &&& 0 <= from <= from + t <= to < row.len()
    &&& now.take(t) + piece_sizes(now[t], r, limit) + now.skip(t + 1) == goal
}

/// A row is itself with any one bucket split into that one bucket.
pub proof fn lemma_split_of_itself<T: Ord + Clone>(start: Seq<Bucket<T>>, a: int)
    requires
        0 <= a < start.len(),
    ensures
        split_of(start, start, a),
{
    reveal(split_of);
}

/// Replacing one of the buckets that stand in the place of bucket `a` by one
/// that is no larger keeps the row a split of `start`.
pub proof fn lemma_split_of_replaced<T: Ord + Clone>(
    row: Seq<Bucket<T>>,
    start: Seq<Bucket<T>>,
    a: int,
    j: int,
    b: Bucket<T>,
)
    requires
        split_of(row, start, a),
        a <= j <= a + (row.len() - start.len()),
        b@.len() <= row[j]@.len(),
    ensures
        split_of(row.update(j, b), start, a),
{
    reveal(split_of);
    let changed = row.update(j, b);
    assert forall|i: int| a <= i <= a + (row.len() - start.len()) implies (
    #[trigger] changed[i])@.len() <= start[a]@.len() by {
        assert(row[i]@.len() <= start[a]@.len());
        assert(row[j]@.len() <= start[a]@.len());
    }
}

/// Splitting one of the buckets that stand in the place of bucket `a` into
/// two that are no larger keeps the row a split of `start`.
pub proof fn lemma_split_of_split<T: Ord + Clone>(
    row: Seq<Bucket<T>>,
    start: Seq<Bucket<T>>,
    a: int,
    j: int,
    lower: Bucket<T>,
    upper: Bucket<T>,
)
    requires
        split_of(row, start, a),
        a <= j <= a + (row.len() - start.len()),
        lower@.len() <= row[j]@.len(),
        upper@.len() <= row[j]@.len(),
    ensures
        split_of(row.update(j, lower).insert(j + 1, upper), start, a),
{
    reveal(split_of);
    let changed = row.update(j, lower).insert(j + 1, upper);
    let grown = row.len() - start.len();
    assert(row[j]@.len() <= start[a]@.len());
    assert forall|i: int| a < i < start.len() implies changed[i + (grown + 1)]
        == #[trigger] start[i] by {
        assert(row[i + grown] == start[i]);
    }
    assert forall|i: int| a <= i <= a + (grown + 1) implies (#[trigger] changed[i])@.len()
        <= start[a]@.len() by {
        if i < j {
            assert(row[i]@.len() <= start[a]@.len());
        } else if i > j + 1 {
            assert(row[i - 1]@.len() <= start[a]@.len());
        }
    }
}

/// A bucket that has not been split yet is on its way to the sizes that
/// splitting it gives.
pub proof fn lemma_splitting_starts<T: Ord + Clone>(row: Seq<Bucket<T>>, a: int, r: nat, limit: nat)
    requires
        0 <= a < row.len(),
    ensures
        splitting_toward(row, a, a, 0, r, limit, piece_sizes(row[a]@.len(), r, limit)),
{
    reveal(splitting_toward);
    let now = sizes(row.subrange(a, a + 1));
    assert(now[0] == row[a]@.len());
    assert(now.take(0) + piece_sizes(now[0], r, limit) + now.skip(1) =~= piece_sizes(
        row[a]@.len(),
        r,
        limit,
    ));
}

/// One split of the bucket that holds the wanted value is one step on the way:
/// the splitting goes on in the upper half if the wanted value is there, and
/// in the lower half otherwise.
pub proof fn lemma_splitting_step<T: Ord + Clone>(
    row: Seq<Bucket<T>>,
    from: int,
    to: int,
    t: int,
    r: nat,
    limit: nat,
    goal: Seq<nat>,
    lower: Bucket<T>,
    upper: Bucket<T>,
)
    requires
        splitting_toward(row, from, to, t, r, limit, goal),
        row[from + t]@.len() > limit,
        row[from + t]@.len() >= 2,
        lower@.len() == row[from + t]@.len() / 2,
        upper@.len() == row[from + t]@.len() - row[from + t]@.len() / 2,
    ensures
        r >= lower@.len() ==> splitting_toward(
            row.update(from + t, lower).insert(from + t + 1, upper),
            from,
            to + 1,
            t + 1,
            (r - lower@.len()) as nat,
            limit,
            goal,
        ),
        r < lower@.len() ==> splitting_toward(
            row.update(from + t, lower).insert(from + t + 1, upper),
            from,
            to + 1,
            t,
            r,
            limit,
            goal,
        ),
{
    reveal(splitting_toward);
    let j = from + t;
    let n = row[j]@.len();
    let changed = row.update(j, lower).insert(j + 1, upper);
    let now = sizes(row.subrange(from, to + 1));
    let next = sizes(changed.subrange(from, to + 2));
    assert(now[t] == n);
    assert(next =~= now.take(t) + seq![lower@.len(), upper@.len()] + now.skip(t + 1));
    if r >= lower@.len() {
        assert(next.take(t + 1) =~= now.take(t) + seq![lower@.len()]);
        assert(next.skip(t + 2) =~= now.skip(t + 1));
        assert(next[t + 1] == upper@.len());
        let rest = piece_sizes(upper@.len(), (r - lower@.len()) as nat, limit);
        assert(piece_sizes(n, r, limit) == seq![lower@.len()] + rest);
        assert(next.take(t + 1) + rest + next.skip(t + 2) =~= now.take(t) + piece_sizes(
            n,
            r,
            limit,
        ) + now.skip(t + 1));
    } else {
        assert(next.take(t) =~= now.take(t));
        assert(next.skip(t + 1) =~= seq![upper@.len()] + now.skip(t + 1));
        assert(next[t] == lower@.len());
        let rest = piece_sizes(lower@.len(), r, limit);
        assert(piece_sizes(n, r, limit) == rest + seq![upper@.len()]);
        assert(next.take(t) + rest + next.skip(t + 1) =~= now.take(t) + piece_sizes(n, r, limit)
            + now.skip(t + 1));
    }
}

/// Replacing the bucket that holds the wanted value by one of the same size
/// changes nothing on the way.
pub proof fn lemma_splitting_same_size<T: Ord + Clone>(
    row: Seq<Bucket<T>>,
    from: int,
    to: int,
    t: int,
    r: nat,
    limit: nat,
    goal: Seq<nat>,
    b: Bucket<T>,
)
    requires
        splitting_toward(row, from, to, t, r, limit, goal),
        b@.len() == row[from + t]@.len(),
    ensures
        splitting_toward(row.update(from + t, b), from, to, t, r, limit, goal),
{
    reveal(splitting_toward);
    assert(sizes(row.update(from + t, b).subrange(from, to + 1)) =~= sizes(
        row.subrange(from, to + 1),
    ));
}

/// Once the bucket that holds the wanted value is within the limit, the sizes
/// are those that the splitting was to give.
pub proof fn lemma_splitting_ends<T: Ord + Clone>(
    row: Seq<Bucket<T>>,
    from: int,
    to: int,
    t: int,
    r: nat,
    limit: nat,
    goal: Seq<nat>,
)
    requires
        splitting_toward(row, from, to, t, r, limit, goal),
        row[from + t]@.len() <= limit,
    ensures
        sizes(row.subrange(from, to + 1)) == goal,
{
    reveal(splitting_toward);
    let now = sizes(row.subrange(from, to + 1));
    assert(now[t] == row[from + t]@.len());
    assert(now.take(t) + seq![now[t]] + now.skip(t + 1) =~= now);
}

/// The buckets `from` to `to` of the row hold, one after the other, the
/// stretches of `whole`: each of them, once sorted, is the stretch of `whole`
/// that begins after as many values as stand before the bucket, from bucket
/// `from` on, and is as long as the bucket is large.
#[verifier::opaque]
pub open spec fn stretches_of<T: Ord + Clone>(
    row: Seq<Bucket<T>>,
    from: int,
    to: int,
    whole: Seq<T>,
) -> bool {
    &&& 0 <= from <= to < row.len()
    &&& size_before(row, to + 1) - size_before(row, from) == whole.len()
    &&& forall|k: int|
        from <= k <= to ==> sorted(#[trigger] row[k]@) == whole.subrange(
            size_before(row, k) - size_before(row, from),
            size_before(row, k + 1) - size_before(row, from),
        )
}

/// A bucket is the one stretch of its own contents in ascending order.
pub proof fn lemma_stretches_start<T: Ord + Clone>(row: Seq<Bucket<T>>, a: int)
    requires
        total_order::<T>(),
        0 <= a < row.len(),
    ensures
        stretches_of(row, a, a, sorted(row[a]@)),
{
    reveal(stretches_of);
    let whole = sorted(row[a]@);
    lemma_sorted_of_rearranged(row[a]@, row[a]@);
    lemma_size_before_step(row, a);
    assert(whole.subrange(0, whole.len() as int) =~= whole);
}

/// Splitting one of the buckets into the lower and the upper part of its
/// sorted contents splits its stretch in two.
pub proof fn lemma_stretches_split<T: Ord + Clone>(
    row: Seq<Bucket<T>>,
    from: int,
    to: int,
    whole: Seq<T>,
    j: int,
    lower: Bucket<T>,
    upper: Bucket<T>,
)
    requires
        total_order::<T>(),
        stretches_of(row, from, to, whole),
        from <= j <= to,
        lower@.len() + upper@.len() == row[j]@.len(),
        sorted(row[j]@) == sorted(lower@) + sorted(upper@),
    ensures
        stretches_of(row.update(j, lower).insert(j + 1, upper), from, to + 1, whole),
{
    let changed = row.update(j, lower).insert(j + 1, upper);
    let base = size_before(row, from);
    assert(0 <= from && to < row.len() && size_before(row, to + 1) - base == whole.len()) by {
        reveal(stretches_of);
    }
    lemma_size_before_split(row, j, lower, upper, from);
    lemma_size_before_split(row, j, lower, upper, to + 2);
    lemma_size_before_monotone(row, from, j);
    lemma_size_before_monotone(row, j + 1, to + 1);
    lemma_size_before_step(row, j);
    lemma_sorted_len(lower@);
    lemma_sorted_len(upper@);
    assert forall|k: int| from <= k <= to + 1 implies sorted(#[trigger] changed[k]@)
        == whole.subrange(
        size_before(changed, k) - size_before(changed, from),
        size_before(changed, k + 1) - size_before(changed, from),
    ) by {
        lemma_size_before_split(row, j, lower, upper, k);
        lemma_size_before_split(row, j, lower, upper, k + 1);
        if k < j {
            assert(changed[k] == row[k]);
            assert(sorted(row[k]@) == whole.subrange(
                size_before(row, k) - base,
                size_before(row, k + 1) - base,
            )) by {
                reveal(stretches_of);
            }
        } else if k > j + 1 {
            assert(changed[k] == row[k - 1]);
            assert(sorted(row[k - 1]@) == whole.subrange(
                size_before(row, k - 1) - base,
                size_before(row, k) - base,
            )) by {
                reveal(stretches_of);
            }
        } else {
            assert(sorted(row[j]@) == whole.subrange(
                size_before(row, j) - base,
                size_before(row, j + 1) - base,
            )) by {
                reveal(stretches_of);
            }
            lemma_stretch_cut(
                whole,
                size_before(row, j) - base,
                size_before(row, j) + lower@.len() - base,
                size_before(row, j + 1) - base,
                sorted(lower@),
                sorted(upper@),
            );
        }
    }
    assert(stretches_of(changed, from, to + 1, whole)) by {
        reveal(stretches_of);
    }
}

/// Rearranging the values of one of the buckets leaves the stretches as they
/// are.
pub proof fn lemma_stretches_rearranged<T: Ord + Clone>(
    row: Seq<Bucket<T>>,
    from: int,
    to: int,
    whole: Seq<T>,
    j: int,
    b: Bucket<T>,
)
    requires
        total_order::<T>(),
        stretches_of(row, from, to, whole),
        from <= j <= to,
        b@.to_multiset() == row[j]@.to_multiset(),
    ensures
        stretches_of(row.update(j, b), from, to, whole),
{
    reveal(stretches_of);
    let changed = row.update(j, b);
    lemma_rearrange_bucket(row, j, b);
    lemma_sorted_of_rearranged(b@, row[j]@);
    assert forall|k: int| from <= k <= to implies sorted(#[trigger] changed[k]@)
        == whole.subrange(
        size_before(changed, k) - size_before(changed, from),
        size_before(changed, k + 1) - size_before(changed, from),
    ) by {
        assert(sorted(row[k]@) == whole.subrange(
            size_before(row, k) - size_before(row, from),
            size_before(row, k + 1) - size_before(row, from),
        ));
    }
}

/// Of the buckets `from` to `to` of the row, none but bucket `t` is marked
/// sorted.
#[verifier::opaque]
pub open spec fn only_marked_sorted<T: Ord + Clone>(
    row: Seq<Bucket<T>>,
    from: int,
    to: int,
    t: int,
) -> bool {
    &&& 0 <= from <= t <= to < row.len()
    &&& forall|k: int| from <= k <= to && k != t ==> !(#[trigger] row[k]).marked_sorted()
}

/// Of a single bucket, none but that bucket is marked sorted.
pub proof fn lemma_only_marked_starts<T: Ord + Clone>(row: Seq<Bucket<T>>, a: int)
    requires
        0 <= a < row.len(),
    ensures
        only_marked_sorted(row, a, a, a),
{
    reveal(only_marked_sorted);
}

/// Splitting bucket `t` into two buckets that are not marked sorted leaves
/// none marked sorted but the one of the two that is taken for bucket `t`
/// from then on.
pub proof fn lemma_only_marked_split<T: Ord + Clone>(
    row: Seq<Bucket<T>>,
    from: int,
    to: int,
    t: int,
    lower: Bucket<T>,
    upper: Bucket<T>,
)
    requires
        only_marked_sorted(row, from, to, t),
        !lower.marked_sorted(),
        !upper.marked_sorted(),
    ensures
        only_marked_sorted(row.update(t, lower).insert(t + 1, upper), from, to + 1, t),
        only_marked_sorted(row.update(t, lower).insert(t + 1, upper), from, to + 1, t + 1),
{
    reveal(only_marked_sorted);
    let changed = row.update(t, lower).insert(t + 1, upper);
    assert forall|k: int| from <= k <= to + 1 && k != t && k != t + 1 implies !(
    #[trigger] changed[k]).marked_sorted() by {
        if k < t {
            assert(changed[k] == row[k]);
        } else {
            assert(changed[k] == row[k - 1]);
        }
    }
}

/// Replacing bucket `t` leaves none marked sorted but bucket `t`.
pub proof fn lemma_only_marked_replaced<T: Ord + Clone>(
    row: Seq<Bucket<T>>,
    from: int,
    to: int,
    t: int,
    b: Bucket<T>,
)
    requires
        only_marked_sorted(row, from, to, t),
    ensures
        only_marked_sorted(row.update(t, b), from, to, t),
{
    reveal(only_marked_sorted);
    let changed = row.update(t, b);
    assert forall|k: int| from <= k <= to && k != t implies !(
    #[trigger] changed[k]).marked_sorted() by {
        assert(changed[k] == row[k]);
    }
}

/// Where the splitting of bucket `a` of `start` stands: `row` is what has
/// become of `start`, bucket `t` of it holds the wanted value at its position
/// `r`, and the wanted value was at position `first` of the bucket when the
/// splitting began.
#[verifier::opaque]
pub open spec fn in_parts<T: Ord + Clone>(
    row: Seq<Bucket<T>>,
    start: Seq<Bucket<T>>,
    a: int,
    t: int,
    r: nat,
    first: nat,
    limit: nat,
) -> bool {
    let to = a + (row.len() - start.len());
    &&& split_of(row, start, a)
    &&& a <= t <= to
    &&& splitting_toward(row, a, to, t - a, r, limit, piece_sizes(start[a]@.len(), first, limit))
    &&& stretches_of(row, a, to, sorted(start[a]@))
    &&& only_marked_sorted(row, a, to, t)
}

/// Before the first split the bucket is its own single part.
pub proof fn lemma_in_parts_starts<T: Ord + Clone>(
    start: Seq<Bucket<T>>,
    a: int,
    first: nat,
    limit: nat,
)
    requires
        total_order::<T>(),
        0 <= a < start.len(),
    ensures
        in_parts(start, start, a, a, first, first, limit),
{
    reveal(in_parts);
    lemma_split_of_itself(start, a);
    lemma_splitting_starts(start, a, first, limit);
    lemma_stretches_start(start, a);
    lemma_only_marked_starts(start, a);
}

/// One split of the part that holds the wanted value: the splitting goes on
/// in the upper half if the wanted value is there, and in the lower half
/// otherwise.
pub proof fn lemma_in_parts_split<T: Ord + Clone>(
    row: Seq<Bucket<T>>,
    start: Seq<Bucket<T>>,
    a: int,
    t: int,
    r: nat,
    first: nat,
    limit: nat,
    lower: Bucket<T>,
    upper: Bucket<T>,
)
    requires
        total_order::<T>(),
        in_parts(row, start, a, t, r, first, limit),
        0 <= t < row.len(),
        row[t]@.len() > limit,
        row[t]@.len() >= 2,
        lower@.len() == row[t]@.len() / 2,
        upper@.len() == row[t]@.len() - row[t]@.len() / 2,
        sorted(row[t]@) == sorted(lower@) + sorted(upper@),
        !lower.marked_sorted(),
        !upper.marked_sorted(),
    ensures
        r >= lower@.len() ==> in_parts(
            row.update(t, lower).insert(t + 1, upper),
            start,
            a,
            t + 1,
            (r - lower@.len()) as nat,
            first,
            limit,
        ),
        r < lower@.len() ==> in_parts(
            row.update(t, lower).insert(t + 1, upper),
            start,
            a,
            t,
            r,
            first,
            limit,
        ),
{
    reveal(in_parts);
    let to = a + (row.len() - start.len());
    let goal = piece_sizes(start[a]@.len(), first, limit);
    lemma_split_of_split(row, start, a, t, lower, upper);
    lemma_splitting_step(row, a, to, t - a, r, limit, goal, lower, upper);
    lemma_stretches_split(row, a, to, sorted(start[a]@), t, lower, upper);
    lemma_only_marked_split(row, a, to, t, lower, upper);
}

/// Rearranging the values of the part that holds the wanted value changes
/// nothing in where the splitting stands.
pub proof fn lemma_in_parts_rearranged<T: Ord + Clone>(
    row: Seq<Bucket<T>>,
    start: Seq<Bucket<T>>,
    a: int,
    t: int,
    r: nat,
    first: nat,
    limit: nat,
    b: Bucket<T>,
)
    requires
        total_order::<T>(),
        in_parts(row, start, a, t, r, first, limit),
        0 <= t < row.len(),
        b@.to_multiset() == row[t]@.to_multiset(),
    ensures
        in_parts(row.update(t, b), start, a, t, r, first, limit),
{
    reveal(in_parts);
    let to = a + (row.len() - start.len());
    let goal = piece_sizes(start[a]@.len(), first, limit);
    b@.to_multiset_ensures();
    row[t]@.to_multiset_ensures();
    lemma_split_of_replaced(row, start, a, t, b);
    lemma_splitting_same_size(row, a, to, t - a, r, limit, goal, b);
    lemma_stretches_rearranged(row, a, to, sorted(start[a]@), t, b);
    lemma_only_marked_replaced(row, a, to, t, b);
}

/// Once the part that holds the wanted value is within the limit, the
/// splitting is over: the row is `start` with bucket `a` split, the parts
/// have the sizes that the splitting was to give and hold the stretches of
/// the sorted bucket, and none but the part that holds the wanted value is
/// marked sorted.
pub proof fn lemma_in_parts_ends<T: Ord + Clone>(
    row: Seq<Bucket<T>>,
    start: Seq<Bucket<T>>,
    a: int,
    t: int,
    r: nat,
    first: nat,
    limit: nat,
)
    requires
        in_parts(row, start, a, t, r, first, limit),
        0 <= t < row.len(),
        row[t]@.len() <= limit,
    ensures
        split_of(row, start, a),
        a <= t <= a + (row.len() - start.len()),
        sizes(row.subrange(a, a + (row.len() - start.len()) + 1)) == piece_sizes(
            start[a]@.len(),
            first,
            limit,
        ),
        stretches_of(row, a, a + (row.len() - start.len()), sorted(start[a]@)),
        only_marked_sorted(row, a, a + (row.len() - start.len()), t),
{
    reveal(in_parts);
    let to = a + (row.len() - start.len());
    let goal = piece_sizes(start[a]@.len(), first, limit);
    lemma_splitting_ends(row, a, to, t - a, r, limit, goal);
}

} // verus!
