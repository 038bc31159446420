//! What it means for a row of buckets to partition the value space, where a
//! new value belongs in such a row, and the changes to a row that keep it a
//! partition.

use crate::bucket::Bucket;
use crate::order::{ascending, le, leq, lemma_order_laws, lt, orderable, total_order};
use crate::row::{
    bounds, gathered, lemma_count_in_bucket, lemma_gathered_around, lemma_gathered_len,
    lemma_gathered_member, lemma_size_before_step, size_before,
};
use crate::sorting::{divided_at, lemma_count_of_run, lemma_rearranged_member};
use vstd::prelude::*;

verus! {

/// The row partitions the value space. Every bucket is valid and its bound is
/// its least value, and no value of a bucket is larger than the bound of a
/// later bucket.
pub open spec fn partitioned<T: Ord + Clone>(row: Seq<Bucket<T>>) -> bool {
    &&& forall|i: int| 0 <= i < row.len() ==> (#[trigger] row[i]).wf() && row[i].bound_is_minimum()
    &&& forall|i: int, j: int, x: int|
        0 <= i < j < row.len() && 0 <= x < row[i]@.len() ==> le(
            #[trigger] row[i]@[x],
            #[trigger] row[j].bound(),
        )
}

/// The bounds of the row never descend.
pub open spec fn bounds_ascending<T: Ord + Clone>(row: Seq<Bucket<T>>) -> bool {
    forall|i: int, j: int|
        0 <= i < j < row.len() ==> le(#[trigger] row[i].bound(), #[trigger] row[j].bound())
}

/// The bounds of the row ascend strictly.
pub open spec fn bounds_strictly_ascending<T: Ord + Clone>(row: Seq<Bucket<T>>) -> bool {
    forall|i: int|
        0 <= i < row.len() - 1 ==> lt(#[trigger] row[i].bound(), row[i + 1].bound())
}

/// Bucket `j` is where a row with these bounds takes in `v`: a bucket whose
/// bound is `v`; or the first bucket, when `v` is below every bound; or the
/// last bucket whose bound is below `v`, when no bound is `v`.
pub open spec fn routes_to<T: Ord>(bounds: Seq<T>, v: T, j: int) -> bool {
    &&& 0 <= j < bounds.len()
    &&& {
        ||| bounds[j] == v
        ||| j == 0 && lt(v, bounds[0])
        ||| lt(bounds[j], v) && (j + 1 < bounds.len() ==> lt(v, bounds[j + 1]))
    }
}

/// In a row that partitions the value space the bounds never descend.
pub proof fn lemma_partitioned_bounds_ascending<T: Ord + Clone>(row: Seq<Bucket<T>>)
    requires
        partitioned(row),
    ensures
        bounds_ascending(row),
{
    assert forall|i: int, j: int| 0 <= i < j < row.len() implies le(
        #[trigger] row[i].bound(),
        #[trigger] row[j].bound(),
    ) by {
        assert(row[i].wf());
        let x = choose|x: int| 0 <= x < row[i]@.len() && row[i]@[x] == row[i].bound();
        assert(le(row[i]@[x], row[j].bound()));
    }
}

/// In a row that partitions the value space no bucket is empty, so at least
/// `i` values stand before bucket `i`.
pub proof fn lemma_size_before_at_least<T: Ord + Clone>(row: Seq<Bucket<T>>, i: int)
    requires
        partitioned(row),
        0 <= i <= row.len(),
    ensures
        size_before(row, i) >= i,
    decreases i,
{
    if i > 0 {
        lemma_size_before_at_least(row, i - 1);
        lemma_size_before_step(row, i - 1);
        assert(row[i - 1].wf() && row[i - 1].bound_is_minimum());
    }
}

/// The position that a search of the bounds stops at names the bucket that
/// the value routes to: that position if its bound is the value, the first
/// bucket if the search stopped there, and the position before it otherwise.
pub proof fn lemma_slot_routes<T: Ord + Clone>(row: Seq<Bucket<T>>, v: T, slot: int, j: int)
    requires
        orderable::<T>(),
        row.len() > 0,
        0 <= slot <= row.len(),
        forall|i: int| 0 <= i < slot ==> lt(#[trigger] row[i].bound(), v),
        forall|i: int| slot <= i < row.len() ==> le(v, #[trigger] row[i].bound()),
        j == if slot >= row.len() {
            row.len() - 1
        } else if lt(v, row[slot].bound()) {
            if slot == 0 {
                0
            } else {
                slot - 1
            }
        } else {
            slot
        },
    ensures
        routes_to(bounds(row), v, j),
        lt(v, row[j].bound()) ==> slot == 0,
{
    lemma_order_laws::<T>();
    assert(bounds(row)[j] == row[j].bound());
    if j + 1 < row.len() {
        assert(bounds(row)[j + 1] == row[j + 1].bound());
    }
    if slot < row.len() {
        assert(le(v, row[slot].bound()));
    }
}

/// A row still partitions the value space after bucket `j` has taken in a
/// value that routes to it, and bounds that ascended strictly still do.
pub proof fn lemma_take_in_keeps_partition<T: Ord + Clone>(
    row: Seq<Bucket<T>>,
    j: int,
    b: Bucket<T>,
    v: T,
)
    requires
        partitioned(row),
        routes_to(bounds(row), v, j),
        b.wf(),
        b@ == row[j]@.push(v),
        b.bound() == if lt(v, row[j].bound()) {
            v
        } else {
            row[j].bound()
        },
    ensures
        partitioned(row.update(j, b)),
        bounds_strictly_ascending(row) ==> bounds_strictly_ascending(row.update(j, b)),
{
    lemma_order_laws::<T>();
    lemma_partitioned_bounds_ascending(row);
    let changed = row.update(j, b);
    let last = row[j]@.len() as int;
    assert(bounds(row)[j] == row[j].bound());
    assert(row[j].wf() && row[j].bound_is_minimum());
    assert forall|k: int| j < k < row.len() implies le(v, #[trigger] row[k].bound()) by {
        assert(bounds(row)[0] == row[0].bound());
        assert(le(row[0].bound(), row[k].bound()));
        assert(le(row[j].bound(), row[k].bound()));
        if j + 1 < row.len() {
            assert(bounds(row)[j + 1] == row[j + 1].bound());
            if j + 1 < k {
                assert(le(row[j + 1].bound(), row[k].bound()));
            }
        }
    }
    assert(b@[last] == v);
    assert(b.bound_is_minimum()) by {
        if !lt(v, row[j].bound()) {
            let x = choose|x: int| 0 <= x < row[j]@.len() && row[j]@[x] == row[j].bound();
            assert(b@[x] == row[j].bound());
        }
        assert forall|x: int| 0 <= x < b@.len() implies le(b.bound(), #[trigger] b@[x]) by {
            if x < last {
                assert(le(row[j].bound(), row[j]@[x]));
            }
        }
    }
    assert forall|i: int| 0 <= i < changed.len() implies (#[trigger] changed[i]).wf()
        && changed[i].bound_is_minimum() by {
        if i != j {
            assert(row[i].wf() && row[i].bound_is_minimum());
        }
    }
    assert forall|i: int, k: int, x: int|
        0 <= i < k < changed.len() && 0 <= x < changed[i]@.len() implies le(
        #[trigger] changed[i]@[x],
        #[trigger] changed[k].bound(),
    ) by {
        if i == j && x == last {
            assert(le(v, row[k].bound()));
        } else {
            assert(le(row[i]@[x], row[k].bound()));
        }
    }
    if bounds_strictly_ascending(row) {
        assert forall|i: int| 0 <= i < changed.len() - 1 implies lt(
            #[trigger] changed[i].bound(),
            changed[i + 1].bound(),
        ) by {
            assert(lt(row[i].bound(), row[i + 1].bound()));
            if i + 1 == j {
                assert(bounds(row)[0] == row[0].bound());
            }
        }
    }
}

/// A row still partitions the value space after the values of bucket `j` have
/// been rearranged.
pub proof fn lemma_rearrange_keeps_partition<T: Ord + Clone>(
    row: Seq<Bucket<T>>,
    j: int,
    b: Bucket<T>,
)
    requires
        partitioned(row),
        0 <= j < row.len(),
        b.wf(),
        b.bound() == row[j].bound(),
        b@.to_multiset() == row[j]@.to_multiset(),
    ensures
        partitioned(row.update(j, b)),
{
    let changed = row.update(j, b);
    assert(row[j].wf() && row[j].bound_is_minimum());
    assert(b.bound_is_minimum()) by {
        let x = choose|x: int| 0 <= x < row[j]@.len() && row[j]@[x] == row[j].bound();
        let y = lemma_rearranged_member(row[j]@, b@, x);
        assert forall|i: int| 0 <= i < b@.len() implies le(b.bound(), #[trigger] b@[i]) by {
            let w = lemma_rearranged_member(b@, row[j]@, i);
            assert(le(row[j].bound(), row[j]@[w]));
        }
    }
    assert forall|i: int| 0 <= i < changed.len() implies (#[trigger] changed[i]).wf()
        && changed[i].bound_is_minimum() by {
        if i != j {
            assert(row[i].wf() && row[i].bound_is_minimum());
        }
    }
    assert forall|i: int, k: int, x: int|
        0 <= i < k < changed.len() && 0 <= x < changed[i]@.len() implies le(
        #[trigger] changed[i]@[x],
        #[trigger] changed[k].bound(),
    ) by {
        if i == j {
            let w = lemma_rearranged_member(b@, row[j]@, x);
            assert(le(row[i]@[w], row[k].bound()));
        } else {
            assert(le(row[i]@[x], row[k].bound()));
        }
    }
}

/// A row still partitions the value space after bucket `j` has been split
/// around one of its values into `lower`, which keeps the bound, and `upper`,
/// whose bound is that value.
pub proof fn lemma_split_keeps_partition<T: Ord + Clone>(
    row: Seq<Bucket<T>>,
    j: int,
    lower: Bucket<T>,
    upper: Bucket<T>,
)
    requires
        partitioned(row),
        0 <= j < row.len(),
        lower.wf(),
        upper.wf(),
        lower@.len() >= 1,
        (lower@ + upper@).to_multiset() == row[j]@.to_multiset(),
        divided_at(lower@ + upper@, lower@.len() as int),
        upper.bound() == upper@[0],
        upper.bound_is_minimum(),
        lower.bound() == row[j].bound(),
    ensures
        partitioned(row.update(j, lower).insert(j + 1, upper)),
{
    lemma_order_laws::<T>();
    let changed = row.update(j, lower).insert(j + 1, upper);
    let whole = lower@ + upper@;
    let cut = lower@.len() as int;
    let pivot = upper.bound();
    assert(whole[cut] == pivot);
    assert(row[j].wf() && row[j].bound_is_minimum());
    let pivot_at = lemma_rearranged_member(whole, row[j]@, cut);
    assert(le(row[j].bound(), pivot));
    assert forall|x: int| 0 <= x < lower@.len() implies le(#[trigger] lower@[x], pivot) by {
        assert(whole[x] == lower@[x]);
    }
    assert forall|x: int| 0 <= x < lower@.len() implies le(lower.bound(), #[trigger] lower@[x]) by {
        assert(whole[x] == lower@[x]);
        let w = lemma_rearranged_member(whole, row[j]@, x);
        assert(le(row[j].bound(), row[j]@[w]));
    }
    assert(lower@.contains(lower.bound())) by {
        let m = choose|m: int| 0 <= m < row[j]@.len() && row[j]@[m] == row[j].bound();
        let w = lemma_rearranged_member(row[j]@, whole, m);
        if w < cut {
            assert(lower@[w] == lower.bound());
        } else {
            assert(whole[w] == upper@[w - cut]);
            assert(le(pivot, upper@[w - cut]));
            assert(pivot == lower.bound());
            assert(le(lower@[0], pivot));
            assert(le(lower.bound(), lower@[0]));
            assert(lower@[0] == lower.bound());
        }
    }
    assert forall|i: int| 0 <= i < changed.len() implies (#[trigger] changed[i]).wf()
        && changed[i].bound_is_minimum() by {
        if i < j {
            assert(row[i].wf() && row[i].bound_is_minimum());
        } else if i > j + 1 {
            assert(row[i - 1].wf() && row[i - 1].bound_is_minimum());
        }
    }
    assert forall|i: int, k: int, x: int|
        0 <= i < k < changed.len() && 0 <= x < changed[i]@.len() implies le(
        #[trigger] changed[i]@[x],
        #[trigger] changed[k].bound(),
    ) by {
        let old_k = if k <= j { k } else { k - 1 };
        if i < j {
            assert(le(row[i]@[x], row[old_k].bound()));
            if k == j + 1 {
                assert(le(row[j].bound(), pivot));
            }
        } else if i == j {
            if k > j + 1 {
                assert(whole[x] == lower@[x]);
                let w = lemma_rearranged_member(whole, row[j]@, x);
                assert(le(row[j]@[w], row[old_k].bound()));
            }
        } else if i == j + 1 {
            assert(whole[cut + x] == upper@[x]);
            let w = lemma_rearranged_member(whole, row[j]@, cut + x);
            assert(le(row[j]@[w], row[old_k].bound()));
        } else {
            assert(le(row[i - 1]@[x], row[old_k].bound()));
        }
    }
}

/// Bounds that ascend strictly still do after a bucket has been replaced by
/// one of the same bound.
pub proof fn lemma_same_bound_keeps_bounds_strict<T: Ord + Clone>(
    row: Seq<Bucket<T>>,
    j: int,
    b: Bucket<T>,
)
    requires
        bounds_strictly_ascending(row),
        0 <= j < row.len(),
        b.bound() == row[j].bound(),
    ensures
        bounds_strictly_ascending(row.update(j, b)),
{
    let changed = row.update(j, b);
    assert forall|i: int| 0 <= i < changed.len() - 1 implies lt(
        #[trigger] changed[i].bound(),
        changed[i + 1].bound(),
    ) by {
        assert(lt(row[i].bound(), row[i + 1].bound()));
    }
}

/// Strictly ascending bounds stay so when bucket `j` is split, provided that
/// the row holds no value as often as the smaller of the two halves, plus
/// one, is large.
pub proof fn lemma_split_keeps_bounds_strict<T: Ord + Clone>(
    row: Seq<Bucket<T>>,
    j: int,
    lower: Bucket<T>,
    upper: Bucket<T>,
    most: nat,
)
    requires
        partitioned(row),
        bounds_strictly_ascending(row),
        0 <= j < row.len(),
        (lower@ + upper@).to_multiset() == row[j]@.to_multiset(),
        divided_at(lower@ + upper@, lower@.len() as int),
        upper.bound() == upper@[0],
        upper.bound_is_minimum(),
        lower.bound() == row[j].bound(),
        forall|v: T| gathered(row).to_multiset().count(v) <= most,
        lower@.len() + 1 > most,
        upper@.len() > most,
    ensures
        bounds_strictly_ascending(row.update(j, lower).insert(j + 1, upper)),
{
    lemma_order_laws::<T>();
    let changed = row.update(j, lower).insert(j + 1, upper);
    let whole = lower@ + upper@;
    let cut = lower@.len() as int;
    let pivot = upper.bound();
    assert(whole[cut] == pivot);
    assert(row[j].wf() && row[j].bound_is_minimum());
    let pivot_at = lemma_rearranged_member(whole, row[j]@, cut);
    assert(le(row[j].bound(), pivot));
    lemma_count_in_bucket(row, j, pivot);
    if row[j].bound() == pivot {
        assert forall|x: int| 0 <= x < cut + 1 implies whole[x] == pivot by {
            if x < cut {
                let w = lemma_rearranged_member(whole, row[j]@, x);
                assert(le(row[j].bound(), row[j]@[w]));
                assert(le(whole[x], whole[cut]));
            }
        }
        lemma_count_of_run(whole, 0, cut + 1, pivot);
        assert(false);
    }
    if j + 1 < row.len() {
        assert(le(row[j]@[pivot_at], row[j + 1].bound()));
        if row[j + 1].bound() == pivot {
            assert forall|x: int| cut <= x < whole.len() implies whole[x] == pivot by {
                let w = lemma_rearranged_member(whole, row[j]@, x);
                assert(le(row[j]@[w], row[j + 1].bound()));
                if x > cut {
                    assert(le(whole[cut], whole[x]));
                }
            }
            lemma_count_of_run(whole, cut, whole.len() as int, pivot);
            assert(false);
        }
    }
    assert forall|i: int| 0 <= i < changed.len() - 1 implies lt(
        #[trigger] changed[i].bound(),
        changed[i + 1].bound(),
    ) by {
        if i < j {
            assert(lt(row[i].bound(), row[i + 1].bound()));
        } else if i > j + 1 {
            assert(lt(row[i - 1].bound(), row[i].bound()));
        }
    }
}

/// In a row that partitions the value space, a position inside a bucket whose
/// contents are in ascending order divides what the row gathers.
pub proof fn lemma_position_divides<T: Ord + Clone>(row: Seq<Bucket<T>>, j: int, r: int)
    requires
        partitioned(row),
        0 <= j < row.len(),
        ascending(row[j]@),
        0 <= r < row[j]@.len(),
    ensures
        divided_at(gathered(row), size_before(row, j) + r),
        gathered(row)[size_before(row, j) + r] == row[j]@[r],
{
    lemma_order_laws::<T>();
    let all = gathered(row);
    let before = gathered(row.take(j));
    let after = gathered(row.skip(j + 1));
    let here = row[j]@;
    lemma_gathered_around(row, j);
    lemma_gathered_len(row.take(j));
    let k = size_before(row, j) + r;
    assert(all[k] == here[r]);
    assert(row[j].wf() && row[j].bound_is_minimum());
    assert(le(row[j].bound(), here[r]));
    assert forall|p: int| 0 <= p < k implies le(#[trigger] all[p], all[k]) by {
        if p < before.len() {
            let at = lemma_gathered_member(row.take(j), p);
            assert(row.take(j)[at.0] == row[at.0]);
            assert(le(row[at.0]@[at.1], row[j].bound()));
        } else {
            assert(all[p] == here[p - before.len()]);
            assert(leq::<T>()(here[p - before.len()], here[r]));
        }
    }
    assert forall|p: int| k < p < all.len() implies le(all[k], #[trigger] all[p]) by {
        if p < before.len() + here.len() {
            assert(all[p] == here[p - before.len()]);
            assert(leq::<T>()(here[r], here[p - before.len()]));
        } else {
            let q = p - before.len() - here.len();
            assert(all[p] == after[q]);
            let at = lemma_gathered_member(row.skip(j + 1), q);
            let i = j + 1 + at.0;
            assert(row.skip(j + 1)[at.0] == row[i]);
            assert(row[i].wf() && row[i].bound_is_minimum());
            assert(le(here[r], row[i].bound()));
            assert(le(row[i].bound(), row[i]@[at.1]));
        }
    }
}

/// Where the buckets `a` to `last` of `row` stand in the place of bucket `a`
/// of `start`, with the other bounds as they were, the first of their bounds
/// the bound of that bucket and the last of their bounds no smaller: the
/// bounds of `row` ascend strictly exactly when those of `start` do, the
/// bounds of the buckets `a` to `last` do, and the bound of bucket `last` is
/// below the bound of the bucket that follows.
pub proof fn lemma_strict_bounds_through_parts<T: Ord + Clone>(
    row: Seq<Bucket<T>>,
    start: Seq<Bucket<T>>,
    a: int,
    last: int,
)
    requires
        total_order::<T>(),
        0 <= a <= last,
        a < start.len(),
        row.len() - start.len() == last - a,
        forall|i: int| 0 <= i <= a ==> (#[trigger] row[i]).bound() == start[i].bound(),
        forall|i: int|
            a < i < start.len() ==> row[i + (last - a)].bound() == (#[trigger] start[i]).bound(),
        le(start[a].bound(), row[last].bound()),
    ensures
        bounds_strictly_ascending(row) <==> {
            &&& bounds_strictly_ascending(start)
            &&& forall|k: int| a <= k < last ==> lt(#[trigger] row[k].bound(), row[k + 1].bound())
            &&& a + 1 < start.len() ==> lt(row[last].bound(), start[a + 1].bound())
        },
{
    let grown = last - a;
    if a + 1 < start.len() {
        assert(row[(a + 1) + grown].bound() == start[a + 1].bound());
    }
    if bounds_strictly_ascending(row) {
        assert forall|i: int| 0 <= i < start.len() - 1 implies lt(
            #[trigger] start[i].bound(),
            start[i + 1].bound(),
        ) by {
            if i < a {
                assert(lt(row[i].bound(), row[i + 1].bound()));
            } else if i == a {
                assert(lt(row[last].bound(), row[last + 1].bound()));
                lemma_order_laws::<T>();
            } else {
                assert(row[i + grown].bound() == start[i].bound());
                assert(row[(i + 1) + grown].bound() == start[i + 1].bound());
                assert(lt(row[i + grown].bound(), row[i + grown + 1].bound()));
            }
        }
        if a + 1 < start.len() {
            assert(lt(row[last].bound(), row[last + 1].bound()));
        }
    }
    if bounds_strictly_ascending(start) && (forall|k: int|
        a <= k < last ==> lt(#[trigger] row[k].bound(), row[k + 1].bound())) && (a + 1
        < start.len() ==> lt(row[last].bound(), start[a + 1].bound())) {
        assert forall|i: int| 0 <= i < row.len() - 1 implies lt(
            #[trigger] row[i].bound(),
            row[i + 1].bound(),
        ) by {
            if i < a {
                assert(lt(start[i].bound(), start[i + 1].bound()));
            } else if i > last {
                assert(row[(i - grown) + grown].bound() == start[i - grown].bound());
                assert(row[(i - grown + 1) + grown].bound() == start[i - grown + 1].bound());
                assert(lt(start[i - grown].bound(), start[i - grown + 1].bound()));
            }
        }
    }
}

} // verus!
