//! The percentile tracker: a row of buckets, and a cached pointer to the
//! bucket that holds the value at the tracked rank.

use crate::bucket::Bucket;
use crate::order::{ascending, duplicate, le, lemma_order_laws, less, lt, orderable, sorted};
use crate::partition::{
    bounds_ascending, bounds_strictly_ascending, lemma_partitioned_bounds_ascending,
    lemma_rearrange_keeps_partition, lemma_same_bound_keeps_bounds_strict,
    lemma_size_before_at_least, lemma_slot_routes, lemma_split_keeps_bounds_strict,
    lemma_split_keeps_partition, lemma_take_in_keeps_partition, partitioned, routes_to,
};
use crate::row::{
    bounds, filled, gathered, lemma_filled_after_replace, lemma_filled_after_split,
    lemma_gathered_len, lemma_gathered_single, lemma_push_into_bucket, lemma_rearrange_bucket,
    lemma_replace_bucket, lemma_size_before_monotone, lemma_size_before_none,
    lemma_size_before_step, lemma_split_bucket, size_before, sizes,
};
use crate::splitting::{
    in_parts, lemma_in_parts_ends, lemma_in_parts_rearranged, lemma_in_parts_split,
    lemma_in_parts_starts, only_marked_sorted, piece_sizes, split_of, stretches_of,
};
use vstd::prelude::*;

verus! {

/// The largest size that the bucket holding the tracked rank is left with.
pub const MAX_BUCKET_SIZE: usize = 64;

/// Why the tracker could not do what was asked of it.
#[derive(Debug, Clone, Copy, PartialEq, Eq, Structural)]
pub enum TrackerError {
    /// The percentile given at construction is not between 1 and 99.
    InvalidPercentile(usize),
    /// A percentile was asked for before any value was inserted.
    Empty,
}

/// The zero-based rank that the percentile stands for among `count` values.
pub open spec fn target_rank(percentile: nat, count: nat) -> nat {
    percentile * count / 100
}

/// Tracks one percentile of the values inserted so far.
///
/// The view of a tracker is the sequence of the values inserted, in the order
/// of insertion.
pub struct PercentileTracker<T: Ord + Clone> {
    /// The buckets, by ascending bound.
    buckets: Vec<Bucket<T>>,
    /// The number of values inserted.
    total_count: usize,
    /// The index of the bucket that held the tracked rank when last settled.
    percentile_bucket_idx: usize,
    /// The number of values in the buckets before that bucket.
    percentile_bucket_offset: usize,
    /// The percentile tracked, between 1 and 99.
    percentile: usize,
    /// Set by an insertion, cleared when the pointer is settled again.
    needs_rebalancing: bool,
    /// The values inserted, in the order of insertion.
    inserted: Ghost<Seq<T>>,
}

impl<T: Ord + Clone> View for PercentileTracker<T> {
    type V = Seq<T>;

    closed spec fn view(&self) -> Seq<T> {
        self.inserted@
    }
}

impl<T: Ord + Clone> PercentileTracker<T> {
    /// The row of buckets.
    pub closed spec fn row(&self) -> Seq<Bucket<T>> {
        self.buckets@
    }

    /// The percentile tracked.
    pub closed spec fn spec_percentile(&self) -> usize {
        self.percentile
    }

    /// The number of values inserted.
    pub closed spec fn spec_total_count(&self) -> usize {
        self.total_count
    }

    /// The index of the bucket that the cached pointer names.
    pub closed spec fn spec_target_bucket_index(&self) -> usize {
        self.percentile_bucket_idx
    }

    /// The number of values that the cached pointer takes to stand before its
    /// bucket.
    pub closed spec fn spec_target_bucket_offset(&self) -> usize {
        self.percentile_bucket_offset
    }

    /// Whether a value was inserted since the cached pointer was last settled.
    pub closed spec fn spec_needs_rebalance(&self) -> bool {
        self.needs_rebalancing
    }

    /// The tracked rank: `percentile * count / 100`, rounded down.
    pub open spec fn rank(&self) -> nat {
        target_rank(self.percentile() as nat, self@.len())
    }

    /// No value has been inserted more often than half the size bound.
    pub open spec fn few_repeats(&self) -> bool {
        forall|v: T| #[trigger] self@.to_multiset().count(v) <= MAX_BUCKET_SIZE / 2
    }

    /// The cached pointer is settled: the bucket it names holds the tracked
    /// rank, is marked sorted and is within the size bound.
    pub open spec fn settled(&self) -> bool {
        let target = self.row()[self.target_bucket_index() as int];
        &&& self.target_bucket_offset() <= self.rank() < self.target_bucket_offset()
            + target@.len()
        &&& target.marked_sorted()
        &&& target@.len() <= MAX_BUCKET_SIZE
    }

    /// The tracker is valid. Its element type is orderable and its percentile
    /// is one of 1 to 99. The buckets hold the values inserted, each as often
    /// as it was inserted, and partition the value space. Unless it is the
    /// only one, a bucket holds at least half the size bound. The cached offset is
    /// the number of values before the bucket that the pointer names, settled
    /// or not. A tracker without values has no buckets and needs no settling,
    /// and a tracker that needs no settling is settled.
    pub open spec fn wf(&self) -> bool {
        &&& orderable::<T>()
        &&& 1 <= self.percentile() <= 99
        &&& self.total_count() == self@.len()
        &&& gathered(self.row()).to_multiset() == self@.to_multiset()
        &&& partitioned(self.row())
        &&& filled(self.row(), (MAX_BUCKET_SIZE / 2) as nat)
        &&& self.target_bucket_offset() == size_before(
            self.row(),
            self.target_bucket_index() as int,
        )
        &&& if self.row().len() == 0 {
            self.target_bucket_index() == 0 && !self.needs_rebalance()
        } else {
            self.target_bucket_index() < self.row().len()
        }
        &&& !self.needs_rebalance() && self.row().len() > 0 ==> self.settled()
    }

    /// `self` is `before` after bucket `j` took in `v`: the value stands last
    /// in that bucket, which is marked unsorted and whose bound is `v` if `v`
    /// is below the old bound; the other buckets are as they were; the cached
    /// offset counts `v` if bucket `j` stands before the cached bucket; and
    /// the pointer needs settling.
    pub open spec fn took_in(&self, before: Self, j: int, v: T) -> bool {
        &&& self.row().len() == before.row().len()
        &&& forall|i: int|
            0 <= i < self.row().len() && i != j ==> #[trigger] self.row()[i] == before.row()[i]
        &&& self.row()[j]@ == before.row()[j]@.push(v)
        &&& self.row()[j].bound() == if lt(v, before.row()[j].bound()) {
            v
        } else {
            before.row()[j].bound()
        }
        &&& !self.row()[j].marked_sorted()
        &&& self.target_bucket_index() == before.target_bucket_index()
        &&& j < before.target_bucket_index() ==> self.target_bucket_offset()
            == before.target_bucket_offset() + 1
        &&& j >= before.target_bucket_index() ==> self.target_bucket_offset()
            == before.target_bucket_offset()
        &&& self.needs_rebalance()
    }

    /// A tracker of the given percentile with no values in it. The percentile
    /// has to be one of 1 to 99.
    pub fn new(percentile: usize) -> (r: Result<Self, TrackerError>)
        requires
            orderable::<T>(),
        ensures
            1 <= percentile <= 99 <==> r is Ok,
            r matches Err(e) ==> e == TrackerError::InvalidPercentile(percentile),
            r matches Ok(t) ==> {
                &&& t.wf()
                &&& t@ == Seq::<T>::empty()
                &&& t.percentile() == percentile
                &&& t.row().len() == 0
                &&& t.total_count() == 0
                &&& t.target_bucket_index() == 0
                &&& t.target_bucket_offset() == 0
                &&& !t.needs_rebalance()
            },
    {
        if percentile < 1 || percentile > 99 {
            return Err(TrackerError::InvalidPercentile(percentile));
        }
        let t = PercentileTracker {
            buckets: Vec::new(),
            total_count: 0,
            percentile_bucket_idx: 0,
            percentile_bucket_offset: 0,
            percentile,
            needs_rebalancing: false,
            inserted: Ghost(Seq::empty()),
        };
        proof {
            lemma_size_before_none(t.row());
            assert(gathered(t.row()) =~= Seq::<T>::empty());
        }
        Ok(t)
    }

    /// The percentile tracked.
    #[verifier::when_used_as_spec(spec_percentile)]
    pub fn percentile(&self) -> (p: usize)
        ensures
            p == self.percentile(),
    {
        self.percentile
    }

    /// The number of values inserted.
    #[verifier::when_used_as_spec(spec_total_count)]
    pub fn total_count(&self) -> (n: usize)
        ensures
            n == self.total_count(),
    {
        self.total_count
    }

    /// The index of the bucket that the cached pointer names.
    #[verifier::when_used_as_spec(spec_target_bucket_index)]
    pub fn target_bucket_index(&self) -> (i: usize)
        ensures
            i == self.target_bucket_index(),
    {
        self.percentile_bucket_idx
    }

    /// The number of values that the cached pointer takes to stand before its
    /// bucket.
    #[verifier::when_used_as_spec(spec_target_bucket_offset)]
    pub fn target_bucket_offset(&self) -> (n: usize)
        ensures
            n == self.target_bucket_offset(),
    {
        self.percentile_bucket_offset
    }

    /// Whether a value was inserted since the cached pointer was last settled.
    #[verifier::when_used_as_spec(spec_needs_rebalance)]
    pub fn needs_rebalance(&self) -> (b: bool)
        ensures
            b == self.needs_rebalance(),
    {
        self.needs_rebalancing
    }

    /// The buckets, by ascending bound.
    pub fn buckets(&self) -> (row: &Vec<Bucket<T>>)
        ensures
            row@ == self.row(),
    {
        &self.buckets
    }

    /// The number of buckets.
    pub fn bucket_count(&self) -> (n: usize)
        ensures
            n == self.row().len(),
    {
        self.buckets.len()
    }

    /// The first position of the row whose bound is not below `num`.
    fn find_slot(&self, num: &T) -> (slot: usize)
        requires
            orderable::<T>(),
            bounds_ascending(self.row()),
        ensures
            slot <= self.row().len(),
            forall|i: int| 0 <= i < slot ==> lt(#[trigger] self.row()[i].bound(), *num),
            forall|i: int|
                slot <= i < self.row().len() ==> le(*num, #[trigger] self.row()[i].bound()),
    {
        let mut low: usize = 0;
        let mut high: usize = self.buckets.len();
        while low < high
            invariant
                orderable::<T>(),
                bounds_ascending(self.row()),
                low <= high <= self.row().len(),
                forall|i: int| 0 <= i < low ==> lt(#[trigger] self.row()[i].bound(), *num),
                forall|i: int|
                    high <= i < self.row().len() ==> le(*num, #[trigger] self.row()[i].bound()),
            decreases high - low,
        {
            proof {
                lemma_order_laws::<T>();
            }
            let mid: usize = low + (high - low) / 2;
            if less(self.buckets[mid].min(), num) {
                assert forall|i: int| 0 <= i < mid + 1 implies lt(
                    #[trigger] self.row()[i].bound(),
                    *num,
                ) by {
                    if i < mid {
                        assert(le(self.row()[i].bound(), self.row()[mid as int].bound()));
                    }
                }
                low = mid + 1;
            } else {
                assert forall|i: int| mid <= i < self.row().len() implies le(
                    *num,
                    #[trigger] self.row()[i].bound(),
                ) by {
                    if mid < i {
                        assert(le(self.row()[mid as int].bound(), self.row()[i].bound()));
                    }
                }
                high = mid;
            }
        }
        low
    }

    /// Takes in `num`. Nothing is sorted or split: the value is appended to
    /// the bucket it belongs to, and the pointer is marked as needing to be
    /// settled. The first value of all makes the first bucket, with the
    /// pointer settled on it. The number of values has to stay within `usize`.
    pub fn insert(&mut self, num: T)
        requires
            old(self).wf(),
            old(self)@.len() < usize::MAX,
        ensures
            final(self).wf(),
            final(self)@ == old(self)@.push(num),
            final(self).percentile() == old(self).percentile(),
            bounds_strictly_ascending(old(self).row()) ==> bounds_strictly_ascending(
                final(self).row(),
            ),
            old(self).row().len() == 0 ==> {
                &&& final(self).row().len() == 1
                &&& final(self).row()[0]@ == seq![num]
                &&& final(self).row()[0].bound() == num
                &&& final(self).target_bucket_index() == 0
                &&& final(self).target_bucket_offset() == 0
                &&& !final(self).needs_rebalance()
            },
            old(self).row().len() > 0 ==> exists|j: int|
                #[trigger] routes_to(bounds(old(self).row()), num, j) && final(self).took_in(
                    *old(self),
                    j,
                    num,
                ),
    {
        let ghost v = num;
        let ghost before = self.buckets@;
        proof {
            lemma_gathered_len(before);
            gathered(before).to_multiset_ensures();
            self@.to_multiset_ensures();
            lemma_size_before_monotone(
                before,
                self.percentile_bucket_idx as int,
                before.len() as int,
            );
        }
        if self.buckets.is_empty() {
            self.buckets.push(Bucket::new(num));
            self.total_count += 1;
            self.inserted = Ghost(self.inserted@.push(v));
            proof {
                let row = self.buckets@;
                assert(row =~= seq![row[0]]);
                lemma_gathered_single(row[0]);
                assert(self@ =~= seq![v]);
                assert(self.percentile * 1 / 100 == 0) by (nonlinear_arith)
                    requires
                        1 <= self.percentile <= 99,
                ;
            }
            return ;
        }
        proof {
            lemma_partitioned_bounds_ascending(before);
        }
        let slot: usize = self.find_slot(&num);
        self.total_count += 1;
        let inserted_into: usize;
        if slot >= self.buckets.len() {
            inserted_into = self.buckets.len() - 1;
            self.buckets[inserted_into].push(num);
        } else if less(&num, self.buckets[slot].min()) {
            if slot == 0 {
                inserted_into = 0;
                let copy = duplicate(&num);
                self.buckets[inserted_into].push(copy);
                self.buckets[inserted_into].update_min_value(num);
            } else {
                inserted_into = slot - 1;
                self.buckets[inserted_into].push(num);
            }
        } else {
            inserted_into = slot;
            self.buckets[inserted_into].push(num);
        }
        if inserted_into < self.percentile_bucket_idx {
            self.percentile_bucket_offset += 1;
        }
        self.needs_rebalancing = true;
        self.inserted = Ghost(self.inserted@.push(v));
        proof {
            let j = inserted_into as int;
            let row = self.buckets@;
            assert(row =~= before.update(j, row[j]));
            lemma_slot_routes(before, v, slot as int, j);
            lemma_push_into_bucket(before, j, row[j], v);
            lemma_replace_bucket(before, j, row[j]);
            lemma_take_in_keeps_partition(before, j, row[j], v);
            lemma_filled_after_replace(before, j, row[j], (MAX_BUCKET_SIZE / 2) as nat);
            old(self)@.to_multiset_ensures();
            assert(self.took_in(*old(self), j, v));
        }
    }

    /// `self` differs from `before` in bucket `a` alone, the bucket of `before`
    /// that holds the tracked rank: the buckets before it and after it are as
    /// they were, in the same order, and where it stood stand the buckets
    /// that it was split into, the one that the pointer names among them.
    /// Their sizes are those that halving the bucket gives, and halving on
    /// the half that holds the tracked rank while that half is over the size
    /// bound, and they hold, one after the other, the stretches of those
    /// sizes of the sorted contents of the bucket. None of them but the one
    /// that the pointer names is marked sorted.
    pub open spec fn reshaped_at(&self, before: Self, a: int) -> bool {
        let grown = self.row().len() - before.row().len();
        &&& split_of(self.row(), before.row(), a)
        &&& size_before(before.row(), a) <= before.rank() < size_before(before.row(), a + 1)
        &&& a <= self.target_bucket_index() <= a + grown
        &&& sizes(self.row().subrange(a, a + grown + 1)) == piece_sizes(
            before.row()[a]@.len(),
            (before.rank() - size_before(before.row(), a)) as nat,
            MAX_BUCKET_SIZE as nat,
        )
        &&& stretches_of(self.row(), a, a + grown, sorted(before.row()[a]@))
        &&& only_marked_sorted(self.row(), a, a + grown, self.target_bucket_index() as int)
    }

    /// `self` is `before` with its pointer settled: the same values and the
    /// same percentile, in a valid tracker that needs no settling. A tracker
    /// that needed none is unchanged in every part. Buckets are never merged,
    /// so the row is no shorter than it was, and only the bucket that held the
    /// tracked rank was split or sorted. Bounds that ascended strictly still
    /// do, unless some value was inserted more often than half the size bound.
    pub open spec fn settled_from(&self, before: Self) -> bool {
        &&& self.wf()
        &&& !self.needs_rebalance()
        &&& self@ == before@
        &&& self.percentile() == before.percentile()
        &&& self.total_count() == before.total_count()
        &&& self.row().len() >= before.row().len()
        &&& !before.needs_rebalance() ==> {
            &&& self.row() == before.row()
            &&& self.target_bucket_index() == before.target_bucket_index()
            &&& self.target_bucket_offset() == before.target_bucket_offset()
        }
        &&& before.row().len() > 0 ==> exists|a: int| #[trigger] self.reshaped_at(before, a)
        &&& bounds_strictly_ascending(before.row()) && before.few_repeats()
            ==> bounds_strictly_ascending(self.row())
    }

    /// The rank that the percentile stands for among the values inserted.
    fn get_target_pos(&self) -> (pos: usize)
        requires
            1 <= self.percentile() <= 99,
        ensures
            pos == target_rank(self.percentile() as nat, self.total_count() as nat),
            pos <= self.total_count(),
            self.total_count() > 0 ==> pos < self.total_count(),
    {
        proof {
            let p = self.percentile as int;
            let n = self.total_count as int;
            assert(0 <= p * n <= 99 * n) by (nonlinear_arith)
                requires
                    0 <= p <= 99,
                    0 <= n,
            ;
        }
        let product: u128 = (self.percentile as u128) * (self.total_count as u128);
        (product / 100) as usize
    }

    /// Settles the cached pointer, if an insertion has unsettled it: walks it
    /// to the bucket that holds the tracked rank, splits that bucket until it
    /// is within the size bound, following the rank into the upper half where
    /// it falls there, and sorts the bucket it ends on.
    fn rebalance(&mut self)
        requires
            old(self).wf(),
        ensures
            final(self).settled_from(*old(self)),
    {
        if !self.needs_rebalancing {
            proof {
                if self.buckets@.len() > 0 {
                    let a = self.percentile_bucket_idx as int;
                    let r = (self.rank() - self.percentile_bucket_offset) as nat;
                    let limit = MAX_BUCKET_SIZE as nat;
                    lemma_size_before_step(self.buckets@, a);
                    lemma_in_parts_starts(self.buckets@, a, r, limit);
                    lemma_in_parts_ends(self.buckets@, self.buckets@, a, a, r, r, limit);
                    assert(self.reshaped_at(*old(self), a));
                }
            }
            return ;
        }
        let target_pos: usize = self.get_target_pos();
        proof {
            let row = self.buckets@;
            lemma_gathered_len(row);
            gathered(row).to_multiset_ensures();
            self@.to_multiset_ensures();
            lemma_size_before_monotone(row, row.len() as int, row.len() as int);
            assert(target_pos < size_before(row, row.len() as int));
            lemma_size_before_at_least(row, row.len() as int);
        }
        if target_pos >= self.percentile_bucket_offset {
            while target_pos - self.percentile_bucket_offset
                >= self.buckets[self.percentile_bucket_idx].len()
                invariant
                    self.wf(),
                    self.needs_rebalancing,
                    self.buckets@ == old(self).buckets@,
                    self@ == old(self)@,
                    self.percentile == old(self).percentile,
                    self.total_count == old(self).total_count,
                    target_pos == self.rank(),
                    target_pos < size_before(self.buckets@, self.buckets@.len() as int),
                    self.buckets@.len() <= self.total_count,
                    self.percentile_bucket_offset <= target_pos,
                decreases self.buckets@.len() - self.percentile_bucket_idx,
            {
                proof {
                    let row = self.buckets@;
                    let idx = self.percentile_bucket_idx as int;
                    lemma_size_before_step(row, idx);
                    lemma_size_before_monotone(row, idx + 1, row.len() as int);
                    assert(idx + 1 < row.len());
                }
                self.percentile_bucket_offset += self.buckets[self.percentile_bucket_idx].len();
                self.percentile_bucket_idx += 1;
            }
        } else {
            while target_pos < self.percentile_bucket_offset
                invariant
                    self.wf(),
                    self.needs_rebalancing,
                    self.buckets@ == old(self).buckets@,
                    self@ == old(self)@,
                    self.percentile == old(self).percentile,
                    self.total_count == old(self).total_count,
                    target_pos == self.rank(),
                    target_pos < self.percentile_bucket_offset
                        + self.buckets@[self.percentile_bucket_idx as int]@.len(),
                decreases self.percentile_bucket_idx,
            {
                proof {
                    let row = self.buckets@;
                    let idx = self.percentile_bucket_idx as int;
                    lemma_size_before_none(row);
                    assert(idx > 0);
                    lemma_size_before_step(row, idx - 1);
                }
                self.percentile_bucket_idx -= 1;
                self.percentile_bucket_offset -= self.buckets[self.percentile_bucket_idx].len();
            }
        }
        let ghost a = self.percentile_bucket_idx as int;
        let ghost start = old(self).buckets@;
        let ghost limit = MAX_BUCKET_SIZE as nat;
        let ghost first = (target_pos - self.percentile_bucket_offset) as nat;
        proof {
            lemma_size_before_step(start, a);
            lemma_in_parts_starts(start, a, first, limit);
        }
        while self.buckets[self.percentile_bucket_idx].len() > MAX_BUCKET_SIZE
            invariant
                self.wf(),
                self.needs_rebalancing,
                self.buckets@.len() >= old(self).buckets@.len(),
                start == old(self).buckets@,
                limit == MAX_BUCKET_SIZE,
                in_parts(
                    self.buckets@,
                    start,
                    a,
                    self.percentile_bucket_idx as int,
                    (target_pos - self.percentile_bucket_offset) as nat,
                    first,
                    limit,
                ),
                bounds_strictly_ascending(old(self).row()) && old(self).few_repeats()
                    ==> bounds_strictly_ascending(self.buckets@),
                self@ == old(self)@,
                self.percentile == old(self).percentile,
                self.total_count == old(self).total_count,
                target_pos == self.rank(),
                self.percentile_bucket_offset <= target_pos < self.percentile_bucket_offset
                    + self.buckets@[self.percentile_bucket_idx as int]@.len(),
            decreases self.buckets@[self.percentile_bucket_idx as int]@.len(),
        {
            let ghost before = self.buckets@;
            let idx: usize = self.percentile_bucket_idx;
            proof {
                lemma_size_before_at_least(before, before.len() as int);
                lemma_size_before_monotone(before, before.len() as int, before.len() as int);
                lemma_gathered_len(before);
                gathered(before).to_multiset_ensures();
                self@.to_multiset_ensures();
            }
            let new_bucket = self.buckets[idx].split_at_median();
            let ghost lower = self.buckets@[idx as int];
            assert(self.buckets@ =~= before.update(idx as int, lower));
            self.buckets.insert(idx + 1, new_bucket);
            proof {
                lemma_split_bucket(before, idx as int, lower, new_bucket);
                lemma_split_keeps_partition(before, idx as int, lower, new_bucket);
                lemma_filled_after_split(
                    before,
                    idx as int,
                    lower,
                    new_bucket,
                    (MAX_BUCKET_SIZE / 2) as nat,
                );
                if bounds_strictly_ascending(old(self).row()) && old(self).few_repeats() {
                    assert forall|v: T| gathered(before).to_multiset().count(v) <= 32 by {
                        assert(self@.to_multiset().count(v) <= MAX_BUCKET_SIZE / 2);
                    }
                    lemma_split_keeps_bounds_strict(before, idx as int, lower, new_bucket, 32);
                }
                lemma_in_parts_split(
                    before,
                    start,
                    a,
                    idx as int,
                    (target_pos - self.percentile_bucket_offset) as nat,
                    first,
                    limit,
                    lower,
                    new_bucket,
                );
            }
            if target_pos - self.percentile_bucket_offset >= self.buckets[idx].len() {
                self.percentile_bucket_offset += self.buckets[idx].len();
                self.percentile_bucket_idx += 1;
            }
        }
        let ghost before = self.buckets@;
        let idx: usize = self.percentile_bucket_idx;
        self.buckets[idx].ensure_sorted();
        proof {
            let after = self.buckets@[idx as int];
            let r = (target_pos - self.percentile_bucket_offset) as nat;
            assert(self.buckets@ =~= before.update(idx as int, after));
            lemma_rearrange_bucket(before, idx as int, after);
            lemma_rearrange_keeps_partition(before, idx as int, after);
            lemma_filled_after_replace(before, idx as int, after, (MAX_BUCKET_SIZE / 2) as nat);
            if bounds_strictly_ascending(before) {
                lemma_same_bound_keeps_bounds_strict(before, idx as int, after);
            }
            lemma_in_parts_rearranged(before, start, a, idx as int, r, first, limit, after);
            lemma_in_parts_ends(self.buckets@, start, a, idx as int, r, first, limit);
        }
        self.needs_rebalancing = false;
        assert(self.reshaped_at(*old(self), a));
    }

    /// The value at the tracked rank, `percentile * count / 100`, of the
    /// values inserted so far in ascending order, each counted as often as it
    /// was inserted. Settles the cached pointer first. Fails while nothing
    /// has been inserted.
    pub fn get_percentile(&mut self) -> (r: Result<T, TrackerError>)
        requires
            old(self).wf(),
        ensures
            final(self).settled_from(*old(self)),
            old(self)@.len() == 0 <==> r is Err,
            r matches Err(e) ==> e == TrackerError::Empty,
            r matches Ok(v) ==> v == sorted(old(self)@)[old(self).rank() as int],
    {
        self.rebalance();
        proof {
            self.lemma_buckets_hold_the_values();
        }
        if self.buckets.is_empty() {
            return Err(TrackerError::Empty);
        }
        proof {
            self.lemma_settled_target_holds_the_percentile();
        }
        let target_pos: usize = self.get_target_pos();
        let offset_into_bucket: usize = target_pos - self.percentile_bucket_offset;
        let value = duplicate(
            self.buckets[self.percentile_bucket_idx].get_value_at(offset_into_bucket),
        );
        Ok(value)
    }

    /// Settles the cached pointer, then adds up the sizes of the buckets
    /// before the bucket it names and tells whether the cached offset is that
    /// sum. In a valid tracker it always is.
    pub fn verify_bucket_offset(&mut self) -> (ok: bool)
        requires
            old(self).wf(),
        ensures
            final(self).settled_from(*old(self)),
            ok == (final(self).target_bucket_offset() == size_before(
                final(self).row(),
                final(self).target_bucket_index() as int,
            )),
            ok,
    {
        self.rebalance();
        let mut sum: usize = 0;
        let mut i: usize = 0;
        proof {
            lemma_size_before_none(self.buckets@);
        }
        while i < self.percentile_bucket_idx
            invariant
                self.wf(),
                i <= self.percentile_bucket_idx,
                sum == size_before(self.buckets@, i as int),
            decreases self.percentile_bucket_idx - i,
        {
            proof {
                lemma_size_before_step(self.buckets@, i as int);
                lemma_size_before_monotone(
                    self.buckets@,
                    i + 1,
                    self.percentile_bucket_idx as int,
                );
            }
            sum += self.buckets[i].len();
            i += 1;
        }
        sum == self.percentile_bucket_offset
    }
}

} // verus!
