//! What holds of every valid tracker, and of a tracker before and after its
//! pointer is settled. Each law is proved from the tracker's public contract.

use crate::order::{ascending, le, leq, lemma_order_laws, lt, sorted};
use crate::partition::{
    bounds_ascending, bounds_strictly_ascending, lemma_partitioned_bounds_ascending,
    lemma_position_divides, lemma_size_before_at_least, lemma_strict_bounds_through_parts,
};
use crate::row::{
    gathered, lemma_filled_size_before, lemma_gathered_len, lemma_size_before_monotone,
    lemma_size_before_step, size_before, sizes,
};
use crate::sorting::{
    lemma_divided_position_is_sorted_position, lemma_least_is_first_sorted, lemma_sorted_len,
    lemma_sorted_of_rearranged,
};
use crate::splitting::{piece_sizes, split_of, stretches_of};
use crate::tracker::{PercentileTracker, MAX_BUCKET_SIZE};
use vstd::prelude::*;

verus! {

impl<T: Ord + Clone> PercentileTracker<T> {
    /// In a valid tracker the bounds of the buckets never descend, and each
    /// bound is the least value of its bucket.
    pub proof fn lemma_bounds_in_order(&self)
        requires
            self.wf(),
        ensures
            bounds_ascending(self.row()),
            forall|i: int|
                0 <= i < self.row().len() ==> (#[trigger] self.row()[i]).bound_is_minimum(),
    {
        lemma_partitioned_bounds_ascending(self.row());
    }

    /// In a valid tracker the buckets hold the values inserted, each as often
    /// as it was inserted, and no bucket is empty: there are buckets exactly
    /// when there are values, and never more buckets than values.
    pub proof fn lemma_buckets_hold_the_values(&self)
        requires
            self.wf(),
        ensures
            gathered(self.row()).to_multiset() == self@.to_multiset(),
            gathered(self.row()).len() == self@.len(),
            self.row().len() <= self@.len(),
            self.row().len() == 0 <==> self@.len() == 0,
            forall|i: int| 0 <= i < self.row().len() ==> (#[trigger] self.row()[i])@.len() > 0,
    {
        let row = self.row();
        gathered(row).to_multiset_ensures();
        self@.to_multiset_ensures();
        lemma_gathered_len(row);
        lemma_size_before_at_least(row, row.len() as int);
        lemma_size_before_monotone(row, row.len() as int, row.len() as int);
        if row.len() == 0 {
            assert(gathered(row) =~= Seq::<T>::empty());
        }
        assert forall|i: int| 0 <= i < row.len() implies (#[trigger] row[i])@.len() > 0 by {
            assert(row[i].bound_is_minimum());
        }
    }

    /// A valid tracker has one bucket at most, or for each of its buckets at
    /// least half the size bound of values.
    pub proof fn lemma_bucket_count_is_bounded(&self)
        requires
            self.wf(),
        ensures
            self.row().len() <= 1 || self.row().len() * (MAX_BUCKET_SIZE / 2) <= self@.len(),
            forall|i: int|
                0 <= i < self.row().len() && self.row().len() > 1 ==> (
                #[trigger] self.row()[i])@.len() >= MAX_BUCKET_SIZE / 2,
    {
        let row = self.row();
        if row.len() > 1 {
            self.lemma_buckets_hold_the_values();
            lemma_filled_size_before(row, row.len() as int, (MAX_BUCKET_SIZE / 2) as nat);
            lemma_size_before_monotone(row, row.len() as int, row.len() as int);
            lemma_gathered_len(row);
            assert(row.len() * (MAX_BUCKET_SIZE / 2) == (MAX_BUCKET_SIZE / 2) * row.len())
                by (nonlinear_arith);
        }
    }

    /// After settling, the bound of each bucket that the bucket holding the
    /// tracked rank was split into is the value at which its stretch of the
    /// sorted contents of that bucket begins.
    pub proof fn lemma_bounds_of_the_parts(&self, before: Self, a: int, k: int)
        requires
            self.wf(),
            self.reshaped_at(before, a),
            a <= k <= a + (self.row().len() - before.row().len()),
        ensures
            0 <= size_before(self.row(), k) - size_before(self.row(), a) < before.row()[a]@.len(),
            self.row()[k].bound() == sorted(before.row()[a]@)[size_before(self.row(), k)
                - size_before(self.row(), a)],
    {
        reveal(stretches_of);
        reveal(split_of);
        let row = self.row();
        let whole = sorted(before.row()[a]@);
        let to = a + (row.len() - before.row().len());
        lemma_sorted_len(before.row()[a]@);
        lemma_size_before_monotone(row, a, k);
        lemma_size_before_monotone(row, k + 1, to + 1);
        lemma_size_before_step(row, k);
        assert(row[k].wf() && row[k].bound_is_minimum());
        lemma_least_is_first_sorted(row[k]@, row[k].bound());
        let stretch = whole.subrange(
            size_before(row, k) - size_before(row, a),
            size_before(row, k + 1) - size_before(row, a),
        );
        assert(sorted(row[k]@) == stretch);
        assert(stretch[0] == whole[size_before(row, k) - size_before(row, a)]);
    }

    /// After settling, the bounds ascend strictly exactly when they did
    /// before, the values at which the stretches of the parts begin ascend
    /// strictly, and the last of these values is below the bound of the
    /// bucket that follows the parts.
    pub proof fn lemma_strict_bounds_after_settling(&self, before: Self, a: int)
        requires
            self.wf(),
            before.wf(),
            self.reshaped_at(before, a),
        ensures
            bounds_strictly_ascending(self.row()) <==> {
                let whole = sorted(before.row()[a]@);
                let last = a + (self.row().len() - before.row().len());
                let base = size_before(self.row(), a);
                &&& bounds_strictly_ascending(before.row())
                &&& forall|k: int|
                    a <= k < last ==> lt(
                        whole[size_before(self.row(), k) - base],
                        #[trigger] whole[size_before(self.row(), k + 1) - base],
                    )
                &&& a + 1 < before.row().len() ==> lt(
                    whole[size_before(self.row(), last) - base],
                    before.row()[a + 1].bound(),
                )
            },
    {
        let row = self.row();
        let old_row = before.row();
        let whole = sorted(old_row[a]@);
        let last = a + (row.len() - old_row.len());
        let base = size_before(row, a);
        assert(split_of(row, old_row, a));
        assert(0 <= a < old_row.len() && a <= last) by {
            reveal(split_of);
        }
        assert forall|i: int| 0 <= i < a implies (#[trigger] row[i]).bound()
            == old_row[i].bound() by {
            reveal(split_of);
        }
        assert forall|i: int| a < i < old_row.len() implies row[i + (last - a)].bound() == (
        #[trigger] old_row[i]).bound() by {
            reveal(split_of);
        }
        assert forall|k: int| a <= k <= last implies #[trigger] row[k].bound() == whole[size_before(
            row,
            k,
        ) - base] by {
            self.lemma_bounds_of_the_parts(before, a, k);
        }
        assert(row[a].bound() == old_row[a].bound() && le(old_row[a].bound(), row[last].bound()))
            by {
            assert(old_row[a].bound_is_minimum());
            lemma_least_is_first_sorted(old_row[a]@, old_row[a].bound());
            lemma_sorted_of_rearranged(old_row[a]@, old_row[a]@);
            self.lemma_bounds_of_the_parts(before, a, a);
            self.lemma_bounds_of_the_parts(before, a, last);
            let end = size_before(row, last) - base;
            if end > 0 {
                assert(leq::<T>()(whole[0], whole[end]));
            } else {
                lemma_order_laws::<T>();
            }
        }
        lemma_strict_bounds_through_parts(row, old_row, a, last);
        assert forall|k: int| a <= k < last implies (lt(
            whole[size_before(row, k) - base],
            #[trigger] whole[size_before(row, k + 1) - base],
        ) <==> lt(row[k].bound(), row[k + 1].bound())) by {
            assert(row[k].bound() == whole[size_before(row, k) - base]);
            assert(row[k + 1].bound() == whole[size_before(row, k + 1) - base]);
        }
    }

    /// After settling, every bucket is within the size bound exactly when
    /// every bucket that was left as it was is within it, and every part that
    /// the bucket holding the tracked rank was split into.
    pub proof fn lemma_size_bound_after_settling(&self, before: Self, a: int)
        requires
            self.reshaped_at(before, a),
        ensures
            (forall|i: int|
                0 <= i < self.row().len() ==> (#[trigger] self.row()[i])@.len() <= MAX_BUCKET_SIZE)
                <==> {
                let parts = piece_sizes(
                    before.row()[a]@.len(),
                    (before.rank() - size_before(before.row(), a)) as nat,
                    MAX_BUCKET_SIZE as nat,
                );
                &&& forall|i: int|
                    0 <= i < before.row().len() && i != a ==> (#[trigger] before.row()[i])@.len()
                        <= MAX_BUCKET_SIZE
                &&& forall|k: int| 0 <= k < parts.len() ==> #[trigger] parts[k] <= MAX_BUCKET_SIZE
            },
    {
        reveal(split_of);
        let row = self.row();
        let old_row = before.row();
        let grown = row.len() - old_row.len();
        let parts = piece_sizes(
            old_row[a]@.len(),
            (before.rank() - size_before(old_row, a)) as nat,
            MAX_BUCKET_SIZE as nat,
        );
        let here = sizes(row.subrange(a, a + grown + 1));
        assert(here == parts);
        assert(parts.len() == grown + 1);
        if forall|i: int| 0 <= i < row.len() ==> (#[trigger] row[i])@.len() <= MAX_BUCKET_SIZE {
            assert forall|i: int| 0 <= i < old_row.len() && i != a implies (
            #[trigger] old_row[i])@.len() <= MAX_BUCKET_SIZE by {
                if i < a {
                    assert(row[i] == old_row[i]);
                } else {
                    assert(row[i + grown] == old_row[i]);
                }
            }
            assert forall|k: int| 0 <= k < parts.len() implies #[trigger] parts[k]
                <= MAX_BUCKET_SIZE by {
                assert(here[k] == row[a + k]@.len());
            }
        }
        if (forall|i: int|
            0 <= i < old_row.len() && i != a ==> (#[trigger] old_row[i])@.len() <= MAX_BUCKET_SIZE)
            && (forall|k: int| 0 <= k < parts.len() ==> #[trigger] parts[k] <= MAX_BUCKET_SIZE) {
            assert forall|i: int| 0 <= i < row.len() implies (#[trigger] row[i])@.len()
                <= MAX_BUCKET_SIZE by {
                if i < a {
                    assert(row[i] == old_row[i]);
                } else if i <= a + grown {
                    assert(here[i - a] == row[i]@.len());
                    assert(parts[i - a] <= MAX_BUCKET_SIZE);
                } else {
                    assert(row[(i - grown) + grown] == old_row[i - grown]);
                }
            }
        }
    }

    /// In a valid tracker, settled or not, the cached offset is the sum of
    /// the sizes of the buckets before the bucket that the pointer names.
    pub proof fn lemma_offset_counts_the_buckets_before(&self)
        requires
            self.wf(),
        ensures
            self.target_bucket_offset() == size_before(
                self.row(),
                self.target_bucket_index() as int,
            ),
            self.target_bucket_offset() == gathered(
                self.row().take(self.target_bucket_index() as int),
            ).len(),
            self.target_bucket_offset() <= self@.len(),
    {
        let row = self.row();
        let idx = self.target_bucket_index() as int;
        lemma_gathered_len(row.take(idx));
        self.lemma_buckets_hold_the_values();
        lemma_gathered_len(row);
        lemma_size_before_monotone(row, idx, row.len() as int);
    }

    /// Once the pointer of a tracker with values is settled, the bucket that
    /// it names is within the size bound and in ascending order, and at the
    /// tracked rank less the cached offset it holds the value that stands at
    /// the tracked rank among all the values inserted, in ascending order.
    pub proof fn lemma_settled_target_holds_the_percentile(&self)
        requires
            self.wf(),
            !self.needs_rebalance(),
            self@.len() > 0,
        ensures
            self.row().len() > 0,
            self.settled(),
            self.row()[self.target_bucket_index() as int]@.len() <= MAX_BUCKET_SIZE,
            ascending(self.row()[self.target_bucket_index() as int]@),
            self.row()[self.target_bucket_index() as int]@[self.rank()
                - self.target_bucket_offset()] == sorted(self@)[self.rank() as int],
    {
        self.lemma_buckets_hold_the_values();
        let row = self.row();
        let idx = self.target_bucket_index() as int;
        assert(row[idx].wf());
        lemma_position_divides(row, idx, self.rank() - self.target_bucket_offset());
        lemma_divided_position_is_sorted_position(gathered(row), self.rank() as int);
        lemma_sorted_of_rearranged(gathered(row), self@);
    }
}

} // verus!
