//! A bucket: some of the inserted values, kept in no particular order until an
//! order is asked for, together with a cached lower bound.

use crate::order::{ascending, duplicate, le, lemma_order_laws, orderable, sorted};
use crate::sorting::{
    divided_at, lemma_divided_position_is_sorted_position, lemma_sorted_of_ascending,
    lemma_sorted_of_rearranged, lemma_sorted_of_two_parts, select_nth_unstable, sort_unstable,
};
use vstd::prelude::*;

verus! {

/// A container for a subset of the inserted values, with a cached lower bound.
///
/// The view of a bucket is its contents in their current order.
pub struct Bucket<T: Ord + Clone> {
    /// The cached lower bound.
    min_value: T,
    /// The values, in insertion order until they are sorted.
    values: Vec<T>,
    /// Set only while `values` is in ascending order.
    sorted: bool,
}

impl<T: Ord + Clone> View for Bucket<T> {
    type V = Seq<T>;

    closed spec fn view(&self) -> Seq<T> {
        self.values@
    }
}

impl<T: Ord + Clone> Bucket<T> {
    /// The cached lower bound.
    pub closed spec fn bound(&self) -> T {
        self.min_value
    }

    /// Whether the bucket is marked as being in ascending order.
    pub closed spec fn marked_sorted(&self) -> bool {
        self.sorted
    }

    /// The bucket is valid: its element type is orderable, and while it is
    /// marked sorted its contents are in ascending order.
    pub open spec fn wf(&self) -> bool {
        &&& orderable::<T>()
        &&& self.marked_sorted() ==> ascending(self@)
    }

    /// The cached bound is the least value of the contents.
    pub open spec fn bound_is_minimum(&self) -> bool {
        &&& self@.contains(self.bound())
        &&& forall|i: int| 0 <= i < self@.len() ==> le(self.bound(), #[trigger] self@[i])
    }

    /// A bucket that holds `value` alone, which is then its bound.
    pub fn new(value: T) -> (b: Self)
        requires
            orderable::<T>(),
        ensures
            b.wf(),
            b@ == seq![value],
            b.bound() == value,
            b.marked_sorted(),
            b.bound_is_minimum(),
    {
        let min_value = duplicate(&value);
        let mut values = Vec::new();
        values.push(value);
        let b = Bucket { min_value, values, sorted: true };
        proof {
            lemma_order_laws::<T>();
            assert(b@ =~= seq![value]);
            assert(b@[0] == value);
        }
        b
    }

    /// The cached lower bound.
    pub fn min(&self) -> (m: &T)
        ensures
            *m == self.bound(),
    {
        &self.min_value
    }

    /// The number of values in the bucket.
    pub fn len(&self) -> (n: usize)
        ensures
            n == self@.len(),
    {
        self.values.len()
    }

    /// Appends `num` to the contents and marks the bucket unsorted. The bound
    /// stays as it is, whatever `num` is.
    pub fn push(&mut self, num: T)
        requires
            old(self).wf(),
        ensures
            final(self).wf(),
            final(self)@ == old(self)@.push(num),
            final(self).bound() == old(self).bound(),
            !final(self).marked_sorted(),
    {
        self.values.push(num);
        self.sorted = false;
    }

    /// Overwrites the cached bound with `new_min`, whatever the contents are.
    pub fn update_min_value(&mut self, new_min: T)
        requires
            old(self).wf(),
        ensures
            final(self).wf(),
            final(self).bound() == new_min,
            final(self)@ == old(self)@,
            final(self).marked_sorted() == old(self).marked_sorted(),
    {
        self.min_value = new_min;
    }

    /// Puts the contents in ascending order, unless the bucket is marked
    /// sorted, in which case nothing changes.
    pub fn ensure_sorted(&mut self)
        requires
            old(self).wf(),
        ensures
            final(self).wf(),
            final(self).marked_sorted(),
            final(self)@ == sorted(old(self)@),
            ascending(final(self)@),
            final(self)@.to_multiset() == old(self)@.to_multiset(),
            final(self)@.len() == old(self)@.len(),
            final(self).bound() == old(self).bound(),
            old(self).marked_sorted() ==> final(self)@ == old(self)@,
    {
        if !self.sorted {
            sort_unstable(&mut self.values);
            self.sorted = true;
            proof {
                lemma_sorted_of_rearranged(old(self)@, self@);
                lemma_sorted_of_ascending(self@);
                old(self)@.to_multiset_ensures();
                self@.to_multiset_ensures();
            }
        } else {
            proof {
                lemma_sorted_of_ascending(self@);
            }
        }
    }

    /// The value at position `index` of the contents as they are ordered now.
    pub fn get_value_at(&self, index: usize) -> (v: &T)
        requires
            index < self@.len(),
        ensures
            *v == self@[index as int],
    {
        &self.values[index]
    }

    /// Splits the bucket around its median. With `n` values in the bucket, the
    /// `n / 2` smallest stay, in no particular order, and the others leave in
    /// a new bucket, in no particular order but for the least of them, the
    /// median, which comes first and is the bound of the new bucket.
    pub fn split_at_median(&mut self) -> (upper: Bucket<T>)
        requires
            old(self).wf(),
            old(self)@.len() >= 1,
        ensures
            final(self).wf(),
            upper.wf(),
            final(self)@.len() == old(self)@.len() / 2,
            upper@.len() == old(self)@.len() - old(self)@.len() / 2,
            (final(self)@ + upper@).to_multiset() == old(self)@.to_multiset(),
            divided_at(final(self)@ + upper@, final(self)@.len() as int),
            sorted(old(self)@) == sorted(final(self)@) + sorted(upper@),
            upper.bound() == sorted(old(self)@)[(old(self)@.len() / 2) as int],
            upper.bound() == upper@[0],
            upper.bound_is_minimum(),
            final(self).bound() == old(self).bound(),
            !final(self).marked_sorted(),
            !upper.marked_sorted(),
    {
        let mid_idx: usize = self.values.len() / 2;
        select_nth_unstable(&mut self.values, mid_idx);
        let ghost arranged = self.values@;
        let pivot_value = duplicate(&self.values[mid_idx]);
        let upper_values = self.values.split_off(mid_idx);
        self.sorted = false;
        let upper = Bucket { min_value: pivot_value, values: upper_values, sorted: false };
        proof {
            arranged.to_multiset_ensures();
            old(self)@.to_multiset_ensures();
            assert(self@ + upper@ =~= arranged);
            assert(upper@[0] == arranged[mid_idx as int]);
            assert forall|i: int| 0 <= i < upper@.len() implies le(
                upper.bound(),
                #[trigger] upper@[i],
            ) by {
                lemma_order_laws::<T>();
                assert(upper@[i] == arranged[mid_idx + i]);
            }
            assert forall|i: int, j: int| 0 <= i < mid_idx <= j < arranged.len() implies le(
                #[trigger] arranged[i],
                #[trigger] arranged[j],
            ) by {
                lemma_order_laws::<T>();
                assert(le(arranged[i], arranged[mid_idx as int]));
            }
            lemma_sorted_of_two_parts(arranged, mid_idx as int);
            assert(arranged.take(mid_idx as int) =~= self@);
            assert(arranged.skip(mid_idx as int) =~= upper@);
            lemma_sorted_of_rearranged(old(self)@, arranged);
            lemma_divided_position_is_sorted_position(arranged, mid_idx as int);
        }
        upper
    }
}

} // verus!
