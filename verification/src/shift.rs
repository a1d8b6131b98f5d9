//! A completely safe interface for shifting a vector's elements in bulk.
//!
//! The buffer being rebuilt is a tri-partition: an original region of
//! elements not yet moved, a gap of reserved room, and a shifted region of
//! elements already standing at their final position. The shifted region
//! grows leftward from the end as the original region shrinks, and the
//! operation is complete once the gap between them is empty.
//!
//! Here the original region and the shifted region live in two vectors;
//! the gap is a counter of the room still reserved between them. The
//! shifted region is stored right-to-left, so that growing it on its left
//! is a push, and `finish` reassembles the whole buffer.

use vstd::prelude::*;

verus! {

/// The in-progress state of one bulk shift over a buffer.
pub struct BulkShifter<T> {
    /// The original region: elements not yet moved, still at their
    /// original positions.
    target: Vec<T>,
    /// The shifted region, stored in reverse: `shifted[0]` is the
    /// rightmost finished element.
    shifted: Vec<T>,
    /// The size of the gap of reserved room between the two regions.
    gap: usize,
}

impl<T> BulkShifter<T> {
    /// The original region, in order.
    pub closed spec fn original_view(&self) -> Seq<T> {
        self.target@
    }

    /// The shifted region, in its final left-to-right order.
    pub closed spec fn shifted_view(&self) -> Seq<T> {
        self.shifted@.reverse()
    }

    /// How much reserved room is left between the two regions.
    pub closed spec fn gap_size(&self) -> int {
        self.gap as int
    }

    /// Create a shifter over `target` with room reserved for
    /// `desired_insertions` new elements.
    pub fn new(target: Vec<T>, desired_insertions: usize) -> (s: Self)
        ensures
            s.original_view() == target@,
            s.shifted_view() == Seq::<T>::empty(),
            s.gap_size() == desired_insertions as int,
    {
        let s = BulkShifter { target, shifted: Vec::with_capacity(desired_insertions), gap: desired_insertions };
        proof {
            assert(s.shifted@.reverse() =~= Seq::<T>::empty());
        }
        s
    }

    /// Whether the gap is empty, so that the buffer is fully rebuilt.
    pub fn is_finished(&self) -> (b: bool)
        ensures
            b == (self.gap_size() == 0),
    {
        self.gap == 0
    }

    /// The length of the original region.
    pub fn len(&self) -> (n: usize)
        ensures
            n == self.original_view().len(),
    {
        self.target.len()
    }

    /// The number of elements already shifted to their final position.
    pub fn shifted_len(&self) -> (n: usize)
        ensures
            n == self.shifted_view().len(),
    {
        let n = self.shifted.len();
        proof {
            assert(self.shifted@.reverse().len() == self.shifted@.len());
        }
        n
    }

    /// Move the run of original elements `[start, len)` onto the left end
    /// of the shifted region, preserving their order. The gap is
    /// untouched: the run leaves the original region and reappears in the
    /// shifted one.
    pub fn shift_original(&mut self, start: usize)
        requires
            start <= old(self).original_view().len(),
        ensures
            final(self).original_view() == old(self).original_view().take(start as int),
            final(self).shifted_view() == old(self).original_view().skip(start as int)
                + old(self).shifted_view(),
            final(self).gap_size() == old(self).gap_size(),
    {
        let ghost orig_t = self.target@;
        let ghost orig_s = self.shifted@;
        let mut i: usize = self.target.len();
        while i > start
            invariant
                start <= i <= orig_t.len(),
                self.target@ == orig_t.take(i as int),
                self.shifted@.reverse() == orig_t.skip(i as int) + orig_s.reverse(),
                self.gap == old(self).gap,
            decreases i,
        {
            let x = self.target.pop().unwrap();
            proof {
                assert(orig_t.take(i as int).last() == orig_t[i - 1]);
                assert(orig_t.take(i as int).drop_last() =~= orig_t.take(i - 1));
            }
            let ghost before = self.shifted@;
            self.shifted.push(x);
            proof {
                lemma_reverse_push(before, x);
                assert(seq![orig_t[i - 1]] + (orig_t.skip(i as int) + orig_s.reverse())
                    =~= orig_t.skip(i - 1) + orig_s.reverse());
            }
            i = i - 1;
        }
        proof {
            assert(self.target@ =~= orig_t.take(start as int));
        }
    }

    /// Write one value into the rightmost free slot of the gap: the gap
    /// shrinks by one and the value becomes the leftmost element of the
    /// shifted region.
    pub fn push_shifted(&mut self, value: T)
        requires
            old(self).gap_size() > 0,
        ensures
            final(self).original_view() == old(self).original_view(),
            final(self).shifted_view() == seq![value] + old(self).shifted_view(),
            final(self).gap_size() == old(self).gap_size() - 1,
    {
        proof {
            lemma_reverse_push(self.shifted@, value);
        }
        self.shifted.push(value);
        self.gap = self.gap - 1;
    }

    /// The elements that have been shifted to the right, cloned out in
    /// their final left-to-right order.
    pub fn shifted_elements(&self) -> (r: Vec<T>) where T: Clone
        ensures
            r@.len() == self.shifted_view().len(),
            forall|i: int| 0 <= i < r@.len() ==> cloned(self.shifted_view()[i], #[trigger] r@[i]),
    {
        let mut r: Vec<T> = Vec::new();
        let mut i: usize = self.shifted.len();
        while i > 0
            invariant
                i <= self.shifted@.len(),
                r@.len() == self.shifted@.len() - i,
                forall|j: int| 0 <= j < r@.len() ==> cloned(
                    self.shifted@.reverse()[j],
                    #[trigger] r@[j],
                ),
            decreases i,
        {
            let x = self.shifted[i - 1].clone();
            proof {
                assert(self.shifted@.reverse()[r@.len() as int] == self.shifted@[i - 1]);
            }
            r.push(x);
            i = i - 1;
        }
        r
    }

    /// Finalize the buffer once the gap is empty: the original and
    /// shifted regions are joined and ownership is returned.
    pub fn finish(self) -> (r: Vec<T>)
        requires
            self.gap_size() == 0,
        ensures
            r@ == self.original_view() + self.shifted_view(),
    {
        let BulkShifter { mut target, mut shifted, gap: _ } = self;
        let ghost orig_t = target@;
        let ghost orig_s = shifted@;
        while shifted.len() > 0
            invariant
                target@ + shifted@.reverse() == orig_t + orig_s.reverse(),
            decreases shifted.len(),
        {
            let ghost before = shifted@;
            let x = shifted.pop().unwrap();
            target.push(x);
            proof {
                assert(shifted@ =~= before.drop_last());
                lemma_reverse_push(before.drop_last(), before.last());
                assert(before.drop_last().push(before.last()) =~= before);
                assert((target@.drop_last()) + before.reverse()
                    =~= target@ + before.drop_last().reverse());
            }
        }
        proof {
            assert(shifted@.reverse() =~= Seq::<T>::empty());
            assert(target@ + shifted@.reverse() =~= target@);
        }
        target
    }
}

/// Reversing a sequence after pushing one element on its right puts that
/// element at the front of the reversal.
proof fn lemma_reverse_push<T>(s: Seq<T>, x: T)
    ensures
        s.push(x).reverse() == seq![x] + s.reverse(),
{
    assert(s.push(x).reverse() =~= seq![x] + s.reverse());
}

} // verus!
