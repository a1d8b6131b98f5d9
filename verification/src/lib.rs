//! Batched insertions into a vector in a single pass.
//!
//! Calling `Vec::insert(index, value)` in a loop moves the tail of the
//! vector once per call, which can add up to quadratic cost. An
//! [`InsertionSet`] queues many pending insertions and applies them all
//! at once, moving every element at most one time.

use vstd::prelude::*;

pub mod laws;
pub mod shift;
pub mod sorting;

use crate::shift::BulkShifter;
use crate::sorting::insertion_sort_by_key;
use crate::sorting::lemma_stable_sorted_bound;
use crate::sorting::lemma_stable_sorted_len;
use crate::sorting::lemma_stable_sorted_sorted;
use crate::sorting::stable_sorted;

verus! {

/// A value that is pending insertion.
pub struct Insertion<T> {
    /// Where in the original vector to insert this value.
    ///
    /// This is equivalent to the index argument of `Vec::insert`.
    pub index: usize,
    /// The value to be inserted.
    pub element: T,
}

impl<T> Insertion<T> {
    /// Create a new Insertion.
    pub fn new(index: usize, element: T) -> (r: Self)
        ensures
            r.index == index,
            r.element == element,
    {
        Insertion { index, element }
    }
}

impl<T> From<(usize, T)> for Insertion<T> {
    /// An Insertion from an (index, element) pair.
    fn from(tuple: (usize, T)) -> Self {
        Insertion::new(tuple.0, tuple.1)
    }
}

impl<T> vstd::std_specs::convert::FromSpecImpl<(usize, T)> for Insertion<T> {
    open spec fn obeys_from_spec() -> bool {
        true
    }

    open spec fn from_spec(tuple: (usize, T)) -> Self {
        Insertion { index: tuple.0, element: tuple.1 }
    }
}

/// Holds when the insertions in `s` are ordered by non-decreasing index.
pub open spec fn sorted_by_index<T>(s: Seq<Insertion<T>>) -> bool {
    forall|i: int, j: int| 0 <= i <= j < s.len() ==> #[trigger] s[i].index <= #[trigger] s[j].index
}

/// Holds when every insertion in `s` has an index of at most `len`.
pub open spec fn indices_bounded<T>(s: Seq<Insertion<T>>, len: int) -> bool {
    forall|i: int| 0 <= i < s.len() ==> #[trigger] s[i].index <= len
}

/// The sequence that results from applying a batch of insertions that is
/// already sorted by non-decreasing index.
///
/// The batch is consumed from its highest index down, mirroring the
/// executable driver: the run of original elements at and after the last
/// insertion's index ends up to the right of the inserted element, and the
/// rest of the batch is applied to the prefix before it.
pub open spec fn merge_sorted<T>(orig: Seq<T>, batch: Seq<Insertion<T>>) -> Seq<T>
    decreases batch.len(),
{
    if batch.len() == 0 {
        orig
    } else {
        let ins = batch.last();
        merge_sorted(orig.take(ins.index as int), batch.drop_last())
            + seq![ins.element]
            + orig.skip(ins.index as int)
    }
}

/// The sequence that results from queueing the batch `batch` (in queue
/// order) and applying it to `orig`: the batch is first stable-sorted by
/// index, then merged.
pub open spec fn apply_spec<T>(orig: Seq<T>, batch: Seq<Insertion<T>>) -> Seq<T> {
    merge_sorted(orig, stable_sorted(batch))
}

/// The indices of a batch of insertions, in batch order.
pub open spec fn batch_indices<T>(s: Seq<Insertion<T>>) -> Seq<usize> {
    s.map_values(|x: Insertion<T>| x.index)
}

/// Holds when `idxs` is ordered by non-decreasing value.
pub open spec fn positions_sorted(idxs: Seq<usize>) -> bool {
    forall|i: int, j: int| 0 <= i <= j < idxs.len() ==> #[trigger] idxs[i] <= #[trigger] idxs[j]
}

/// Holds when `idxs` is ordered by non-increasing value.
pub open spec fn positions_rev_sorted(idxs: Seq<usize>) -> bool {
    forall|i: int, j: int| 0 <= i <= j < idxs.len() ==> #[trigger] idxs[i] >= #[trigger] idxs[j]
}

/// Holds when every value in `idxs` is at most `len`.
pub open spec fn positions_bounded(idxs: Seq<usize>, len: int) -> bool {
    forall|i: int| 0 <= i < idxs.len() ==> #[trigger] idxs[i] <= len
}

/// The provenance tags of the untouched run of original elements
/// `[start, end)`.
pub open spec fn original_run(start: int, end: int) -> Seq<OriginalLocation> {
    Seq::new((end - start) as nat, |i: int| OriginalLocation::Original((start + i) as usize))
}

/// The pairs reported for a run of original elements `[start, end)` that
/// lands at final positions `[base, base + (end - start))`.
pub open spec fn range_pairs(start: int, end: int, base: int) -> Seq<(OriginalLocation, usize)> {
    Seq::new(
        (end - start) as nat,
        |i: int| (OriginalLocation::Original((start + i) as usize), (base + i) as usize),
    )
}

/// The provenance tag of every final position of the merge, in final
/// position order, for a target of length `orig_len` and a batch with the
/// sorted index sequence `idxs`.
///
/// The batch is consumed from its highest index down, as the driver does:
/// the run of original elements at and after the last index lands at the
/// end, preceded by that insertion, and the rest of the batch maps the
/// prefix before it. Insertion tags carry the insertion's position in the
/// sorted batch.
pub open spec fn location_tags(orig_len: int, idxs: Seq<usize>) -> Seq<OriginalLocation>
    decreases idxs.len(),
{
    if idxs.len() == 0 {
        original_run(0, orig_len)
    } else {
        location_tags(idxs.last() as int, idxs.drop_last())
            + seq![OriginalLocation::Insertion((idxs.len() - 1) as usize)]
            + original_run(idxs.last() as int, orig_len)
    }
}

/// The pairs reported by the location oracle, in the order it emits
/// them: batch consumed from its highest index down, each step first
/// reporting the moved run of original elements in ascending index order
/// and then the insertion itself, and finally the untouched prefix.
/// Insertion tags are numbered by position in the sorted batch.
pub open spec fn location_pairs(orig_len: int, idxs: Seq<usize>) -> Seq<(OriginalLocation, usize)>
    decreases idxs.len(),
{
    if idxs.len() == 0 {
        range_pairs(0, orig_len, 0)
    } else {
        let idx = idxs.last() as int;
        let moved = orig_len - idx;
        let ss = orig_len + idxs.len();
        range_pairs(idx, orig_len, ss - moved)
            + seq![(OriginalLocation::Insertion((idxs.len() - 1) as usize), (ss - moved - 1) as usize)]
            + location_pairs(idx, idxs.drop_last())
    }
}

/// The pairs reported by the standalone location oracle, which is handed
/// the indices already in reverse sorted order and numbers each insertion
/// by the order of consumption, starting at `next_id`.
pub open spec fn raw_pairs(orig_len: int, rev: Seq<usize>, next_id: int) -> Seq<
    (OriginalLocation, usize),
>
    decreases rev.len(),
{
    if rev.len() == 0 {
        range_pairs(0, orig_len, 0)
    } else {
        let idx = rev.first() as int;
        let moved = orig_len - idx;
        let ss = orig_len + rev.len();
        range_pairs(idx, orig_len, ss - moved)
            + seq![(OriginalLocation::Insertion(next_id as usize), (ss - moved - 1) as usize)]
            + raw_pairs(idx, rev.drop_first(), next_id + 1)
    }
}

/// The original location of an element (before a set of insertions is
/// applied).
#[derive(Copy, Clone, Debug, PartialEq, Eq)]
pub enum OriginalLocation {
    /// The element was a queued insertion, numbered by its position in
    /// the batch once sorted.
    Insertion(usize),
    /// The element was originally part of the vector, at this index.
    Original(usize),
}

/// A set of pending insertions on a `Vec`.
pub struct InsertionSet<T> {
    insertions: Vec<Insertion<T>>,
}

impl<T> View for InsertionSet<T> {
    type V = Seq<Insertion<T>>;

    closed spec fn view(&self) -> Seq<Insertion<T>> {
        self.insertions@
    }
}

impl<T> InsertionSet<T> {
    /// Create a new, empty InsertionSet.
    pub fn new() -> (r: Self)
        ensures
            r@ == Seq::<Insertion<T>>::empty(),
    {
        let r = InsertionSet { insertions: Vec::new() };
        proof {
            assert(r@ =~= Seq::<Insertion<T>>::empty());
        }
        r
    }

    /// Queue the specified insertion.
    ///
    /// If there are multiple insertions at the same index, they will be
    /// applied in the order queued.
    pub fn push(&mut self, insertion: Insertion<T>)
        ensures
            final(self)@ == old(self)@.push(insertion),
    {
        self.insertions.push(insertion)
    }

    /// Queue `element` to be inserted before the given index.
    ///
    /// If multiple elements are queued at the same index, they will be
    /// applied in the order queued.
    pub fn insert(&mut self, index: usize, element: T)
        ensures
            final(self)@ == old(self)@.push(Insertion { index, element }),
    {
        self.push(Insertion { index, element })
    }

    /// Apply all of the pending insertions against the specified vector,
    /// returning the result.
    pub fn applied(self, target: Vec<T>) -> (r: Vec<T>)
        requires
            indices_bounded(self@, target@.len() as int),
        ensures
            r@ == apply_spec(target@, self@),
    {
        let mut this = self;
        let mut merged = target;
        this.apply(&mut merged);
        merged
    }

    /// The number of insertions that are currently queued.
    pub fn desired_insertions(&self) -> (n: usize)
        ensures
            n == self@.len(),
    {
        self.insertions.len()
    }

    /// Applies all the insertions to the specified target vector,
    /// consuming the queue.
    ///
    /// The average runtime is `O(n + m)`, where `n` is the number of
    /// existing elements and `m` is the number of insertions: the batch
    /// is sorted (near-linear on the expected, almost sorted queue) and
    /// then merged in one pass.
    pub fn apply(&mut self, target: &mut Vec<T>)
        requires
            indices_bounded(old(self)@, old(target)@.len() as int),
        ensures
            final(target)@ == apply_spec(old(target)@, old(self)@),
            final(self)@ == Seq::<Insertion<T>>::empty(),
    {
        proof {
            lemma_stable_sorted_sorted(self@);
            lemma_stable_sorted_bound(self@, target@.len() as int);
        }
        self.sort();
        apply_bulk_insertions(target, &mut self.insertions);
    }

    /// List the updated locations of all the elements (both original and
    /// newly inserted), sorted by final position: the entry at position
    /// `p` of the result names what ends up at final position `p`.
    ///
    /// See [`Self::compute_updated_locations`] for the underlying
    /// processing-order computation and the numbering of insertions.
    #[verifier::loop_isolation(false)]
    pub fn list_updated_locations(&mut self, target: &[T]) -> (result: Vec<
        (OriginalLocation, usize),
    >)
        requires
            indices_bounded(old(self)@, target@.len() as int),
            target@.len() + old(self)@.len() <= usize::MAX,
        ensures
            final(self)@ == stable_sorted(old(self)@),
            result@.len() == target@.len() + old(self)@.len(),
            forall|p: int| 0 <= p < result@.len() ==> #[trigger] result@[p] == (
                location_tags(
                    target@.len() as int,
                    batch_indices(stable_sorted(old(self)@)),
                )[p],
                p as usize,
            ),
    {
        let ghost idxs = batch_indices(stable_sorted(old(self)@));
        let ghost orig_len = target@.len() as int;
        let ghost tags = location_tags(orig_len, idxs);
        proof {
            lemma_stable_sorted_sorted(self@);
            lemma_stable_sorted_bound(self@, orig_len);
            lemma_stable_sorted_len(self@);
            crate::laws::lemma_batch_indices_valid(stable_sorted(self@), orig_len);
            crate::laws::lemma_location_pairs_describe(orig_len, idxs);
            crate::laws::lemma_location_tags_len(orig_len, idxs);
        }
        let raw = self.compute_updated_locations(target);
        // Every final position is reported exactly once, so the
        // position-sorted view can be built by placing each reported pair
        // at its final position over a fully pre-filled buffer.
        let total = target.len() + self.insertions.len();
        let mut result: Vec<(OriginalLocation, usize)> = Vec::new();
        let mut filled: usize = 0;
        while filled < total
            invariant
                filled <= total,
                result@.len() == filled,
            decreases total - filled,
        {
            result.push((OriginalLocation::Original(0), 0));
            filled = filled + 1;
        }
        let mut j: usize = 0;
        while j < raw.len()
            invariant
                j <= raw@.len(),
                result@.len() == total,
                forall|j2: int| 0 <= j2 < j ==> result@[raw@[j2].1 as int] == #[trigger] raw@[j2],
            decreases raw@.len() - j,
        {
            let pair = raw[j];
            proof {
                assert((raw@[j as int]).1 < total);
            }
            result[pair.1] = pair;
            proof {
                assert forall|j2: int| 0 <= j2 < j + 1 implies result@[raw@[j2].1 as int]
                    == #[trigger] raw@[j2] by {
                    if j2 < j && raw@[j2].1 == raw@[j as int].1 {
                        assert(raw@[j2].0 == tags[raw@[j2].1 as int]);
                        assert(raw@[j as int].0 == tags[raw@[j as int].1 as int]);
                    }
                }
            }
            j = j + 1;
        }
        proof {
            assert forall|p: int| 0 <= p < result@.len() implies #[trigger] result@[p] == (
                tags[p],
                p as usize,
            ) by {
                assert(crate::laws::pair_reported(orig_len, idxs, p));
                let j2 = choose|j2: int|
                    0 <= j2 < raw@.len() && #[trigger] raw@[j2] == (tags[p], p as usize);
                assert(result@[raw@[j2].1 as int] == raw@[j2]);
            }
        }
        result
    }

    /// Compute the updated locations of all the elements (both original
    /// and newly inserted), without moving any memory.
    ///
    /// Assumes this set of insertions is being applied against the
    /// specified slice. The queue is sorted in place first; each reported
    /// insertion is numbered by its position in the sorted queue. The
    /// pairs come out in processing order (highest insertion index
    /// first), not final-position order; see
    /// [`Self::list_updated_locations`] for the position-sorted view.
    pub fn compute_updated_locations(&mut self, target: &[T]) -> (result: Vec<
        (OriginalLocation, usize),
    >)
        requires
            indices_bounded(old(self)@, target@.len() as int),
            target@.len() + old(self)@.len() <= usize::MAX,
        ensures
            final(self)@ == stable_sorted(old(self)@),
            result@ == location_pairs(
                target@.len() as int,
                batch_indices(stable_sorted(old(self)@)),
            ),
    {
        proof {
            lemma_stable_sorted_sorted(self@);
            lemma_stable_sorted_bound(self@, target@.len() as int);
            lemma_stable_sorted_len(self@);
        }
        self.sort();
        let ghost sorted = self@;
        let ghost idxs = batch_indices(sorted);
        let mut result: Vec<(OriginalLocation, usize)> = Vec::new();
        let mut original_len = target.len();
        let mut remaining: usize = self.insertions.len();
        proof {
            assert(idxs.take(remaining as int) =~= idxs);
            assert(result@ + location_pairs(target@.len() as int, idxs)
                =~= location_pairs(target@.len() as int, idxs));
        }
        while remaining > 0
            invariant
                remaining <= sorted.len(),
                self@ == sorted,
                idxs == batch_indices(sorted),
                original_len as int <= target@.len(),
                target@.len() + sorted.len() <= usize::MAX,
                sorted_by_index(sorted),
                indices_bounded(sorted.take(remaining as int), original_len as int),
                result@ + location_pairs(original_len as int, idxs.take(remaining as int))
                    == location_pairs(target@.len() as int, idxs),
            decreases remaining,
        {
            let ghost prefix = idxs.take(remaining as int);
            let insertion_index = self.insertions[remaining - 1].index;
            proof {
                assert(sorted.take(remaining as int)[remaining - 1] == sorted[remaining - 1]);
                assert(sorted[remaining - 1].index <= original_len);
                assert(prefix.last() == idxs[remaining - 1]);
                assert(idxs[remaining - 1] == sorted[remaining - 1].index);
            }
            let moved_memory = original_len - insertion_index;
            let shifted_start = original_len + remaining;
            let ghost before = result@;
            if moved_memory > 0 {
                update_range(&mut result, insertion_index, original_len, shifted_start - moved_memory);
            }
            result.push((OriginalLocation::Insertion(remaining - 1), shifted_start - moved_memory - 1));
            proof {
                assert(location_pairs(original_len as int, prefix)
                    == range_pairs(insertion_index as int, original_len as int, shifted_start - moved_memory)
                        + seq![(OriginalLocation::Insertion((remaining - 1) as usize), (shifted_start - moved_memory - 1) as usize)]
                        + location_pairs(insertion_index as int, prefix.drop_last()));
                if moved_memory == 0 {
                    assert(range_pairs(insertion_index as int, original_len as int, shifted_start - moved_memory)
                        =~= Seq::<(OriginalLocation, usize)>::empty());
                    assert(result@ =~= before
                        + range_pairs(insertion_index as int, original_len as int, shifted_start - moved_memory)
                        + seq![(OriginalLocation::Insertion((remaining - 1) as usize), (shifted_start - moved_memory - 1) as usize)]);
                }
                assert(prefix.drop_last() =~= idxs.take(remaining - 1));
                assert(result@ + location_pairs(insertion_index as int, idxs.take(remaining - 1))
                    =~= location_pairs(target@.len() as int, idxs));
                assert forall|i2: int| 0 <= i2 < remaining - 1 implies
                    #[trigger] sorted.take(remaining - 1)[i2].index <= insertion_index as int by {
                    assert(sorted.take(remaining - 1)[i2] == sorted[i2]);
                    assert(sorted[i2].index <= sorted[remaining - 1].index);
                }
            }
            original_len = insertion_index;
            remaining = remaining - 1;
        }
        proof {
            assert(idxs.take(0) =~= Seq::<usize>::empty());
        }
        update_range(&mut result, 0, original_len, 0);
        proof {
            assert(location_pairs(original_len as int, Seq::<usize>::empty())
                == range_pairs(0, original_len as int, 0));
            assert(result@ =~= location_pairs(target@.len() as int, idxs));
        }
        result
    }

    /// Sort the queued insertions by index, stably: insertions sharing an
    /// index keep the order in which they were queued. The queue is
    /// expected to be nearly sorted already, which is the case the
    /// insertion sort is chosen for; see [`crate::sorting`].
    fn sort(&mut self)
        ensures
            final(self)@ == stable_sorted(old(self)@),
    {
        insertion_sort_by_key(&mut self.insertions)
    }
}

impl<T> Default for InsertionSet<T> {
    /// An empty InsertionSet.
    fn default() -> (r: Self)
        ensures
            r@ == Seq::<Insertion<T>>::empty(),
    {
        InsertionSet::new()
    }
}

/// Applies all the specified insertions into the target vector, draining
/// `insertions` from its highest index down.
///
/// The insertions must already be sorted by non-decreasing index, with
/// every index within the target; they are consumed from the back of the
/// vector, which is reverse sorted order. Working backwards means each
/// original element is moved at most once: once the run behind the
/// highest remaining index has been shifted, room for every remaining
/// insertion has already been accounted for to its left.
pub fn apply_bulk_insertions<T>(target: &mut Vec<T>, insertions: &mut Vec<Insertion<T>>)
    requires
        sorted_by_index(old(insertions)@),
        indices_bounded(old(insertions)@, old(target)@.len() as int),
    ensures
        final(target)@ == merge_sorted(old(target)@, old(insertions)@),
        final(insertions)@ == Seq::<Insertion<T>>::empty(),
{
    let ghost orig_t = target@;
    let ghost orig_b = insertions@;
    let desired = insertions.len();
    let mut work: Vec<T> = Vec::new();
    core::mem::swap(target, &mut work);
    let mut shifter = BulkShifter::new(work, desired);
    while !shifter.is_finished()
        invariant
            sorted_by_index(insertions@),
            indices_bounded(insertions@, shifter.original_view().len() as int),
            shifter.gap_size() == insertions@.len(),
            merge_sorted(shifter.original_view(), insertions@) + shifter.shifted_view()
                == merge_sorted(orig_t, orig_b),
        decreases insertions@.len(),
    {
        let ghost ov = shifter.original_view();
        let ghost sv = shifter.shifted_view();
        let ghost b = insertions@;
        let ins = insertions.pop().unwrap();
        proof {
            assert(ins == b.last());
            assert(b.last().index <= ov.len());
            assert(insertions@ =~= b.drop_last());
        }
        let index = ins.index;
        shifter.shift_original(index);
        shifter.push_shifted(ins.element);
        proof {
            assert(merge_sorted(ov, b) == merge_sorted(ov.take(index as int), b.drop_last())
                + seq![b.last().element] + ov.skip(index as int));
            assert(merge_sorted(shifter.original_view(), insertions@) + shifter.shifted_view()
                =~= merge_sorted(ov, b) + sv);
            assert forall|i2: int| 0 <= i2 < insertions@.len() implies
                #[trigger] insertions@[i2].index <= shifter.original_view().len() by {
                assert(b[i2].index <= b[b.len() - 1].index);
            }
        }
    }
    proof {
        assert(insertions@ =~= Seq::<Insertion<T>>::empty());
        assert(merge_sorted(shifter.original_view(), insertions@) == shifter.original_view());
    }
    let mut merged = shifter.finish();
    core::mem::swap(target, &mut merged);
}

/// Report the run of original elements `[start, end)` as landing at the
/// consecutive final positions starting at `updated_start`.
fn update_range(result: &mut Vec<(OriginalLocation, usize)>, start: usize, end: usize, updated_start: usize)
    requires
        start <= end,
        updated_start + (end - start) <= usize::MAX,
    ensures
        final(result)@ == old(result)@ + range_pairs(start as int, end as int, updated_start as int),
{
    let ghost base = result@;
    let mut original_index = start;
    let mut updated = updated_start;
    while original_index < end
        invariant
            start <= original_index <= end,
            updated == updated_start + (original_index - start),
            updated_start + (end - start) <= usize::MAX,
            result@ == base + range_pairs(start as int, original_index as int, updated_start as int),
        decreases end - original_index,
    {
        result.push((OriginalLocation::Original(original_index), updated));
        proof {
            assert((base + range_pairs(start as int, original_index as int, updated_start as int))
                .push((OriginalLocation::Original(original_index), updated))
                =~= base + range_pairs(start as int, original_index + 1, updated_start as int));
        }
        original_index = original_index + 1;
        updated = updated + 1;
    }
    proof {
        assert(result@ =~= base + range_pairs(start as int, end as int, updated_start as int));
    }
}

/// Compute the updated locations of all elements (original and inserted)
/// without moving any memory.
///
/// `insertions` holds the insertion indices in reverse sorted order, the
/// order in which the driver consumes them; each reported insertion is
/// numbered by that consumption order. The pairs come out in processing
/// order, not final-position order; see
/// [`InsertionSet::list_updated_locations`] for the sorted view.
pub fn compute_updated_locations<T>(target: &[T], insertions: &Vec<usize>) -> (result: Vec<
    (OriginalLocation, usize),
>)
    requires
        positions_rev_sorted(insertions@),
        positions_bounded(insertions@, target@.len() as int),
        target@.len() + insertions@.len() <= usize::MAX,
    ensures
        result@ == raw_pairs(target@.len() as int, insertions@, 0),
{
    let ghost rev = insertions@;
    let total_insertions = insertions.len();
    let mut result: Vec<(OriginalLocation, usize)> = Vec::new();
    let mut original_len = target.len();
    let mut insertion_id: usize = 0;
    proof {
        assert(rev.skip(0) =~= rev);
        assert(result@ + raw_pairs(target@.len() as int, rev, 0)
            =~= raw_pairs(target@.len() as int, rev, 0));
    }
    while insertion_id < total_insertions
        invariant
            insertion_id <= total_insertions,
            total_insertions == rev.len(),
            insertions@ == rev,
            original_len as int <= target@.len(),
            target@.len() + rev.len() <= usize::MAX,
            positions_rev_sorted(rev),
            positions_bounded(rev.skip(insertion_id as int), original_len as int),
            result@ + raw_pairs(original_len as int, rev.skip(insertion_id as int), insertion_id as int)
                == raw_pairs(target@.len() as int, rev, 0),
        decreases total_insertions - insertion_id,
    {
        let ghost remaining = rev.skip(insertion_id as int);
        let insertion_index = insertions[insertion_id];
        proof {
            assert(remaining[0] == rev[insertion_id as int]);
            assert(insertion_index <= original_len);
        }
        let moved_memory = original_len - insertion_index;
        let shifted_start = original_len + (total_insertions - insertion_id);
        let ghost before = result@;
        if moved_memory > 0 {
            update_range(&mut result, insertion_index, original_len, shifted_start - moved_memory);
        }
        result.push((OriginalLocation::Insertion(insertion_id), shifted_start - moved_memory - 1));
        proof {
            assert(raw_pairs(original_len as int, remaining, insertion_id as int)
                == range_pairs(insertion_index as int, original_len as int, shifted_start - moved_memory)
                    + seq![(OriginalLocation::Insertion(insertion_id), (shifted_start - moved_memory - 1) as usize)]
                    + raw_pairs(insertion_index as int, remaining.drop_first(), insertion_id + 1));
            if moved_memory == 0 {
                assert(range_pairs(insertion_index as int, original_len as int, shifted_start - moved_memory)
                    =~= Seq::<(OriginalLocation, usize)>::empty());
                assert(result@ =~= before
                    + range_pairs(insertion_index as int, original_len as int, shifted_start - moved_memory)
                    + seq![(OriginalLocation::Insertion(insertion_id), (shifted_start - moved_memory - 1) as usize)]);
            }
            assert(remaining.drop_first() =~= rev.skip(insertion_id + 1));
            assert(result@ + raw_pairs(insertion_index as int, rev.skip(insertion_id + 1), insertion_id + 1)
                =~= raw_pairs(target@.len() as int, rev, 0));
            assert forall|i2: int| 0 <= i2 < rev.skip(insertion_id + 1).len() implies
                #[trigger] rev.skip(insertion_id + 1)[i2] <= insertion_index as int by {
                assert(rev[insertion_id as int] >= rev[insertion_id + 1 + i2]);
            }
        }
        original_len = insertion_index;
        insertion_id = insertion_id + 1;
    }
    proof {
        assert(rev.skip(total_insertions as int) =~= Seq::<usize>::empty());
    }
    update_range(&mut result, 0, original_len, 0);
    proof {
        assert(raw_pairs(original_len as int, Seq::<usize>::empty(), total_insertions as int)
            == range_pairs(0, original_len as int, 0));
        assert(result@ =~= raw_pairs(target@.len() as int, rev, 0));
    }
    result
}

} // verus!
