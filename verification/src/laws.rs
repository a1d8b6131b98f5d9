//! Library-wide laws: proofs that relate the materializing driver, the
//! location oracle and the ordering stage to one another.

use vstd::prelude::*;

use crate::Insertion;
use crate::OriginalLocation;
use crate::apply_spec;
use crate::batch_indices;
use crate::indices_bounded;
use crate::location_pairs;
use crate::location_tags;
use crate::merge_sorted;
use crate::original_run;
use crate::range_pairs;
use crate::raw_pairs;
use crate::positions_bounded;
use crate::positions_sorted;
use crate::sorted_by_index;
use crate::sorting::lemma_stable_sorted_bound;
use crate::sorting::lemma_stable_sorted_len;
use crate::sorting::lemma_stable_sorted_sorted;
use crate::sorting::stable_sorted;

verus! {

/// The element that a provenance tag names: an original element of
/// `orig`, or the element of one of the batch's insertions.
pub open spec fn element_at<T>(
    orig: Seq<T>,
    batch: Seq<Insertion<T>>,
    loc: OriginalLocation,
) -> T {
    match loc {
        OriginalLocation::Original(i) => orig[i as int],
        OriginalLocation::Insertion(k) => batch[k as int].element,
    }
}

/// Whether a tag stays within a target of length `orig_len` and a batch
/// of `count` insertions.
pub open spec fn tag_in_range(loc: OriginalLocation, orig_len: int, count: int) -> bool {
    match loc {
        OriginalLocation::Original(i) => i < orig_len,
        OriginalLocation::Insertion(k) => k < count,
    }
}

/// A sorted index sequence stays sorted, and bounded by its own last
/// value, once the last value is dropped.
proof fn lemma_positions_drop_last(idxs: Seq<usize>)
    requires
        positions_sorted(idxs),
        idxs.len() > 0,
    ensures
        positions_sorted(idxs.drop_last()),
        positions_bounded(idxs.drop_last(), idxs.last() as int),
{
    assert forall|i: int, j: int| 0 <= i <= j < idxs.drop_last().len() implies
        #[trigger] idxs.drop_last()[i] <= #[trigger] idxs.drop_last()[j] by {
        assert(idxs[i] <= idxs[j]);
    }
    assert forall|i: int| 0 <= i < idxs.drop_last().len() implies
        #[trigger] idxs.drop_last()[i] <= idxs.last() as int by {
        assert(idxs[i] <= idxs[idxs.len() - 1]);
    }
}

/// The location map covers one slot for every original element and every
/// insertion.
pub proof fn lemma_location_tags_len(orig_len: int, idxs: Seq<usize>)
    requires
        0 <= orig_len,
        positions_sorted(idxs),
        positions_bounded(idxs, orig_len),
    ensures
        location_tags(orig_len, idxs).len() == orig_len + idxs.len(),
    decreases idxs.len(),
{
    if idxs.len() == 0 {
    } else {
        let idx = idxs.last() as int;
        assert(idxs[idxs.len() - 1] <= orig_len);
        lemma_positions_drop_last(idxs);
        lemma_location_tags_len(idx, idxs.drop_last());
    }
}

/// Every tag the location map reports names an existing original element
/// or an existing insertion.
pub proof fn lemma_location_tags_in_range(orig_len: int, idxs: Seq<usize>)
    requires
        0 <= orig_len,
        positions_sorted(idxs),
        positions_bounded(idxs, orig_len),
    ensures
        forall|p: int| 0 <= p < location_tags(orig_len, idxs).len() ==> tag_in_range(
            #[trigger] location_tags(orig_len, idxs)[p],
            orig_len,
            idxs.len() as int,
        ),
    decreases idxs.len(),
{
    let tags = location_tags(orig_len, idxs);
    if idxs.len() == 0 {
        assert forall|p: int| 0 <= p < tags.len() implies tag_in_range(
            #[trigger] tags[p],
            orig_len,
            idxs.len() as int,
        ) by {
            assert(tags[p] == OriginalLocation::Original(p as usize));
        }
    } else {
        let idx = idxs.last() as int;
        assert(idxs[idxs.len() - 1] <= orig_len);
        lemma_positions_drop_last(idxs);
        lemma_location_tags_in_range(idx, idxs.drop_last());
        lemma_location_tags_len(idx, idxs.drop_last());
        let pre = location_tags(idx, idxs.drop_last());
        assert forall|p: int| 0 <= p < tags.len() implies tag_in_range(
            #[trigger] tags[p],
            orig_len,
            idxs.len() as int,
        ) by {
            if p < pre.len() {
                assert(tags[p] == pre[p]);
                assert(tag_in_range(pre[p], idx, idxs.drop_last().len() as int));
            } else if p == pre.len() {
                assert(tags[p] == OriginalLocation::Insertion((idxs.len() - 1) as usize));
            } else {
                assert(tags[p] == original_run(idx, orig_len)[p - pre.len() - 1]);
            }
        }
    }
}

/// Size law for a sorted batch: merging adds exactly one slot per
/// insertion.
pub proof fn lemma_merge_sorted_len<T>(orig: Seq<T>, batch: Seq<Insertion<T>>)
    requires
        sorted_by_index(batch),
        indices_bounded(batch, orig.len() as int),
    ensures
        merge_sorted(orig, batch).len() == orig.len() + batch.len(),
    decreases batch.len(),
{
    if batch.len() == 0 {
    } else {
        let idx = batch.last().index as int;
        assert(batch[batch.len() - 1].index <= orig.len());
        assert forall|i: int, j: int| 0 <= i <= j < batch.drop_last().len() implies
            #[trigger] batch.drop_last()[i].index <= #[trigger] batch.drop_last()[j].index by {
            assert(batch[i].index <= batch[j].index);
        }
        assert forall|i: int| 0 <= i < batch.drop_last().len() implies
            #[trigger] batch.drop_last()[i].index <= orig.take(idx).len() as int by {
            assert(batch[i].index <= batch[batch.len() - 1].index);
        }
        lemma_merge_sorted_len(orig.take(idx), batch.drop_last());
    }
}

/// Size law: `apply_spec` always yields exactly the original elements
/// plus one slot per queued insertion.
pub proof fn lemma_apply_spec_len<T>(orig: Seq<T>, batch: Seq<Insertion<T>>)
    requires
        indices_bounded(batch, orig.len() as int),
    ensures
        apply_spec(orig, batch).len() == orig.len() + batch.len(),
{
    lemma_stable_sorted_sorted(batch);
    lemma_stable_sorted_bound(batch, orig.len() as int);
    lemma_stable_sorted_len(batch);
    lemma_merge_sorted_len(orig, stable_sorted(batch));
}

/// Empty batch identity: applying no insertions returns the sequence
/// unchanged, and the location map is the identity on original elements.
pub proof fn lemma_empty_batch<T>(orig: Seq<T>)
    ensures
        apply_spec(orig, Seq::<Insertion<T>>::empty()) == orig,
        location_tags(orig.len() as int, Seq::<usize>::empty()).len() == orig.len(),
        forall|p: int| 0 <= p < orig.len() ==> location_tags(
            orig.len() as int,
            Seq::<usize>::empty(),
        )[p] == OriginalLocation::Original(p as usize),
{
    assert(stable_sorted(Seq::<Insertion<T>>::empty()) == Seq::<Insertion<T>>::empty());
    assert(merge_sorted(orig, Seq::<Insertion<T>>::empty()) == orig);
    assert(location_tags(orig.len() as int, Seq::<usize>::empty())
        == original_run(0, orig.len() as int));
}

/// Round trip of positions: the element standing at any final position
/// of the merged result is exactly the element that the location map's
/// tag for that position names.
pub proof fn lemma_round_trip<T>(orig: Seq<T>, batch: Seq<Insertion<T>>)
    requires
        sorted_by_index(batch),
        indices_bounded(batch, orig.len() as int),
        orig.len() + batch.len() <= usize::MAX,
    ensures
        merge_sorted(orig, batch).len() == orig.len() + batch.len(),
        location_tags(orig.len() as int, batch_indices(batch)).len() == orig.len() + batch.len(),
        forall|p: int| 0 <= p < orig.len() + batch.len() ==> #[trigger] merge_sorted(orig, batch)[p]
            == element_at(orig, batch, location_tags(orig.len() as int, batch_indices(batch))[p]),
    decreases batch.len(),
{
    let idxs = batch_indices(batch);
    lemma_batch_indices_valid(batch, orig.len() as int);
    lemma_merge_sorted_len(orig, batch);
    lemma_location_tags_len(orig.len() as int, idxs);
    let merged = merge_sorted(orig, batch);
    let tags = location_tags(orig.len() as int, idxs);
    if batch.len() == 0 {
        assert forall|p: int| 0 <= p < orig.len() + batch.len() implies #[trigger] merged[p]
            == element_at(orig, batch, tags[p]) by {
            assert(tags[p] == OriginalLocation::Original(p as usize));
        }
    } else {
        let ins = batch.last();
        let idx = ins.index as int;
        assert(batch[batch.len() - 1].index <= orig.len());
        assert forall|i: int, j: int| 0 <= i <= j < batch.drop_last().len() implies
            #[trigger] batch.drop_last()[i].index <= #[trigger] batch.drop_last()[j].index by {
            assert(batch[i].index <= batch[j].index);
        }
        assert forall|i: int| 0 <= i < batch.drop_last().len() implies
            #[trigger] batch.drop_last()[i].index <= orig.take(idx).len() as int by {
            assert(batch[i].index <= batch[batch.len() - 1].index);
        }
        lemma_round_trip(orig.take(idx), batch.drop_last());
        assert(batch_indices(batch.drop_last()) =~= idxs.drop_last());
        assert(idxs.last() == ins.index);
        let sub_merged = merge_sorted(orig.take(idx), batch.drop_last());
        let sub_tags = location_tags(idx, idxs.drop_last());
        lemma_batch_indices_valid(batch.drop_last(), idx);
        lemma_location_tags_in_range(idx, idxs.drop_last());
        lemma_location_tags_len(idx, idxs.drop_last());
        assert(sub_merged.len() == idx + batch.len() - 1);
        assert(sub_tags.len() == idx + batch.len() - 1);
        assert forall|p: int| 0 <= p < orig.len() + batch.len() implies #[trigger] merged[p]
            == element_at(orig, batch, tags[p]) by {
            if p < sub_tags.len() {
                assert(merged[p] == sub_merged[p]);
                assert(tags[p] == sub_tags[p]);
                assert(sub_merged[p] == element_at(orig.take(idx), batch.drop_last(), sub_tags[p]));
                assert(tag_in_range(sub_tags[p], idx, batch.len() - 1));
                match sub_tags[p] {
                    OriginalLocation::Original(i) => {
                        assert(orig.take(idx)[i as int] == orig[i as int]);
                    },
                    OriginalLocation::Insertion(k) => {
                        assert(batch.drop_last()[k as int] == batch[k as int]);
                    },
                }
            } else if p == sub_tags.len() {
                assert(merged[p] == ins.element);
                assert(tags[p] == OriginalLocation::Insertion((batch.len() - 1) as usize));
            } else {
                assert(merged[p] == orig.skip(idx)[p - sub_tags.len() - 1]);
                assert(tags[p] == original_run(idx, orig.len() as int)[p - sub_tags.len() - 1]);
                assert(tags[p] == OriginalLocation::Original((p - batch.len()) as usize));
                assert(orig.skip(idx)[p - sub_tags.len() - 1] == orig[p - batch.len()]);
            }
        }
    }
}

/// Holds when the oracle's processing-order output reports final
/// position `p` with the tag that the location map assigns to it.
pub open spec fn pair_reported(orig_len: int, idxs: Seq<usize>, p: int) -> bool {
    exists|j: int|
        0 <= j < location_pairs(orig_len, idxs).len() && #[trigger] location_pairs(orig_len, idxs)[j]
            == (location_tags(orig_len, idxs)[p], p as usize)
}

/// The oracle's processing-order output describes the location map
/// exactly: every reported pair carries the tag that the map assigns to
/// its final position, and every final position is reported.
pub proof fn lemma_location_pairs_describe(orig_len: int, idxs: Seq<usize>)
    requires
        0 <= orig_len,
        positions_sorted(idxs),
        positions_bounded(idxs, orig_len),
        orig_len + idxs.len() <= usize::MAX,
    ensures
        location_pairs(orig_len, idxs).len() == orig_len + idxs.len(),
        forall|j: int| 0 <= j < location_pairs(orig_len, idxs).len() ==> (#[trigger] location_pairs(
            orig_len,
            idxs,
        )[j]).1 < orig_len + idxs.len() && location_pairs(orig_len, idxs)[j].0 == location_tags(
            orig_len,
            idxs,
        )[location_pairs(orig_len, idxs)[j].1 as int],
        forall|p: int| 0 <= p < orig_len + idxs.len() ==> #[trigger] pair_reported(
            orig_len,
            idxs,
            p,
        ),
    decreases idxs.len(),
{
    let pairs = location_pairs(orig_len, idxs);
    let tags = location_tags(orig_len, idxs);
    let total = orig_len + idxs.len();
    if idxs.len() == 0 {
        assert forall|j: int| 0 <= j < pairs.len() implies (#[trigger] pairs[j]).1 < total
            && pairs[j].0 == tags[pairs[j].1 as int] by {
            assert(pairs[j] == (OriginalLocation::Original(j as usize), j as usize));
            assert(tags[j] == OriginalLocation::Original(j as usize));
        }
        assert forall|p: int| 0 <= p < total implies #[trigger] pair_reported(orig_len, idxs, p) by {
            assert(pairs[p] == (tags[p], p as usize));
        }
    } else {
        let idx = idxs.last() as int;
        let count = idxs.len() as int;
        assert(idxs[idxs.len() - 1] <= orig_len);
        lemma_positions_drop_last(idxs);
        lemma_location_pairs_describe(idx, idxs.drop_last());
        lemma_location_tags_len(idx, idxs.drop_last());
        let sub_pairs = location_pairs(idx, idxs.drop_last());
        let sub_tags = location_tags(idx, idxs.drop_last());
        let run_len = orig_len - idx;
        assert(pairs == range_pairs(idx, orig_len, idx + count)
            + seq![(OriginalLocation::Insertion((count - 1) as usize), (idx + count - 1) as usize)]
            + sub_pairs);
        assert(tags == sub_tags + seq![OriginalLocation::Insertion((count - 1) as usize)]
            + original_run(idx, orig_len));
        assert(sub_tags.len() == idx + count - 1);
        assert(sub_pairs.len() == idx + count - 1);
        assert(pairs.len() == total);
        assert forall|j: int| 0 <= j < pairs.len() implies (#[trigger] pairs[j]).1 < total
            && pairs[j].0 == tags[pairs[j].1 as int] by {
            if j < run_len {
                assert(pairs[j] == (OriginalLocation::Original((idx + j) as usize), (idx + count
                    + j) as usize));
                assert(tags[idx + count + j] == original_run(idx, orig_len)[j]);
            } else if j == run_len {
                assert(pairs[j].1 == idx + count - 1);
                assert(tags[idx + count - 1] == OriginalLocation::Insertion((count - 1) as usize));
            } else {
                let j2 = j - run_len - 1;
                assert(pairs[j] == sub_pairs[j2]);
                assert(sub_pairs[j2].1 < idx + count - 1);
                assert(tags[sub_pairs[j2].1 as int] == sub_tags[sub_pairs[j2].1 as int]);
            }
        }
        assert forall|p: int| 0 <= p < total implies #[trigger] pair_reported(orig_len, idxs, p) by {
            if p < idx + count - 1 {
                assert(tags[p] == sub_tags[p]);
                assert(pair_reported(idx, idxs.drop_last(), p));
                let j2 = choose|j2: int|
                    0 <= j2 < sub_pairs.len() && #[trigger] sub_pairs[j2] == (sub_tags[p], p as usize);
                assert(pairs[run_len + 1 + j2] == sub_pairs[j2]);
                assert(pairs[run_len + 1 + j2] == (tags[p], p as usize));
            } else if p == idx + count - 1 {
                assert(pairs[run_len] == (tags[p], p as usize));
            } else {
                let j = p - idx - count;
                assert(tags[p] == original_run(idx, orig_len)[p - (idx + count)]);
                assert(pairs[j] == (tags[p], p as usize));
            }
        }
    }
}

/// The subsequence of tags naming original elements, in final position
/// order.
pub open spec fn original_tags(tags: Seq<OriginalLocation>) -> Seq<OriginalLocation>
    decreases tags.len(),
{
    if tags.len() == 0 {
        Seq::empty()
    } else {
        match tags.last() {
            OriginalLocation::Original(_) => original_tags(tags.drop_last()).push(tags.last()),
            OriginalLocation::Insertion(_) => original_tags(tags.drop_last()),
        }
    }
}

/// The subsequence of tags naming inserted elements, in final position
/// order.
pub open spec fn insertion_tags(tags: Seq<OriginalLocation>) -> Seq<OriginalLocation>
    decreases tags.len(),
{
    if tags.len() == 0 {
        Seq::empty()
    } else {
        match tags.last() {
            OriginalLocation::Original(_) => insertion_tags(tags.drop_last()),
            OriginalLocation::Insertion(_) => insertion_tags(tags.drop_last()).push(tags.last()),
        }
    }
}

proof fn lemma_tags_split(a: Seq<OriginalLocation>, b: Seq<OriginalLocation>)
    ensures
        original_tags(a + b) == original_tags(a) + original_tags(b),
        insertion_tags(a + b) == insertion_tags(a) + insertion_tags(b),
    decreases b.len(),
{
    if b.len() == 0 {
        assert(a + b =~= a);
        assert(original_tags(a) + original_tags(b) =~= original_tags(a));
        assert(insertion_tags(a) + insertion_tags(b) =~= insertion_tags(a));
    } else {
        lemma_tags_split(a, b.drop_last());
        assert((a + b).drop_last() =~= a + b.drop_last());
        assert((a + b).last() == b.last());
        match b.last() {
            OriginalLocation::Original(_) => {
                assert((original_tags(a) + original_tags(b.drop_last())).push(b.last())
                    =~= original_tags(a) + original_tags(b.drop_last()).push(b.last()));
            },
            OriginalLocation::Insertion(_) => {
                assert((insertion_tags(a) + insertion_tags(b.drop_last())).push(b.last())
                    =~= insertion_tags(a) + insertion_tags(b.drop_last()).push(b.last()));
            },
        }
    }
}

proof fn lemma_run_tags(start: int, end: int)
    requires
        start <= end,
    ensures
        original_tags(original_run(start, end)) == original_run(start, end),
        insertion_tags(original_run(start, end)) == Seq::<OriginalLocation>::empty(),
    decreases end - start,
{
    if start == end {
        assert(original_run(start, end) =~= Seq::<OriginalLocation>::empty());
    } else {
        lemma_run_tags(start, end - 1);
        assert(original_run(start, end).drop_last() =~= original_run(start, end - 1));
        assert(original_run(start, end).last() == OriginalLocation::Original((end - 1) as usize));
        assert(original_run(start, end - 1).push(OriginalLocation::Original((end - 1) as usize))
            =~= original_run(start, end));
    }
}

/// Order preservation: read by final position, the location map lists
/// the original elements under their original indices in their original
/// order, and the inserted elements in sorted batch order.
pub proof fn lemma_tag_order(orig_len: int, idxs: Seq<usize>)
    requires
        0 <= orig_len,
        positions_sorted(idxs),
        positions_bounded(idxs, orig_len),
        orig_len + idxs.len() <= usize::MAX,
    ensures
        original_tags(location_tags(orig_len, idxs)) == original_run(0, orig_len),
        insertion_tags(location_tags(orig_len, idxs)) == Seq::new(
            idxs.len(),
            |k: int| OriginalLocation::Insertion(k as usize),
        ),
    decreases idxs.len(),
{
    if idxs.len() == 0 {
        lemma_run_tags(0, orig_len);
    } else {
        let idx = idxs.last() as int;
        let count = idxs.len() as int;
        assert(idxs[idxs.len() - 1] <= orig_len);
        lemma_positions_drop_last(idxs);
        lemma_tag_order(idx, idxs.drop_last());
        let pre = location_tags(idx, idxs.drop_last());
        let mid = seq![OriginalLocation::Insertion((count - 1) as usize)];
        lemma_tags_split(pre, mid);
        lemma_tags_split(pre + mid, original_run(idx, orig_len));
        lemma_run_tags(idx, orig_len);
        assert(mid.drop_last() =~= Seq::<OriginalLocation>::empty());
        assert(mid.last() == OriginalLocation::Insertion((count - 1) as usize));
        assert(original_tags(Seq::<OriginalLocation>::empty()) == Seq::<OriginalLocation>::empty());
        assert(insertion_tags(Seq::<OriginalLocation>::empty()) == Seq::<OriginalLocation>::empty());
        assert(original_tags(mid) =~= Seq::<OriginalLocation>::empty());
        assert(insertion_tags(mid) =~= mid);
        assert(location_tags(orig_len, idxs) == (pre + mid) + original_run(idx, orig_len));
        assert(original_tags(location_tags(orig_len, idxs))
            =~= original_run(0, orig_len));
        assert(Seq::new(idxs.drop_last().len(), |k: int| OriginalLocation::Insertion(k as usize))
            + mid
            =~= Seq::new(idxs.len(), |k: int| OriginalLocation::Insertion(k as usize)));
        assert(insertion_tags(location_tags(orig_len, idxs))
            =~= Seq::new(idxs.len(), |k: int| OriginalLocation::Insertion(k as usize)));
    }
}

/// Round trip at the public boundary: for any target and any queued
/// batch with valid indices, the merged result that `apply` produces and
/// the position-sorted location map agree slot for slot — the element at
/// final position `p` is the one named by the tag reported for `p`.
pub proof fn lemma_apply_matches_locations<T>(orig: Seq<T>, batch: Seq<Insertion<T>>)
    requires
        indices_bounded(batch, orig.len() as int),
        orig.len() + batch.len() <= usize::MAX,
    ensures
        apply_spec(orig, batch).len() == orig.len() + batch.len(),
        forall|p: int| 0 <= p < orig.len() + batch.len() ==> #[trigger] apply_spec(orig, batch)[p]
            == element_at(
            orig,
            stable_sorted(batch),
            location_tags(orig.len() as int, batch_indices(stable_sorted(batch)))[p],
        ),
{
    lemma_stable_sorted_sorted(batch);
    lemma_stable_sorted_bound(batch, orig.len() as int);
    lemma_stable_sorted_len(batch);
    lemma_round_trip(orig, stable_sorted(batch));
}

/// A reported pair with its insertion number flipped from consumption
/// order to sorted batch order, for a batch of `count` insertions: the
/// insertion consumed `k`-th (highest index first) sits at position
/// `count - 1 - k` of the sorted batch. Original tags are untouched.
pub open spec fn flip_insertion_number(count: int, pair: (OriginalLocation, usize)) -> (
    OriginalLocation,
    usize,
) {
    match pair.0 {
        OriginalLocation::Insertion(k) => (
            OriginalLocation::Insertion((count - 1 - k) as usize),
            pair.1,
        ),
        OriginalLocation::Original(_) => pair,
    }
}

proof fn lemma_oracle_numbering_aux(orig_len: int, idxs: Seq<usize>, count: int, next_id: int)
    requires
        0 <= orig_len,
        positions_sorted(idxs),
        positions_bounded(idxs, orig_len),
        0 <= next_id,
        count == next_id + idxs.len(),
        count <= usize::MAX,
    ensures
        raw_pairs(orig_len, idxs.reverse(), next_id).len() == location_pairs(orig_len, idxs).len(),
        forall|j: int| 0 <= j < location_pairs(orig_len, idxs).len() ==> #[trigger] location_pairs(
            orig_len,
            idxs,
        )[j] == flip_insertion_number(count, raw_pairs(orig_len, idxs.reverse(), next_id)[j]),
    decreases idxs.len(),
{
    let loc = location_pairs(orig_len, idxs);
    let raw = raw_pairs(orig_len, idxs.reverse(), next_id);
    if idxs.len() == 0 {
        assert(idxs.reverse() =~= Seq::<usize>::empty());
        assert forall|j: int| 0 <= j < loc.len() implies #[trigger] loc[j]
            == flip_insertion_number(count, raw[j]) by {
            assert(loc[j] == (OriginalLocation::Original(j as usize), j as usize));
        }
    } else {
        let idx = idxs.last() as int;
        assert(idxs[idxs.len() - 1] <= orig_len);
        lemma_positions_drop_last(idxs);
        assert(idxs.reverse().first() == idxs.last());
        assert(idxs.reverse().drop_first() =~= idxs.drop_last().reverse());
        lemma_oracle_numbering_aux(idx, idxs.drop_last(), count, next_id + 1);
        let run = range_pairs(idx, orig_len, idx + idxs.len());
        let sub_loc = location_pairs(idx, idxs.drop_last());
        let sub_raw = raw_pairs(idx, idxs.drop_last().reverse(), next_id + 1);
        assert(loc == run
            + seq![(OriginalLocation::Insertion((idxs.len() - 1) as usize), (idx + idxs.len()
                - 1) as usize)] + sub_loc);
        assert(raw == run
            + seq![(OriginalLocation::Insertion(next_id as usize), (idx + idxs.len() - 1) as usize)]
            + sub_raw);
        assert forall|j: int| 0 <= j < loc.len() implies #[trigger] loc[j]
            == flip_insertion_number(count, raw[j]) by {
            if j < run.len() {
                assert(loc[j] == run[j]);
                assert(raw[j] == run[j]);
                assert(run[j].0 == OriginalLocation::Original((idx + j) as usize));
            } else if j == run.len() {
                assert(count - 1 - next_id == idxs.len() - 1);
            } else {
                assert(loc[j] == sub_loc[j - run.len() - 1]);
                assert(raw[j] == sub_raw[j - run.len() - 1]);
            }
        }
    }
}

/// The two oracle entry points agree: handed the same indices (the
/// standalone one in reverse sorted order), they report the same final
/// positions with the same tags, up to flipping each insertion's number
/// from consumption order to sorted batch order.
pub proof fn lemma_oracle_numbering(orig_len: int, idxs: Seq<usize>)
    requires
        0 <= orig_len,
        positions_sorted(idxs),
        positions_bounded(idxs, orig_len),
        idxs.len() <= usize::MAX,
    ensures
        raw_pairs(orig_len, idxs.reverse(), 0).len() == location_pairs(orig_len, idxs).len(),
        forall|j: int| 0 <= j < location_pairs(orig_len, idxs).len() ==> #[trigger] location_pairs(
            orig_len,
            idxs,
        )[j] == flip_insertion_number(
            idxs.len() as int,
            raw_pairs(orig_len, idxs.reverse(), 0)[j],
        ),
{
    lemma_oracle_numbering_aux(orig_len, idxs, idxs.len() as int, 0);
}

/// The index sequence of a sorted, bounded batch is itself sorted and
/// bounded.
pub proof fn lemma_batch_indices_valid<T>(batch: Seq<Insertion<T>>, len: int)
    requires
        sorted_by_index(batch),
        indices_bounded(batch, len),
    ensures
        positions_sorted(batch_indices(batch)),
        positions_bounded(batch_indices(batch), len),
        batch_indices(batch).len() == batch.len(),
{
    let idxs = batch_indices(batch);
    assert forall|i: int, j: int| 0 <= i <= j < idxs.len() implies
        #[trigger] idxs[i] <= #[trigger] idxs[j] by {
        assert(batch[i].index <= batch[j].index);
    }
    assert forall|i: int| 0 <= i < idxs.len() implies #[trigger] idxs[i] <= len by {
        assert(batch[i].index <= len);
    }
}

} // verus!
