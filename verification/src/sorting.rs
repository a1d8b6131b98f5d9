//! A stable insertion sort for batches of pending insertions.
//!
//! The batch handed to the bulk driver is expected to be nearly sorted
//! already, so a compare-and-shift insertion sort runs in close to linear
//! time on the common input, while staying stable: insertions that share
//! an index keep the order in which they were queued. The worst case
//! (a reverse-sorted batch) is quadratic, an accepted trade-off.

use vstd::prelude::*;

use crate::Insertion;
use crate::indices_bounded;
use crate::sorted_by_index;

verus! {

/// Place `x` into the already sorted sequence `s`, after every element
/// whose index is less than or equal to `x.index`. Keeping `x` behind its
/// equals is what makes the sort stable.
pub open spec fn insert_ordered<T>(s: Seq<Insertion<T>>, x: Insertion<T>) -> Seq<Insertion<T>>
    decreases s.len(),
{
    if s.len() == 0 {
        seq![x]
    } else if s.last().index <= x.index {
        s.push(x)
    } else {
        insert_ordered(s.drop_last(), x).push(s.last())
    }
}

/// The stable sort of `s` by index: each element in turn is placed into
/// the sorted prefix, behind its equals.
pub open spec fn stable_sorted<T>(s: Seq<Insertion<T>>) -> Seq<Insertion<T>>
    decreases s.len(),
{
    if s.len() == 0 {
        s
    } else {
        insert_ordered(stable_sorted(s.drop_last()), s.last())
    }
}

/// The subsequence of insertions aimed at index `k`, in order.
pub open spec fn with_index<T>(s: Seq<Insertion<T>>, k: usize) -> Seq<Insertion<T>>
    decreases s.len(),
{
    if s.len() == 0 {
        Seq::empty()
    } else if s.last().index == k {
        with_index(s.drop_last(), k).push(s.last())
    } else {
        with_index(s.drop_last(), k)
    }
}

proof fn lemma_insert_ordered_len<T>(s: Seq<Insertion<T>>, x: Insertion<T>)
    ensures
        insert_ordered(s, x).len() == s.len() + 1,
    decreases s.len(),
{
    if s.len() == 0 {
    } else if s.last().index <= x.index {
    } else {
        lemma_insert_ordered_len(s.drop_last(), x);
    }
}

pub proof fn lemma_stable_sorted_len<T>(s: Seq<Insertion<T>>)
    ensures
        stable_sorted(s).len() == s.len(),
    decreases s.len(),
{
    if s.len() == 0 {
    } else {
        lemma_stable_sorted_len(s.drop_last());
        lemma_insert_ordered_len(stable_sorted(s.drop_last()), s.last());
    }
}

proof fn lemma_insert_ordered_bound<T>(s: Seq<Insertion<T>>, x: Insertion<T>, bound: int)
    requires
        indices_bounded(s, bound),
        x.index <= bound,
    ensures
        indices_bounded(insert_ordered(s, x), bound),
    decreases s.len(),
{
    if s.len() == 0 {
    } else if s.last().index <= x.index {
    } else {
        assert(indices_bounded(s.drop_last(), bound));
        lemma_insert_ordered_bound(s.drop_last(), x, bound);
        lemma_insert_ordered_len(s.drop_last(), x);
    }
}

pub proof fn lemma_stable_sorted_bound<T>(s: Seq<Insertion<T>>, bound: int)
    requires
        indices_bounded(s, bound),
    ensures
        indices_bounded(stable_sorted(s), bound),
    decreases s.len(),
{
    if s.len() == 0 {
    } else {
        assert(indices_bounded(s.drop_last(), bound));
        lemma_stable_sorted_bound(s.drop_last(), bound);
        lemma_insert_ordered_bound(stable_sorted(s.drop_last()), s.last(), bound);
    }
}

proof fn lemma_insert_ordered_sorted<T>(s: Seq<Insertion<T>>, x: Insertion<T>)
    requires
        sorted_by_index(s),
    ensures
        sorted_by_index(insert_ordered(s, x)),
    decreases s.len(),
{
    if s.len() == 0 {
        assert(sorted_by_index(seq![x]));
    } else if s.last().index <= x.index {
        assert forall|i: int, j: int| 0 <= i <= j < s.push(x).len() implies
            #[trigger] s.push(x)[i].index <= #[trigger] s.push(x)[j].index by {
            if j < s.len() {
            } else {
                if i < s.len() {
                    assert(s[i].index <= s.last().index);
                }
            }
        }
    } else {
        assert(sorted_by_index(s.drop_last()));
        lemma_insert_ordered_sorted(s.drop_last(), x);
        lemma_insert_ordered_bound(s.drop_last(), x, s.last().index as int);
        lemma_insert_ordered_len(s.drop_last(), x);
        let t = insert_ordered(s.drop_last(), x);
        assert forall|i: int, j: int| 0 <= i <= j < t.push(s.last()).len() implies
            #[trigger] t.push(s.last())[i].index <= #[trigger] t.push(s.last())[j].index by {
            if j < t.len() {
            } else {
                if i < t.len() {
                    assert(t[i].index <= s.last().index);
                }
            }
        }
    }
}

pub proof fn lemma_stable_sorted_sorted<T>(s: Seq<Insertion<T>>)
    ensures
        sorted_by_index(stable_sorted(s)),
    decreases s.len(),
{
    if s.len() == 0 {
    } else {
        lemma_stable_sorted_sorted(s.drop_last());
        lemma_insert_ordered_sorted(stable_sorted(s.drop_last()), s.last());
    }
}

/// Placing `x` into a sorted sequence appends it to the run of its
/// equals and leaves every other run alone.
proof fn lemma_insert_ordered_filter<T>(s: Seq<Insertion<T>>, x: Insertion<T>, k: usize)
    ensures
        x.index == k ==> with_index(insert_ordered(s, x), k) == with_index(s, k).push(x),
        x.index != k ==> with_index(insert_ordered(s, x), k) == with_index(s, k),
    decreases s.len(),
{
    if s.len() == 0 {
        let r = insert_ordered(s, x);
        assert(r == seq![x]);
        assert(r.drop_last() =~= s);
        assert(r.last() == x);
        assert(with_index(s, k) == Seq::<Insertion<T>>::empty());
        if x.index == k {
            assert(with_index(r, k) == with_index(s, k).push(x));
        } else {
            assert(with_index(r, k) == with_index(s, k));
        }
    } else if s.last().index <= x.index {
        let r = s.push(x);
        assert(insert_ordered(s, x) == r);
        assert(r.drop_last() =~= s);
        assert(r.last() == x);
        if x.index == k {
            assert(with_index(r, k) == with_index(s, k).push(x));
        } else {
            assert(with_index(r, k) == with_index(s, k));
        }
    } else {
        lemma_insert_ordered_filter(s.drop_last(), x, k);
        let t = insert_ordered(s.drop_last(), x);
        let r = t.push(s.last());
        assert(insert_ordered(s, x) == r);
        assert(r.drop_last() =~= t);
        assert(r.last() == s.last());
        if x.index == k {
            // s.last().index > x.index == k, so the last element of s is
            // left out of the run on both sides.
            assert(s.last().index != k);
            assert(with_index(r, k) == with_index(t, k));
            assert(with_index(t, k) == with_index(s.drop_last(), k).push(x));
            assert(with_index(s, k) == with_index(s.drop_last(), k));
        } else {
            assert(with_index(t, k) == with_index(s.drop_last(), k));
            if s.last().index == k {
                assert(with_index(r, k) == with_index(t, k).push(s.last()));
                assert(with_index(s, k) == with_index(s.drop_last(), k).push(s.last()));
            } else {
                assert(with_index(r, k) == with_index(t, k));
                assert(with_index(s, k) == with_index(s.drop_last(), k));
            }
        }
    }
}

/// Stability: for every target index `k`, the sorted batch holds the
/// insertions aimed at `k` in the order they were queued.
pub proof fn lemma_stable_sorted_filter<T>(s: Seq<Insertion<T>>, k: usize)
    ensures
        with_index(stable_sorted(s), k) == with_index(s, k),
    decreases s.len(),
{
    if s.len() == 0 {
    } else {
        lemma_stable_sorted_filter(s.drop_last(), k);
        lemma_insert_ordered_filter(stable_sorted(s.drop_last()), s.last(), k);
    }
}

/// A sorted prefix run that is entirely greater than `x` leaves exactly
/// the slot `pos` for `x`.
proof fn lemma_insert_ordered_at<T>(s: Seq<Insertion<T>>, x: Insertion<T>, pos: int)
    requires
        sorted_by_index(s),
        0 <= pos <= s.len(),
        forall|m: int| pos <= m < s.len() ==> #[trigger] s[m].index > x.index,
        pos > 0 ==> s[pos - 1].index <= x.index,
    ensures
        insert_ordered(s, x) == s.take(pos) + seq![x] + s.skip(pos),
    decreases s.len(),
{
    if pos == s.len() {
        if s.len() == 0 {
            assert(insert_ordered(s, x) =~= s.take(pos) + seq![x] + s.skip(pos));
        } else {
            assert(s.last().index <= x.index);
            assert(s.push(x) =~= s.take(pos) + seq![x] + s.skip(pos));
        }
    } else {
        assert(s[s.len() - 1].index > x.index);
        assert(sorted_by_index(s.drop_last()));
        lemma_insert_ordered_at(s.drop_last(), x, pos);
        assert(insert_ordered(s.drop_last(), x).push(s.last())
            =~= s.take(pos) + seq![x] + s.skip(pos));
    }
}

/// Sort `target` in place by non-decreasing index, keeping insertions
/// that share an index in their original relative order.
pub fn insertion_sort_by<T>(target: &mut Vec<Insertion<T>>)
    ensures
        final(target)@ == stable_sorted(old(target)@),
{
    let ghost orig = target@;
    let n = target.len();
    if n == 0 {
        return;
    }
    let mut i: usize = 1;
    proof {
        assert(orig.take(1).drop_last() =~= Seq::<Insertion<T>>::empty());
        assert(stable_sorted(Seq::<Insertion<T>>::empty()) =~= Seq::<Insertion<T>>::empty());
        assert(insert_ordered(Seq::<Insertion<T>>::empty(), orig.take(1).last())
            =~= seq![orig.take(1).last()]);
        assert(seq![orig.take(1).last()] =~= orig.take(1));
        assert(stable_sorted(orig.take(1)) =~= orig.take(1));
        assert(orig.take(1) + orig.skip(1) =~= orig);
    }
    while i < n
        invariant
            1 <= i <= n,
            n == target@.len(),
            n == orig.len(),
            target@ == stable_sorted(orig.take(i as int)) + orig.skip(i as int),
        decreases n - i,
    {
        let ghost prefix = stable_sorted(orig.take(i as int));
        proof {
            lemma_stable_sorted_len(orig.take(i as int));
            lemma_stable_sorted_sorted(orig.take(i as int));
        }
        let key = target[i].index;
        proof {
            assert(target@[i as int] == orig.skip(i as int)[0]);
            assert(orig.skip(i as int)[0] == orig[i as int]);
        }
        let mut pos: usize = i;
        while pos > 0 && target[pos - 1].index > key
            invariant
                0 <= pos <= i < n,
                n == target@.len(),
                n == orig.len(),
                prefix.len() == i,
                target@ == prefix + orig.skip(i as int),
                forall|m: int| pos <= m < i ==> #[trigger] prefix[m].index > key,
            decreases pos,
        {
            proof {
                assert(target@[pos - 1] == prefix[pos - 1]);
            }
            pos = pos - 1;
        }
        proof {
            if pos > 0 {
                assert(target@[pos - 1] == prefix[pos - 1]);
            }
        }
        let x = target.remove(i);
        target.insert(pos, x);
        proof {
            assert(x == orig[i as int]);
            assert(x.index == key);
            lemma_insert_ordered_at(prefix, x, pos as int);
            assert(orig.take(i + 1).drop_last() =~= orig.take(i as int));
            assert(orig.take(i + 1).last() == orig[i as int]);
            assert((prefix + orig.skip(i as int)).remove(i as int).insert(pos as int, x)
                =~= (prefix.take(pos as int) + seq![x] + prefix.skip(pos as int))
                    + orig.skip(i + 1));
        }
        i = i + 1;
    }
    proof {
        assert(orig.take(n as int) =~= orig);
        assert(orig.skip(n as int) =~= Seq::<Insertion<T>>::empty());
        assert(stable_sorted(orig) + orig.skip(n as int) =~= stable_sorted(orig));
    }
}

/// Sort `target` in place by its index key; see [`insertion_sort_by`].
pub fn insertion_sort_by_key<T>(target: &mut Vec<Insertion<T>>)
    ensures
        final(target)@ == stable_sorted(old(target)@),
{
    insertion_sort_by(target)
}

} // verus!
