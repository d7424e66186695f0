use vstd::prelude::*;
use vstd::seq_lib::{to_multiset_build, to_multiset_contains, to_multiset_insert};

verus! {

/// An entry of the book that has a place in the order of service.
pub trait Ranked: Copy {
    /// The smaller the rank, the earlier the entry is served.
    spec fn rank(&self) -> int;

    /// Tells whether `self` has to be served strictly later than `other`.
    fn served_after(&self, other: &Self) -> (later: bool)
        ensures
            later == (self.rank() > other.rank()),
    ;
}

/// `s`, which is in order, with `x` put behind every entry that does not
/// rank above it.
pub open spec fn insert_ranked<T: Ranked>(s: Seq<T>, x: T) -> Seq<T>
    decreases s.len(),
{
    if s.len() == 0 || s.last().rank() <= x.rank() {
        s.push(x)
    } else {
        insert_ranked(s.drop_last(), x).push(s.last())
    }
}

/// `s` in ascending order of rank, entries of equal rank in the order in
/// which they stand in `s`.
pub open spec fn stable_sort<T: Ranked>(s: Seq<T>) -> Seq<T>
    decreases s.len(),
{
    if s.len() == 0 {
        s
    } else {
        insert_ranked(stable_sort(s.drop_last()), s.last())
    }
}

/// No entry ranks above a later one.
pub open spec fn in_order<T: Ranked>(s: Seq<T>) -> bool {
    forall|i: int, j: int| 0 <= i <= j < s.len() ==> (#[trigger] s[i]).rank() <= (#[trigger] s[j]).rank()
}

/// The test for having rank `r`.
pub open spec fn has_rank<T: Ranked>(r: int) -> spec_fn(T) -> bool {
    |x: T| x.rank() == r
}

/// The entries of `s` that have rank `r`, in the order in which they stand.
pub open spec fn of_rank<T: Ranked>(s: Seq<T>, r: int) -> Seq<T> {
    s.filter(has_rank::<T>(r))
}

/// Where `x` goes: behind the last entry that does not rank above it.
pub proof fn lemma_insert_ranked_at<T: Ranked>(s: Seq<T>, x: T, pos: int)
    requires
        0 <= pos <= s.len(),
        forall|k: int| pos <= k < s.len() ==> (#[trigger] s[k]).rank() > x.rank(),
        pos == 0 || s[pos - 1].rank() <= x.rank(),
    ensures
        insert_ranked(s, x) == s.insert(pos, x),
    decreases s.len(),
{
    if s.len() == 0 || s.last().rank() <= x.rank() {
        if pos < s.len() {
            assert(s[s.len() - 1].rank() > x.rank());
        }
        assert(s.push(x) =~= s.insert(pos, x));
    } else {
        assert(pos < s.len());
        let front = s.drop_last();
        assert forall|k: int| pos <= k < front.len() implies (#[trigger] front[k]).rank()
            > x.rank() by {
            assert(front[k] == s[k]);
        }
        lemma_insert_ranked_at(front, x, pos);
        assert(front.insert(pos, x).push(s.last()) =~= s.insert(pos, x));
    }
}

/// Returns the entries in ascending order of rank, without changing the
/// order among entries of equal rank.
pub fn sorted_by_rank<T: Ranked>(entries: &Vec<T>) -> (sorted: Vec<T>)
    ensures
        sorted@ == stable_sort(entries@),
{
    let mut sorted: Vec<T> = Vec::new();
    let mut i: usize = 0;
    while i < entries.len()
        invariant
            i <= entries.len(),
            sorted@ == stable_sort(entries@.take(i as int)),
            sorted.len() == i,
        decreases entries.len() - i,
    {
        let x = entries[i];
        let mut pos: usize = sorted.len();
        while pos > 0 && sorted[pos - 1].served_after(&x)
            invariant
                pos <= sorted.len(),
                forall|k: int| pos <= k < sorted.len() ==> (#[trigger] sorted@[k]).rank() > x.rank(),
            decreases pos,
        {
            pos -= 1;
        }
        proof {
            lemma_insert_ranked_at(sorted@, x, pos as int);
            assert(entries@.take(i + 1).drop_last() =~= entries@.take(i as int));
        }
        sorted.insert(pos, x);
        i += 1;
    }
    proof {
        assert(entries@.take(i as int) =~= entries@);
    }
    sorted
}

/// The place at which `x` enters `s`.
pub open spec fn slot<T: Ranked>(s: Seq<T>, x: T) -> int
    decreases s.len(),
{
    if s.len() == 0 || s.last().rank() <= x.rank() {
        s.len() as int
    } else {
        slot(s.drop_last(), x)
    }
}

/// Putting `x` in order is an insertion at `slot(s, x)`: everything behind
/// that place ranks above `x`, and what stands just before it does not.
pub proof fn lemma_insert_ranked_is_insert<T: Ranked>(s: Seq<T>, x: T)
    ensures
        0 <= slot(s, x) <= s.len(),
        insert_ranked(s, x) == s.insert(slot(s, x), x),
        forall|k: int| slot(s, x) <= k < s.len() ==> (#[trigger] s[k]).rank() > x.rank(),
        slot(s, x) == 0 || s[slot(s, x) - 1].rank() <= x.rank(),
    decreases s.len(),
{
    if s.len() == 0 || s.last().rank() <= x.rank() {
    } else {
        let front = s.drop_last();
        lemma_insert_ranked_is_insert(front, x);
        assert forall|k: int| slot(s, x) <= k < s.len() implies (#[trigger] s[k]).rank()
            > x.rank() by {
            if k < front.len() {
                assert(front[k] == s[k]);
            }
        }
        if slot(s, x) > 0 {
            assert(front[slot(s, x) - 1] == s[slot(s, x) - 1]);
        }
    }
    lemma_insert_ranked_at(s, x, slot(s, x));
}

/// Sorting neither adds nor drops an entry.
pub proof fn sort_rearranges<T: Ranked>(s: Seq<T>)
    ensures
        stable_sort(s).len() == s.len(),
        stable_sort(s).to_multiset() == s.to_multiset(),
        forall|x: T| stable_sort(s).contains(x) <==> s.contains(x),
    decreases s.len(),
{
    if s.len() > 0 {
        let front = s.drop_last();
        let sorted = stable_sort(front);
        sort_rearranges(front);
        lemma_insert_ranked_is_insert(sorted, s.last());
        to_multiset_insert(sorted, slot(sorted, s.last()), s.last());
        to_multiset_build(front, s.last());
        assert(front.push(s.last()) =~= s);
    }
    assert forall|x: T| stable_sort(s).contains(x) <==> s.contains(x) by {
        to_multiset_contains(stable_sort(s), x);
        to_multiset_contains(s, x);
    }
}

/// Sorting puts the entries in ascending order of rank.
pub proof fn sort_puts_in_order<T: Ranked>(s: Seq<T>)
    ensures
        in_order(stable_sort(s)),
    decreases s.len(),
{
    if s.len() > 0 {
        let sorted = stable_sort(s.drop_last());
        let x = s.last();
        sort_puts_in_order(s.drop_last());
        lemma_insert_ranked_is_insert(sorted, x);
        let pos = slot(sorted, x);
        let out = sorted.insert(pos, x);
        assert forall|i: int, j: int| 0 <= i <= j < out.len() implies (#[trigger] out[i]).rank()
            <= (#[trigger] out[j]).rank() by {
            if i < pos && j == pos {
                assert(sorted[i].rank() <= sorted[pos - 1].rank());
            } else if i < pos && j > pos {
                assert(sorted[i].rank() <= sorted[pos - 1].rank());
                assert(sorted[j - 1].rank() > x.rank());
            } else if i == pos && j > pos {
                assert(sorted[j - 1].rank() > x.rank());
            } else if i > pos {
                assert(sorted[i - 1].rank() <= sorted[j - 1].rank());
            } else if j < pos {
                assert(sorted[i].rank() <= sorted[j].rank());
            }
        }
    }
}

/// Putting `x` in order leaves the entries of every rank in their order,
/// with `x` behind those of its own rank.
pub proof fn lemma_insert_keeps_ties_in_place<T: Ranked>(s: Seq<T>, x: T, r: int)
    ensures
        of_rank(insert_ranked(s, x), r) == if x.rank() == r {
            of_rank(s, r).push(x)
        } else {
            of_rank(s, r)
        },
    decreases s.len(),
{
    let p = has_rank::<T>(r);
    if s.len() == 0 || s.last().rank() <= x.rank() {
        s.lemma_filter_push(x, p);
    } else {
        let front = s.drop_last();
        let last = s.last();
        lemma_insert_keeps_ties_in_place(front, x, r);
        insert_ranked(front, x).lemma_filter_push(last, p);
        front.lemma_filter_push(last, p);
        assert(front.push(last) =~= s);
    }
}

/// Sorting is stable: the entries of any one rank come out in the order in
/// which they went in.
pub proof fn sort_keeps_ties_in_place<T: Ranked>(s: Seq<T>, r: int)
    ensures
        of_rank(stable_sort(s), r) == of_rank(s, r),
    decreases s.len(),
{
    if s.len() > 0 {
        let front = s.drop_last();
        let last = s.last();
        sort_keeps_ties_in_place(front, r);
        lemma_insert_keeps_ties_in_place(stable_sort(front), last, r);
        front.lemma_filter_push(last, has_rank::<T>(r));
        assert(front.push(last) =~= s);
    }
}

/// Sorting what is in order already changes nothing.
pub proof fn sort_of_ordered_changes_nothing<T: Ranked>(s: Seq<T>)
    requires
        in_order(s),
    ensures
        stable_sort(s) == s,
    decreases s.len(),
{
    if s.len() > 0 {
        let front = s.drop_last();
        assert forall|i: int, j: int| 0 <= i <= j < front.len() implies (#[trigger] front[i]).rank()
            <= (#[trigger] front[j]).rank() by {
            assert(front[i] == s[i] && front[j] == s[j]);
        }
        sort_of_ordered_changes_nothing(front);
        if front.len() > 0 {
            assert(front.last() == s[front.len() - 1]);
            assert(s[front.len() - 1].rank() <= s[s.len() - 1].rank());
        }
        assert(front.push(s.last()) =~= s);
    }
}

/// Dropping entries does not disturb the order of those that stay.
pub proof fn lemma_filter_keeps_order<T: Ranked>(s: Seq<T>, keep: spec_fn(T) -> bool)
    requires
        forall|i: int, j: int|
            0 <= i <= j < s.len() && keep(s[i]) && keep(s[j]) ==> (#[trigger] s[i]).rank() <= (
            #[trigger] s[j]).rank(),
    ensures
        in_order(s.filter(keep)),
    decreases s.len(),
{
    reveal(Seq::filter);
    if s.len() > 0 {
        let front = s.drop_last();
        let last = s.last();
        assert forall|i: int, j: int|
            0 <= i <= j < front.len() && keep(front[i]) && keep(front[j]) implies (
        #[trigger] front[i]).rank() <= (#[trigger] front[j]).rank() by {
            assert(front[i] == s[i] && front[j] == s[j]);
        }
        lemma_filter_keeps_order(front, keep);
        if keep(last) {
            let kept = front.filter(keep);
            let out = s.filter(keep);
            assert(out == kept.push(last));
            assert forall|i: int, j: int| 0 <= i <= j < out.len() implies (#[trigger] out[i]).rank()
                <= (#[trigger] out[j]).rank() by {
                if j == kept.len() && i < kept.len() {
                    front.lemma_filter_pred(keep, i);
                    assert(kept.contains(kept[i]));
                    front.lemma_filter_contains_rev(keep, kept[i]);
                    let m = choose|m: int| 0 <= m < front.len() && front[m] == kept[i];
                    assert(front[m] == s[m]);
                    assert(s[m].rank() <= s[s.len() - 1].rank());
                } else if j < kept.len() {
                    assert(kept[i].rank() <= kept[j].rank());
                }
            }
        }
    }
}

/// Dropping nothing changes nothing.
pub proof fn lemma_filter_of_kept<T>(s: Seq<T>, keep: spec_fn(T) -> bool)
    requires
        forall|i: int| 0 <= i < s.len() ==> keep(#[trigger] s[i]),
    ensures
        s.filter(keep) == s,
    decreases s.len(),
{
    reveal(Seq::filter);
    if s.len() > 0 {
        let front = s.drop_last();
        assert forall|i: int| 0 <= i < front.len() implies keep(#[trigger] front[i]) by {
            assert(front[i] == s[i]);
        }
        lemma_filter_of_kept(front, keep);
        assert(front.push(s.last()) =~= s);
    }
}

} // verus!
