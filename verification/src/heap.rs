//! Binary max-heaps laid out in a stretch of a vector, and the heap sort
//! built on them.
//!
//! A heap of `len` items occupies `v[lo..lo + len]`; the item at heap position
//! `c` stands at `v[lo + c]` and its parent at heap position `(c - 1) / 2`.
use vstd::prelude::*;
use vstd::seq_lib::*;

verus! {

/// Items that can be put in order, with a choice of what to order them by.
pub trait Ranked {
    /// The value that orders this item when ordering by `by`.
    spec fn rank(&self, by: int) -> int;

    /// Whether this item can be ordered by `by`.
    spec fn ranked(&self, by: int) -> bool;

    /// Whether this item comes no later than `other` when ordering by `by`.
    fn rank_le(&self, other: &Self, by: usize) -> (le: bool)
        requires
            self.ranked(by as int),
            other.ranked(by as int),
        ensures
            le == (self.rank(by as int) <= other.rank(by as int)),
    ;
}

/// The sequence `s` with the items at `i` and `j` exchanged.
pub open spec fn swapped<E>(s: Seq<E>, i: int, j: int) -> Seq<E> {
    s.update(i, s[j]).update(j, s[i])
}

/// `b` holds the items of `a`, those of `a[lo..hi]` rearranged among
/// themselves and all others in place.
pub open spec fn same_items<E>(a: Seq<E>, b: Seq<E>, lo: int, hi: int) -> bool {
    &&& a.len() == b.len()
    &&& a.subrange(lo, hi).to_multiset() == b.subrange(lo, hi).to_multiset()
    &&& forall|i: int| 0 <= i < a.len() && !(lo <= i < hi) ==> a[i] == b[i]
}

/// Every item of `s[lo..hi]` can be ordered by `by`.
pub open spec fn all_ranked<E: Ranked>(s: Seq<E>, lo: int, hi: int, by: int) -> bool {
    forall|i: int| lo <= i < hi ==> (#[trigger] s[i]).ranked(by)
}

/// `s[lo..hi]` is in ascending order of rank.
pub open spec fn ascending<E: Ranked>(s: Seq<E>, lo: int, hi: int, by: int) -> bool {
    forall|i: int, j: int| lo <= i <= j < hi ==> s[i].rank(by) <= s[j].rank(by)
}

/// The item at heap position `c` ranks no higher than its parent.
pub open spec fn below_parent<E: Ranked>(s: Seq<E>, lo: int, c: int, by: int) -> bool {
    s[lo + (c - 1) / 2].rank(by) >= s[lo + c].rank(by)
}

/// The item at heap position `c` ranks no higher than the one at `g`.
pub open spec fn below<E: Ranked>(s: Seq<E>, lo: int, g: int, c: int, by: int) -> bool {
    s[lo + g].rank(by) >= s[lo + c].rank(by)
}

/// `s[lo..lo + len]` is a max-heap: no item ranks higher than its parent.
pub open spec fn is_heap<E: Ranked>(s: Seq<E>, lo: int, len: int, by: int) -> bool {
    forall|c: int| 0 < c < len ==> #[trigger] below_parent(s, lo, c, by)
}

/// A max-heap but for the item at `p`, which may rank higher than its parent.
pub open spec fn heap_but_above<E: Ranked>(s: Seq<E>, lo: int, len: int, p: int, by: int) -> bool {
    &&& forall|c: int| 0 < c < len && c != p ==> #[trigger] below_parent(s, lo, c, by)
    &&& forall|c: int|
        0 < c < len && (c - 1) / 2 == p && p > 0 ==> #[trigger] below(s, lo, (p - 1) / 2, c, by)
}

/// A max-heap but for the item at `p`, which may rank lower than its children.
pub open spec fn heap_but_below<E: Ranked>(s: Seq<E>, lo: int, len: int, p: int, by: int) -> bool {
    &&& forall|c: int| 0 < c < len && (c - 1) / 2 != p ==> #[trigger] below_parent(s, lo, c, by)
    &&& forall|c: int|
        0 < c < len && (c - 1) / 2 == p && p > 0 ==> #[trigger] below(s, lo, (p - 1) / 2, c, by)
}

/// Exchanging two items leaves the multiset of items unchanged.
pub proof fn lemma_swapped_multiset<E>(s: Seq<E>, i: int, j: int)
    requires
        0 <= i < s.len(),
        0 <= j < s.len(),
    ensures
        swapped(s, i, j).to_multiset() == s.to_multiset(),
{
    broadcast use vstd::multiset::group_multiset_axioms;

    let s1 = s.update(i, s[j]);
    to_multiset_update(s, i, s[j]);
    to_multiset_update(s1, j, s[i]);
    to_multiset_contains(s, s[i]);
    to_multiset_contains(s, s[j]);
    assert(s.contains(s[i]));
    assert(s.contains(s[j]));
    assert(s1[j] == s[j]);
    assert(swapped(s, i, j).to_multiset() =~= s.to_multiset());
}

/// Exchanging two items of `s[lo..hi]` keeps the items of that stretch and
/// touches nothing outside it.
pub proof fn lemma_swapped_same_items<E>(s: Seq<E>, lo: int, hi: int, i: int, j: int)
    requires
        0 <= lo <= i < hi <= s.len(),
        lo <= j < hi,
    ensures
        same_items(s, swapped(s, i, j), lo, hi),
{
    let t = swapped(s, i, j);
    lemma_swapped_multiset(s.subrange(lo, hi), i - lo, j - lo);
    assert(t.subrange(lo, hi) =~= swapped(s.subrange(lo, hi), i - lo, j - lo));
}

/// Rearranging within `a[lo..hi]` twice is rearranging within it once.
pub proof fn lemma_same_items_trans<E>(a: Seq<E>, b: Seq<E>, c: Seq<E>, lo: int, hi: int)
    requires
        same_items(a, b, lo, hi),
        same_items(b, c, lo, hi),
    ensures
        same_items(a, c, lo, hi),
{
}

/// A rearrangement within `a[lo..hi]` is one within any wider stretch.
pub proof fn lemma_same_items_widen<E>(a: Seq<E>, b: Seq<E>, lo: int, hi: int, lo2: int, hi2: int)
    requires
        same_items(a, b, lo, hi),
        0 <= lo2 <= lo <= hi <= hi2 <= a.len(),
    ensures
        same_items(a, b, lo2, hi2),
{
    let a1 = a.subrange(lo2, lo);
    let a2 = a.subrange(lo, hi);
    let a3 = a.subrange(hi, hi2);
    let b1 = b.subrange(lo2, lo);
    let b2 = b.subrange(lo, hi);
    let b3 = b.subrange(hi, hi2);
    assert(a1 =~= b1);
    assert(a3 =~= b3);
    assert(a.subrange(lo2, hi2) =~= a1 + a2 + a3);
    assert(b.subrange(lo2, hi2) =~= b1 + b2 + b3);
    lemma_multiset_commutative(a1, a2);
    lemma_multiset_commutative(b1, b2);
    lemma_multiset_commutative(a1 + a2, a3);
    lemma_multiset_commutative(b1 + b2, b3);
}

/// Whatever holds of every item of `a[lo..hi]` holds of every item of a
/// rearrangement of it.
pub proof fn lemma_same_items_member<E>(a: Seq<E>, b: Seq<E>, lo: int, hi: int, i: int) -> (j: int)
    requires
        same_items(a, b, lo, hi),
        0 <= lo <= i < hi <= a.len(),
    ensures
        lo <= j < hi,
        a[j] == b[i],
{
    let sa = a.subrange(lo, hi);
    let sb = b.subrange(lo, hi);
    assert(sb[i - lo] == b[i]);
    assert(sb.contains(b[i]));
    to_multiset_contains(sb, b[i]);
    to_multiset_contains(sa, b[i]);
    assert(sa.contains(b[i]));
    let k = choose|k: int| 0 <= k < sa.len() && sa[k] == b[i];
    lo + k
}

/// A rearrangement of items that can all be ordered can be ordered too.
pub proof fn lemma_same_items_ranked<E: Ranked>(a: Seq<E>, b: Seq<E>, lo: int, hi: int, by: int)
    requires
        same_items(a, b, lo, hi),
        0 <= lo <= hi <= a.len(),
        all_ranked(a, lo, hi, by),
    ensures
        all_ranked(b, lo, hi, by),
{
    assert forall|i: int| lo <= i < hi implies (#[trigger] b[i]).ranked(by) by {
        let j = lemma_same_items_member(a, b, lo, hi, i);
        assert(a[j].ranked(by));
    }
}

/// In a max-heap no item ranks higher than the root.
pub proof fn lemma_root_is_max<E: Ranked>(s: Seq<E>, lo: int, len: int, by: int, c: int)
    requires
        is_heap(s, lo, len, by),
        0 <= c < len,
    ensures
        s[lo].rank(by) >= s[lo + c].rank(by),
    decreases c,
{
    if c > 0 {
        assert(below_parent(s, lo, c, by));
        lemma_root_is_max(s, lo, len, by, (c - 1) / 2);
    }
}

/// Exchanges the items at `i` and `j`.
pub fn swap_items<E>(v: &mut Vec<E>, i: usize, j: usize)
    requires
        i < old(v).len(),
        j < old(v).len(),
    ensures
        final(v)@ == swapped(old(v)@, i as int, j as int),
{
    if i == j {
        assert(v@ =~= swapped(v@, i as int, j as int));
        return ;
    }
    let last: usize = v.len() - 1;
    if j == last {
        swap_with_last(v, i);
    } else if i == last {
        swap_with_last(v, j);
    } else {
        swap_with_last(v, i);
        swap_with_last(v, j);
        swap_with_last(v, i);
    }
    assert(v@ =~= swapped(old(v)@, i as int, j as int));
}

/// Exchanges the item at `i` with the last one.
fn swap_with_last<E>(v: &mut Vec<E>, i: usize)
    requires
        i < old(v).len(),
    ensures
        final(v)@ == swapped(old(v)@, i as int, old(v).len() - 1),
{
    let item = v.swap_remove(i);
    v.push(item);
    assert(v@ =~= swapped(old(v)@, i as int, old(v).len() - 1));
}

/// Moves the last item of the heap `v[lo..lo + len]` up to where it belongs,
/// given that the items before it form a heap.
pub(crate) fn sift_up<E: Ranked>(v: &mut Vec<E>, lo: usize, len: usize, by: usize)
    requires
        len > 0,
        lo + len <= old(v).len(),
        all_ranked(old(v)@, lo as int, lo + len, by as int),
        is_heap(old(v)@, lo as int, len - 1, by as int),
    ensures
        is_heap(final(v)@, lo as int, len as int, by as int),
        same_items(old(v)@, final(v)@, lo as int, lo + len),
        all_ranked(final(v)@, lo as int, lo + len, by as int),
{
    let mut p: usize = len - 1;
    let mut settled: bool = false;
    assert(v@.subrange(lo as int, lo + len) =~= old(v)@.subrange(lo as int, lo + len));
    assert(heap_but_above(v@, lo as int, len as int, p as int, by as int)) by {
        assert forall|c: int| 0 < c < len && c != p implies #[trigger] below_parent(
            v@,
            lo as int,
            c,
            by as int,
        ) by {
            assert(below_parent(old(v)@, lo as int, c, by as int));
        }
    }
    while !settled && p > 0
        invariant
            p < len,
            lo + len <= v.len(),
            all_ranked(v@, lo as int, lo + len, by as int),
            same_items(old(v)@, v@, lo as int, lo + len),
            heap_but_above(v@, lo as int, len as int, p as int, by as int),
            settled ==> is_heap(v@, lo as int, len as int, by as int),
        decreases p + (if settled { 0int } else { 1int }),
    {
        let parent: usize = (p - 1) / 2;
        if v[lo + p].rank_le(&v[lo + parent], by) {
            settled = true;
            assert(below_parent(v@, lo as int, p as int, by as int));
            assert forall|c: int| 0 < c < len implies #[trigger] below_parent(
                v@,
                lo as int,
                c,
                by as int,
            ) by {
                if c != p {
                    assert(below_parent(v@, lo as int, c, by as int));
                }
            }
        } else {
            let ghost before = v@;
            swap_items(v, lo + p, lo + parent);
            proof {
                lemma_swapped_same_items(before, lo as int, lo + len, lo + p, lo + parent);
                lemma_same_items_trans(old(v)@, before, v@, lo as int, lo + len);
                lemma_same_items_ranked(before, v@, lo as int, lo + len, by as int);
                lemma_sift_up_step(before, lo as int, len as int, p as int, by as int);
            }
            p = parent;
        }
    }
    proof {
        if !settled {
            assert forall|c: int| 0 < c < len implies #[trigger] below_parent(
                v@,
                lo as int,
                c,
                by as int,
            ) by {
                assert(c != p);
            }
        }
    }
}

/// Exchanging an item that outranks its parent with that parent moves the one
/// fault of the heap up to the parent's place.
proof fn lemma_sift_up_step<E: Ranked>(s: Seq<E>, lo: int, len: int, p: int, by: int)
    requires
        0 <= lo,
        0 < p < len,
        lo + len <= s.len(),
        heap_but_above(s, lo, len, p, by),
        !below_parent(s, lo, p, by),
    ensures
        heap_but_above(swapped(s, lo + p, lo + (p - 1) / 2), lo, len, (p - 1) / 2, by),
{
    let g = (p - 1) / 2;
    let t = swapped(s, lo + p, lo + g);
    assert forall|c: int| 0 < c < len && c != g implies #[trigger] below_parent(t, lo, c, by) by {
        if c == p {
        } else if (c - 1) / 2 == p {
            assert(below(s, lo, g, c, by));
        } else if (c - 1) / 2 == g {
            assert(below_parent(s, lo, c, by));
        } else {
            assert(below_parent(s, lo, c, by));
        }
    }
    assert forall|c: int| 0 < c < len && (c - 1) / 2 == g && g > 0 implies #[trigger] below(
        t,
        lo,
        (g - 1) / 2,
        c,
        by,
    ) by {
        assert(below_parent(s, lo, g, by));
        if c != p {
            assert(below_parent(s, lo, c, by));
        }
    }
}

/// Moves the root of `v[lo..lo + len]` down to where it belongs, given that
/// the stretch is a heap but for its root.
pub(crate) fn sift_down<E: Ranked>(v: &mut Vec<E>, lo: usize, len: usize, by: usize)
    requires
        lo + len <= old(v).len(),
        all_ranked(old(v)@, lo as int, lo + len, by as int),
        heap_but_below(old(v)@, lo as int, len as int, 0, by as int),
    ensures
        is_heap(final(v)@, lo as int, len as int, by as int),
        same_items(old(v)@, final(v)@, lo as int, lo + len),
        all_ranked(final(v)@, lo as int, lo + len, by as int),
{
    let mut p: usize = 0;
    let mut settled: bool = false;
    let half: usize = len / 2;
    while !settled && p < half
        invariant
            half == len / 2,
            lo + len <= v.len(),
            all_ranked(v@, lo as int, lo + len, by as int),
            same_items(old(v)@, v@, lo as int, lo + len),
            heap_but_below(v@, lo as int, len as int, p as int, by as int),
            settled ==> is_heap(v@, lo as int, len as int, by as int),
        decreases len - p + (if settled { 0int } else { 1int }),
    {
        let left: usize = 2 * p + 1;
        let right: usize = left + 1;
        let mut big: usize = left;
        if right < len && !v[lo + right].rank_le(&v[lo + left], by) {
            big = right;
        }
        if v[lo + big].rank_le(&v[lo + p], by) {
            settled = true;
            assert forall|c: int| 0 < c < len implies #[trigger] below_parent(
                v@,
                lo as int,
                c,
                by as int,
            ) by {
                if (c - 1) / 2 != p {
                    assert(below_parent(v@, lo as int, c, by as int));
                } else {
                    assert(c == left || c == right);
                }
            }
        } else {
            let ghost before = v@;
            swap_items(v, lo + p, lo + big);
            proof {
                lemma_swapped_same_items(before, lo as int, lo + len, lo + p, lo + big);
                lemma_same_items_trans(old(v)@, before, v@, lo as int, lo + len);
                lemma_same_items_ranked(before, v@, lo as int, lo + len, by as int);
                lemma_sift_down_step(before, lo as int, len as int, p as int, big as int, by as int);
            }
            p = big;
        }
    }
    proof {
        if !settled {
            assert forall|c: int| 0 < c < len implies #[trigger] below_parent(
                v@,
                lo as int,
                c,
                by as int,
            ) by {
                assert((c - 1) / 2 != p);
            }
        }
    }
}

/// Exchanging an item with its highest-ranking child, which outranks it,
/// moves the one fault of the heap down to that child's place.
proof fn lemma_sift_down_step<E: Ranked>(s: Seq<E>, lo: int, len: int, p: int, big: int, by: int)
    requires
        0 <= lo,
        0 <= p < big < len,
        lo + len <= s.len(),
        (big - 1) / 2 == p,
        heap_but_below(s, lo, len, p, by),
        !below(s, lo, p, big, by),
        forall|c: int| 0 < c < len && (c - 1) / 2 == p ==> #[trigger] below(s, lo, big, c, by),
    ensures
        heap_but_below(swapped(s, lo + p, lo + big), lo, len, big, by),
{
    let t = swapped(s, lo + p, lo + big);
    assert forall|c: int| 0 < c < len && (c - 1) / 2 != big implies #[trigger] below_parent(
        t,
        lo,
        c,
        by,
    ) by {
        if c == big {
        } else if (c - 1) / 2 == p {
            assert(below(s, lo, big, c, by));
        } else if c == p {
            assert(below(s, lo, (p - 1) / 2, big, by));
        } else {
            assert(below_parent(s, lo, c, by));
        }
    }
    assert forall|c: int| 0 < c < len && (c - 1) / 2 == big && big > 0 implies #[trigger] below(
        t,
        lo,
        (big - 1) / 2,
        c,
        by,
    ) by {
        assert(below_parent(s, lo, c, by));
    }
}

/// Every item of `s[lo..mid]` ranks no higher than any item of `s[mid..hi]`.
pub open spec fn split_at_rank<E: Ranked>(s: Seq<E>, lo: int, mid: int, hi: int, by: int) -> bool {
    forall|i: int, j: int| lo <= i < mid && mid <= j < hi ==> s[i].rank(by) <= s[j].rank(by)
}

/// Moving the root of a heap behind its other items, and making a heap of
/// those again, extends the sorted tail by one item.
proof fn lemma_sort_step<E: Ranked>(s: Seq<E>, t: Seq<E>, lo: int, end: int, hi: int, by: int)
    requires
        0 <= lo,
        0 <= end,
        lo + end < hi <= s.len(),
        is_heap(s, lo, end + 1, by),
        ascending(s, lo + end + 1, hi, by),
        split_at_rank(s, lo, lo + end + 1, hi, by),
        same_items(swapped(s, lo, lo + end), t, lo, lo + end),
    ensures
        ascending(t, lo + end, hi, by),
        split_at_rank(t, lo, lo + end, hi, by),
{
    let u = swapped(s, lo, lo + end);
    assert forall|i: int, j: int| lo <= i < lo + end && lo + end <= j < hi implies t[i].rank(by)
        <= t[j].rank(by) by {
        let k = lemma_same_items_member(u, t, lo, lo + end, i);
        assert(t[i] == u[k]);
        assert(u[k] == s[k] || u[k] == s[lo + end]);
        assert(t[j] == u[j]);
        if j == lo + end {
            lemma_root_is_max(s, lo, end + 1, by, k - lo);
            lemma_root_is_max(s, lo, end + 1, by, end);
        }
    }
    assert forall|i: int, j: int| lo + end <= i <= j < hi implies t[i].rank(by) <= t[j].rank(
        by,
    ) by {
        assert(t[i] == u[i]);
        assert(t[j] == u[j]);
    }
}

/// Sorts `v[lo..hi]` into ascending order of rank and leaves the rest of `v`
/// as it is.
pub fn sort_range<E: Ranked>(v: &mut Vec<E>, lo: usize, hi: usize, by: usize)
    requires
        lo <= hi <= old(v).len(),
        all_ranked(old(v)@, lo as int, hi as int, by as int),
    ensures
        same_items(old(v)@, final(v)@, lo as int, hi as int),
        ascending(final(v)@, lo as int, hi as int, by as int),
        all_ranked(final(v)@, lo as int, hi as int, by as int),
{
    let len: usize = hi - lo;
    let mut m: usize = 0;
    while m < len
        invariant
            m <= len,
            len == hi - lo,
            hi <= v.len(),
            is_heap(v@, lo as int, m as int, by as int),
            same_items(old(v)@, v@, lo as int, hi as int),
            all_ranked(v@, lo as int, hi as int, by as int),
        decreases len - m,
    {
        let ghost before = v@;
        m = m + 1;
        sift_up(v, lo, m, by);
        proof {
            lemma_same_items_widen(before, v@, lo as int, lo + m, lo as int, hi as int);
            lemma_same_items_trans(old(v)@, before, v@, lo as int, hi as int);
            lemma_same_items_ranked(before, v@, lo as int, hi as int, by as int);
        }
    }
    let mut end: usize = len;
    while end > 1
        invariant
            end <= len,
            len == hi - lo,
            hi <= v.len(),
            is_heap(v@, lo as int, end as int, by as int),
            ascending(v@, lo + end, hi as int, by as int),
            split_at_rank(v@, lo as int, lo + end, hi as int, by as int),
            same_items(old(v)@, v@, lo as int, hi as int),
            all_ranked(v@, lo as int, hi as int, by as int),
        decreases end,
    {
        let ghost before = v@;
        end = end - 1;
        swap_items(v, lo, lo + end);
        let ghost exchanged = v@;
        proof {
            lemma_swapped_same_items(before, lo as int, hi as int, lo as int, lo + end);
            lemma_same_items_ranked(before, exchanged, lo as int, hi as int, by as int);
            assert forall|c: int| 0 < c < end && (c - 1) / 2 != 0 implies #[trigger] below_parent(
                exchanged,
                lo as int,
                c,
                by as int,
            ) by {
                assert(below_parent(before, lo as int, c, by as int));
            }
        }
        sift_down(v, lo, end, by);
        proof {
            lemma_sort_step(before, v@, lo as int, end as int, hi as int, by as int);
            lemma_same_items_widen(exchanged, v@, lo as int, lo + end, lo as int, hi as int);
            lemma_same_items_trans(before, exchanged, v@, lo as int, hi as int);
            lemma_same_items_trans(old(v)@, before, v@, lo as int, hi as int);
            lemma_same_items_ranked(exchanged, v@, lo as int, hi as int, by as int);
        }
    }
    proof {
        assert forall|i: int, j: int| lo <= i <= j < hi implies v@[i].rank(by as int) <= v@[j].rank(
            by as int,
        ) by {
            if i < lo + end {
                assert(i == lo);
            }
        }
    }
}

} // verus!
