//! A binary heap over `(position, score)` entries, held in a `Vec`, whose
//! root is the entry that ranks lowest. Top-k selection keeps the `k` best
//! entries seen so far in it, so that the entry to evict is always at the
//! root.
use crate::score::{ord_float_cmp, spec_key};
use std::cmp::Ordering;
use vstd::prelude::*;

verus! {

/// `a` ranks above `b`: a greater score key, or an equal key at an earlier
/// position.
pub open spec fn ranks_above(a: (usize, u32), b: (usize, u32)) -> bool {
    spec_key(a.1) > spec_key(b.1) || (spec_key(a.1) == spec_key(b.1) && a.0 < b.0)
}

/// The position of the parent of heap slot `i`.
pub open spec fn parent(i: int) -> int {
    (i - 1) / 2
}

/// No parent ranks above its child, so the root ranks lowest.
pub open spec fn heap_ok(h: Seq<(usize, u32)>) -> bool {
    forall|i: int| 0 < i < h.len() ==> !ranks_above(h[parent(i)], #[trigger] h[i])
}

/// No two entries share a position.
pub open spec fn distinct_positions(h: Seq<(usize, u32)>) -> bool {
    forall|p: int, q: int|
        0 <= p < h.len() && 0 <= q < h.len() && p != q ==> #[trigger] h[p].0 != #[trigger] h[q].0
}

/// Decides `ranks_above` by the score order and then the position.
pub fn entry_ranks_above(a: (usize, u32), b: (usize, u32)) -> (r: bool)
    ensures
        r == ranks_above(a, b),
{
    match ord_float_cmp(a.1, b.1) {
        Ordering::Greater => true,
        Ordering::Less => false,
        Ordering::Equal => a.0 < b.0,
    }
}

/// Exchanging two slots keeps the length, the entries held, and distinct
/// positions.
pub proof fn lemma_swap_keeps(h: Seq<(usize, u32)>, i: int, j: int)
    requires
        0 <= i < h.len(),
        0 <= j < h.len(),
    ensures
        ({
            let h2 = h.update(i, h[j]).update(j, h[i]);
            &&& h2.len() == h.len()
            &&& forall|y: (usize, u32)| h2.contains(y) <==> h.contains(y)
            &&& distinct_positions(h) ==> distinct_positions(h2)
        }),
{
    let h2 = h.update(i, h[j]).update(j, h[i]);
    assert forall|y: (usize, u32)| h2.contains(y) <==> h.contains(y) by {
        if h.contains(y) {
            let p = choose|p: int| 0 <= p < h.len() && h[p] == y;
            let w = if p == i {
                j
            } else if p == j {
                i
            } else {
                p
            };
            assert(h2[w] == y);
        }
        if h2.contains(y) {
            let p = choose|p: int| 0 <= p < h2.len() && h2[p] == y;
            let w = if p == j {
                i
            } else if p == i {
                j
            } else {
                p
            };
            assert(h[w] == y);
        }
    }
    if distinct_positions(h) {
        assert forall|p: int, q: int|
            0 <= p < h2.len() && 0 <= q < h2.len() && p != q implies #[trigger] h2[p].0
            != #[trigger] h2[q].0 by {
            let pp = if p == j {
                i
            } else if p == i {
                j
            } else {
                p
            };
            let qq = if q == j {
                i
            } else if q == i {
                j
            } else {
                q
            };
            assert(h2[p] == h[pp]);
            assert(h2[q] == h[qq]);
        }
    }
}

/// The root of a heap ranks no higher than any entry.
pub proof fn lemma_root_lowest(h: Seq<(usize, u32)>, i: int)
    requires
        heap_ok(h),
        0 <= i < h.len(),
    ensures
        !ranks_above(h[0], h[i]),
    decreases i,
{
    if i > 0 {
        lemma_root_lowest(h, parent(i));
        assert(!ranks_above(h[parent(i)], h[i]));
    }
}

fn swap_slots(h: &mut Vec<(usize, u32)>, i: usize, j: usize)
    requires
        i < old(h)@.len(),
        j < old(h)@.len(),
    ensures
        final(h)@ == old(h)@.update(i as int, old(h)@[j as int]).update(j as int, old(h)@[i as int]),
{
    let a = h[i];
    let b = h[j];
    h.set(i, b);
    h.set(j, a);
}

/// Moves the entry at the root down until no parent ranks above its child.
fn sift_down(h: &mut Vec<(usize, u32)>)
    requires
        old(h)@.len() > 0,
        forall|i: int|
            0 < i < old(h)@.len() && parent(i) != 0 ==> !ranks_above(
                old(h)@[parent(i)],
                #[trigger] old(h)@[i],
            ),
    ensures
        heap_ok(final(h)@),
        final(h)@.len() == old(h)@.len(),
        forall|y: (usize, u32)| final(h)@.contains(y) <==> old(h)@.contains(y),
        distinct_positions(old(h)@) ==> distinct_positions(final(h)@),
{
    let ghost orig = h@;
    let n = h.len();
    let mut p: usize = 0;
    loop
        invariant
            h@.len() == n,
            n == orig.len(),
            p < n,
            forall|y: (usize, u32)| h@.contains(y) <==> orig.contains(y),
            distinct_positions(orig) ==> distinct_positions(h@),
            forall|i: int| 0 < i < n && parent(i) != p ==> !ranks_above(h@[parent(i)], #[trigger] h@[i]),
            p > 0 ==> forall|c: int|
                0 < c < n && parent(c) == p ==> !ranks_above(h@[parent(p as int)], #[trigger] h@[c]),
        ensures
            heap_ok(h@),
            h@.len() == n,
            forall|y: (usize, u32)| h@.contains(y) <==> orig.contains(y),
            distinct_positions(orig) ==> distinct_positions(h@),
        decreases n - p,
    {
        if p >= n / 2 {
            assert forall|i: int| 0 < i < h@.len() implies !ranks_above(h@[parent(i)], #[trigger] h@[i]) by {
                assert(parent(i) != p);
            }
            break;
        }
        let l = 2 * p + 1;
        let r = l + 1;
        let mut m = l;
        if r < n && entry_ranks_above(h[l], h[r]) {
            m = r;
        }
        assert(parent(l as int) == p);
        assert(parent(r as int) == p);
        assert(forall|c: int| 0 < c < n && parent(c) == p ==> c == l || c == r);
        if !entry_ranks_above(h[p], h[m]) {
            assert forall|i: int| 0 < i < h@.len() implies !ranks_above(h@[parent(i)], #[trigger] h@[i]) by {
                if parent(i) == p {
                    assert(i == l || i == r);
                }
            }
            break;
        }
        let ghost before = h@;
        proof {
            lemma_swap_keeps(h@, p as int, m as int);
        }
        swap_slots(h, p, m);
        assert forall|i: int| 0 < i < n && parent(i) != m implies !ranks_above(h@[parent(i)], #[trigger] h@[i]) by {
            if i == m {
                assert(parent(i) == p);
            } else if i == p {
                assert(h@[i] == before[m as int]);
            } else if parent(i) == p {
                assert(i == l || i == r);
            }
        }
        p = m;
    }
}

/// Moves the entry at `start` up until no parent ranks above its child.
fn sift_up(h: &mut Vec<(usize, u32)>, start: usize)
    requires
        start < old(h)@.len(),
        forall|i: int|
            0 < i < old(h)@.len() && i != start ==> !ranks_above(
                old(h)@[parent(i)],
                #[trigger] old(h)@[i],
            ),
        start > 0 ==> forall|c: int|
            0 < c < old(h)@.len() && parent(c) == start ==> !ranks_above(
                old(h)@[parent(start as int)],
                #[trigger] old(h)@[c],
            ),
    ensures
        heap_ok(final(h)@),
        final(h)@.len() == old(h)@.len(),
        forall|y: (usize, u32)| final(h)@.contains(y) <==> old(h)@.contains(y),
        distinct_positions(old(h)@) ==> distinct_positions(final(h)@),
{
    let ghost orig = h@;
    let n = h.len();
    let mut p: usize = start;
    while p > 0
        invariant
            h@.len() == n,
            n == orig.len(),
            p < n,
            forall|y: (usize, u32)| h@.contains(y) <==> orig.contains(y),
            distinct_positions(orig) ==> distinct_positions(h@),
            forall|i: int| 0 < i < n && i != p ==> !ranks_above(h@[parent(i)], #[trigger] h@[i]),
            p > 0 ==> forall|c: int|
                0 < c < n && parent(c) == p ==> !ranks_above(h@[parent(p as int)], #[trigger] h@[c]),
        ensures
            heap_ok(h@),
            h@.len() == n,
            forall|y: (usize, u32)| h@.contains(y) <==> orig.contains(y),
            distinct_positions(orig) ==> distinct_positions(h@),
        decreases p,
    {
        let q = (p - 1) / 2;
        assert(q == parent(p as int));
        if !entry_ranks_above(h[q], h[p]) {
            break;
        }
        let ghost before = h@;
        proof {
            lemma_swap_keeps(h@, q as int, p as int);
        }
        swap_slots(h, q, p);
        assert forall|i: int| 0 < i < n && i != q implies !ranks_above(h@[parent(i)], #[trigger] h@[i]) by {
            if i == p {
            } else if parent(i) == q {
                assert(!ranks_above(before[q as int], before[i]));
            }
        }
        assert(q > 0 ==> forall|c: int| 0 < c < n && parent(c) == q ==> !ranks_above(h@[parent(q as int)], #[trigger] h@[c])) by {
            if q > 0 {
                assert forall|c: int| 0 < c < n && parent(c) == q implies !ranks_above(h@[parent(q as int)], #[trigger] h@[c]) by {
                    assert(!ranks_above(before[parent(q as int)], before[q as int]));
                    if c != p {
                        assert(!ranks_above(before[q as int], before[c]));
                    }
                }
            }
        }
        p = q;
    }
}

/// Adds an entry to the heap.
pub fn heap_push(h: &mut Vec<(usize, u32)>, e: (usize, u32))
    requires
        heap_ok(old(h)@),
    ensures
        heap_ok(final(h)@),
        final(h)@.len() == old(h)@.len() + 1,
        forall|y: (usize, u32)| final(h)@.contains(y) <==> (old(h)@.contains(y) || y == e),
        distinct_positions(old(h)@) && (forall|p: int| 0 <= p < old(h)@.len() ==> #[trigger] old(h)@[p].0 != e.0)
            ==> distinct_positions(final(h)@),
{
    let ghost orig = h@;
    let n = h.len();
    h.push(e);
    assert(h@ == orig.push(e));
    assert forall|y: (usize, u32)| h@.contains(y) <==> (orig.contains(y) || y == e) by {
        if orig.contains(y) {
            let p = choose|p: int| 0 <= p < orig.len() && orig[p] == y;
            assert(h@[p] == y);
        }
        if y == e {
            assert(h@[n as int] == y);
        }
        if h@.contains(y) {
            let p = choose|p: int| 0 <= p < h@.len() && h@[p] == y;
            if p < n {
                assert(orig[p] == y);
            }
        }
    }
    // The new last slot has no children.
    assert forall|c: int| 0 < c < h@.len() implies parent(c) != n by {}
    sift_up(h, n);
}

/// Puts `e` in place of the root entry, the one that ranks lowest.
pub fn heap_replace_top(h: &mut Vec<(usize, u32)>, e: (usize, u32))
    requires
        old(h)@.len() > 0,
        heap_ok(old(h)@),
        distinct_positions(old(h)@),
        forall|p: int| 0 <= p < old(h)@.len() ==> #[trigger] old(h)@[p].0 != e.0,
    ensures
        heap_ok(final(h)@),
        distinct_positions(final(h)@),
        final(h)@.len() == old(h)@.len(),
        forall|y: (usize, u32)|
            final(h)@.contains(y) <==> ((old(h)@.contains(y) && y != old(h)@[0]) || y == e),
{
    let ghost orig = h@;
    h.set(0, e);
    let ghost mid = h@;
    assert(mid == orig.update(0, e));
    assert forall|y: (usize, u32)| #[trigger] mid.contains(y) <==> ((orig.contains(y) && y != orig[0]) || y == e) by {
        if orig.contains(y) && y != orig[0] {
            let p = choose|p: int| 0 <= p < orig.len() && orig[p] == y;
            assert(p != 0);
            assert(h@[p] == y);
        }
        if y == e {
            assert(h@[0] == y);
        }
        if h@.contains(y) {
            let p = choose|p: int| 0 <= p < h@.len() && h@[p] == y;
            if p != 0 {
                assert(orig[p] == y);
                assert(orig[p].0 != orig[0].0);
            }
        }
    }
    assert(distinct_positions(h@)) by {
        assert forall|p: int, q: int|
            0 <= p < h@.len() && 0 <= q < h@.len() && p != q implies #[trigger] h@[p].0
            != #[trigger] h@[q].0 by {
            if p != 0 && q != 0 {
                assert(orig[p] == h@[p] && orig[q] == h@[q]);
            }
        }
    }
    sift_down(h);
    assert forall|y: (usize, u32)| h@.contains(y) <==> ((orig.contains(y) && y != orig[0]) || y == e) by {
        assert(h@.contains(y) <==> mid.contains(y));
        assert(mid.contains(y) <==> ((orig.contains(y) && y != orig[0]) || y == e));
    }
}

/// Removes and returns the root entry, which ranks below every entry left.
pub fn heap_pop(h: &mut Vec<(usize, u32)>) -> (x: (usize, u32))
    requires
        old(h)@.len() > 0,
        heap_ok(old(h)@),
        distinct_positions(old(h)@),
    ensures
        x == old(h)@[0],
        heap_ok(final(h)@),
        distinct_positions(final(h)@),
        final(h)@.len() == old(h)@.len() - 1,
        forall|y: (usize, u32)| final(h)@.contains(y) <==> (old(h)@.contains(y) && y != x),
        forall|y: (usize, u32)| final(h)@.contains(y) ==> ranks_above(y, x),
{
    let ghost orig = h@;
    let x = h[0];
    let n = h.len();
    let last = h[n - 1];
    h.set(0, last);
    let _ = h.pop();
    let ghost mid = h@;
    assert(mid == orig.update(0, orig[n - 1]).drop_last());
    assert forall|y: (usize, u32)| mid.contains(y) <==> (orig.contains(y) && y != x) by {
        if orig.contains(y) && y != x {
            let p = choose|p: int| 0 <= p < orig.len() && orig[p] == y;
            assert(p != 0);
            if p == n - 1 {
                assert(mid[0] == y);
            } else {
                assert(mid[p] == y);
            }
        }
        if mid.contains(y) {
            let p = choose|p: int| 0 <= p < mid.len() && mid[p] == y;
            let w = if p == 0 {
                n - 1
            } else {
                p
            };
            assert(orig[w] == y);
            assert(w != 0);
            assert(orig[w].0 != orig[0].0);
        }
    }
    assert(distinct_positions(mid)) by {
        assert forall|p: int, q: int|
            0 <= p < mid.len() && 0 <= q < mid.len() && p != q implies #[trigger] mid[p].0
            != #[trigger] mid[q].0 by {
            let pp = if p == 0 {
                n - 1
            } else {
                p
            };
            let qq = if q == 0 {
                n - 1
            } else {
                q
            };
            assert(mid[p] == orig[pp] && mid[q] == orig[qq]);
        }
    }
    if h.len() > 0 {
        assert forall|i: int| 0 < i < mid.len() && parent(i) != 0 implies !ranks_above(
            mid[parent(i)],
            #[trigger] mid[i],
        ) by {
            assert(mid[i] == orig[i]);
            assert(mid[parent(i)] == orig[parent(i)]);
        }
        sift_down(h);
    }
    assert forall|y: (usize, u32)| h@.contains(y) implies ranks_above(y, x) by {
        let p = choose|p: int| 0 <= p < orig.len() && orig[p] == y;
        lemma_root_lowest(orig, p);
        assert(p != 0);
    }
    x
}

/// Every other entry of a heap with distinct positions ranks above its root.
pub proof fn lemma_root_below_all(h: Seq<(usize, u32)>)
    requires
        h.len() > 0,
        heap_ok(h),
        distinct_positions(h),
    ensures
        forall|y: (usize, u32)| #[trigger] h.contains(y) && y != h[0] ==> ranks_above(y, h[0]),
{
    assert forall|y: (usize, u32)| #[trigger] h.contains(y) && y != h[0] implies ranks_above(y, h[0]) by {
        let p = choose|p: int| 0 <= p < h.len() && h[p] == y;
        lemma_root_lowest(h, p);
        assert(p != 0);
    }
}

} // verus!
