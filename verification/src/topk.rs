//! Top-k selection: the `k` entries that rank highest, best first.
use crate::error::VecNormError;
use crate::score::{
    is_argmax, lemma_key_increases_on_positive, lemma_key_signs, spec_is_nan, spec_key,
};
use crate::heap::{
    distinct_positions, heap_ok, heap_pop, heap_push, heap_replace_top, entry_ranks_above,
    lemma_root_below_all, ranks_above,
};
use vstd::prelude::*;
use vstd::set_lib::{lemma_int_range, lemma_len_subset, set_int_range};

verus! {

/// The entry of position `i`: the position with its score.
pub open spec fn entry_of(s: Seq<u32>, i: int) -> (usize, u32) {
    (i as usize, s[i])
}

/// `r` is the top-`k` of `s`: `k` entries of `s`, strictly best first
/// (higher score key first, the lower position first among equal keys), and
/// every entry of `s` left out ranks below all of them.
pub open spec fn is_top_k(s: Seq<u32>, k: int, r: Seq<(usize, u32)>) -> bool {
    &&& r.len() == k
    &&& forall|j: int| 0 <= j < k ==> (#[trigger] r[j]).0 < s.len() && r[j].1 == s[r[j].0 as int]
    &&& forall|a: int, b: int| 0 <= a < b < k ==> ranks_above(#[trigger] r[a], #[trigger] r[b])
    &&& forall|i: int, j: int|
        0 <= i < s.len() && 0 <= j < k && !r.contains(entry_of(s, i)) ==> ranks_above(
            #[trigger] r[j],
            #[trigger] entry_of(s, i),
        )
}

/// The top-`k` of one row of scores, for `0 < k <= len`.
pub fn top_k_row(scores: &Vec<u32>, k: usize) -> (res: Vec<(usize, u32)>)
    requires
        0 < k <= scores@.len(),
    ensures
        is_top_k(scores@, k as int, res@),
{
    let ghost s = scores@;
    let n = scores.len();
    let mut h: Vec<(usize, u32)> = Vec::with_capacity(k);
    let mut i: usize = 0;
    while i < n
        invariant
            n == s.len(),
            s == scores@,
            0 < k <= n,
            i <= n,
            h@.len() == (if i < k { i } else { k }),
            heap_ok(h@),
            distinct_positions(h@),
            forall|p: int| 0 <= p < h@.len() ==> (#[trigger] h@[p]).0 < i && h@[p].1 == s[h@[p].0 as int],
            i <= k ==> forall|t: int| 0 <= t < i ==> h@.contains(#[trigger] entry_of(s, t)),
            forall|t: int, y: (usize, u32)|
                0 <= t < i && #[trigger] h@.contains(y) && !h@.contains(#[trigger] entry_of(s, t)) ==> ranks_above(y, entry_of(s, t)),
        decreases n - i,
    {
        let e = (i, scores[i]);
        assert(e == entry_of(s, i as int));
        let ghost before = h@;
        assert forall|p: int| 0 <= p < before.len() implies #[trigger] before[p].0 != e.0 by {}
        assert(!before.contains(e));
        if h.len() < k {
            heap_push(&mut h, e);
            assert forall|t: int| 0 <= t < i + 1 implies h@.contains(#[trigger] entry_of(s, t)) by {
                if t < i {
                    assert(before.contains(entry_of(s, t)));
                }
            }
        } else if entry_ranks_above(e, h[0]) {
            let ghost low = before[0];
            proof {
                lemma_root_below_all(before);
            }
            heap_replace_top(&mut h, e);
            assert forall|t: int, y: (usize, u32)|
                0 <= t < i + 1 && #[trigger] h@.contains(y) && !h@.contains(#[trigger] entry_of(s, t)) implies ranks_above(y, entry_of(s, t)) by {
                if t < i {
                    if before.contains(entry_of(s, t)) {
                        assert(entry_of(s, t) == low);
                        if y != e {
                            assert(before.contains(y));
                        }
                    } else {
                        if y != e {
                            assert(before.contains(y));
                        } else {
                            assert(before.contains(low));
                            assert(ranks_above(low, entry_of(s, t)));
                        }
                    }
                }
            }
            assert forall|p: int| 0 <= p < h@.len() implies (#[trigger] h@[p]).0 < i + 1 && h@[p].1 == s[h@[p].0 as int] by {
                assert(h@.contains(h@[p]));
                if h@[p] != e {
                    assert(before.contains(h@[p]));
                }
            }
        } else {
            proof {
                lemma_root_below_all(before);
            }
            assert forall|t: int, y: (usize, u32)|
                0 <= t < i + 1 && #[trigger] h@.contains(y) && !h@.contains(#[trigger] entry_of(s, t)) implies ranks_above(y, entry_of(s, t)) by {
                if t == i {
                    assert(before.contains(before[0]));
                    assert(ranks_above(before[0], e));
                }
            }
        }
        assert forall|p: int| 0 <= p < h@.len() implies (#[trigger] h@[p]).0 < i + 1 && h@[p].1 == s[h@[p].0 as int] by {
            assert(h@.contains(h@[p]));
            if h@[p] != e {
                let q = choose|q: int| 0 <= q < before.len() && before[q] == h@[p];
                assert(before[q].0 < i);
            }
        }
        i = i + 1;
    }
    // Drain the heap, lowest-ranked first.
    let ghost full = h@;
    let mut low_first: Vec<(usize, u32)> = Vec::new();
    while h.len() > 0
        invariant
            heap_ok(h@),
            distinct_positions(h@),
            h@.len() + low_first@.len() == k,
            forall|y: (usize, u32)| #[trigger] full.contains(y) <==> (h@.contains(y) || low_first@.contains(y)),
            forall|a: int, b: int|
                0 <= a < b < low_first@.len() ==> ranks_above(#[trigger] low_first@[b], #[trigger] low_first@[a]),
            forall|y: (usize, u32), j: int|
                #[trigger] h@.contains(y) && 0 <= j < low_first@.len() ==> ranks_above(y, #[trigger] low_first@[j]),
        decreases h@.len(),
    {
        let ghost hb = h@;
        let ghost lb = low_first@;
        let x = heap_pop(&mut h);
        assert(hb.contains(x)) by {
            assert(hb[0] == x);
        }
        low_first.push(x);
        assert forall|y: (usize, u32)| #[trigger] full.contains(y) <==> (h@.contains(y) || low_first@.contains(y)) by {
            if low_first@.contains(y) {
                let j = choose|j: int| 0 <= j < low_first@.len() && low_first@[j] == y;
                if j < lb.len() {
                    assert(lb[j] == y);
                }
            }
            if lb.contains(y) {
                let j = choose|j: int| 0 <= j < lb.len() && lb[j] == y;
                assert(low_first@[j] == y);
            }
            if y == x {
                assert(low_first@[lb.len() as int] == y);
            }
        }
        assert forall|a: int, b: int|
            0 <= a < b < low_first@.len() implies ranks_above(#[trigger] low_first@[b], #[trigger] low_first@[a]) by {
            if b == lb.len() {
                assert(ranks_above(x, lb[a]));
            } else {
                assert(low_first@[b] == lb[b]);
            }
        }
        assert forall|y: (usize, u32), j: int|
            #[trigger] h@.contains(y) && 0 <= j < low_first@.len() implies ranks_above(y, #[trigger] low_first@[j]) by {
            assert(hb.contains(y));
            if j < lb.len() {
                assert(low_first@[j] == lb[j]);
            }
        }
    }
    // Reverse into best-first order.
    let mut res: Vec<(usize, u32)> = Vec::new();
    let mut j: usize = 0;
    while j < k
        invariant
            low_first@.len() == k,
            j <= k,
            res@.len() == j,
            forall|a: int| 0 <= a < j ==> #[trigger] res@[a] == low_first@[k - 1 - a],
        decreases k - j,
    {
        res.push(low_first[k - 1 - j]);
        j = j + 1;
    }
    let ghost r = res@;
    let ghost lf = low_first@;
    assert forall|y: (usize, u32)| #[trigger] r.contains(y) <==> full.contains(y) by {
        if r.contains(y) {
            let a = choose|a: int| 0 <= a < r.len() && r[a] == y;
            assert(lf[k - 1 - a] == y);
            assert(lf.contains(y));
        }
        if full.contains(y) {
            assert(!h@.contains(y));
            let b = choose|b: int| 0 <= b < lf.len() && lf[b] == y;
            assert(r[k - 1 - b] == y);
        }
    }
    assert forall|jj: int| 0 <= jj < k implies (#[trigger] r[jj]).0 < s.len() && r[jj].1 == s[r[jj].0 as int] by {
        assert(r.contains(r[jj]));
        let p = choose|p: int| 0 <= p < full.len() && full[p] == r[jj];
    }
    assert forall|a: int, b: int| 0 <= a < b < k implies ranks_above(#[trigger] r[a], #[trigger] r[b]) by {
        assert(r[a] == lf[k - 1 - a]);
        assert(r[b] == lf[k - 1 - b]);
    }
    assert forall|t: int, jj: int|
        0 <= t < s.len() && 0 <= jj < k && !r.contains(entry_of(s, t)) implies ranks_above(
            #[trigger] r[jj],
            #[trigger] entry_of(s, t),
        ) by {
        assert(r.contains(r[jj]));
        assert(full.contains(r[jj]));
        assert(!full.contains(entry_of(s, t)));
    }
    res
}

/// Top-k argmax over one row of scores: the `k` best `(position, score)`
/// pairs, best first, ties broken by ascending position. `k = 0` is refused
/// with `KZero`, `k` above the row length with `KTooLarge`.
pub fn top_k_argmax(scores: &Vec<u32>, k: usize) -> (res: Result<Vec<(usize, u32)>, VecNormError>)
    ensures
        k == 0 ==> res == Err::<Vec<(usize, u32)>, VecNormError>(VecNormError::KZero),
        k > 0 && k > scores@.len() ==> res == Err::<Vec<(usize, u32)>, VecNormError>(
            VecNormError::KTooLarge { k: k, len: scores@.len() as usize },
        ),
        0 < k <= scores@.len() ==> (res matches Ok(r) && is_top_k(scores@, k as int, r@)),
{
    if k == 0 {
        return Err(VecNormError::KZero);
    }
    if k > scores.len() {
        return Err(VecNormError::KTooLarge { k, len: scores.len() });
    }
    Ok(top_k_row(scores, k))
}

/// Two top-`k` results of the same row agree on their first `j + 1` entries.
proof fn lemma_top_k_agree_upto(s: Seq<u32>, k: int, r1: Seq<(usize, u32)>, r2: Seq<(usize, u32)>, j: int)
    requires
        is_top_k(s, k, r1),
        is_top_k(s, k, r2),
        0 <= j < k,
    ensures
        forall|q: int| 0 <= q <= j ==> r1[q] == r2[q],
    decreases j,
{
    if j > 0 {
        lemma_top_k_agree_upto(s, k, r1, r2, j - 1);
    }
    let x = r1[j];
    let y = r2[j];
    if x != y {
        assert(y == entry_of(s, y.0 as int));
        assert(x == entry_of(s, x.0 as int));
        // x ranks above y
        if r1.contains(y) {
            let q = choose|q: int| 0 <= q < r1.len() && r1[q] == y;
            if q < j {
                assert(r2[q] == y);
                assert(ranks_above(r2[q], r2[j]));
            } else {
                assert(q != j);
                assert(ranks_above(r1[j], r1[q]));
            }
        } else {
            assert(ranks_above(r1[j], entry_of(s, y.0 as int)));
        }
        assert(ranks_above(x, y));
        // y ranks above x
        if r2.contains(x) {
            let q = choose|q: int| 0 <= q < r2.len() && r2[q] == x;
            if q < j {
                assert(r1[q] == x);
                assert(ranks_above(r1[q], r1[j]));
            } else {
                assert(q != j);
                assert(ranks_above(r2[j], r2[q]));
            }
        } else {
            assert(ranks_above(r2[j], entry_of(s, x.0 as int)));
        }
        assert(ranks_above(y, x));
    }
}

/// The top-`k` of a row is unique: selection is deterministic, so every
/// way of computing it (serially or in parallel) gives the same result.
pub proof fn lemma_top_k_unique(s: Seq<u32>, k: int, r1: Seq<(usize, u32)>, r2: Seq<(usize, u32)>)
    requires
        is_top_k(s, k, r1),
        is_top_k(s, k, r2),
    ensures
        r1 == r2,
{
    if k > 0 {
        lemma_top_k_agree_upto(s, k, r1, r2, k - 1);
    }
    assert(r1 =~= r2);
}

/// The top-`k1` of a row is the first `k1` entries of its top-`k2`, for
/// `k1 <= k2`.
pub proof fn lemma_top_k_prefix(s: Seq<u32>, k1: int, k2: int, r1: Seq<(usize, u32)>, r2: Seq<(usize, u32)>)
    requires
        0 <= k1 <= k2,
        is_top_k(s, k1, r1),
        is_top_k(s, k2, r2),
    ensures
        r1 == r2.subrange(0, k1),
{
    let p = r2.subrange(0, k1);
    assert forall|i: int, j: int|
        0 <= i < s.len() && 0 <= j < k1 && !p.contains(entry_of(s, i)) implies ranks_above(
            #[trigger] p[j],
            #[trigger] entry_of(s, i),
        ) by {
        assert(p[j] == r2[j]);
        if r2.contains(entry_of(s, i)) {
            let q = choose|q: int| 0 <= q < r2.len() && r2[q] == entry_of(s, i);
            if q < k1 {
                assert(p[q] == r2[q]);
            }
            assert(ranks_above(r2[j], r2[q]));
        }
    }
    assert forall|a: int, b: int| 0 <= a < b < k1 implies ranks_above(#[trigger] p[a], #[trigger] p[b]) by {
        assert(p[a] == r2[a] && p[b] == r2[b]);
    }
    assert forall|j: int| 0 <= j < k1 implies (#[trigger] p[j]).0 < s.len() && p[j].1 == s[p[j].0 as int] by {
        assert(p[j] == r2[j]);
    }
    lemma_top_k_unique(s, k1, r1, p);
}

/// On a row without NaN, the single argmax is the first entry of the top-1.
pub proof fn lemma_argmax_is_top_one(s: Seq<u32>, i: int, r: Seq<(usize, u32)>)
    requires
        forall|j: int| 0 <= j < s.len() ==> !spec_is_nan(#[trigger] s[j]),
        is_argmax(s, i),
        is_top_k(s, 1, r),
    ensures
        r[0] == entry_of(s, i),
{
    let x = r[0];
    assert(x == entry_of(s, x.0 as int));
    assert(!spec_is_nan(s[x.0 as int]));
    if !r.contains(entry_of(s, i)) {
        assert(ranks_above(r[0], entry_of(s, i)));
        assert(spec_key(s[x.0 as int]) <= spec_key(s[i]));
        if spec_key(s[x.0 as int]) == spec_key(s[i]) {
            assert((x.0 as int) < i);
            assert(spec_key(s[x.0 as int]) < spec_key(s[i]));
        }
    }
}

/// With `k` equal to the row length, the top-`k` holds every position of the
/// row: it is the whole row sorted best first.
pub proof fn lemma_top_k_full_length(s: Seq<u32>, r: Seq<(usize, u32)>)
    requires
        is_top_k(s, s.len() as int, r),
    ensures
        forall|i: int| 0 <= i < s.len() ==> r.contains(#[trigger] entry_of(s, i)),
{
    let n = s.len() as int;
    let ps = Seq::new(n as nat, |j: int| r[j].0 as int);
    assert forall|a: int, b: int| 0 <= a < ps.len() && 0 <= b < ps.len() && a != b implies ps[a] != ps[b] by {
        if ps[a] == ps[b] {
            assert(r[a] == r[b]);
            if a < b {
                assert(ranks_above(r[a], r[b]));
            } else {
                assert(ranks_above(r[b], r[a]));
            }
        }
    }
    assert(ps.no_duplicates());
    ps.unique_seq_to_set();
    assert forall|i: int| 0 <= i < n implies r.contains(#[trigger] entry_of(s, i)) by {
        if !r.contains(entry_of(s, i)) {
            let range = set_int_range(0, n).remove(i);
            lemma_int_range(0, n);
            assert forall|p: int| ps.to_set().contains(p) implies range.contains(p) by {
                let j = choose|j: int| 0 <= j < ps.len() && ps[j] == p;
                assert(r[j].0 < n);
                if p == i {
                    assert(r[j] == entry_of(s, i));
                }
            }
            lemma_len_subset(ps.to_set(), range);
        }
    }
}

/// A positive score of the row is no larger, as a float, than the first
/// entry of its top-`k`, which is positive too; and a positive score left
/// out of the top-`k` is no larger than any entry kept, which are positive. So a top-`k` never
/// starts with a negative score while a positive one is in the row.
pub proof fn lemma_top_k_holds_largest(s: Seq<u32>, k: int, r: Seq<(usize, u32)>, j: int)
    requires
        is_top_k(s, k, r),
        0 < k,
        0 <= j < s.len(),
        0 < s[j] <= 0x7f80_0000,
    ensures
        0 < r[0].1 <= 0x7f80_0000,
        s[j] <= r[0].1,
        !r.contains(entry_of(s, j)) ==> forall|m: int|
            0 <= m < k ==> 0 < (#[trigger] r[m]).1 <= 0x7f80_0000 && s[j] <= r[m].1,
{
    let e = entry_of(s, j);
    assert(spec_key(r[0].1) >= spec_key(s[j])) by {
        if r.contains(e) {
            let q = choose|q: int| 0 <= q < r.len() && r[q] == e;
            if q > 0 {
                assert(ranks_above(r[0], r[q]));
            }
        } else {
            assert(ranks_above(r[0], e));
        }
    }
    lemma_key_signs(s[j]);
    lemma_key_signs(r[0].1);
    if r[0].1 < s[j] {
        lemma_key_increases_on_positive(r[0].1, s[j]);
    }
    if !r.contains(e) {
        assert forall|m: int| 0 <= m < k implies 0 < (#[trigger] r[m]).1 <= 0x7f80_0000 && s[j] <= r[m].1 by {
            assert(ranks_above(r[m], e));
            lemma_key_signs(r[m].1);
            if r[m].1 < s[j] {
                lemma_key_increases_on_positive(r[m].1, s[j]);
            }
        }
    }
}

/// Decides whether `r` is the top-`k` of `scores`, in time linear in the
/// row length.
pub fn top_k_holds(scores: &Vec<u32>, k: usize, r: &Vec<(usize, u32)>) -> (b: bool)
    requires
        0 < k,
    ensures
        b == is_top_k(scores@, k as int, r@),
{
    let ghost s = scores@;
    let n = scores.len();
    if r.len() != k {
        return false;
    }
    let mut j: usize = 0;
    while j < k
        invariant
            r@.len() == k,
            n == s.len(),
            s == scores@,
            j <= k,
            forall|jj: int| 0 <= jj < j ==> (#[trigger] r@[jj]).0 < n && r@[jj].1 == s[r@[jj].0 as int],
        decreases k - j,
    {
        let e = r[j];
        if e.0 >= n || e.1 != scores[e.0] {
            assert(!((r@[j as int]).0 < s.len() && r@[j as int].1 == s[r@[j as int].0 as int]));
            return false;
        }
        j = j + 1;
    }
    let mut j: usize = 0;
    while j + 1 < k
        invariant
            r@.len() == k,
            j < k,
            forall|a: int, b: int| 0 <= a < b <= j ==> ranks_above(#[trigger] r@[a], #[trigger] r@[b]),
        decreases k - j,
    {
        if !entry_ranks_above(r[j], r[j + 1]) {
            assert(!ranks_above(r@[j as int], r@[j + 1]));
            return false;
        }
        assert forall|a: int, b: int| 0 <= a < b <= j + 1 implies ranks_above(#[trigger] r@[a], #[trigger] r@[b]) by {
            if b == j + 1 && a < j {
                assert(ranks_above(r@[a], r@[j as int]));
            }
        }
        j = j + 1;
    }
    // marks[t]: position t is held by some entry of r.
    let mut marks: Vec<bool> = Vec::new();
    let mut t: usize = 0;
    while t < n
        invariant
            t <= n,
            marks@.len() == t,
            forall|u: int| 0 <= u < t ==> !(#[trigger] marks@[u]),
        decreases n - t,
    {
        marks.push(false);
        t = t + 1;
    }
    let mut j: usize = 0;
    while j < k
        invariant
            r@.len() == k,
            n == s.len(),
            j <= k,
            marks@.len() == n,
            forall|jj: int| 0 <= jj < k ==> (#[trigger] r@[jj]).0 < n && r@[jj].1 == s[r@[jj].0 as int],
            forall|u: int| 0 <= u < n ==> (#[trigger] marks@[u] <==> exists|jj: int| 0 <= jj < j && r@[jj].0 == u),
        decreases k - j,
    {
        let p = r[j].0;
        marks.set(p, true);
        assert forall|u: int| 0 <= u < n implies (#[trigger] marks@[u] <==> exists|jj: int| 0 <= jj < j + 1 && r@[jj].0 == u) by {
            if u == p {
                assert(r@[j as int].0 == u);
            }
        }
        j = j + 1;
    }
    let last = r[k - 1];
    let mut t: usize = 0;
    while t < n
        invariant
            r@.len() == k,
            n == s.len(),
            s == scores@,
            t <= n,
            0 < k,
            marks@.len() == n,
            last == r@[k - 1],
            forall|u: int| 0 <= u < n ==> (#[trigger] marks@[u] <==> exists|jj: int| 0 <= jj < k && r@[jj].0 == u),
            forall|u: int| 0 <= u < t && !marks@[u] ==> ranks_above(last, #[trigger] entry_of(s, u)),
        decreases n - t,
    {
        if !marks[t] && !entry_ranks_above(last, (t, scores[t])) {
            assert(!r@.contains(entry_of(s, t as int))) by {
                if r@.contains(entry_of(s, t as int)) {
                    let q = choose|q: int| 0 <= q < r@.len() && r@[q] == entry_of(s, t as int);
                    assert(r@[q].0 == t);
                }
            }
            assert(!ranks_above(r@[k - 1], entry_of(s, t as int)));
            return false;
        }
        t = t + 1;
    }
    assert forall|u: int, m: int|
        0 <= u < s.len() && 0 <= m < k && !r@.contains(entry_of(s, u)) implies ranks_above(
            #[trigger] r@[m],
            #[trigger] entry_of(s, u),
        ) by {
        if marks@[u] {
            let q = choose|q: int| 0 <= q < k && r@[q].0 == u;
            assert(r@[q] == entry_of(s, u));
            assert(r@.contains(entry_of(s, u)));
        }
        assert(ranks_above(last, entry_of(s, u)));
        if m < k - 1 {
            assert(ranks_above(r@[m], r@[k - 1]));
        }
    }
    true
}

} // verus!
