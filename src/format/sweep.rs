//! Lemmas on the boundary sums that the BSS sweep keeps.
use crate::format::dol::{count_covering, covered, covers, coverage, increasing, Point};
use crate::format::Segment;
use vstd::prelude::*;

verus! {

/// What boundary `p` adds to the coverage of address `x`.
pub open spec fn contribution(p: Point, x: u32) -> int {
    if p.0 <= x {
        p.1 as int
    } else {
        0
    }
}

/// The sum of the changes of coverage at or below address `x`.
pub open spec fn sum_le(s: Seq<Point>, x: u32) -> int
    decreases s.len(),
{
    if s.len() == 0 {
        0
    } else {
        sum_le(s.drop_last(), x) + contribution(s.last(), x)
    }
}

pub proof fn lemma_remove_sum(s: Seq<Point>, i: int, x: u32)
    requires
        0 <= i < s.len(),
    ensures
        sum_le(s.remove(i), x) + contribution(s[i], x) == sum_le(s, x),
    decreases s.len(),
{
    if i == s.len() - 1 {
        assert(s.remove(i) == s.drop_last());
    } else {
        lemma_remove_sum(s.drop_last(), i, x);
        assert(s.remove(i).drop_last() == s.drop_last().remove(i));
        assert(s.remove(i).last() == s.last());
    }
}

pub proof fn lemma_update_sum(s: Seq<Point>, i: int, e: Point, x: u32)
    requires
        0 <= i < s.len(),
    ensures
        sum_le(s.update(i, e), x) == sum_le(s, x) - contribution(s[i], x) + contribution(e, x),
{
    lemma_remove_sum(s, i, x);
    lemma_remove_sum(s.update(i, e), i, x);
    assert(s.update(i, e).remove(i) =~= s.remove(i));
}

pub proof fn lemma_insert_sum(s: Seq<Point>, i: int, e: Point, x: u32)
    requires
        0 <= i <= s.len(),
    ensures
        sum_le(s.insert(i, e), x) == sum_le(s, x) + contribution(e, x),
{
    lemma_remove_sum(s.insert(i, e), i, x);
    assert(s.insert(i, e).remove(i) =~= s);
}

pub proof fn lemma_push_covered(g: Seq<Segment<u32>>, s: Segment<u32>, x: u32)
    ensures
        covered(g.push(s), x) <==> covered(g, x) || covers(s, x),
{
    let h = g.push(s);
    if covered(h, x) {
        let j = choose|j: int| 0 <= j < h.len() && covers(h[j], x);
        if j < g.len() {
            assert(h[j] == g[j]);
        }
    }
    if covered(g, x) {
        let j = choose|j: int| 0 <= j < g.len() && covers(g[j], x);
        assert(h[j] == g[j]);
    }
    if covers(s, x) {
        assert(h[g.len() as int] == s);
    }
}

/// Between the boundaries `k - 1` and `k`, the running sum of the first `k`
/// changes is the sum of all changes at or below the address.
pub proof fn lemma_stretch(pts: Seq<Point>, k: int)
    requires
        increasing(pts),
        1 <= k < pts.len(),
    ensures
        forall|x: u32|
            pts[k - 1].0 <= x < pts[k].0 ==> coverage(pts, k) == #[trigger] sum_le(pts, x),
{
    assert forall|x: u32| pts[k - 1].0 <= x < pts[k].0 implies coverage(pts, k) == #[trigger] sum_le(
        pts,
        x,
    ) by {
        lemma_prefix_head(pts, k, k, x);
        lemma_prefix_tail(pts, k, pts.len() as int, x);
        assert(pts.take(pts.len() as int) == pts);
    }
}

proof fn lemma_prefix_head(pts: Seq<Point>, n: int, k: int, x: u32)
    requires
        increasing(pts),
        0 <= k <= n < pts.len(),
        1 <= n,
        pts[n - 1].0 <= x,
    ensures
        sum_le(pts.take(k), x) == coverage(pts, k),
    decreases k,
{
    if k > 0 {
        lemma_prefix_head(pts, n, k - 1, x);
        assert(pts.take(k).drop_last() == pts.take(k - 1));
        if k - 1 < n - 1 {
            assert(pts[k - 1].0 < pts[n - 1].0);
        }
    }
}

proof fn lemma_prefix_tail(pts: Seq<Point>, n: int, m: int, x: u32)
    requires
        increasing(pts),
        0 <= n <= m <= pts.len(),
        n < pts.len(),
        x < pts[n].0,
    ensures
        sum_le(pts.take(m), x) == sum_le(pts.take(n), x),
    decreases m,
{
    if m > n {
        lemma_prefix_tail(pts, n, m - 1, x);
        assert(pts.take(m).drop_last() == pts.take(m - 1));
        if m - 1 > n {
            assert(pts[n].0 < pts[m - 1].0);
        }
    }
}

pub proof fn lemma_count_positive(segs: Seq<Segment<u32>>, x: u32, m: int, i: int)
    requires
        0 <= i < m <= segs.len(),
        covers(segs[i], x),
    ensures
        count_covering(segs, x, m) > 0,
    decreases m,
{
    lemma_count_nonneg(segs, x, m - 1);
    if i < m - 1 {
        lemma_count_positive(segs, x, m - 1, i);
    }
}

proof fn lemma_count_nonneg(segs: Seq<Segment<u32>>, x: u32, m: int)
    ensures
        count_covering(segs, x, m) >= 0,
    decreases m,
{
    if m > 0 {
        lemma_count_nonneg(segs, x, m - 1);
    }
}

pub proof fn lemma_count_zero(segs: Seq<Segment<u32>>, x: u32, m: int)
    requires
        0 <= m <= segs.len(),
        forall|i: int| 0 <= i < m ==> !covers(segs[i], x),
    ensures
        count_covering(segs, x, m) == 0,
    decreases m,
{
    if m > 0 {
        lemma_count_zero(segs, x, m - 1);
    }
}

} // verus!
