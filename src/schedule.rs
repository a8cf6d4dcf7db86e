use vstd::prelude::*;

use crate::graph::{arcs_total, Graph};

verus! {

/// Whether `r` splits `[0, n)` into consecutive non-empty ranges, in order.
pub open spec fn is_partition(r: Seq<(usize, usize)>, n: nat) -> bool {
    &&& (r.len() == 0 <==> n == 0)
    &&& r.len() > 0 ==> r[0].0 == 0 && r.last().1 == n
    &&& forall|i: int| 0 <= i < r.len() ==> (#[trigger] r[i]).0 < r[i].1
    &&& forall|i: int| 0 <= i < r.len() - 1 ==> (#[trigger] r[i]).1 == r[i + 1].0
}

/// Whether range `(s, e)` ends where `ranges` ends a range starting at `s`:
/// at the first vertex whose cumulative out-degree reaches that of `s` plus
/// `granularity` (saturated), or at `s + 1` if that comes first.
pub open spec fn range_end_rule(g: Seq<Seq<usize>>, granularity: usize, s: usize, e: usize) -> bool {
    let target = if arcs_total(g.take(s as int)) + granularity <= usize::MAX {
        arcs_total(g.take(s as int)) + granularity
    } else {
        usize::MAX as int
    };
    &&& e <= g.len()
    &&& (e == s + 1 ==> (e == g.len() || arcs_total(g.take(e as int)) >= target))
    &&& (e == s + 1 || (e > s + 1 && (e < g.len() ==> arcs_total(g.take(e as int)) >= target)
        && forall|v: int| s < v < e ==> arcs_total(#[trigger] g.take(v)) < target))
}

/// Splits the vertices of `g` into consecutive ranges of about `granularity`
/// arcs each: a range that starts at `s` ends at the first vertex whose
/// cumulative out-degree reaches that of `s` plus `granularity` (and holds
/// at least one vertex).
pub fn ranges(g: &Graph, granularity: usize) -> (r: Vec<(usize, usize)>)
    requires
        g.wf(),
    ensures
        is_partition(r@, g@.len()),
        forall|i: int| 0 <= i < r@.len() ==> range_end_rule(g@, granularity, (#[trigger] r@[i]).0, r@[i].1),
{
    let n = g.num_nodes();
    let mut r: Vec<(usize, usize)> = Vec::new();
    let mut start: usize = 0;
    while start < n
        invariant
            g.wf(),
            n == g@.len(),
            start <= n,
            r@.len() == 0 <==> start == 0,
            r@.len() > 0 ==> r@[0].0 == 0 && r@.last().1 == start,
            forall|i: int| 0 <= i < r@.len() ==> (#[trigger] r@[i]).0 < r@[i].1,
            forall|i: int| 0 <= i < r@.len() - 1 ==> (#[trigger] r@[i]).1 == r@[i + 1].0,
            forall|i: int| 0 <= i < r@.len() ==> range_end_rule(g@, granularity, (#[trigger] r@[i]).0, r@[i].1),
        decreases n - start,
    {
        let target = g.cumulative(start).saturating_add(granularity);
        let found = g.succ(target);
        let mut end = found;
        if end <= start {
            end = start + 1;
        }
        proof {
            if end == start + 1 && end < n && found < end {
                crate::graph::lemma_arcs_total_mono(g@, found as int, end as int);
            }
        }
        r.push((start, end));
        start = end;
    }
    r
}

} // verus!
