use vstd::prelude::*;

use crate::graph::Graph;

verus! {

/// The number of binary digits of `d`, which is `⌈log₂(1 + d)⌉`.
pub open spec fn bit_len(d: nat) -> nat
    decreases d,
{
    if d == 0 {
        0
    } else {
        1 + bit_len(d / 2)
    }
}

proof fn lemma_bit_len_le(d: nat)
    ensures
        bit_len(d) <= d,
    decreases d,
{
    if d > 0 {
        lemma_bit_len_le(d / 2);
    }
}

/// The distance between two positions.
pub open spec fn gap(a: usize, b: usize) -> nat {
    if a >= b {
        (a - b) as nat
    } else {
        (b - a) as nat
    }
}

/// The cost of the first `k` successors of a vertex at position `x`, whose
/// successors sit at positions `xs`: each successor is compared with the one
/// before it, the first with `x` itself.
pub open spec fn list_cost(x: usize, xs: Seq<usize>, k: int) -> nat
    decreases k,
{
    if k <= 0 {
        0
    } else {
        list_cost(x, xs, k - 1) + bit_len(
            gap(
                xs[k - 1],
                if k == 1 {
                    x
                } else {
                    xs[k - 2]
                },
            ),
        )
    }
}

/// The positions under `perm` of the successors `s`.
pub open spec fn positions(perm: Seq<usize>, s: Seq<usize>) -> Seq<usize> {
    s.map_values(|u: usize| perm[u as int])
}

/// The log-gap cost of the first `v` vertices of `g` renumbered by `perm`.
pub open spec fn graph_cost(g: Seq<Seq<usize>>, perm: Seq<usize>, v: int) -> nat
    decreases v,
{
    if v <= 0 {
        0
    } else {
        graph_cost(g, perm, v - 1) + list_cost(
            perm[v - 1],
            positions(perm, g[v - 1]),
            g[v - 1].len() as int,
        )
    }
}

/// `⌈log₂(1 + d)⌉`, the number of binary digits of `d`.
pub fn gap_bits(d: usize) -> (r: usize)
    ensures
        r == bit_len(d as nat),
{
    let mut y = d;
    let mut b: usize = 0;
    proof {
        lemma_bit_len_le(d as nat);
    }
    while y > 0
        invariant
            b + bit_len(y as nat) == bit_len(d as nat),
            bit_len(d as nat) <= d,
        decreases y,
    {
        y = y / 2;
        b = b + 1;
    }
    b
}

/// The log-gap cost of `g` with its vertices renumbered by `perm`: over each
/// vertex, the sum of `⌈log₂(1 + |p_k − p_{k−1}|)⌉` over the new positions
/// `p_k` of its successors, with `p_0` the new position of the vertex itself.
/// The sum saturates at `usize::MAX`.
pub fn log_gap_cost(g: &Graph, perm: &Vec<usize>) -> (r: usize)
    requires
        g.wf(),
        perm@.len() == g@.len(),
    ensures
        r == if graph_cost(g@, perm@, g@.len() as int) <= usize::MAX {
            graph_cost(g@, perm@, g@.len() as int)
        } else {
            usize::MAX as nat
        },
{
    let n = g.num_nodes();
    let mut cost: usize = 0;
    let mut v: usize = 0;
    while v < n
        invariant
            g.wf(),
            n == g@.len(),
            perm@.len() == n,
            v <= n,
            cost == if graph_cost(g@, perm@, v as int) <= usize::MAX {
                graph_cost(g@, perm@, v as int)
            } else {
                usize::MAX as nat
            },
        decreases n - v,
    {
        let d = g.outdegree(v);
        let ghost xs = positions(perm@, g@[v as int]);
        let ghost base = graph_cost(g@, perm@, v as int);
        let mut prev = perm[v];
        let mut k: usize = 0;
        while k < d
            invariant
                g.wf(),
                n == g@.len(),
                perm@.len() == n,
                v < n,
                d == g@[v as int].len(),
                xs == positions(perm@, g@[v as int]),
                k <= d,
                prev == if k == 0 {
                    perm@[v as int]
                } else {
                    xs[k - 1]
                },
                cost == if base + list_cost(perm@[v as int], xs, k as int) <= usize::MAX {
                    base + list_cost(perm@[v as int], xs, k as int)
                } else {
                    usize::MAX as nat
                },
            decreases d - k,
        {
            let x = perm[g.successor(v, k)];
            let gp = if x >= prev {
                x - prev
            } else {
                prev - x
            };
            cost = cost.saturating_add(gap_bits(gp));
            prev = x;
            k = k + 1;
        }
        v = v + 1;
    }
    cost
}

} // verus!
