use vstd::prelude::*;

verus! {

/// The number of arcs of the adjacency lists `g`.
pub open spec fn arcs_total(g: Seq<Seq<usize>>) -> int
    decreases g.len(),
{
    if g.len() == 0 {
        0
    } else {
        arcs_total(g.drop_last()) + g.last().len()
    }
}

/// Whether every successor in `g` is a vertex of `g`.
pub open spec fn successors_in_range(g: Seq<Seq<usize>>) -> bool {
    forall|v: int, k: int|
        0 <= v < g.len() && 0 <= k < g[v].len() ==> (#[trigger] g[v][k] as int) < g.len()
}

/// Whether `c` is non-decreasing.
pub open spec fn non_decreasing(c: Seq<usize>) -> bool {
    forall|i: int, j: int| 0 <= i <= j < c.len() ==> #[trigger] c[i] <= #[trigger] c[j]
}

/// Whether `p` is a non-empty walk along the arcs of `g`.
pub open spec fn is_walk(g: Seq<Seq<usize>>, p: Seq<usize>) -> bool {
    &&& p.len() >= 1
    &&& forall|i: int| 0 <= i < p.len() ==> (#[trigger] p[i] as int) < g.len()
    &&& forall|i: int| 0 <= i < p.len() - 1 ==> g[p[i] as int].contains(#[trigger] p[i + 1])
}

/// Whether `w` can be reached from `u` along the arcs of `g` (in zero or
/// more steps).
pub open spec fn reaches(g: Seq<Seq<usize>>, u: usize, w: usize) -> bool {
    exists|p: Seq<usize>| #[trigger] is_walk(g, p) && p[0] == u && p.last() == w
}

/// Whether every vertex can reach its own label.
pub open spec fn labels_reachable(g: Seq<Seq<usize>>, labels: Seq<usize>) -> bool {
    forall|v: int| 0 <= v < labels.len() ==> reaches(g, v as usize, #[trigger] labels[v])
}

/// Every vertex reaches itself.
pub proof fn lemma_reaches_self(g: Seq<Seq<usize>>, u: usize)
    requires
        (u as int) < g.len(),
    ensures
        reaches(g, u, u),
{
    let p = seq![u];
    assert(is_walk(g, p));
}

/// A vertex reaches what its successors reach.
pub proof fn lemma_reaches_step(g: Seq<Seq<usize>>, u: usize, s: usize, w: usize)
    requires
        (u as int) < g.len(),
        g[u as int].contains(s),
        reaches(g, s, w),
    ensures
        reaches(g, u, w),
{
    let p = choose|p: Seq<usize>| #[trigger] is_walk(g, p) && p[0] == s && p.last() == w;
    let q = seq![u] + p;
    assert forall|i: int| 0 <= i < q.len() implies (#[trigger] q[i] as int) < g.len() by {
        if i > 0 {
            assert(q[i] == p[i - 1]);
        }
    }
    assert forall|i: int| 0 <= i < q.len() - 1 implies g[q[i] as int].contains(#[trigger] q[i + 1]) by {
        if i > 0 {
            assert(q[i] == p[i - 1]);
            assert(q[i + 1] == p[i]);
            let k = i - 1;
            assert(g[p[k] as int].contains(p[k + 1]));
        } else {
            assert(q[0] == u);
            assert(q[1] == s);
        }
    }
    assert(q.last() == p.last());
    assert(is_walk(g, q));
}

/// The successor lists as sequences.
pub open spec fn lists_view(adj: Seq<Vec<usize>>) -> Seq<Seq<usize>> {
    adj.map_values(|l: Vec<usize>| l@)
}

/// A directed graph on the vertices `[0, n)`, given by the successor list of
/// each vertex, with the cumulative out-degree of its vertices.
pub struct Graph {
    adj: Vec<Vec<usize>>,
    cumul: Vec<usize>,
}

impl View for Graph {
    type V = Seq<Seq<usize>>;

    closed spec fn view(&self) -> Seq<Seq<usize>> {
        lists_view(self.adj@)
    }
}

impl Graph {
    closed spec fn cumul_view(&self) -> Seq<usize> {
        self.cumul@
    }

    /// The successors are vertices, and the cumulative out-degrees are those
    /// of the successor lists.
    pub closed spec fn wf(&self) -> bool {
        &&& successors_in_range(self@)
        &&& self.cumul@.len() == self@.len() + 1
        &&& forall|v: int| 0 <= v <= self@.len() ==> #[trigger] self.cumul@[v] == arcs_total(self@.take(v))
        &&& non_decreasing(self.cumul@)
    }

    /// In a well-formed graph every successor is a vertex.
    pub proof fn lemma_successors_in_range(&self)
        requires
            self.wf(),
        ensures
            successors_in_range(self@),
    {
    }

    /// The graph with successor lists `adj`, if each successor is a vertex and
    /// the number of arcs fits in a `usize`.
    pub fn new(adj: Vec<Vec<usize>>) -> (r: Option<Graph>)
        ensures
            r.is_some() <==> (successors_in_range(lists_view(adj@))
                && arcs_total(lists_view(adj@)) <= usize::MAX),
            r.is_some() ==> r.unwrap().wf() && r.unwrap()@ == lists_view(adj@),
    {
        let ghost g = lists_view(adj@);
        let n = adj.len();
        let mut cumul: Vec<usize> = Vec::new();
        cumul.push(0);
        let mut v: usize = 0;
        let mut total: usize = 0;
        proof {
            assert(g.take(0) =~= Seq::<Seq<usize>>::empty());
        }
        while v < n
            invariant
                v <= n,
                n == adj@.len(),
                g == lists_view(adj@),
                cumul@.len() == v + 1,
                total == arcs_total(g.take(v as int)),
                forall|u: int| 0 <= u <= v ==> #[trigger] cumul@[u] == arcs_total(g.take(u)),
                non_decreasing(cumul@),
                forall|u: int, k: int|
                    0 <= u < v && 0 <= k < g[u].len() ==> (#[trigger] g[u][k] as int) < n,
            decreases n - v,
        {
            let list = &adj[v];
            let d = list.len();
            let mut k: usize = 0;
            while k < d
                invariant
                    k <= d,
                    d == list@.len(),
                    list@ == g[v as int],
                    v < n,
                    n == adj@.len(),
                    g.len() == n,
                    g == lists_view(adj@),
                    forall|j: int| 0 <= j < k ==> (#[trigger] list@[j] as int) < n,
                decreases d - k,
            {
                if list[k] >= n {
                    proof {
                        assert(g[v as int][k as int] == list@[k as int]);
                        assert((g[v as int][k as int] as int) >= g.len());
                        assert(!successors_in_range(g));
                    }
                    return None;
                }
                k = k + 1;
            }
            proof {
                assert(g.take(v + 1).drop_last() =~= g.take(v as int));
            }
            if total > usize::MAX - d {
                proof {
                    lemma_arcs_total_mono(g, v + 1, n as int);
                    assert(g.take(n as int) =~= g);
                }
                return None;
            }
            let ghost c0 = cumul@;
            total = total + d;
            cumul.push(total);
            proof {
                assert forall|i: int, j: int| 0 <= i <= j < cumul@.len() implies #[trigger] cumul@[i]
                    <= #[trigger] cumul@[j] by {
                    if j == v + 1 && i < j {
                        assert(c0[i] <= c0[v as int]);
                    }
                }
            }
            v = v + 1;
        }
        proof {
            assert(g.take(n as int) =~= g);
        }
        Some(Graph { adj, cumul })
    }

    /// The number of vertices.
    pub fn num_nodes(&self) -> (r: usize)
        ensures
            r == self@.len(),
    {
        self.adj.len()
    }

    /// The number of arcs.
    pub fn num_arcs(&self) -> (r: usize)
        requires
            self.wf(),
        ensures
            r == arcs_total(self@),
    {
        let n = self.adj.len();
        proof {
            assert(self@.take(n as int) =~= self@);
        }
        self.cumul[n]
    }

    /// The out-degree of `v`.
    pub fn outdegree(&self, v: usize) -> (r: usize)
        requires
            (v as int) < self@.len(),
        ensures
            r == self@[v as int].len(),
    {
        self.adj[v].len()
    }

    /// The `k`-th successor of `v`.
    pub fn successor(&self, v: usize, k: usize) -> (r: usize)
        requires
            self.wf(),
            (v as int) < self@.len(),
            (k as int) < self@[v as int].len(),
        ensures
            r == self@[v as int][k as int],
            (r as int) < self@.len(),
    {
        self.adj[v][k]
    }

    /// The number of arcs leaving the vertices before `v`.
    pub fn cumulative(&self, v: usize) -> (r: usize)
        requires
            self.wf(),
            (v as int) <= self@.len(),
        ensures
            r == arcs_total(self@.take(v as int)),
    {
        self.cumul[v]
    }

    /// The first vertex `v` whose cumulative out-degree is at least `x`, or
    /// the number of vertices if there is none.
    pub fn succ(&self, x: usize) -> (r: usize)
        requires
            self.wf(),
        ensures
            r <= self@.len(),
            r < self@.len() ==> arcs_total(self@.take(r as int)) >= x,
            forall|v: int| 0 <= v < r ==> arcs_total(#[trigger] self@.take(v)) < x,
    {
        let n = self.adj.len();
        let mut lo: usize = 0;
        let mut hi: usize = n;
        while lo < hi
            invariant
                self.wf(),
                n == self@.len(),
                lo <= hi <= n,
                hi < n ==> self.cumul@[hi as int] >= x,
                forall|v: int| 0 <= v < lo ==> self.cumul@[v] < x,
            decreases hi - lo,
        {
            let mid = lo + (hi - lo) / 2;
            if self.cumul[mid] < x {
                lo = mid + 1;
            } else {
                hi = mid;
            }
        }
        proof {
            assert forall|v: int| 0 <= v < lo implies arcs_total(#[trigger] self@.take(v)) < x by {
                assert(self.cumul@[v] < x);
            }
        }
        lo
    }
}

pub proof fn lemma_arcs_total_mono(g: Seq<Seq<usize>>, a: int, b: int)
    requires
        0 <= a <= b <= g.len(),
    ensures
        arcs_total(g.take(a)) <= arcs_total(g.take(b)),
    decreases b - a,
{
    if a < b {
        assert(g.take(b).drop_last() =~= g.take(b - 1));
        lemma_arcs_total_mono(g, a, b - 1);
    }
}

/// Reverses every arc of `arcs`.
pub fn transpose_arc_list(arcs: Vec<(usize, usize)>) -> (r: Vec<(usize, usize)>)
    ensures
        r@.len() == arcs@.len(),
        forall|i: int| 0 <= i < arcs@.len() ==> #[trigger] r@[i] == (arcs@[i].1, arcs@[i].0),
{
    let mut r: Vec<(usize, usize)> = Vec::with_capacity(arcs.len());
    let mut i: usize = 0;
    while i < arcs.len()
        invariant
            i <= arcs@.len(),
            r@.len() == i,
            forall|j: int| 0 <= j < i ==> #[trigger] r@[j] == (arcs@[j].1, arcs@[j].0),
        decreases arcs@.len() - i,
    {
        let (a, b) = arcs[i];
        r.push((b, a));
        i = i + 1;
    }
    r
}

} // verus!
