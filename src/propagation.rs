use vstd::prelude::*;

use crate::graph::{arcs_total, lists_view, labels_reachable, lemma_reaches_self, lemma_reaches_step, reaches, Graph};
use crate::label_store::LabelStore;
use crate::combine::{combine, dense, key_lt, labels_in_range, numbered_by_key, refines_both, takes_value};
use crate::gap_cost::{graph_cost, log_gap_cost};
use crate::perm::{identity, invert_in_place, is_perm, lemma_identity_is_perm, lemma_same_multiset_perm, reset_identity};
use crate::preds::{stops, PredParams, StopRule};
use crate::random::{choose_one, seeded_rng, shuffle_range};
use crate::schedule::{is_partition, ranges};
use crate::sorting::sort_by_keys;
use rand::rngs::SmallRng;

verus! {

/// A resolution value `γ = num / den`.
#[derive(Clone, Copy, Debug, PartialEq, Eq, Structural)]
pub struct Gamma {
    pub num: u32,
    pub den: u32,
}

/// The score of a label that `count` successors carry and whose volume reads
/// `volume`, scaled by the denominator of `γ`:
/// `den · ((1 + γ)·count − γ·(volume + 1))`.
pub open spec fn score(gamma: Gamma, count: int, volume: int) -> int {
    (gamma.den + gamma.num) * count - gamma.num * (volume + 1)
}

/// The number of the first `k` successors `succ` whose label is `l`.
pub open spec fn label_count(labels: Seq<usize>, succ: Seq<usize>, k: int, l: usize) -> nat
    decreases k,
{
    if k <= 0 {
        0
    } else {
        label_count(labels, succ, k - 1, l) + (if labels[succ[k - 1] as int] == l {
            1nat
        } else {
            0nat
        })
    }
}

proof fn lemma_label_count_le(labels: Seq<usize>, succ: Seq<usize>, k: int, l: usize)
    ensures
        label_count(labels, succ, k, l) <= if k < 0 {
            0
        } else {
            k
        },
    decreases k,
{
    if k > 0 {
        lemma_label_count_le(labels, succ, k - 1, l);
    }
}

/// A label that some successor carries is carried by a particular one.
proof fn lemma_count_witness(labels: Seq<usize>, succ: Seq<usize>, k: int, l: usize) -> (j: int)
    requires
        label_count(labels, succ, k, l) > 0,
    ensures
        0 <= j < k,
        labels[succ[j] as int] == l,
    decreases k,
{
    if labels[succ[k - 1] as int] == l {
        k - 1
    } else {
        lemma_count_witness(labels, succ, k - 1, l)
    }
}

/// The labels a vertex with label `c` and successors `succ` may take: its
/// own, and those of its successors.
pub open spec fn candidate(labels: Seq<usize>, succ: Seq<usize>, c: usize, l: usize) -> bool {
    l == c || label_count(labels, succ, succ.len() as int, l) > 0
}

/// The score of candidate `l` against the volumes `vols`.
pub open spec fn label_score(
    gamma: Gamma,
    labels: Seq<usize>,
    succ: Seq<usize>,
    vols: Seq<usize>,
    l: usize,
) -> int {
    score(gamma, label_count(labels, succ, succ.len() as int, l) as int, vols[l as int] as int)
}

/// The volumes after one scoring read of each candidate label.
pub open spec fn scored_volumes(
    vols: Seq<usize>,
    labels: Seq<usize>,
    succ: Seq<usize>,
    c: usize,
) -> Seq<usize> {
    Seq::new(
        vols.len(),
        |i: int|
            if candidate(labels, succ, c, i as usize) {
                vols[i].wrapping_sub(1)
            } else {
                vols[i]
            },
    )
}

/// The volumes after moving one vertex from label `c` to label `l`.
pub open spec fn moved_volumes(vols: Seq<usize>, c: usize, l: usize) -> Seq<usize> {
    let w1 = vols.update(c as int, vols[c as int].wrapping_sub(1));
    w1.update(l as int, w1[l as int].wrapping_add(1))
}

/// Whether every entry of `s` is zero.
pub open spec fn all_zero(s: Seq<usize>) -> bool {
    forall|i: int| 0 <= i < s.len() ==> #[trigger] s[i] == 0
}

/// The saturating conversion of a non-negative integer to `usize`.
pub open spec fn clamp(x: int) -> nat {
    if x <= usize::MAX {
        x as nat
    } else {
        usize::MAX as nat
    }
}

/// The range of the scores of labels.
spec fn score_bounded(x: int) -> bool {
    -0x1_0000_0000 * 0x1_0000_0000_0000_0000 <= x <= 0x2_0000_0000 * 0x1_0000_0000_0000_0000
}

/// One re-examination of vertex `node`, with successors `succ`, taking the
/// labels and volumes from `(labels, vols)` to `(labels2, vols2)`: every
/// candidate label has its volume read and lowered once, and the vertex
/// moves to a candidate of highest score (or stays, if its own label is one).
pub open spec fn node_step(
    gamma: Gamma,
    succ: Seq<usize>,
    node: int,
    labels: Seq<usize>,
    vols: Seq<usize>,
    labels2: Seq<usize>,
    vols2: Seq<usize>,
) -> bool {
    let c = labels[node];
    let next = labels2[node];
    let scored = scored_volumes(vols, labels, succ, c);
    &&& candidate(labels, succ, c, next)
    &&& forall|l: usize|
        candidate(labels, succ, c, l) ==> #[trigger] label_score(gamma, labels, succ, vols, l)
            <= label_score(gamma, labels, succ, vols, next)
    &&& labels2 == labels.update(node, next)
    &&& vols2 == if next != c {
        moved_volumes(scored, c, next)
    } else {
        scored
    }
}

fn score_exec(gamma: Gamma, count: usize, volume: usize) -> (r: i128)
    ensures
        r == score(gamma, count as int, volume as int),
        score_bounded(r as int),
{
    let a = gamma.den as i128 + gamma.num as i128;
    let b = gamma.num as i128;
    proof {
        assert(0 <= a * (count as int) <= 0x2_0000_0000 * 0x1_0000_0000_0000_0000) by (nonlinear_arith)
            requires
                0 <= a <= 0x2_0000_0000,
                0 <= count <= 0xffff_ffff_ffff_ffff,
        ;
        assert(0 <= b * (volume as int + 1) <= 0x1_0000_0000 * 0x1_0000_0000_0000_0000) by (nonlinear_arith)
            requires
                0 <= b <= 0x1_0000_0000,
                0 <= volume <= 0xffff_ffff_ffff_ffff,
        ;
    }
    a * (count as i128) - b * (volume as i128 + 1)
}

/// Re-examines vertex `node`, which has successors: counts the labels of its
/// successors, scores each candidate label (reading and lowering its volume),
/// and moves the vertex to one of the best-scoring labels, picked by `rng`.
/// Returns whether the label changed, and the gain in score (saturated).
/// `counts` is scratch space of one zero per vertex, and is left so.
pub fn update_node(
    g: &Graph,
    store: &mut LabelStore,
    node: usize,
    gamma: Gamma,
    counts: &mut Vec<usize>,
    rng: &mut SmallRng,
) -> (r: (bool, usize))
    requires
        g.wf(),
        old(store).wf(),
        old(store).labels_view().len() == g@.len(),
        (node as int) < g@.len(),
        g@[node as int].len() > 0,
        old(counts)@.len() == g@.len(),
        all_zero(old(counts)@),
    ensures
        final(store).wf(),
        final(counts)@.len() == g@.len(),
        all_zero(final(counts)@),
        node_step(
            gamma,
            g@[node as int],
            node as int,
            old(store).labels_view(),
            old(store).volumes_view(),
            final(store).labels_view(),
            final(store).volumes_view(),
        ),
        r.0 == (final(store).labels_view()[node as int] != old(store).labels_view()[node as int]),
        labels_reachable(g@, old(store).labels_view()) ==> labels_reachable(
            g@,
            final(store).labels_view(),
        ),
        r.1 == clamp(
            label_score(
                gamma,
                old(store).labels_view(),
                g@[node as int],
                old(store).volumes_view(),
                final(store).labels_view()[node as int],
            ) - label_score(
                gamma,
                old(store).labels_view(),
                g@[node as int],
                old(store).volumes_view(),
                old(store).labels_view()[node as int],
            ),
        ),
{
    let n = g.num_nodes();
    let ghost labels = store.labels_view();
    let ghost vols = store.volumes_view();
    let ghost succ = g@[node as int];
    let deg = g.outdegree(node);
    let c = store.label(node);
    let mut touched: Vec<usize> = Vec::new();
    let mut k: usize = 0;
    while k < deg
        invariant
            g.wf(),
            n == g@.len(),
            (node as int) < n,
            succ == g@[node as int],
            deg == succ.len(),
            k <= deg,
            store.wf(),
            store.labels_view() == labels,
            store.volumes_view() == vols,
            labels.len() == n,
            counts@.len() == n,
            forall|l: int| 0 <= l < n ==> #[trigger] counts@[l] == label_count(labels, succ, k as int, l as usize),
            touched@.no_duplicates(),
            forall|l: usize| touched@.contains(l) <==> ((l as int) < n && label_count(labels, succ, k as int, l) > 0),
            forall|l: usize| (l as int) >= n ==> label_count(labels, succ, k as int, l) == 0,
        decreases deg - k,
    {
        let s = g.successor(node, k);
        let l = store.label(s);
        proof {
            lemma_label_count_le(labels, succ, k as int, l);
        }
        let ghost t0 = touched@;
        if counts[l] == 0 {
            touched.push(l);
            proof {
                assert(!t0.contains(l));
                assert forall|i: int, j: int| 0 <= i < j < touched@.len() implies touched@[i] != touched@[j] by {
                    if j == t0.len() {
                        assert(t0.contains(t0[i]));
                    }
                }
            }
        }
        let cl = counts[l];
        counts.set(l, cl + 1);
        k = k + 1;
        proof {
            assert(succ[k - 1] == s);
            assert((l as int) < n);
            assert forall|l2: usize| (l2 as int) >= n implies label_count(labels, succ, k as int, l2) == 0 by {
                assert(label_count(labels, succ, k as int, l2) == label_count(labels, succ, k - 1, l2));
            }
            assert forall|l2: usize| touched@.contains(l2) <==> ((l2 as int) < n && label_count(labels, succ, k as int, l2) > 0) by {
                if l2 != l {
                    if touched@.contains(l2) {
                        let j = choose|j: int| 0 <= j < touched@.len() && touched@[j] == l2;
                        assert(j < t0.len());
                        assert(t0.contains(l2));
                    }
                    if t0.contains(l2) {
                        let j = choose|j: int| 0 <= j < t0.len() && t0[j] == l2;
                        assert(touched@[j] == l2);
                    }
                } else {
                    assert(touched@.contains(l)) by {
                        if t0.contains(l) {
                            let j = choose|j: int| 0 <= j < t0.len() && t0[j] == l;
                            assert(touched@[j] == l);
                        } else {
                            assert(touched@[touched@.len() - 1] == l);
                        }
                    }
                }
            }
        }
    }
    let ghost t1 = touched@;
    if counts[c] == 0 {
        touched.push(c);
        proof {
            assert(!t1.contains(c));
            assert forall|i: int, j: int| 0 <= i < j < touched@.len() implies touched@[i] != touched@[j] by {
                if j == t1.len() {
                    assert(t1.contains(t1[i]));
                }
            }
        }
    }
    proof {
        assert forall|l: usize| touched@.contains(l) <==> candidate(labels, succ, c, l) by {
            if touched@.contains(l) && l != c {
                let j = choose|j: int| 0 <= j < touched@.len() && touched@[j] == l;
                assert(j < t1.len());
                assert(t1.contains(l));
            }
            if t1.contains(l) {
                let j = choose|j: int| 0 <= j < t1.len() && t1[j] == l;
                assert(touched@[j] == l);
            }
            if l == c && !t1.contains(c) {
                assert(touched@[touched@.len() - 1] == c);
            }
        }
        assert forall|i: int| 0 <= i < touched@.len() implies (#[trigger] touched@[i] as int) < n by {
            assert(touched@.contains(touched@[i]));
        }
    }
    // Score each candidate label.
    let mut majorities: Vec<usize> = Vec::new();
    let mut max: i128 = 0;
    let mut old_score: i128 = 0;
    let mut t: usize = 0;
    while t < touched.len()
        invariant
            g.wf(),
            n == g@.len(),
            (node as int) < n,
            succ == g@[node as int],
            store.wf(),
            store.labels_view() == labels,
            labels.len() == n,
            vols.len() == n,
            c == labels[node as int],
            counts@.len() == n,
            forall|l: int| 0 <= l < n ==> #[trigger] counts@[l] == label_count(labels, succ, succ.len() as int, l as usize),
            touched@.no_duplicates(),
            forall|l: usize| touched@.contains(l) <==> candidate(labels, succ, c, l),
            forall|i: int| 0 <= i < touched@.len() ==> (#[trigger] touched@[i] as int) < n,
            t <= touched@.len(),
            store.volumes_view() == Seq::new(
                n as nat,
                |i: int|
                    if touched@.take(t as int).contains(i as usize) {
                        vols[i].wrapping_sub(1)
                    } else {
                        vols[i]
                    },
            ),
            t > 0 ==> majorities@.len() > 0,
            score_bounded(max as int),
            score_bounded(old_score as int),
            forall|i: int| 0 <= i < majorities@.len() ==> touched@.contains(#[trigger] majorities@[i])
                && label_score(gamma, labels, succ, vols, majorities@[i]) == max,
            forall|j: int| 0 <= j < t ==> label_score(gamma, labels, succ, vols, #[trigger] touched@[j]) <= max,
            touched@.take(t as int).contains(c) ==> old_score == label_score(gamma, labels, succ, vols, c),
        decreases touched@.len() - t,
    {
        let l = touched[t];
        proof {
            assert(!touched@.take(t as int).contains(l)) by {
                if touched@.take(t as int).contains(l) {
                    let j = choose|j: int| 0 <= j < t && touched@.take(t as int)[j] == l;
                    assert(touched@[j] == touched@[t as int]);
                }
            }
        }
        let ghost before = store.volumes_view();
        let vol = store.volume_fetch_sub(l);
        let val = score_exec(gamma, counts[l], vol);
        if t == 0 || val > max {
            majorities.clear();
            max = val;
            majorities.push(l);
        } else if val == max {
            majorities.push(l);
        }
        if l == c {
            old_score = val;
        }
        proof {
            let tk = touched@.take(t as int);
            assert(touched@.take(t + 1) =~= tk.push(l));
            assert forall|i: usize| #[trigger] touched@.take(t + 1).contains(i) == (tk.contains(i) || i == l) by {
                if tk.contains(i) {
                    let j = choose|j: int| 0 <= j < tk.len() && tk[j] == i;
                    assert(touched@.take(t + 1)[j] == i);
                }
                if i == l {
                    assert(touched@.take(t + 1)[t as int] == i);
                }
                if touched@.take(t + 1).contains(i) && i != l {
                    let tk1 = touched@.take(t + 1);
                    let j = choose|j: int| 0 <= j < tk1.len() && tk1[j] == i;
                    assert(tk[j] == i);
                }
            }
            assert(store.volumes_view() =~= Seq::new(
                n as nat,
                |i: int|
                    if touched@.take(t + 1).contains(i as usize) {
                        vols[i].wrapping_sub(1)
                    } else {
                        vols[i]
                    },
            ));
        }
        t = t + 1;
    }
    proof {
        assert(touched@.take(touched@.len() as int) =~= touched@);
        assert(touched@.contains(c));
        assert(store.volumes_view() =~= scored_volumes(vols, labels, succ, c));
        assert forall|l: usize| candidate(labels, succ, c, l) implies #[trigger] label_score(gamma, labels, succ, vols, l) <= max by {
            assert(touched@.contains(l));
            let j = choose|j: int| 0 <= j < touched@.len() && touched@[j] == l;
        }
    }
    // Clear the scratch counts.
    let mut u: usize = 0;
    while u < touched.len()
        invariant
            n == g@.len(),
            counts@.len() == n,
            u <= touched@.len(),
            forall|i: int| 0 <= i < touched@.len() ==> (#[trigger] touched@[i] as int) < n,
            forall|l: int| 0 <= l < n && #[trigger] counts@[l] != 0 ==> touched@.skip(u as int).contains(l as usize),
        decreases touched@.len() - u,
    {
        let ghost cs = counts@;
        counts.set(touched[u], 0);
        proof {
            assert forall|l: int| 0 <= l < n && #[trigger] counts@[l] != 0 implies touched@.skip(u + 1).contains(l as usize) by {
                assert(cs[l] != 0);
                let j = choose|j: int| 0 <= j < touched@.skip(u as int).len() && touched@.skip(u as int)[j] == l as usize;
                assert(j != 0);
                assert(touched@.skip(u + 1)[j - 1] == l as usize);
            }
        }
        u = u + 1;
    }
    proof {
        assert forall|i: int| 0 <= i < n implies #[trigger] counts@[i] == 0 by {
            if counts@[i] != 0 {
                assert(touched@.skip(touched@.len() as int).len() == 0);
            }
        }
    }
    let next = choose_one(&majorities, rng);
    let changed = next != c;
    let ghost mid = store.volumes_view();
    if changed {
        store.volume_set(node, next);
    }
    proof {
        let j = choose|j: int| 0 <= j < majorities@.len() && majorities@[j] == next;
        assert(label_score(gamma, labels, succ, vols, next) == max);
        assert(store.labels_view()[node as int] == next);
        assert forall|l: usize| candidate(labels, succ, c, l) implies #[trigger] label_score(
            gamma,
            labels,
            succ,
            vols,
            l,
        ) <= label_score(gamma, labels, succ, vols, store.labels_view()[node as int]) by {}
        if !changed {
            assert(store.labels_view() =~= labels.update(node as int, next));
        }
        if labels_reachable(g@, labels) {
            assert forall|v: int| 0 <= v < n implies reaches(g@, v as usize, #[trigger] store.labels_view()[v]) by {
                if v == node && next != c {
                    let j = lemma_count_witness(labels, succ, succ.len() as int, next);
                    let s = succ[j];
                    g.lemma_successors_in_range();
                    assert((s as int) < n);
                    assert(succ.contains(s));
                    assert(reaches(g@, s, labels[s as int]));
                    lemma_reaches_step(g@, node, s, next);
                }
            }
        }
    }
    let d = max - old_score;
    let gain: usize = if d > usize::MAX as i128 {
        usize::MAX
    } else {
        d as usize
    };
    (changed, gain)
}

/// The flags `f` with those of the vertices in `succ` set.
pub open spec fn flag_all(f: Seq<bool>, succ: Seq<usize>) -> Seq<bool> {
    Seq::new(f.len(), |i: int| if succ.contains(i as usize) { true } else { f[i] })
}

/// One position of a pass, on vertex `node`, from the state `a` (labels,
/// volumes, flags) to the state `b`: a vertex whose flag is clear is skipped;
/// otherwise its flag is cleared, and if it has successors it takes a
/// `node_step`, after which, if its label changed, the flags of its
/// successors are set.
pub open spec fn pass_step(
    g: Seq<Seq<usize>>,
    gamma: Gamma,
    node: int,
    a: (Seq<usize>, Seq<usize>, Seq<bool>),
    b: (Seq<usize>, Seq<usize>, Seq<bool>),
) -> bool {
    if !a.2[node] {
        b == a
    } else if g[node].len() == 0 {
        b == (a.0, a.1, a.2.update(node, false))
    } else {
        &&& node_step(gamma, g[node], node, a.0, a.1, b.0, b.1)
        &&& b.2 == if b.0[node] != a.0[node] {
            flag_all(a.2.update(node, false), g[node])
        } else {
            a.2.update(node, false)
        }
    }
}

/// Whether `states` is a trace of a pass over the vertices `order`: state
/// `q + 1` follows state `q` by a `pass_step` on `order[q]`.
pub open spec fn pass_trace(
    g: Seq<Seq<usize>>,
    gamma: Gamma,
    order: Seq<usize>,
    states: Seq<(Seq<usize>, Seq<usize>, Seq<bool>)>,
) -> bool {
    &&& states.len() == order.len() + 1
    &&& forall|q: int|
        0 <= q < order.len() ==> #[trigger] pass_step(g, gamma, order[q] as int, states[q], states[q + 1])
}

/// The number of the first `k` steps of `states` that change a label.
pub open spec fn changes(states: Seq<(Seq<usize>, Seq<usize>, Seq<bool>)>, k: int) -> nat
    decreases k,
{
    if k <= 0 {
        0
    } else {
        changes(states, k - 1) + if states[k].0 != states[k - 1].0 {
            1nat
        } else {
            0nat
        }
    }
}

/// The gain of one position of a pass: the score of the new label less
/// that of the old one (saturated) where the vertex was re-examined, else 0.
pub open spec fn step_gain(
    g: Seq<Seq<usize>>,
    gamma: Gamma,
    node: int,
    a: (Seq<usize>, Seq<usize>, Seq<bool>),
    b: (Seq<usize>, Seq<usize>, Seq<bool>),
) -> nat {
    if a.2[node] && g[node].len() > 0 {
        clamp(
            label_score(gamma, a.0, g[node], a.1, b.0[node]) - label_score(
                gamma,
                a.0,
                g[node],
                a.1,
                a.0[node],
            ),
        )
    } else {
        0
    }
}

/// The saturated sum of the gains of the first `k` steps of `states`.
pub open spec fn trace_gain(
    g: Seq<Seq<usize>>,
    gamma: Gamma,
    order: Seq<usize>,
    states: Seq<(Seq<usize>, Seq<usize>, Seq<bool>)>,
    k: int,
) -> nat
    decreases k,
{
    if k <= 0 {
        0
    } else {
        clamp(
            (trace_gain(g, gamma, order, states, k - 1) + step_gain(
                g,
                gamma,
                order[k - 1] as int,
                states[k - 1],
                states[k],
            )) as int,
        )
    }
}

proof fn lemma_trace_gain_push(
    g: Seq<Seq<usize>>,
    gamma: Gamma,
    order: Seq<usize>,
    states: Seq<(Seq<usize>, Seq<usize>, Seq<bool>)>,
    x: (Seq<usize>, Seq<usize>, Seq<bool>),
    k: int,
)
    requires
        k < states.len(),
    ensures
        trace_gain(g, gamma, order, states.push(x), k) == trace_gain(g, gamma, order, states, k),
    decreases k,
{
    if k > 0 {
        lemma_trace_gain_push(g, gamma, order, states, x, k - 1);
        assert(states.push(x)[k] == states[k]);
        assert(states.push(x)[k - 1] == states[k - 1]);
    }
}

proof fn lemma_changes_push(
    states: Seq<(Seq<usize>, Seq<usize>, Seq<bool>)>,
    x: (Seq<usize>, Seq<usize>, Seq<bool>),
    k: int,
)
    requires
        k < states.len(),
    ensures
        changes(states.push(x), k) == changes(states, k),
    decreases k,
{
    if k > 0 {
        lemma_changes_push(states, x, k - 1);
    }
}

/// One pass over the vertices, in the order `order`, range by range (which
/// visits the positions of `order` in turn): each vertex whose flag in
/// `can_change` is set has it cleared and, if it has successors, is
/// re-examined by `update_node` with a generator seeded from the start of
/// its range; when its label changes, the flags of its successors are set.
/// Returns the number of vertices whose label changed and the sum of the
/// gains (saturated).
pub fn llp_pass(
    g: &Graph,
    store: &mut LabelStore,
    can_change: &mut Vec<bool>,
    order: &Vec<usize>,
    parts: &Vec<(usize, usize)>,
    gamma: Gamma,
    counts: &mut Vec<usize>,
) -> (r: (usize, usize))
    requires
        g.wf(),
        old(store).wf(),
        old(store).labels_view().len() == g@.len(),
        old(can_change)@.len() == g@.len(),
        order@.len() == g@.len(),
        forall|i: int| 0 <= i < order@.len() ==> (#[trigger] order@[i] as int) < g@.len(),
        is_partition(parts@, g@.len()),
        old(counts)@.len() == g@.len(),
        all_zero(old(counts)@),
    ensures
        final(store).wf(),
        final(store).labels_view().len() == g@.len(),
        final(can_change)@.len() == g@.len(),
        final(counts)@.len() == g@.len(),
        all_zero(final(counts)@),
        exists|states: Seq<(Seq<usize>, Seq<usize>, Seq<bool>)>|
            #[trigger] pass_trace(g@, gamma, order@, states) && states[0] == (
                old(store).labels_view(),
                old(store).volumes_view(),
                old(can_change)@,
            ) && states.last() == (
                final(store).labels_view(),
                final(store).volumes_view(),
                final(can_change)@,
            ) && r.0 == changes(states, order@.len() as int) && r.1 == trace_gain(
                g@,
                gamma,
                order@,
                states,
                order@.len() as int,
            ),
        r.0 <= g@.len(),
        r.0 == 0 ==> final(store).labels_view() == old(store).labels_view(),
        (forall|v: int| 0 <= v < g@.len() ==> #[trigger] g@[v].len() == 0) ==> r.0 == 0,
        forall|v: int|
            0 <= v < g@.len() && #[trigger] final(store).labels_view()[v] != old(store).labels_view()[v]
                ==> g@[v].len() > 0,
        labels_reachable(g@, old(store).labels_view()) ==> labels_reachable(
            g@,
            final(store).labels_view(),
        ),
{
    let ghost labels0 = store.labels_view();
    let ghost s0 = (store.labels_view(), store.volumes_view(), can_change@);
    let ghost mut states: Seq<(Seq<usize>, Seq<usize>, Seq<bool>)> = seq![s0];
    let n = g.num_nodes();
    let mut modified: usize = 0;
    let mut gain: usize = 0;
    let mut ri: usize = 0;
    while ri < parts.len()
        invariant
            g.wf(),
            n == g@.len(),
            store.wf(),
            store.labels_view().len() == n,
            can_change@.len() == n,
            order@.len() == n,
            forall|i: int| 0 <= i < order@.len() ==> (#[trigger] order@[i] as int) < n,
            is_partition(parts@, n as nat),
            counts@.len() == n,
            all_zero(counts@),
            ri <= parts@.len(),
            ri < parts@.len() ==> states.len() == parts@[ri as int].0 + 1,
            ri == parts@.len() ==> states.len() == n + 1,
            states[0] == s0,
            states.last() == (store.labels_view(), store.volumes_view(), can_change@),
            forall|q: int|
                0 <= q < states.len() - 1 ==> #[trigger] pass_step(
                    g@,
                    gamma,
                    order@[q] as int,
                    states[q],
                    states[q + 1],
                ),
            modified == changes(states, states.len() - 1),
            gain == trace_gain(g@, gamma, order@, states, states.len() - 1),
            modified <= states.len() - 1,
            modified == 0 ==> store.labels_view() == labels0,
            (forall|v: int| 0 <= v < n ==> #[trigger] g@[v].len() == 0) ==> modified == 0,
            forall|v: int|
                0 <= v < n && #[trigger] store.labels_view()[v] != labels0[v] ==> g@[v].len() > 0,
            labels_reachable(g@, labels0) ==> labels_reachable(g@, store.labels_view()),
        decreases parts@.len() - ri,
    {
        let (start, end) = parts[ri];
        proof {
            if ri + 1 < parts@.len() {
                assert(parts@[ri as int].1 == parts@[ri + 1].0);
            } else {
                assert(parts@.last() == parts@[ri as int]);
            }
            assert(end <= n) by {
                lemma_partition_bound(parts@, n as nat, ri as int);
            }
        }
        #[verifier::truncate]
        let mut rng = seeded_rng(start as u64);
        let mut p = start;
        while p < end
            invariant
                g.wf(),
                n == g@.len(),
                store.wf(),
                store.labels_view().len() == n,
                can_change@.len() == n,
                order@.len() == n,
                forall|i: int| 0 <= i < order@.len() ==> (#[trigger] order@[i] as int) < n,
                counts@.len() == n,
                all_zero(counts@),
                start <= p <= end <= n,
                states.len() == p + 1,
                states[0] == s0,
                states.last() == (store.labels_view(), store.volumes_view(), can_change@),
                forall|q: int|
                    0 <= q < states.len() - 1 ==> #[trigger] pass_step(
                        g@,
                        gamma,
                        order@[q] as int,
                        states[q],
                        states[q + 1],
                    ),
                modified == changes(states, states.len() - 1),
                gain == trace_gain(g@, gamma, order@, states, states.len() - 1),
                modified <= p,
                (forall|v: int| 0 <= v < n ==> #[trigger] g@[v].len() == 0) ==> modified == 0,
                modified == 0 ==> store.labels_view() == labels0,
                forall|v: int|
                    0 <= v < n && #[trigger] store.labels_view()[v] != labels0[v] ==> g@[v].len() > 0,
                labels_reachable(g@, labels0) ==> labels_reachable(g@, store.labels_view()),
            decreases end - p,
        {
            let node = order[p];
            let ghost a = (store.labels_view(), store.volumes_view(), can_change@);
            let ghost gain0 = gain;
            let mut changed_here = false;
            if can_change[node] {
                can_change.set(node, false);
                let ghost f1 = can_change@;
                let deg = g.outdegree(node);
                if deg > 0 {
                    let ghost before = store.labels_view();
                    let (changed, gn) = update_node(g, store, node, gamma, counts, &mut rng);
                    if changed {
                        modified = modified + 1;
                        changed_here = true;
                        let ghost succ = g@[node as int];
                        let mut k: usize = 0;
                        while k < deg
                            invariant
                                g.wf(),
                                n == g@.len(),
                                (node as int) < n,
                                succ == g@[node as int],
                                deg == succ.len(),
                                f1.len() == n,
                                can_change@ == Seq::new(
                                    n as nat,
                                    |i: int| if succ.take(k as int).contains(i as usize) { true } else { f1[i] },
                                ),
                                k <= deg,
                            decreases deg - k,
                        {
                            let ghost c0 = can_change@;
                            let s = g.successor(node, k);
                            can_change.set(s, true);
                            proof {
                                assert(succ.take(k + 1) =~= succ.take(k as int).push(s));
                                assert forall|i: usize| #[trigger] succ.take(k + 1).contains(i) == (succ.take(k as int).contains(i) || i == s) by {
                                    let tk = succ.take(k as int);
                                    let tk1 = succ.take(k + 1);
                                    if tk.contains(i) {
                                        let j = choose|j: int| 0 <= j < tk.len() && tk[j] == i;
                                        assert(tk1[j] == i);
                                    }
                                    if i == s {
                                        assert(tk1[k as int] == i);
                                    }
                                    if tk1.contains(i) && i != s {
                                        let j = choose|j: int| 0 <= j < tk1.len() && tk1[j] == i;
                                        assert(tk[j] == i);
                                    }
                                }
                                assert(can_change@ =~= Seq::new(
                                    n as nat,
                                    |i: int| if succ.take(k + 1).contains(i as usize) { true } else { f1[i] },
                                ));
                            }
                            k = k + 1;
                        }
                        proof {
                            assert(succ.take(deg as int) =~= succ);
                            assert(can_change@ =~= flag_all(f1, succ));
                        }
                    }
                    proof {
                        assert forall|v: int|
                            0 <= v < n && #[trigger] store.labels_view()[v] != labels0[v] implies g@[v].len() > 0 by {
                            if v != node {
                                assert(store.labels_view()[v] == before[v]);
                            }
                        }
                        if !changed {
                            assert(store.labels_view() =~= before);
                        }
                    }
                    gain = gain.saturating_add(gn);
                }
            }
            let ghost b = (store.labels_view(), store.volumes_view(), can_change@);
            proof {
                if a.2[node as int] {
                    assert(can_change@.len() == n);
                    if g@[node as int].len() == 0 {
                        assert(b.2 =~= a.2.update(node as int, false));
                    }
                } else {
                    assert(b.2 =~= a.2);
                }
                assert(pass_step(g@, gamma, node as int, a, b));
                assert(changed_here == (b.0 != a.0)) by {
                    if b.0 != a.0 {
                        assert(a.2[node as int] && g@[node as int].len() > 0);
                    }
                    if changed_here {
                        assert(b.0[node as int] != a.0[node as int]);
                    }
                }
                let old_states = states;
                lemma_changes_push(old_states, b, old_states.len() - 1);
                lemma_trace_gain_push(g@, gamma, order@, old_states, b, old_states.len() - 1);
                assert(gain == clamp((gain0 + step_gain(g@, gamma, node as int, a, b)) as int));
                states = old_states.push(b);
                assert forall|q: int| 0 <= q < states.len() - 1 implies #[trigger] pass_step(
                    g@,
                    gamma,
                    order@[q] as int,
                    states[q],
                    states[q + 1],
                ) by {
                    if q < old_states.len() - 1 {
                        assert(pass_step(g@, gamma, order@[q] as int, old_states[q], old_states[q + 1]));
                    }
                }
            }
            p = p + 1;
        }
        ri = ri + 1;
    }
    proof {
        assert(pass_trace(g@, gamma, order@, states));
    }
    (modified, gain)
}

proof fn lemma_partition_bound(r: Seq<(usize, usize)>, n: nat, j: int)
    requires
        is_partition(r, n),
        0 <= j < r.len(),
    ensures
        r[j].1 <= n,
        r[j].0 < r[j].1,
    decreases r.len() - j,
{
    if j < r.len() - 1 {
        lemma_partition_bound(r, n, j + 1);
    }
}

/// Why `layered_label_propagation` refused to run.
#[derive(Clone, Copy, Debug, PartialEq, Eq, Structural)]
pub enum LlpError {
    /// No γ, no vertex, a chunk size or a γ denominator of zero, or more
    /// vertices than indices with a free top bit.
    InvalidInput,
}

/// Whether the arguments of `layered_label_propagation` are acceptable.
pub open spec fn valid_input(n: nat, gammas: Seq<Gamma>, chunk_size: usize) -> bool {
    &&& gammas.len() > 0
    &&& n > 0
    &&& n <= usize::MAX / 2 + 1
    &&& chunk_size > 0
    &&& forall|i: int| 0 <= i < gammas.len() ==> #[trigger] gammas[i].den > 0
}

/// Fills `order` with the identity and shuffles it in consecutive chunks of
/// `chunk_size` entries, each with a generator seeded from `*seed`, which
/// goes up by one per chunk.
fn shuffle_order(order: &mut Vec<usize>, chunk_size: usize, seed: &mut u64)
    requires
        chunk_size > 0,
    ensures
        final(order)@.len() == old(order)@.len(),
        is_perm(final(order)@),
{
    let n = order.len();
    reset_identity(order);
    let ghost ident = order@;
    proof {
        lemma_identity_is_perm(ident);
    }
    let mut start: usize = 0;
    while start < n
        invariant
            order@.len() == n,
            ident.len() == n,
            is_perm(ident),
            order@.to_multiset() == ident.to_multiset(),
            chunk_size > 0,
        decreases n - start,
    {
        let end = if n - start > chunk_size {
            start + chunk_size
        } else {
            n
        };
        let s = *seed;
        *seed = s.wrapping_add(1);
        let mut rng = seeded_rng(s);
        shuffle_range(order, start, end, &mut rng);
        start = end;
    }
    proof {
        lemma_same_multiset_perm(ident, order@);
    }
}

/// Copies `v`.
fn copy_labels(v: &Vec<usize>) -> (r: Vec<usize>)
    ensures
        r@ == v@,
{
    let mut r: Vec<usize> = Vec::with_capacity(v.len());
    let mut i: usize = 0;
    while i < v.len()
        invariant
            i <= v@.len(),
            r@ == v@.take(i as int),
        decreases v@.len() - i,
    {
        r.push(v[i]);
        i = i + 1;
        proof {
            assert(r@ =~= v@.take(i as int));
        }
    }
    proof {
        assert(v@.take(v@.len() as int) =~= v@);
    }
    r
}

/// Whether `g` has no arcs.
pub open spec fn no_arcs(g: Seq<Seq<usize>>) -> bool {
    forall|v: int| 0 <= v < g.len() ==> #[trigger] g[v].len() == 0
}

/// The state of a run before its first pass: every vertex is its own
/// label, every volume is one, every flag is set.
pub open spec fn initial_state(n: nat) -> (Seq<usize>, Seq<usize>, Seq<bool>) {
    (Seq::new(n, |i: int| i as usize), Seq::new(n, |i: int| 1usize), Seq::new(n, |i: int| true))
}

/// The gain of a pass, given as its visit order and its trace.
pub open spec fn pass_gain(
    g: Seq<Seq<usize>>,
    gamma: Gamma,
    p: (Seq<usize>, Seq<(Seq<usize>, Seq<usize>, Seq<bool>)>),
) -> nat {
    trace_gain(g, gamma, p.0, p.1, p.0.len() as int)
}

/// The number of label changes of a pass.
pub open spec fn pass_changes(p: (Seq<usize>, Seq<(Seq<usize>, Seq<usize>, Seq<bool>)>)) -> nat {
    changes(p.1, p.0.len() as int)
}

/// The objective after the passes `0..=k`: the saturated sum of their gains.
pub open spec fn total_gain(
    g: Seq<Seq<usize>>,
    gamma: Gamma,
    passes: Seq<(Seq<usize>, Seq<(Seq<usize>, Seq<usize>, Seq<bool>)>)>,
    k: int,
) -> nat
    decreases k + 1,
{
    if k < 0 {
        0
    } else {
        clamp((total_gain(g, gamma, passes, k - 1) + pass_gain(g, gamma, passes[k])) as int)
    }
}

/// What the stopping rule sees after pass `k`.
pub open spec fn pass_params(
    g: Seq<Seq<usize>>,
    gamma: Gamma,
    passes: Seq<(Seq<usize>, Seq<(Seq<usize>, Seq<usize>, Seq<bool>)>)>,
    k: int,
) -> PredParams {
    PredParams {
        num_nodes: g.len() as usize,
        num_arcs: arcs_total(g) as usize,
        gain_delta: pass_gain(g, gamma, passes[k]) as usize,
        gain_total: total_gain(g, gamma, passes, k) as usize,
        modified: pass_changes(passes[k]) as usize,
        update: k as usize,
    }
}

/// Whether `labels` is what the label propagation for `gamma` leaves after
/// the passes `passes` (each a visit order and its trace): the first starts
/// from the initial state, each starts where the one before ended, each
/// visits the vertices in an order that is a permutation, every pass but the
/// last changed a label and did not trip `rule`, and the last changed
/// nothing or tripped it.
pub open spec fn propagation_run(
    g: Seq<Seq<usize>>,
    gamma: Gamma,
    rule: StopRule,
    passes: Seq<(Seq<usize>, Seq<(Seq<usize>, Seq<usize>, Seq<bool>)>)>,
    labels: Seq<usize>,
) -> bool {
    let m = passes.len() as int;
    &&& m >= 1
    &&& passes[0].1[0] == initial_state(g.len())
    &&& forall|k: int|
        0 <= k < m ==> is_perm((#[trigger] passes[k]).0) && passes[k].0.len() == g.len() && pass_trace(
            g,
            gamma,
            passes[k].0,
            passes[k].1,
        )
    &&& forall|k: int| 0 <= k < m - 1 ==> (#[trigger] passes[k + 1]).1[0] == passes[k].1.last()
    &&& forall|k: int|
        0 <= k < m - 1 ==> pass_changes(#[trigger] passes[k]) > 0 && !stops(
            rule,
            pass_params(g, gamma, passes, k),
        )
    &&& pass_changes(passes[m - 1]) == 0 || stops(rule, pass_params(g, gamma, passes, m - 1))
    &&& labels == passes[m - 1].1.last().0
}

proof fn lemma_total_gain_push(
    g: Seq<Seq<usize>>,
    gamma: Gamma,
    passes: Seq<(Seq<usize>, Seq<(Seq<usize>, Seq<usize>, Seq<bool>)>)>,
    x: (Seq<usize>, Seq<(Seq<usize>, Seq<usize>, Seq<bool>)>),
    k: int,
)
    requires
        k < passes.len(),
    ensures
        total_gain(g, gamma, passes.push(x), k) == total_gain(g, gamma, passes, k),
    decreases k + 1,
{
    if k >= 0 {
        lemma_total_gain_push(g, gamma, passes, x, k - 1);
        assert(passes.push(x)[k] == passes[k]);
    }
}

/// Runs the label propagation for one γ from the initial labelling, until
/// `rule` stops it or a pass changes nothing. Returns the number of passes.
pub fn propagate(
    g: &Graph,
    store: &mut LabelStore,
    gamma: Gamma,
    chunk_size: usize,
    granularity: usize,
    seed: &mut u64,
    rule: &StopRule,
) -> (passes: usize)
    requires
        g.wf(),
        old(store).wf(),
        old(store).labels_view().len() == g@.len(),
        chunk_size > 0,
    ensures
        final(store).wf(),
        final(store).labels_view().len() == g@.len(),
        1 <= passes,
        rule.max_updates >= 1 ==> passes <= rule.max_updates,
        labels_reachable(g@, final(store).labels_view()),
        no_arcs(g@) ==> passes == 1 && forall|v: int|
            0 <= v < g@.len() ==> #[trigger] final(store).labels_view()[v] == v,
        forall|v: int|
            0 <= v < g@.len() && #[trigger] final(store).labels_view()[v] != v ==> g@[v].len() > 0,
        exists|run: Seq<(Seq<usize>, Seq<(Seq<usize>, Seq<usize>, Seq<bool>)>)>|
            #[trigger] propagation_run(g@, gamma, *rule, run, final(store).labels_view()) && run.len()
                == passes,
{
    let n = g.num_nodes();
    store.init();
    proof {
        assert forall|v: int| 0 <= v < n implies reaches(g@, v as usize, #[trigger] store.labels_view()[v]) by {
            lemma_reaches_self(g@, v as usize);
        }
    }
    let mut can_change: Vec<bool> = Vec::with_capacity(n);
    let mut counts: Vec<usize> = Vec::with_capacity(n);
    let mut v: usize = 0;
    while v < n
        invariant
            v <= n,
            can_change@.len() == v,
            forall|i: int| 0 <= i < v ==> #[trigger] can_change@[i],
            counts@.len() == v,
            all_zero(counts@),
        decreases n - v,
    {
        can_change.push(true);
        counts.push(0);
        v = v + 1;
    }
    let parts = ranges(g, granularity);
    let mut order: Vec<usize> = identity(n);
    let num_arcs = g.num_arcs();
    let mut obj: usize = 0;
    let mut update: usize = 0;
    let ghost mut run: Seq<(Seq<usize>, Seq<(Seq<usize>, Seq<usize>, Seq<bool>)>)> = Seq::empty();
    let ghost mut done_run = run;
    proof {
        assert((store.labels_view(), store.volumes_view(), can_change@) == initial_state(n as nat)) by {
            assert(store.labels_view() =~= initial_state(n as nat).0);
            assert(store.volumes_view() =~= initial_state(n as nat).1);
            assert(can_change@ =~= initial_state(n as nat).2);
        }
    }
    loop
        invariant_except_break
            run.len() == update,
            update == 0 ==> (store.labels_view(), store.volumes_view(), can_change@)
                == initial_state(n as nat),
            update > 0 ==> run[update - 1].1.last() == (
                store.labels_view(),
                store.volumes_view(),
                can_change@,
            ),
            obj == total_gain(g@, gamma, run, update - 1),
        invariant
            g.wf(),
            n == g@.len(),
            store.wf(),
            store.labels_view().len() == n,
            can_change@.len() == n,
            counts@.len() == n,
            all_zero(counts@),
            order@.len() == n,
            is_partition(parts@, n as nat),
            chunk_size > 0,
            update == 0 || update < rule.max_updates,
            forall|v: int| 0 <= v < n && #[trigger] store.labels_view()[v] != v ==> g@[v].len() > 0,
            labels_reachable(g@, store.labels_view()),
            no_arcs(g@) ==> update == 0,
            num_arcs == arcs_total(g@),
            update > 0 ==> run[0].1[0] == initial_state(n as nat),
            forall|k: int|
                0 <= k < update ==> is_perm((#[trigger] run[k]).0) && run[k].0.len() == n && pass_trace(
                    g@,
                    gamma,
                    run[k].0,
                    run[k].1,
                ),
            forall|k: int| 0 <= k < update - 1 ==> (#[trigger] run[k + 1]).1[0] == run[k].1.last(),
            forall|k: int|
                0 <= k < update ==> pass_changes(#[trigger] run[k]) > 0 && !stops(
                    *rule,
                    pass_params(g@, gamma, run, k),
                ),
        ensures
            propagation_run(g@, gamma, *rule, done_run, store.labels_view()),
            done_run.len() == update + 1,
            no_arcs(g@) ==> update == 0,
            forall|v: int| 0 <= v < n && #[trigger] store.labels_view()[v] != v ==> g@[v].len() > 0,
            labels_reachable(g@, store.labels_view()),
            store.wf(),
            store.labels_view().len() == n,
            update == 0 || update < rule.max_updates,
        decreases rule.max_updates - update,
    {
        let ghost before = (store.labels_view(), store.volumes_view(), can_change@);
        shuffle_order(&mut order, chunk_size, seed);
        let (modified, delta) = llp_pass(g, store, &mut can_change, &order, &parts, gamma, &mut counts);
        let ghost tr = choose|states: Seq<(Seq<usize>, Seq<usize>, Seq<bool>)>|
            #[trigger] pass_trace(g@, gamma, order@, states) && states[0] == before && states.last() == (
                store.labels_view(),
                store.volumes_view(),
                can_change@,
            ) && modified == changes(states, order@.len() as int) && delta == trace_gain(
                g@,
                gamma,
                order@,
                states,
                order@.len() as int,
            );
        let ghost old_run = run;
        proof {
            run = old_run.push((order@, tr));
            lemma_total_gain_push(g@, gamma, old_run, (order@, tr), update - 1);
            assert(run[update as int] == (order@, tr));
            assert forall|k: int| 0 <= k < update implies #[trigger] pass_params(g@, gamma, run, k)
                == pass_params(g@, gamma, old_run, k) by {
                assert(run[k] == old_run[k]);
                lemma_total_gain_push(g@, gamma, old_run, (order@, tr), k);
            }
            assert forall|k: int| 0 <= k <= update implies is_perm((#[trigger] run[k]).0) && run[k].0.len() == n && pass_trace(
                g@,
                gamma,
                run[k].0,
                run[k].1,
            ) by {
                if k < update {
                    assert(run[k] == old_run[k]);
                }
            }
            assert forall|k: int| 0 <= k < update implies (#[trigger] run[k + 1]).1[0] == run[k].1.last() by {
                assert(run[k] == old_run[k]);
                if k + 1 < update {
                    assert(run[k + 1] == old_run[k + 1]);
                }
            }
            assert forall|k: int| 0 <= k < update implies pass_changes(#[trigger] run[k]) > 0 && !stops(
                *rule,
                pass_params(g@, gamma, run, k),
            ) by {
                assert(run[k] == old_run[k]);
            }
        }
        obj = obj.saturating_add(delta);
        let params = PredParams {
            num_nodes: n,
            num_arcs,
            gain_delta: delta,
            gain_total: obj,
            modified,
            update,
        };
        proof {
            assert(params == pass_params(g@, gamma, run, update as int));
        }
        if rule.eval(&params) || modified == 0 {
            proof {
                done_run = run;
                assert(propagation_run(g@, gamma, *rule, done_run, store.labels_view()));
            }
            break;
        }
        update = update + 1;
    }
    update + 1
}

/// Whether `q` numbers the vertices in the order of their labels, ties
/// broken by index: `q[v]` is the position of vertex `v` in that order.
pub open spec fn orders_by_label(q: Seq<usize>, labels: Seq<usize>) -> bool {
    &&& is_perm(q)
    &&& q.len() == labels.len()
    &&& forall|u: int, v: int|
        0 <= u < q.len() && 0 <= v < q.len() && (labels[u] < labels[v] || (labels[u] == labels[v]
            && u < v)) ==> #[trigger] q[u] < #[trigger] q[v]
}

/// Whether `c` is the log-gap cost (saturated) of `g` numbered in the order
/// of the labels `labels`.
pub open spec fn is_labelling_cost(g: Seq<Seq<usize>>, labels: Seq<usize>, c: usize) -> bool {
    exists|q: Seq<usize>|
        orders_by_label(q, labels) && c == clamp(#[trigger] graph_cost(g, q, g.len() as int) as int)
}

/// The log-gap cost of `g` with its vertices numbered in the order of
/// `labels`, ties broken by index.
pub fn labelling_cost(g: &Graph, labels: &Vec<usize>) -> (r: usize)
    requires
        g.wf(),
        labels@.len() == g@.len(),
        g@.len() <= usize::MAX / 2 + 1,
    ensures
        is_labelling_cost(g@, labels@, r),
{
    let n = g.num_nodes();
    let mut keys: Vec<(usize, usize, usize)> = Vec::with_capacity(n);
    let mut v: usize = 0;
    while v < n
        invariant
            v <= n,
            n == labels@.len(),
            keys@.len() == v,
            forall|u: int| 0 <= u < v ==> #[trigger] keys@[u] == (labels@[u], u as usize, 0usize),
        decreases n - v,
    {
        keys.push((labels[v], v, 0));
        v = v + 1;
    }
    let mut perm = identity(n);
    let ghost ident = perm@;
    proof {
        lemma_identity_is_perm(ident);
    }
    sort_by_keys(&mut perm, &keys);
    let ghost sorted = perm@;
    proof {
        lemma_same_multiset_perm(ident, perm@);
    }
    invert_in_place(&mut perm);
    proof {
        let q = perm@;
        assert forall|u: int, v: int|
            0 <= u < q.len() && 0 <= v < q.len() && (labels@[u] < labels@[v] || (labels@[u]
                == labels@[v] && u < v)) implies #[trigger] q[u] < #[trigger] q[v] by {
            crate::perm::lemma_injective_onto(sorted, u);
            crate::perm::lemma_injective_onto(sorted, v);
            let i = choose|i: int| 0 <= i < n && sorted[i] == u;
            let j = choose|j: int| 0 <= j < n && sorted[j] == v;
            assert(q[sorted[i] as int] == i);
            assert(q[sorted[j] as int] == j);
            if j <= i {
                if j < i {
                    assert(crate::combine::key_le(keys@[sorted[j] as int], keys@[sorted[i] as int]));
                }
            }
        }
    }
    log_gap_cost(g, &perm)
}

/// The labelling of each γ, in order, with the log-gap cost of each.
pub fn gamma_labellings(
    g: &Graph,
    gammas: &Vec<Gamma>,
    chunk_size: usize,
    granularity: Option<usize>,
    seed: u64,
    rule: &StopRule,
) -> (r: Result<(Vec<Vec<usize>>, Vec<usize>), LlpError>)
    requires
        g.wf(),
    ensures
        r.is_err() <==> !valid_input(g@.len(), gammas@, chunk_size),
        r.is_ok() ==> ({
            let (saved, costs) = r.unwrap();
            &&& saved@.len() == gammas@.len()
            &&& costs@.len() == gammas@.len()
            &&& forall|j: int|
                0 <= j < saved@.len() ==> (#[trigger] saved@[j])@.len() == g@.len()
                    && labels_in_range(saved@[j]@) && is_labelling_cost(g@, saved@[j]@, costs@[j])
                    && labels_reachable(g@, saved@[j]@) && (no_arcs(g@) ==> forall|v: int|
                    0 <= v < g@.len() ==> #[trigger] saved@[j]@[v] == v) && gamma_outcome(
                    g@,
                    gammas@[j],
                    *rule,
                    saved@[j]@,
                )
        }),
{
    let n = g.num_nodes();
    if gammas.len() == 0 || n == 0 || n > usize::MAX / 2 + 1 || chunk_size == 0 {
        return Err(LlpError::InvalidInput);
    }
    let mut i: usize = 0;
    while i < gammas.len()
        invariant
            i <= gammas@.len(),
            forall|j: int| 0 <= j < i ==> #[trigger] gammas@[j].den > 0,
        decreases gammas@.len() - i,
    {
        if gammas[i].den == 0 {
            return Err(LlpError::InvalidInput);
        }
        i = i + 1;
    }
    let granularity = match granularity {
        Some(x) => x,
        None => {
            let a = g.num_arcs() / 512;
            if a > 1024 {
                a
            } else {
                1024
            }
        },
    };
    let mut seed = seed;
    let mut store = LabelStore::new(n);
    let mut costs: Vec<usize> = Vec::new();
    let mut saved: Vec<Vec<usize>> = Vec::new();
    let mut gi: usize = 0;
    while gi < gammas.len()
        invariant
            g.wf(),
            n == g@.len(),
            0 < n <= usize::MAX / 2 + 1,
            chunk_size > 0,
            gi <= gammas@.len(),
            store.wf(),
            store.labels_view().len() == n,
            costs@.len() == gi,
            saved@.len() == gi,
            forall|j: int|
                0 <= j < gi ==> (#[trigger] saved@[j])@.len() == n && labels_in_range(saved@[j]@)
                    && is_labelling_cost(g@, saved@[j]@, costs@[j]) && labels_reachable(g@, saved@[j]@)
                    && (no_arcs(g@) ==> forall|v: int| 0 <= v < n ==> #[trigger] saved@[j]@[v] == v)
                    && gamma_outcome(g@, gammas@[j], *rule, saved@[j]@),
        decreases gammas@.len() - gi,
    {
        propagate(g, &mut store, gammas[gi], chunk_size, granularity, &mut seed, rule);
        let labels = copy_labels(store.labels());
        let cost = labelling_cost(g, &labels);
        proof {
            assert(labels_in_range(labels@));
        }
        costs.push(cost);
        saved.push(labels);
        gi = gi + 1;
    }
    Ok((saved, costs))
}

/// Whether `labels` can come out of the label propagation for `gamma` under
/// `rule` on `g`.
pub open spec fn gamma_outcome(g: Seq<Seq<usize>>, gamma: Gamma, rule: StopRule, labels: Seq<usize>) -> bool {
    exists|run: Seq<(Seq<usize>, Seq<(Seq<usize>, Seq<usize>, Seq<bool>)>)>|
        #[trigger] propagation_run(g, gamma, rule, run, labels)
}

/// Whether `out` is what `combine` makes of `result` and `labels`.
pub open spec fn combine_result(out: Seq<usize>, result: Seq<usize>, labels: Seq<usize>) -> bool {
    &&& out.len() == result.len()
    &&& exists|k: nat| #[trigger] dense(out, k)
    &&& refines_both(out, result, labels)
    &&& numbered_by_key(out, result, labels)
}

/// Whether `by` lists the indices of `costs` by decreasing cost, ties by
/// increasing index.
pub open spec fn cost_order(by: Seq<usize>, costs: Seq<usize>) -> bool {
    &&& is_perm(by)
    &&& by.len() == costs.len()
    &&& forall|i: int, j: int|
        0 <= i < j < by.len() ==> costs[#[trigger] by[i] as int] > costs[#[trigger] by[j] as int] || (
        costs[by[i] as int] == costs[by[j] as int] && by[i] < by[j])
}

/// Whether `steps` are the labellings that `combine_labellings` goes
/// through: from the best labelling (the last in `by`), `combine` with each
/// labelling in the order `by`, each time followed by `combine` with the best.
pub open spec fn combine_fold(saved: Seq<Seq<usize>>, by: Seq<usize>, steps: Seq<Seq<usize>>) -> bool {
    let m = by.len() as int;
    let best = by[m - 1] as int;
    &&& m >= 1
    &&& steps.len() == 2 * m + 1
    &&& steps[0] == saved[best]
    &&& forall|i: int| 0 <= i < m ==> #[trigger] fold_step(saved, by, steps, i)
}

/// Step `i` of `combine_fold`.
pub open spec fn fold_step(saved: Seq<Seq<usize>>, by: Seq<usize>, steps: Seq<Seq<usize>>, i: int) -> bool {
    &&& combine_result(steps[2 * i + 1], steps[2 * i], saved[by[i] as int])
    &&& combine_result(steps[2 * i + 2], steps[2 * i + 1], saved[by[by.len() - 1] as int])
}

/// Whether `r` is what `combine_labellings` makes of `saved` and `costs`.
pub open spec fn combined_from(saved: Seq<Seq<usize>>, costs: Seq<usize>, r: Seq<usize>) -> bool {
    exists|by: Seq<usize>, steps: Seq<Seq<usize>>|
        #[trigger] cost_order(by, costs) && #[trigger] combine_fold(saved, by, steps) && r == steps.last()
}

/// Whether every labelling of `saved` gives `u` and `v` one label.
pub open spec fn agree_all(saved: Seq<Vec<usize>>, u: int, v: int) -> bool {
    forall|j: int| 0 <= j < saved.len() ==> #[trigger] saved[j]@[u] == saved[j]@[v]
}

/// Whether the labellings `saved[by[i]]` for `i < step`, and `saved[best]`,
/// all give `u` and `v` one label.
spec fn agree_upto(saved: Seq<Vec<usize>>, by: Seq<usize>, step: int, best: int, u: int, v: int) -> bool {
    &&& saved[best]@[u] == saved[best]@[v]
    &&& forall|i: int| 0 <= i < step ==> #[trigger] saved[by[i] as int]@[u] == saved[by[i] as int]@[v]
}

/// A dense labelling that grows strictly with the vertex is the identity.
proof fn lemma_increasing_dense_identity(r: Seq<usize>, k: nat, i: int)
    requires
        dense(r, k),
        forall|u: int, v: int| 0 <= u < v < r.len() ==> #[trigger] r[u] < #[trigger] r[v],
        0 <= i < r.len(),
    ensures
        r[i] == i,
    decreases i,
{
    if i > 0 {
        lemma_increasing_dense_identity(r, k, i - 1);
        assert(r[i - 1] < r[i]);
    }
    if r[i] > i {
        assert(takes_value(r, i));
        let v = choose|v: int| 0 <= v < r.len() && r[v] == i;
        if v < i {
            lemma_increasing_dense_identity(r, k, v);
        } else if v > i {
            assert(r[i] < r[v]);
        }
    }
}

/// Combines the labellings `saved` of the γ, whose log-gap costs are `costs`:
/// from the worst γ to the best (ties in the order given), `combine` with
/// each, then again with the best. The result is numbered densely from zero
/// and puts two vertices in one class only if every labelling does.
pub fn combine_labellings(saved: &Vec<Vec<usize>>, costs: &Vec<usize>) -> (r: Vec<usize>)
    requires
        saved@.len() > 0,
        costs@.len() == saved@.len(),
        saved@[0]@.len() > 0,
        forall|j: int|
            0 <= j < saved@.len() ==> (#[trigger] saved@[j])@.len() == saved@[0]@.len()
                && labels_in_range(saved@[j]@),
    ensures
        r@.len() == saved@[0]@.len(),
        exists|k: nat| #[trigger] dense(r@, k),
        forall|u: int, v: int|
            0 <= u < r@.len() && 0 <= v < r@.len() ==> (#[trigger] r@[u] == #[trigger] r@[v]
                <==> agree_all(saved@, u, v)),
        (forall|j: int, v: int|
            0 <= j < saved@.len() && 0 <= v < saved@[0]@.len() ==> #[trigger] saved@[j]@[v] == v)
            ==> forall|v: int| 0 <= v < r@.len() ==> #[trigger] r@[v] == v,
        combined_from(lists_view(saved@), costs@, r@),
{
    let n = saved[0].len();
    let m = saved.len();
    let mut keys: Vec<(usize, usize, usize)> = Vec::with_capacity(m);
    let mut j: usize = 0;
    while j < m
        invariant
            j <= m,
            m == costs@.len(),
            keys@.len() == j,
            forall|i: int| 0 <= i < j ==> #[trigger] keys@[i] == ((usize::MAX - costs@[i]) as usize, i as usize, 0usize),
        decreases m - j,
    {
        keys.push((usize::MAX - costs[j], j, 0));
        j = j + 1;
    }
    let mut by_cost = identity(m);
    let ghost ident_m = by_cost@;
    proof {
        lemma_identity_is_perm(ident_m);
    }
    sort_by_keys(&mut by_cost, &keys);
    proof {
        lemma_same_multiset_perm(ident_m, by_cost@);
        assert forall|i: int, j: int| 0 <= i < j < m implies costs@[#[trigger] by_cost@[i] as int]
            > costs@[#[trigger] by_cost@[j] as int] || (costs@[by_cost@[i] as int] == costs@[by_cost@[j] as int]
            && by_cost@[i] < by_cost@[j]) by {
            assert(crate::combine::key_le(keys@[by_cost@[i] as int], keys@[by_cost@[j] as int]));
            assert(by_cost@[i] != by_cost@[j]);
            assert(keys@[by_cost@[i] as int] == ((usize::MAX - costs@[by_cost@[i] as int]) as usize, by_cost@[i], 0usize));
            assert(keys@[by_cost@[j] as int] == ((usize::MAX - costs@[by_cost@[j] as int]) as usize, by_cost@[j], 0usize));
        }
        assert(cost_order(by_cost@, costs@));
    }
    let best = by_cost[m - 1];
    let ghost sv = lists_view(saved@);
    let mut result = copy_labels(&saved[best]);
    let ghost mut steps: Seq<Seq<usize>> = seq![result@];
    let mut temp = identity(n);
    let mut k: usize = 0;
    let mut step: usize = 0;
    while step < m
        invariant
            n == saved@[0]@.len(),
            0 < n,
            m == saved@.len(),
            0 < m,
            step <= m,
            is_perm(by_cost@),
            by_cost@.len() == m,
            (best as int) < m,
            forall|j: int|
                0 <= j < m ==> (#[trigger] saved@[j])@.len() == n && labels_in_range(saved@[j]@),
            result@.len() == n,
            temp@.len() == n,
            step > 0 ==> dense(result@, k as nat),
            forall|u: int, v: int|
                0 <= u < n && 0 <= v < n ==> (#[trigger] result@[u] == #[trigger] result@[v]
                    <==> agree_upto(saved@, by_cost@, step as int, best as int, u, v)),
            (forall|j: int, v: int| 0 <= j < m && 0 <= v < n ==> #[trigger] saved@[j]@[v] == v)
                ==> forall|v: int| 0 <= v < n ==> #[trigger] result@[v] == v,
            best == by_cost@[m - 1],
            sv == lists_view(saved@),
            steps.len() == 2 * step + 1,
            steps[0] == sv[best as int],
            steps.last() == result@,
            forall|i: int| 0 <= i < step ==> #[trigger] fold_step(sv, by_cost@, steps, i),
        decreases m - step,
    {
        let gj = by_cost[step];
        let ghost r0 = result@;
        let k1 = combine(&mut result, &saved[gj], &mut temp);
        let ghost r1 = result@;
        k = combine(&mut result, &saved[best], &mut temp);
        proof {
            let old_steps = steps;
            assert(dense(r1, k1 as nat));
            assert(dense(result@, k as nat));
            assert(combine_result(r1, r0, sv[gj as int]));
            assert(combine_result(result@, r1, sv[best as int]));
            steps = old_steps.push(r1).push(result@);
            assert forall|i: int| 0 <= i < step + 1 implies #[trigger] fold_step(sv, by_cost@, steps, i) by {
                if i < step {
                    assert(fold_step(sv, by_cost@, old_steps, i));
                    assert(old_steps[2 * i] == steps[2 * i]);
                    assert(old_steps[2 * i + 1] == steps[2 * i + 1]);
                    assert(old_steps[2 * i + 2] == steps[2 * i + 2]);
                }
            }
            assert forall|u: int, v: int|
                0 <= u < n && 0 <= v < n implies (#[trigger] result@[u] == #[trigger] result@[v]
                    <==> agree_upto(saved@, by_cost@, step + 1, best as int, u, v)) by {
                assert((result@[u] == result@[v]) == (r1[u] == r1[v] && saved@[best as int]@[u] == saved@[best as int]@[v]));
                assert((r1[u] == r1[v]) == (r0[u] == r0[v] && saved@[gj as int]@[u] == saved@[gj as int]@[v]));
                assert((r0[u] == r0[v]) == agree_upto(saved@, by_cost@, step as int, best as int, u, v));
                if agree_upto(saved@, by_cost@, step as int, best as int, u, v) && saved@[gj as int]@[u] == saved@[gj as int]@[v] {
                    assert forall|i: int| 0 <= i < step + 1 implies #[trigger] saved@[by_cost@[i] as int]@[u] == saved@[by_cost@[i] as int]@[v] by {}
                }
            }
            if forall|j: int, v: int| 0 <= j < m && 0 <= v < n ==> #[trigger] saved@[j]@[v] == v {
                assert forall|u: int, v: int| 0 <= u < v < n implies #[trigger] r1[u] < #[trigger] r1[v] by {
                    assert(r0[u] == u && r0[v] == v);
                    assert(saved@[gj as int]@[u] == u && saved@[gj as int]@[v] == v);
                    assert(key_lt(
                        crate::combine::combine_key(r0, saved@[gj as int]@, u),
                        crate::combine::combine_key(r0, saved@[gj as int]@, v),
                    ));
                }
                assert forall|v: int| 0 <= v < n implies #[trigger] r1[v] == v by {
                    lemma_increasing_dense_identity(r1, k1 as nat, v);
                }
                assert forall|u: int, v: int| 0 <= u < v < n implies #[trigger] result@[u] < #[trigger] result@[v] by {
                    assert(saved@[best as int]@[u] == u && saved@[best as int]@[v] == v);
                    assert(key_lt(
                        crate::combine::combine_key(r1, saved@[best as int]@, u),
                        crate::combine::combine_key(r1, saved@[best as int]@, v),
                    ));
                }
                assert forall|v: int| 0 <= v < n implies #[trigger] result@[v] == v by {
                    lemma_increasing_dense_identity(result@, k as nat, v);
                }
            }
        }
        step = step + 1;
    }
    proof {
        assert forall|u: int, v: int|
            0 <= u < n && 0 <= v < n implies (#[trigger] result@[u] == #[trigger] result@[v]
                <==> agree_all(saved@, u, v)) by {
            if result@[u] == result@[v] {
                assert forall|j: int| 0 <= j < m implies #[trigger] saved@[j]@[u] == saved@[j]@[v] by {
                    crate::perm::lemma_injective_onto(by_cost@, j);
                    let i = choose|i: int| 0 <= i < m && by_cost@[i] == j;
                    assert(saved@[by_cost@[i] as int]@[u] == saved@[by_cost@[i] as int]@[v]);
                }
            }
            if agree_all(saved@, u, v) {
                assert(saved@[best as int]@[u] == saved@[best as int]@[v]);
                assert forall|i: int| 0 <= i < m implies #[trigger] saved@[by_cost@[i] as int]@[u] == saved@[by_cost@[i] as int]@[v] by {
                    assert(saved@[by_cost@[i] as int]@[u] == saved@[by_cost@[i] as int]@[v]);
                }
                assert(agree_upto(saved@, by_cost@, m as int, best as int, u, v));
            }
        }
        assert(dense(result@, k as nat));
        assert(step == m);
        assert(steps.len() == 2 * m + 1);
        assert(steps[0] == sv[by_cost@[m - 1] as int]);
        assert(combine_fold(sv, by_cost@, steps));
        assert(cost_order(by_cost@, costs@));
    }
    result
}

/// Whether `r` is the labelling that `layered_label_propagation` builds on
/// `g` from the labellings `saved` of the γ of `gammas`, whose costs are
/// `costs`: each `saved[j]` comes out of the propagation for `gammas[j]`
/// (and so gives every vertex a label it can reach), `costs[j]` is its
/// log-gap cost, `r` is what `combine_labellings` makes of them, and two
/// vertices share a label in `r` exactly when they share one in every
/// labelling of `saved`.
pub open spec fn layered_result(
    g: Seq<Seq<usize>>,
    gammas: Seq<Gamma>,
    rule: StopRule,
    saved: Seq<Seq<usize>>,
    costs: Seq<usize>,
    r: Seq<usize>,
) -> bool {
    let m = gammas.len();
    &&& saved.len() == m
    &&& costs.len() == m
    &&& forall|j: int|
        0 <= j < m ==> (#[trigger] saved[j]).len() == g.len() && labels_reachable(g, saved[j])
            && gamma_outcome(g, gammas[j], rule, saved[j]) && is_labelling_cost(g, saved[j], costs[j])
    &&& combined_from(saved, costs, r)
    &&& forall|u: int, v: int|
        0 <= u < r.len() && 0 <= v < r.len() ==> (#[trigger] r[u] == #[trigger] r[v] <==> forall|j: int|
            0 <= j < m ==> #[trigger] saved[j][u] == saved[j][v])
}

/// Layered label propagation: computes the labelling of each γ of `gammas`
/// (`gamma_labellings`) and combines them by decreasing log-gap cost
/// (`combine_labellings`). Returns labels numbered densely from zero, under
/// which two vertices share a label only if they do under every γ.
pub fn layered_label_propagation(
    g: &Graph,
    gammas: &Vec<Gamma>,
    chunk_size: usize,
    granularity: Option<usize>,
    seed: u64,
    rule: &StopRule,
) -> (r: Result<Vec<usize>, LlpError>)
    requires
        g.wf(),
    ensures
        r.is_err() <==> !valid_input(g@.len(), gammas@, chunk_size),
        r.is_ok() ==> r.unwrap()@.len() == g@.len(),
        r.is_ok() ==> exists|k: nat| #[trigger] dense(r.unwrap()@, k),
        r.is_ok() ==> exists|saved: Seq<Seq<usize>>, costs: Seq<usize>|
            #[trigger] layered_result(g@, gammas@, *rule, saved, costs, r.unwrap()@),
        r.is_ok() && no_arcs(g@) ==> forall|v: int|
            0 <= v < g@.len() ==> #[trigger] r.unwrap()@[v] == v,
{
    match gamma_labellings(g, gammas, chunk_size, granularity, seed, rule) {
        Err(e) => Err(e),
        Ok((saved, costs)) => {
            let result = combine_labellings(&saved, &costs);
            let out: Result<Vec<usize>, LlpError> = Ok(result);
            proof {
                let k = choose|k: nat| #[trigger] dense(result@, k);
                assert(out.unwrap()@ == result@);
                assert(dense(out.unwrap()@, k));
                let w = lists_view(saved@);
                assert forall|u: int, v: int|
                    0 <= u < result@.len() && 0 <= v < result@.len() implies (#[trigger] result@[u]
                        == #[trigger] result@[v] <==> forall|j: int|
                        0 <= j < w.len() ==> #[trigger] w[j][u] == w[j][v]) by {
                    if result@[u] == result@[v] {
                        assert(agree_all(saved@, u, v));
                        assert forall|j: int| 0 <= j < w.len() implies #[trigger] w[j][u] == w[j][v] by {
                            assert(saved@[j]@[u] == saved@[j]@[v]);
                        }
                    }
                    if forall|j: int| 0 <= j < w.len() ==> #[trigger] w[j][u] == w[j][v] {
                        assert forall|j: int| 0 <= j < saved@.len() implies #[trigger] saved@[j]@[u] == saved@[j]@[v] by {
                            assert(w[j][u] == w[j][v]);
                        }
                        assert(agree_all(saved@, u, v));
                    }
                }
                assert forall|j: int| 0 <= j < w.len() implies (#[trigger] w[j]).len() == g@.len()
                    && labels_reachable(g@, w[j]) && gamma_outcome(g@, gammas@[j], *rule, w[j])
                    && is_labelling_cost(g@, w[j], costs@[j]) by {
                    assert(w[j] == saved@[j]@);
                }
                assert(layered_result(g@, gammas@, *rule, w, costs@, out.unwrap()@));
                if no_arcs(g@) {
                    assert forall|j: int, v: int|
                        0 <= j < saved@.len() && 0 <= v < saved@[0]@.len() implies #[trigger] saved@[j]@[v] == v by {}
                }
            }
            out
        },
    }
}

/// Whether `g` is the path `0 - 1 - ... - (n-1)`, both ways.
pub open spec fn is_path_graph(g: Seq<Seq<usize>>) -> bool {
    forall|v: int, x: usize|
        0 <= v < g.len() ==> (#[trigger] g[v].contains(x) <==> ((x as int) < g.len() && (x + 1 == v
            || x == v + 1)))
}

/// Whether the classes of `labels` are runs of consecutive vertices.
pub open spec fn stripes(labels: Seq<usize>) -> bool {
    forall|u: int, w: int, x: int|
        0 <= u < w < x < labels.len() && #[trigger] labels[u] == #[trigger] labels[x] ==> #[trigger] labels[w]
            == labels[u]
}

proof fn lemma_candidate_on_path(g: Seq<Seq<usize>>, labels: Seq<usize>, v: int, l: usize)
    requires
        is_path_graph(g),
        0 <= v < g.len(),
        labels.len() == g.len(),
        candidate(labels, g[v], labels[v], l),
    ensures
        l == labels[v] || (v > 0 && l == labels[v - 1]) || (v + 1 < g.len() && l == labels[v + 1]),
{
    if l != labels[v] {
        let k = lemma_count_witness(labels, g[v], g[v].len() as int, l);
        let s = g[v][k];
        assert(g[v].contains(s));
    }
}

proof fn lemma_step_keeps_stripes(
    g: Seq<Seq<usize>>,
    gamma: Gamma,
    v: int,
    a: (Seq<usize>, Seq<usize>, Seq<bool>),
    b: (Seq<usize>, Seq<usize>, Seq<bool>),
)
    requires
        is_path_graph(g),
        0 <= v < g.len(),
        a.0.len() == g.len(),
        stripes(a.0),
        pass_step(g, gamma, v, a, b),
    ensures
        stripes(b.0),
        b.0.len() == a.0.len(),
{
    if a.2[v] && g[v].len() > 0 {
        let la = a.0;
        let lb = b.0;
        let next = lb[v];
        lemma_candidate_on_path(g, la, v, next);
        assert forall|u: int, w: int, x: int|
            0 <= u < w < x < lb.len() && #[trigger] lb[u] == #[trigger] lb[x] implies #[trigger] lb[w]
                == lb[u] by {
            if w == v {
                assert(la[u] == la[x]);
                assert(la[v] == la[u]);
                if v > 0 && u < v - 1 {
                    assert(la[v - 1] == la[u]);
                }
                if v + 1 < x {
                    assert(la[v + 1] == la[u]);
                }
            } else if u == v {
                if next == la[v] {
                    assert(la[w] == la[u]);
                } else if v + 1 < la.len() && next == la[v + 1] {
                    if w > v + 1 {
                        assert(la[w] == la[v + 1]);
                    }
                } else {
                    assert(v > 0 && next == la[v - 1]);
                    assert(la[v - 1] == la[x]);
                    assert(la[v] == la[v - 1]);
                }
            } else if x == v {
                if next == la[v] {
                    assert(la[w] == la[u]);
                } else if v > 0 && next == la[v - 1] {
                    if w < v - 1 {
                        assert(la[w] == la[u]);
                    }
                } else {
                    assert(v + 1 < la.len() && next == la[v + 1]);
                    assert(la[u] == la[v + 1]);
                    assert(la[v] == la[u]);
                }
            } else {
                assert(la[u] == la[x]);
                assert(la[w] == la[u]);
            }
        }
    }
}

proof fn lemma_trace_keeps_stripes(
    g: Seq<Seq<usize>>,
    gamma: Gamma,
    order: Seq<usize>,
    states: Seq<(Seq<usize>, Seq<usize>, Seq<bool>)>,
    k: int,
)
    requires
        is_path_graph(g),
        is_perm(order),
        order.len() == g.len(),
        pass_trace(g, gamma, order, states),
        states[0].0.len() == g.len(),
        stripes(states[0].0),
        0 <= k < states.len(),
    ensures
        stripes(states[k].0),
        states[k].0.len() == g.len(),
    decreases k,
{
    if k > 0 {
        lemma_trace_keeps_stripes(g, gamma, order, states, k - 1);
        let q = k - 1;
        assert(pass_step(g, gamma, order[q] as int, states[q], states[q + 1]));
        lemma_step_keeps_stripes(g, gamma, order[q] as int, states[q], states[q + 1]);
    }
}

proof fn lemma_run_keeps_stripes(
    g: Seq<Seq<usize>>,
    gamma: Gamma,
    rule: StopRule,
    run: Seq<(Seq<usize>, Seq<(Seq<usize>, Seq<usize>, Seq<bool>)>)>,
    labels: Seq<usize>,
    k: int,
)
    requires
        is_path_graph(g),
        g.len() <= usize::MAX,
        propagation_run(g, gamma, rule, run, labels),
        0 <= k < run.len(),
    ensures
        stripes(run[k].1.last().0),
        run[k].1.last().0.len() == g.len(),
    decreases k,
{
    let p = run[k];
    assert(is_perm(p.0) && p.0.len() == g.len() && pass_trace(g, gamma, p.0, p.1));
    if k == 0 {
        let init = initial_state(g.len());
        assert(p.1[0] == init);
        assert forall|u: int, w: int, x: int|
            0 <= u < w < x < init.0.len() && #[trigger] init.0[u] == #[trigger] init.0[x] implies #[trigger] init.0[w]
                == init.0[u] by {
            assert(init.0[u] == u as usize);
            assert(init.0[x] == x as usize);
        }
    } else {
        lemma_run_keeps_stripes(g, gamma, rule, run, labels, k - 1);
        let q = k - 1;
        assert(run[q + 1].1[0] == run[q].1.last());
    }
    lemma_trace_keeps_stripes(g, gamma, p.0, p.1, p.1.len() - 1);
}

/// On a path, every labelling that comes out of the label propagation is
/// made of stripes, and so is the combined result: each label is carried by
/// a run of consecutive vertices.
pub proof fn lemma_path_stripes(
    g: Seq<Seq<usize>>,
    gammas: Seq<Gamma>,
    rule: StopRule,
    saved: Seq<Seq<usize>>,
    costs: Seq<usize>,
    r: Seq<usize>,
)
    requires
        is_path_graph(g),
        g.len() <= usize::MAX,
        layered_result(g, gammas, rule, saved, costs, r),
        r.len() == g.len(),
    ensures
        stripes(r),
{
    assert forall|j: int| 0 <= j < saved.len() implies stripes(#[trigger] saved[j]) by {
        assert(gamma_outcome(g, gammas[j], rule, saved[j]));
        let run = choose|run: Seq<(Seq<usize>, Seq<(Seq<usize>, Seq<usize>, Seq<bool>)>)>|
            #[trigger] propagation_run(g, gammas[j], rule, run, saved[j]);
        lemma_run_keeps_stripes(g, gammas[j], rule, run, saved[j], run.len() - 1);
    }
    assert forall|u: int, w: int, x: int|
        0 <= u < w < x < r.len() && #[trigger] r[u] == #[trigger] r[x] implies #[trigger] r[w] == r[u] by {
        assert forall|j: int| 0 <= j < saved.len() implies #[trigger] saved[j][w] == saved[j][u] by {
            assert(saved[j][u] == saved[j][x]);
            assert(stripes(saved[j]));
        }
    }
}

/// Two vertices that share a label in the combined result can both reach
/// that label's vertex in every labelling: vertices with no common reachable
/// vertex (such as two vertices in different components) never share one.
pub proof fn lemma_shared_label_common_reach(
    g: Seq<Seq<usize>>,
    gammas: Seq<Gamma>,
    rule: StopRule,
    saved: Seq<Seq<usize>>,
    costs: Seq<usize>,
    r: Seq<usize>,
    u: int,
    v: int,
)
    requires
        layered_result(g, gammas, rule, saved, costs, r),
        gammas.len() > 0,
        r.len() == g.len(),
        0 <= u < r.len(),
        0 <= v < r.len(),
        r[u] == r[v],
    ensures
        reaches(g, u as usize, saved[0][u]) && reaches(g, v as usize, saved[0][u]),
{
    assert(saved[0][u] == saved[0][v]);
    assert(labels_reachable(g, saved[0]));
    assert(saved[0].len() == g.len());
}

} // verus!
