use vstd::prelude::*;

verus! {

/// The sum of a sequence of volumes.
pub open spec fn total(s: Seq<usize>) -> int
    decreases s.len(),
{
    if s.len() == 0 {
        0
    } else {
        total(s.drop_last()) + s.last()
    }
}

/// Changing one entry changes the sum by the difference.
pub proof fn lemma_total_update(s: Seq<usize>, i: int, v: usize)
    requires
        0 <= i < s.len(),
    ensures
        total(s.update(i, v)) == total(s) - s[i] + v,
    decreases s.len(),
{
    if i == s.len() - 1 {
        assert(s.update(i, v).drop_last() =~= s.drop_last());
    } else {
        assert(s.update(i, v).drop_last() =~= s.drop_last().update(i, v));
        lemma_total_update(s.drop_last(), i, v);
    }
}

proof fn lemma_total_ones(s: Seq<usize>)
    requires
        forall|i: int| 0 <= i < s.len() ==> #[trigger] s[i] == 1,
    ensures
        total(s) == s.len(),
    decreases s.len(),
{
    if s.len() > 0 {
        lemma_total_ones(s.drop_last());
    }
}

/// A labelling of the vertices `[0, n)` with the volume of each label, that
/// is, the number of vertices that carry it. Volumes wrap around as unsigned
/// machine integers: scoring takes one off a volume without giving it back.
///
/// A volume taken below zero is deliberately read as the unsigned integer it
/// wrapped to, not as a negative count: the score `(1 + γ)·k − γ·(volume + 1)`
/// of such a label is then very low, so a label whose volume has been used up
/// by scoring is not chosen while any other candidate scores normally. This is
/// the behaviour of unsigned atomic counters, which the store models.
pub struct LabelStore {
    labels: Vec<usize>,
    volumes: Vec<usize>,
}

impl LabelStore {
    pub closed spec fn labels_view(&self) -> Seq<usize> {
        self.labels@
    }

    pub closed spec fn volumes_view(&self) -> Seq<usize> {
        self.volumes@
    }

    /// Both arrays have one entry per vertex and every label is a vertex.
    pub open spec fn wf(&self) -> bool {
        &&& self.labels_view().len() == self.volumes_view().len()
        &&& forall|v: int|
            0 <= v < self.labels_view().len() ==> (#[trigger] self.labels_view()[v] as int)
                < self.labels_view().len()
    }

    /// The initial state: every vertex is its own label, of volume one.
    pub open spec fn is_initial(&self, n: nat) -> bool {
        &&& self.labels_view().len() == n
        &&& self.volumes_view().len() == n
        &&& forall|v: int| 0 <= v < n ==> #[trigger] self.labels_view()[v] == v
        &&& forall|v: int| 0 <= v < n ==> #[trigger] self.volumes_view()[v] == 1
    }

    /// A store for `n` vertices in its initial state.
    pub fn new(n: usize) -> (r: LabelStore)
        ensures
            r.wf(),
            r.is_initial(n as nat),
            total(r.volumes_view()) == n,
    {
        let mut r = LabelStore { labels: Vec::with_capacity(n), volumes: Vec::with_capacity(n) };
        let mut v: usize = 0;
        while v < n
            invariant
                v <= n,
                r.labels@.len() == v,
                r.volumes@.len() == v,
                forall|u: int| 0 <= u < v ==> #[trigger] r.labels@[u] == u,
                forall|u: int| 0 <= u < v ==> #[trigger] r.volumes@[u] == 1,
            decreases n - v,
        {
            r.labels.push(v);
            r.volumes.push(1);
            v = v + 1;
        }
        proof {
            lemma_total_ones(r.volumes@);
        }
        r
    }

    /// Puts the store back in its initial state.
    pub fn init(&mut self)
        requires
            old(self).wf(),
        ensures
            final(self).wf(),
            final(self).is_initial(old(self).labels_view().len()),
            total(final(self).volumes_view()) == old(self).labels_view().len(),
    {
        let n = self.labels.len();
        let mut v: usize = 0;
        while v < n
            invariant
                v <= n,
                self.labels@.len() == n,
                self.volumes@.len() == n,
                forall|u: int| 0 <= u < v ==> #[trigger] self.labels@[u] == u,
                forall|u: int| 0 <= u < v ==> #[trigger] self.volumes@[u] == 1,
            decreases n - v,
        {
            self.labels.set(v, v);
            self.volumes.set(v, 1);
            v = v + 1;
        }
        proof {
            lemma_total_ones(self.volumes@);
        }
    }

    /// The number of vertices.
    pub fn len(&self) -> (r: usize)
        ensures
            r == self.labels_view().len(),
    {
        self.labels.len()
    }

    /// The label of vertex `v`.
    pub fn label(&self, v: usize) -> (r: usize)
        requires
            (v as int) < self.labels_view().len(),
        ensures
            r == self.labels_view()[v as int],
    {
        self.labels[v]
    }

    /// The volume of label `l`.
    pub fn volume(&self, l: usize) -> (r: usize)
        requires
            (l as int) < self.volumes_view().len(),
        ensures
            r == self.volumes_view()[l as int],
    {
        self.volumes[l]
    }

    /// Returns the volume of `l` and takes one off it, wrapping below zero.
    pub fn volume_fetch_sub(&mut self, l: usize) -> (r: usize)
        requires
            old(self).wf(),
            (l as int) < old(self).volumes_view().len(),
        ensures
            final(self).wf(),
            r == old(self).volumes_view()[l as int],
            final(self).labels_view() == old(self).labels_view(),
            final(self).volumes_view() == old(self).volumes_view().update(
                l as int,
                r.wrapping_sub(1),
            ),
            r > 0 ==> total(final(self).volumes_view()) == total(old(self).volumes_view()) - 1,
    {
        let r = self.volumes[l];
        self.volumes.set(l, r.wrapping_sub(1));
        proof {
            lemma_total_update(old(self).volumes@, l as int, r.wrapping_sub(1));
        }
        r
    }

    /// Moves vertex `v` to label `l`: the volume of its old label goes down by
    /// one and that of `l` up by one, both wrapping.
    pub fn volume_set(&mut self, v: usize, l: usize)
        requires
            old(self).wf(),
            (v as int) < old(self).labels_view().len(),
            (l as int) < old(self).labels_view().len(),
        ensures
            final(self).wf(),
            final(self).labels_view() == old(self).labels_view().update(v as int, l),
            final(self).volumes_view() == ({
                let w = old(self).volumes_view();
                let c = old(self).labels_view()[v as int] as int;
                let w1 = w.update(c, w[c].wrapping_sub(1));
                w1.update(l as int, w1[l as int].wrapping_add(1))
            }),
            ({
                let w = old(self).volumes_view();
                let c = old(self).labels_view()[v as int] as int;
                w[c] > 0 && (c == l || w[l as int] < usize::MAX)
            }) ==> total(final(self).volumes_view()) == total(old(self).volumes_view()),
    {
        let c = self.labels[v];
        let vc = self.volumes[c];
        self.volumes.set(c, vc.wrapping_sub(1));
        let ghost w1 = self.volumes@;
        let vl = self.volumes[l];
        self.volumes.set(l, vl.wrapping_add(1));
        self.labels.set(v, l);
        proof {
            lemma_total_update(old(self).volumes@, c as int, vc.wrapping_sub(1));
            lemma_total_update(w1, l as int, vl.wrapping_add(1));
        }
    }

    /// The labels, one per vertex.
    pub fn labels(&self) -> (r: &Vec<usize>)
        ensures
            r@ == self.labels_view(),
    {
        &self.labels
    }
}

} // verus!
