use vstd::prelude::*;

use crate::perm::{is_identity, is_perm, lemma_identity_is_perm, lemma_same_multiset_perm, reset_identity};
use crate::sorting::{sort_by_keys, sorted_by_keys};

verus! {

/// Whether every value of `labels` is an index of it.
pub open spec fn labels_in_range(labels: Seq<usize>) -> bool {
    forall|i: int| 0 <= i < labels.len() ==> (#[trigger] labels[i] as int) < labels.len()
}

/// The common refinement of two labellings: `r` puts two vertices in the same
/// class exactly when both `result` and `labels` do.
pub open spec fn refines_both(r: Seq<usize>, result: Seq<usize>, labels: Seq<usize>) -> bool {
    forall|u: int, v: int|
        0 <= u < r.len() && 0 <= v < r.len() ==> (#[trigger] r[u] == #[trigger] r[v] <==> (
        result[u] == result[v] && labels[u] == labels[v]))
}

/// Whether the values of `r` are exactly `0, 1, ..., k - 1`.
pub open spec fn dense(r: Seq<usize>, k: nat) -> bool {
    &&& forall|v: int| 0 <= v < r.len() ==> (#[trigger] r[v] as int) < k
    &&& forall|c: int| 0 <= c < k ==> #[trigger] takes_value(r, c)
}

/// Whether some entry of `r` equals `c`.
pub open spec fn takes_value(r: Seq<usize>, c: int) -> bool {
    exists|v: int| 0 <= v < r.len() && r[v] == c
}

/// Whether one of the first `i` entries of `r` in the order `t` equals `c`.
spec fn reached(r: Seq<usize>, t: Seq<usize>, i: int, c: int) -> bool {
    exists|m: int| 0 <= m < i && r[t[m] as int] == c
}

/// A labelling `s` that is constant on the classes of the dense labelling `r`
/// with `k` classes takes at most `k` distinct values.
proof fn lemma_coarser_has_fewer_values(r: Seq<usize>, s: Seq<usize>, k: nat)
    requires
        r.len() == s.len(),
        dense(r, k),
        forall|u: int, v: int|
            0 <= u < r.len() && 0 <= v < r.len() && #[trigger] r[u] == #[trigger] r[v] ==> s[u]
                == s[v],
    ensures
        s.to_set().len() <= k,
{
    let x = s.to_set();
    let f = |val: usize| r[choose|v: int| 0 <= v < s.len() && s[v] == val] as int;
    let y = x.map(f);
    vstd::seq_lib::seq_to_set_is_finite(s);
    assert(vstd::relations::injective_on(f, x)) by {
        assert forall|a: usize, b: usize| x.contains(a) && x.contains(b) && #[trigger] f(a) == #[trigger] f(b) implies a == b by {
            assert(s.contains(a));
            assert(s.contains(b));
            let va = choose|v: int| 0 <= v < s.len() && s[v] == a;
            let vb = choose|v: int| 0 <= v < s.len() && s[v] == b;
            assert(r[va] == r[vb]);
        }
    }
    vstd::set_lib::lemma_map_size(x, y, f);
    vstd::set_lib::lemma_int_range(0, k as int);
    assert(y.subset_of(vstd::set_lib::set_int_range(0, k as int))) by {
        assert forall|w: int| y.contains(w) implies vstd::set_lib::set_int_range(0, k as int).contains(w) by {
            let a = choose|a: usize| x.contains(a) && f(a) == w;
            assert(s.contains(a));
            let va = choose|v: int| 0 <= v < s.len() && s[v] == a;
            assert((r[va] as int) < k);
        }
    }
    vstd::set_lib::lemma_len_subset(y, vstd::set_lib::set_int_range(0, k as int));
}

/// After `combine`, the number of classes is at least the number of distinct
/// values of the labelling before, and at least that of `labels`.
pub proof fn lemma_combine_monotone(r: Seq<usize>, result: Seq<usize>, labels: Seq<usize>, k: nat)
    requires
        r.len() == result.len(),
        r.len() == labels.len(),
        dense(r, k),
        refines_both(r, result, labels),
    ensures
        k >= result.to_set().len(),
        k >= labels.to_set().len(),
{
    lemma_coarser_has_fewer_values(r, result, k);
    lemma_coarser_has_fewer_values(r, labels, k);
}

/// The sort key of vertex `a` in `combine`.
pub open spec fn combine_key(result: Seq<usize>, labels: Seq<usize>, a: int) -> (usize, usize, usize) {
    (result[labels[a] as int], labels[a], result[a])
}

/// Lexicographic order on triples, the order of std's tuples.
pub open spec fn key_le(a: (usize, usize, usize), b: (usize, usize, usize)) -> bool {
    a.0 < b.0 || (a.0 == b.0 && (a.1 < b.1 || (a.1 == b.1 && a.2 <= b.2)))
}

/// Strict lexicographic order on triples.
pub open spec fn key_lt(a: (usize, usize, usize), b: (usize, usize, usize)) -> bool {
    a.0 < b.0 || (a.0 == b.0 && (a.1 < b.1 || (a.1 == b.1 && a.2 < b.2)))
}

/// Whether the classes of `r` are numbered in the order of the keys of
/// `combine`.
pub open spec fn numbered_by_key(r: Seq<usize>, result: Seq<usize>, labels: Seq<usize>) -> bool {
    forall|u: int, v: int|
        0 <= u < r.len() && 0 <= v < r.len() && key_lt(
            combine_key(result, labels, u),
            combine_key(result, labels, v),
        ) ==> #[trigger] r[u] < #[trigger] r[v]
}

/// Replaces `result` with the common refinement of `result` and `labels`,
/// numbered densely in the order of the key
/// `(result[labels[a]], labels[a], result[a])`, and returns the number of
/// classes. `temp` is scratch space of the same length.
pub fn combine(result: &mut Vec<usize>, labels: &Vec<usize>, temp: &mut Vec<usize>) -> (k: usize)
    requires
        old(result)@.len() > 0,
        old(result)@.len() == labels@.len(),
        old(temp)@.len() == labels@.len(),
        labels_in_range(labels@),
    ensures
        final(result)@.len() == old(result)@.len(),
        final(temp)@.len() == old(temp)@.len(),
        dense(final(result)@, k as nat),
        refines_both(final(result)@, old(result)@, labels@),
        numbered_by_key(final(result)@, old(result)@, labels@),
        is_perm(final(temp)@),
        forall|i: int, j: int|
            0 <= i < j < final(temp)@.len() ==> key_le(
                combine_key(old(result)@, labels@, #[trigger] final(temp)@[i] as int),
                combine_key(old(result)@, labels@, #[trigger] final(temp)@[j] as int),
            ),
{
    let n = result.len();
    let ghost r0 = result@;
    reset_identity(temp);
    let mut keys: Vec<(usize, usize, usize)> = Vec::with_capacity(n);
    let mut a: usize = 0;
    while a < n
        invariant
            a <= n,
            n == result@.len(),
            n == labels@.len(),
            labels_in_range(labels@),
            keys@.len() == a,
            forall|b: int| 0 <= b < a ==> #[trigger] keys@[b] == combine_key(result@, labels@, b),
        decreases n - a,
    {
        keys.push((result[labels[a]], labels[a], result[a]));
        a = a + 1;
    }
    let ghost ident = temp@;
    proof {
        lemma_identity_is_perm(ident);
    }
    sort_by_keys(temp, &keys);
    proof {
        lemma_same_multiset_perm(ident, temp@);
    }
    let ghost t = temp@;
    let mut prev: (usize, usize) = (result[temp[0]], labels[temp[0]]);
    let mut curr: usize = 0;
    result.set(temp[0], 0);
    let mut i: usize = 1;
    while i < n
        invariant
            1 <= i <= n,
            n == result@.len(),
            n == labels@.len(),
            n == r0.len(),
            t == temp@,
            is_perm(t),
            t.len() == n,
            keys@.len() == n,
            sorted_by_keys(t, keys@),
            forall|b: int| 0 <= b < n ==> #[trigger] keys@[b] == combine_key(r0, labels@, b),
            curr < i,
            prev == (r0[t[i - 1] as int], labels@[t[i - 1] as int]),
            result@[t[i - 1] as int] == curr,
            forall|m: int| i <= m < n ==> #[trigger] result@[t[m] as int] == r0[t[m] as int],
            forall|m: int| 0 <= m < i ==> #[trigger] result@[t[m] as int] <= curr,
            forall|m1: int, m2: int|
                0 <= m1 <= m2 < i ==> #[trigger] result@[t[m1] as int] <= #[trigger] result@[t[m2] as int],
            forall|m1: int, m2: int|
                0 <= m1 < i && 0 <= m2 < i ==> (#[trigger] result@[t[m1] as int] == #[trigger] result@[t[m2] as int] <==> (
                r0[t[m1] as int] == r0[t[m2] as int] && labels@[t[m1] as int] == labels@[t[m2] as int])),
            forall|c: int| 0 <= c <= curr ==> #[trigger] reached(result@, t, i as int, c),
        decreases n - i,
    {
        let ti = temp[i];
        let pair = (result[ti], labels[ti]);
        let ghost before = result@;
        if pair.0 != prev.0 || pair.1 != prev.1 {
            proof {
                assert forall|m: int| 0 <= m < i implies !(r0[t[m] as int] == r0[ti as int] && labels@[t[m] as int] == labels@[ti as int]) by {
                    if r0[t[m] as int] == r0[ti as int] && labels@[t[m] as int] == labels@[ti as int] {
                        assert(key_le(keys@[t[m] as int], keys@[t[i - 1] as int]));
                        assert(key_le(keys@[t[i - 1] as int], keys@[ti as int]));
                    }
                }
            }
            curr = curr + 1;
            prev = pair;
        }
        result.set(ti, curr);
        proof {
            assert forall|m: int| 0 <= m < i implies #[trigger] result@[t[m] as int] == before[t[m] as int] by {
                assert(t[m] != t[i as int]);
            }
            assert forall|m: int| i < m < n implies #[trigger] result@[t[m] as int] == r0[t[m] as int] by {
                assert(t[m] != t[i as int]);
            }
            assert forall|c: int| 0 <= c <= curr implies #[trigger] reached(result@, t, i + 1, c) by {
                if c < curr || result@[t[i as int] as int] != c {
                    assert(reached(before, t, i as int, c));
                    let m = choose|m: int| 0 <= m < i && before[t[m] as int] == c;
                    assert(result@[t[m] as int] == c);
                } else {
                    assert(result@[t[i as int] as int] == c);
                }
            }
        }
        i = i + 1;
    }
    proof {
        assert forall|u: int, v: int| 0 <= u < n && 0 <= v < n implies (#[trigger] result@[u] == #[trigger] result@[v] <==> (
            r0[u] == r0[v] && labels@[u] == labels@[v])) by {
            crate::perm::lemma_injective_onto(t, u);
            crate::perm::lemma_injective_onto(t, v);
            let mu = choose|m: int| 0 <= m < n && t[m] == u;
            let mv = choose|m: int| 0 <= m < n && t[m] == v;
            assert(result@[t[mu] as int] == result@[u]);
            assert(result@[t[mv] as int] == result@[v]);
        }
        assert forall|u: int, v: int|
            0 <= u < n && 0 <= v < n && key_lt(combine_key(r0, labels@, u), combine_key(r0, labels@, v))
                implies #[trigger] result@[u] < #[trigger] result@[v] by {
            crate::perm::lemma_injective_onto(t, u);
            crate::perm::lemma_injective_onto(t, v);
            let mu = choose|m: int| 0 <= m < n && t[m] == u;
            let mv = choose|m: int| 0 <= m < n && t[m] == v;
            assert(result@[t[mu] as int] == result@[u]);
            assert(result@[t[mv] as int] == result@[v]);
            if mv <= mu {
                if mv < mu {
                    assert(key_le(keys@[t[mv] as int], keys@[t[mu] as int]));
                }
            } else {
                assert(result@[t[mu] as int] <= result@[t[mv] as int]);
            }
        }
        assert forall|i: int, j: int| 0 <= i < j < n implies key_le(
            combine_key(r0, labels@, #[trigger] t[i] as int),
            combine_key(r0, labels@, #[trigger] t[j] as int),
        ) by {
            assert(key_le(keys@[t[i] as int], keys@[t[j] as int]));
        }
        assert forall|v: int| 0 <= v < n implies (#[trigger] result@[v] as int) < curr + 1 by {
            crate::perm::lemma_injective_onto(t, v);
            let mv = choose|m: int| 0 <= m < n && t[m] == v;
            assert(result@[t[mv] as int] == result@[v]);
        }
        assert forall|c: int| 0 <= c < curr + 1 implies #[trigger] takes_value(result@, c) by {
            assert(reached(result@, t, n as int, c));
            let m = choose|m: int| 0 <= m < n && result@[t[m] as int] == c;
            assert(result@[t[m] as int] == c);
        }
    }
    curr + 1
}

} // verus!
