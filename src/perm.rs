use vstd::prelude::*;

verus! {

/// Whether `p` is a permutation of `[0, p.len())`.
pub open spec fn is_perm(p: Seq<usize>) -> bool {
    &&& forall|i: int| 0 <= i < p.len() ==> (#[trigger] p[i] as int) < p.len()
    &&& forall|i: int, j: int| 0 <= i < p.len() && 0 <= j < p.len() && i != j ==> p[i] != p[j]
}

/// Whether `q` is the inverse of the permutation `p`: `q[p[i]] == i` for all `i`.
pub open spec fn is_inverse(q: Seq<usize>, p: Seq<usize>) -> bool {
    &&& q.len() == p.len()
    &&& forall|i: int| 0 <= i < p.len() ==> q[#[trigger] p[i] as int] == i
}

/// Whether `p` is the identity of length `n`.
pub open spec fn is_identity(p: Seq<usize>, n: nat) -> bool {
    &&& p.len() == n
    &&& forall|i: int| 0 <= i < n ==> #[trigger] p[i] == i
}

/// The identity is a permutation.
pub proof fn lemma_identity_is_perm(p: Seq<usize>)
    requires
        is_identity(p, p.len()),
    ensures
        is_perm(p),
{
}

/// A sequence with the same elements as a permutation is a permutation.
pub proof fn lemma_same_multiset_perm(a: Seq<usize>, b: Seq<usize>)
    requires
        is_perm(a),
        a.to_multiset() == b.to_multiset(),
    ensures
        is_perm(b),
        b.len() == a.len(),
{
    vstd::seq_lib::to_multiset_len(a);
    vstd::seq_lib::to_multiset_len(b);
    assert(a.no_duplicates());
    a.lemma_multiset_has_no_duplicates();
    b.lemma_multiset_has_no_duplicates_conv();
    assert forall|i: int| 0 <= i < b.len() implies (#[trigger] b[i] as int) < b.len() by {
        assert(b.contains(b[i]));
        vstd::seq_lib::to_multiset_contains(b, b[i]);
        vstd::seq_lib::to_multiset_contains(a, b[i]);
        assert(a.contains(b[i]));
    }
}

/// The inverse of a permutation is a permutation.
pub proof fn lemma_inverse_is_perm(q: Seq<usize>, p: Seq<usize>)
    requires
        is_perm(p),
        is_inverse(q, p),
        forall|i: int| 0 <= i < q.len() ==> (#[trigger] q[i] as int) < q.len(),
    ensures
        is_perm(q),
        forall|i: int| 0 <= i < p.len() ==> p[#[trigger] q[i] as int] == i,
{
    let n = p.len();
    assert forall|i: int| 0 <= i < n implies p[#[trigger] q[i] as int] == i by {
        lemma_injective_onto(p, i);
        let j = choose|j: int| 0 <= j < n && p[j] == i;
        assert(q[p[j] as int] == j);
    }
    assert forall|i: int, j: int| 0 <= i < n && 0 <= j < n && i != j implies q[i] != q[j] by {
        if q[i] == q[j] {
            assert(p[q[i] as int] == i);
            assert(p[q[j] as int] == j);
        }
    }
}

/// An injective map of `[0, n)` into itself hits every value of `[0, n)`.
pub proof fn lemma_injective_onto(p: Seq<usize>, v: int)
    requires
        is_perm(p),
        0 <= v < p.len(),
    ensures
        exists|i: int| 0 <= i < p.len() && p[i] == v,
{
    let n = p.len();
    let dom = Set::new(|i: int| 0 <= i < n);
    let rng = Set::new(|w: int| 0 <= w < n);
    let img = dom.map(|i: int| p[i] as int);
    vstd::set_lib::lemma_int_range(0, n as int);
    assert(dom =~= vstd::set_lib::set_int_range(0, n as int));
    assert(rng =~= vstd::set_lib::set_int_range(0, n as int));
    assert(img.subset_of(rng));
    vstd::set_lib::lemma_map_size(dom, img, |i: int| p[i] as int);
    if !img.contains(v) {
        vstd::set_lib::lemma_len_subset(img, rng.remove(v));
    }
}

/// Inverting a permutation twice gives it back: if `q` is the inverse of `p`
/// and `r` the inverse of `q`, then `r == p`.
pub proof fn lemma_invert_involutive(p: Seq<usize>, q: Seq<usize>, r: Seq<usize>)
    requires
        is_perm(p),
        is_perm(q),
        is_inverse(q, p),
        is_inverse(r, q),
    ensures
        r == p,
{
    assert forall|j: int| 0 <= j < p.len() implies r[j] == p[j] by {
        assert(q[p[j] as int] == j);
        assert(r[q[p[j] as int] as int] == p[j]);
    }
    assert(r =~= p);
}

/// Fills `p` with the identity permutation.
pub fn reset_identity(p: &mut Vec<usize>)
    ensures
        is_identity(final(p)@, old(p)@.len()),
{
    let n = p.len();
    let mut i: usize = 0;
    while i < n
        invariant
            p@.len() == n,
            i <= n,
            forall|j: int| 0 <= j < i ==> p@[j] == j,
        decreases n - i,
    {
        p.set(i, i);
        i = i + 1;
    }
}

/// The identity permutation of length `n`.
pub fn identity(n: usize) -> (r: Vec<usize>)
    ensures
        is_identity(r@, n as nat),
{
    let mut r: Vec<usize> = Vec::with_capacity(n);
    let mut i: usize = 0;
    while i < n
        invariant
            i <= n,
            r@.len() == i,
            forall|j: int| 0 <= j < i ==> r@[j] == j,
        decreases n - i,
    {
        r.push(i);
        i = i + 1;
    }
    r
}

/// An entry that `invert_in_place` has marked as visited.
pub open spec fn marked(x: usize) -> bool {
    x > usize::MAX / 2
}

/// Whether index `y` has been handled by `invert_in_place` when the outer
/// scan stands at `n`: it lies before `n`, or it carries the visited mark.
spec fn done(s: Seq<usize>, n: int, y: int) -> bool {
    y < n || marked(s[y])
}

spec fn unmarked_count(s: Seq<usize>) -> nat
    decreases s.len(),
{
    if s.len() == 0 {
        0
    } else {
        unmarked_count(s.drop_last()) + (if marked(s.last()) {
            0nat
        } else {
            1nat
        })
    }
}

proof fn lemma_mark_one(s: Seq<usize>, i: int, v: usize)
    requires
        0 <= i < s.len(),
        !marked(s[i]),
        marked(v),
    ensures
        unmarked_count(s.update(i, v)) + 1 == unmarked_count(s),
    decreases s.len(),
{
    if i == s.len() - 1 {
        assert(s.update(i, v).drop_last() =~= s.drop_last());
    } else {
        assert(s.update(i, v).drop_last() =~= s.drop_last().update(i, v));
        lemma_mark_one(s.drop_last(), i, v);
    }
}

/// `r` is the inverse of `q`, both of length `len`.
spec fn inverse_pair(q: Seq<usize>, r: Seq<int>, len: int) -> bool {
    &&& q.len() == len
    &&& r.len() == len
    &&& forall|x: int| 0 <= x < len ==> 0 <= #[trigger] r[x] < len && q[r[x]] == x
    &&& forall|y: int| 0 <= y < len ==> r[#[trigger] q[y] as int] == y
}

/// The state of `invert_in_place` before index `n` is scanned: the entries
/// before `n` are final, each later one is either untouched or marked, and the
/// handled indices are closed under the permutation and its inverse.
spec fn scan_inv(s: Seq<usize>, q: Seq<usize>, r: Seq<int>, n: int) -> bool {
    let len = q.len() as int;
    &&& s.len() == len
    &&& forall|x: int| 0 <= x < n ==> #[trigger] s[x] == r[x]
    &&& forall|x: int| n <= x < len ==> (#[trigger] s[x] == q[x] || s[x] == usize::MAX - r[x])
    &&& forall|y: int|
        0 <= y < len && #[trigger] done(s, n, y) ==> done(s, n, q[y] as int) && done(s, n, r[y])
}

/// The state of `invert_in_place` while it walks the cycle of `n`: `k` is the
/// last index marked (or `n`), and `i = q[k]` is the next one to mark.
spec fn walk_inv(s: Seq<usize>, q: Seq<usize>, r: Seq<int>, n: int, i: int, k: int) -> bool {
    let len = q.len() as int;
    &&& s.len() == len
    &&& 0 <= n < len
    &&& s[n] == q[n]
    &&& forall|x: int| 0 <= x < n ==> #[trigger] s[x] == r[x]
    &&& forall|x: int| n < x < len ==> (#[trigger] s[x] == q[x] || s[x] == usize::MAX - r[x])
    &&& 0 <= i < len
    &&& i != n
    &&& !done(s, n, i)
    &&& 0 <= k < len
    &&& q[k] == i
    &&& (k == n || done(s, n, k))
    &&& (done(s, n, q[n] as int) || q[n] == i)
    &&& forall|y: int|
        0 <= y < len && #[trigger] done(s, n, y) ==> (done(s, n, r[y]) || r[y] == n) && (done(
            s,
            n,
            q[y] as int,
        ) || y == k)
}

/// Inverts the permutation `perm` in place, using the top bit of each entry as
/// a visited mark: a visited entry holds the bitwise complement of its final
/// value (`usize::MAX - v`) until the scan reaches it.
pub fn invert_in_place(perm: &mut Vec<usize>)
    requires
        is_perm(old(perm)@),
        old(perm)@.len() <= usize::MAX / 2 + 1,
    ensures
        is_perm(final(perm)@),
        is_inverse(final(perm)@, old(perm)@),
{
    let ghost q = perm@;
    let ghost len = q.len() as int;
    let len_exec = perm.len();
    let ghost r = Seq::new(q.len(), |x: int| choose|y: int| 0 <= y < len && q[y] == x);
    proof {
        assert forall|x: int| 0 <= x < len implies 0 <= #[trigger] r[x] < len && q[r[x]] == x by {
            lemma_injective_onto(q, x);
        }
        assert forall|y: int| 0 <= y < len implies r[#[trigger] q[y] as int] == y by {
            let x = q[y] as int;
            assert(q[r[x]] == x);
            assert(q[y] != q[r[x]] ==> y == r[x]);
        }
        assert(scan_inv(perm@, q, r, 0));
    }
    let mut n: usize = 0;
    while n < len_exec
        invariant
            len == perm@.len(),
            len_exec == len,
            n <= len,
            is_perm(q),
            len <= usize::MAX / 2 + 1,
            inverse_pair(q, r, len),
            scan_inv(perm@, q, r, n as int),
        decreases len - n,
    {
        let ghost s0 = perm@;
        let mut i = perm[n];
        if i > usize::MAX / 2 {
            perm.set(n, usize::MAX - i);
            proof {
                assert forall|y: int| 0 <= y < len implies #[trigger] done(perm@, n + 1, y) == done(
                    s0,
                    n as int,
                    y,
                ) by {}
            }
        } else if i != n {
            let ghost nn = n as int;
            proof {
                assert(i == q[nn]);
                assert forall|y: int| 0 <= y < len && #[trigger] done(perm@, nn, y) implies (done(
                    perm@,
                    nn,
                    r[y],
                ) || r[y] == nn) && (done(perm@, nn, q[y] as int) || y == nn) by {}
                assert(!done(perm@, nn, i as int)) by {
                    if done(perm@, nn, i as int) {
                        assert(done(perm@, nn, r[i as int]));
                        assert(r[i as int] == nn);
                    }
                }
            }
            let mut k = n;
            loop
                invariant_except_break
                    walk_inv(perm@, q, r, nn, i as int, k as int),
                invariant
                    len == perm@.len(),
                    len_exec == len,
                    len <= usize::MAX / 2 + 1,
                    is_perm(q),
                    inverse_pair(q, r, len),
                    nn == n,
                ensures
                    scan_inv(perm@, q, r, nn + 1),
                decreases unmarked_count(perm@),
            {
                let ghost s1 = perm@;
                let j = perm[i];
                proof {
                    assert(r[i as int] == k);
                    assert(j == q[i as int]);
                }
                perm.set(i, usize::MAX - k);
                proof {
                    lemma_mark_one(s1, i as int, (usize::MAX - k) as usize);
                }
                if j == n {
                    let ghost s2 = perm@;
                    perm.set(n, i);
                    proof {
                        assert(r[nn] == i);
                        assert forall|y: int| 0 <= y < len implies #[trigger] done(
                            perm@,
                            nn + 1,
                            y,
                        ) == (done(s1, nn, y) || y == i || y == nn) by {}
                        assert forall|y: int|
                            0 <= y < len && #[trigger] done(perm@, nn + 1, y) implies done(
                            perm@,
                            nn + 1,
                            q[y] as int,
                        ) && done(perm@, nn + 1, r[y]) by {
                            assert(done(s1, nn, y) || y == i || y == nn);
                            assert(done(perm@, nn + 1, r[y]) == (done(s1, nn, r[y]) || r[y] == i
                                || r[y] == nn));
                            assert(done(perm@, nn + 1, q[y] as int) == (done(s1, nn, q[y] as int)
                                || q[y] == i || q[y] == nn));
                        }
                    }
                    break ;
                }
                proof {
                    assert(j != i) by {
                        if j == i {
                            assert(r[i as int] == i);
                        }
                    }
                    assert(!done(s1, nn, j as int)) by {
                        if done(s1, nn, j as int) {
                            assert(r[j as int] == i);
                        }
                    }
                    assert forall|y: int| 0 <= y < len implies #[trigger] done(perm@, nn, y) == (
                    done(s1, nn, y) || y == i) by {}
                    assert forall|y: int| 0 <= y < len && #[trigger] done(perm@, nn, y) implies (
                    done(perm@, nn, r[y]) || r[y] == nn) && (done(perm@, nn, q[y] as int) || y
                        == i) by {
                        assert(done(perm@, nn, r[y]) == (done(s1, nn, r[y]) || r[y] == i));
                        assert(done(perm@, nn, q[y] as int) == (done(s1, nn, q[y] as int) || q[y]
                            == i));
                    }
                    assert(done(perm@, nn, q[nn] as int) == (done(s1, nn, q[nn] as int) || q[nn]
                        == i));
                }
                k = i;
                i = j;
            }
        } else {
            proof {
                assert(q[n as int] == n);
                assert(r[n as int] == n);
                assert forall|y: int| 0 <= y < len implies #[trigger] done(perm@, n + 1, y) == (done(
                    s0,
                    n as int,
                    y,
                ) || y == n) by {}
                assert forall|y: int|
                    0 <= y < len && #[trigger] done(perm@, n + 1, y) implies done(
                    perm@,
                    n + 1,
                    q[y] as int,
                ) && done(perm@, n + 1, r[y]) by {
                    assert(done(perm@, n + 1, r[y]) == (done(s0, n as int, r[y]) || r[y] == n));
                    assert(done(perm@, n + 1, q[y] as int) == (done(s0, n as int, q[y] as int)
                        || q[y] == n));
                }
            }
        }
        n = n + 1;
    }
    proof {
        assert forall|i: int| 0 <= i < len implies perm@[#[trigger] q[i] as int] == i by {
            assert(perm@[q[i] as int] == r[q[i] as int]);
        }
        assert forall|i: int| 0 <= i < len implies (#[trigger] perm@[i] as int) < len by {
            assert(perm@[i] == r[i]);
        }
        lemma_inverse_is_perm(perm@, q);
    }
}

} // verus!
