//! Sorting rows by a lexicographic key of five integers.

use vstd::prelude::*;

verus! {

/// A lexicographic sort key.
pub type SortKey = (u64, u64, u64, u64, u64);

/// Strict lexicographic order on keys.
pub open spec fn key_lt(a: SortKey, b: SortKey) -> bool {
    a.0 < b.0 || (a.0 == b.0 && (a.1 < b.1 || (a.1 == b.1 && (a.2 < b.2 || (a.2 == b.2 && (a.3 < b.3
        || (a.3 == b.3 && a.4 < b.4)))))))
}

/// Whether `a` sorts strictly before `b`.
pub fn key_less(a: SortKey, b: SortKey) -> (r: bool)
    ensures
        r == key_lt(a, b),
{
    a.0 < b.0 || (a.0 == b.0 && (a.1 < b.1 || (a.1 == b.1 && (a.2 < b.2 || (a.2 == b.2 && (a.3 < b.3
        || (a.3 == b.3 && a.4 < b.4)))))))
}

/// The key order is a strict total order.
pub proof fn lemma_key_order(a: SortKey, b: SortKey, c: SortKey)
    ensures
        !key_lt(a, a),
        key_lt(a, b) ==> !key_lt(b, a),
        key_lt(a, b) && key_lt(b, c) ==> key_lt(a, c),
        !key_lt(a, b) && key_lt(c, b) ==> key_lt(c, a),
        !key_lt(b, a) && key_lt(c, a) ==> !key_lt(b, c),
        a != b ==> key_lt(a, b) || key_lt(b, a),
{
}

/// Rows whose keys are pairwise distinct.
pub open spec fn keys_distinct<T>(s: Seq<(SortKey, T)>) -> bool {
    forall|i: int, j: int| 0 <= i < j < s.len() ==> s[i].0 != s[j].0
}

/// Sorts rows by key (stable insertion sort). The result is a permutation
/// of the input, given by `perm` (result position to input position) and
/// `inv` (its inverse), in non-decreasing key order — strictly increasing
/// when the input keys are pairwise distinct.
pub fn sort_rows<T>(v: Vec<(SortKey, T)>) -> (out: (Vec<(SortKey, T)>, Ghost<Seq<int>>, Ghost<Seq<int>>))
    ensures
        out.0@.len() == v@.len(),
        out.1@.len() == v@.len(),
        out.2@.len() == v@.len(),
        forall|k: int| 0 <= k < v@.len() ==> 0 <= #[trigger] out.1@[k] < v@.len() && out.0@[k] == v@[out.1@[k]]
            && out.2@[out.1@[k]] == k,
        forall|j: int| 0 <= j < v@.len() ==> 0 <= #[trigger] out.2@[j] < v@.len() && out.1@[out.2@[j]] == j,
        forall|a: int, b: int| 0 <= a < b < v@.len() ==> !key_lt(out.0@[b].0, out.0@[a].0),
        keys_distinct(v@) ==> forall|a: int, b: int| 0 <= a < b < v@.len() ==> key_lt(out.0@[a].0, out.0@[b].0),
        forall|a: int, b: int| 0 <= a < b < v@.len() && out.0@[a].0 == out.0@[b].0 ==> out.1@[a] < out.1@[b],
{
    let ghost orig = v@;
    let n = v.len();
    let mut v = v;
    let mut r: Vec<(SortKey, T)> = Vec::new();
    let ghost mut perm: Seq<int> = Seq::empty();
    let ghost mut inv: Seq<int> = Seq::empty();
    let mut i: usize = 0;
    while i < n
        invariant
            n == orig.len(),
            i <= n,
            v@ == orig.skip(i as int),
            r@.len() == i,
            perm.len() == i,
            inv.len() == i,
            forall|k: int| 0 <= k < i ==> 0 <= #[trigger] perm[k] < i && r@[k] == orig[perm[k]] && inv[perm[k]] == k,
            forall|j: int| 0 <= j < i ==> 0 <= #[trigger] inv[j] < i && perm[inv[j]] == j,
            forall|a: int, b: int| 0 <= a < b < i ==> !key_lt(r@[b].0, r@[a].0),
            keys_distinct(orig) ==> forall|a: int, b: int| 0 <= a < b < i ==> key_lt(r@[a].0, r@[b].0),
            forall|a: int, b: int| 0 <= a < b < i && r@[a].0 == r@[b].0 ==> perm[a] < perm[b],
        decreases n - i,
    {
        let e = v.remove(0);
        proof { assert(e == orig[i as int]); assert(v@ =~= orig.skip(i + 1)); }
        let mut p: usize = 0;
        while p < r.len() && !key_less(e.0, r[p].0)
            invariant
                p <= r@.len(),
                forall|q: int| 0 <= q < p ==> !key_lt(e.0, r@[q].0),
            decreases r@.len() - p,
        {
            p = p + 1;
        }
        let ghost old_r = r@;
        let ghost old_perm = perm;
        let ghost old_inv = inv;
        r.insert(p, e);
        proof {
            perm = old_perm.insert(p as int, i as int);
            inv = Seq::new(i as nat, |j: int| if old_inv[j] >= p { old_inv[j] + 1 } else { old_inv[j] }).push(p as int);
            assert forall|k: int| 0 <= k < i + 1 implies 0 <= #[trigger] perm[k] < i + 1 && r@[k] == orig[perm[k]] && inv[perm[k]] == k by {
                if k < p {
                    assert(perm[k] == old_perm[k]);
                    assert(r@[k] == old_r[k]);
                } else if k == p {
                } else {
                    assert(perm[k] == old_perm[k - 1]);
                    assert(r@[k] == old_r[k - 1]);
                }
            }
            assert forall|j: int| 0 <= j < i + 1 implies 0 <= #[trigger] inv[j] < i + 1 && perm[inv[j]] == j by {
                if j < i {
                    let oj = old_inv[j];
                    if oj >= p {
                        assert(perm[oj + 1] == old_perm[oj]);
                    } else {
                        assert(perm[oj] == old_perm[oj]);
                    }
                }
            }
            assert forall|a: int, b: int| 0 <= a < b < i + 1 implies !key_lt(r@[b].0, r@[a].0) by {
                if b < p {
                    assert(r@[a] == old_r[a] && r@[b] == old_r[b]);
                } else if b == p {
                    assert(r@[a] == old_r[a]);
                } else if a < p {
                    assert(r@[a] == old_r[a] && r@[b] == old_r[b - 1]);
                    assert(!key_lt(old_r[b - 1].0, old_r[p as int].0) || b - 1 == p);
                } else if a == p {
                    assert(r@[b] == old_r[b - 1]);
                    assert(key_lt(e.0, old_r[p as int].0));
                    lemma_key_order(old_r[p as int].0, old_r[b - 1].0, e.0);
                    if b - 1 > p {
                        assert(!key_lt(old_r[b - 1].0, old_r[p as int].0));
                    }
                } else {
                    assert(r@[a] == old_r[a - 1] && r@[b] == old_r[b - 1]);
                }
            }
            assert forall|a: int, b: int| 0 <= a < b < i + 1 && r@[a].0 == r@[b].0 implies perm[a] < perm[b] by {
                if b < p {
                    assert(r@[a] == old_r[a] && r@[b] == old_r[b]);
                    assert(perm[a] == old_perm[a] && perm[b] == old_perm[b]);
                } else if b == p {
                    assert(perm[a] == old_perm[a]);
                } else if a < p {
                    assert(r@[a] == old_r[a] && r@[b] == old_r[b - 1]);
                    assert(perm[a] == old_perm[a] && perm[b] == old_perm[b - 1]);
                } else if a == p {
                    assert(r@[b] == old_r[b - 1]);
                    assert(key_lt(e.0, old_r[p as int].0));
                    if b - 1 > p {
                        assert(!key_lt(old_r[b - 1].0, old_r[p as int].0));
                    }
                    lemma_key_order(e.0, old_r[p as int].0, old_r[b - 1].0);
                    assert(false);
                } else {
                    assert(r@[a] == old_r[a - 1] && r@[b] == old_r[b - 1]);
                    assert(perm[a] == old_perm[a - 1] && perm[b] == old_perm[b - 1]);
                }
            }
            if keys_distinct(orig) {
                assert forall|a: int, b: int| 0 <= a < b < i + 1 implies key_lt(r@[a].0, r@[b].0) by {
                    if b < p {
                        assert(r@[a] == old_r[a] && r@[b] == old_r[b]);
                    } else if b == p {
                        assert(r@[a] == old_r[a]);
                        assert(old_r[a] == orig[old_perm[a]]);
                        assert(orig[old_perm[a]].0 != orig[i as int].0);
                        lemma_key_order(old_r[a].0, e.0, e.0);
                    } else if a < p {
                        assert(r@[a] == old_r[a] && r@[b] == old_r[b - 1]);
                        if b - 1 > a {
                        } else {
                            assert(false);
                        }
                    } else if a == p {
                        assert(r@[b] == old_r[b - 1]);
                        lemma_key_order(e.0, old_r[p as int].0, old_r[b - 1].0);
                        if b - 1 > p {
                            assert(key_lt(old_r[p as int].0, old_r[b - 1].0));
                        }
                    } else {
                        assert(r@[a] == old_r[a - 1] && r@[b] == old_r[b - 1]);
                    }
                }
            }
        }
        i = i + 1;
    }
    (r, Ghost(perm), Ghost(inv))
}

/// Drops the keys of sorted rows, keeping the values in order.
pub fn strip_keys<T>(v: Vec<(SortKey, T)>) -> (r: Vec<T>)
    ensures
        r@.len() == v@.len(),
        forall|i: int| 0 <= i < v@.len() ==> #[trigger] r@[i] == v@[i].1,
{
    let ghost sv = v@;
    let total = v.len();
    let mut v = v;
    let mut r: Vec<T> = Vec::new();
    let mut k: usize = 0;
    while k < total
        invariant
            total == sv.len(),
            k <= sv.len(),
            v@ == sv.skip(k as int),
            r@.len() == k,
            forall|x: int| 0 <= x < k ==> r@[x] == #[trigger] sv[x].1,
        decreases sv.len() - k,
    {
        let (_, t) = v.remove(0);
        proof { assert(v@ =~= sv.skip(k + 1)); }
        r.push(t);
        k = k + 1;
    }
    r
}

} // verus!
