//! Keyed tables: vectors of `(key, value)` pairs with distinct keys, viewed
//! as maps.

use vstd::prelude::*;

verus! {

/// No key occurs twice.
pub open spec fn table_distinct<K, V>(s: Seq<(K, V)>) -> bool {
    forall|i: int, j: int| 0 <= i < j < s.len() ==> s[i].0 != s[j].0
}

/// The map a table denotes.
pub open spec fn table_map<K, V>(s: Seq<(K, V)>) -> Map<K, V>
    decreases s.len(),
{
    if s.len() == 0 {
        Map::empty()
    } else {
        table_map(s.drop_last()).insert(s.last().0, s.last().1)
    }
}

/// Every entry of a table with distinct keys is in its map.
pub proof fn lemma_table_get<K, V>(s: Seq<(K, V)>, i: int)
    requires
        table_distinct(s),
        0 <= i < s.len(),
    ensures
        table_map(s).contains_key(s[i].0),
        table_map(s)[s[i].0] == s[i].1,
    decreases s.len(),
{
    if i != s.len() - 1 {
        assert(s.drop_last()[i] == s[i]);
        lemma_table_get(s.drop_last(), i);
    }
}

/// A table's map holds exactly the table's keys.
pub proof fn lemma_table_dom<K, V>(s: Seq<(K, V)>, k: K)
    ensures
        table_map(s).contains_key(k) <==> exists|i: int| 0 <= i < s.len() && s[i].0 == k,
    decreases s.len(),
{
    if s.len() > 0 {
        lemma_table_dom(s.drop_last(), k);
        if table_map(s.drop_last()).contains_key(k) {
            let i = choose|i: int| 0 <= i < s.drop_last().len() && s.drop_last()[i].0 == k;
            assert(s[i].0 == k);
        }
        if exists|i: int| 0 <= i < s.len() && s[i].0 == k {
            let i = choose|i: int| 0 <= i < s.len() && s[i].0 == k;
            if i < s.len() - 1 {
                assert(s.drop_last()[i].0 == k);
            }
        }
    }
}

/// Finds the position of key `k`.
pub fn table_find<V>(t: &Vec<(u64, V)>, k: u64) -> (r: Option<usize>)
    requires
        table_distinct(t@),
    ensures
        match r {
            Some(i) => i < t@.len() && t@[i as int].0 == k && table_map(t@).contains_key(k)
                && table_map(t@)[k] == t@[i as int].1,
            None => !table_map(t@).contains_key(k),
        },
{
    let mut i: usize = 0;
    while i < t.len()
        invariant
            i <= t@.len(),
            forall|j: int| 0 <= j < i ==> t@[j].0 != k,
        decreases t@.len() - i,
    {
        if t[i].0 == k {
            proof { lemma_table_get(t@, i as int); }
            return Some(i);
        }
        i = i + 1;
    }
    proof { lemma_table_dom(t@, k); }
    None
}

/// Adding an entry for a fresh key.
pub proof fn lemma_table_push<K, V>(s: Seq<(K, V)>, k: K, v: V)
    requires
        table_distinct(s),
        !table_map(s).contains_key(k),
    ensures
        table_distinct(s.push((k, v))),
        table_map(s.push((k, v))) == table_map(s).insert(k, v),
{
    let t = s.push((k, v));
    assert(t.drop_last() =~= s);
    assert forall|i: int, j: int| 0 <= i < j < t.len() implies t[i].0 != t[j].0 by {
        if j == s.len() {
            lemma_table_get(s, i);
        }
    }
}

/// Moving an entry to the back with a new value.
pub proof fn lemma_table_replace<K, V>(s: Seq<(K, V)>, i: int, v: V)
    requires
        table_distinct(s),
        0 <= i < s.len(),
    ensures
        table_distinct(s.remove(i).push((s[i].0, v))),
        table_map(s.remove(i).push((s[i].0, v))) == table_map(s).insert(s[i].0, v),
{
    let k = s[i].0;
    let r = s.remove(i);
    assert(table_distinct(r)) by {
        assert forall|a: int, b: int| 0 <= a < b < r.len() implies r[a].0 != r[b].0 by {
            let a2 = if a < i { a } else { a + 1 };
            let b2 = if b < i { b } else { b + 1 };
            assert(r[a] == s[a2]);
            assert(r[b] == s[b2]);
        }
    }
    assert(!table_map(r).contains_key(k)) by {
        lemma_table_dom(r, k);
        if exists|j: int| 0 <= j < r.len() && r[j].0 == k {
            let j = choose|j: int| 0 <= j < r.len() && r[j].0 == k;
            let j2 = if j < i { j } else { j + 1 };
            assert(r[j] == s[j2]);
        }
    }
    lemma_table_push(r, k, v);
    assert forall|q: K| #![trigger table_map(s).contains_key(q)] #![trigger table_map(r).contains_key(q)] q != k implies
        (table_map(r).contains_key(q) <==> table_map(s).contains_key(q))
        && (table_map(r).contains_key(q) ==> table_map(r)[q] == table_map(s)[q]) by {
        lemma_table_dom(r, q);
        lemma_table_dom(s, q);
        if exists|j: int| 0 <= j < s.len() && s[j].0 == q {
            let j = choose|j: int| 0 <= j < s.len() && s[j].0 == q;
            assert(j != i);
            let j2 = if j < i { j } else { j - 1 };
            assert(r[j2] == s[j]);
            lemma_table_get(r, j2);
            lemma_table_get(s, j);
        }
        if exists|j: int| 0 <= j < r.len() && r[j].0 == q {
            let j = choose|j: int| 0 <= j < r.len() && r[j].0 == q;
            let j2 = if j < i { j } else { j + 1 };
            assert(r[j] == s[j2]);
        }
    }
    assert(table_map(r).insert(k, v) =~= table_map(s).insert(k, v)) by {
        assert forall|q: K| #[trigger] table_map(r).insert(k, v).contains_key(q)
            == table_map(s).insert(k, v).contains_key(q) by {
            if q != k {
                assert(table_map(s).contains_key(q) == table_map(r).contains_key(q));
            }
        }
    }
}

/// Takes the value stored under the key at position `i` out of the table.
pub fn table_take<V>(t: &mut Vec<(u64, V)>, i: usize) -> (r: (u64, V))
    requires
        table_distinct(old(t)@),
        i < old(t)@.len(),
    ensures
        r == old(t)@[i as int],
        final(t)@ == old(t)@.remove(i as int),
{
    t.remove(i)
}

/// Writes `v` under key `k`, inserting or replacing.
pub fn table_put<V>(t: &mut Vec<(u64, V)>, k: u64, v: V)
    requires
        table_distinct(old(t)@),
    ensures
        table_distinct(final(t)@),
        table_map(final(t)@) == table_map(old(t)@).insert(k, v),
{
    match table_find(t, k) {
        Some(i) => {
            let ghost s = t@;
            let _ = t.remove(i);
            t.push((k, v));
            proof { lemma_table_replace(s, i as int, v); }
        },
        None => {
            let ghost s = t@;
            t.push((k, v));
            proof { lemma_table_push(s, k, v); }
        },
    }
}

} // verus!

verus! {

/// Two tables with distinct keys holding the same entries denote the same
/// map.
pub proof fn lemma_table_same_entries<K, V>(s: Seq<(K, V)>, t: Seq<(K, V)>)
    requires
        table_distinct(s),
        table_distinct(t),
        forall|i: int| 0 <= i < s.len() ==> t.contains(#[trigger] s[i]),
        forall|j: int| 0 <= j < t.len() ==> s.contains(#[trigger] t[j]),
    ensures
        table_map(s) == table_map(t),
{
    assert forall|k: K| #[trigger] table_map(s).contains_key(k) == table_map(t).contains_key(k)
        && (table_map(s).contains_key(k) ==> table_map(s)[k] == table_map(t)[k]) by {
        lemma_table_dom(s, k);
        lemma_table_dom(t, k);
        if exists|i: int| 0 <= i < s.len() && s[i].0 == k {
            let i = choose|i: int| 0 <= i < s.len() && s[i].0 == k;
            assert(t.contains(s[i]));
            let j = choose|j: int| 0 <= j < t.len() && t[j] == s[i];
            lemma_table_get(s, i);
            lemma_table_get(t, j);
        }
        if exists|j: int| 0 <= j < t.len() && t[j].0 == k {
            let j = choose|j: int| 0 <= j < t.len() && t[j].0 == k;
            assert(s.contains(t[j]));
        }
    }
    assert(table_map(s) =~= table_map(t));
}


/// Rewriting the value at position `i`.
pub proof fn lemma_table_update<K, V>(s: Seq<(K, V)>, i: int, v: V)
    requires
        table_distinct(s),
        0 <= i < s.len(),
    ensures
        table_distinct(s.update(i, (s[i].0, v))),
        table_map(s.update(i, (s[i].0, v))) == table_map(s).insert(s[i].0, v),
{
    let t = s.update(i, (s[i].0, v));
    let u = s.remove(i).push((s[i].0, v));
    lemma_table_replace(s, i, v);
    assert forall|a: int| 0 <= a < t.len() implies u.contains(#[trigger] t[a]) by {
        if a == i {
            assert(u[u.len() - 1] == t[a]);
        } else if a < i {
            assert(u[a] == t[a]);
        } else {
            assert(u[a - 1] == t[a]);
        }
    }
    assert forall|b: int| 0 <= b < u.len() implies t.contains(#[trigger] u[b]) by {
        if b == u.len() - 1 {
            assert(t[i] == u[b]);
        } else if b < i {
            assert(t[b] == u[b]);
        } else {
            assert(t[b + 1] == u[b]);
        }
    }
    lemma_table_same_entries(t, u);
}

/// Inserting an entry for a fresh key at position `i`.
pub proof fn lemma_table_insert_at<K, V>(s: Seq<(K, V)>, i: int, e: (K, V))
    requires
        table_distinct(s),
        0 <= i <= s.len(),
        forall|j: int| 0 <= j < s.len() ==> s[j].0 != e.0,
    ensures
        table_distinct(s.insert(i, e)),
        table_map(s.insert(i, e)) == table_map(s).insert(e.0, e.1),
{
    let t = s.insert(i, e);
    let u = s.push(e);
    lemma_table_dom(s, e.0);
    lemma_table_push(s, e.0, e.1);
    assert(table_distinct(t)) by {
        assert forall|a: int, b: int| 0 <= a < b < t.len() implies t[a].0 != t[b].0 by {
            if a < i && b < i {
            } else if a < i && b == i {
            } else if a < i {
                assert(t[b] == s[b - 1]);
            } else if a == i {
                assert(t[b] == s[b - 1]);
            } else {
                assert(t[a] == s[a - 1]);
                assert(t[b] == s[b - 1]);
            }
        }
    }
    assert forall|a: int| 0 <= a < t.len() implies u.contains(#[trigger] t[a]) by {
        if a == i {
            assert(u[u.len() - 1] == t[a]);
        } else if a < i {
            assert(u[a] == t[a]);
        } else {
            assert(u[a - 1] == t[a]);
        }
    }
    assert forall|b: int| 0 <= b < u.len() implies t.contains(#[trigger] u[b]) by {
        if b == u.len() - 1 {
            assert(t[i] == u[b]);
        } else if b < i {
            assert(t[b] == u[b]);
        } else {
            assert(t[b + 1] == u[b]);
        }
    }
    lemma_table_same_entries(t, u);
}

/// Removing the entry at position `i`.
pub proof fn lemma_table_remove<K, V>(s: Seq<(K, V)>, i: int)
    requires
        table_distinct(s),
        0 <= i < s.len(),
    ensures
        table_distinct(s.remove(i)),
        table_map(s.remove(i)) == table_map(s).remove(s[i].0),
{
    let r = s.remove(i);
    let k = s[i].0;
    assert(table_distinct(r)) by {
        assert forall|a: int, b: int| 0 <= a < b < r.len() implies r[a].0 != r[b].0 by {
            let a2 = if a < i { a } else { a + 1 };
            let b2 = if b < i { b } else { b + 1 };
            assert(r[a] == s[a2]);
            assert(r[b] == s[b2]);
        }
    }
    assert forall|q: K| #[trigger] table_map(r).contains_key(q) == table_map(s).remove(k).contains_key(q)
        && (table_map(r).contains_key(q) ==> table_map(r)[q] == table_map(s)[q]) by {
        lemma_table_dom(r, q);
        lemma_table_dom(s, q);
        if exists|j: int| 0 <= j < r.len() && r[j].0 == q {
            let j = choose|j: int| 0 <= j < r.len() && r[j].0 == q;
            let j2 = if j < i { j } else { j + 1 };
            assert(r[j] == s[j2]);
            lemma_table_get(r, j);
            lemma_table_get(s, j2);
        }
        if q != k && exists|j: int| 0 <= j < s.len() && s[j].0 == q {
            let j = choose|j: int| 0 <= j < s.len() && s[j].0 == q;
            assert(j != i);
            let j2 = if j < i { j } else { j - 1 };
            assert(r[j2] == s[j]);
        }
    }
    assert(table_map(r) =~= table_map(s).remove(k));
}

/// A table with distinct keys has as many map entries as rows.
pub proof fn lemma_table_len<K, V>(s: Seq<(K, V)>)
    requires
        table_distinct(s),
    ensures
        table_map(s).dom().finite(),
        table_map(s).dom().len() == s.len(),
    decreases s.len(),
{
    if s.len() > 0 {
        let t = s.drop_last();
        assert(table_distinct(t)) by {
            assert forall|i: int, j: int| 0 <= i < j < t.len() implies t[i].0 != t[j].0 by {
                assert(t[i] == s[i] && t[j] == s[j]);
            }
        }
        lemma_table_len(t);
        lemma_table_dom(t, s.last().0);
        if table_map(t).contains_key(s.last().0) {
            let i = choose|i: int| 0 <= i < t.len() && t[i].0 == s.last().0;
            assert(s[i].0 == s[s.len() - 1].0);
        }
    } else {
        assert(table_map(s).dom() =~= Set::empty());
    }
}
} // verus!
