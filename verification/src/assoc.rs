use vstd::prelude::*;

verus! {

/// No key stands twice in the table `s`.
pub open spec fn distinct_keys<K, V>(s: Seq<(K, V)>) -> bool {
    forall|i: int, j: int| 0 <= i < j < s.len() ==> (#[trigger] s[i]).0 != (#[trigger] s[j]).0
}

/// Some row of the table `s` has the key `k`.
pub open spec fn has_key<K, V>(s: Seq<(K, V)>, k: K) -> bool {
    exists|i: int| 0 <= i < s.len() && (#[trigger] s[i]).0 == k
}

/// A row of the table `s` that has the key `k`.
pub open spec fn row_of<K, V>(s: Seq<(K, V)>, k: K) -> int {
    choose|i: int| 0 <= i < s.len() && (#[trigger] s[i]).0 == k
}

/// The mapping that the table `s` stands for.
pub open spec fn table_map<K, V>(s: Seq<(K, V)>) -> Map<K, V> {
    Map::new(|k: K| has_key(s, k), |k: K| s[row_of(s, k)].1)
}

/// The keys of the table `s`, row by row.
pub open spec fn table_keys<K, V>(s: Seq<(K, V)>) -> Seq<K> {
    s.map_values(|row: (K, V)| row.0)
}

/// Each row of a table without repeated keys is under its key in the
/// mapping, and is the only row with that key.
pub proof fn lemma_table_row<K, V>(s: Seq<(K, V)>, i: int)
    requires
        distinct_keys(s),
        0 <= i < s.len(),
    ensures
        table_map(s).contains_key(s[i].0),
        table_map(s)[s[i].0] == s[i].1,
        row_of(s, s[i].0) == i,
{
    let k = s[i].0;
    assert(has_key(s, k));
    let r = row_of(s, k);
    if r < i {
        assert(s[r].0 != s[i].0);
    } else if i < r {
        assert(s[i].0 != s[r].0);
    }
}

/// The keys of a table without repeated keys are the keys of its mapping,
/// each once.
pub proof fn lemma_table_keys<K, V>(s: Seq<(K, V)>)
    requires
        distinct_keys(s),
    ensures
        table_keys(s).no_duplicates(),
        table_keys(s).len() == s.len(),
        forall|k: K| table_keys(s).contains(k) <==> table_map(s).contains_key(k),
{
    let keys = table_keys(s);
    assert forall|i: int, j: int| 0 <= i < keys.len() && 0 <= j < keys.len() && i != j implies keys[i]
        != keys[j] by {
        if i < j {
            assert(s[i].0 != s[j].0);
        } else {
            assert(s[j].0 != s[i].0);
        }
    }
    assert forall|k: K| keys.contains(k) <==> table_map(s).contains_key(k) by {
        if keys.contains(k) {
            let i = choose|i: int| 0 <= i < keys.len() && keys[i] == k;
            assert(s[i].0 == k);
        }
        if table_map(s).contains_key(k) {
            let i = row_of(s, k);
            assert(keys[i] == k);
        }
    }
}

/// A new last row under a key that the table lacks puts the key into the
/// mapping and behind all other keys.
pub proof fn lemma_table_push<K, V>(s: Seq<(K, V)>, k: K, v: V)
    requires
        distinct_keys(s),
        !has_key(s, k),
    ensures
        distinct_keys(s.push((k, v))),
        table_map(s.push((k, v))) == table_map(s).insert(k, v),
        table_keys(s.push((k, v))) == table_keys(s).push(k),
{
    let t = s.push((k, v));
    assert forall|i: int, j: int| 0 <= i < j < t.len() implies (#[trigger] t[i]).0 != (
    #[trigger] t[j]).0 by {
        if j < s.len() {
            assert(s[i].0 != s[j].0);
        } else {
            assert(t[i] == s[i]);
        }
    }
    assert(t[s.len() as int] == (k, v));
    assert forall|x: K| has_key(t, x) <==> (x == k || has_key(s, x)) by {
        if has_key(t, x) {
            let i = row_of(t, x);
            if i < s.len() {
                assert(s[i].0 == x);
            }
        }
        if has_key(s, x) {
            let i = row_of(s, x);
            assert(t[i].0 == x);
        }
    }
    assert forall|x: K| has_key(t, x) implies #[trigger] table_map(t)[x] == table_map(s).insert(
        k,
        v,
    )[x] by {
        let i = row_of(t, x);
        lemma_table_row(t, i);
        if i < s.len() {
            assert(t[i] == s[i]);
            lemma_table_row(s, i);
        }
    }
    assert(table_map(t) =~= table_map(s).insert(k, v));
    assert(table_keys(t) =~= table_keys(s).push(k));
}

/// A new value in a row changes the mapping at the key of the row and
/// nowhere else, and leaves the keys as they stand.
pub proof fn lemma_table_update<K, V>(s: Seq<(K, V)>, i: int, v: V)
    requires
        distinct_keys(s),
        0 <= i < s.len(),
    ensures
        distinct_keys(s.update(i, (s[i].0, v))),
        table_map(s.update(i, (s[i].0, v))) == table_map(s).insert(s[i].0, v),
        table_keys(s.update(i, (s[i].0, v))) == table_keys(s),
{
    let k = s[i].0;
    let t = s.update(i, (k, v));
    assert forall|a: int, b: int| 0 <= a < b < t.len() implies (#[trigger] t[a]).0 != (
    #[trigger] t[b]).0 by {
        assert(s[a].0 != s[b].0);
        assert(t[a].0 == s[a].0 && t[b].0 == s[b].0);
    }
    assert forall|x: K| has_key(t, x) <==> has_key(s, x) by {
        if has_key(t, x) {
            let r = row_of(t, x);
            assert(s[r].0 == x);
        }
        if has_key(s, x) {
            let r = row_of(s, x);
            assert(t[r].0 == x);
        }
    }
    assert(has_key(s, k));
    assert forall|x: K| has_key(t, x) implies #[trigger] table_map(t)[x] == table_map(s).insert(
        k,
        v,
    )[x] by {
        let r = row_of(t, x);
        lemma_table_row(t, r);
        lemma_table_row(s, r);
        if r != i {
            assert(t[r] == s[r]);
            assert(s[r].0 != k) by {
                if r < i {
                    assert(s[r].0 != s[i].0);
                } else {
                    assert(s[i].0 != s[r].0);
                }
            }
        }
    }
    assert(table_map(t) =~= table_map(s).insert(k, v));
    assert(table_keys(t) =~= table_keys(s));
}

/// Taking a row out takes its key out of the mapping and out of the keys.
pub proof fn lemma_table_remove<K, V>(s: Seq<(K, V)>, i: int)
    requires
        distinct_keys(s),
        0 <= i < s.len(),
    ensures
        distinct_keys(s.remove(i)),
        table_map(s.remove(i)) == table_map(s).remove(s[i].0),
        table_keys(s.remove(i)) == table_keys(s).remove(i),
        !has_key(s.remove(i), s[i].0),
{
    let k = s[i].0;
    let t = s.remove(i);
    assert forall|a: int| 0 <= a < t.len() implies #[trigger] t[a] == s[if a < i {
        a
    } else {
        a + 1
    }] by {}
    assert forall|a: int, b: int| 0 <= a < b < t.len() implies (#[trigger] t[a]).0 != (
    #[trigger] t[b]).0 by {
        let a0 = if a < i {
            a
        } else {
            a + 1
        };
        let b0 = if b < i {
            b
        } else {
            b + 1
        };
        assert(s[a0].0 != s[b0].0);
    }
    assert forall|a: int| 0 <= a < t.len() implies (#[trigger] t[a]).0 != k by {
        if a < i {
            assert(s[a].0 != s[i].0);
        } else {
            assert(s[i].0 != s[a + 1].0);
        }
    }
    assert forall|x: K| has_key(t, x) <==> (x != k && has_key(s, x)) by {
        if has_key(t, x) {
            let r = row_of(t, x);
            let r0 = if r < i {
                r
            } else {
                r + 1
            };
            assert(s[r0].0 == x);
        }
        if x != k && has_key(s, x) {
            let r = row_of(s, x);
            if r < i {
                assert(t[r].0 == x);
            } else {
                assert(t[r - 1].0 == x);
            }
        }
    }
    assert forall|x: K| has_key(t, x) implies #[trigger] table_map(t)[x] == table_map(s).remove(
        k,
    )[x] by {
        let r = row_of(t, x);
        let r0 = if r < i {
            r
        } else {
            r + 1
        };
        lemma_table_row(t, r);
        lemma_table_row(s, r0);
    }
    assert(table_map(t) =~= table_map(s).remove(k));
    assert(table_keys(t) =~= table_keys(s).remove(i));
}

/// The table `s` with `v` under the key `k`: in the row that has the key,
/// or in a new last row.
pub open spec fn table_put<K, V>(s: Seq<(K, V)>, k: K, v: V) -> Seq<(K, V)> {
    if has_key(s, k) {
        s.update(row_of(s, k), (k, v))
    } else {
        s.push((k, v))
    }
}

/// Putting a value under a key is an insertion into the mapping.
pub proof fn lemma_table_put<K, V>(s: Seq<(K, V)>, k: K, v: V)
    requires
        distinct_keys(s),
    ensures
        distinct_keys(table_put(s, k, v)),
        table_map(table_put(s, k, v)) == table_map(s).insert(k, v),
{
    if has_key(s, k) {
        lemma_table_update(s, row_of(s, k), v);
    } else {
        lemma_table_push(s, k, v);
    }
}

/// In a sequence without repetition, taking a value out is taking out the
/// place where it stands.
pub proof fn lemma_remove_value_at<A>(s: Seq<A>, i: int)
    requires
        s.no_duplicates(),
        0 <= i < s.len(),
    ensures
        s.remove_value(s[i]) == s.remove(i),
        s.remove(i).no_duplicates(),
        !s.remove(i).contains(s[i]),
        forall|x: A| x != s[i] ==> (s.remove(i).contains(x) <==> s.contains(x)),
{
    s.index_of_first_ensures(s[i]);
    assert(s.contains(s[i]));
    let t = s.remove(i);
    assert forall|a: int| 0 <= a < t.len() implies #[trigger] t[a] == s[if a < i {
        a
    } else {
        a + 1
    }] by {}
    assert forall|x: A| x != s[i] implies (t.contains(x) <==> s.contains(x)) by {
        if s.contains(x) {
            let k = choose|k: int| 0 <= k < s.len() && s[k] == x;
            if k < i {
                assert(t[k] == x);
            } else {
                assert(t[k - 1] == x);
            }
        }
    }
}

/// A value that is not in a sequence is not taken out of it.
pub proof fn lemma_remove_value_absent<A>(s: Seq<A>, x: A)
    requires
        !s.contains(x),
    ensures
        s.remove_value(x) == s,
{
    s.index_of_first_ensures(x);
}

} // verus!
