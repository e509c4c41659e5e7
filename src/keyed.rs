//! Sequences of (key, value) entries with distinct keys, read as maps.
use vstd::prelude::*;

verus! {

pub open spec fn keys_distinct<K, V>(s: Seq<(K, V)>) -> bool {
    forall|i: int, j: int| 0 <= i < j < s.len() ==> s[i].0 != s[j].0
}

pub open spec fn has_key<K, V>(s: Seq<(K, V)>, k: K) -> bool {
    exists|i: int| 0 <= i < s.len() && s[i].0 == k
}

pub open spec fn index_of<K, V>(s: Seq<(K, V)>, k: K) -> int {
    choose|i: int| 0 <= i < s.len() && s[i].0 == k
}

/// The map that a sequence of entries stands for.
pub open spec fn to_map<K, V>(s: Seq<(K, V)>) -> Map<K, V> {
    Map::new(|k: K| has_key(s, k), |k: K| s[index_of(s, k)].1)
}

pub proof fn lemma_entry<K, V>(s: Seq<(K, V)>, i: int)
    requires
        keys_distinct(s),
        0 <= i < s.len(),
    ensures
        to_map(s).contains_key(s[i].0),
        to_map(s)[s[i].0] == s[i].1,
{
    assert(has_key(s, s[i].0));
    let j = index_of(s, s[i].0);
    assert(s[j].0 == s[i].0);
}

pub proof fn lemma_empty<K, V>(s: Seq<(K, V)>)
    requires
        s.len() == 0,
    ensures
        to_map(s) == Map::<K, V>::empty(),
{
    assert(to_map(s) =~= Map::<K, V>::empty());
}

pub proof fn lemma_update<K, V>(s: Seq<(K, V)>, i: int, v: V)
    requires
        keys_distinct(s),
        0 <= i < s.len(),
    ensures
        keys_distinct(s.update(i, (s[i].0, v))),
        to_map(s.update(i, (s[i].0, v))) == to_map(s).insert(s[i].0, v),
{
    let t = s.update(i, (s[i].0, v));
    assert forall|k: K| #[trigger] has_key(t, k) == has_key(s, k) by {
        if has_key(s, k) {
            let j = choose|j: int| 0 <= j < s.len() && s[j].0 == k;
            assert(t[j].0 == k);
        }
        if has_key(t, k) {
            let j = choose|j: int| 0 <= j < t.len() && t[j].0 == k;
            assert(s[j].0 == k);
        }
    }
    assert forall|j: int| 0 <= j < t.len() implies #[trigger] to_map(t)[t[j].0] == t[j].1 by {
        lemma_entry(t, j);
    }
    assert forall|j: int| 0 <= j < s.len() implies #[trigger] to_map(s)[s[j].0] == s[j].1 by {
        lemma_entry(s, j);
    }
    assert forall|k: K| has_key(t, k) implies #[trigger] to_map(t)[k] == to_map(s).insert(
        s[i].0,
        v,
    )[k] by {
        let j = choose|j: int| 0 <= j < t.len() && t[j].0 == k;
        assert(to_map(t)[t[j].0] == t[j].1);
        if j != i {
            assert(to_map(s)[s[j].0] == s[j].1);
        }
    }
    assert(to_map(t) =~= to_map(s).insert(s[i].0, v));
}

pub proof fn lemma_push<K, V>(s: Seq<(K, V)>, e: (K, V))
    requires
        keys_distinct(s),
        !has_key(s, e.0),
    ensures
        keys_distinct(s.push(e)),
        to_map(s.push(e)) == to_map(s).insert(e.0, e.1),
{
    lemma_insert(s, s.len() as int, e);
    assert(s.insert(s.len() as int, e) =~= s.push(e));
}

pub proof fn lemma_insert<K, V>(s: Seq<(K, V)>, i: int, e: (K, V))
    requires
        keys_distinct(s),
        !has_key(s, e.0),
        0 <= i <= s.len(),
    ensures
        keys_distinct(s.insert(i, e)),
        to_map(s.insert(i, e)) == to_map(s).insert(e.0, e.1),
{
    let t = s.insert(i, e);
    assert forall|a: int, b: int| 0 <= a < b < t.len() implies t[a].0 != t[b].0 by {
        if a < i && b > i {
            assert(t[b] == s[b - 1]);
        } else if a == i {
            assert(t[b] == s[b - 1]);
        } else if b == i {
            assert(t[a] == s[a]);
        } else if b < i {
        } else {
            assert(t[a] == s[a - 1]);
            assert(t[b] == s[b - 1]);
        }
    }
    assert forall|j: int| 0 <= j < t.len() implies #[trigger] to_map(t)[t[j].0] == t[j].1 by {
        lemma_entry(t, j);
    }
    assert forall|j: int| 0 <= j < s.len() implies #[trigger] to_map(s)[s[j].0] == s[j].1 by {
        lemma_entry(s, j);
    }
    assert forall|k: K| #[trigger] has_key(t, k) == (has_key(s, k) || k == e.0) by {
        if has_key(s, k) {
            let j = choose|j: int| 0 <= j < s.len() && s[j].0 == k;
            if j < i {
                assert(t[j].0 == k);
            } else {
                assert(t[j + 1].0 == k);
            }
        }
        if k == e.0 {
            assert(t[i].0 == k);
        }
        if has_key(t, k) {
            let j = choose|j: int| 0 <= j < t.len() && t[j].0 == k;
            if j < i {
                assert(s[j].0 == k);
            } else if j > i {
                assert(s[j - 1].0 == k);
            }
        }
    }
    assert forall|k: K| has_key(t, k) implies #[trigger] to_map(t)[k] == to_map(s).insert(
        e.0,
        e.1,
    )[k] by {
        let j = choose|j: int| 0 <= j < t.len() && t[j].0 == k;
        assert(to_map(t)[t[j].0] == t[j].1);
        if j < i {
            assert(to_map(s)[s[j].0] == s[j].1);
        } else if j > i {
            assert(t[j] == s[j - 1]);
            assert(to_map(s)[s[j - 1].0] == s[j - 1].1);
        }
    }
    assert(to_map(t) =~= to_map(s).insert(e.0, e.1));
}

pub proof fn lemma_remove<K, V>(s: Seq<(K, V)>, i: int)
    requires
        keys_distinct(s),
        0 <= i < s.len(),
    ensures
        keys_distinct(s.remove(i)),
        to_map(s.remove(i)) == to_map(s).remove(s[i].0),
{
    let t = s.remove(i);
    assert forall|a: int, b: int| 0 <= a < b < t.len() implies t[a].0 != t[b].0 by {
        if b < i {
        } else if a < i {
            assert(t[b] == s[b + 1]);
        } else {
            assert(t[a] == s[a + 1]);
            assert(t[b] == s[b + 1]);
        }
    }
    assert forall|j: int| 0 <= j < t.len() implies #[trigger] to_map(t)[t[j].0] == t[j].1 by {
        lemma_entry(t, j);
    }
    assert forall|j: int| 0 <= j < s.len() implies #[trigger] to_map(s)[s[j].0] == s[j].1 by {
        lemma_entry(s, j);
    }
    assert forall|k: K| #[trigger] has_key(t, k) == (has_key(s, k) && k != s[i].0) by {
        if has_key(s, k) && k != s[i].0 {
            let j = choose|j: int| 0 <= j < s.len() && s[j].0 == k;
            if j < i {
                assert(t[j].0 == k);
            } else {
                assert(t[j - 1].0 == k);
            }
        }
        if has_key(t, k) {
            let j = choose|j: int| 0 <= j < t.len() && t[j].0 == k;
            if j < i {
                assert(s[j].0 == k);
            } else {
                assert(s[j + 1].0 == k);
            }
        }
    }
    assert forall|k: K| has_key(t, k) implies #[trigger] to_map(t)[k] == to_map(s).remove(
        s[i].0,
    )[k] by {
        let j = choose|j: int| 0 <= j < t.len() && t[j].0 == k;
        assert(to_map(t)[t[j].0] == t[j].1);
        if j < i {
            assert(to_map(s)[s[j].0] == s[j].1);
        } else {
            assert(t[j] == s[j + 1]);
            assert(to_map(s)[s[j + 1].0] == s[j + 1].1);
        }
    }
    assert(to_map(t) =~= to_map(s).remove(s[i].0));
}

} // verus!
