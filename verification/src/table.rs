//! The mathematical model of the store: a finite list of key/value pairs in
//! which no key occurs twice, together with the laws its operations obey.

use vstd::prelude::*;

verus! {

/// A string, as the sequence of its characters.
pub type Text = Seq<char>;

/// The contents of a store: its pairs, in the order in which they are listed.
pub type Table = Seq<(Seq<char>, Seq<char>)>;

/// No key occurs in two places of `t`.
pub open spec fn distinct_keys(t: Table) -> bool {
    forall|i: int, j: int| 0 <= i < j < t.len() ==> t[i].0 != t[j].0
}

/// `k` is the key of the pair at place `i` of `t`.
pub open spec fn holds_at(t: Table, k: Text, i: int) -> bool {
    0 <= i < t.len() && t[i].0 == k
}

/// Some pair of `t` has the key `k`.
pub open spec fn has_key(t: Table, k: Text) -> bool {
    exists|i: int| holds_at(t, k, i)
}

/// A place of `t` that holds the key `k`, where there is one.
pub open spec fn place_of(t: Table, k: Text) -> int {
    choose|i: int| holds_at(t, k, i)
}

/// The value stored under `k`, if any.
pub open spec fn lookup(t: Table, k: Text) -> Option<Text> {
    if has_key(t, k) {
        Some(t[place_of(t, k)].1)
    } else {
        None
    }
}

/// The table after `v` has been stored under `k`: a pair with that key is
/// overwritten where it stands, a new key goes to the end.
pub open spec fn put(t: Table, k: Text, v: Text) -> Table {
    if has_key(t, k) {
        t.update(place_of(t, k), (k, v))
    } else {
        t.push((k, v))
    }
}

/// The table without the pair whose key is `k`; the others keep their order.
pub open spec fn erase(t: Table, k: Text) -> Table {
    if has_key(t, k) {
        t.remove(place_of(t, k))
    } else {
        t
    }
}

/// The table as a finite map from keys to values.
pub open spec fn as_map(t: Table) -> Map<Text, Text> {
    Map::new(|k: Text| has_key(t, k), |k: Text| t[place_of(t, k)].1)
}

/// In a table with distinct keys a key stands at one place only.
pub proof fn lemma_place_unique(t: Table, k: Text, i: int)
    requires
        distinct_keys(t),
        holds_at(t, k, i),
    ensures
        has_key(t, k),
        place_of(t, k) == i,
{
    let p = place_of(t, k);
    assert(holds_at(t, k, p));
    if p < i {
        assert(t[p].0 != t[i].0);
    } else if i < p {
        assert(t[i].0 != t[p].0);
    }
}

/// Storing a pair keeps the keys distinct, and afterwards every key reads
/// as it did before, but for the one stored.
pub proof fn lemma_put(t: Table, k: Text, v: Text)
    requires
        distinct_keys(t),
    ensures
        distinct_keys(put(t, k, v)),
        forall|q: Text| #[trigger]
            lookup(put(t, k, v), q) == if q == k {
                Some(v)
            } else {
                lookup(t, q)
            },
        as_map(put(t, k, v)) == as_map(t).insert(k, v),
{
    let u = put(t, k, v);
    let p = if has_key(t, k) {
        place_of(t, k)
    } else {
        t.len() as int
    };
    if has_key(t, k) {
        assert(holds_at(t, k, p));
    }
    assert(u.len() > p && u[p] == (k, v));
    assert(forall|i: int| 0 <= i < u.len() && i != p ==> u[i] == t[i]);
    assert forall|i: int, j: int| 0 <= i < j < u.len() implies u[i].0 != u[j].0 by {
        if i == p {
            if has_key(t, k) {
                assert(t[p].0 != t[j].0);
            }
        } else if j == p {
            if has_key(t, k) {
                assert(t[i].0 != t[p].0);
            } else {
                assert(!holds_at(t, k, i));
            }
        }
    }
    assert forall|q: Text| #[trigger]
        lookup(u, q) == if q == k {
            Some(v)
        } else {
            lookup(t, q)
        } by {
        if q == k {
            lemma_place_unique(u, k, p);
        } else if has_key(t, q) {
            let i = place_of(t, q);
            assert(holds_at(t, q, i));
            assert(i != p);
            assert(holds_at(u, q, i));
            lemma_place_unique(u, q, i);
        } else if has_key(u, q) {
            let i = place_of(u, q);
            assert(holds_at(u, q, i));
            assert(holds_at(t, q, i));
        }
    }
    lemma_map_reads(t);
    lemma_map_reads(u);
    assert(as_map(u) =~= as_map(t).insert(k, v)) by {
        assert forall|q: Text| #[trigger]
            as_map(u).contains_key(q) == as_map(t).insert(k, v).contains_key(q) by {
            assert(lookup(u, q) == if q == k {
                Some(v)
            } else {
                lookup(t, q)
            });
        }
        assert forall|q: Text| #[trigger]
            as_map(u).contains_key(q) implies as_map(u)[q] == as_map(t).insert(k, v)[q] by {
            assert(lookup(u, q) == if q == k {
                Some(v)
            } else {
                lookup(t, q)
            });
        }
    }
}

/// Reading the map of a table is looking the key up in the table.
pub proof fn lemma_map_reads(t: Table)
    ensures
        forall|q: Text| #[trigger]
            as_map(t).contains_key(q) <==> lookup(t, q) is Some,
        forall|q: Text| #[trigger]
            as_map(t).contains_key(q) ==> lookup(t, q) == Some(as_map(t)[q]),
        forall|q: Text| has_key(t, q) <==> #[trigger] lookup(t, q) is Some,
{
}

/// Erasing a key keeps the keys distinct, and afterwards every other key
/// reads as it did before, while the erased one is absent.
pub proof fn lemma_erase(t: Table, k: Text)
    requires
        distinct_keys(t),
    ensures
        distinct_keys(erase(t, k)),
        forall|q: Text| #[trigger]
            lookup(erase(t, k), q) == if q == k {
                None
            } else {
                lookup(t, q)
            },
        as_map(erase(t, k)) == as_map(t).remove(k),
{
    let u = erase(t, k);
    if has_key(t, k) {
        let p = place_of(t, k);
        assert(holds_at(t, k, p));
        assert(forall|i: int| 0 <= i < p ==> u[i] == t[i]);
        assert(forall|i: int| p <= i < u.len() ==> u[i] == t[i + 1]);
        assert forall|i: int, j: int| 0 <= i < j < u.len() implies u[i].0 != u[j].0 by {
            let a = if i < p {
                i
            } else {
                i + 1
            };
            let b = if j < p {
                j
            } else {
                j + 1
            };
            assert(t[a].0 != t[b].0);
        }
        assert forall|q: Text| #[trigger]
            lookup(u, q) == if q == k {
                None
            } else {
                lookup(t, q)
            } by {
            if has_key(u, q) {
                let i = place_of(u, q);
                assert(holds_at(u, q, i));
                let a = if i < p {
                    i
                } else {
                    i + 1
                };
                assert(holds_at(t, q, a));
                lemma_place_unique(t, q, a);
                lemma_place_unique(u, q, i);
                if q == k {
                    assert(a == p);
                }
            } else if q != k && has_key(t, q) {
                let a = place_of(t, q);
                assert(holds_at(t, q, a));
                let i = if a < p {
                    a
                } else {
                    a - 1
                };
                assert(holds_at(u, q, i));
            }
        }
    } else {
        assert forall|q: Text| #[trigger]
            lookup(u, q) == if q == k {
                None
            } else {
                lookup(t, q)
            } by {}
    }
    lemma_map_reads(t);
    lemma_map_reads(u);
    assert(as_map(u) =~= as_map(t).remove(k)) by {
        assert forall|q: Text| #[trigger]
            as_map(u).contains_key(q) == as_map(t).remove(k).contains_key(q) by {
            assert(lookup(u, q) == if q == k {
                None
            } else {
                lookup(t, q)
            });
        }
        assert forall|q: Text| #[trigger]
            as_map(u).contains_key(q) implies as_map(u)[q] == as_map(t).remove(k)[q] by {
            assert(lookup(u, q) == if q == k {
                None
            } else {
                lookup(t, q)
            });
        }
    }
}

/// The table after the pairs of `ops` have been stored in `t`, one after
/// the other.
pub open spec fn put_all(t: Table, ops: Seq<(Text, Text)>) -> Table
    decreases ops.len(),
{
    if ops.len() == 0 {
        t
    } else {
        put(put_all(t, ops.drop_last()), ops.last().0, ops.last().1)
    }
}

/// Replacement: when a key is stored a second time, the value stored first
/// is what the store held for it until then, and the value stored second is
/// what it holds afterwards.
pub proof fn law_replace(t: Table, k: Text, v1: Text, v2: Text)
    requires
        distinct_keys(t),
    ensures
        lookup(put(t, k, v1), k) == Some(v1),
        lookup(put(put(t, k, v1), k, v2), k) == Some(v2),
        distinct_keys(put(put(t, k, v1), k, v2)),
{
    lemma_put(t, k, v1);
    lemma_put(put(t, k, v1), k, v2);
}

/// Removal: a key that was stored is held with its value until it is
/// removed; once removed it is absent, and removing it again changes
/// nothing.
pub proof fn law_remove(t: Table, k: Text, v: Text)
    requires
        distinct_keys(t),
    ensures
        lookup(put(t, k, v), k) == Some(v),
        lookup(erase(put(t, k, v), k), k) is None,
        erase(erase(put(t, k, v), k), k) == erase(put(t, k, v), k),
        distinct_keys(erase(put(t, k, v), k)),
{
    lemma_put(t, k, v);
    lemma_erase(put(t, k, v), k);
    lemma_map_reads(erase(put(t, k, v), k));
}

/// Last write wins: after a run of stores, a key holds the value that was
/// stored for it last.
pub proof fn law_last_put_wins(t: Table, ops: Seq<(Text, Text)>, i: int)
    requires
        distinct_keys(t),
        0 <= i < ops.len(),
        forall|j: int| i < j < ops.len() ==> ops[j].0 != ops[i].0,
    ensures
        distinct_keys(put_all(t, ops)),
        lookup(put_all(t, ops), ops[i].0) == Some(ops[i].1),
    decreases ops.len(),
{
    let body = ops.drop_last();
    lemma_put_all_distinct(t, body);
    lemma_put(put_all(t, body), ops.last().0, ops.last().1);
    if i < ops.len() - 1 {
        law_last_put_wins(t, body, i);
    }
}

/// A run of stores keeps the keys distinct.
pub proof fn lemma_put_all_distinct(t: Table, ops: Seq<(Text, Text)>)
    requires
        distinct_keys(t),
    ensures
        distinct_keys(put_all(t, ops)),
    decreases ops.len(),
{
    if ops.len() > 0 {
        lemma_put_all_distinct(t, ops.drop_last());
        lemma_put(put_all(t, ops.drop_last()), ops.last().0, ops.last().1);
    }
}

} // verus!
