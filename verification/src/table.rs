//! A spec-level model of keyed tables: an association sequence from string
//! keys (as character sequences) to values, looked up by first match. The
//! tables built on it keep their keys distinct, so the first match is the
//! only one.

use vstd::prelude::*;

verus! {

/// The value stored under `key`, if any: the first match wins.
pub open spec fn assoc_lookup<V>(s: Seq<(Seq<char>, V)>, key: Seq<char>) -> Option<V>
    decreases s.len(),
{
    if s.len() == 0 {
        None
    } else if s[0].0 == key {
        Some(s[0].1)
    } else {
        assoc_lookup(s.drop_first(), key)
    }
}

/// The views of a vector of owned string pairs.
pub open spec fn string_pairs_view(v: Seq<(String, String)>) -> Seq<(Seq<char>, Seq<char>)> {
    Seq::new(v.len(), |i: int| (v[i].0@, v[i].1@))
}

/// The value stored under `key` when a later pair overwrites an earlier
/// one: the last match wins.
pub open spec fn assoc_lookup_last<V>(s: Seq<(Seq<char>, V)>, key: Seq<char>) -> Option<V>
    decreases s.len(),
{
    if s.len() == 0 {
        None
    } else if s.last().0 == key {
        Some(s.last().1)
    } else {
        assoc_lookup_last(s.drop_last(), key)
    }
}

/// No key occurs twice.
pub open spec fn assoc_distinct<V>(s: Seq<(Seq<char>, V)>) -> bool {
    forall|a: int, b: int| 0 <= a < b < s.len() ==> s[a].0 != s[b].0
}

pub proof fn lemma_assoc_none<V>(s: Seq<(Seq<char>, V)>, key: Seq<char>)
    ensures
        assoc_lookup(s, key) is None <==> forall|j: int| 0 <= j < s.len() ==> s[j].0 != key,
    decreases s.len(),
{
    if s.len() > 0 {
        lemma_assoc_none(s.drop_first(), key);
        if s[0].0 != key {
            assert(forall|j: int|
                0 <= j < s.drop_first().len() ==> s.drop_first()[j] == s[j + 1]);
            if assoc_lookup(s, key) is None {
                assert forall|j: int| 0 <= j < s.len() implies s[j].0 != key by {
                    if j > 0 {
                        assert(s.drop_first()[j - 1].0 != key);
                    }
                }
            }
        }
    }
}

pub proof fn lemma_assoc_at<V>(s: Seq<(Seq<char>, V)>, key: Seq<char>, i: int)
    requires
        0 <= i < s.len(),
        s[i].0 == key,
        forall|j: int| 0 <= j < i ==> s[j].0 != key,
    ensures
        assoc_lookup(s, key) == Some(s[i].1),
    decreases s.len(),
{
    if s[0].0 == key {
        assert(i == 0);
    } else {
        assert(forall|j: int| 0 <= j < s.drop_first().len() ==> s.drop_first()[j] == s[j + 1]);
        lemma_assoc_at(s.drop_first(), key, i - 1);
    }
}

pub proof fn lemma_assoc_update<V>(s: Seq<(Seq<char>, V)>, i: int, e: (Seq<char>, V))
    requires
        0 <= i < s.len(),
        e.0 == s[i].0,
        forall|j: int| 0 <= j < i ==> s[j].0 != e.0,
    ensures
        forall|k: Seq<char>| #[trigger] assoc_lookup(s.update(i, e), k) == if k == e.0 {
            Some(e.1)
        } else {
            assoc_lookup(s, k)
        },
    decreases s.len(),
{
    let u = s.update(i, e);
    if i == 0 {
        assert forall|k: Seq<char>| #[trigger] assoc_lookup(u, k) == if k == e.0 {
            Some(e.1)
        } else {
            assoc_lookup(s, k)
        } by {
            assert(u[0] == e);
            if k != e.0 {
                assert(u.drop_first() =~= s.drop_first());
            }
        }
    } else {
        lemma_assoc_update(s.drop_first(), i - 1, e);
        assert forall|k: Seq<char>| #[trigger] assoc_lookup(u, k) == if k == e.0 {
            Some(e.1)
        } else {
            assoc_lookup(s, k)
        } by {
            assert(u[0] == s[0]);
            assert(u.drop_first() =~= s.drop_first().update(i - 1, e));
            assert(s[0].0 != e.0);
            if k != u[0].0 {
                assert(assoc_lookup(u, k) == assoc_lookup(u.drop_first(), k));
                assert(assoc_lookup(s, k) == assoc_lookup(s.drop_first(), k));
            }
        }
    }
}

pub proof fn lemma_assoc_push<V>(s: Seq<(Seq<char>, V)>, e: (Seq<char>, V))
    ensures
        forall|k: Seq<char>| #[trigger] assoc_lookup(s.push(e), k) == if assoc_lookup(
            s,
            k,
        ) is Some {
            assoc_lookup(s, k)
        } else if k == e.0 {
            Some(e.1)
        } else {
            None::<V>
        },
    decreases s.len(),
{
    let u = s.push(e);
    if s.len() == 0 {
        assert forall|k: Seq<char>| #[trigger] assoc_lookup(u, k) == if assoc_lookup(
            s,
            k,
        ) is Some {
            assoc_lookup(s, k)
        } else if k == e.0 {
            Some(e.1)
        } else {
            None::<V>
        } by {
            assert(u.len() == 1);
            assert(u[0] == e);
            assert(assoc_lookup(s, k) is None);
            if k == e.0 {
                assert(assoc_lookup(u, k) == Some(e.1));
            } else {
                assert(assoc_lookup(u, k) == assoc_lookup(u.drop_first(), k));
                assert(u.drop_first() =~= Seq::<(Seq<char>, V)>::empty());
                assert(assoc_lookup(u.drop_first(), k) is None);
            }
        }
    } else {
        lemma_assoc_push(s.drop_first(), e);
        assert forall|k: Seq<char>| #[trigger] assoc_lookup(u, k) == if assoc_lookup(
            s,
            k,
        ) is Some {
            assoc_lookup(s, k)
        } else if k == e.0 {
            Some(e.1)
        } else {
            None::<V>
        } by {
            assert(u[0] == s[0]);
            if k == u[0].0 {
                assert(assoc_lookup(u, k) == Some(u[0].1));
                assert(assoc_lookup(s, k) == Some(s[0].1));
            } else {
                assert(u.drop_first() =~= s.drop_first().push(e));
                assert(assoc_lookup(u, k) == assoc_lookup(u.drop_first(), k));
                assert(assoc_lookup(s, k) == assoc_lookup(s.drop_first(), k));
                assert(assoc_lookup(u.drop_first(), k) == assoc_lookup(
                    s.drop_first().push(e),
                    k,
                ));
            }
        }
    }
}

/// Distinctness is kept when an entry is replaced under its own key.
pub proof fn lemma_assoc_distinct_update<V>(s: Seq<(Seq<char>, V)>, i: int, e: (Seq<char>, V))
    requires
        assoc_distinct(s),
        0 <= i < s.len(),
        e.0 == s[i].0,
    ensures
        assoc_distinct(s.update(i, e)),
{
    let u = s.update(i, e);
    assert forall|a: int, b: int| 0 <= a < b < u.len() implies u[a].0 != u[b].0 by {
        assert(s[a].0 != s[b].0);
    }
}

/// Distinctness is kept when an absent key is appended.
pub proof fn lemma_assoc_distinct_push<V>(s: Seq<(Seq<char>, V)>, e: (Seq<char>, V))
    requires
        assoc_distinct(s),
        assoc_lookup(s, e.0) is None,
    ensures
        assoc_distinct(s.push(e)),
{
    lemma_assoc_none(s, e.0);
    let u = s.push(e);
    assert forall|a: int, b: int| 0 <= a < b < u.len() implies u[a].0 != u[b].0 by {
        if b == s.len() as int {
            assert(s[a].0 != e.0);
        } else {
            assert(s[a].0 != s[b].0);
        }
    }
}

} // verus!
