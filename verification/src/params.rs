//! Model of a case's parameter map: a sequence of (name, value) bindings in
//! first-insertion order.  A write overwrites the first binding of its name
//! and appends a new binding otherwise, so with distinct names the sequence
//! behaves as a map that remembers insertion order.

use vstd::prelude::*;

verus! {

/// The value bound to `key`, if any (first binding wins).
pub open spec fn lookup(ps: Seq<(Seq<char>, Seq<char>)>, key: Seq<char>) -> Option<Seq<char>>
    decreases ps.len(),
{
    if ps.len() == 0 {
        None
    } else if ps[0].0 == key {
        Some(ps[0].1)
    } else {
        lookup(ps.drop_first(), key)
    }
}

/// The value bound to `key`, or the empty value when `key` is absent.
pub open spec fn value_or_empty(ps: Seq<(Seq<char>, Seq<char>)>, key: Seq<char>) -> Seq<char> {
    match lookup(ps, key) {
        Some(v) => v,
        None => Seq::empty(),
    }
}

/// Overwrite the first binding of `key` with `v`; no change if `key` is absent.
pub open spec fn set_value(
    ps: Seq<(Seq<char>, Seq<char>)>,
    key: Seq<char>,
    v: Seq<char>,
) -> Seq<(Seq<char>, Seq<char>)>
    decreases ps.len(),
{
    if ps.len() == 0 {
        ps
    } else if ps[0].0 == key {
        seq![(ps[0].0, v)] + ps.drop_first()
    } else {
        seq![ps[0]] + set_value(ps.drop_first(), key, v)
    }
}

/// Store `v` under `key`: overwrite the first binding of `key`, or append a
/// new binding when `key` is absent.
pub open spec fn store(
    ps: Seq<(Seq<char>, Seq<char>)>,
    key: Seq<char>,
    v: Seq<char>,
) -> Seq<(Seq<char>, Seq<char>)> {
    if lookup(ps, key) is Some {
        set_value(ps, key, v)
    } else {
        ps.push((key, v))
    }
}

/// No two bindings share a name.
pub open spec fn distinct_keys(ps: Seq<(Seq<char>, Seq<char>)>) -> bool {
    forall|i: int, j: int| 0 <= i < j < ps.len() ==> (#[trigger] ps[i].0) != (#[trigger] ps[j].0)
}

/// `lookup` finds exactly the keys that occur in the sequence.
pub proof fn lemma_lookup_none(ps: Seq<(Seq<char>, Seq<char>)>, key: Seq<char>)
    ensures
        (lookup(ps, key) is None) <==> (forall|i: int| 0 <= i < ps.len() ==> (#[trigger] ps[i].0) != key),
    decreases ps.len(),
{
    if ps.len() > 0 && ps[0].0 != key {
        lemma_lookup_none(ps.drop_first(), key);
        if lookup(ps.drop_first(), key) is None {
            assert forall|i: int| 0 <= i < ps.len() implies (#[trigger] ps[i].0) != key by {
                if i > 0 {
                    assert(ps.drop_first()[i - 1] == ps[i]);
                }
            }
        } else {
            let i = choose|i: int| 0 <= i < ps.drop_first().len() && (#[trigger] ps.drop_first()[i].0) == key;
            assert(ps[i + 1].0 == key);
        }
    }
}

/// When `key` first occurs at index `j`, `lookup` returns that binding's value.
pub proof fn lemma_lookup_at(ps: Seq<(Seq<char>, Seq<char>)>, key: Seq<char>, j: int)
    requires
        0 <= j < ps.len(),
        ps[j].0 == key,
        forall|k: int| 0 <= k < j ==> (#[trigger] ps[k].0) != key,
    ensures
        lookup(ps, key) == Some(ps[j].1),
    decreases ps.len(),
{
    if j > 0 {
        assert forall|k: int| 0 <= k < j - 1 implies (#[trigger] ps.drop_first()[k].0) != key by {
            assert(ps.drop_first()[k] == ps[k + 1]);
        }
        assert(ps.drop_first()[j - 1] == ps[j]);
        lemma_lookup_at(ps.drop_first(), key, j - 1);
    }
}

/// When `key` first occurs at index `j`, `set_value` updates that binding.
pub proof fn lemma_set_value_at(
    ps: Seq<(Seq<char>, Seq<char>)>,
    key: Seq<char>,
    v: Seq<char>,
    j: int,
)
    requires
        0 <= j < ps.len(),
        ps[j].0 == key,
        forall|k: int| 0 <= k < j ==> (#[trigger] ps[k].0) != key,
    ensures
        set_value(ps, key, v) =~= ps.update(j, (ps[j].0, v)),
    decreases ps.len(),
{
    if j > 0 {
        assert forall|k: int| 0 <= k < j - 1 implies (#[trigger] ps.drop_first()[k].0) != key by {
            assert(ps.drop_first()[k] == ps[k + 1]);
        }
        assert(ps.drop_first()[j - 1] == ps[j]);
        lemma_set_value_at(ps.drop_first(), key, v, j - 1);
        assert(set_value(ps, key, v) =~= ps.update(j, (ps[j].0, v)));
    }
}

/// `set_value` keeps length and keys, and touches only `key`'s first binding.
pub proof fn lemma_set_value_shape(ps: Seq<(Seq<char>, Seq<char>)>, key: Seq<char>, v: Seq<char>)
    ensures
        set_value(ps, key, v).len() == ps.len(),
        forall|i: int| 0 <= i < ps.len() ==> (#[trigger] set_value(ps, key, v)[i].0) == ps[i].0,
        forall|i: int|
            0 <= i < ps.len() && ps[i].0 != key ==> (#[trigger] set_value(ps, key, v)[i]) == ps[i],
    decreases ps.len(),
{
    if ps.len() > 0 && ps[0].0 != key {
        lemma_set_value_shape(ps.drop_first(), key, v);
        assert forall|i: int| 0 <= i < ps.len() implies (#[trigger] set_value(ps, key, v)[i].0)
            == ps[i].0 by {
            if i > 0 {
                assert(set_value(ps, key, v)[i] == set_value(ps.drop_first(), key, v)[i - 1]);
                assert(ps.drop_first()[i - 1] == ps[i]);
            }
        }
        assert forall|i: int| 0 <= i < ps.len() && ps[i].0 != key implies (#[trigger] set_value(
            ps,
            key,
            v,
        )[i]) == ps[i] by {
            if i > 0 {
                assert(set_value(ps, key, v)[i] == set_value(ps.drop_first(), key, v)[i - 1]);
                assert(ps.drop_first()[i - 1] == ps[i]);
            }
        }
    }
}

/// How `lookup` reads through `set_value`.
pub proof fn lemma_lookup_set_value(
    ps: Seq<(Seq<char>, Seq<char>)>,
    key: Seq<char>,
    v: Seq<char>,
    key2: Seq<char>,
)
    ensures
        lookup(set_value(ps, key, v), key2) == (if key2 == key {
            match lookup(ps, key) {
                Some(_) => Some(v),
                None => None,
            }
        } else {
            lookup(ps, key2)
        }),
    decreases ps.len(),
{
    if ps.len() > 0 {
        if ps[0].0 == key {
            let qs = seq![(ps[0].0, v)] + ps.drop_first();
            assert(qs[0] == (ps[0].0, v));
            assert(qs.drop_first() =~= ps.drop_first());
        } else {
            let qs = seq![ps[0]] + set_value(ps.drop_first(), key, v);
            assert(qs[0] == ps[0]);
            assert(qs.drop_first() =~= set_value(ps.drop_first(), key, v));
            lemma_lookup_set_value(ps.drop_first(), key, v, key2);
        }
    }
}

/// How `lookup` reads through `store`.
pub proof fn lemma_lookup_store(
    ps: Seq<(Seq<char>, Seq<char>)>,
    key: Seq<char>,
    v: Seq<char>,
    key2: Seq<char>,
)
    ensures
        lookup(store(ps, key, v), key2) == (if key2 == key {
            Some(v)
        } else {
            lookup(ps, key2)
        }),
{
    if lookup(ps, key) is Some {
        lemma_lookup_set_value(ps, key, v, key2);
    } else {
        lemma_lookup_push(ps, (key, v), key2);
    }
}

/// How `lookup` reads through a pushed binding.
pub proof fn lemma_lookup_push(
    ps: Seq<(Seq<char>, Seq<char>)>,
    b: (Seq<char>, Seq<char>),
    key: Seq<char>,
)
    ensures
        lookup(ps.push(b), key) == (if lookup(ps, key) is Some {
            lookup(ps, key)
        } else if b.0 == key {
            Some(b.1)
        } else {
            None
        }),
    decreases ps.len(),
{
    reveal_with_fuel(lookup, 2);
    if ps.len() == 0 {
        assert(ps.push(b)[0] == b);
        assert(ps.push(b).drop_first() =~= Seq::<(Seq<char>, Seq<char>)>::empty());
        assert(lookup(ps.push(b).drop_first(), key) is None);
    } else {
        assert(ps.push(b)[0] == ps[0]);
        assert(ps.push(b).drop_first() =~= ps.drop_first().push(b));
        lemma_lookup_push(ps.drop_first(), b, key);
    }
}

/// `store` preserves distinctness of keys.
pub proof fn lemma_store_distinct(ps: Seq<(Seq<char>, Seq<char>)>, key: Seq<char>, v: Seq<char>)
    requires
        distinct_keys(ps),
    ensures
        distinct_keys(store(ps, key, v)),
{
    if lookup(ps, key) is Some {
        lemma_set_value_shape(ps, key, v);
        assert forall|i: int, j: int| 0 <= i < j < store(ps, key, v).len() implies (#[trigger] store(
            ps,
            key,
            v,
        )[i].0) != (#[trigger] store(ps, key, v)[j].0) by {
            assert(store(ps, key, v)[i].0 == ps[i].0);
            assert(store(ps, key, v)[j].0 == ps[j].0);
        }
    } else {
        lemma_lookup_none(ps, key);
    }
}

/// `set_value` of the value already stored changes nothing.
pub proof fn lemma_set_value_same(ps: Seq<(Seq<char>, Seq<char>)>, key: Seq<char>, v: Seq<char>)
    requires
        lookup(ps, key) == Some(v),
    ensures
        set_value(ps, key, v) =~= ps,
    decreases ps.len(),
{
    if ps.len() > 0 {
        if ps[0].0 == key {
            assert(seq![(ps[0].0, ps[0].1)] + ps.drop_first() =~= ps);
        } else {
            lemma_set_value_same(ps.drop_first(), key, v);
            assert(seq![ps[0]] + ps.drop_first() =~= ps);
        }
    }
}

} // verus!
