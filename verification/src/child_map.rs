//! The ordered, name-keyed child map of a directory node.
//!
//! A directory's children live in an `indexmap::IndexMap<String, usize>`,
//! which keeps its pairs in first-insertion order. The map is abstracted by
//! `child_map_entries`, the sequence of its `(name, id)` pairs in iteration
//! order; every map reachable through this module has pairwise-distinct keys.

use vstd::prelude::*;
use indexmap::IndexMap;

verus! {

#[verifier::external_type_specification]
#[verifier::external_body]
#[verifier::reject_recursive_types(K)]
#[verifier::reject_recursive_types(V)]
#[verifier::reject_recursive_types(S)]
pub struct ExIndexMap<K, V, S>(IndexMap<K, V, S>);

/// The `(name, id)` pairs held by a child map, in iteration order.
pub uninterp spec fn child_map_entries(m: IndexMap<String, usize>) -> Seq<(Seq<char>, usize)>;

/// The value of the first pair whose key is `k`, if any.
pub open spec fn entries_find(es: Seq<(Seq<char>, usize)>, k: Seq<char>) -> Option<usize>
    decreases es.len(),
{
    if es.len() == 0 {
        None
    } else if es[0].0 == k {
        Some(es[0].1)
    } else {
        entries_find(es.drop_first(), k)
    }
}

/// Insertion into an association sequence in map order: an existing key keeps
/// its place and gets the new value; a new key is appended at the end.
pub open spec fn entries_insert(
    es: Seq<(Seq<char>, usize)>,
    k: Seq<char>,
    v: usize,
) -> Seq<(Seq<char>, usize)>
    decreases es.len(),
{
    if es.len() == 0 {
        seq![(k, v)]
    } else if es[0].0 == k {
        seq![(k, v)] + es.drop_first()
    } else {
        seq![es[0]] + entries_insert(es.drop_first(), k, v)
    }
}

/// The keys of an association sequence, in order.
pub open spec fn entries_keys(es: Seq<(Seq<char>, usize)>) -> Seq<Seq<char>> {
    es.map_values(|p: (Seq<char>, usize)| p.0)
}

/// No key occurs twice.
pub open spec fn keys_unique(es: Seq<(Seq<char>, usize)>) -> bool {
    forall|i: int, j: int| 0 <= i < j < es.len() ==> es[i].0 != es[j].0
}

/// Relies on `indexmap::IndexMap::new`: it returns an empty map.
#[verifier::external_body]
pub fn child_map_new() -> (r: IndexMap<String, usize>)
    ensures
        child_map_entries(r) == Seq::<(Seq<char>, usize)>::empty(),
{
    IndexMap::new()
}

/// Relies on `indexmap::IndexMap::len`: it returns the number of stored
/// pairs.
#[verifier::external_body]
pub fn child_map_len(m: &IndexMap<String, usize>) -> (r: usize)
    ensures
        r == child_map_entries(*m).len(),
{
    m.len()
}

/// Relies on `indexmap::IndexMap::get`: it returns the value stored under
/// the given key, if the key is present.
#[verifier::external_body]
pub fn child_map_get(m: &IndexMap<String, usize>, k: &str) -> (r: Option<usize>)
    ensures
        r == entries_find(child_map_entries(*m), k@),
{
    m.get(k).copied()
}

/// Relies on `indexmap::IndexMap::insert`: an existing key keeps its place in
/// the order and its value is replaced; a new key is inserted last.
#[verifier::external_body]
pub fn child_map_insert(m: &mut IndexMap<String, usize>, k: String, v: usize)
    ensures
        child_map_entries(*final(m)) == entries_insert(child_map_entries(*old(m)), k@, v),
{
    let _ = m.insert(k, v);
}

/// After an insert, looking the key up yields the new value; other keys are
/// untouched.
pub proof fn lemma_insert_find(es: Seq<(Seq<char>, usize)>, k: Seq<char>, v: usize)
    ensures
        entries_find(entries_insert(es, k, v), k) == Some(v),
        forall|k2: Seq<char>| k2 != k ==> entries_find(entries_insert(es, k, v), k2)
            == entries_find(es, k2),
    decreases es.len(),
{
    let ins = entries_insert(es, k, v);
    if es.len() == 0 {
        assert forall|k2: Seq<char>| k2 != k implies entries_find(ins, k2)
            == entries_find(es, k2) by {
            assert(ins.drop_first() =~= es);
        }
    } else if es[0].0 == k {
        assert forall|k2: Seq<char>| k2 != k implies entries_find(ins, k2)
            == entries_find(es, k2) by {
            assert(ins.drop_first() =~= es.drop_first());
        }
    } else {
        lemma_insert_find(es.drop_first(), k, v);
        assert(ins == seq![es[0]] + entries_insert(es.drop_first(), k, v));
        assert(ins[0] == es[0]);
        assert(ins.drop_first() =~= entries_insert(es.drop_first(), k, v));
        assert forall|k2: Seq<char>| k2 != k implies entries_find(ins, k2)
            == entries_find(es, k2) by {
            if es[0].0 != k2 {
                assert(entries_find(ins, k2) == entries_find(ins.drop_first(), k2));
                assert(entries_find(es, k2) == entries_find(es.drop_first(), k2));
            }
        }
    }
}

/// Inserting keeps the key order: an existing key leaves the keys unchanged,
/// a new key is appended.
pub proof fn lemma_insert_keys(es: Seq<(Seq<char>, usize)>, k: Seq<char>, v: usize)
    ensures
        (entries_find(es, k) is Some) ==> entries_keys(entries_insert(es, k, v))
            == entries_keys(es),
        (entries_find(es, k) is None) ==> entries_keys(entries_insert(es, k, v))
            == entries_keys(es).push(k),
    decreases es.len(),
{
    let ins = entries_insert(es, k, v);
    if es.len() == 0 {
        assert(entries_keys(ins) =~= entries_keys(es).push(k));
    } else if es[0].0 == k {
        assert(ins == seq![(k, v)] + es.drop_first());
        assert forall|i: int| 0 <= i < es.len() implies entries_keys(ins)[i]
            == entries_keys(es)[i] by {
            if i > 0 {
                assert(ins[i] == es.drop_first()[i - 1]);
            }
        }
        assert(entries_keys(ins) =~= entries_keys(es));
    } else {
        lemma_insert_keys(es.drop_first(), k, v);
        let tail = entries_insert(es.drop_first(), k, v);
        assert(ins == seq![es[0]] + tail);
        assert(ins.len() == 1 + tail.len());
        assert(entries_keys(tail).len() == tail.len());
        assert(entries_keys(es.drop_first()).len() == es.drop_first().len());
        assert(entries_find(es, k) == entries_find(es.drop_first(), k));
        assert(forall|i: int| 0 <= i < tail.len() ==> ins[i + 1] == tail[i]);
        if entries_find(es, k) is Some {
            assert forall|i: int| 0 <= i < es.len() implies entries_keys(ins)[i]
                == entries_keys(es)[i] by {
                if i > 0 {
                    assert(ins[i] == tail[i - 1]);
                    assert(entries_keys(tail)[i - 1] == entries_keys(es.drop_first())[i - 1]);
                    assert(es.drop_first()[i - 1] == es[i]);
                }
            }
            assert(entries_keys(ins) =~= entries_keys(es));
        } else {
            assert forall|i: int| 0 <= i < es.len() + 1 implies entries_keys(ins)[i]
                == entries_keys(es).push(k)[i] by {
                if i > 0 {
                    assert(ins[i] == tail[i - 1]);
                    assert(entries_keys(tail)[i - 1]
                        == entries_keys(es.drop_first()).push(k)[i - 1]);
                    if i < es.len() {
                        assert(es.drop_first()[i - 1] == es[i]);
                    }
                }
            }
            assert(entries_keys(ins) =~= entries_keys(es).push(k));
        }
    }
}

/// Inserting preserves key distinctness.
pub proof fn lemma_insert_unique(es: Seq<(Seq<char>, usize)>, k: Seq<char>, v: usize)
    requires
        keys_unique(es),
    ensures
        keys_unique(entries_insert(es, k, v)),
    decreases es.len(),
{
    let ins = entries_insert(es, k, v);
    if es.len() == 0 {
    } else if es[0].0 == k {
        assert(ins == seq![(k, v)] + es.drop_first());
        assert forall|i: int, j: int| 0 <= i < j < ins.len() implies ins[i].0 != ins[j].0 by {
            if i > 0 {
                assert(ins[i] == es.drop_first()[i - 1]);
                assert(ins[i] == es[i]);
            }
            assert(ins[j] == es.drop_first()[j - 1]);
            assert(ins[j] == es[j]);
        }
    } else {
        assert(keys_unique(es.drop_first())) by {
            assert forall|i: int, j: int| 0 <= i < j < es.drop_first().len()
                implies es.drop_first()[i].0 != es.drop_first()[j].0 by {
                assert(es.drop_first()[i] == es[i + 1]);
                assert(es.drop_first()[j] == es[j + 1]);
            }
        }
        lemma_insert_unique(es.drop_first(), k, v);
        lemma_insert_keys(es.drop_first(), k, v);
        let tail = entries_insert(es.drop_first(), k, v);
        assert(ins == seq![es[0]] + tail);
        assert(ins.len() == 1 + tail.len());
        assert(entries_keys(tail).len() == tail.len());
        assert(entries_keys(es.drop_first()).len() == es.drop_first().len());
        assert(entries_find(es, k) == entries_find(es.drop_first(), k));
        assert forall|i: int, j: int| 0 <= i < j < ins.len() implies ins[i].0 != ins[j].0 by {
            assert(ins[0] == es[0]);
            if i > 0 {
                assert(ins[i] == tail[i - 1]);
            }
            assert(ins[j] == tail[j - 1]);
            if i == 0 {
                // the head key differs from every key of the rewritten tail
                assert(tail[j - 1].0 == entries_keys(tail)[j - 1]);
                if entries_find(es.drop_first(), k) is Some {
                    assert(entries_keys(tail)[j - 1] == es.drop_first()[j - 1].0);
                    assert(es.drop_first()[j - 1] == es[j]);
                } else {
                    if j - 1 < es.drop_first().len() {
                        assert(entries_keys(tail)[j - 1] == es.drop_first()[j - 1].0);
                        assert(es.drop_first()[j - 1] == es[j]);
                    } else {
                        assert(entries_keys(tail)[j - 1] == k);
                    }
                }
            }
        }
    }
}

/// The length after an insert: unchanged for an existing key, one more for a
/// new key.
pub proof fn lemma_insert_len(es: Seq<(Seq<char>, usize)>, k: Seq<char>, v: usize)
    ensures
        (entries_find(es, k) is Some) ==> entries_insert(es, k, v).len() == es.len(),
        (entries_find(es, k) is None) ==> entries_insert(es, k, v).len() == es.len() + 1,
{
    lemma_insert_keys(es, k, v);
    assert(entries_insert(es, k, v).len()
        == entries_keys(entries_insert(es, k, v)).len());
    assert(es.len() == entries_keys(es).len());
}


/// A found value sits at some position, under the looked-up key.
pub proof fn lemma_find_index(es: Seq<(Seq<char>, usize)>, k: Seq<char>)
    ensures
        entries_find(es, k) matches Some(v) ==> exists|j: int|
            0 <= j < es.len() && es[j] == (k, v),
    decreases es.len(),
{
    if es.len() == 0 {
    } else if es[0].0 == k {
        match entries_find(es, k) {
            Some(v) => {
                assert(es[0] == (k, v));
            },
            None => {},
        }
    } else {
        lemma_find_index(es.drop_first(), k);
        match entries_find(es, k) {
            Some(v) => {
                let j = choose|j: int|
                    0 <= j < es.drop_first().len() && es.drop_first()[j] == (k, v);
                assert(es[j + 1] == (k, v));
            },
            None => {},
        }
    }
}

/// Every pair of an inserted sequence is the new pair or one of the old
/// ones.
pub proof fn lemma_insert_pairs(es: Seq<(Seq<char>, usize)>, k: Seq<char>, v: usize)
    ensures
        forall|j: int| 0 <= j < entries_insert(es, k, v).len()
            ==> entries_insert(es, k, v)[j] == (k, v)
                || es.contains(#[trigger] entries_insert(es, k, v)[j]),
    decreases es.len(),
{
    let ins = entries_insert(es, k, v);
    if es.len() == 0 {
    } else if es[0].0 == k {
        assert forall|j: int| 0 <= j < ins.len()
            implies ins[j] == (k, v) || es.contains(ins[j]) by {
            if j > 0 {
                assert(ins[j] == es.drop_first()[j - 1]);
                assert(ins[j] == es[j]);
            }
        }
    } else {
        lemma_insert_pairs(es.drop_first(), k, v);
        let tail = entries_insert(es.drop_first(), k, v);
        assert(ins == seq![es[0]] + tail);
        assert forall|j: int| 0 <= j < ins.len()
            implies ins[j] == (k, v) || es.contains(ins[j]) by {
            if j == 0 {
                assert(ins[0] == es[0]);
            } else {
                assert(ins[j] == tail[j - 1]);
                if tail[j - 1] != (k, v) {
                    let w = choose|w: int| 0 <= w < es.drop_first().len()
                        && es.drop_first()[w] == tail[j - 1];
                    assert(es[w + 1] == tail[j - 1]);
                }
            }
        }
    }
}

} // verus!
