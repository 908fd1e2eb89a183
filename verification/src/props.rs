//! The stated laws of tree construction, proved over the model.

use vstd::prelude::*;
use crate::child_map::{entries_insert, keys_unique, lemma_find_index, lemma_insert_find,
    lemma_insert_pairs, lemma_insert_unique};
use crate::file_tree::FileType;
use crate::model::{apply_entry, build_model, build_nodes, child_of, data_of, fresh_data,
    lemma_push_child_wf, node_children_ok, place_entry, post_root, root_node, wf_nodes,
    with_child, EntrySpec, NodeData, NodeModel};
use crate::paths::{components, join_spec};

verus! {

/// Placing one entry keeps the tree well formed.
pub proof fn lemma_place_entry_wf(
    m: Seq<NodeModel>,
    cur: usize,
    cur_path: Seq<char>,
    comps: Seq<Seq<char>>,
    kind: FileType,
    data: NodeData,
    entry_path: Seq<char>,
)
    requires
        wf_nodes(m),
        (cur as int) < m.len(),
        fresh_data(data),
        m.len() + comps.len() <= usize::MAX,
    ensures
        wf_nodes(place_entry(m, cur, cur_path, comps, kind, data, entry_path)),
        place_entry(m, cur, cur_path, comps, kind, data, entry_path).len() >= m.len(),
        place_entry(m, cur, cur_path, comps, kind, data, entry_path).len() <= m.len()
            + comps.len(),
    decreases comps.len(),
{
    if comps.len() == 0 {
    } else if comps.len() == 1 {
        let leaf = NodeModel {
            id: m.len() as usize,
            parent: Some(cur),
            name: comps[0],
            path: entry_path,
            kind,
            data,
        };
        lemma_push_child_wf(m, cur, leaf);
    } else {
        let name = comps[0];
        let next_path = join_spec(cur_path, name);
        match child_of(m[cur as int], name) {
            Some(cid) => {
                assert(node_children_ok(m, cur as int));
                match m[cur as int].data {
                    NodeData::Directory(es) => {
                        lemma_find_index(es, name);
                        let w = choose|w: int| 0 <= w < es.len() && es[w] == (name, cid);
                        assert(es[w].1 < m.len());
                    },
                    _ => {
                        assert(false);
                    },
                }
                lemma_place_entry_wf(
                    m,
                    cid,
                    next_path,
                    comps.drop_first(),
                    kind,
                    data,
                    entry_path,
                );
            },
            None => {
                let nid = m.len() as usize;
                let dir = NodeModel {
                    id: nid,
                    parent: Some(cur),
                    name,
                    path: next_path,
                    kind: FileType::Directory,
                    data: NodeData::Directory(Seq::empty()),
                };
                let grown = m.push(dir).update(cur as int, with_child(m[cur as int], name, nid));
                lemma_push_child_wf(m, cur, dir);
                lemma_place_entry_wf(
                    grown,
                    nid,
                    next_path,
                    comps.drop_first(),
                    kind,
                    data,
                    entry_path,
                );
            },
        }
    }
}

/// Applying one entry keeps the tree well formed.
pub proof fn lemma_apply_entry_wf(
    m: Seq<NodeModel>,
    root_path: Seq<char>,
    root_count: nat,
    e: EntrySpec,
)
    requires
        wf_nodes(m),
        m.len() + post_root(root_count, e.path).len() <= usize::MAX,
    ensures
        wf_nodes(apply_entry(m, root_path, root_count, e)),
        apply_entry(m, root_path, root_count, e).len() >= m.len(),
        apply_entry(m, root_path, root_count, e).len() <= m.len() + post_root(
            root_count,
            e.path,
        ).len(),
{
    match data_of(e) {
        None => {},
        Some(d) => {
            let comps = post_root(root_count, e.path);
            if comps.len() == 0 {
            } else {
                assert(fresh_data(d));
                lemma_place_entry_wf(m, 0, root_path, comps, e.kind, d, e.path);
            }
        },
    }
}

/// An upper bound on how many nodes a stream of entries can add: one per
/// post-root component of each entry.
pub open spec fn entries_budget(root_count: nat, entries: Seq<EntrySpec>) -> nat
    decreases entries.len(),
{
    if entries.len() == 0 {
        0
    } else {
        post_root(root_count, entries[0].path).len() + entries_budget(
            root_count,
            entries.drop_first(),
        )
    }
}

/// A built tree is well formed: ids equal positions, the root is a
/// parentless directory, every other node has an earlier parent, and every
/// child map is sound. The stream must be one the machine could hold:
/// small enough that ids fit the id type.
pub proof fn lemma_build_model_wf(root_path: Seq<char>, entries: Seq<EntrySpec>)
    requires
        1 + entries_budget(components(root_path).len(), entries) <= usize::MAX,
    ensures
        wf_nodes(build_model(root_path, entries)),
{
    lemma_build_nodes_wf(
        seq![root_node(root_path)],
        root_path,
        components(root_path).len(),
        entries,
    );
}

proof fn lemma_build_nodes_wf(
    m: Seq<NodeModel>,
    root_path: Seq<char>,
    root_count: nat,
    entries: Seq<EntrySpec>,
)
    requires
        wf_nodes(m) || m == seq![root_node(root_path)],
        m.len() + entries_budget(root_count, entries) <= usize::MAX,
    ensures
        wf_nodes(build_nodes(m, root_path, root_count, entries)),
    decreases entries.len(),
{
    assert(wf_nodes(seq![root_node(root_path)]));
    if entries.len() == 0 {
    } else {
        let m1 = apply_entry(m, root_path, root_count, entries[0]);
        lemma_apply_entry_wf(m, root_path, root_count, entries[0]);
        lemma_build_nodes_wf(
            m1,
            root_path,
            root_count,
            entries.drop_first(),
        );
    }
}


/// Following child maps from `id` along `comps`.
pub open spec fn resolve(m: Seq<NodeModel>, id: usize, comps: Seq<Seq<char>>) -> Option<usize>
    decreases comps.len(),
{
    if comps.len() == 0 {
        Some(id)
    } else {
        match child_of(m[id as int], comps[0]) {
            Some(c) => resolve(m, c, comps.drop_first()),
            None => None,
        }
    }
}

/// Every existing child met on the ancestor walk is a directory.
pub open spec fn walk_dirs_ok(m: Seq<NodeModel>, id: usize, comps: Seq<Seq<char>>) -> bool
    decreases comps.len(),
{
    comps.len() <= 1 || match child_of(m[id as int], comps[0]) {
        Some(c) => (m[c as int].data is Directory) && walk_dirs_ok(m, c, comps.drop_first()),
        None => true,
    }
}

/// How many leading ancestor components find an existing child. Once one is
/// missing, a fresh empty directory is synthesized and nothing after it can
/// be found, so this counts exactly the reused ancestors.
pub open spec fn walk_len(m: Seq<NodeModel>, id: usize, comps: Seq<Seq<char>>) -> nat
    decreases comps.len(),
{
    if comps.len() <= 1 {
        0
    } else {
        match child_of(m[id as int], comps[0]) {
            Some(c) => 1 + walk_len(m, c, comps.drop_first()),
            None => 0,
        }
    }
}

/// Placing an entry touches no node below the walk's start, and changes no
/// node's parent, name, kind, or directory-ness.
pub proof fn lemma_place_entry_frame(
    m: Seq<NodeModel>,
    cur: usize,
    cur_path: Seq<char>,
    comps: Seq<Seq<char>>,
    kind: FileType,
    data: NodeData,
    entry_path: Seq<char>,
)
    requires
        wf_nodes(m),
        (cur as int) < m.len(),
        m.len() + comps.len() <= usize::MAX,
    ensures
        ({
            let t = place_entry(m, cur, cur_path, comps, kind, data, entry_path);
            &&& forall|i: int| 0 <= i < m.len() ==> #[trigger] t[i].parent == m[i].parent
                && t[i].name == m[i].name && t[i].kind == m[i].kind
            &&& forall|i: int| 0 <= i < m.len() ==> ((#[trigger] t[i].data is Directory)
                <==> (m[i].data is Directory))
            &&& forall|i: int| 0 <= i < cur ==> #[trigger] t[i] == m[i]
        }),
    decreases comps.len(),
{
    let t = place_entry(m, cur, cur_path, comps, kind, data, entry_path);
    if comps.len() == 0 {
    } else if comps.len() == 1 {
        let leaf = NodeModel {
            id: m.len() as usize,
            parent: Some(cur),
            name: comps[0],
            path: entry_path,
            kind,
            data,
        };
        assert(t == m.push(leaf).update(cur as int, with_child(m[cur as int], comps[0], leaf.id)));
    } else {
        let name = comps[0];
        let next_path = join_spec(cur_path, name);
        match child_of(m[cur as int], name) {
            Some(cid) => {
                assert(node_children_ok(m, cur as int));
                match m[cur as int].data {
                    NodeData::Directory(es) => {
                        lemma_find_index(es, name);
                        let w = choose|w: int| 0 <= w < es.len() && es[w] == (name, cid);
                        assert(es[w].1 < m.len());
                        assert(m[cid as int].parent == Some(cur));
                        assert(cur < cid);
                    },
                    _ => {
                        assert(false);
                    },
                }
                lemma_place_entry_frame(m, cid, next_path, comps.drop_first(), kind, data, entry_path);
            },
            None => {
                let nid = m.len() as usize;
                let dir = NodeModel {
                    id: nid,
                    parent: Some(cur),
                    name,
                    path: next_path,
                    kind: FileType::Directory,
                    data: NodeData::Directory(Seq::empty()),
                };
                let grown = m.push(dir).update(cur as int, with_child(m[cur as int], name, nid));
                lemma_push_child_wf(m, cur, dir);
                lemma_place_entry_frame(grown, nid, next_path, comps.drop_first(), kind, data, entry_path);
            },
        }
    }
}

/// Ancestor synthesis: placing an entry materializes every ancestor prefix
/// as a directory, exactly once — the node count grows by one per missing
/// ancestor plus one for the leaf, and a prefix that already resolved keeps
/// resolving to the same id.
pub proof fn lemma_ancestors_materialized(
    m: Seq<NodeModel>,
    cur: usize,
    cur_path: Seq<char>,
    comps: Seq<Seq<char>>,
    kind: FileType,
    data: NodeData,
    entry_path: Seq<char>,
)
    requires
        wf_nodes(m),
        (cur as int) < m.len(),
        fresh_data(data),
        m.len() + comps.len() <= usize::MAX,
        comps.len() >= 1,
        m[cur as int].data is Directory,
        walk_dirs_ok(m, cur, comps),
    ensures
        ({
            let t = place_entry(m, cur, cur_path, comps, kind, data, entry_path);
            &&& t.len() == m.len() + comps.len() - walk_len(m, cur, comps)
            &&& forall|q: int| 0 <= q < comps.len()
                ==> match #[trigger] resolve(t, cur, comps.take(q)) {
                    Some(x) => (x as int) < t.len() && t[x as int].data is Directory,
                    None => false,
                }
            &&& forall|q: int| 0 <= q < comps.len() && (#[trigger] resolve(
                m,
                cur,
                comps.take(q),
            ) is Some) ==> resolve(t, cur, comps.take(q)) == resolve(m, cur, comps.take(q))
        }),
    decreases comps.len(),
{
    let t = place_entry(m, cur, cur_path, comps, kind, data, entry_path);
    lemma_place_entry_wf(m, cur, cur_path, comps, kind, data, entry_path);
    assert(comps.take(0) =~= Seq::<Seq<char>>::empty());
    if comps.len() == 1 {
        let leaf = NodeModel {
            id: m.len() as usize,
            parent: Some(cur),
            name: comps[0],
            path: entry_path,
            kind,
            data,
        };
        assert(t == m.push(leaf).update(cur as int, with_child(m[cur as int], comps[0], leaf.id)));
        assert(t[cur as int] == with_child(m[cur as int], comps[0], leaf.id));
        assert(t[cur as int].data is Directory);
        assert(resolve(t, cur, comps.take(0)) == Some(cur));
        assert(resolve(m, cur, comps.take(0)) == Some(cur));
    } else {
        let name = comps[0];
        let next_path = join_spec(cur_path, name);
        let rest = comps.drop_first();
        assert forall|q: int| 1 <= q < comps.len() implies comps.take(q).len() == q
            && comps.take(q)[0] == name && comps.take(q).drop_first() =~= rest.take(q - 1) by {}
        match child_of(m[cur as int], name) {
            Some(cid) => {
                assert(node_children_ok(m, cur as int));
                match m[cur as int].data {
                    NodeData::Directory(es) => {
                        lemma_find_index(es, name);
                        let w = choose|w: int| 0 <= w < es.len() && es[w] == (name, cid);
                        assert(es[w].1 < m.len());
                        assert(m[cid as int].parent == Some(cur));
                        assert(cur < cid);
                    },
                    _ => {
                        assert(false);
                    },
                }
                lemma_place_entry_frame(m, cid, next_path, rest, kind, data, entry_path);
                lemma_ancestors_materialized(m, cid, next_path, rest, kind, data, entry_path);
                assert(t[cur as int] == m[cur as int]);
                assert(walk_len(m, cur, comps) == 1 + walk_len(m, cid, rest));
                assert forall|q: int| 0 <= q < comps.len() implies match #[trigger] resolve(
                    t,
                    cur,
                    comps.take(q),
                ) {
                    Some(x) => (x as int) < t.len() && t[x as int].data is Directory,
                    None => false,
                } by {
                    if q == 0 {
                        assert(resolve(t, cur, comps.take(0)) == Some(cur));
                    } else {
                        assert(child_of(t[cur as int], comps.take(q)[0]) == Some(cid));
                        assert(resolve(t, cur, comps.take(q)) == resolve(
                            t,
                            cid,
                            rest.take(q - 1),
                        ));
                    }
                }
                assert forall|q: int| 0 <= q < comps.len() && (#[trigger] resolve(
                    m,
                    cur,
                    comps.take(q),
                ) is Some) implies resolve(t, cur, comps.take(q)) == resolve(
                    m,
                    cur,
                    comps.take(q),
                ) by {
                    if q > 0 {
                        assert(resolve(m, cur, comps.take(q)) == resolve(m, cid, rest.take(q - 1)));
                        assert(resolve(t, cur, comps.take(q)) == resolve(t, cid, rest.take(q - 1)));
                    }
                }
            },
            None => {
                let nid = m.len() as usize;
                let dir = NodeModel {
                    id: nid,
                    parent: Some(cur),
                    name,
                    path: next_path,
                    kind: FileType::Directory,
                    data: NodeData::Directory(Seq::empty()),
                };
                let grown = m.push(dir).update(cur as int, with_child(m[cur as int], name, nid));
                lemma_push_child_wf(m, cur, dir);
                assert(grown[nid as int].data == NodeData::Directory(Seq::empty()));
                assert(walk_dirs_ok(grown, nid, rest)) by {
                    if rest.len() > 1 {
                        assert(child_of(grown[nid as int], rest[0]) is None);
                    }
                }
                assert(walk_len(grown, nid, rest) == 0) by {
                    if rest.len() > 1 {
                        assert(child_of(grown[nid as int], rest[0]) is None);
                    }
                }
                lemma_place_entry_frame(grown, nid, next_path, rest, kind, data, entry_path);
                lemma_ancestors_materialized(grown, nid, next_path, rest, kind, data, entry_path);
                assert(t == place_entry(grown, nid, next_path, rest, kind, data, entry_path));
                assert(t[cur as int] == grown[cur as int]);
                assert(walk_len(m, cur, comps) == 0);
                assert(t.len() == grown.len() + rest.len());
                match m[cur as int].data {
                    NodeData::Directory(es) => {
                        lemma_insert_find(es, name, nid);
                        assert(child_of(grown[cur as int], name) == Some(nid));
                    },
                    _ => {
                        assert(false);
                    },
                }
                assert forall|q: int| 0 <= q < comps.len() implies match #[trigger] resolve(
                    t,
                    cur,
                    comps.take(q),
                ) {
                    Some(x) => (x as int) < t.len() && t[x as int].data is Directory,
                    None => false,
                } by {
                    if q == 0 {
                        assert(resolve(t, cur, comps.take(0)) == Some(cur));
                        assert(t[cur as int].data is Directory);
                    } else {
                        assert(child_of(t[cur as int], comps.take(q)[0]) == Some(nid));
                        assert(resolve(t, cur, comps.take(q)) == resolve(
                            t,
                            nid,
                            rest.take(q - 1),
                        ));
                    }
                }
                assert forall|q: int| 0 <= q < comps.len() && (#[trigger] resolve(
                    m,
                    cur,
                    comps.take(q),
                ) is Some) implies resolve(t, cur, comps.take(q)) == resolve(
                    m,
                    cur,
                    comps.take(q),
                ) by {
                    if q > 0 {
                        assert(resolve(m, cur, comps.take(q)) is None);
                    }
                }
            },
        }
    }
}

/// An empty stream builds exactly one node: the root, a directory with no
/// children.
pub proof fn lemma_build_empty(root_path: Seq<char>)
    ensures
        build_model(root_path, Seq::empty()).len() == 1,
        build_model(root_path, Seq::empty())[0] == root_node(root_path),
        build_model(root_path, Seq::empty())[0].kind == FileType::Directory,
        build_model(root_path, Seq::empty())[0].data == NodeData::Directory(Seq::empty()),
        build_model(root_path, Seq::empty())[0].parent is None,
{
    assert(build_nodes(
        seq![root_node(root_path)],
        root_path,
        components(root_path).len(),
        Seq::empty(),
    ) == seq![root_node(root_path)]);
}



/// The child names of a node, in map order; empty for anything but a
/// directory.
pub open spec fn child_keys(n: NodeModel) -> Seq<Seq<char>> {
    match n.data {
        NodeData::Directory(es) => crate::child_map::entries_keys(es),
        _ => Seq::empty(),
    }
}

/// `b` extends `a`: every name of `a` keeps its position, and anything new
/// comes after.
pub open spec fn keys_extended(a: Seq<Seq<char>>, b: Seq<Seq<char>>) -> bool {
    a.len() <= b.len() && forall|w: int| 0 <= w < a.len() ==> a[w] == b[w]
}

/// Placing one entry never reorders a directory: every existing name keeps
/// its position in its directory's child map, and new names are appended.
pub proof fn lemma_place_entry_keeps_order(
    m: Seq<NodeModel>,
    cur: usize,
    cur_path: Seq<char>,
    comps: Seq<Seq<char>>,
    kind: FileType,
    data: NodeData,
    entry_path: Seq<char>,
)
    requires
        wf_nodes(m),
        (cur as int) < m.len(),
        m.len() + comps.len() <= usize::MAX,
    ensures
        ({
            let t = place_entry(m, cur, cur_path, comps, kind, data, entry_path);
            forall|i: int| 0 <= i < m.len() ==> keys_extended(
                child_keys(m[i]),
                #[trigger] child_keys(t[i]),
            )
        }),
    decreases comps.len(),
{
    let t = place_entry(m, cur, cur_path, comps, kind, data, entry_path);
    if comps.len() == 0 {
    } else if comps.len() == 1 {
        let leaf = NodeModel {
            id: m.len() as usize,
            parent: Some(cur),
            name: comps[0],
            path: entry_path,
            kind,
            data,
        };
        assert(t == m.push(leaf).update(cur as int, with_child(m[cur as int], comps[0], leaf.id)));
        assert forall|i: int| 0 <= i < m.len() implies keys_extended(
            child_keys(m[i]),
            #[trigger] child_keys(t[i]),
        ) by {
            if i == cur {
                match m[i].data {
                    NodeData::Directory(es) => {
                        crate::child_map::lemma_insert_keys(es, comps[0], leaf.id);
                    },
                    _ => {},
                }
            }
        }
    } else {
        let name = comps[0];
        let next_path = join_spec(cur_path, name);
        match child_of(m[cur as int], name) {
            Some(cid) => {
                assert(node_children_ok(m, cur as int));
                match m[cur as int].data {
                    NodeData::Directory(es) => {
                        lemma_find_index(es, name);
                        let w = choose|w: int| 0 <= w < es.len() && es[w] == (name, cid);
                        assert(es[w].1 < m.len());
                    },
                    _ => {
                        assert(false);
                    },
                }
                lemma_place_entry_keeps_order(
                    m,
                    cid,
                    next_path,
                    comps.drop_first(),
                    kind,
                    data,
                    entry_path,
                );
                assert(t == place_entry(m, cid, next_path, comps.drop_first(), kind, data,
                    entry_path));
            },
            None => {
                let nid = m.len() as usize;
                let dir = NodeModel {
                    id: nid,
                    parent: Some(cur),
                    name,
                    path: next_path,
                    kind: FileType::Directory,
                    data: NodeData::Directory(Seq::empty()),
                };
                let grown = m.push(dir).update(cur as int, with_child(m[cur as int], name, nid));
                lemma_push_child_wf(m, cur, dir);
                lemma_place_entry_keeps_order(
                    grown,
                    nid,
                    next_path,
                    comps.drop_first(),
                    kind,
                    data,
                    entry_path,
                );
                assert(t == place_entry(grown, nid, next_path, comps.drop_first(), kind, data,
                    entry_path));
                assert forall|i: int| 0 <= i < m.len() implies keys_extended(
                    child_keys(m[i]),
                    #[trigger] child_keys(t[i]),
                ) by {
                    assert(keys_extended(child_keys(grown[i]), child_keys(t[i])));
                    if i == cur {
                        match m[i].data {
                            NodeData::Directory(es) => {
                                crate::child_map::lemma_insert_keys(es, name, nid);
                            },
                            _ => {},
                        }
                    } else {
                        assert(grown[i] == m[i]);
                    }
                }
            },
        }
    }
}

/// Child-map order is stable across a whole build: once a name is in a
/// directory, its position never changes, whatever later entries — in this
/// or any other directory — are folded in. Iteration order therefore equals
/// first-insertion order per directory.
pub proof fn lemma_build_keeps_order(
    m: Seq<NodeModel>,
    root_path: Seq<char>,
    root_count: nat,
    entries: Seq<EntrySpec>,
)
    requires
        wf_nodes(m),
        m.len() + entries_budget(root_count, entries) <= usize::MAX,
    ensures
        ({
            let t = build_nodes(m, root_path, root_count, entries);
            forall|i: int| 0 <= i < m.len() ==> keys_extended(
                child_keys(m[i]),
                #[trigger] child_keys(t[i]),
            )
        }),
    decreases entries.len(),
{
    let t = build_nodes(m, root_path, root_count, entries);
    if entries.len() == 0 {
    } else {
        let e = entries[0];
        let m1 = apply_entry(m, root_path, root_count, e);
        lemma_apply_entry_wf(m, root_path, root_count, e);
        assert(m1.len() >= m.len());
        lemma_build_keeps_order(m1, root_path, root_count, entries.drop_first());
        assert(t == build_nodes(m1, root_path, root_count, entries.drop_first()));
        match data_of(e) {
            None => {},
            Some(d) => {
                let comps = post_root(root_count, e.path);
                if comps.len() > 0 {
                    lemma_place_entry_keeps_order(m, 0, root_path, comps, e.kind, d, e.path);
                }
            },
        }
        assert forall|i: int| 0 <= i < m.len() implies keys_extended(
            child_keys(m[i]),
            #[trigger] child_keys(t[i]),
        ) by {
            assert(keys_extended(child_keys(m[i]), child_keys(m1[i])));
            assert(keys_extended(child_keys(m1[i]), child_keys(t[i])));
        }
    }
}


/// In a built tree the root is parentless, and whenever a directory's child
/// map references a node, that node records the directory as its parent —
/// `get_parent` of any reachable non-root node returns its owning ancestor.
pub proof fn lemma_parents_are_owners(root_path: Seq<char>, entries: Seq<EntrySpec>)
    requires
        1 + entries_budget(components(root_path).len(), entries) <= usize::MAX,
    ensures
        ({
            let m = build_model(root_path, entries);
            &&& m.len() >= 1
            &&& m[0].parent is None
            &&& forall|i: int, w: int, id: usize| 0 <= i < m.len() && #[trigger] child_ref_at(
                m,
                i,
                w,
                id,
            ) ==> (id as int) < m.len() && m[id as int].parent == Some(i as usize)
        }),
{
    lemma_build_model_wf(root_path, entries);
    let m = build_model(root_path, entries);
    assert forall|i: int, w: int, id: usize| 0 <= i < m.len() && #[trigger] child_ref_at(
        m,
        i,
        w,
        id,
    ) implies (id as int) < m.len() && m[id as int].parent == Some(i as usize) by {
        assert(node_children_ok(m, i));
        match m[i].data {
            NodeData::Directory(es) => {
                assert(es[w].1 == id);
                assert(m[es[w].1 as int].parent == Some(i as usize));
            },
            _ => {},
        }
    }
}

/// One file entry a single component below the root: the root's child map
/// gains that component, mapped to a file node that carries the entry's
/// path verbatim.
pub proof fn lemma_single_file_entry(root_path: Seq<char>, e: EntrySpec)
    requires
        e.kind == FileType::File,
        post_root(components(root_path).len(), e.path).len() == 1,
    ensures
        ({
            let m = build_model(root_path, seq![e]);
            let a = post_root(components(root_path).len(), e.path)[0];
            &&& m.len() == 2
            &&& child_of(m[0], a) == Some(1usize)
            &&& m[1].kind == FileType::File
            &&& m[1].data is File
            &&& m[1].path == e.path
            &&& m[1].name == a
            &&& m[1].parent == Some(0usize)
        }),
{
    let rc = components(root_path).len();
    let m0 = seq![root_node(root_path)];
    let comps = post_root(rc, e.path);
    let a = comps[0];
    reveal_with_fuel(build_nodes, 2);
    assert(seq![e].drop_first() =~= Seq::<EntrySpec>::empty());
    assert(seq![e][0] == e);
    assert(build_nodes(apply_entry(m0, root_path, rc, e), root_path, rc, Seq::empty())
        == apply_entry(m0, root_path, rc, e));
    assert(build_model(root_path, seq![e]) == apply_entry(m0, root_path, rc, e));
    assert(data_of(e) == Some(NodeData::File));
    let leaf = NodeModel {
        id: 1,
        parent: Some(0usize),
        name: a,
        path: e.path,
        kind: FileType::File,
        data: NodeData::File,
    };
    let m = m0.push(leaf).update(0, with_child(m0[0], a, 1));
    assert(apply_entry(m0, root_path, rc, e) == m);
    assert(m[0] == with_child(m0[0], a, 1));
    assert(m[0].data == NodeData::Directory(entries_insert(Seq::empty(), a, 1)));
    lemma_insert_find(Seq::empty(), a, 1);
    assert(m[1] == leaf);
}

/// How many children a node has; zero for anything but a directory.
pub open spec fn child_count(n: NodeModel) -> nat {
    match n.data {
        NodeData::Directory(es) => es.len(),
        _ => 0,
    }
}

/// Whether some directory's child map holds a pair at position `w` whose
/// value is `id`.
pub open spec fn child_ref_at(m: Seq<NodeModel>, i: int, w: int, id: usize) -> bool {
    match m[i].data {
        NodeData::Directory(es) => 0 <= w < es.len() && es[w].1 == id,
        _ => false,
    }
}

/// Whether any directory of the tree references `id` as a child.
pub open spec fn referenced(m: Seq<NodeModel>, id: usize) -> bool {
    exists|i: int, w: int| 0 <= i < m.len() && #[trigger] child_ref_at(m, i, w, id)
}

/// A colliding leaf insert replaces the mapping — last write wins: the
/// directory then files the name under the new node's id, the old node
/// keeps its place in the arena unchanged, and no child map of the tree
/// references it any longer.
pub proof fn lemma_collision_replaces(
    m: Seq<NodeModel>,
    cur: usize,
    cur_path: Seq<char>,
    comps: Seq<Seq<char>>,
    kind: FileType,
    data: NodeData,
    entry_path: Seq<char>,
    old_id: usize,
)
    requires
        wf_nodes(m),
        (cur as int) < m.len(),
        m.len() + 1 <= usize::MAX,
        fresh_data(data),
        comps.len() == 1,
        child_of(m[cur as int], comps[0]) == Some(old_id),
    ensures
        ({
            let t = place_entry(m, cur, cur_path, comps, kind, data, entry_path);
            let nid = m.len() as usize;
            &&& t.len() == m.len() + 1
            &&& child_of(t[cur as int], comps[0]) == Some(nid)
            &&& child_count(t[cur as int]) == child_count(m[cur as int])
            &&& t[old_id as int] == m[old_id as int]
            &&& !referenced(t, old_id)
        }),
{
    let t = place_entry(m, cur, cur_path, comps, kind, data, entry_path);
    let nid = m.len() as usize;
    let a = comps[0];
    let leaf = NodeModel {
        id: nid,
        parent: Some(cur),
        name: a,
        path: entry_path,
        kind,
        data,
    };
    assert(t == m.push(leaf).update(cur as int, with_child(m[cur as int], a, nid)));
    assert(node_children_ok(m, cur as int));
    match m[cur as int].data {
        NodeData::Directory(es) => {
            lemma_find_index(es, a);
            let w = choose|w: int| 0 <= w < es.len() && es[w] == (a, old_id);
            assert(es[w].1 < m.len());
            assert(m[old_id as int].parent == Some(cur));
            assert(m[old_id as int].name == a);
            assert(old_id != cur);
            let es2 = entries_insert(es, a, nid);
            lemma_insert_find(es, a, nid);
            crate::child_map::lemma_insert_len(es, a, nid);
            assert(t[cur as int].data == NodeData::Directory(es2));
            assert(child_of(t[cur as int], a) == Some(nid));
            assert(t[old_id as int] == m[old_id as int]);
            lemma_insert_unique(es, a, nid);
            lemma_insert_pairs(es, a, nid);
            lemma_find_index(es2, a);
            let w2 = choose|w2: int| 0 <= w2 < es2.len() && es2[w2] == (a, nid);
            assert forall|i: int, v: int| 0 <= i < t.len() implies !child_ref_at(
                t,
                i,
                v,
                old_id,
            ) by {
                if child_ref_at(t, i, v, old_id) {
                    if i == cur {
                        assert(es2[v].1 == old_id);
                        assert((old_id as int) < (nid as int));
                        assert(es2[v] != (a, nid));
                        assert(es.contains(es2[v]));
                        let u = choose|u: int| 0 <= u < es.len() && es[u] == es2[v];
                        // a pair of the old map valued `old_id` is filed
                        // under the old node's own name, which is `a`
                        assert(m[es[u].1 as int].name == es[u].0);
                        assert(es2[v].0 == a);
                        // but in the rewritten map the only pair keyed `a`
                        // is the new one
                        assert(keys_unique(es2));
                        if v != w2 {
                            assert(es2[v].0 != es2[w2].0);
                        }
                        assert(false);
                    } else if i == nid as int {
                        assert(t[i] == leaf);
                        assert(fresh_data(leaf.data));
                        match leaf.data {
                            NodeData::Directory(les) => {
                                assert(les.len() == 0);
                            },
                            _ => {},
                        }
                        assert(false);
                    } else {
                        assert(t[i] == m[i]);
                        assert(node_children_ok(m, i));
                        match m[i].data {
                            NodeData::Directory(oes) => {
                                assert(oes[v].1 == old_id);
                                assert(m[old_id as int].parent == Some(i as usize));
                            },
                            _ => {},
                        }
                        assert(false);
                    }
                }
            }
            assert(!referenced(t, old_id));
        },
        _ => {
            assert(false);
        },
    }
}

/// A symlink entry whose target could not be read contributes nothing: the
/// tree, and with it every child map, is left exactly as it was.
pub proof fn lemma_unreadable_link_dropped(
    m: Seq<NodeModel>,
    root_path: Seq<char>,
    root_count: nat,
    e: EntrySpec,
)
    requires
        e.kind == FileType::Link,
        e.target is None,
    ensures
        apply_entry(m, root_path, root_count, e) == m,
{
}


} // verus!
