//! The mathematical model of a file tree and of its construction.
//!
//! A tree is modelled as a sequence of nodes, indexed by node id: ids are
//! handed out in creation order, so the node with id `i` sits at position
//! `i`. `build_model` folds a stream of entries over the one-node tree that
//! holds only the root, exactly as the builder does: ancestors are walked
//! and synthesized component by component, and the leaf is attached last.

use vstd::prelude::*;
use crate::child_map::{entries_find, entries_insert, keys_unique};
use crate::file_tree::FileType;
use crate::paths::{components, join_spec};

verus! {

/// The kind-specific payload of a node.
pub enum NodeData {
    File,
    Directory(Seq<(Seq<char>, usize)>),
    Link(Seq<char>),
}

/// One node of the tree: its id, its parent (none only for the root), its
/// display name, its display path, its kind and its payload.
pub struct NodeModel {
    pub id: usize,
    pub parent: Option<usize>,
    pub name: Seq<char>,
    pub path: Seq<char>,
    pub kind: FileType,
    pub data: NodeData,
}

/// One entry of the input stream: a path, a kind, and — for a symlink — the
/// resolved link target, or none when the target could not be read.
pub struct EntrySpec {
    pub path: Seq<char>,
    pub kind: FileType,
    pub target: Option<Seq<char>>,
}

/// The id of the child of `n` named `name`, if `n` is a directory that has
/// one.
pub open spec fn child_of(n: NodeModel, name: Seq<char>) -> Option<usize> {
    match n.data {
        NodeData::Directory(es) => entries_find(es, name),
        _ => None,
    }
}

/// `n` with `name` mapped to `id` — for a directory; any other node is left
/// unchanged.
pub open spec fn with_child(n: NodeModel, name: Seq<char>, id: usize) -> NodeModel {
    match n.data {
        NodeData::Directory(es) => NodeModel {
            data: NodeData::Directory(entries_insert(es, name, id)),
            ..n
        },
        _ => n,
    }
}

/// The root node: it carries the root path as both name and path.
pub open spec fn root_node(root_path: Seq<char>) -> NodeModel {
    NodeModel {
        id: 0,
        parent: None,
        name: root_path,
        path: root_path,
        kind: FileType::Directory,
        data: NodeData::Directory(Seq::empty()),
    }
}

/// The payload an entry resolves to: a symlink whose target could not be
/// read resolves to nothing and the entry is dropped.
pub open spec fn data_of(e: EntrySpec) -> Option<NodeData> {
    match e.kind {
        FileType::File => Some(NodeData::File),
        FileType::Directory => Some(NodeData::Directory(Seq::empty())),
        FileType::Link => match e.target {
            Some(t) => Some(NodeData::Link(t)),
            None => None,
        },
    }
}

/// The components of `path` that lie below a root with `root_count`
/// components.
pub open spec fn post_root(root_count: nat, path: Seq<char>) -> Seq<Seq<char>> {
    let c = components(path);
    if c.len() <= root_count {
        Seq::empty()
    } else {
        c.skip(root_count as int)
    }
}

/// Walks the ancestor components from `cur`, reusing an existing child and
/// synthesizing a fresh directory otherwise, then attaches the leaf under
/// the final component; a colliding leaf name replaces the mapping.
pub open spec fn place_entry(
    nodes: Seq<NodeModel>,
    cur: usize,
    cur_path: Seq<char>,
    comps: Seq<Seq<char>>,
    kind: FileType,
    data: NodeData,
    entry_path: Seq<char>,
) -> Seq<NodeModel>
    decreases comps.len(),
{
    if comps.len() == 0 {
        nodes
    } else if comps.len() == 1 {
        let id = nodes.len() as usize;
        let leaf = NodeModel {
            id,
            parent: Some(cur),
            name: comps[0],
            path: entry_path,
            kind,
            data,
        };
        nodes.push(leaf).update(cur as int, with_child(nodes[cur as int], comps[0], id))
    } else {
        let name = comps[0];
        let next_path = join_spec(cur_path, name);
        match child_of(nodes[cur as int], name) {
            Some(cid) => place_entry(
                nodes,
                cid,
                next_path,
                comps.drop_first(),
                kind,
                data,
                entry_path,
            ),
            None => {
                let nid = nodes.len() as usize;
                let dir = NodeModel {
                    id: nid,
                    parent: Some(cur),
                    name,
                    path: next_path,
                    kind: FileType::Directory,
                    data: NodeData::Directory(Seq::empty()),
                };
                let grown = nodes.push(dir).update(
                    cur as int,
                    with_child(nodes[cur as int], name, nid),
                );
                place_entry(
                    grown,
                    nid,
                    next_path,
                    comps.drop_first(),
                    kind,
                    data,
                    entry_path,
                )
            },
        }
    }
}

/// One entry applied to the tree: entries that resolve to no payload or to
/// no post-root component leave the tree unchanged.
pub open spec fn apply_entry(
    nodes: Seq<NodeModel>,
    root_path: Seq<char>,
    root_count: nat,
    e: EntrySpec,
) -> Seq<NodeModel> {
    match data_of(e) {
        None => nodes,
        Some(d) => {
            let comps = post_root(root_count, e.path);
            if comps.len() == 0 {
                nodes
            } else {
                place_entry(nodes, 0, root_path, comps, e.kind, d, e.path)
            }
        },
    }
}

/// The entries applied in input order.
pub open spec fn build_nodes(
    nodes: Seq<NodeModel>,
    root_path: Seq<char>,
    root_count: nat,
    entries: Seq<EntrySpec>,
) -> Seq<NodeModel>
    decreases entries.len(),
{
    if entries.len() == 0 {
        nodes
    } else {
        build_nodes(
            apply_entry(nodes, root_path, root_count, entries[0]),
            root_path,
            root_count,
            entries.drop_first(),
        )
    }
}

/// The tree a root path and a stream of entries build.
pub open spec fn build_model(root_path: Seq<char>, entries: Seq<EntrySpec>) -> Seq<NodeModel> {
    build_nodes(
        seq![root_node(root_path)],
        root_path,
        components(root_path).len(),
        entries,
    )
}

/// A payload a freshly created node may carry: a directory payload starts
/// empty.
pub open spec fn fresh_data(d: NodeData) -> bool {
    match d {
        NodeData::Directory(es) => es.len() == 0,
        _ => true,
    }
}

/// The child entries of node `i` are sound: distinct names, ids of existing
/// nodes, and each child records this directory as its parent, under the
/// name it is filed under.
pub open spec fn node_children_ok(m: Seq<NodeModel>, i: int) -> bool {
    match m[i].data {
        NodeData::Directory(es) => {
            &&& keys_unique(es)
            &&& forall|j: int| 0 <= j < es.len() ==> es[j].1 < m.len()
            &&& forall|j: int| 0 <= j < es.len() ==> #[trigger] m[es[j].1 as int].parent
                == Some(i as usize)
            &&& forall|j: int| 0 <= j < es.len() ==> #[trigger] m[es[j].1 as int].name
                == es[j].0
        },
        _ => true,
    }
}

/// A well-formed tree model: ids equal positions, the root is a parentless
/// directory, every other node points to an earlier parent, and every
/// child map is sound.
pub open spec fn wf_nodes(m: Seq<NodeModel>) -> bool {
    &&& m.len() >= 1
    &&& m[0].parent is None
    &&& m[0].kind == FileType::Directory
    &&& forall|i: int| 0 <= i < m.len() ==> #[trigger] m[i].id == i
    &&& forall|i: int| 1 <= i < m.len() ==> match #[trigger] m[i].parent {
        Some(p) => p < i,
        None => false,
    }
    &&& forall|i: int| 0 <= i < m.len() ==> node_children_ok(m, i)
}


/// Growing a well-formed tree by one fresh child: the new node goes to the
/// end, records an existing directory as its parent, and is filed in that
/// directory's child map under its name.
pub proof fn lemma_push_child_wf(m: Seq<NodeModel>, cur: usize, node: NodeModel)
    requires
        wf_nodes(m),
        (cur as int) < m.len(),
        node.id as int == m.len(),
        node.parent == Some(cur),
        fresh_data(node.data),
    ensures
        wf_nodes(
            m.push(node).update(cur as int, with_child(m[cur as int], node.name, node.id)),
        ),
{
    let m2 = m.push(node).update(cur as int, with_child(m[cur as int], node.name, node.id));
    let n = m.len() as int;
    assert(m2.len() == n + 1);
    assert(forall|i: int| 0 <= i < n && i != cur ==> m2[i] == m[i]);
    assert(m2[cur as int] == with_child(m[cur as int], node.name, node.id));
    assert(m2[n] == node);
    assert(m2[0].parent is None && m2[0].kind == FileType::Directory) by {
        if cur == 0 {
            assert(m2[0] == with_child(m[0], node.name, node.id));
        }
    }
    assert forall|i: int| 0 <= i < m2.len() implies #[trigger] m2[i].id == i by {
        if i == cur {
        } else if i == n {
        }
    }
    assert forall|i: int| 1 <= i < m2.len() implies match #[trigger] m2[i].parent {
        Some(p) => p < i,
        None => false,
    } by {
        if i == n {
        } else if i == cur {
        }
    }
    assert forall|i: int| 0 <= i < m2.len() implies node_children_ok(m2, i) by {
        if i == n {
            // a fresh payload has no children
            match node.data {
                NodeData::Directory(es) => {
                    assert(es.len() == 0);
                },
                _ => {},
            }
        } else if i == cur {
            match m[cur as int].data {
                NodeData::Directory(es) => {
                    let es2 = entries_insert(es, node.name, node.id);
                    assert(node_children_ok(m, cur as int));
                    crate::child_map::lemma_insert_unique(es, node.name, node.id);
                    crate::child_map::lemma_insert_pairs(es, node.name, node.id);
                    assert(m2[i].data == NodeData::Directory(es2));
                    assert forall|j: int| 0 <= j < es2.len() implies es2[j].1 < m2.len()
                        && #[trigger] m2[es2[j].1 as int].parent == Some(cur)
                        && m2[es2[j].1 as int].name == es2[j].0 by {
                        if es2[j] == (node.name, node.id) {
                            assert(m2[es2[j].1 as int] == node);
                        } else {
                            assert(es.contains(es2[j]));
                            let w = choose|w: int| 0 <= w < es.len() && es[w] == es2[j];
                            assert(es[w].1 < m.len());
                            assert(m[es[w].1 as int].parent == Some(cur));
                            assert(m[es[w].1 as int].name == es[w].0);
                            // the child is not `cur` itself: its parent is `cur`
                            // while `cur`'s own parent is earlier or none
                            assert(es[w].1 != cur);
                            assert(m2[es[w].1 as int] == m[es[w].1 as int]);
                        }
                    }
                },
                _ => {
                    assert(m2[i].data == m[i].data);
                },
            }
        } else {
            assert(node_children_ok(m, i));
            match m2[i].data {
                NodeData::Directory(es) => {
                    assert(m2[i].data == m[i].data);
                    assert forall|j: int| 0 <= j < es.len() implies es[j].1 < m2.len()
                        && #[trigger] m2[es[j].1 as int].parent == Some(i as usize)
                        && m2[es[j].1 as int].name == es[j].0 by {
                        assert(es[j].1 < m.len());
                        assert(m[es[j].1 as int].parent == Some(i as usize));
                        if es[j].1 == cur {
                            assert(m2[cur as int].parent == m[cur as int].parent);
                            assert(m2[cur as int].name == m[cur as int].name);
                        } else {
                            assert(m2[es[j].1 as int] == m[es[j].1 as int]);
                        }
                    }
                },
                _ => {},
            }
        }
    }
}

/// One more entry folded on the right.
pub proof fn lemma_build_nodes_snoc(
    n: Seq<NodeModel>,
    root_path: Seq<char>,
    root_count: nat,
    es: Seq<EntrySpec>,
    i: int,
)
    requires
        0 <= i < es.len(),
    ensures
        build_nodes(n, root_path, root_count, es.take(i + 1)) == apply_entry(
            build_nodes(n, root_path, root_count, es.take(i)),
            root_path,
            root_count,
            es[i],
        ),
    decreases i,
{
    let t = es.take(i + 1);
    if i == 0 {
        assert(t.drop_first() =~= es.take(0));
        assert(build_nodes(n, root_path, root_count, es.take(0)) == n);
        assert(t[0] == es[0]);
        assert(build_nodes(n, root_path, root_count, t) == build_nodes(
            apply_entry(n, root_path, root_count, es[0]),
            root_path,
            root_count,
            es.take(0),
        ));
    } else {
        let n1 = apply_entry(n, root_path, root_count, es[0]);
        lemma_build_nodes_snoc(n1, root_path, root_count, es.drop_first(), i - 1);
        assert(t[0] == es[0]);
        assert(t.drop_first() =~= es.drop_first().take(i));
        assert(es.take(i)[0] == es[0]);
        assert(es.take(i).drop_first() =~= es.drop_first().take(i - 1));
        assert(es.drop_first()[i - 1] == es[i]);
        assert(build_nodes(n, root_path, root_count, t)
            == build_nodes(n1, root_path, root_count, es.drop_first().take(i)));
        assert(build_nodes(n, root_path, root_count, es.take(i))
            == build_nodes(n1, root_path, root_count, es.drop_first().take(i - 1)));
    }
}

} // verus!
