//! The file tree engine: a flat, arbitrarily ordered stream of path/kind
//! entries is turned into a fully connected tree held in a node arena,
//! with missing intermediate directories synthesized on demand.

use vstd::prelude::*;
use indexmap::IndexMap;
use slab::Slab;
use crate::child_map::{child_map_entries, child_map_get, child_map_insert, child_map_len,
    child_map_new};
use crate::model::{apply_entry, build_model, build_nodes, child_of, data_of, fresh_data,
    lemma_build_nodes_snoc, lemma_push_child_wf, node_children_ok, place_entry, post_root,
    root_node, wf_nodes, with_child, EntrySpec, NodeData, NodeModel};
use crate::paths::{components, join_path, join_spec, lemma_views_of_push, split_components,
    to_string, views_of};
use crate::storage::{slab_dense, slab_get, slab_get_mut, slab_insert, slab_new, slab_next,
    slab_nodes, slab_vacant_key};

verus! {

/// The kind of a file system object.
#[derive(Structural, PartialEq, Eq, Clone, Copy, Debug)]
pub enum FileType {
    File,
    Directory,
    Link,
}

impl FileType {
    /// The kind a file's metadata flags describe: a directory flag wins,
    /// then a symlink flag, and anything else is a plain file.
    pub fn from_flags(is_dir: bool, is_symlink: bool) -> (r: FileType)
        ensures
            r == (if is_dir {
                FileType::Directory
            } else if is_symlink {
                FileType::Link
            } else {
                FileType::File
            }),
    {
        if is_dir {
            FileType::Directory
        } else if is_symlink {
            FileType::Link
        } else {
            FileType::File
        }
    }
}

/// The kind-specific payload of a node: nothing for a file, the ordered
/// child map for a directory, the link target for a symlink.
pub enum TypeSpecficData {
    File,
    Directory(IndexMap<String, usize>),
    Link(String),
}

impl View for TypeSpecficData {
    type V = NodeData;

    open spec fn view(&self) -> NodeData {
        match self {
            TypeSpecficData::File => NodeData::File,
            TypeSpecficData::Directory(m) => NodeData::Directory(child_map_entries(*m)),
            TypeSpecficData::Link(t) => NodeData::Link(t@),
        }
    }
}

/// One node of the tree.
pub struct File {
    pub id: usize,
    parent: Option<usize>,
    pub display_name: String,
    pub path: String,
    pub file_type: FileType,
    pub data: TypeSpecficData,
}

impl View for File {
    type V = NodeModel;

    closed spec fn view(&self) -> NodeModel {
        NodeModel {
            id: self.id,
            parent: self.parent,
            name: self.display_name@,
            path: self.path@,
            kind: self.file_type,
            data: self.data@,
        }
    }
}

impl File {
    /// How many children the node has; zero for anything but a directory.
    pub fn children_count(&self) -> (r: usize)
        ensures
            r as int == match self@.data {
                NodeData::Directory(es) => es.len() as int,
                _ => 0,
            },
    {
        if let TypeSpecficData::Directory(children) = &self.data {
            child_map_len(children)
        } else {
            0
        }
    }

    /// The child map of a directory node; nothing for the other kinds.
    pub fn children(&self) -> (r: Option<&IndexMap<String, usize>>)
        ensures
            match r {
                Some(m) => self@.data == NodeData::Directory(child_map_entries(*m)),
                None => !(self@.data is Directory),
            },
    {
        if let TypeSpecficData::Directory(children) = &self.data {
            Some(children)
        } else {
            None
        }
    }

    /// The link target of a symlink node; nothing for the other kinds.
    pub fn link(&self) -> (r: Option<String>)
        ensures
            match r {
                Some(t) => self@.data == NodeData::Link(t@),
                None => !(self@.data is Link),
            },
    {
        if let TypeSpecficData::Link(link) = &self.data {
            Some(link.clone())
        } else {
            None
        }
    }

    /// The id filed under `name` in this node's child map, if any.
    fn child_key(&self, name: &str) -> (r: Option<usize>)
        ensures
            r == child_of(self@, name@),
    {
        if let TypeSpecficData::Directory(children) = &self.data {
            child_map_get(children, name)
        } else {
            None
        }
    }

    /// Files `id` under `name` in this node's child map; a node that is not
    /// a directory is left unchanged.
    fn add_child(&mut self, name: &str, id: usize)
        ensures
            final(self)@ == with_child(old(self)@, name@, id),
    {
        if let TypeSpecficData::Directory(children) = &mut self.data {
            child_map_insert(children, to_string(name), id);
        }
    }

    /// Whether the node is a plain file.
    pub fn is_file(&self) -> (r: bool)
        ensures
            r == (self@.data is File),
    {
        if let TypeSpecficData::File = self.data {
            true
        } else {
            false
        }
    }

    /// Whether the node is a directory.
    pub fn is_dir(&self) -> (r: bool)
        ensures
            r == (self@.data is Directory),
    {
        if let TypeSpecficData::Directory(_) = self.data {
            true
        } else {
            false
        }
    }
}

/// The arena's pairing with a tree model: the slab is dense, holds exactly
/// the ids below the model's length, and each stored node views to the
/// model's node of its id.
pub open spec fn arena_inv(s: Slab<File>, m: Seq<NodeModel>) -> bool {
    &&& slab_dense(s)
    &&& slab_next(s) as int == m.len()
    &&& forall|i: usize| #[trigger] slab_nodes(s).dom().contains(i) ==> (i as int) < m.len()
    &&& forall|i: usize| (i as int) < m.len() ==> #[trigger] slab_nodes(s).dom().contains(i)
    &&& forall|i: usize| (i as int) < m.len() ==> #[trigger] slab_nodes(s)[i]@ == m[i as int]
}

/// The finished tree: the arena and the root's id.
pub struct FileTree {
    pub storage: Slab<File>,
    pub root_id: usize,
}

impl FileTree {
    /// The stored nodes, by id.
    pub open spec fn nodes(self) -> Map<usize, File> {
        slab_nodes(self.storage)
    }

    /// Whether `id` names a node of this tree.
    pub open spec fn has_id(self, id: usize) -> bool {
        self.nodes().dom().contains(id)
    }

    /// The model of the node with the given id.
    pub open spec fn node(self, id: usize) -> NodeModel {
        self.nodes()[id]@
    }

    /// The tree realizes the model `m`: the root is node 0 and the arena
    /// holds exactly `m`.
    pub open spec fn represents(self, m: Seq<NodeModel>) -> bool {
        &&& self.root_id == 0
        &&& arena_inv(self.storage, m)
    }

    /// The tree is closed under the parent relation and has its root.
    pub open spec fn wf(self) -> bool {
        &&& self.has_id(self.root_id)
        &&& forall|i: usize| #[trigger] self.has_id(i) ==> match self.node(i).parent {
            Some(p) => self.has_id(p),
            None => true,
        }
    }

    /// The node with the given id.
    pub fn get(&self, id: usize) -> (r: &File)
        requires
            self.has_id(id),
        ensures
            *r == self.nodes()[id],
            r@ == self.node(id),
    {
        slab_get(&self.storage, id)
    }

    /// The root node.
    pub fn get_root(&self) -> (r: &File)
        requires
            self.has_id(self.root_id),
        ensures
            *r == self.nodes()[self.root_id],
            r@ == self.node(self.root_id),
    {
        self.get(self.root_id)
    }

    /// The parent of a node of this tree: none for the root, else the
    /// owning directory.
    pub fn get_parent(&self, file: &File) -> (r: Option<&File>)
        requires
            match file@.parent {
                Some(p) => self.has_id(p),
                None => true,
            },
        ensures
            match file@.parent {
                Some(p) => r matches Some(pf) && *pf == self.nodes()[p] && pf@ == self.node(p),
                None => r is None,
            },
    {
        match file.parent {
            Some(id) => Some(self.get(id)),
            None => None,
        }
    }
}


/// One entry of the input stream: a path, its kind, and — for a symlink —
/// the resolved link target, or none when the target could not be read.
pub struct TreeEntry {
    pub path: String,
    pub kind: FileType,
    pub link_target: Option<String>,
}

impl View for TreeEntry {
    type V = EntrySpec;

    open spec fn view(&self) -> EntrySpec {
        EntrySpec {
            path: self.path@,
            kind: self.kind,
            target: match self.link_target {
                Some(t) => Some(t@),
                None => None,
            },
        }
    }
}

/// The views of a sequence of entries.
pub open spec fn entries_view(v: Seq<TreeEntry>) -> Seq<EntrySpec> {
    v.map_values(|e: TreeEntry| e@)
}

/// The views of a sequence of path-and-kind pairs, as entries that carry no
/// link target.
pub open spec fn pairs_view(v: Seq<(String, FileType)>) -> Seq<EntrySpec> {
    v.map_values(|p: (String, FileType)| EntrySpec { path: p.0@, kind: p.1, target: None })
}


proof fn lemma_entries_view_push(v: Seq<TreeEntry>, e: TreeEntry)
    ensures
        entries_view(v.push(e)) == entries_view(v).push(e@),
{
    assert forall|w: int| 0 <= w < v.len() + 1 implies entries_view(v.push(e))[w]
        == entries_view(v).push(e@)[w] by {
        if w < v.len() {
            assert(v.push(e)[w] == v[w]);
        } else {
            assert(v.push(e)[w] == e);
        }
    }
    assert(entries_view(v.push(e)) =~= entries_view(v).push(e@));
}

impl FileTree {
    /// Builds the tree from a root path and a stream of entries whose
    /// symlink targets are already resolved. Entries are applied in input
    /// order; ancestors are synthesized on demand; bad entries are dropped;
    /// the build always succeeds.
    pub fn from_entries(root_path: &str, entries: Vec<TreeEntry>) -> (t: FileTree)
        ensures
            t.represents(build_model(root_path@, entries_view(entries@))),
            t.wf(),
            wf_nodes(build_model(root_path@, entries_view(entries@))),
    {
        let ghost rp = root_path@;
        let mut storage = slab_new();
        let root = File {
            id: 0,
            parent: None,
            display_name: to_string(root_path),
            path: to_string(root_path),
            file_type: FileType::Directory,
            data: TypeSpecficData::Directory(child_map_new()),
        };
        let ghost rootm = root@;
        let root_id = slab_insert(&mut storage, root);
        proof {
            assert(root_id == 0);
            assert(rootm == root_node(rp));
            assert(slab_nodes(storage)[0] == root);
            assert(arena_inv(storage, seq![root_node(rp)]));
            assert(wf_nodes(seq![root_node(rp)]));
        }
        let rc_vec = split_components(root_path);
        let rc = rc_vec.len();
        proof {
            assert(rc as nat == components(rp).len());
        }
        let ghost es_all = entries_view(entries@);
        let mut idx: usize = 0;
        proof {
            assert(es_all.take(0) =~= Seq::<EntrySpec>::empty());
        }
        while idx < entries.len()
            invariant
                idx <= entries.len(),
                rc as nat == components(rp).len(),
                rp == root_path@,
                root_id == 0,
                es_all == entries_view(entries@),
                arena_inv(
                    storage,
                    build_nodes(seq![root_node(rp)], rp, rc as nat, es_all.take(idx as int)),
                ),
                wf_nodes(build_nodes(seq![root_node(rp)], rp, rc as nat, es_all.take(idx as int))),
            decreases entries.len() - idx,
        {
            let ghost m_cur = build_nodes(seq![root_node(rp)], rp, rc as nat, es_all.take(idx as int));
            let e = &entries[idx];
            proof {
                assert(e@ == es_all[idx as int]);
                lemma_build_nodes_snoc(seq![root_node(rp)], rp, rc as nat, es_all, idx as int);
            }
            let data_opt: Option<TypeSpecficData> = match e.kind {
                FileType::Link => match &e.link_target {
                    Some(t) => Some(TypeSpecficData::Link(t.clone())),
                    None => None,
                },
                FileType::Directory => Some(TypeSpecficData::Directory(child_map_new())),
                FileType::File => Some(TypeSpecficData::File),
            };
            match data_opt {
                None => {
                    proof {
                        assert(data_of(e@) is None);
                        assert(apply_entry(m_cur, rp, rc as nat, e@) == m_cur);
                    }
                },
                Some(data) => {
                    let ghost dspec = data@;
                    proof {
                        assert(data_of(e@) == Some(dspec));
                        assert(fresh_data(dspec));
                    }
                    let comps_all = split_components(e.path.as_str());
                    let n_all = comps_all.len();
                    let mut post: Vec<String> = Vec::new();
                    proof {
                        assert(views_of(post@) =~= Seq::<Seq<char>>::empty());
                        assert(n_all as nat == components(e@.path).len());
                    }
                    if rc < n_all {
                        let mut ci: usize = rc;
                        while ci < n_all
                            invariant
                                rc <= ci <= n_all,
                                n_all == comps_all@.len(),
                                views_of(comps_all@) == components(e@.path),
                                views_of(post@) == components(e@.path).subrange(rc as int, ci as int),
                            decreases n_all - ci,
                        {
                            let ghost post_prev = post@;
                            let s = comps_all[ci].clone();
                            proof {
                                assert(s == comps_all@[ci as int]);
                            }
                            post.push(s);
                            proof {
                                lemma_views_of_push(post_prev, comps_all@[ci as int]);
                                assert(views_of(comps_all@)[ci as int] == comps_all@[ci as int]@);
                                assert(views_of(post@) == views_of(post_prev).push(
                                    components(e@.path)[ci as int],
                                ));
                                assert(views_of(post@) =~= components(e@.path).subrange(
                                    rc as int,
                                    ci + 1,
                                ));
                            }
                            ci += 1;
                        }
                    }
                    proof {
                        if components(e@.path).len() <= rc as nat {
                            assert(views_of(post@) =~= post_root(rc as nat, e@.path));
                        } else {
                            assert(components(e@.path).subrange(
                                rc as int,
                                components(e@.path).len() as int,
                            ) =~= components(e@.path).skip(rc as int));
                            assert(views_of(post@) =~= post_root(rc as nat, e@.path));
                        }
                    }
                    let n_post = post.len();
                    if n_post == 0 {
                        proof {
                            assert(apply_entry(m_cur, rp, rc as nat, e@) == m_cur);
                        }
                    } else {
                        let ghost comps = views_of(post@);
                        let ghost epath = e@.path;
                        let ghost ekind = e@.kind;
                        let ghost target = place_entry(m_cur, 0, rp, comps, ekind, dspec, epath);
                        let mut cur: usize = root_id;
                        let mut cur_path = to_string(root_path);
                        let mut j: usize = 0;
                        let ghost mut m_now = m_cur;
                        proof {
                            assert(comps.skip(0) =~= comps);
                        }
                        while j + 1 < n_post
                            invariant
                                n_post == post.len(),
                                n_post >= 1,
                                j < n_post,
                                comps == views_of(post@),
                                comps.len() == n_post,
                                arena_inv(storage, m_now),
                                wf_nodes(m_now),
                                (cur as int) < m_now.len(),
                                target == place_entry(
                                    m_now,
                                    cur,
                                    cur_path@,
                                    comps.skip(j as int),
                                    ekind,
                                    dspec,
                                    epath,
                                ),
                            decreases n_post - j,
                        {
                            let name: &String = &post[j];
                            proof {
                                assert(name@ == comps[j as int]);
                            }
                            let ghost path_prev = cur_path@;
                            let np = join_path(cur_path.as_str(), name.as_str());
                            cur_path = np;
                            let k = {
                                let cur_node = slab_get(&storage, cur);
                                cur_node.child_key(name.as_str())
                            };
                            proof {
                                assert(k == child_of(m_now[cur as int], comps[j as int]));
                                assert(comps.skip(j as int).len() >= 2);
                                assert(comps.skip(j as int)[0] == comps[j as int]);
                                assert(comps.skip(j as int).drop_first() =~= comps.skip(j + 1));
                            }
                            match k {
                                Some(cid) => {
                                    proof {
                                        assert(node_children_ok(m_now, cur as int));
                                        match m_now[cur as int].data {
                                            NodeData::Directory(es) => {
                                                crate::child_map::lemma_find_index(
                                                    es,
                                                    comps[j as int],
                                                );
                                                let w = choose|w: int|
                                                    0 <= w < es.len() && es[w] == (
                                                        comps[j as int],
                                                        cid,
                                                    );
                                                assert(es[w].1 < m_now.len());
                                            },
                                            _ => {
                                                assert(false);
                                            },
                                        }
                                        assert(target == place_entry(
                                            m_now,
                                            cid,
                                            join_spec(path_prev, comps[j as int]),
                                            comps.skip(j + 1),
                                            ekind,
                                            dspec,
                                            epath,
                                        ));
                                    }
                                    cur = cid;
                                },
                                None => {
                                    let nid = slab_vacant_key(&storage);
                                    proof {
                                        assert(nid as int == m_now.len());
                                    }
                                    let dir = File {
                                        id: nid,
                                        parent: Some(cur),
                                        display_name: to_string(name.as_str()),
                                        path: cur_path.clone(),
                                        file_type: FileType::Directory,
                                        data: TypeSpecficData::Directory(child_map_new()),
                                    };
                                    let ghost dirm = dir@;
                                    let got = slab_insert(&mut storage, dir);
                                    proof {
                                        assert(got == nid);
                                    }
                                    let parent_ref = slab_get_mut(&mut storage, cur);
                                    parent_ref.add_child(name.as_str(), nid);
                                    proof {
                                        let m2 = m_now.push(dirm).update(
                                            cur as int,
                                            with_child(m_now[cur as int], comps[j as int], nid),
                                        );
                                        lemma_push_child_wf(m_now, cur, dirm);
                                        assert(arena_inv(storage, m2)) by {
                                            assert forall|i: usize| (i as int) < m2.len()
                                                implies #[trigger] slab_nodes(
                                                storage,
                                            ).dom().contains(i) by {
                                                if (i as int) < m_now.len() {
                                                    assert(slab_nodes(storage).dom().contains(i));
                                                }
                                            }
                                            assert forall|i: usize| (i as int) < m2.len()
                                                implies #[trigger] slab_nodes(storage)[i]@
                                                == m2[i as int] by {
                                                if i == cur {
                                                } else if i == nid {
                                                } else {
                                                }
                                            }
                                        }
                                        assert(target == place_entry(
                                            m2,
                                            nid,
                                            join_spec(path_prev, comps[j as int]),
                                            comps.skip(j + 1),
                                            ekind,
                                            dspec,
                                            epath,
                                        ));
                                        m_now = m2;
                                    }
                                    cur = nid;
                                },
                            }
                            j += 1;
                        }
                        proof {
                            assert(j == n_post - 1);
                            assert(comps.skip(j as int).len() == 1);
                            assert(comps.skip(j as int)[0] == comps[j as int]);
                        }
                        let name: &String = &post[j];
                        let nid = slab_vacant_key(&storage);
                        proof {
                            assert(nid as int == m_now.len());
                            assert(name@ == comps[j as int]);
                        }
                        let leaf = File {
                            id: nid,
                            parent: Some(cur),
                            display_name: name.clone(),
                            path: e.path.clone(),
                            file_type: e.kind,
                            data,
                        };
                        let ghost leafm = leaf@;
                        let got = slab_insert(&mut storage, leaf);
                        proof {
                            assert(got == nid);
                        }
                        let parent_ref = slab_get_mut(&mut storage, cur);
                        parent_ref.add_child(name.as_str(), nid);
                        proof {
                            let m2 = m_now.push(leafm).update(
                                cur as int,
                                with_child(m_now[cur as int], comps[j as int], nid),
                            );
                            lemma_push_child_wf(m_now, cur, leafm);
                            assert(arena_inv(storage, m2)) by {
                                assert forall|i: usize| (i as int) < m2.len()
                                    implies #[trigger] slab_nodes(storage).dom().contains(i) by {
                                    if (i as int) < m_now.len() {
                                        assert(slab_nodes(storage).dom().contains(i));
                                    }
                                }
                                assert forall|i: usize| (i as int) < m2.len()
                                    implies #[trigger] slab_nodes(storage)[i]@ == m2[i as int] by {
                                    if i == cur {
                                    } else if i == nid {
                                    } else {
                                    }
                                }
                            }
                            assert(m2 == place_entry(
                                m_now,
                                cur,
                                cur_path@,
                                comps.skip(j as int),
                                ekind,
                                dspec,
                                epath,
                            ));
                            assert(m2 == target);
                            assert(apply_entry(m_cur, rp, rc as nat, e@) == target);
                        }
                    }
                },
            }
            proof {
                assert(arena_inv(
                    storage,
                    build_nodes(seq![root_node(rp)], rp, rc as nat, es_all.take(idx + 1)),
                ));
            }
            idx += 1;
        }
        proof {
            assert(es_all.take(entries@.len() as int) =~= es_all);
        }
        let t = FileTree { storage, root_id };
        proof {
            let m = build_model(rp, es_all);
            assert(t.represents(m));
            assert(t.wf()) by {
                assert(t.has_id(0));
                assert forall|i: usize| #[trigger] t.has_id(i) implies match t.node(i).parent {
                    Some(p) => t.has_id(p),
                    None => true,
                } by {
                    assert((i as int) < m.len());
                    assert(t.node(i) == m[i as int]);
                    if i != 0 {
                        match m[i as int].parent {
                            Some(p) => {
                                assert((p as int) < m.len());
                            },
                            None => {},
                        }
                    }
                }
            }
        }
        t
    }

    /// Builds the tree from path-and-kind pairs alone. A symlink's target
    /// cannot be resolved here, so every symlink entry is dropped, exactly
    /// as one whose target cannot be read; resolve targets first and use
    /// `from_entries` to keep them. The build always succeeds.
    pub fn new(root_path: &str, children: Vec<(String, FileType)>) -> (r: Option<FileTree>)
        ensures
            r matches Some(t) && t.wf() && t.represents(
                build_model(root_path@, pairs_view(children@)),
            ),
    {
        let mut entries: Vec<TreeEntry> = Vec::new();
        let mut i: usize = 0;
        proof {
            assert(entries_view(entries@) =~= pairs_view(children@).take(0));
        }
        while i < children.len()
            invariant
                i <= children.len(),
                entries_view(entries@) == pairs_view(children@).take(i as int),
            decreases children.len() - i,
        {
            let ghost prev = entries@;
            let p = &children[i];
            let entry = TreeEntry { path: p.0.clone(), kind: p.1, link_target: None };
            let ghost entrym = entry@;
            proof {
                assert(*p == children@[i as int]);
                assert(pairs_view(children@)[i as int] == EntrySpec {
                    path: children@[i as int].0@,
                    kind: children@[i as int].1,
                    target: None,
                });
                assert(entrym == pairs_view(children@)[i as int]);
            }
            entries.push(entry);
            proof {
                lemma_entries_view_push(prev, entries@[prev.len() as int]);
                assert(entries_view(entries@) == entries_view(prev).push(entrym));
                assert(entries_view(entries@) =~= pairs_view(children@).take(i + 1));
            }
            i += 1;
        }
        proof {
            assert(pairs_view(children@).take(children@.len() as int) =~= pairs_view(children@));
        }
        Some(FileTree::from_entries(root_path, entries))
    }
}

} // verus!
