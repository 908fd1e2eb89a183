use std::path::Path;
use tre::file_tree::{FileTree, FileType, TreeEntry, TypeSpecficData};

#[test]
fn tree_construction() {
    let tree = FileTree::new(
        ".",
        vec![
            ("a".to_string(), FileType::File),
            ("b/c/d".to_string(), FileType::File),
        ],
    )
    .unwrap();

    let root = tree.get(tree.root_id);
    assert!(root.is_dir());
    if let TypeSpecficData::Directory(root_chilren) = &root.data {
        assert_eq!(root_chilren.len(), 2);
        let a_id = root_chilren.get("a").expect("a exists");
        let a = tree.get(*a_id);
        assert!(a.is_file());
        assert_eq!(Path::new(&a.path), Path::new("a"));
        let b_id = root_chilren.get("b").expect("b exists");
        let b = tree.get(*b_id);
        assert!(b.is_dir());
        assert_eq!(Path::new(&b.path), Path::new("./b"));
        if let TypeSpecficData::Directory(b_children) = &b.data {
            assert_eq!(b_children.len(), 1);
            let c_id = b_children.get("c").expect("c exists");
            let c = tree.get(*c_id);
            assert!(c.is_dir());
            assert_eq!(Path::new(&c.path), Path::new("./b/c"));
            if let TypeSpecficData::Directory(c_children) = &c.data {
                assert_eq!(c_children.len(), 1);
                let d_id = c_children.get("d").expect("d exists");
                let d = tree.get(*d_id);
                assert!(d.is_file());
                assert_eq!(Path::new(&d.path), Path::new("b/c/d"));
            }
        }
    }
}

#[test]
fn tree_construction_with_root_dir() {
    let tree = FileTree::new(
        "b",
        vec![
            ("b/e".to_string(), FileType::File),
            ("b/c/d".to_string(), FileType::File),
        ],
    )
    .unwrap();

    let root = tree.get(tree.root_id);
    assert!(root.is_dir());
    assert_eq!(Path::new(&root.path), Path::new("b"));
    if let TypeSpecficData::Directory(b_children) = &root.data {
        assert_eq!(b_children.len(), 2);
        let c_id = b_children.get("c").expect("c exists");
        let c = tree.get(*c_id);
        assert!(c.is_dir());
        let e_id = b_children.get("e").expect("e exists");
        let e = tree.get(*e_id);
        assert!(e.is_file());
        assert_eq!(Path::new(&c.path), Path::new("b/c"));
        if let TypeSpecficData::Directory(c_children) = &c.data {
            assert_eq!(c_children.len(), 1);
            let d_id = c_children.get("d").expect("d exists");
            let d = tree.get(*d_id);
            assert!(d.is_file());
            assert_eq!(Path::new(&d.path), Path::new("b/c/d"));
        }
    }
}

#[test]
fn empty_build_is_root_only() {
    let tree = FileTree::new(".", vec![]).unwrap();
    let root = tree.get_root();
    assert!(root.is_dir());
    assert_eq!(root.children_count(), 0);
    assert_eq!(root.display_name, ".");
    assert_eq!(root.path, ".");
    assert_eq!(tree.storage.len(), 1);
    assert!(tree.get_parent(root).is_none());
}

#[test]
fn single_file_under_root() {
    let tree = FileTree::new(".", vec![("a".to_string(), FileType::File)]).unwrap();
    let root = tree.get_root();
    assert_eq!(root.children_count(), 1);
    let children = root.children().expect("root is a directory");
    let a = tree.get(*children.get("a").expect("a exists"));
    assert!(a.is_file());
    assert_eq!(a.path, "a");
    assert_eq!(a.display_name, "a");
}

#[test]
fn insertion_order_is_kept_per_directory() {
    let tree = FileTree::new(
        ".",
        vec![
            ("a/x".to_string(), FileType::File),
            ("b/y".to_string(), FileType::File),
            ("a/z".to_string(), FileType::File),
            ("a/m".to_string(), FileType::File),
        ],
    )
    .unwrap();
    let root = tree.get_root();
    let root_children = root.children().unwrap();
    // first-insertion order per directory, independent of the interleaving
    assert_eq!(root_children.get_index(0).unwrap().0, "a");
    assert_eq!(root_children.get_index(1).unwrap().0, "b");
    let a = tree.get(*root_children.get("a").unwrap());
    let a_children = a.children().unwrap();
    assert_eq!(a_children.len(), 3);
    assert_eq!(a_children.get_index(0).unwrap().0, "x");
    assert_eq!(a_children.get_index(1).unwrap().0, "z");
    assert_eq!(a_children.get_index(2).unwrap().0, "m");
}

#[test]
fn shared_ancestors_are_reused() {
    let tree = FileTree::new(
        ".",
        vec![
            ("b/c/d".to_string(), FileType::File),
            ("b/c/e".to_string(), FileType::File),
        ],
    )
    .unwrap();
    let root = tree.get_root();
    assert_eq!(root.children_count(), 1);
    let b = tree.get(*root.children().unwrap().get("b").unwrap());
    assert!(b.is_dir());
    let c = tree.get(*b.children().unwrap().get("c").unwrap());
    assert!(c.is_dir());
    assert_eq!(c.children_count(), 2);
    // one root, b, c, d, e: the ancestors were materialized exactly once
    assert_eq!(tree.storage.len(), 5);
}

#[test]
fn colliding_name_replaces_mapping() {
    let tree = FileTree::new(
        ".",
        vec![
            ("a".to_string(), FileType::File),
            ("a".to_string(), FileType::Directory),
        ],
    )
    .unwrap();
    let root = tree.get_root();
    // last write wins in the child map
    assert_eq!(root.children_count(), 1);
    let a = tree.get(*root.children().unwrap().get("a").unwrap());
    assert!(a.is_dir());
    // the replaced node still sits in the arena, orphaned
    assert_eq!(tree.storage.len(), 3);
    let old = tree.get(1);
    assert!(old.is_file());
    assert_eq!(old.display_name, "a");
}

#[test]
fn unreadable_link_contributes_no_node() {
    let entries = vec![
        TreeEntry {
            path: "a".to_string(),
            kind: FileType::File,
            link_target: None,
        },
        TreeEntry {
            path: "l".to_string(),
            kind: FileType::Link,
            link_target: None,
        },
    ];
    let tree = FileTree::from_entries(".", entries);
    let root = tree.get_root();
    assert_eq!(root.children_count(), 1);
    assert!(root.children().unwrap().get("l").is_none());
    assert_eq!(tree.storage.len(), 2);
}

#[test]
fn resolved_link_keeps_its_target() {
    let entries = vec![TreeEntry {
        path: "l".to_string(),
        kind: FileType::Link,
        link_target: Some("target/elsewhere".to_string()),
    }];
    let tree = FileTree::from_entries(".", entries);
    let root = tree.get_root();
    assert_eq!(root.children_count(), 1);
    let l = tree.get(*root.children().unwrap().get("l").unwrap());
    assert!(!l.is_file());
    assert!(!l.is_dir());
    assert_eq!(l.link(), Some("target/elsewhere".to_string()));
    assert!(root.link().is_none());
}

#[test]
fn get_parent_walks_up_to_the_root() {
    let tree = FileTree::new(".", vec![("b/c".to_string(), FileType::File)]).unwrap();
    let root = tree.get_root();
    assert!(tree.get_parent(root).is_none());
    let b = tree.get(*root.children().unwrap().get("b").unwrap());
    let c = tree.get(*b.children().unwrap().get("c").unwrap());
    let c_parent = tree.get_parent(c).expect("c has a parent");
    assert_eq!(c_parent.id, b.id);
    let b_parent = tree.get_parent(b).expect("b has a parent");
    assert_eq!(b_parent.id, tree.root_id);
}

#[test]
fn dropped_entries_leave_the_root_alone() {
    // a path that normalizes to nothing below the root is dropped
    let tree = FileTree::new(
        "a/b",
        vec![
            ("a/b".to_string(), FileType::File),
            ("x".to_string(), FileType::File),
            ("".to_string(), FileType::File),
        ],
    )
    .unwrap();
    let root = tree.get_root();
    assert_eq!(root.children_count(), 0);
    assert_eq!(tree.storage.len(), 1);
}

#[test]
fn file_type_from_flags_picks_directory_first() {
    assert_eq!(FileType::from_flags(true, false), FileType::Directory);
    assert_eq!(FileType::from_flags(true, true), FileType::Directory);
    assert_eq!(FileType::from_flags(false, true), FileType::Link);
    assert_eq!(FileType::from_flags(false, false), FileType::File);
}
