use phantomfs::{file_name, path_segments, DirNode, FileNode, FsError, Node, Tree, ROOT_ID};

fn dir(backend: &str) -> Node {
    Node::Dir(DirNode { backend_id: backend.to_string(), props: Vec::new(), mtime: 7, crtime: 7 })
}

fn file(content: &[u8]) -> Node {
    Node::File(FileNode {
        backend_id: "pc".to_string(),
        props: Vec::new(),
        mtime: 9,
        crtime: 8,
        size: content.len(),
        data: content.to_vec(),
    })
}

#[test]
fn segments_drop_empty_parts() {
    let segs = path_segments(b"//a///bc/");
    assert_eq!(segs, vec![b"a".to_vec(), b"bc".to_vec()]);
    assert!(path_segments(b"///").is_empty());
    assert!(path_segments(b"").is_empty());
}

#[test]
fn file_name_is_last_segment() {
    assert_eq!(file_name(b"/a/b/c.txt"), b"c.txt".to_vec());
    assert_eq!(file_name(b"/a/b/"), b"b".to_vec());
    assert_eq!(file_name(b"/"), Vec::<u8>::new());
}

#[test]
fn new_tree_holds_root_only() {
    let t = Tree::new(dir("0"));
    assert_eq!(t.lookup(b"/"), Ok(ROOT_ID));
    assert_eq!(t.lookup(b""), Ok(ROOT_ID));
    assert!(t.get_children(ROOT_ID).unwrap().is_empty());
    assert_eq!(t.get_node(99).err(), Some(FsError::NotFound));
}

#[test]
fn lookup_walks_segments() {
    let mut t = Tree::new(dir("0"));
    let a = t.add_child(0, ROOT_ID, b"a", dir("A"), false).unwrap();
    let b = t.add_child(0, a, b"b", file(b"hello"), false).unwrap();
    assert_eq!(t.lookup(b"/a"), Ok(a));
    assert_eq!(t.lookup(b"/a/b"), Ok(b));
    assert_eq!(t.lookup(b"a//b/"), Ok(b));
    assert_eq!(t.lookup(b"/a/missing"), Err(FsError::NotFound));
    assert_eq!(t.lookup(b"/missing/b"), Err(FsError::NotFound));
    assert_eq!(t.get_child(a, b"b"), Ok(b));
    assert_eq!(t.get_child(a, b"c"), Err(FsError::NotFound));
}

#[test]
fn traversal_through_file_is_forbidden() {
    let mut t = Tree::new(dir("0"));
    let a = t.add_child(0, ROOT_ID, b"a", dir("A"), false).unwrap();
    t.add_child(0, a, b"b", file(b"x"), false).unwrap();
    assert_eq!(t.lookup(b"/a/b/c"), Err(FsError::Forbidden));
    assert_eq!(t.lookup(b"/a/b/c/d"), Err(FsError::Forbidden));
}

#[test]
fn lookup_parent_checks_directory() {
    let mut t = Tree::new(dir("0"));
    let a = t.add_child(0, ROOT_ID, b"a", dir("A"), false).unwrap();
    t.add_child(0, a, b"f", file(b"x"), false).unwrap();
    assert_eq!(t.lookup_parent(b"/a/new"), Ok(a));
    assert_eq!(t.lookup_parent(b"/new"), Ok(ROOT_ID));
    assert_eq!(t.lookup_parent(b"/a/f/new"), Err(FsError::Forbidden));
    assert_eq!(t.lookup_parent(b"/zz/new"), Err(FsError::NotFound));
}

#[test]
fn sibling_names_are_unique() {
    let mut t = Tree::new(dir("0"));
    let first = t.add_child(0, ROOT_ID, b"x", file(b"one"), false).unwrap();
    assert_eq!(t.add_child(0, ROOT_ID, b"x", file(b"two"), false), Err(FsError::AlreadyExists));
    let children = t.get_children(ROOT_ID).unwrap();
    assert_eq!(children.iter().filter(|c| c.0 == b"x".to_vec()).count(), 1);
    assert_eq!(t.lookup(b"/x"), Ok(first));
}

#[test]
fn replace_keeps_identity_and_takes_payload() {
    let mut t = Tree::new(dir("0"));
    let first = t.add_child(0, ROOT_ID, b"x", file(b"one"), false).unwrap();
    assert_eq!(t.add_child(0, ROOT_ID, b"x", file(b"three"), true), Ok(first));
    match t.get_node(first).unwrap() {
        Node::File(f) => assert_eq!(f.data, b"three".to_vec()),
        Node::Dir(_) => panic!("expected a file"),
    }
    assert_eq!(t.get_children(ROOT_ID).unwrap().len(), 1);
}

#[test]
fn replace_refused_over_children() {
    let mut t = Tree::new(dir("0"));
    let a = t.add_child(0, ROOT_ID, b"a", dir("A"), false).unwrap();
    t.add_child(0, a, b"b", file(b"x"), false).unwrap();
    assert_eq!(t.add_child(0, ROOT_ID, b"a", file(b"y"), true), Err(FsError::AlreadyExists));
}

#[test]
fn insert_under_file_or_missing_parent_fails() {
    let mut t = Tree::new(dir("0"));
    let f = t.add_child(0, ROOT_ID, b"f", file(b"x"), false).unwrap();
    assert_eq!(t.add_child(0, f, b"g", file(b"y"), false), Err(FsError::Forbidden));
    assert_eq!(t.add_child(0, 77, b"g", file(b"y"), false), Err(FsError::NotFound));
}

#[test]
fn identity_hints_are_not_trusted() {
    let mut t = Tree::new(dir("0"));
    // A free hint below the counter is honoured.
    let a = t.add_child(0, ROOT_ID, b"a", dir("A"), false).unwrap();
    assert_eq!(a, 0);
    // The same hint again is taken: a fresh identity is allocated.
    let b = t.add_child(0, ROOT_ID, b"b", dir("B"), false).unwrap();
    assert_eq!(b, 2);
    let c = t.add_child(0, ROOT_ID, b"c", dir("C"), false).unwrap();
    assert_eq!(c, 3);
    // The root's identity is never handed out again.
    let d = t.add_child(ROOT_ID, ROOT_ID, b"d", dir("D"), false).unwrap();
    assert_eq!(d, 4);
    // A hint far above the counter is not honoured.
    let e = t.add_child(1_000_000, ROOT_ID, b"e", dir("E"), false).unwrap();
    assert_eq!(e, 5);
    assert_eq!(t.ids_left(), u64::MAX - 6);
    let ids: Vec<u64> = t.get_children(ROOT_ID).unwrap().into_iter().map(|c| c.1).collect();
    assert_eq!(ids, vec![0, 2, 3, 4, 5]);
}

#[test]
fn children_keep_insertion_order() {
    let mut t = Tree::new(dir("0"));
    t.add_child(0, ROOT_ID, b"zeta", dir("Z"), false).unwrap();
    t.add_child(0, ROOT_ID, b"alpha", file(b"1"), false).unwrap();
    let names: Vec<Vec<u8>> = t.get_children(ROOT_ID).unwrap().into_iter().map(|c| c.0).collect();
    assert_eq!(names, vec![b"zeta".to_vec(), b"alpha".to_vec()]);
    let f = t.lookup(b"/alpha").unwrap();
    assert_eq!(t.get_children(f).err(), Some(FsError::Forbidden));
    assert_eq!(t.get_children(55).err(), Some(FsError::NotFound));
}
