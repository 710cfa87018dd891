use phantomfs::{
    DirNode, FileHandle, FileInfo, FsCache, FsError, ListStep, Node, ROOT_ID,
};

fn root() -> Node {
    Node::Dir(DirNode { backend_id: "R".to_string(), props: Vec::new(), mtime: 0, crtime: 0 })
}

fn dir_entry(name: &str, backend: &str) -> FileInfo {
    FileInfo {
        id: 0,
        pickcode: backend.to_string(),
        name: name.to_string(),
        size: 0,
        ctime: 100,
        is_file: false,
        data: None,
    }
}

fn file_entry(name: &str, content: Vec<u8>) -> FileInfo {
    FileInfo {
        id: 0,
        pickcode: "pc-".to_string() + name,
        name: name.to_string(),
        size: content.len(),
        ctime: 200,
        is_file: true,
        data: Some(content),
    }
}

fn root_listing() -> Vec<FileInfo> {
    vec![dir_entry("Movies", "M"), file_entry("readme.txt", vec![b'r'; 42])]
}

/// Lists `path`, fetching from `backend` when asked; counts the fetches.
fn list_with(fs: &mut FsCache, path: &[u8], backend: &dyn Fn(&str) -> Vec<FileInfo>, fetches: &mut usize) -> Vec<Vec<u8>> {
    let (id, step) = fs.begin_list(path).unwrap();
    if let ListStep::Fetch(r) = step {
        *fetches += 1;
        let entries = backend(&r);
        fs.commit(id, &entries).unwrap();
    }
    fs.list(id).unwrap().into_iter().map(|e| e.name).collect()
}

#[test]
fn scenario_root_with_movies_and_readme() {
    let mut fs = FsCache::new(root());
    let mut fetches = 0usize;
    let backend = |r: &str| {
        assert_eq!(r, "R");
        root_listing()
    };
    let names = list_with(&mut fs, b"/", &backend, &mut fetches);
    assert_eq!(fetches, 1);
    assert_eq!(names, vec![b"Movies".to_vec(), b"readme.txt".to_vec()]);

    let movies = fs.tree().lookup(b"/Movies").unwrap();
    assert!(fs.tree().get_node(movies).unwrap().is_dir());
    match fs.tree().get_node(movies).unwrap() {
        Node::Dir(d) => assert_eq!(d.backend_id, "M".to_string()),
        Node::File(_) => panic!("expected a directory"),
    }
    assert_eq!(fs.tree().lookup(b"/readme.txt/x"), Err(FsError::Forbidden));

    let mut h = FileHandle::open(fs.tree(), b"/readme.txt", false, false).unwrap();
    let bytes = h.read_bytes(fs.tree(), 100).unwrap();
    assert_eq!(bytes.len(), 42);
    assert_eq!(bytes, vec![b'r'; 42]);

    let names = list_with(&mut fs, b"/", &backend, &mut fetches);
    assert_eq!(fetches, 1);
    assert_eq!(names.len(), 2);
}

#[test]
fn concurrent_listings_fetch_once() {
    let mut fs = FsCache::new(root());
    let (id, first) = fs.begin_list(b"/").unwrap();
    assert_eq!(id, ROOT_ID);
    assert_eq!(first, ListStep::Fetch("R".to_string()));
    for _ in 0..5 {
        assert_eq!(fs.begin_list(b"/").unwrap(), (ROOT_ID, ListStep::Wait));
    }
    fs.commit(ROOT_ID, &root_listing()).unwrap();
    for _ in 0..5 {
        assert_eq!(fs.begin_list(b"/").unwrap(), (ROOT_ID, ListStep::Ready));
        assert_eq!(fs.list(ROOT_ID).unwrap().len(), 2);
    }
}

#[test]
fn failed_fetch_is_retried() {
    let mut fs = FsCache::new(root());
    let (id, step) = fs.begin_list(b"/").unwrap();
    assert!(matches!(step, ListStep::Fetch(_)));
    fs.abandon(id);
    assert!(fs.list(id).unwrap().is_empty());
    let (_, again) = fs.begin_list(b"/").unwrap();
    assert_eq!(again, ListStep::Fetch("R".to_string()));
}

#[test]
fn malformed_listing_is_all_or_nothing() {
    let mut fs = FsCache::new(root());
    let (id, _) = fs.begin_list(b"/").unwrap();
    let mut bad = file_entry("broken", vec![1, 2, 3]);
    bad.size = 10;
    let entries = vec![dir_entry("ok", "O"), bad];
    assert_eq!(fs.commit(id, &entries), Err(FsError::BackendFailure));
    assert!(fs.list(id).unwrap().is_empty());
    let missing = FileInfo { data: None, ..file_entry("nodata", vec![]) };
    assert_eq!(fs.commit(id, &vec![missing.clone()]), Err(FsError::Forbidden));
    assert_eq!(fs.begin_list(b"/").unwrap().1, ListStep::Fetch("R".to_string()));
    assert_eq!(fs.commit(id, &vec![missing]), Err(FsError::BackendFailure));
    assert_eq!(fs.begin_list(b"/").unwrap().1, ListStep::Fetch("R".to_string()));
}

#[test]
fn duplicate_names_in_listing_keep_first() {
    let mut fs = FsCache::new(root());
    let (id, _) = fs.begin_list(b"/").unwrap();
    let entries = vec![file_entry("a", vec![1]), file_entry("a", vec![2, 2]), dir_entry("b", "B")];
    fs.commit(id, &entries).unwrap();
    let listed = fs.list(id).unwrap();
    assert_eq!(listed.len(), 2);
    assert_eq!(listed[0].name, b"a".to_vec());
    assert_eq!(listed[0].size, 1);
    assert!(listed[1].is_dir);
}

#[test]
fn listing_a_file_or_missing_path_fails() {
    let mut fs = FsCache::new(root());
    let (id, _) = fs.begin_list(b"/").unwrap();
    fs.commit(id, &root_listing()).unwrap();
    assert_eq!(fs.begin_list(b"/readme.txt").err(), Some(FsError::Forbidden));
    assert_eq!(fs.begin_list(b"/nothing").err(), Some(FsError::NotFound));
    let f = fs.tree().lookup(b"/readme.txt").unwrap();
    assert_eq!(fs.list(f).err(), Some(FsError::Forbidden));
    assert_eq!(fs.commit(f, &root_listing()), Err(FsError::Forbidden));
    assert_eq!(fs.commit(4242, &root_listing()), Err(FsError::NotFound));
}

#[test]
fn lookups_are_stable_as_tree_grows() {
    let mut fs = FsCache::new(root());
    let (id, _) = fs.begin_list(b"/").unwrap();
    fs.commit(id, &root_listing()).unwrap();
    let first = fs.tree().lookup(b"/Movies").unwrap();
    let size_before = fs.tree().get_node(fs.tree().lookup(b"/readme.txt").unwrap()).unwrap().attr(9).size;
    let (mid, step) = fs.begin_list(b"/Movies").unwrap();
    assert_eq!(step, ListStep::Fetch("M".to_string()));
    fs.commit(mid, &vec![file_entry("film.m3u8", b"#EXTM3U".to_vec())]).unwrap();
    assert_eq!(fs.tree().lookup(b"/Movies"), Ok(first));
    assert_eq!(fs.tree().lookup(b"/Movies"), Ok(first));
    let size_after = fs.tree().get_node(fs.tree().lookup(b"/readme.txt").unwrap()).unwrap().attr(9).size;
    assert_eq!(size_before, size_after);
    assert!(fs.tree().lookup(b"/Movies/film.m3u8").is_ok());
}

#[test]
fn listing_entries_carry_metadata() {
    let mut fs = FsCache::new(root());
    let (id, _) = fs.begin_list(b"/").unwrap();
    fs.commit(id, &root_listing()).unwrap();
    let listed = fs.list(id).unwrap();
    assert!(listed[0].is_dir);
    assert_eq!(listed[0].size, 0);
    assert_eq!(listed[0].mtime, 100);
    assert!(!listed[1].is_dir);
    assert_eq!(listed[1].size, 42);
    assert_eq!(listed[1].crtime, 200);
}

#[test]
fn listing_accepted_only_while_fetching() {
    let mut fs = FsCache::new(root());
    assert_eq!(fs.commit(ROOT_ID, &root_listing()), Err(FsError::Forbidden));
    assert!(fs.list(ROOT_ID).unwrap().is_empty());
    let (id, _) = fs.begin_list(b"/").unwrap();
    fs.commit(id, &root_listing()).unwrap();
    assert_eq!(fs.commit(id, &vec![dir_entry("Extra", "E")]), Err(FsError::Forbidden));
    assert_eq!(fs.list(id).unwrap().len(), 2);
}

#[test]
fn new_children_get_distinct_fresh_identities() {
    let mut fs = FsCache::new(root());
    let (id, _) = fs.begin_list(b"/").unwrap();
    let entries = vec![dir_entry("a", "A"), dir_entry("b", "B"), dir_entry("c", "C")];
    fs.commit(id, &entries).unwrap();
    let ids: Vec<u64> = fs.tree().get_children(id).unwrap().into_iter().map(|c| c.1).collect();
    assert_eq!(ids.len(), 3);
    assert!(ids.iter().all(|&i| i != ROOT_ID));
    assert!(ids[0] != ids[1] && ids[1] != ids[2] && ids[0] != ids[2]);
}
