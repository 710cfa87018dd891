use phantomfs::{
    offset_position, read_range, DirNode, FileHandle, FileNode, FsError, Node, Tree, Whence,
    ROOT_ID,
};

fn file_node(content: &[u8]) -> FileNode {
    FileNode {
        backend_id: "pick".to_string(),
        props: Vec::new(),
        mtime: 5,
        crtime: 4,
        size: content.len(),
        data: content.to_vec(),
    }
}

fn tree_with_file(content: &[u8]) -> Tree {
    let root = Node::Dir(DirNode { backend_id: "0".to_string(), props: Vec::new(), mtime: 0, crtime: 0 });
    let mut t = Tree::new(root);
    let d = t
        .add_child(0, ROOT_ID, b"d", Node::Dir(DirNode { backend_id: "d".to_string(), props: Vec::new(), mtime: 0, crtime: 0 }), false)
        .unwrap();
    t.add_child(0, d, b"f.bin", Node::File(file_node(content)), false).unwrap();
    t
}

#[test]
fn read_past_end_is_empty() {
    let content: Vec<u8> = (0..20u8).collect();
    let f = file_node(&content);
    let s = content.len() as u64;
    assert_eq!(read_range(&f, s + 10, 5), Vec::<u8>::new());
    assert_eq!(read_range(&f, s, 5), Vec::<u8>::new());
}

#[test]
fn read_near_end_is_clamped() {
    let content: Vec<u8> = (0..20u8).collect();
    let f = file_node(&content);
    let s = content.len() as u64;
    assert_eq!(read_range(&f, s - 2, 10), vec![18, 19]);
    assert_eq!(read_range(&f, 3, 4), vec![3, 4, 5, 6]);
    assert_eq!(read_range(&f, 0, usize::MAX).len(), 20);
}

#[test]
fn handle_reads_advance_cursor() {
    let t = tree_with_file(b"abcdefgh");
    let mut h = FileHandle::open(&t, b"/d/f.bin", false, false).unwrap();
    assert_eq!(h.pos, 0);
    assert_eq!(h.backend_id, "pick".to_string());
    assert_eq!(h.read_bytes(&t, 3).unwrap(), b"abc".to_vec());
    assert_eq!(h.pos, 3);
    assert_eq!(h.read_bytes(&t, 10).unwrap(), b"defgh".to_vec());
    assert_eq!(h.pos, 8);
    assert_eq!(h.read_bytes(&t, 10).unwrap(), Vec::<u8>::new());
    assert_eq!(h.pos, 8);
}

#[test]
fn handles_have_their_own_cursors() {
    let t = tree_with_file(b"abcdefgh");
    let mut h1 = FileHandle::open(&t, b"/d/f.bin", false, false).unwrap();
    let mut h2 = FileHandle::open(&t, b"/d/f.bin", false, true).unwrap();
    assert!(h2.append);
    h1.read_bytes(&t, 4).unwrap();
    assert_eq!(h2.read_bytes(&t, 2).unwrap(), b"ab".to_vec());
    assert_eq!(h1.read_bytes(&t, 2).unwrap(), b"ef".to_vec());
}

#[test]
fn open_errors() {
    let t = tree_with_file(b"x");
    assert_eq!(FileHandle::open(&t, b"/d/missing", false, false).err(), Some(FsError::NotFound));
    assert_eq!(FileHandle::open(&t, b"/d", false, false).err(), Some(FsError::Forbidden));
    assert_eq!(FileHandle::open(&t, b"/d/f.bin", true, false).err(), Some(FsError::AlreadyExists));
    assert_eq!(FileHandle::open(&t, b"/d/f.bin/x", false, false).err(), Some(FsError::Forbidden));
}

#[test]
fn seek_modes() {
    let t = tree_with_file(b"0123456789");
    let mut h = FileHandle::open(&t, b"/d/f.bin", false, false).unwrap();
    assert_eq!(h.seek(&t, Whence::Start(4)), Ok(4));
    assert_eq!(h.seek(&t, Whence::Current(3)), Ok(7));
    assert_eq!(h.seek(&t, Whence::Current(-7)), Ok(0));
    assert_eq!(h.seek(&t, Whence::End(0)), Ok(10));
    assert_eq!(h.pos, 10);
    assert_eq!(h.seek(&t, Whence::End(-3)), Ok(7));
    assert_eq!(h.read_bytes(&t, 100).unwrap(), b"789".to_vec());
    assert_eq!(h.seek(&t, Whence::Start(50)), Ok(50));
    assert_eq!(h.seek(&t, Whence::End(5)), Ok(15));
}

#[test]
fn seek_before_start_fails() {
    let t = tree_with_file(b"0123456789");
    let mut h = FileHandle::open(&t, b"/d/f.bin", false, false).unwrap();
    h.seek(&t, Whence::Start(6)).unwrap();
    let cursor = h.pos as i64;
    assert_eq!(h.seek(&t, Whence::Current(-(cursor + 1))), Err(FsError::InvalidSeek));
    assert_eq!(h.pos, 6);
    assert_eq!(h.seek(&t, Whence::End(-11)), Err(FsError::InvalidSeek));
    assert_eq!(h.seek(&t, Whence::Current(i64::MIN)), Err(FsError::InvalidSeek));
}

#[test]
fn offsets_stay_in_range() {
    assert_eq!(offset_position(5, -5), Ok(0));
    assert_eq!(offset_position(5, -6), Err(FsError::InvalidSeek));
    assert_eq!(offset_position(u64::MAX, 1), Err(FsError::InvalidSeek));
    assert_eq!(offset_position(u64::MAX - 1, 1), Ok(u64::MAX));
    assert_eq!(offset_position(0, i64::MAX), Ok(i64::MAX as u64));
}

#[test]
fn metadata_of_open_file() {
    let t = tree_with_file(b"abc");
    let h = FileHandle::open(&t, b"/d/f.bin", false, false).unwrap();
    let m = h.metadata(&t).unwrap();
    assert_eq!(m.size, 3);
    assert!(!m.is_dir);
    assert_eq!(m.mtime, 5);
    assert_eq!(m.crtime, 4);
    assert!(m.name.is_empty());
}
