use phantomfs::{
    cloneprop, first_stream_playlist, jellyfin_item, oof_folder_entry, oof_item_kind, oof_video_entry, parse_u64,
    playlist_name, propkey, stream_manifest_for, Config, DirNode, File, FileNode, FsError, Node,
    OofItemKind, Prop, DEFAULT_BITRATE,
};

fn config() -> Config {
    Config {
        server: "http://media:8096".to_string(),
        user_id: "u1".to_string(),
        root_folder_id: "root".to_string(),
        api_key: "SECRET-REDACTED".to_string(),
        bitrate: 0,
    }
}

#[test]
fn parses_decimal_text() {
    assert_eq!(parse_u64("0"), Some(0));
    assert_eq!(parse_u64("1617181920"), Some(1617181920));
    assert_eq!(parse_u64("+42"), Some(42));
    assert_eq!(parse_u64("18446744073709551615"), Some(u64::MAX));
    assert_eq!(parse_u64("18446744073709551616"), None);
    assert_eq!(parse_u64(""), None);
    assert_eq!(parse_u64("+"), None);
    assert_eq!(parse_u64("-1"), None);
    assert_eq!(parse_u64("12a"), None);
    assert_eq!(parse_u64(" 12"), None);
}

#[test]
fn playlist_names_get_suffix() {
    assert_eq!(playlist_name("Film"), "Film.m3u8".to_string());
    assert_eq!(playlist_name(""), ".m3u8".to_string());
}

#[test]
fn media_manifest_streams_item() {
    let m = stream_manifest_for(&config(), "abc");
    assert_eq!(
        m,
        "#EXTM3U\r\n#EXT-X-VERSION:7\r\nhttp://media:8096/Videos/abc/stream.mov?Static=true&mediaSourceId=abc&api_key=SECRET-REDACTED"
            .to_string()
    );
}

#[test]
fn media_items_become_entries() {
    let c = config();
    let folder = jellyfin_item(&c, "f1".to_string(), "Shows", true, 77);
    assert_eq!(folder.name, "Shows".to_string());
    assert!(!folder.is_file);
    assert_eq!(folder.size, 0);
    assert!(folder.data.is_none());
    let video = jellyfin_item(&c, "v1".to_string(), "Film", false, 78);
    assert_eq!(video.name, "Film.m3u8".to_string());
    assert!(video.is_file);
    let data = video.data.clone().unwrap();
    assert_eq!(data, stream_manifest_for(&c, "v1"));
    assert_eq!(video.size, data.len());
    let info = video.to_file_info();
    assert_eq!(info.id, 0);
    assert_eq!(info.pickcode, "v1".to_string());
    assert_eq!(info.data.unwrap(), data.into_bytes());
}

#[test]
fn media_file_without_playlist_converts() {
    let f = File { id: "x".to_string(), name: "n".to_string(), size: 0, ctime: 1, is_file: false, data: None };
    let info = f.to_file_info();
    assert!(info.data.is_none());
    assert!(!info.is_file);
}

#[test]
fn default_bitrate_fills_zero() {
    assert_eq!(config().with_default_bitrate().bitrate, DEFAULT_BITRATE);
    let mut c = config();
    c.bitrate = 1234;
    assert_eq!(c.with_default_bitrate().bitrate, 1234);
}

#[test]
fn drive_items_are_classified() {
    assert_eq!(oof_item_kind(false, false), OofItemKind::Folder);
    assert_eq!(oof_item_kind(false, true), OofItemKind::Folder);
    assert_eq!(oof_item_kind(true, true), OofItemKind::Video);
    assert_eq!(oof_item_kind(true, false), OofItemKind::Skipped);
}

#[test]
fn drive_folder_entry() {
    let e = oof_folder_entry("Docs".to_string(), "2023", "1700000000").unwrap();
    assert_eq!(e.id, 2023);
    assert_eq!(e.pickcode, "2023".to_string());
    assert_eq!(e.ctime, 1700000000);
    assert!(!e.is_file);
    assert_eq!(oof_folder_entry("Docs".to_string(), "x", "1").err(), Some(FsError::BackendFailure));
    assert_eq!(oof_folder_entry("Docs".to_string(), "1", "").err(), Some(FsError::BackendFailure));
}

#[test]
fn drive_video_entry() {
    let e = oof_video_entry("Clip", "99", "5", "pc99".to_string(), b"#EXTM3U\r\nhttp://a".to_vec()).unwrap();
    assert_eq!(e.id, 99);
    assert_eq!(e.name, "Clip.m3u8".to_string());
    assert_eq!(e.size, 17);
    assert_eq!(e.pickcode, "pc99".to_string());
    assert!(e.is_file);
    assert_eq!(e.data.unwrap(), b"#EXTM3U\r\nhttp://a".to_vec());
    assert_eq!(oof_video_entry("Clip", "9x", "5", "p".to_string(), vec![]).err(), Some(FsError::BackendFailure));
}

#[test]
fn property_keys_and_copies() {
    assert_eq!(propkey(&Some("DAV:".to_string()), "getetag"), "DAV:getetag".to_string());
    assert_eq!(propkey(&None, "getetag"), "getetag".to_string());
    let p = Prop {
        name: "n".to_string(),
        namespace: Some("ns".to_string()),
        prefix: None,
        xml: Some(vec![1, 2]),
    };
    let c = cloneprop(&p);
    assert_eq!(c.name, "n".to_string());
    assert_eq!(c.namespace, Some("ns".to_string()));
    assert_eq!(c.prefix, None);
    assert_eq!(c.xml, None);
}

#[test]
fn attributes_by_kind() {
    let f = Node::File(FileNode {
        backend_id: "b".to_string(),
        props: Vec::new(),
        mtime: 3,
        crtime: 2,
        size: 1024,
        data: vec![0; 1024],
    });
    let a = f.attr(17);
    assert_eq!(a.ino, 17);
    assert_eq!(a.size, 1024);
    assert_eq!(a.blocks, 3);
    assert_eq!(a.perm, 0o644);
    assert_eq!(a.nlink, 1);
    assert_eq!((a.uid, a.gid, a.blksize), (501, 20, 512));
    let d = Node::Dir(DirNode { backend_id: "d".to_string(), props: Vec::new(), mtime: 3, crtime: 2 });
    let b = d.attr(1);
    assert!(b.is_dir);
    assert_eq!((b.size, b.blocks, b.perm, b.nlink), (0, 0, 0o755, 2));
    let e = d.as_dirent(b"x");
    assert_eq!(e.name, b"x".to_vec());
    assert!(e.is_dir);
}

#[test]
fn new_directory_and_mtime_update() {
    let mut d = Node::new_dir("root".to_string());
    assert!(d.is_dir());
    assert!(d.get_props().is_empty());
    d.update_mtime(55);
    match &d {
        Node::Dir(x) => {
            assert_eq!(x.mtime, 55);
            assert_eq!(x.backend_id, "root".to_string());
        }
        Node::File(_) => panic!("expected a directory"),
    }
    assert_eq!(d.as_file().err(), Some(FsError::Forbidden));
    assert!(d.as_dir().is_ok());
}

#[test]
fn playlist_keeps_first_stream() {
    let text = "#EXTM3U \n  #EXT-X-STREAM-INF:BANDWIDTH=1\r\nhttp://a/1.m3u8\r\n#EXT-X-STREAM-INF:BANDWIDTH=2\nhttp://a/2.m3u8\n";
    assert_eq!(
        first_stream_playlist(text),
        "#EXTM3U\r\n#EXT-X-STREAM-INF:BANDWIDTH=1\r\nhttp://a/1.m3u8".to_string()
    );
}

#[test]
fn playlist_without_stream_keeps_all_lines() {
    assert_eq!(first_stream_playlist("a\n\n b \n"), "a\r\n\r\nb".to_string());
    assert_eq!(first_stream_playlist(""), String::new());
    assert_eq!(first_stream_playlist("only"), "only".to_string());
}

#[test]
fn playlist_trims_unicode_whitespace() {
    assert_eq!(first_stream_playlist("\u{3000}x"), "x".to_string());
    assert_eq!(first_stream_playlist("\u{a0}#EXTM3U\u{2003}\n\u{85}http://s\u{202f}\nrest"), "#EXTM3U\r\nhttp://s\r\nrest".to_string());
    assert_eq!(first_stream_playlist("\u{3000}x").as_bytes(), &b"x"[..]);
    assert_eq!(first_stream_playlist("a\u{200b}"), "a\u{200b}".to_string());
}
