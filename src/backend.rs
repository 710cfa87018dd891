use vstd::prelude::*;
use vstd::string::StringSliceAdditionalSpecFns;
use vstd::utf8::encode_utf8;
use crate::entry::{Config, File, FileInfo};
use crate::error::FsError;

verus! {

/// Suffix of the playlist file that stands for a video.
pub open spec fn playlist_suffix() -> Seq<char> {
    ".m3u8"@
}

/// What a cloud-drive listing item becomes.
#[derive(Debug, Clone, Copy, PartialEq, Eq, Structural)]
pub enum OofItemKind {
    /// A folder: a directory.
    Folder,
    /// A video: a playlist file, whose content is fetched from the drive.
    Video,
    /// Any other file: left out of the tree.
    Skipped,
}

/// The value of the decimal digits `d`.
pub open spec fn digits_value(d: Seq<u8>) -> nat
    decreases d.len(),
{
    if d.len() == 0 {
        0
    } else {
        digits_value(d.drop_last()) * 10 + (d.last() - 0x30) as nat
    }
}

pub open spec fn is_digit(c: u8) -> bool {
    0x30 <= c <= 0x39
}

/// The number that text `s` spells: an optional `+` and at least one
/// decimal digit, with a value that fits in a `u64`.
pub open spec fn parsed_u64(s: Seq<u8>) -> Option<u64> {
    let d = decimal_body(s);
    if d.len() > 0 && all_digits(d) && digits_value(d) <= u64::MAX {
        Some(digits_value(d) as u64)
    } else {
        None
    }
}

/// `s` without its leading `+`, if any.
pub open spec fn decimal_body(s: Seq<u8>) -> Seq<u8> {
    if s.len() > 0 && s[0] == 0x2b {
        s.drop_first()
    } else {
        s
    }
}

pub open spec fn all_digits(d: Seq<u8>) -> bool {
    forall|i: int| 0 <= i < d.len() ==> is_digit(#[trigger] d[i])
}

/// The playlist that stands for media item `id` on the server: a stream
/// of the item, authorised by the API key.
pub open spec fn stream_manifest(server: Seq<char>, id: Seq<char>, api_key: Seq<char>) -> Seq<char> {
    "#EXTM3U\r\n#EXT-X-VERSION:7\r\n"@ + server + "/Videos/"@ + id
        + "/stream.mov?Static=true&mediaSourceId="@ + id + "&api_key="@ + api_key
}

proof fn lemma_digits_grow(d: Seq<u8>, k: int)
    requires
        0 <= k <= d.len(),
        all_digits(d),
    ensures
        digits_value(d.subrange(0, k)) <= digits_value(d),
    decreases d.len() - k,
{
    if k < d.len() {
        let e = d.subrange(0, k + 1);
        assert(e.drop_last() =~= d.subrange(0, k));
        lemma_digits_grow(d, k + 1);
    } else {
        assert(d.subrange(0, k) =~= d);
    }
}

/// Reads the number that `s` spells; `None` for anything else.
pub fn parse_u64(s: &str) -> (r: Option<u64>)
    ensures
        r == parsed_u64(s.spec_bytes()),
{
    let b = s.as_bytes();
    let ghost sb = b@;
    let start: usize = if b.len() > 0 && b[0] == 0x2b { 1 } else { 0 };
    let ghost d = decimal_body(sb);
    assert(d =~= sb.subrange(start as int, sb.len() as int));
    if start >= b.len() {
        return None;
    }
    let mut acc: u64 = 0;
    let mut i: usize = start;
    while i < b.len()
        invariant
            sb == b@,
            sb == s.spec_bytes(),
            d == decimal_body(sb),
            start <= i <= sb.len(),
            d =~= sb.subrange(start as int, sb.len() as int),
            forall|j: int| 0 <= j < i - start ==> is_digit(#[trigger] d[j]),
            acc == digits_value(d.subrange(0, i - start)),
        decreases sb.len() - i,
    {
        let c = b[i];
        if c < 0x30 || c > 0x39 {
            assert(d[i - start] == c);
            assert(!is_digit(d[i - start]));
            assert(!all_digits(d));
            return None;
        }
        let digit = (c - 0x30) as u64;
        proof {
            assert(d.subrange(0, i + 1 - start).drop_last() =~= d.subrange(0, i - start));
        }
        if acc > (u64::MAX - digit) / 10 {
            proof {
                assert(acc * 10 + digit > u64::MAX) by (nonlinear_arith)
                    requires
                        acc > (u64::MAX - digit) / 10,
                        digit <= 9,
                ;
                if all_digits(d) {
                    lemma_digits_grow(d, i + 1 - start);
                    assert(digits_value(d.subrange(0, i + 1 - start)) == acc * 10 + digit);
                    assert(digits_value(d) > u64::MAX);
                }
            }
            return None;
        }
        acc = acc * 10 + digit;
        i = i + 1;
    }
    assert(d.subrange(0, d.len() as int) =~= d);
    Some(acc)
}

/// Appends the playlist suffix to `name`.
pub fn playlist_name(name: &str) -> (r: String)
    ensures
        r@ == name@ + playlist_suffix(),
{
    let mut n = String::from_str(name);
    n.append(".m3u8");
    n
}

/// The playlist that stands for media item `id` under `config`.
pub fn stream_manifest_for(config: &Config, id: &str) -> (r: String)
    ensures
        r@ == stream_manifest(config.server@, id@, config.api_key@),
{
    let mut m = String::from_str("#EXTM3U\r\n#EXT-X-VERSION:7\r\n");
    m.append(config.server.as_str());
    m.append("/Videos/");
    m.append(id);
    m.append("/stream.mov?Static=true&mediaSourceId=");
    m.append(id);
    m.append("&api_key=");
    m.append(config.api_key.as_str());
    m
}

/// The listing entry for a media-server item: a folder becomes a
/// directory; any other item becomes a playlist file named after it, whose
/// content streams it.
pub fn jellyfin_item(config: &Config, id: String, name: &str, is_folder: bool, ctime: u64) -> (r: File)
    ensures
        r.id@ == id@,
        r.ctime == ctime,
        r.is_file == !is_folder,
        is_folder ==> r.name@ == name@ && r.size == 0 && r.data is None,
        !is_folder ==> (r.name@ == name@ + playlist_suffix() && (r.data matches Some(m) && (m@
            == stream_manifest(config.server@, id@, config.api_key@) && r.size
            == encode_utf8(m@).len()))),
{
    if is_folder {
        File { id, name: String::from_str(name), size: 0, ctime, is_file: false, data: None }
    } else {
        let manifest = stream_manifest_for(config, id.as_str());
        let size = manifest.as_str().as_bytes().len();
        File { id, name: playlist_name(name), size, ctime, is_file: true, data: Some(manifest) }
    }
}

/// What a cloud-drive item becomes: an item with a file identifier is a
/// file, kept only when it is a playable video; any other item is a folder.
pub fn oof_item_kind(has_file_id: bool, playable: bool) -> (r: OofItemKind)
    ensures
        r == if !has_file_id {
            OofItemKind::Folder
        } else if playable {
            OofItemKind::Video
        } else {
            OofItemKind::Skipped
        },
{
    if !has_file_id {
        OofItemKind::Folder
    } else if playable {
        OofItemKind::Video
    } else {
        OofItemKind::Skipped
    }
}

/// The entry for a cloud-drive folder with identifier `cid`, created at
/// `te` (both decimal text); the identifier is both the suggested identity
/// and the backend reference.
pub fn oof_folder_entry(name: String, cid: &str, te: &str) -> (r: Result<FileInfo, FsError>)
    ensures
        match (parsed_u64(cid.spec_bytes()), parsed_u64(te.spec_bytes())) {
            (Some(id), Some(t)) => r matches Ok(e) && (e.id == id && e.ctime == t && e.pickcode@
                == cid@ && e.name@ == name@ && e.size == 0 && !e.is_file && e.data is None),
            _ => r == Err::<FileInfo, FsError>(FsError::BackendFailure),
        },
{
    let id = match parse_u64(cid) {
        Some(v) => v,
        None => {
            return Err(FsError::BackendFailure);
        },
    };
    let ctime = match parse_u64(te) {
        Some(v) => v,
        None => {
            return Err(FsError::BackendFailure);
        },
    };
    Ok(FileInfo { id, pickcode: String::from_str(cid), name, size: 0, ctime, is_file: false, data: None })
}

/// The entry for a cloud-drive video with identifier `fid`, created at `te`
/// (both decimal text): a playlist file named after it, holding `manifest`,
/// whose backend reference is the video's pick code.
pub fn oof_video_entry(name: &str, fid: &str, te: &str, pickcode: String, manifest: Vec<u8>) -> (r: Result<FileInfo, FsError>)
    ensures
        match (parsed_u64(fid.spec_bytes()), parsed_u64(te.spec_bytes())) {
            (Some(id), Some(t)) => r matches Ok(e) && (e.id == id && e.ctime == t && e.pickcode@
                == pickcode@ && e.name@ == name@ + playlist_suffix() && e.size == manifest@.len()
                && e.is_file && (e.data matches Some(d) && d@ == manifest@)),
            _ => r == Err::<FileInfo, FsError>(FsError::BackendFailure),
        },
{
    let id = match parse_u64(fid) {
        Some(v) => v,
        None => {
            return Err(FsError::BackendFailure);
        },
    };
    let ctime = match parse_u64(te) {
        Some(v) => v,
        None => {
            return Err(FsError::BackendFailure);
        },
    };
    let size = manifest.len();
    Ok(FileInfo { id, pickcode, name: playlist_name(name), size, ctime, is_file: true, data: Some(manifest) })
}

} // verus!
