use vstd::prelude::*;
use vstd::slice::slice_to_vec;
use vstd::utf8::encode_utf8;
use crate::error::FsError;
use crate::node::{DirNode, FileNode, Node};

verus! {

/// Bitrate asked of the media server when the configuration leaves it 0.
pub const DEFAULT_BITRATE: u32 = 4000000;

/// One child as a backend listing describes it. `id` is the identity the
/// backend suggests for the node; `pickcode` is the backend's reference to
/// it (a download token for a file, a folder identifier for a directory);
/// `ctime` is in seconds since the Unix epoch; a file carries its whole
/// content in `data`.
#[derive(Debug, Clone)]
pub struct FileInfo {
    pub id: u64,
    pub pickcode: String,
    pub name: String,
    pub size: usize,
    pub ctime: u64,
    pub is_file: bool,
    pub data: Option<Vec<u8>>,
}

/// One child as the media server lists it: its identifier, its name, and
/// for a file the generated playlist that stands for it.
#[derive(Debug, Clone)]
pub struct File {
    pub id: String,
    pub name: String,
    pub size: usize,
    pub ctime: u64,
    pub is_file: bool,
    pub data: Option<String>,
}

/// Settings of the media-server backend.
#[derive(Debug, Clone, Default)]
pub struct Config {
    pub server: String,
    pub user_id: String,
    pub root_folder_id: String,
    pub api_key: String,
    pub bitrate: u32,
}

/// The name of a listed child as the tree holds it: its UTF-8 bytes.
pub open spec fn name_bytes(e: FileInfo) -> Seq<u8> {
    encode_utf8(e.name@)
}

/// A file entry is usable when it carries content of its stated size; a
/// directory entry always is.
pub open spec fn entry_valid(e: FileInfo) -> bool {
    e.is_file ==> (e.data matches Some(d) && d@.len() == e.size)
}

/// `n` is the node that entry `e` describes: its kind, backend reference,
/// times, size and content, with an empty property bag.
pub open spec fn node_of_entry(e: FileInfo, n: Node) -> bool {
    if e.is_file {
        n matches Node::File(f) && (f.backend_id@ == e.pickcode@ && f.props@.len() == 0 && f.mtime
            == e.ctime && f.crtime == e.ctime && f.size == e.size && (e.data matches Some(d)
            && f.data@ == d@))
    } else {
        n matches Node::Dir(d) && (d.backend_id@ == e.pickcode@ && d.props@.len() == 0 && d.mtime
            == e.ctime && d.crtime == e.ctime)
    }
}

impl FileInfo {
    /// The node this entry describes; a file entry without content of its
    /// stated size is a malformed listing.
    pub fn to_node(&self) -> (r: Result<Node, FsError>)
        ensures
            entry_valid(*self) ==> (r matches Ok(n) && node_of_entry(*self, n) && n.wf()),
            !entry_valid(*self) ==> r == Err::<Node, FsError>(FsError::BackendFailure),
    {
        if self.is_file {
            match &self.data {
                Some(d) => {
                    if d.len() != self.size {
                        return Err(FsError::BackendFailure);
                    }
                    Ok(
                        Node::File(
                            FileNode {
                                backend_id: self.pickcode.clone(),
                                props: Vec::new(),
                                mtime: self.ctime,
                                crtime: self.ctime,
                                size: self.size,
                                data: slice_to_vec(d.as_slice()),
                            },
                        ),
                    )
                },
                None => Err(FsError::BackendFailure),
            }
        } else {
            Ok(
                Node::Dir(
                    DirNode {
                        backend_id: self.pickcode.clone(),
                        props: Vec::new(),
                        mtime: self.ctime,
                        crtime: self.ctime,
                    },
                ),
            )
        }
    }

    /// Whether the entry is usable: a file must carry content of its stated
    /// size.
    pub fn is_valid(&self) -> (r: bool)
        ensures
            r == entry_valid(*self),
    {
        if !self.is_file {
            return true;
        }
        match &self.data {
            Some(d) => d.len() == self.size,
            None => false,
        }
    }

    /// The entry's name as the bytes the tree files it under.
    pub fn name_bytes(&self) -> (r: Vec<u8>)
        ensures
            r@ == name_bytes(*self),
    {
        slice_to_vec(self.name.as_str().as_bytes())
    }
}

impl File {
    /// The listing entry for this item: no identity is suggested, the
    /// item's identifier is the backend reference, and a playlist becomes
    /// the file's content as UTF-8 bytes.
    pub fn to_file_info(&self) -> (r: FileInfo)
        ensures
            r.id == 0,
            r.pickcode@ == self.id@,
            r.name@ == self.name@,
            r.size == self.size,
            r.ctime == self.ctime,
            r.is_file == self.is_file,
            match self.data {
                Some(s) => r.data matches Some(d) && d@ == encode_utf8(s@),
                None => r.data is None,
            },
    {
        let data = match &self.data {
            Some(s) => Some(slice_to_vec(s.as_str().as_bytes())),
            None => None,
        };
        FileInfo {
            id: 0,
            pickcode: self.id.clone(),
            name: self.name.clone(),
            size: self.size,
            ctime: self.ctime,
            is_file: self.is_file,
            data,
        }
    }
}

impl Config {
    /// This configuration with a zero bitrate replaced by the default.
    pub fn with_default_bitrate(self) -> (r: Config)
        ensures
            r.bitrate == if self.bitrate == 0 { DEFAULT_BITRATE } else { self.bitrate },
            r.server == self.server,
            r.user_id == self.user_id,
            r.root_folder_id == self.root_folder_id,
            r.api_key == self.api_key,
    {
        let mut c = self;
        if c.bitrate == 0 {
            c.bitrate = DEFAULT_BITRATE;
        }
        c
    }
}

} // verus!
