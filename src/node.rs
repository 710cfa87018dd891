use vstd::prelude::*;
use vstd::slice::slice_to_vec;
use crate::error::FsError;

verus! {

/// Block size reported to the kernel front-end.
pub const BLOCK_SIZE: u64 = 512;

/// Permission bits of a directory (read-only filesystem: fixed, not taken
/// from the backend).
pub const DIR_PERM: u16 = 0o755;

/// Permission bits of a file.
pub const FILE_PERM: u16 = 0o644;

/// Owner reported for every node.
pub const OWNER_UID: u32 = 501;

/// Group reported for every node.
pub const OWNER_GID: u32 = 20;

/// A protocol property attached to a node; opaque to the core.
#[derive(Debug, Clone)]
pub struct Prop {
    pub name: String,
    pub namespace: Option<String>,
    pub prefix: Option<String>,
    pub xml: Option<Vec<u8>>,
}

/// A directory: the backend's identifier for it, its times (seconds since
/// the Unix epoch) and its property bag.
#[derive(Debug, Clone)]
pub struct DirNode {
    pub backend_id: String,
    pub props: Vec<Prop>,
    pub mtime: u64,
    pub crtime: u64,
}

/// A file: the backend's reference to its content, its recorded size, its
/// resident content, its times and its property bag.
#[derive(Debug, Clone)]
pub struct FileNode {
    pub backend_id: String,
    pub props: Vec<Prop>,
    pub mtime: u64,
    pub crtime: u64,
    pub size: usize,
    pub data: Vec<u8>,
}

/// A node of the tree.
#[derive(Debug, Clone)]
pub enum Node {
    Dir(DirNode),
    File(FileNode),
}

/// What a listing shows of a node.
#[derive(Debug, Clone)]
pub struct DirEntryInfo {
    pub name: Vec<u8>,
    pub mtime: u64,
    pub crtime: u64,
    pub is_dir: bool,
    pub size: u64,
}

/// Attributes of a node as the kernel front-end reports them.
#[derive(Debug, Clone, Copy, PartialEq, Eq)]
pub struct Attr {
    pub ino: u64,
    pub size: u64,
    pub blocks: u64,
    pub mtime: u64,
    pub crtime: u64,
    pub is_dir: bool,
    pub perm: u16,
    pub nlink: u32,
    pub uid: u32,
    pub gid: u32,
    pub blksize: u32,
}

pub open spec fn opt_string_view(o: Option<String>) -> Option<Seq<char>> {
    match o {
        Some(s) => Some(s@),
        None => None,
    }
}

/// The key under which a property is filed: its namespace followed by its
/// name.
pub open spec fn prop_key(ns: Option<Seq<char>>, name: Seq<char>) -> Seq<char> {
    match ns {
        Some(n) => n + name,
        None => name,
    }
}

impl FileNode {
    /// The resident content holds exactly the recorded size.
    pub open spec fn wf(&self) -> bool {
        self.data@.len() == self.size
    }
}

impl Node {
    pub open spec fn spec_is_dir(&self) -> bool {
        self is Dir
    }

    /// A file's content holds its recorded size; a directory is always
    /// well formed.
    pub open spec fn wf(&self) -> bool {
        match self {
            Node::File(f) => f.wf(),
            Node::Dir(_) => true,
        }
    }

    pub open spec fn spec_size(&self) -> nat {
        match self {
            Node::File(f) => f.size as nat,
            Node::Dir(_) => 0,
        }
    }

    pub open spec fn spec_mtime(&self) -> u64 {
        match self {
            Node::File(f) => f.mtime,
            Node::Dir(d) => d.mtime,
        }
    }

    pub open spec fn spec_crtime(&self) -> u64 {
        match self {
            Node::File(f) => f.crtime,
            Node::Dir(d) => d.crtime,
        }
    }

    pub open spec fn spec_props(&self) -> Seq<Prop> {
        match self {
            Node::File(f) => f.props@,
            Node::Dir(d) => d.props@,
        }
    }

    /// A new, empty directory for the backend folder `backend_id`, stamped
    /// with the current time.
    pub fn new_dir(backend_id: String) -> (r: Node)
        ensures
            r matches Node::Dir(d) && d.backend_id@ == backend_id@ && d.props@.len() == 0
                && d.mtime == d.crtime,
    {
        let now = now_secs();
        Node::Dir(DirNode { backend_id, props: Vec::new(), mtime: now, crtime: now })
    }

    pub fn is_dir(&self) -> (r: bool)
        ensures
            r == self.spec_is_dir(),
    {
        match self {
            Node::Dir(_) => true,
            Node::File(_) => false,
        }
    }

    pub fn as_dir(&self) -> (r: Result<&DirNode, FsError>)
        ensures
            match self {
                Node::Dir(d) => r == Ok::<&DirNode, FsError>(d),
                Node::File(_) => r == Err::<&DirNode, FsError>(FsError::Forbidden),
            },
    {
        match self {
            Node::Dir(d) => Ok(d),
            Node::File(_) => Err(FsError::Forbidden),
        }
    }

    pub fn as_file(&self) -> (r: Result<&FileNode, FsError>)
        ensures
            match self {
                Node::File(f) => r == Ok::<&FileNode, FsError>(f),
                Node::Dir(_) => r == Err::<&FileNode, FsError>(FsError::Forbidden),
            },
    {
        match self {
            Node::File(f) => Ok(f),
            Node::Dir(_) => Err(FsError::Forbidden),
        }
    }

    pub fn get_props(&self) -> (r: &Vec<Prop>)
        ensures
            r@ == self.spec_props(),
    {
        match self {
            Node::File(f) => &f.props,
            Node::Dir(d) => &d.props,
        }
    }

    /// Sets the modification time, leaving everything else as it was.
    pub fn update_mtime(&mut self, tm: u64)
        ensures
            match *old(self) {
                Node::Dir(d) => *final(self) == Node::Dir(DirNode { mtime: tm, ..d }),
                Node::File(f) => *final(self) == Node::File(FileNode { mtime: tm, ..f }),
            },
    {
        match self {
            Node::Dir(d) => d.mtime = tm,
            Node::File(f) => f.mtime = tm,
        }
    }

    /// The listing entry of this node under `name`; a directory shows size 0.
    pub fn as_dirent(&self, name: &[u8]) -> (r: DirEntryInfo)
        ensures
            r.name@ == name@,
            r.is_dir == self.spec_is_dir(),
            r.size == self.spec_size(),
            r.mtime == self.spec_mtime(),
            r.crtime == self.spec_crtime(),
    {
        let (is_dir, size, mtime, crtime) = match self {
            Node::File(f) => (false, f.size as u64, f.mtime, f.crtime),
            Node::Dir(d) => (true, 0u64, d.mtime, d.crtime),
        };
        DirEntryInfo { name: slice_to_vec(name), mtime, crtime, is_dir, size }
    }

    /// The attributes of this node under identity `ino`: fixed permissions,
    /// owner and link counts by kind, and one block more than the whole
    /// blocks that a file's size fills.
    pub fn attr(&self, ino: u64) -> (r: Attr)
        ensures
            r.ino == ino,
            r.size == self.spec_size(),
            r.mtime == self.spec_mtime(),
            r.crtime == self.spec_crtime(),
            r.is_dir == self.spec_is_dir(),
            r.uid == OWNER_UID,
            r.gid == OWNER_GID,
            r.blksize == BLOCK_SIZE,
            self.spec_is_dir() ==> r.blocks == 0 && r.perm == DIR_PERM && r.nlink == 2,
            !self.spec_is_dir() ==> r.blocks == r.size / BLOCK_SIZE + 1 && r.perm == FILE_PERM
                && r.nlink == 1,
    {
        match self {
            Node::Dir(d) => Attr {
                ino,
                size: 0,
                blocks: 0,
                mtime: d.mtime,
                crtime: d.crtime,
                is_dir: true,
                perm: DIR_PERM,
                nlink: 2,
                uid: OWNER_UID,
                gid: OWNER_GID,
                blksize: BLOCK_SIZE as u32,
            },
            Node::File(f) => {
                let size = f.size as u64;
                Attr {
                    ino,
                    size,
                    blocks: size / BLOCK_SIZE + 1,
                    mtime: f.mtime,
                    crtime: f.crtime,
                    is_dir: false,
                    perm: FILE_PERM,
                    nlink: 1,
                    uid: OWNER_UID,
                    gid: OWNER_GID,
                    blksize: BLOCK_SIZE as u32,
                }
            },
        }
    }
}

/// The key under which a property is filed: `ns` (or nothing) followed by
/// `name`.
pub fn propkey(ns: &Option<String>, name: &str) -> (r: String)
    ensures
        r@ == prop_key(opt_string_view(*ns), name@),
{
    let mut key = match ns {
        Some(n) => n.clone(),
        None => String::new(),
    };
    key.append(name);
    key
}

/// A copy of `p` without its XML payload.
pub fn cloneprop(p: &Prop) -> (r: Prop)
    ensures
        r.name@ == p.name@,
        opt_string_view(r.namespace) == opt_string_view(p.namespace),
        opt_string_view(r.prefix) == opt_string_view(p.prefix),
        r.xml is None,
{
    Prop {
        name: p.name.clone(),
        namespace: match &p.namespace {
            Some(n) => Some(n.clone()),
            None => None,
        },
        prefix: match &p.prefix {
            Some(x) => Some(x.clone()),
            None => None,
        },
        xml: None,
    }
}

/// Relies on std::time::SystemTime::now: the current time in whole seconds
/// since the Unix epoch (0 for a clock set before it). Nothing is promised
/// of the value.
#[verifier::external_body]
fn now_secs() -> u64 {
    match std::time::SystemTime::now().duration_since(std::time::UNIX_EPOCH) {
        Ok(d) => d.as_secs(),
        Err(_) => 0,
    }
}

} // verus!
