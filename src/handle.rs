use vstd::prelude::*;
use vstd::slice::{slice_subrange, slice_to_vec};
use crate::error::FsError;
use crate::node::{DirEntryInfo, FileNode, Node};
use crate::path::segments;
use crate::tree::Tree;

verus! {

/// Where a seek is measured from.
#[derive(Debug, Clone, Copy, PartialEq, Eq, Structural)]
pub enum Whence {
    /// An absolute position.
    Start(u64),
    /// An offset from the handle's cursor.
    Current(i64),
    /// An offset from the file's recorded size.
    End(i64),
}

/// An open file: the node it reads, the backend's reference to the content,
/// its own cursor, and whether it was opened for appending.
#[derive(Debug, Clone)]
pub struct FileHandle {
    pub node_id: u64,
    pub backend_id: String,
    pub pos: u64,
    pub append: bool,
}

/// The byte range that a read of `count` bytes at `pos` covers in content
/// of `size` bytes: both ends clamped to the size.
pub open spec fn read_window(size: nat, pos: int, count: int) -> (int, int) {
    (if pos < size { pos } else { size as int }, if pos + count < size { pos + count } else { size as int })
}

/// The bytes that such a read returns.
pub open spec fn read_slice(data: Seq<u8>, pos: int, count: int) -> Seq<u8> {
    let (start, end) = read_window(data.len(), pos, count);
    data.subrange(start, end)
}

/// The position `delta` away from `base`, if it is neither negative nor
/// beyond the largest position.
pub open spec fn seek_target(base: u64, delta: i64) -> Option<u64> {
    let t = base + delta;
    if 0 <= t <= u64::MAX {
        Some(t as u64)
    } else {
        None
    }
}

/// A read never fails for being out of range: from at or past the end it
/// gives nothing, and otherwise as many bytes as asked for or as remain,
/// whichever is fewer.
pub proof fn lemma_read_clamping(data: Seq<u8>, pos: int, count: int)
    requires
        pos >= 0,
        count >= 0,
    ensures
        pos >= data.len() ==> read_slice(data, pos, count).len() == 0,
        pos < data.len() ==> read_slice(data, pos, count).len() == if count < data.len() - pos {
            count
        } else {
            data.len() - pos
        },
{
}

/// A relative seek one byte before the start fails, and a seek to the end
/// with no offset lands on the size.
pub proof fn lemma_seek_bounds(cursor: u64, size: u64)
    requires
        cursor < i64::MAX,
    ensures
        seek_target(cursor, -(cursor + 1) as i64) is None,
        seek_target(size, 0) == Some(size),
{
}

/// The bytes of `file` from `position`, at most `count` of them: the range
/// is clamped to the file's size, so a read past the end gives fewer bytes
/// or none, never an error.
pub fn read_range(file: &FileNode, position: u64, count: usize) -> (r: Vec<u8>)
    requires
        file.wf(),
    ensures
        r@ == read_slice(file.data@, position as int, count as int),
{
    let size = file.size;
    let start: usize = if position < size as u64 {
        position as usize
    } else {
        size
    };
    let end: usize = if count < size - start {
        start + count
    } else {
        size
    };
    let out = slice_to_vec(slice_subrange(file.data.as_slice(), start, end));
    assert(out@ =~= read_slice(file.data@, position as int, count as int));
    out
}

/// Offsets `base` by `delta`, refusing a position below zero or beyond the
/// largest one.
pub fn offset_position(base: u64, delta: i64) -> (r: Result<u64, FsError>)
    ensures
        r == match seek_target(base, delta) {
            Some(t) => Ok::<u64, FsError>(t),
            None => Err(FsError::InvalidSeek),
        },
{
    if delta < 0 {
        let magnitude: u64 = (-(delta + 1)) as u64 + 1;
        if magnitude > base {
            Err(FsError::InvalidSeek)
        } else {
            Ok(base - magnitude)
        }
    } else {
        let d = delta as u64;
        if d > u64::MAX - base {
            Err(FsError::InvalidSeek)
        } else {
            Ok(base + d)
        }
    }
}

impl FileHandle {
    /// Opens the file at `path`. An exclusive create of a path that resolves
    /// fails with `AlreadyExists`; a directory cannot be opened as a file.
    pub fn open(tree: &Tree, path: &[u8], create_new: bool, append: bool) -> (r: Result<FileHandle, FsError>)
        requires
            tree.wf(),
        ensures
            match tree.resolve(segments(path@)) {
                Err(e) => r == Err::<FileHandle, FsError>(e),
                Ok(id) => if create_new {
                    r == Err::<FileHandle, FsError>(FsError::AlreadyExists)
                } else if tree.is_dir(id) {
                    r == Err::<FileHandle, FsError>(FsError::Forbidden)
                } else {
                    r matches Ok(h) && (h.node_id == id && h.pos == 0 && h.append == append && (
                    tree.node(id) matches Node::File(f) && h.backend_id@ == f.backend_id@))
                },
            },
    {
        let node_id = tree.lookup(path)?;
        if create_new {
            return Err(FsError::AlreadyExists);
        }
        let node = tree.get_node(node_id)?;
        let file = node.as_file()?;
        Ok(FileHandle { node_id, backend_id: file.backend_id.clone(), pos: 0, append })
    }

    /// Reads up to `count` bytes at the cursor and moves the cursor past
    /// them.
    pub fn read_bytes(&mut self, tree: &Tree, count: usize) -> (r: Result<Vec<u8>, FsError>)
        requires
            tree.wf(),
        ensures
            !tree.contains(old(self).node_id) ==> r == Err::<Vec<u8>, FsError>(FsError::NotFound),
            tree.is_dir(old(self).node_id) ==> r == Err::<Vec<u8>, FsError>(FsError::Forbidden),
            r is Err ==> *final(self) == *old(self),
            tree.contains(old(self).node_id) && !tree.is_dir(old(self).node_id) ==> (
            tree.node(old(self).node_id) matches Node::File(f) && (r matches Ok(bytes) && (bytes@
                == read_slice(f.data@, old(self).pos as int, count as int) && final(self).pos
                == old(self).pos + bytes@.len() && final(self).node_id == old(self).node_id
                && final(self).backend_id == old(self).backend_id && final(self).append
                == old(self).append))),
    {
        let node = tree.get_node(self.node_id)?;
        let file = node.as_file()?;
        let bytes = read_range(file, self.pos, count);
        let n = bytes.len();
        proof {
            assert(self.pos + n <= u64::MAX) by {
                if self.pos < file.size {
                    assert(self.pos + n <= file.size);
                }
            }
        }
        self.pos = self.pos + n as u64;
        Ok(bytes)
    }

    /// Moves the cursor. `Start` sets it unconditionally, even past the end;
    /// `Current` and `End` offset it from the cursor or from the recorded
    /// size, and fail with `InvalidSeek` when the result would be negative.
    pub fn seek(&mut self, tree: &Tree, whence: Whence) -> (r: Result<u64, FsError>)
        requires
            tree.wf(),
        ensures
            r is Err ==> *final(self) == *old(self),
            r matches Ok(p) ==> final(self).pos == p && final(self).node_id == old(self).node_id
                && final(self).backend_id == old(self).backend_id && final(self).append
                == old(self).append,
            match whence {
                Whence::Start(n) => r == Ok::<u64, FsError>(n),
                Whence::Current(d) => r == match seek_target(old(self).pos, d) {
                    Some(t) => Ok::<u64, FsError>(t),
                    None => Err(FsError::InvalidSeek),
                },
                Whence::End(d) => if !tree.contains(old(self).node_id) {
                    r == Err::<u64, FsError>(FsError::NotFound)
                } else if tree.is_dir(old(self).node_id) {
                    r == Err::<u64, FsError>(FsError::Forbidden)
                } else {
                    r == match seek_target(tree.node(old(self).node_id).spec_size() as u64, d) {
                        Some(t) => Ok::<u64, FsError>(t),
                        None => Err(FsError::InvalidSeek),
                    }
                },
            },
    {
        let target = match whence {
            Whence::Start(n) => n,
            Whence::Current(d) => offset_position(self.pos, d)?,
            Whence::End(d) => {
                let node = tree.get_node(self.node_id)?;
                let file = node.as_file()?;
                offset_position(file.size as u64, d)?
            },
        };
        self.pos = target;
        Ok(target)
    }

    /// The listing entry of the open file, with an empty name.
    pub fn metadata(&self, tree: &Tree) -> (r: Result<DirEntryInfo, FsError>)
        ensures
            !tree.contains(self.node_id) ==> r == Err::<DirEntryInfo, FsError>(FsError::NotFound),
            tree.contains(self.node_id) ==> (r matches Ok(e) && (e.name@.len() == 0 && e.is_dir
                == tree.node(self.node_id).spec_is_dir() && e.size == tree.node(
                self.node_id,
            ).spec_size() && e.mtime == tree.node(self.node_id).spec_mtime() && e.crtime
                == tree.node(self.node_id).spec_crtime())),
    {
        let node = tree.get_node(self.node_id)?;
        let empty: [u8; 0] = [];
        Ok(node.as_dirent(&empty))
    }
}

} // verus!
