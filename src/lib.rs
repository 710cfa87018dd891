//! A read-only virtual filesystem cache over a remote content store.
//!
//! The library holds the tree of nodes that the front-ends browse, the
//! decisions of lazy directory population, the byte-range reader with its
//! per-handle cursor, and the conversions from backend listings to nodes.
//! Network access and the protocol front-ends live outside the library.

mod backend;
mod cache;
mod entry;
mod error;
mod handle;
mod manifest;
mod node;
mod path;
mod tree;

pub use backend::{
    jellyfin_item, oof_folder_entry, oof_item_kind, oof_video_entry, parse_u64, playlist_name,
    stream_manifest_for, OofItemKind,
};
pub use cache::{
    lemma_fetch_handed_out_once, lemma_lookup_idempotent, lemma_populated_served, FsCache,
    ListStep,
};
pub use entry::{Config, File, FileInfo, DEFAULT_BITRATE};
pub use error::FsError;
pub use handle::{
    lemma_read_clamping, lemma_seek_bounds, offset_position, read_range, FileHandle, Whence,
};
pub use manifest::first_stream_playlist;
pub use node::{cloneprop, propkey, Attr, DirEntryInfo, DirNode, FileNode, Node, Prop};
pub use path::{file_name, path_segments};
pub use tree::{Slot, Tree, ROOT_ID};
