//! The snapshot data model: parallel vectors of files, chunks, byte-range
//! rows, and link records, tied together by integer indices.

use vstd::prelude::*;

verus! {

/// One regular file recorded in a snapshot. Its identity is its index in
/// `Snapshot::files`. The path is relative to the backup root and uses `/`
/// as the separator on every platform.
pub struct File {
    pub path: String,
}

/// One stored chunk: its 32-byte BLAKE3 digest and the opaque blob-store key
/// under which its bytes live. Its identity is its index in
/// `Snapshot::chunks`.
pub struct Chunk {
    pub hash: Vec<u8>,
    pub location: String,
}

/// One byte range: bytes `[chunk_offset, chunk_offset + length)` of chunk
/// `chunk_index` are bytes `[file_offset, file_offset + length)` of file
/// `file_index`.
#[derive(Clone, Copy, Debug, PartialEq, Eq, Structural)]
pub struct FileChunk {
    pub chunk_index: u32,
    pub file_index: u32,
    pub chunk_offset: u32,
    pub file_offset: u64,
    pub length: u32,
}

/// A link record. With `is_hard` false, `path` is a symbolic link whose
/// target text is `source`, recorded verbatim and never followed. With
/// `is_hard` true, `path` is a hard link to the regular file whose snapshot
/// path is `source`.
pub struct FileSymlink {
    pub path: String,
    pub source: String,
    pub is_hard: bool,
}

/// The manifest of one backup run.
pub struct Snapshot {
    pub files: Vec<File>,
    pub chunks: Vec<Chunk>,
    pub file_chunks: Vec<FileChunk>,
    pub file_symlink: Vec<FileSymlink>,
}

/// Mathematical value of a `Chunk`.
pub struct ChunkV {
    pub hash: Seq<u8>,
    pub location: Seq<char>,
}

/// Mathematical value of a `FileSymlink`.
pub struct FileSymlinkV {
    pub path: Seq<char>,
    pub source: Seq<char>,
    pub is_hard: bool,
}

/// Mathematical value of a `Snapshot`.
pub struct SnapshotV {
    pub files: Seq<Seq<char>>,
    pub chunks: Seq<ChunkV>,
    pub file_chunks: Seq<FileChunk>,
    pub file_symlink: Seq<FileSymlinkV>,
}

impl View for File {
    type V = Seq<char>;

    open spec fn view(&self) -> Seq<char> {
        self.path@
    }
}

impl View for Chunk {
    type V = ChunkV;

    open spec fn view(&self) -> ChunkV {
        ChunkV { hash: self.hash@, location: self.location@ }
    }
}

impl View for FileSymlink {
    type V = FileSymlinkV;

    open spec fn view(&self) -> FileSymlinkV {
        FileSymlinkV { path: self.path@, source: self.source@, is_hard: self.is_hard }
    }
}

impl View for Snapshot {
    type V = SnapshotV;

    open spec fn view(&self) -> SnapshotV {
        SnapshotV {
            files: Seq::new(self.files@.len(), |i: int| self.files@[i]@),
            chunks: Seq::new(self.chunks@.len(), |i: int| self.chunks@[i]@),
            file_chunks: self.file_chunks@,
            file_symlink: Seq::new(self.file_symlink@.len(), |i: int| self.file_symlink@[i]@),
        }
    }
}

impl Snapshot {
    /// An empty manifest, as a backup of a tree with no entries produces it.
    pub fn new() -> (s: Snapshot)
        ensures
            s@.files.len() == 0,
            s@.chunks.len() == 0,
            s@.file_chunks.len() == 0,
            s@.file_symlink.len() == 0,
    {
        Snapshot { files: Vec::new(), chunks: Vec::new(), file_chunks: Vec::new(), file_symlink: Vec::new() }
    }
}

/// The structural part of the manifest invariant that does not depend on a
/// blob store: every row points at an existing file and chunk, moves at
/// least one byte, and every recorded digest is 32 bytes long.
pub open spec fn wf_snapshot(s: SnapshotV) -> bool {
    &&& forall|i: int|
        0 <= i < s.file_chunks.len() ==> {
            &&& (#[trigger] s.file_chunks[i]).file_index < s.files.len()
            &&& s.file_chunks[i].chunk_index < s.chunks.len()
            &&& s.file_chunks[i].length > 0
        }
    &&& forall|i: int| 0 <= i < s.chunks.len() ==> (#[trigger] s.chunks[i]).hash.len() == 32
}

} // verus!
