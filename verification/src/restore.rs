//! The restore pipeline: resolve every byte-range row of a snapshot against
//! the blob store, verify each chunk's digest, and rebuild every file's
//! bytes and every link record.

use vstd::prelude::*;

use crate::backup::{bytes_eq, clone_bytes, clone_string};
use crate::codec::{files_view, links_view};
use crate::digest::{blake3_hash, blake3_of};
use crate::error::Error;
use crate::metadata::{FileChunk, FileSymlink, Snapshot, SnapshotV};
use crate::storage::{spec_parse_key, BlobStore};

verus! {

/// The bytes a chunk's key names in the store, if the key is canonical and
/// its range lies inside the store.
pub open spec fn chunk_bytes_of(sv: SnapshotV, store: Seq<u8>, ci: int) -> Option<Seq<u8>> {
    match spec_parse_key(sv.chunks[ci].location) {
        None => None,
        Some(ol) => {
            if ol.0 + ol.1 <= store.len() {
                Some(store.subrange(ol.0 as int, ol.0 + ol.1))
            } else {
                None
            }
        },
    }
}

/// One row is restorable: its indices point inside the manifest, its
/// chunk's bytes are in the store and hash to the recorded digest, the row
/// fits inside its chunk, and the destination range fits the machine.
pub open spec fn row_ok(sv: SnapshotV, store: Seq<u8>, row: FileChunk) -> bool {
    &&& row.file_index < sv.files.len()
    &&& row.chunk_index < sv.chunks.len()
    &&& chunk_bytes_of(sv, store, row.chunk_index as int) is Some
    &&& row.chunk_offset + row.length <= chunk_bytes_of(
        sv,
        store,
        row.chunk_index as int,
    )->Some_0.len()
    &&& blake3_of(chunk_bytes_of(sv, store, row.chunk_index as int)->Some_0) == sv.chunks[
        row.chunk_index as int
    ].hash
    &&& row.file_offset + row.length <= usize::MAX
}

/// Every row of the snapshot is restorable against the store.
pub open spec fn rows_ok(sv: SnapshotV, store: Seq<u8>) -> bool {
    forall|i: int| 0 <= i < sv.file_chunks.len() ==> row_ok(sv, store, #[trigger] sv.file_chunks[i])
}

/// How long file `f` is according to the first `n` rows: the furthest byte
/// any of its rows writes.
pub open spec fn file_size_upto(rows: Seq<FileChunk>, f: int, n: int) -> int
    decreases n,
{
    if n <= 0 {
        0
    } else {
        let prev = file_size_upto(rows, f, n - 1);
        let row = rows[n - 1];
        if row.file_index == f {
            let end = row.file_offset + row.length;
            if end > prev {
                end
            } else {
                prev
            }
        } else {
            prev
        }
    }
}

/// How long file `f` is according to the snapshot's rows.
pub open spec fn spec_file_size(sv: SnapshotV, f: int) -> int {
    file_size_upto(sv.file_chunks, f, sv.file_chunks.len() as int)
}

/// `piece` written into `acc` at `at`: the positional write restore
/// performs for one row.
pub open spec fn overlay(acc: Seq<u8>, at: int, piece: Seq<u8>) -> Seq<u8> {
    Seq::new(
        acc.len(),
        |i: int|
            if at <= i < at + piece.len() {
                piece[i - at]
            } else {
                acc[i]
            },
    )
}

/// A run of zero bytes, the state of a destination file before any row is
/// written.
pub open spec fn zeros(n: int) -> Seq<u8> {
    Seq::new(n as nat, |i: int| 0u8)
}

/// The bytes of file `f` after the first `n` rows have been written, in
/// stored order, onto a zeroed buffer of the file's full size.
pub open spec fn restore_file_upto(sv: SnapshotV, store: Seq<u8>, f: int, n: int) -> Seq<u8>
    decreases n,
{
    if n <= 0 {
        zeros(spec_file_size(sv, f))
    } else {
        let acc = restore_file_upto(sv, store, f, n - 1);
        let row = sv.file_chunks[n - 1];
        if row.file_index == f {
            let bytes = chunk_bytes_of(sv, store, row.chunk_index as int)->Some_0;
            overlay(
                acc,
                row.file_offset as int,
                bytes.subrange(row.chunk_offset as int, row.chunk_offset + row.length),
            )
        } else {
            acc
        }
    }
}

/// The restored bytes of file `f`.
pub open spec fn spec_restore_file(sv: SnapshotV, store: Seq<u8>, f: int) -> Seq<u8> {
    restore_file_upto(sv, store, f, sv.file_chunks.len() as int)
}

/// One rebuilt regular file: its snapshot path and its full bytes.
pub struct RestoredFile {
    pub path: String,
    pub data: Vec<u8>,
}

/// Everything a restore rebuilds: the regular files with their bytes, and
/// the link records to materialize after them.
pub struct RestoredTree {
    pub files: Vec<RestoredFile>,
    pub links: Vec<FileSymlink>,
}

pub proof fn lemma_file_size_bound(rows: Seq<FileChunk>, f: int, n: int, b: int)
    requires
        0 <= n <= rows.len(),
        b >= 0,
        forall|i: int|
            0 <= i < rows.len() ==> (#[trigger] rows[i]).file_offset + rows[i].length <= b,
    ensures
        0 <= file_size_upto(rows, f, n) <= b,
    decreases n,
{
    if n > 0 {
        lemma_file_size_bound(rows, f, n - 1, b);
    }
}

fn clone_symlink(l: &FileSymlink) -> (r: FileSymlink)
    ensures
        r@ == l@,
{
    FileSymlink {
        path: clone_string(&l.path),
        source: clone_string(&l.source),
        is_hard: l.is_hard,
    }
}

/// Writes `piece` into `buf` at `at`.
fn write_at(buf: &mut Vec<u8>, at: usize, piece: &[u8])
    requires
        at + piece@.len() <= old(buf)@.len(),
    ensures
        final(buf)@ == overlay(old(buf)@, at as int, piece@),
{
    let n = buf.len();
    let mut b: usize = 0;
    while b < piece.len()
        invariant
            0 <= b <= piece@.len(),
            at + piece@.len() <= buf@.len(),
            buf@.len() == old(buf)@.len(),
            n == buf@.len(),
            forall|i: int| at <= i < at + b ==> buf@[i] == piece@[i - at],
            forall|i: int|
                0 <= i < buf@.len() && !(at <= i < at + b) ==> buf@[i] == old(buf)@[i],
        decreases piece@.len() - b,
    {
        let v = piece[b];
        buf.set(at + b, v);
        b = b + 1;
    }
    proof {
        assert(buf@ =~= overlay(old(buf)@, at as int, piece@));
    }
}

/// Checks that one row is restorable and hands back its chunk's bytes.
fn fetch_row_chunk(snapshot: &Snapshot, store: &BlobStore, row: FileChunk) -> (r: Result<
    Vec<u8>,
    Error,
>)
    requires
        row.chunk_index < snapshot@.chunks.len(),
    ensures
        match r {
            Ok(bytes) => {
                &&& chunk_bytes_of(snapshot@, store@, row.chunk_index as int) is Some
                &&& bytes@ == chunk_bytes_of(snapshot@, store@, row.chunk_index as int)->Some_0
                &&& blake3_of(bytes@) == snapshot@.chunks[row.chunk_index as int].hash
            },
            Err(e) => {
                ||| chunk_bytes_of(snapshot@, store@, row.chunk_index as int) is None
                ||| blake3_of(chunk_bytes_of(snapshot@, store@, row.chunk_index as int)->Some_0)
                    != snapshot@.chunks[row.chunk_index as int].hash
            },
        },
{
    let ci = row.chunk_index as usize;
    let bytes = match store.get(&snapshot.chunks[ci].location) {
        Ok(b) => b,
        Err(e) => {
            return Err(e);
        },
    };
    let digest = blake3_hash(&bytes);
    if !bytes_eq(&digest, &snapshot.chunks[ci].hash) {
        return Err(Error::Integrity);
    }
    Ok(bytes)
}

/// Rebuilds every file's bytes and collects the link records of a
/// snapshot. Succeeds exactly when every row is restorable against the
/// store; nothing is retried, and an unrestorable row fails the whole run.
pub fn restore_snapshot(snapshot: &Snapshot, store: &BlobStore) -> (r: Result<RestoredTree, Error>)
    ensures
        match r {
            Ok(tree) => {
                &&& rows_ok(snapshot@, store@)
                &&& tree.files@.len() == snapshot@.files.len()
                &&& forall|f: int|
                    0 <= f < tree.files@.len() ==> {
                        &&& (#[trigger] tree.files@[f]).path@ == snapshot@.files[f]
                        &&& tree.files@[f].data@ == spec_restore_file(snapshot@, store@, f)
                    }
                &&& links_view(tree.links@) == snapshot@.file_symlink
            },
            Err(_) => !rows_ok(snapshot@, store@),
        },
{
    let ghost sv = snapshot@;
    // validate every row first: restore aborts before writing anything
    // when any row cannot be resolved
    let mut i: usize = 0;
    while i < snapshot.file_chunks.len()
        invariant
            0 <= i <= snapshot.file_chunks@.len(),
            sv == snapshot@,
            forall|k: int| 0 <= k < i ==> row_ok(sv, store@, #[trigger] sv.file_chunks[k]),
        decreases snapshot.file_chunks@.len() - i,
    {
        let row = snapshot.file_chunks[i];
        proof {
            assert(sv.file_chunks[i as int] == row);
        }
        if row.file_index as usize >= snapshot.files.len() {
            return Err(Error::InvalidData);
        }
        if row.chunk_index as usize >= snapshot.chunks.len() {
            return Err(Error::InvalidData);
        }
        let bytes = match fetch_row_chunk(snapshot, store, row) {
            Ok(b) => b,
            Err(e) => {
                return Err(e);
            },
        };
        let blen = bytes.len();
        if (row.chunk_offset as u64) + (row.length as u64) > blen as u64 {
            return Err(Error::InvalidData);
        }
        if row.file_offset > (usize::MAX as u64) || (row.length as u64) > (usize::MAX as u64)
            - row.file_offset {
            return Err(Error::InvalidData);
        }
        i = i + 1;
    }
    proof {
        assert(rows_ok(sv, store@));
    }

    let mut files: Vec<RestoredFile> = Vec::new();
    let mut f: usize = 0;
    while f < snapshot.files.len()
        invariant
            0 <= f <= snapshot.files@.len(),
            sv == snapshot@,
            rows_ok(sv, store@),
            files@.len() == f,
            forall|g: int|
                0 <= g < f ==> {
                    &&& (#[trigger] files@[g]).path@ == sv.files[g]
                    &&& files@[g].data@ == spec_restore_file(sv, store@, g)
                },
        decreases snapshot.files@.len() - f,
    {
        // the furthest byte any row writes into this file
        let mut size: u64 = 0;
        let mut k: usize = 0;
        while k < snapshot.file_chunks.len()
            invariant
                0 <= k <= snapshot.file_chunks@.len(),
                sv == snapshot@,
                rows_ok(sv, store@),
                f < snapshot.files@.len(),
                size as int == file_size_upto(sv.file_chunks, f as int, k as int),
            decreases snapshot.file_chunks@.len() - k,
        {
            let row = snapshot.file_chunks[k];
            proof {
                assert(sv.file_chunks[k as int] == row);
                assert(row_ok(sv, store@, row));
            }
            if row.file_index as usize == f {
                let end = row.file_offset + (row.length as u64);
                if end > size {
                    size = end;
                }
            }
            k = k + 1;
        }
        proof {
            lemma_file_size_bound(
                sv.file_chunks,
                f as int,
                sv.file_chunks.len() as int,
                usize::MAX as int,
            );
        }
        let mut buf: Vec<u8> = vec![0u8; size as usize];
        proof {
            assert(buf@ =~= zeros(spec_file_size(sv, f as int)));
            assert(buf@ == restore_file_upto(sv, store@, f as int, 0));
        }
        let mut k: usize = 0;
        while k < snapshot.file_chunks.len()
            invariant
                0 <= k <= snapshot.file_chunks@.len(),
                sv == snapshot@,
                rows_ok(sv, store@),
                f < snapshot.files@.len(),
                buf@ == restore_file_upto(sv, store@, f as int, k as int),
                buf@.len() == spec_file_size(sv, f as int),
            decreases snapshot.file_chunks@.len() - k,
        {
            let row = snapshot.file_chunks[k];
            proof {
                assert(sv.file_chunks[k as int] == row);
                assert(row_ok(sv, store@, row));
            }
            if row.file_index as usize == f {
                let bytes = match fetch_row_chunk(snapshot, store, row) {
                    Ok(b) => b,
                    Err(_) => {
                        proof {
                            assert(false);
                        }
                        return Err(Error::InvalidData);
                    },
                };
                proof {
                    lemma_file_size_mono(sv.file_chunks, f as int, k as int + 1);
                    assert(file_size_upto(sv.file_chunks, f as int, k as int + 1)
                        >= row.file_offset + row.length);
                }
                let piece_end = (row.chunk_offset as u64) + (row.length as u64);
                let blen = bytes.len();
                proof {
                    assert(piece_end <= blen as u64);
                }
                let piece = vstd::slice::slice_subrange(
                    bytes.as_slice(),
                    row.chunk_offset as usize,
                    piece_end as usize,
                );
                write_at(&mut buf, row.file_offset as usize, piece);
            }
            k = k + 1;
        }
        files.push(
            RestoredFile { path: clone_string(&snapshot.files[f].path), data: buf },
        );
        f = f + 1;
    }

    let mut links: Vec<FileSymlink> = Vec::new();
    let mut l: usize = 0;
    while l < snapshot.file_symlink.len()
        invariant
            0 <= l <= snapshot.file_symlink@.len(),
            sv == snapshot@,
            links@.len() == l,
            forall|g: int| 0 <= g < l ==> (#[trigger] links@[g])@ == sv.file_symlink[g],
        decreases snapshot.file_symlink@.len() - l,
    {
        links.push(clone_symlink(&snapshot.file_symlink[l]));
        l = l + 1;
    }
    proof {
        assert(links_view(links@) =~= sv.file_symlink);
    }
    Ok(RestoredTree { files, links })
}

/// The bytes any row writes into its file lie inside the file's full size.
pub proof fn lemma_file_size_mono(rows: Seq<FileChunk>, f: int, n: int)
    requires
        0 <= n <= rows.len(),
    ensures
        file_size_upto(rows, f, n) <= file_size_upto(rows, f, rows.len() as int),
    decreases rows.len() - n,
{
    if n < rows.len() {
        lemma_file_size_mono(rows, f, n + 1);
    }
}

/// Loads a snapshot by its root key and rebuilds the tree it describes.
pub fn restore(key: &String, store: &BlobStore) -> (r: Result<RestoredTree, Error>)
    ensures
        match crate::codec::spec_load_snapshot(store@, key@) {
            None => r is Err,
            Some(sv) => {
                match r {
                    Ok(tree) => {
                        &&& rows_ok(sv, store@)
                        &&& tree.files@.len() == sv.files.len()
                        &&& forall|f: int|
                            0 <= f < tree.files@.len() ==> {
                                &&& (#[trigger] tree.files@[f]).path@ == sv.files[f]
                                &&& tree.files@[f].data@ == spec_restore_file(sv, store@, f)
                            }
                        &&& links_view(tree.links@) == sv.file_symlink
                    },
                    Err(_) => !rows_ok(sv, store@),
                }
            },
        },
{
    let snapshot = match crate::codec::load_snapshot(store, key) {
        Ok(s) => s,
        Err(e) => {
            return Err(e);
        },
    };
    restore_snapshot(&snapshot, store)
}

} // verus!
