//! The snapshot codec: a compact binary encoding of the manifest's four
//! vectors, in declaration order, with little-endian `u32`/`u64` fields and
//! length-prefixed UTF-8 strings. Chunk digests are written raw, always 32
//! bytes. The decoder accepts exactly what the encoder writes: decoding the
//! encoding of a manifest yields the manifest back.

use vstd::bytes::lemma_auto_spec_u32_to_from_le_bytes;
use vstd::bytes::lemma_auto_spec_u64_to_from_le_bytes;
use vstd::bytes::spec_u32_to_le_bytes;
use vstd::bytes::spec_u64_to_le_bytes;
use vstd::bytes::u32_from_le_bytes;
use vstd::bytes::u32_to_le_bytes;
use vstd::bytes::u64_from_le_bytes;
use vstd::bytes::u64_to_le_bytes;
use vstd::prelude::*;
use vstd::slice::slice_subrange;
use vstd::slice::slice_to_vec;
use vstd::string::StrSliceExecFns;

use crate::error::Error;
use crate::metadata::{Chunk, ChunkV, File, FileChunk, FileSymlink, FileSymlinkV, Snapshot, SnapshotV};

verus! {

/// A manifest the codec can write and read back: vector and string lengths
/// fit the 64-bit count fields, and every digest is exactly 32 bytes.
pub open spec fn wf_codec(s: SnapshotV) -> bool {
    &&& s.files.len() <= u64::MAX
    &&& s.chunks.len() <= u64::MAX
    &&& s.file_chunks.len() <= u64::MAX
    &&& s.file_symlink.len() <= u64::MAX
    &&& forall|i: int|
        0 <= i < s.files.len() ==> vstd::utf8::encode_utf8(#[trigger] s.files[i]).len()
            <= u64::MAX
    &&& forall|i: int|
        0 <= i < s.chunks.len() ==> {
            &&& (#[trigger] s.chunks[i]).hash.len() == 32
            &&& vstd::utf8::encode_utf8(s.chunks[i].location).len() <= u64::MAX
        }
    &&& forall|i: int|
        0 <= i < s.file_symlink.len() ==> {
            &&& vstd::utf8::encode_utf8((#[trigger] s.file_symlink[i]).path).len() <= u64::MAX
            &&& vstd::utf8::encode_utf8(s.file_symlink[i].source).len() <= u64::MAX
        }
}

/// A length-prefixed byte string: its length as eight little-endian bytes,
/// then the bytes.
pub open spec fn enc_bytes(b: Seq<u8>) -> Seq<u8> {
    spec_u64_to_le_bytes(b.len() as u64) + b
}

/// A string: its UTF-8 bytes, length-prefixed.
pub open spec fn enc_str(s: Seq<char>) -> Seq<u8> {
    enc_bytes(vstd::utf8::encode_utf8(s))
}

/// One chunk record: the raw 32 digest bytes, then the key text.
pub open spec fn enc_chunk(c: ChunkV) -> Seq<u8> {
    c.hash + enc_str(c.location)
}

/// One byte-range row: its five integer fields, little-endian.
pub open spec fn enc_row(fc: FileChunk) -> Seq<u8> {
    spec_u32_to_le_bytes(fc.chunk_index) + spec_u32_to_le_bytes(fc.file_index)
        + spec_u32_to_le_bytes(fc.chunk_offset) + spec_u64_to_le_bytes(fc.file_offset)
        + spec_u32_to_le_bytes(fc.length)
}

/// One link record: the two path strings, then one flag byte.
pub open spec fn enc_link(l: FileSymlinkV) -> Seq<u8> {
    enc_str(l.path) + enc_str(l.source) + seq![
        if l.is_hard {
            1u8
        } else {
            0u8
        },
    ]
}

/// The records of `items[k..]`, encoded back to back.
pub open spec fn enc_list_from<T>(items: Seq<T>, f: spec_fn(T) -> Seq<u8>, k: int) -> Seq<u8>
    decreases items.len() - k,
{
    if k < 0 || k >= items.len() {
        Seq::empty()
    } else {
        f(items[k]) + enc_list_from(items, f, k + 1)
    }
}

/// A vector: its element count as eight little-endian bytes, then the
/// encoded elements in order.
pub open spec fn enc_list<T>(items: Seq<T>, f: spec_fn(T) -> Seq<u8>) -> Seq<u8> {
    spec_u64_to_le_bytes(items.len() as u64) + enc_list_from(items, f, 0)
}

/// The record writers and readers, named so that specifications and proofs
/// speak of one function value each.
pub open spec fn str_writer() -> spec_fn(Seq<char>) -> Seq<u8> {
    |p: Seq<char>| enc_str(p)
}

pub open spec fn chunk_writer() -> spec_fn(ChunkV) -> Seq<u8> {
    |c: ChunkV| enc_chunk(c)
}

pub open spec fn row_writer() -> spec_fn(FileChunk) -> Seq<u8> {
    |fc: FileChunk| enc_row(fc)
}

pub open spec fn link_writer() -> spec_fn(FileSymlinkV) -> Seq<u8> {
    |l: FileSymlinkV| enc_link(l)
}

/// The whole manifest: its four vectors in declaration order.
pub open spec fn spec_encode_snapshot(s: SnapshotV) -> Seq<u8> {
    enc_list(s.files, str_writer()) + enc_list(s.chunks, chunk_writer()) + enc_list(
        s.file_chunks,
        row_writer(),
    ) + enc_list(s.file_symlink, link_writer())
}

/// Reads eight little-endian bytes at `pos` as a `u64`.
pub open spec fn dec_u64(b: Seq<u8>, pos: int) -> Option<(u64, int)> {
    if 0 <= pos && pos + 8 <= b.len() {
        Some((vstd::bytes::spec_u64_from_le_bytes(b.subrange(pos, pos + 8)), pos + 8))
    } else {
        None
    }
}

/// Reads four little-endian bytes at `pos` as a `u32`.
pub open spec fn dec_u32(b: Seq<u8>, pos: int) -> Option<(u32, int)> {
    if 0 <= pos && pos + 4 <= b.len() {
        Some((vstd::bytes::spec_u32_from_le_bytes(b.subrange(pos, pos + 4)), pos + 4))
    } else {
        None
    }
}

/// Reads a length-prefixed byte string at `pos`.
pub open spec fn dec_bytes(b: Seq<u8>, pos: int) -> Option<(Seq<u8>, int)> {
    match dec_u64(b, pos) {
        None => None,
        Some((n, p)) => {
            if p + n <= b.len() {
                Some((b.subrange(p, p + n), p + n))
            } else {
                None
            }
        },
    }
}

/// Reads a length-prefixed string at `pos`; the bytes must be valid UTF-8.
pub open spec fn dec_str(b: Seq<u8>, pos: int) -> Option<(Seq<char>, int)> {
    match dec_bytes(b, pos) {
        None => None,
        Some((bs, p)) => {
            if vstd::utf8::valid_utf8(bs) {
                Some((vstd::utf8::decode_utf8(bs), p))
            } else {
                None
            }
        },
    }
}

/// Reads one chunk record at `pos`: 32 raw digest bytes, then the key text.
pub open spec fn dec_chunk(b: Seq<u8>, pos: int) -> Option<(ChunkV, int)> {
    if 0 <= pos && pos + 32 <= b.len() {
        let hash = b.subrange(pos, pos + 32);
        match dec_str(b, pos + 32) {
            None => None,
            Some((loc, p)) => Some((ChunkV { hash, location: loc }, p)),
        }
    } else {
        None
    }
}

/// Reads one byte-range row at `pos`.
pub open spec fn dec_row(b: Seq<u8>, pos: int) -> Option<(FileChunk, int)> {
    match dec_u32(b, pos) {
        None => None,
        Some((ci, p1)) => match dec_u32(b, p1) {
            None => None,
            Some((fi, p2)) => match dec_u32(b, p2) {
                None => None,
                Some((co, p3)) => match dec_u64(b, p3) {
                    None => None,
                    Some((fo, p4)) => match dec_u32(b, p4) {
                        None => None,
                        Some((ln, p5)) => Some(
                            (
                                FileChunk {
                                    chunk_index: ci,
                                    file_index: fi,
                                    chunk_offset: co,
                                    file_offset: fo,
                                    length: ln,
                                },
                                p5,
                            ),
                        ),
                    },
                },
            },
        },
    }
}

/// Reads one link record at `pos`; the flag byte must be 0 or 1.
pub open spec fn dec_link(b: Seq<u8>, pos: int) -> Option<(FileSymlinkV, int)> {
    match dec_str(b, pos) {
        None => None,
        Some((path, p1)) => match dec_str(b, p1) {
            None => None,
            Some((source, p2)) => {
                if p2 + 1 <= b.len() && (b[p2] == 0 || b[p2] == 1) {
                    Some((FileSymlinkV { path, source, is_hard: b[p2] == 1 }, p2 + 1))
                } else {
                    None
                }
            },
        },
    }
}

/// Reads `n` records at `pos` with the element reader `f`.
pub open spec fn dec_list_from<T>(
    b: Seq<u8>,
    pos: int,
    n: int,
    f: spec_fn(Seq<u8>, int) -> Option<(T, int)>,
) -> Option<(Seq<T>, int)>
    decreases n,
{
    if n <= 0 {
        Some((Seq::empty(), pos))
    } else {
        match f(b, pos) {
            None => None,
            Some((v, p)) => match dec_list_from(b, p, n - 1, f) {
                None => None,
                Some((vs, pe)) => Some((seq![v] + vs, pe)),
            },
        }
    }
}

/// Reads a vector at `pos`: its count, then that many records.
pub open spec fn dec_list<T>(
    b: Seq<u8>,
    pos: int,
    f: spec_fn(Seq<u8>, int) -> Option<(T, int)>,
) -> Option<(Seq<T>, int)> {
    match dec_u64(b, pos) {
        None => None,
        Some((n, p)) => dec_list_from(b, p, n as int, f),
    }
}

pub open spec fn str_reader() -> spec_fn(Seq<u8>, int) -> Option<(Seq<char>, int)> {
    |bb: Seq<u8>, p: int| dec_str(bb, p)
}

pub open spec fn chunk_reader() -> spec_fn(Seq<u8>, int) -> Option<(ChunkV, int)> {
    |bb: Seq<u8>, p: int| dec_chunk(bb, p)
}

pub open spec fn row_reader() -> spec_fn(Seq<u8>, int) -> Option<(FileChunk, int)> {
    |bb: Seq<u8>, p: int| dec_row(bb, p)
}

pub open spec fn link_reader() -> spec_fn(Seq<u8>, int) -> Option<(FileSymlinkV, int)> {
    |bb: Seq<u8>, p: int| dec_link(bb, p)
}

/// What a byte string means as a manifest: the four vectors in order,
/// consuming the bytes exactly, or nothing if the bytes are not a canonical
/// encoding.
pub open spec fn spec_decode_snapshot(b: Seq<u8>) -> Option<SnapshotV> {
    match dec_list(b, 0, str_reader()) {
        None => None,
        Some((files, p1)) => match dec_list(b, p1, chunk_reader()) {
            None => None,
            Some((chunks, p2)) => match dec_list(b, p2, row_reader()) {
                None => None,
                Some((rows, p3)) => match dec_list(b, p3, link_reader()) {
                    None => None,
                    Some((links, p4)) => {
                        if p4 == b.len() {
                            Some(
                                SnapshotV {
                                    files,
                                    chunks,
                                    file_chunks: rows,
                                    file_symlink: links,
                                },
                            )
                        } else {
                            None
                        }
                    },
                },
            },
        },
    }
}


proof fn lemma_subrange_within(b: Seq<u8>, pos: int, e: Seq<u8>, a: int, c: int)
    requires
        0 <= pos,
        pos + e.len() <= b.len(),
        b.subrange(pos, pos + e.len()) == e,
        0 <= a <= c <= e.len(),
    ensures
        b.subrange(pos + a, pos + c) == e.subrange(a, c),
{
    assert(b.subrange(pos + a, pos + c) =~= e.subrange(a, c)) by {
        assert forall|i: int| 0 <= i < c - a implies b.subrange(pos + a, pos + c)[i] == e.subrange(
            a,
            c,
        )[i] by {
            assert(b.subrange(pos, pos + e.len())[a + i] == e[a + i]);
        }
    }
}

proof fn lemma_dec_u64_at(b: Seq<u8>, pos: int, x: u64)
    requires
        0 <= pos,
        pos + 8 <= b.len(),
        b.subrange(pos, pos + 8) == spec_u64_to_le_bytes(x),
    ensures
        dec_u64(b, pos) == Some((x, pos + 8)),
{
    lemma_auto_spec_u64_to_from_le_bytes();
    assert(spec_u64_to_le_bytes(x).len() == 8);
    assert(vstd::bytes::spec_u64_from_le_bytes(spec_u64_to_le_bytes(x)) == x);
}

proof fn lemma_dec_u32_at(b: Seq<u8>, pos: int, x: u32)
    requires
        0 <= pos,
        pos + 4 <= b.len(),
        b.subrange(pos, pos + 4) == spec_u32_to_le_bytes(x),
    ensures
        dec_u32(b, pos) == Some((x, pos + 4)),
{
    lemma_auto_spec_u32_to_from_le_bytes();
    assert(spec_u32_to_le_bytes(x).len() == 4);
    assert(vstd::bytes::spec_u32_from_le_bytes(spec_u32_to_le_bytes(x)) == x);
}

proof fn lemma_dec_bytes_at(b: Seq<u8>, pos: int, payload: Seq<u8>)
    requires
        payload.len() <= u64::MAX,
        0 <= pos,
        pos + enc_bytes(payload).len() <= b.len(),
        b.subrange(pos, pos + enc_bytes(payload).len()) == enc_bytes(payload),
    ensures
        dec_bytes(b, pos) == Some((payload, pos + enc_bytes(payload).len())),
{
    lemma_auto_spec_u64_to_from_le_bytes();
    let e = enc_bytes(payload);
    let n = payload.len() as u64;
    assert(e.subrange(0, 8) =~= spec_u64_to_le_bytes(n));
    assert(e.subrange(8, e.len() as int) =~= payload);
    lemma_subrange_within(b, pos, e, 0, 8);
    lemma_dec_u64_at(b, pos, n);
    lemma_subrange_within(b, pos, e, 8, e.len() as int);
}

proof fn lemma_dec_str_at(b: Seq<u8>, pos: int, s: Seq<char>)
    requires
        vstd::utf8::encode_utf8(s).len() <= u64::MAX,
        0 <= pos,
        pos + enc_str(s).len() <= b.len(),
        b.subrange(pos, pos + enc_str(s).len()) == enc_str(s),
    ensures
        dec_str(b, pos) == Some((s, pos + enc_str(s).len())),
{
    lemma_dec_bytes_at(b, pos, vstd::utf8::encode_utf8(s));
    vstd::utf8::encode_utf8_valid_utf8(s);
    vstd::utf8::encode_utf8_decode_utf8(s);
}

proof fn lemma_dec_chunk_at(b: Seq<u8>, pos: int, c: ChunkV)
    requires
        c.hash.len() == 32,
        vstd::utf8::encode_utf8(c.location).len() <= u64::MAX,
        0 <= pos,
        pos + enc_chunk(c).len() <= b.len(),
        b.subrange(pos, pos + enc_chunk(c).len()) == enc_chunk(c),
    ensures
        dec_chunk(b, pos) == Some((c, pos + enc_chunk(c).len())),
{
    let e = enc_chunk(c);
    assert(e.subrange(0, 32) =~= c.hash);
    assert(e.subrange(32, e.len() as int) =~= enc_str(c.location));
    lemma_subrange_within(b, pos, e, 0, 32);
    lemma_subrange_within(b, pos, e, 32, e.len() as int);
    lemma_dec_str_at(b, pos + 32, c.location);
    assert(dec_chunk(b, pos) == Some((c, pos + e.len())));
}

proof fn lemma_dec_row_at(b: Seq<u8>, pos: int, fc: FileChunk)
    requires
        0 <= pos,
        pos + enc_row(fc).len() <= b.len(),
        b.subrange(pos, pos + enc_row(fc).len()) == enc_row(fc),
    ensures
        dec_row(b, pos) == Some((fc, pos + enc_row(fc).len())),
{
    lemma_auto_spec_u32_to_from_le_bytes();
    lemma_auto_spec_u64_to_from_le_bytes();
    let e = enc_row(fc);
    assert(e.len() == 24);
    assert(e.subrange(0, 4) =~= spec_u32_to_le_bytes(fc.chunk_index));
    assert(e.subrange(4, 8) =~= spec_u32_to_le_bytes(fc.file_index));
    assert(e.subrange(8, 12) =~= spec_u32_to_le_bytes(fc.chunk_offset));
    assert(e.subrange(12, 20) =~= spec_u64_to_le_bytes(fc.file_offset));
    assert(e.subrange(20, 24) =~= spec_u32_to_le_bytes(fc.length));
    lemma_subrange_within(b, pos, e, 0, 4);
    lemma_subrange_within(b, pos, e, 4, 8);
    lemma_subrange_within(b, pos, e, 8, 12);
    lemma_subrange_within(b, pos, e, 12, 20);
    lemma_subrange_within(b, pos, e, 20, 24);
    lemma_dec_u32_at(b, pos, fc.chunk_index);
    lemma_dec_u32_at(b, pos + 4, fc.file_index);
    lemma_dec_u32_at(b, pos + 8, fc.chunk_offset);
    lemma_dec_u64_at(b, pos + 12, fc.file_offset);
    lemma_dec_u32_at(b, pos + 20, fc.length);
}

proof fn lemma_dec_link_at(b: Seq<u8>, pos: int, l: FileSymlinkV)
    requires
        vstd::utf8::encode_utf8(l.path).len() <= u64::MAX,
        vstd::utf8::encode_utf8(l.source).len() <= u64::MAX,
        0 <= pos,
        pos + enc_link(l).len() <= b.len(),
        b.subrange(pos, pos + enc_link(l).len()) == enc_link(l),
    ensures
        dec_link(b, pos) == Some((l, pos + enc_link(l).len())),
{
    let e = enc_link(l);
    let n1 = enc_str(l.path).len() as int;
    let n2 = enc_str(l.source).len() as int;
    assert(e.subrange(0, n1) =~= enc_str(l.path));
    assert(e.subrange(n1, n1 + n2) =~= enc_str(l.source));
    lemma_subrange_within(b, pos, e, 0, n1);
    lemma_subrange_within(b, pos, e, n1, n1 + n2);
    lemma_dec_str_at(b, pos, l.path);
    lemma_dec_str_at(b, pos + n1, l.source);
    assert(b.subrange(pos, pos + e.len())[n1 + n2] == e[n1 + n2]);
    assert(b[pos + n1 + n2] == (if l.is_hard { 1u8 } else { 0u8 }));
}

proof fn lemma_dec_files_at(b: Seq<u8>, pos: int, items: Seq<Seq<char>>, k: int)
    requires
        forall|i: int|
            0 <= i < items.len() ==> vstd::utf8::encode_utf8(#[trigger] items[i]).len()
                <= u64::MAX,
        0 <= k <= items.len(),
        0 <= pos,
        pos + enc_list_from(items, str_writer(), k).len() <= b.len(),
        b.subrange(pos, pos + enc_list_from(items, str_writer(), k).len()) == enc_list_from(
            items,
            str_writer(),
            k,
        ),
    ensures
        dec_list_from(b, pos, items.len() - k, str_reader()) == Some(
            (items.subrange(k, items.len() as int), pos + enc_list_from(
                items,
                str_writer(),
                k,
            ).len()),
        ),
    decreases items.len() - k,
{
    let e = enc_list_from(items, str_writer(), k);
    if k == items.len() {
        assert(items.subrange(k, items.len() as int) =~= Seq::<Seq<char>>::empty());
    } else {
        let head = enc_str(items[k]);
        let tail = enc_list_from(items, str_writer(), k + 1);
        assert(e =~= head + tail);
        assert(e.subrange(0, head.len() as int) =~= head);
        assert(e.subrange(head.len() as int, e.len() as int) =~= tail);
        lemma_subrange_within(b, pos, e, 0, head.len() as int);
        lemma_subrange_within(b, pos, e, head.len() as int, e.len() as int);
        lemma_dec_str_at(b, pos, items[k]);
        lemma_dec_files_at(b, pos + head.len(), items, k + 1);
        assert(seq![items[k]] + items.subrange(k + 1, items.len() as int) =~= items.subrange(
            k,
            items.len() as int,
        ));
    }
}

proof fn lemma_dec_chunks_at(b: Seq<u8>, pos: int, items: Seq<ChunkV>, k: int)
    requires
        forall|i: int|
            0 <= i < items.len() ==> (#[trigger] items[i]).hash.len() == 32
                && vstd::utf8::encode_utf8(items[i].location).len() <= u64::MAX,
        0 <= k <= items.len(),
        0 <= pos,
        pos + enc_list_from(items, chunk_writer(), k).len() <= b.len(),
        b.subrange(pos, pos + enc_list_from(items, chunk_writer(), k).len()) == enc_list_from(
            items,
            chunk_writer(),
            k,
        ),
    ensures
        dec_list_from(b, pos, items.len() - k, chunk_reader()) == Some(
            (items.subrange(k, items.len() as int), pos + enc_list_from(
                items,
                chunk_writer(),
                k,
            ).len()),
        ),
    decreases items.len() - k,
{
    let e = enc_list_from(items, chunk_writer(), k);
    if k == items.len() {
        assert(items.subrange(k, items.len() as int) =~= Seq::<ChunkV>::empty());
    } else {
        let head = enc_chunk(items[k]);
        let tail = enc_list_from(items, chunk_writer(), k + 1);
        assert(e =~= head + tail);
        assert(e.subrange(0, head.len() as int) =~= head);
        assert(e.subrange(head.len() as int, e.len() as int) =~= tail);
        lemma_subrange_within(b, pos, e, 0, head.len() as int);
        lemma_subrange_within(b, pos, e, head.len() as int, e.len() as int);
        lemma_dec_chunk_at(b, pos, items[k]);
        lemma_dec_chunks_at(b, pos + head.len(), items, k + 1);
        assert(seq![items[k]] + items.subrange(k + 1, items.len() as int) =~= items.subrange(
            k,
            items.len() as int,
        ));
    }
}

proof fn lemma_dec_rows_at(b: Seq<u8>, pos: int, items: Seq<FileChunk>, k: int)
    requires
        0 <= k <= items.len(),
        0 <= pos,
        pos + enc_list_from(items, row_writer(), k).len() <= b.len(),
        b.subrange(pos, pos + enc_list_from(items, row_writer(), k).len()) == enc_list_from(
            items,
            row_writer(),
            k,
        ),
    ensures
        dec_list_from(b, pos, items.len() - k, row_reader()) == Some(
            (items.subrange(k, items.len() as int), pos + enc_list_from(
                items,
                row_writer(),
                k,
            ).len()),
        ),
    decreases items.len() - k,
{
    let e = enc_list_from(items, row_writer(), k);
    if k == items.len() {
        assert(items.subrange(k, items.len() as int) =~= Seq::<FileChunk>::empty());
    } else {
        let head = enc_row(items[k]);
        let tail = enc_list_from(items, row_writer(), k + 1);
        assert(e =~= head + tail);
        assert(e.subrange(0, head.len() as int) =~= head);
        assert(e.subrange(head.len() as int, e.len() as int) =~= tail);
        lemma_subrange_within(b, pos, e, 0, head.len() as int);
        lemma_subrange_within(b, pos, e, head.len() as int, e.len() as int);
        lemma_dec_row_at(b, pos, items[k]);
        lemma_dec_rows_at(b, pos + head.len(), items, k + 1);
        assert(seq![items[k]] + items.subrange(k + 1, items.len() as int) =~= items.subrange(
            k,
            items.len() as int,
        ));
    }
}

proof fn lemma_dec_links_at(b: Seq<u8>, pos: int, items: Seq<FileSymlinkV>, k: int)
    requires
        forall|i: int|
            0 <= i < items.len() ==> vstd::utf8::encode_utf8((#[trigger] items[i]).path).len()
                <= u64::MAX && vstd::utf8::encode_utf8(items[i].source).len() <= u64::MAX,
        0 <= k <= items.len(),
        0 <= pos,
        pos + enc_list_from(items, link_writer(), k).len() <= b.len(),
        b.subrange(pos, pos + enc_list_from(items, link_writer(), k).len()) == enc_list_from(
            items,
            link_writer(),
            k,
        ),
    ensures
        dec_list_from(b, pos, items.len() - k, link_reader()) == Some(
            (items.subrange(k, items.len() as int), pos + enc_list_from(
                items,
                link_writer(),
                k,
            ).len()),
        ),
    decreases items.len() - k,
{
    let e = enc_list_from(items, link_writer(), k);
    if k == items.len() {
        assert(items.subrange(k, items.len() as int) =~= Seq::<FileSymlinkV>::empty());
    } else {
        let head = enc_link(items[k]);
        let tail = enc_list_from(items, link_writer(), k + 1);
        assert(e =~= head + tail);
        assert(e.subrange(0, head.len() as int) =~= head);
        assert(e.subrange(head.len() as int, e.len() as int) =~= tail);
        lemma_subrange_within(b, pos, e, 0, head.len() as int);
        lemma_subrange_within(b, pos, e, head.len() as int, e.len() as int);
        lemma_dec_link_at(b, pos, items[k]);
        lemma_dec_links_at(b, pos + head.len(), items, k + 1);
        assert(seq![items[k]] + items.subrange(k + 1, items.len() as int) =~= items.subrange(
            k,
            items.len() as int,
        ));
    }
}

proof fn lemma_dec_list_at_files(b: Seq<u8>, pos: int, items: Seq<Seq<char>>)
    requires
        items.len() <= u64::MAX,
        forall|i: int|
            0 <= i < items.len() ==> vstd::utf8::encode_utf8(#[trigger] items[i]).len()
                <= u64::MAX,
        0 <= pos,
        pos + enc_list(items, str_writer()).len() <= b.len(),
        b.subrange(pos, pos + enc_list(items, str_writer()).len()) == enc_list(
            items,
            str_writer(),
        ),
    ensures
        dec_list(b, pos, str_reader()) == Some((items, pos + enc_list(items, str_writer()).len())),
{
    lemma_auto_spec_u64_to_from_le_bytes();
    let e = enc_list(items, str_writer());
    let body = enc_list_from(items, str_writer(), 0);
    assert(e.subrange(0, 8) =~= spec_u64_to_le_bytes(items.len() as u64));
    assert(e.subrange(8, e.len() as int) =~= body);
    lemma_subrange_within(b, pos, e, 0, 8);
    lemma_subrange_within(b, pos, e, 8, e.len() as int);
    lemma_dec_u64_at(b, pos, items.len() as u64);
    lemma_dec_files_at(b, pos + 8, items, 0);
    assert(items.subrange(0, items.len() as int) =~= items);
}

proof fn lemma_dec_list_at_chunks(b: Seq<u8>, pos: int, items: Seq<ChunkV>)
    requires
        items.len() <= u64::MAX,
        forall|i: int|
            0 <= i < items.len() ==> (#[trigger] items[i]).hash.len() == 32
                && vstd::utf8::encode_utf8(items[i].location).len() <= u64::MAX,
        0 <= pos,
        pos + enc_list(items, chunk_writer()).len() <= b.len(),
        b.subrange(pos, pos + enc_list(items, chunk_writer()).len()) == enc_list(
            items,
            chunk_writer(),
        ),
    ensures
        dec_list(b, pos, chunk_reader()) == Some(
            (items, pos + enc_list(items, chunk_writer()).len()),
        ),
{
    lemma_auto_spec_u64_to_from_le_bytes();
    let e = enc_list(items, chunk_writer());
    let body = enc_list_from(items, chunk_writer(), 0);
    assert(e.subrange(0, 8) =~= spec_u64_to_le_bytes(items.len() as u64));
    assert(e.subrange(8, e.len() as int) =~= body);
    lemma_subrange_within(b, pos, e, 0, 8);
    lemma_subrange_within(b, pos, e, 8, e.len() as int);
    lemma_dec_u64_at(b, pos, items.len() as u64);
    lemma_dec_chunks_at(b, pos + 8, items, 0);
    assert(items.subrange(0, items.len() as int) =~= items);
}

proof fn lemma_dec_list_at_rows(b: Seq<u8>, pos: int, items: Seq<FileChunk>)
    requires
        items.len() <= u64::MAX,
        0 <= pos,
        pos + enc_list(items, row_writer()).len() <= b.len(),
        b.subrange(pos, pos + enc_list(items, row_writer()).len()) == enc_list(
            items,
            row_writer(),
        ),
    ensures
        dec_list(b, pos, row_reader()) == Some((items, pos + enc_list(items, row_writer()).len())),
{
    lemma_auto_spec_u64_to_from_le_bytes();
    let e = enc_list(items, row_writer());
    let body = enc_list_from(items, row_writer(), 0);
    assert(e.subrange(0, 8) =~= spec_u64_to_le_bytes(items.len() as u64));
    assert(e.subrange(8, e.len() as int) =~= body);
    lemma_subrange_within(b, pos, e, 0, 8);
    lemma_subrange_within(b, pos, e, 8, e.len() as int);
    lemma_dec_u64_at(b, pos, items.len() as u64);
    lemma_dec_rows_at(b, pos + 8, items, 0);
    assert(items.subrange(0, items.len() as int) =~= items);
}

proof fn lemma_dec_list_at_links(b: Seq<u8>, pos: int, items: Seq<FileSymlinkV>)
    requires
        items.len() <= u64::MAX,
        forall|i: int|
            0 <= i < items.len() ==> vstd::utf8::encode_utf8((#[trigger] items[i]).path).len()
                <= u64::MAX && vstd::utf8::encode_utf8(items[i].source).len() <= u64::MAX,
        0 <= pos,
        pos + enc_list(items, link_writer()).len() <= b.len(),
        b.subrange(pos, pos + enc_list(items, link_writer()).len()) == enc_list(
            items,
            link_writer(),
        ),
    ensures
        dec_list(b, pos, link_reader()) == Some(
            (items, pos + enc_list(items, link_writer()).len()),
        ),
{
    lemma_auto_spec_u64_to_from_le_bytes();
    let e = enc_list(items, link_writer());
    let body = enc_list_from(items, link_writer(), 0);
    assert(e.subrange(0, 8) =~= spec_u64_to_le_bytes(items.len() as u64));
    assert(e.subrange(8, e.len() as int) =~= body);
    lemma_subrange_within(b, pos, e, 0, 8);
    lemma_subrange_within(b, pos, e, 8, e.len() as int);
    lemma_dec_u64_at(b, pos, items.len() as u64);
    lemma_dec_links_at(b, pos + 8, items, 0);
    assert(items.subrange(0, items.len() as int) =~= items);
}

/// The codec round-trips: decoding the encoding of a well-formed manifest
/// yields the manifest back.
pub proof fn lemma_snapshot_roundtrip(s: SnapshotV)
    requires
        wf_codec(s),
    ensures
        spec_decode_snapshot(spec_encode_snapshot(s)) == Some(s),
{
    let b = spec_encode_snapshot(s);
    let e1 = enc_list(s.files, str_writer());
    let e2 = enc_list(s.chunks, chunk_writer());
    let e3 = enc_list(s.file_chunks, row_writer());
    let e4 = enc_list(s.file_symlink, link_writer());
    let n1 = e1.len() as int;
    let n2 = e2.len() as int;
    let n3 = e3.len() as int;
    let n4 = e4.len() as int;
    assert(b.len() == n1 + n2 + n3 + n4);
    assert(b.subrange(0, n1) =~= e1);
    assert(b.subrange(n1, n1 + n2) =~= e2);
    assert(b.subrange(n1 + n2, n1 + n2 + n3) =~= e3);
    assert(b.subrange(n1 + n2 + n3, n1 + n2 + n3 + n4) =~= e4);
    lemma_dec_list_at_files(b, 0, s.files);
    lemma_dec_list_at_chunks(b, n1, s.chunks);
    lemma_dec_list_at_rows(b, n1 + n2, s.file_chunks);
    lemma_dec_list_at_links(b, n1 + n2 + n3, s.file_symlink);
}


fn push_u64(out: &mut Vec<u8>, x: u64)
    ensures
        final(out)@ == old(out)@ + spec_u64_to_le_bytes(x),
{
    let mut b = u64_to_le_bytes(x);
    out.append(&mut b);
}

fn push_u32(out: &mut Vec<u8>, x: u32)
    ensures
        final(out)@ == old(out)@ + spec_u32_to_le_bytes(x),
{
    let mut b = u32_to_le_bytes(x);
    out.append(&mut b);
}

fn push_bytes(out: &mut Vec<u8>, b: &[u8])
    ensures
        final(out)@ == old(out)@ + enc_bytes(b@),
        b@.len() <= u64::MAX,
{
    let n = b.len();
    push_u64(out, n as u64);
    let mut tail = slice_to_vec(b);
    out.append(&mut tail);
    proof {
        assert(out@ =~= old(out)@ + enc_bytes(b@));
    }
}

fn push_str(out: &mut Vec<u8>, s: &str)
    ensures
        final(out)@ == old(out)@ + enc_str(s@),
        vstd::utf8::encode_utf8(s@).len() <= u64::MAX,
{
    let b = s.as_bytes();
    push_bytes(out, b);
}

/// Writes the manifest in the codec's canonical form.
pub fn encode_snapshot(s: &Snapshot) -> (r: Vec<u8>)
    requires
        forall|i: int| 0 <= i < s@.chunks.len() ==> (#[trigger] s@.chunks[i]).hash.len() == 32,
    ensures
        r@ == spec_encode_snapshot(s@),
        wf_codec(s@),
{
    let ghost sv = s@;
    let mut out: Vec<u8> = Vec::new();

    push_u64(&mut out, s.files.len() as u64);
    let ghost base1 = out@;
    let mut i: usize = 0;
    proof {
        assert(out@ + enc_list_from(sv.files, str_writer(), 0) =~= base1 + enc_list_from(
            sv.files,
            str_writer(),
            0,
        ));
    }
    while i < s.files.len()
        invariant
            0 <= i <= s.files@.len(),
            sv == s@,
            sv.files.len() == s.files@.len(),
            out@ + enc_list_from(sv.files, str_writer(), i as int) == base1 + enc_list_from(
                sv.files,
                str_writer(),
                0,
            ),
            forall|j: int|
                0 <= j < i ==> vstd::utf8::encode_utf8(#[trigger] sv.files[j]).len() <= u64::MAX,
        decreases s.files@.len() - i,
    {
        proof {
            assert(sv.files[i as int] == s.files@[i as int]@);
        }
        push_str(&mut out, s.files[i].path.as_str());
        proof {
            assert(out@ + enc_list_from(sv.files, str_writer(), i + 1) =~= base1 + enc_list_from(
                sv.files,
                str_writer(),
                0,
            ));
        }
        i = i + 1;
    }
    proof {
        assert(enc_list_from(sv.files, str_writer(), sv.files.len() as int) =~= Seq::<u8>::empty());
        assert(out@ =~= enc_list(sv.files, str_writer()));
    }
    let ghost done1 = out@;

    push_u64(&mut out, s.chunks.len() as u64);
    let ghost base2 = out@;
    let mut i: usize = 0;
    proof {
        assert(out@ + enc_list_from(sv.chunks, chunk_writer(), 0) =~= base2 + enc_list_from(
            sv.chunks,
            chunk_writer(),
            0,
        ));
    }
    while i < s.chunks.len()
        invariant
            0 <= i <= s.chunks@.len(),
            sv == s@,
            sv.chunks.len() == s.chunks@.len(),
            forall|j: int| 0 <= j < sv.chunks.len() ==> (#[trigger] sv.chunks[j]).hash.len() == 32,
            out@ + enc_list_from(sv.chunks, chunk_writer(), i as int) == base2 + enc_list_from(
                sv.chunks,
                chunk_writer(),
                0,
            ),
            forall|j: int|
                0 <= j < i ==> vstd::utf8::encode_utf8(
                    (#[trigger] sv.chunks[j]).location,
                ).len() <= u64::MAX,
        decreases s.chunks@.len() - i,
    {
        proof {
            assert(sv.chunks[i as int] == s.chunks@[i as int]@);
        }
        let mut hash = slice_to_vec(s.chunks[i].hash.as_slice());
        out.append(&mut hash);
        push_str(&mut out, s.chunks[i].location.as_str());
        proof {
            assert(out@ + enc_list_from(sv.chunks, chunk_writer(), i + 1) =~= base2
                + enc_list_from(sv.chunks, chunk_writer(), 0));
        }
        i = i + 1;
    }
    proof {
        assert(enc_list_from(sv.chunks, chunk_writer(), sv.chunks.len() as int) =~= Seq::<
            u8,
        >::empty());
        assert(out@ =~= done1 + enc_list(sv.chunks, chunk_writer()));
    }
    let ghost done2 = out@;

    push_u64(&mut out, s.file_chunks.len() as u64);
    let ghost base3 = out@;
    let mut i: usize = 0;
    proof {
        assert(out@ + enc_list_from(sv.file_chunks, row_writer(), 0) =~= base3 + enc_list_from(
            sv.file_chunks,
            row_writer(),
            0,
        ));
    }
    while i < s.file_chunks.len()
        invariant
            0 <= i <= s.file_chunks@.len(),
            sv == s@,
            sv.file_chunks.len() == s.file_chunks@.len(),
            out@ + enc_list_from(sv.file_chunks, row_writer(), i as int) == base3 + enc_list_from(
                sv.file_chunks,
                row_writer(),
                0,
            ),
        decreases s.file_chunks@.len() - i,
    {
        let fc = s.file_chunks[i];
        proof {
            assert(sv.file_chunks[i as int] == fc);
        }
        push_u32(&mut out, fc.chunk_index);
        push_u32(&mut out, fc.file_index);
        push_u32(&mut out, fc.chunk_offset);
        push_u64(&mut out, fc.file_offset);
        push_u32(&mut out, fc.length);
        proof {
            assert(out@ + enc_list_from(sv.file_chunks, row_writer(), i + 1) =~= base3
                + enc_list_from(sv.file_chunks, row_writer(), 0));
        }
        i = i + 1;
    }
    proof {
        assert(enc_list_from(sv.file_chunks, row_writer(), sv.file_chunks.len() as int) =~= Seq::<
            u8,
        >::empty());
        assert(out@ =~= done2 + enc_list(sv.file_chunks, row_writer()));
    }
    let ghost done3 = out@;

    push_u64(&mut out, s.file_symlink.len() as u64);
    let ghost base4 = out@;
    let mut i: usize = 0;
    proof {
        assert(out@ + enc_list_from(sv.file_symlink, link_writer(), 0) =~= base4 + enc_list_from(
            sv.file_symlink,
            link_writer(),
            0,
        ));
    }
    while i < s.file_symlink.len()
        invariant
            0 <= i <= s.file_symlink@.len(),
            sv == s@,
            sv.file_symlink.len() == s.file_symlink@.len(),
            out@ + enc_list_from(sv.file_symlink, link_writer(), i as int) == base4
                + enc_list_from(sv.file_symlink, link_writer(), 0),
            forall|j: int|
                0 <= j < i ==> vstd::utf8::encode_utf8(
                    (#[trigger] sv.file_symlink[j]).path,
                ).len() <= u64::MAX && vstd::utf8::encode_utf8(sv.file_symlink[j].source).len()
                    <= u64::MAX,
        decreases s.file_symlink@.len() - i,
    {
        proof {
            assert(sv.file_symlink[i as int] == s.file_symlink@[i as int]@);
        }
        push_str(&mut out, s.file_symlink[i].path.as_str());
        push_str(&mut out, s.file_symlink[i].source.as_str());
        let flag: u8 = if s.file_symlink[i].is_hard {
            1
        } else {
            0
        };
        out.push(flag);
        proof {
            assert(out@ + enc_list_from(sv.file_symlink, link_writer(), i + 1) =~= base4
                + enc_list_from(sv.file_symlink, link_writer(), 0));
        }
        i = i + 1;
    }
    proof {
        assert(enc_list_from(sv.file_symlink, link_writer(), sv.file_symlink.len() as int)
            =~= Seq::<u8>::empty());
        assert(out@ =~= done3 + enc_list(sv.file_symlink, link_writer()));
        assert(out@ =~= spec_encode_snapshot(sv));
    }
    out
}

/// Relies on String::from_utf8: yields the string whose UTF-8 bytes are the
/// given bytes, and fails exactly when the bytes are not valid UTF-8.
#[verifier::external_body]
fn string_from_utf8(bytes: Vec<u8>) -> (r: Option<String>)
    ensures
        match r {
            Some(s) => vstd::utf8::encode_utf8(s@) == bytes@,
            None => !vstd::utf8::valid_utf8(bytes@),
        },
{
    match String::from_utf8(bytes) {
        Ok(s) => Some(s),
        Err(_) => None,
    }
}

fn read_u64(bytes: &Vec<u8>, pos: usize) -> (r: Result<(u64, usize), Error>)
    ensures
        match dec_u64(bytes@, pos as int) {
            Some(vp) => r is Ok && r->Ok_0.0 == vp.0 && r->Ok_0.1 as int == vp.1,
            None => r == Err::<(u64, usize), Error>(Error::InvalidData),
        },
{
    let n = bytes.len();
    if pos <= n && n - pos >= 8 {
        let sl = slice_subrange(bytes.as_slice(), pos, pos + 8);
        Ok((u64_from_le_bytes(sl), pos + 8))
    } else {
        Err(Error::InvalidData)
    }
}

fn read_u32(bytes: &Vec<u8>, pos: usize) -> (r: Result<(u32, usize), Error>)
    ensures
        match dec_u32(bytes@, pos as int) {
            Some(vp) => r is Ok && r->Ok_0.0 == vp.0 && r->Ok_0.1 as int == vp.1,
            None => r == Err::<(u32, usize), Error>(Error::InvalidData),
        },
{
    let n = bytes.len();
    if pos <= n && n - pos >= 4 {
        let sl = slice_subrange(bytes.as_slice(), pos, pos + 4);
        Ok((u32_from_le_bytes(sl), pos + 4))
    } else {
        Err(Error::InvalidData)
    }
}

fn read_bytes(bytes: &Vec<u8>, pos: usize) -> (r: Result<(Vec<u8>, usize), Error>)
    ensures
        match dec_bytes(bytes@, pos as int) {
            Some(vp) => r is Ok && r->Ok_0.0@ == vp.0 && r->Ok_0.1 as int == vp.1,
            None => r == Err::<(Vec<u8>, usize), Error>(Error::InvalidData),
        },
{
    let (count, p) = match read_u64(bytes, pos) {
        Ok(v) => v,
        Err(e) => {
            return Err(e);
        },
    };
    let n = bytes.len();
    if count > (n - p) as u64 {
        return Err(Error::InvalidData);
    }
    let take = count as usize;
    let sl = slice_subrange(bytes.as_slice(), p, p + take);
    Ok((slice_to_vec(sl), p + take))
}

fn read_string(bytes: &Vec<u8>, pos: usize) -> (r: Result<(String, usize), Error>)
    ensures
        match dec_str(bytes@, pos as int) {
            Some(vp) => r is Ok && r->Ok_0.0@ == vp.0 && r->Ok_0.1 as int == vp.1,
            None => r == Err::<(String, usize), Error>(Error::InvalidData),
        },
{
    let (payload, p) = match read_bytes(bytes, pos) {
        Ok(v) => v,
        Err(e) => {
            return Err(e);
        },
    };
    let ghost pv = payload@;
    match string_from_utf8(payload) {
        Some(s) => {
            proof {
                vstd::utf8::encode_utf8_valid_utf8(s@);
                vstd::utf8::encode_utf8_decode_utf8(s@);
            }
            Ok((s, p))
        },
        None => Err(Error::InvalidData),
    }
}

fn read_chunk(bytes: &Vec<u8>, pos: usize) -> (r: Result<(Chunk, usize), Error>)
    ensures
        match dec_chunk(bytes@, pos as int) {
            Some(vp) => r is Ok && r->Ok_0.0@ == vp.0 && r->Ok_0.1 as int == vp.1,
            None => r == Err::<(Chunk, usize), Error>(Error::InvalidData),
        },
{
    let n = bytes.len();
    if !(pos <= n && n - pos >= 32) {
        return Err(Error::InvalidData);
    }
    let hash = slice_to_vec(slice_subrange(bytes.as_slice(), pos, pos + 32));
    let (location, p) = match read_string(bytes, pos + 32) {
        Ok(v) => v,
        Err(e) => {
            return Err(e);
        },
    };
    Ok((Chunk { hash, location }, p))
}

fn read_row(bytes: &Vec<u8>, pos: usize) -> (r: Result<(FileChunk, usize), Error>)
    ensures
        match dec_row(bytes@, pos as int) {
            Some(vp) => r is Ok && r->Ok_0.0 == vp.0 && r->Ok_0.1 as int == vp.1,
            None => r == Err::<(FileChunk, usize), Error>(Error::InvalidData),
        },
{
    let (chunk_index, p1) = match read_u32(bytes, pos) {
        Ok(v) => v,
        Err(e) => {
            return Err(e);
        },
    };
    let (file_index, p2) = match read_u32(bytes, p1) {
        Ok(v) => v,
        Err(e) => {
            return Err(e);
        },
    };
    let (chunk_offset, p3) = match read_u32(bytes, p2) {
        Ok(v) => v,
        Err(e) => {
            return Err(e);
        },
    };
    let (file_offset, p4) = match read_u64(bytes, p3) {
        Ok(v) => v,
        Err(e) => {
            return Err(e);
        },
    };
    let (length, p5) = match read_u32(bytes, p4) {
        Ok(v) => v,
        Err(e) => {
            return Err(e);
        },
    };
    Ok((FileChunk { chunk_index, file_index, chunk_offset, file_offset, length }, p5))
}

fn read_link(bytes: &Vec<u8>, pos: usize) -> (r: Result<(FileSymlink, usize), Error>)
    ensures
        match dec_link(bytes@, pos as int) {
            Some(vp) => r is Ok && r->Ok_0.0@ == vp.0 && r->Ok_0.1 as int == vp.1,
            None => r == Err::<(FileSymlink, usize), Error>(Error::InvalidData),
        },
{
    let (path, p1) = match read_string(bytes, pos) {
        Ok(v) => v,
        Err(e) => {
            return Err(e);
        },
    };
    let (source, p2) = match read_string(bytes, p1) {
        Ok(v) => v,
        Err(e) => {
            return Err(e);
        },
    };
    let n = bytes.len();
    if p2 >= n {
        return Err(Error::InvalidData);
    }
    let flag = bytes[p2];
    if flag == 0 || flag == 1 {
        Ok((FileSymlink { path, source, is_hard: flag == 1 }, p2 + 1))
    } else {
        Err(Error::InvalidData)
    }
}


/// The views of decoded vectors, element by element.
pub open spec fn files_view(v: Seq<File>) -> Seq<Seq<char>> {
    Seq::new(v.len(), |i: int| v[i]@)
}

pub open spec fn chunks_view(v: Seq<Chunk>) -> Seq<ChunkV> {
    Seq::new(v.len(), |i: int| v[i]@)
}

pub open spec fn rows_view(v: Seq<FileChunk>) -> Seq<FileChunk> {
    v
}

pub open spec fn links_view(v: Seq<FileSymlink>) -> Seq<FileSymlinkV> {
    Seq::new(v.len(), |i: int| v[i]@)
}

fn read_file_list(bytes: &Vec<u8>, pos: usize) -> (r: Result<(Vec<File>, usize), Error>)
    ensures
        match dec_list(bytes@, pos as int, str_reader()) {
            Some(vp) => {
                &&& r is Ok
                &&& r->Ok_0.0@.len() == vp.0.len()
                &&& files_view(r->Ok_0.0@) == vp.0
                &&& r->Ok_0.1 as int == vp.1
            },
            None => r == Err::<(Vec<File>, usize), Error>(Error::InvalidData),
        },
{
    let ghost bv = bytes@;
    let (count, p0) = match read_u64(bytes, pos) {
        Ok(v) => v,
        Err(e) => {
            return Err(e);
        },
    };
    let mut acc: Vec<File> = Vec::new();
    let mut cur: usize = p0;
    let mut i: u64 = 0;
    while i < count
        invariant
            bv == bytes@,
            0 <= i <= count,
            dec_u64(bv, pos as int) == Some::<(u64, int)>((count, p0 as int)),
            ({
                let full = dec_list_from(bv, p0 as int, count as int, str_reader());
                match dec_list_from(bv, cur as int, count - i, str_reader()) {
                    Some(vp) => full == Some::<(Seq<Seq<char>>, int)>(
                        (files_view(acc@) + vp.0, vp.1),
                    ),
                    None => full is None,
                }
            }),
        decreases count - i,
    {
        let (sv0, p) = match read_string(bytes, cur) {
            Ok(v) => v,
            Err(e) => {
                proof {
                    assert(dec_list_from(bv, cur as int, count - i, str_reader()) is None);
                }
                return Err(e);
            },
        };
        let v = File { path: sv0 };
        proof {
            let full = dec_list_from(bv, p0 as int, count as int, str_reader());
            let stepped = dec_list_from(bv, p as int, count - i - 1, str_reader());
            match stepped {
                Some(vp) => {
                    assert(files_view(acc@) + (seq![v@] + vp.0) =~= files_view(acc@.push(v))
                        + vp.0);
                },
                None => {},
            }
        }
        acc.push(v);
        cur = p;
        i = i + 1;
        proof {
            assert(files_view(acc@) =~= files_view(acc@));
        }
    }
    proof {
        let full = dec_list_from(bv, p0 as int, count as int, str_reader());
        assert(dec_list_from(bv, cur as int, 0, str_reader()) == Some::<(Seq<Seq<char>>, int)>(
            (Seq::empty(), cur as int),
        ));
        assert(files_view(acc@) + Seq::<Seq<char>>::empty() =~= files_view(acc@));
    }
    Ok((acc, cur))
}

fn read_chunk_list(bytes: &Vec<u8>, pos: usize) -> (r: Result<(Vec<Chunk>, usize), Error>)
    ensures
        match dec_list(bytes@, pos as int, chunk_reader()) {
            Some(vp) => {
                &&& r is Ok
                &&& r->Ok_0.0@.len() == vp.0.len()
                &&& chunks_view(r->Ok_0.0@) == vp.0
                &&& r->Ok_0.1 as int == vp.1
            },
            None => r == Err::<(Vec<Chunk>, usize), Error>(Error::InvalidData),
        },
{
    let ghost bv = bytes@;
    let (count, p0) = match read_u64(bytes, pos) {
        Ok(v) => v,
        Err(e) => {
            return Err(e);
        },
    };
    let mut acc: Vec<Chunk> = Vec::new();
    let mut cur: usize = p0;
    let mut i: u64 = 0;
    while i < count
        invariant
            bv == bytes@,
            0 <= i <= count,
            dec_u64(bv, pos as int) == Some::<(u64, int)>((count, p0 as int)),
            ({
                let full = dec_list_from(bv, p0 as int, count as int, chunk_reader());
                match dec_list_from(bv, cur as int, count - i, chunk_reader()) {
                    Some(vp) => full == Some::<(Seq<ChunkV>, int)>(
                        (chunks_view(acc@) + vp.0, vp.1),
                    ),
                    None => full is None,
                }
            }),
        decreases count - i,
    {
        let (v, p) = match read_chunk(bytes, cur) {
            Ok(v) => v,
            Err(e) => {
                proof {
                    assert(dec_list_from(bv, cur as int, count - i, chunk_reader()) is None);
                }
                return Err(e);
            },
        };
        proof {
            let full = dec_list_from(bv, p0 as int, count as int, chunk_reader());
            let stepped = dec_list_from(bv, p as int, count - i - 1, chunk_reader());
            match stepped {
                Some(vp) => {
                    assert(chunks_view(acc@) + (seq![v@] + vp.0) =~= chunks_view(acc@.push(v))
                        + vp.0);
                },
                None => {},
            }
        }
        acc.push(v);
        cur = p;
        i = i + 1;
        proof {
            assert(chunks_view(acc@) =~= chunks_view(acc@));
        }
    }
    proof {
        let full = dec_list_from(bv, p0 as int, count as int, chunk_reader());
        assert(dec_list_from(bv, cur as int, 0, chunk_reader()) == Some::<(Seq<ChunkV>, int)>(
            (Seq::empty(), cur as int),
        ));
        assert(chunks_view(acc@) + Seq::<ChunkV>::empty() =~= chunks_view(acc@));
    }
    Ok((acc, cur))
}

fn read_row_list(bytes: &Vec<u8>, pos: usize) -> (r: Result<(Vec<FileChunk>, usize), Error>)
    ensures
        match dec_list(bytes@, pos as int, row_reader()) {
            Some(vp) => {
                &&& r is Ok
                &&& r->Ok_0.0@.len() == vp.0.len()
                &&& rows_view(r->Ok_0.0@) == vp.0
                &&& r->Ok_0.1 as int == vp.1
            },
            None => r == Err::<(Vec<FileChunk>, usize), Error>(Error::InvalidData),
        },
{
    let ghost bv = bytes@;
    let (count, p0) = match read_u64(bytes, pos) {
        Ok(v) => v,
        Err(e) => {
            return Err(e);
        },
    };
    let mut acc: Vec<FileChunk> = Vec::new();
    let mut cur: usize = p0;
    let mut i: u64 = 0;
    while i < count
        invariant
            bv == bytes@,
            0 <= i <= count,
            dec_u64(bv, pos as int) == Some::<(u64, int)>((count, p0 as int)),
            ({
                let full = dec_list_from(bv, p0 as int, count as int, row_reader());
                match dec_list_from(bv, cur as int, count - i, row_reader()) {
                    Some(vp) => full == Some::<(Seq<FileChunk>, int)>(
                        (rows_view(acc@) + vp.0, vp.1),
                    ),
                    None => full is None,
                }
            }),
        decreases count - i,
    {
        let (v, p) = match read_row(bytes, cur) {
            Ok(v) => v,
            Err(e) => {
                proof {
                    assert(dec_list_from(bv, cur as int, count - i, row_reader()) is None);
                }
                return Err(e);
            },
        };
        proof {
            let full = dec_list_from(bv, p0 as int, count as int, row_reader());
            let stepped = dec_list_from(bv, p as int, count - i - 1, row_reader());
            match stepped {
                Some(vp) => {
                    assert(rows_view(acc@) + (seq![v] + vp.0) =~= rows_view(acc@.push(v))
                        + vp.0);
                },
                None => {},
            }
        }
        acc.push(v);
        cur = p;
        i = i + 1;
        proof {
            assert(rows_view(acc@) =~= rows_view(acc@));
        }
    }
    proof {
        let full = dec_list_from(bv, p0 as int, count as int, row_reader());
        assert(dec_list_from(bv, cur as int, 0, row_reader()) == Some::<(Seq<FileChunk>, int)>(
            (Seq::empty(), cur as int),
        ));
        assert(rows_view(acc@) + Seq::<FileChunk>::empty() =~= rows_view(acc@));
    }
    Ok((acc, cur))
}

fn read_link_list(bytes: &Vec<u8>, pos: usize) -> (r: Result<(Vec<FileSymlink>, usize), Error>)
    ensures
        match dec_list(bytes@, pos as int, link_reader()) {
            Some(vp) => {
                &&& r is Ok
                &&& r->Ok_0.0@.len() == vp.0.len()
                &&& links_view(r->Ok_0.0@) == vp.0
                &&& r->Ok_0.1 as int == vp.1
            },
            None => r == Err::<(Vec<FileSymlink>, usize), Error>(Error::InvalidData),
        },
{
    let ghost bv = bytes@;
    let (count, p0) = match read_u64(bytes, pos) {
        Ok(v) => v,
        Err(e) => {
            return Err(e);
        },
    };
    let mut acc: Vec<FileSymlink> = Vec::new();
    let mut cur: usize = p0;
    let mut i: u64 = 0;
    while i < count
        invariant
            bv == bytes@,
            0 <= i <= count,
            dec_u64(bv, pos as int) == Some::<(u64, int)>((count, p0 as int)),
            ({
                let full = dec_list_from(bv, p0 as int, count as int, link_reader());
                match dec_list_from(bv, cur as int, count - i, link_reader()) {
                    Some(vp) => full == Some::<(Seq<FileSymlinkV>, int)>(
                        (links_view(acc@) + vp.0, vp.1),
                    ),
                    None => full is None,
                }
            }),
        decreases count - i,
    {
        let (v, p) = match read_link(bytes, cur) {
            Ok(v) => v,
            Err(e) => {
                proof {
                    assert(dec_list_from(bv, cur as int, count - i, link_reader()) is None);
                }
                return Err(e);
            },
        };
        proof {
            let full = dec_list_from(bv, p0 as int, count as int, link_reader());
            let stepped = dec_list_from(bv, p as int, count - i - 1, link_reader());
            match stepped {
                Some(vp) => {
                    assert(links_view(acc@) + (seq![v@] + vp.0) =~= links_view(acc@.push(v))
                        + vp.0);
                },
                None => {},
            }
        }
        acc.push(v);
        cur = p;
        i = i + 1;
        proof {
            assert(links_view(acc@) =~= links_view(acc@));
        }
    }
    proof {
        let full = dec_list_from(bv, p0 as int, count as int, link_reader());
        assert(dec_list_from(bv, cur as int, 0, link_reader()) == Some::<(Seq<FileSymlinkV>, int)>(
            (Seq::empty(), cur as int),
        ));
        assert(links_view(acc@) + Seq::<FileSymlinkV>::empty() =~= links_view(acc@));
    }
    Ok((acc, cur))
}

/// Reads the manifest back from the codec's canonical form. Fails with
/// `Error::InvalidData` exactly when the bytes are not a canonical encoding.
pub fn decode_snapshot(bytes: &Vec<u8>) -> (r: Result<Snapshot, Error>)
    ensures
        match spec_decode_snapshot(bytes@) {
            Some(sv) => r is Ok && r->Ok_0@ == sv,
            None => r == Err::<Snapshot, Error>(Error::InvalidData),
        },
{
    let (files, p1) = match read_file_list(bytes, 0) {
        Ok(v) => v,
        Err(e) => {
            return Err(e);
        },
    };
    let (chunks, p2) = match read_chunk_list(bytes, p1) {
        Ok(v) => v,
        Err(e) => {
            return Err(e);
        },
    };
    let (file_chunks, p3) = match read_row_list(bytes, p2) {
        Ok(v) => v,
        Err(e) => {
            return Err(e);
        },
    };
    let (file_symlink, p4) = match read_link_list(bytes, p3) {
        Ok(v) => v,
        Err(e) => {
            return Err(e);
        },
    };
    if p4 != bytes.len() {
        return Err(Error::InvalidData);
    }
    let s = Snapshot { files, chunks, file_chunks, file_symlink };
    proof {
        let sv = spec_decode_snapshot(bytes@)->Some_0;
        assert(s@.files =~= sv.files);
        assert(s@.chunks =~= sv.chunks);
        assert(s@.file_chunks =~= sv.file_chunks);
        assert(s@.file_symlink =~= sv.file_symlink);
    }
    Ok(s)
}


/// What loading a snapshot blob yields: the key resolved against the
/// store, then the bytes decoded; nothing if the key is not canonical, its
/// range lies outside the store, or the bytes are not a canonical encoding.
pub open spec fn spec_load_snapshot(store: Seq<u8>, key: Seq<char>) -> Option<SnapshotV> {
    match crate::storage::spec_parse_key(key) {
        None => None,
        Some(ol) => {
            if ol.0 + ol.1 <= store.len() {
                spec_decode_snapshot(store.subrange(ol.0 as int, ol.0 + ol.1))
            } else {
                None
            }
        },
    }
}

/// Which error a failed load reports: a bad key is the caller's input, a
/// blob that does not decode is bad data.
pub open spec fn spec_load_error(store: Seq<u8>, key: Seq<char>) -> Error {
    match crate::storage::spec_parse_key(key) {
        None => Error::InvalidInput,
        Some(ol) => {
            if ol.0 + ol.1 <= store.len() {
                Error::InvalidData
            } else {
                Error::InvalidInput
            }
        },
    }
}

/// Resolves a root key against the store and decodes the snapshot blob it
/// names.
pub fn load_snapshot(store: &crate::storage::BlobStore, key: &String) -> (r: Result<
    Snapshot,
    Error,
>)
    ensures
        match spec_load_snapshot(store@, key@) {
            Some(sv) => r is Ok && r->Ok_0@ == sv,
            None => r == Err::<Snapshot, Error>(spec_load_error(store@, key@)),
        },
{
    let bytes = match store.get(key) {
        Ok(b) => b,
        Err(e) => {
            return Err(e);
        },
    };
    decode_snapshot(&bytes)
}

/// Every chunk record a decode yields carries a 32-byte digest.
proof fn lemma_dec_chunks_hash_len(b: Seq<u8>, pos: int, n: int)
    ensures
        match dec_list_from(b, pos, n, chunk_reader()) {
            Some(vp) => forall|i: int|
                0 <= i < vp.0.len() ==> (#[trigger] vp.0[i]).hash.len() == 32,
            None => true,
        },
    decreases n,
{
    if n > 0 {
        match chunk_reader()(b, pos) {
            None => {},
            Some(vp0) => {
                lemma_dec_chunks_hash_len(b, vp0.1, n - 1);
                match dec_list_from(b, vp0.1, n - 1, chunk_reader()) {
                    None => {},
                    Some(vp) => {
                        assert(vp0.0.hash.len() == 32);
                        assert forall|i: int|
                            0 <= i < (seq![vp0.0] + vp.0).len() implies (#[trigger] (seq![vp0.0]
                            + vp.0)[i]).hash.len() == 32 by {
                            if i > 0 {
                                assert((seq![vp0.0] + vp.0)[i] == vp.0[i - 1]);
                            }
                        }
                    },
                }
            },
        }
    }
}

/// A snapshot read back from bytes carries only 32-byte digests.
pub proof fn lemma_decoded_hashes(b: Seq<u8>)
    ensures
        match spec_decode_snapshot(b) {
            Some(sv) => forall|i: int|
                0 <= i < sv.chunks.len() ==> (#[trigger] sv.chunks[i]).hash.len() == 32,
            None => true,
        },
{
    match dec_list(b, 0, str_reader()) {
        None => {},
        Some((files, p1)) => {
            match dec_u64(b, p1) {
                None => {},
                Some((n, p)) => {
                    lemma_dec_chunks_hash_len(b, p, n as int);
                },
            }
        },
    }
}

} // verus!
