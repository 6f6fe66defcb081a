//! The backup pipeline: classify the walked entries, cut the global stream
//! into chunks, deduplicate against an optional base snapshot, append new
//! chunk bytes to the blob store, and record the manifest.

use vstd::prelude::*;

use crate::codec::{files_view, links_view};
use crate::digest::blake3_hash;
use crate::digest::blake3_of;
use crate::metadata::{Chunk, ChunkV, File, FileChunk, FileSymlink, FileSymlinkV, Snapshot, SnapshotV};
use crate::reader::{
    cdc_lengths, concat_all, content_pairs, content_view, lens_total, pieces_total, prefix_len,
    spec_resolve, Chunker, ChunkerConfig, ChunkSource, SourcePiece,
};
use crate::storage::spec_encode_key;
use crate::storage::BlobStore;

verus! {

/// The identity of a regular file on its filesystem: device (volume) and
/// inode (file index). Two paths with the same identity are hard links to
/// one another.
#[derive(Clone, Copy, Debug, PartialEq, Eq, Structural)]
pub struct FileId {
    pub volume_id: u64,
    pub file_index: u64,
}

/// What the walker found at one path, in name-sorted walk order. Regular
/// files carry their bytes and, where the platform reports one, their
/// identity; symbolic links carry their target text, never followed.
pub enum WalkKind {
    Regular { file_id: Option<FileId>, data: Vec<u8> },
    Symlink { target: String },
}

/// One walked entry: its path relative to the backup root, `/`-separated,
/// and what was found there.
pub struct WalkItem {
    pub path: String,
    pub kind: WalkKind,
}

/// Mathematical value of a walked entry.
pub enum WalkKindV {
    Regular { file_id: Option<FileId>, data: Seq<u8> },
    Symlink { target: Seq<char> },
}

pub struct WalkItemV {
    pub path: Seq<char>,
    pub kind: WalkKindV,
}

impl View for WalkItem {
    type V = WalkItemV;

    open spec fn view(&self) -> WalkItemV {
        WalkItemV {
            path: self.path@,
            kind: match self.kind {
                WalkKind::Regular { file_id, data } => WalkKindV::Regular {
                    file_id,
                    data: data@,
                },
                WalkKind::Symlink { target } => WalkKindV::Symlink { target: target@ },
            },
        }
    }
}

/// The view of a walked entry list.
pub open spec fn items_view(items: Seq<WalkItem>) -> Seq<WalkItemV> {
    Seq::new(items.len(), |i: int| items[i]@)
}

/// No two walked entries share a path.
pub open spec fn distinct_paths(items: Seq<WalkItemV>) -> bool {
    forall|i: int, j: int|
        0 <= i < j < items.len() ==> (#[trigger] items[i]).path != (#[trigger] items[j]).path
}

/// What classification has produced after the first `n` entries: the link
/// records, the content files (path and bytes, in walk order), and the
/// first path seen for each file identity.
pub struct ClassifyV {
    pub links: Seq<FileSymlinkV>,
    pub content: Seq<(Seq<char>, Seq<u8>)>,
    pub seen: Map<FileId, Seq<char>>,
}

/// Classification of the first `n` walked entries. A symbolic link is
/// recorded verbatim. A regular file whose identity was seen before becomes
/// a hard-link record pointing at the first path of that identity; any
/// other regular file becomes a content file.
pub open spec fn classify_upto(items: Seq<WalkItemV>, n: int) -> ClassifyV
    decreases n,
{
    if n <= 0 {
        ClassifyV { links: Seq::empty(), content: Seq::empty(), seen: Map::empty() }
    } else {
        let st = classify_upto(items, n - 1);
        let it = items[n - 1];
        match it.kind {
            WalkKindV::Symlink { target } => ClassifyV {
                links: st.links.push(
                    FileSymlinkV { path: it.path, source: target, is_hard: false },
                ),
                content: st.content,
                seen: st.seen,
            },
            WalkKindV::Regular { file_id, data } => match file_id {
                Some(id) => {
                    if st.seen.contains_key(id) {
                        ClassifyV {
                            links: st.links.push(
                                FileSymlinkV { path: it.path, source: st.seen[id], is_hard: true },
                            ),
                            content: st.content,
                            seen: st.seen,
                        }
                    } else {
                        ClassifyV {
                            links: st.links,
                            content: st.content.push((it.path, data)),
                            seen: st.seen.insert(id, it.path),
                        }
                    }
                },
                None => ClassifyV {
                    links: st.links,
                    content: st.content.push((it.path, data)),
                    seen: st.seen,
                },
            },
        }
    }
}

/// Classification of the whole walk.
pub open spec fn spec_classify(items: Seq<WalkItemV>) -> ClassifyV {
    classify_upto(items, items.len() as int)
}

/// The snapshot's file paths: the content files' paths, in walk order.
pub open spec fn content_paths(content: Seq<(Seq<char>, Seq<u8>)>) -> Seq<Seq<char>> {
    Seq::new(content.len(), |i: int| content[i].0)
}

/// Every content path of a classification is the path of one of the items.
pub proof fn lemma_classify_content_from_items(items: Seq<WalkItemV>, n: int)
    requires
        0 <= n <= items.len(),
    ensures
        ({
            let st = classify_upto(items, n);
            forall|i: int|
                0 <= i < st.content.len() ==> exists|k: int|
                    0 <= k < n && (#[trigger] st.content[i]).0 == items[k].path
        }),
    decreases n,
{
    if n > 0 {
        lemma_classify_content_from_items(items, n - 1);
        let st0 = classify_upto(items, n - 1);
        let st = classify_upto(items, n);
        assert forall|i: int| 0 <= i < st.content.len() implies exists|k: int|
            0 <= k < n && (#[trigger] st.content[i]).0 == items[k].path by {
            if i < st0.content.len() {
                let k0 = choose|k: int| 0 <= k < n - 1 && st0.content[i].0 == items[k].path;
                assert(st.content[i] == st0.content[i]);
                assert(0 <= k0 < n && st.content[i].0 == items[k0].path);
            } else {
                assert(st.content[i].0 == items[n - 1].path);
            }
        }
    }
}

/// Content paths keep the items' walk order, so distinct item paths give
/// distinct content paths.
pub proof fn lemma_classify_distinct(items: Seq<WalkItemV>, n: int)
    requires
        0 <= n <= items.len(),
        distinct_paths(items),
    ensures
        ({
            let st = classify_upto(items, n);
            forall|i: int, j: int|
                0 <= i < j < st.content.len() ==> (#[trigger] st.content[i]).0 != (
                #[trigger] st.content[j]).0
        }),
    decreases n,
{
    if n > 0 {
        lemma_classify_distinct(items, n - 1);
        lemma_classify_content_from_items(items, n - 1);
        let st0 = classify_upto(items, n - 1);
        let st = classify_upto(items, n);
        assert forall|i: int, j: int|
            0 <= i < j < st.content.len() implies (#[trigger] st.content[i]).0 != (
        #[trigger] st.content[j]).0 by {
            if j == st0.content.len() {
                let k0 = choose|k: int| 0 <= k < n - 1 && st0.content[i].0 == items[k].path;
                assert(st.content[j].0 == items[n - 1].path);
                assert(items[k0].path != items[n - 1].path);
            } else {
                assert(st.content[i] == st0.content[i]);
                assert(st.content[j] == st0.content[j]);
            }
        }
    }
}

pub(crate) fn clone_string(s: &String) -> (r: String)
    ensures
        r@ == s@,
{
    s.clone()
}

pub(crate) fn clone_bytes(b: &Vec<u8>) -> (r: Vec<u8>)
    ensures
        r@ == b@,
{
    vstd::slice::slice_to_vec(b.as_slice())
}

/// The index in `seen` that holds `id`, if any.
fn seen_lookup(seen: &Vec<(FileId, String)>, id: &FileId) -> (r: Option<usize>)
    ensures
        match r {
            Some(j) => 0 <= j < seen@.len() && (seen@[j as int]).0 == *id,
            None => forall|k: int| 0 <= k < seen@.len() ==> (#[trigger] seen@[k]).0 != *id,
        },
{
    let mut j: usize = 0;
    while j < seen.len()
        invariant
            0 <= j <= seen@.len(),
            forall|k: int| 0 <= k < j ==> (#[trigger] seen@[k]).0 != *id,
        decreases seen@.len() - j,
    {
        if seen[j].0.volume_id == id.volume_id && seen[j].0.file_index == id.file_index {
            proof {
                assert(seen@[j as int].0 == *id);
            }
            return Some(j);
        }
        j = j + 1;
    }
    None
}

/// Splits the walked entries into the snapshot's file list, its link
/// records, and the content files that feed the chunker, collapsing hard
/// links by file identity.
fn classify_items(items: &Vec<WalkItem>) -> (r: (Vec<File>, Vec<FileSymlink>, Vec<
    (String, Vec<u8>),
>))
    ensures
        ({
            let st = spec_classify(items_view(items@));
            &&& files_view(r.0@) == content_paths(st.content)
            &&& r.0@.len() == st.content.len()
            &&& links_view(r.1@) == st.links
            &&& crate::reader::content_view(r.2@) == st.content
        }),
{
    let ghost iv = items_view(items@);
    let mut files: Vec<File> = Vec::new();
    let mut links: Vec<FileSymlink> = Vec::new();
    let mut content: Vec<(String, Vec<u8>)> = Vec::new();
    let mut seen: Vec<(FileId, String)> = Vec::new();
    let mut i: usize = 0;
    while i < items.len()
        invariant
            0 <= i <= items@.len(),
            iv == items_view(items@),
            ({
                let st = classify_upto(iv, i as int);
                &&& files_view(files@) == content_paths(st.content)
                &&& files@.len() == st.content.len()
                &&& links_view(links@) == st.links
                &&& crate::reader::content_view(content@) == st.content
                &&& forall|j: int|
                    0 <= j < seen@.len() ==> st.seen.contains_key((#[trigger] seen@[j]).0)
                        && st.seen[seen@[j].0] == seen@[j].1@
                &&& forall|id: FileId|
                    st.seen.contains_key(id) ==> exists|j: int|
                        0 <= j < seen@.len() && (#[trigger] seen@[j]).0 == id
            }),
        decreases items@.len() - i,
    {
        let ghost st0 = classify_upto(iv, i as int);
        let ghost st1 = classify_upto(iv, i as int + 1);
        proof {
            assert(iv[i as int] == items@[i as int]@);
        }
        let item = &items[i];
        match &item.kind {
            WalkKind::Symlink { target } => {
                links.push(
                    FileSymlink {
                        path: clone_string(&item.path),
                        source: clone_string(target),
                        is_hard: false,
                    },
                );
                proof {
                    assert(links_view(links@) =~= st1.links);
                }
            },
            WalkKind::Regular { file_id, data } => {
                let existing: Option<usize> = match file_id {
                    Some(id) => seen_lookup(&seen, id),
                    None => None,
                };
                proof {
                    match existing {
                        Some(jj) => {
                            assert(st0.seen.contains_key(seen@[jj as int].0));
                        },
                        None => {
                            match items@[i as int]@.kind {
                                WalkKindV::Regular { file_id: fid, data: _ } => {
                                    match fid {
                                        Some(id) => {
                                            if st0.seen.contains_key(id) {
                                                let w = choose|k: int|
                                                    0 <= k < seen@.len() && (#[trigger] seen@[k]).0
                                                        == id;
                                                assert(seen@[w].0 != id);
                                                assert(false);
                                            }
                                        },
                                        None => {},
                                    }
                                },
                                _ => {},
                            }
                        },
                    }
                }
                match existing {
                    Some(j) => {
                        links.push(
                            FileSymlink {
                                path: clone_string(&item.path),
                                source: clone_string(&seen[j].1),
                                is_hard: true,
                            },
                        );
                        proof {
                            assert(links_view(links@) =~= st1.links);
                        }
                    },
                    None => {
                        let ghost seen0 = seen@;
                        files.push(File { path: clone_string(&item.path) });
                        content.push((clone_string(&item.path), clone_bytes(data)));
                        match file_id {
                            Some(id) => {
                                seen.push((*id, clone_string(&item.path)));
                            },
                            None => {},
                        }
                        proof {
                            assert(st1.content == st0.content.push((iv[i as int].path, data@)));
                            assert(files@.len() == st1.content.len());
                            assert forall|k: int| 0 <= k < files@.len() implies files_view(
                                files@,
                            )[k] == content_paths(st1.content)[k] by {
                                if k < files@.len() - 1 {
                                    assert(files_view(files@)[k] == files@[k]@);
                                    assert(files_view(files@.drop_last())[k] == files@.drop_last()[
                                        k
                                    ]@);
                                    assert(files@[k] == files@.drop_last()[k]);
                                    assert(files_view(files@.drop_last()) == content_paths(
                                        st0.content,
                                    ));
                                }
                            }
                            assert(files_view(files@) =~= content_paths(st1.content));
                            assert(crate::reader::content_view(content@) =~= st1.content);
                            assert forall|id2: FileId| st1.seen.contains_key(id2) implies exists|
                                j: int,
                            |
                                0 <= j < seen@.len() && (#[trigger] seen@[j]).0 == id2 by {
                                if st0.seen.contains_key(id2) {
                                    let w = choose|k: int|
                                        0 <= k < seen0.len() && (#[trigger] seen0[k]).0 == id2;
                                    assert(seen@[w].0 == id2);
                                } else {
                                    assert(seen@[seen@.len() - 1].0 == id2);
                                }
                            }
                        }
                    },
                }
            },
        }
        i = i + 1;
    }
    (files, links, content)
}


/// How many content files the first `n` entries can produce: at most one
/// each.
pub proof fn lemma_classify_content_len(items: Seq<WalkItemV>, n: int)
    requires
        0 <= n <= items.len(),
    ensures
        classify_upto(items, n).content.len() <= n,
    decreases n,
{
    if n > 0 {
        lemma_classify_content_len(items, n - 1);
    }
}

/// A run of chunk lengths whose every entry but the last is at least `m`
/// totals at least `m` for each such entry.
pub proof fn lemma_lens_min_bound(s: Seq<usize>, m: int, j: int)
    requires
        m >= 0,
        0 <= j < s.len(),
        forall|k: int| 0 <= k < s.len() - 1 ==> m <= #[trigger] s[k],
    ensures
        lens_total(s.take(j)) >= j * m,
    decreases j,
{
    if j > 0 {
        lemma_lens_min_bound(s, m, j - 1);
        crate::reader::lemma_lens_total_step(s, j - 1);
        assert(m <= s[j - 1]);
        assert(j * m == (j - 1) * m + m) by (nonlinear_arith);
    } else {
        assert(s.take(0) =~= Seq::<usize>::empty());
        assert(lens_total(Seq::<usize>::empty()) == 0);
    }
}

/// One dedup-cache entry: a chunk known from the base snapshot, keyed by
/// its digest, and, once it has been appended to the new manifest, the
/// index it got there.
struct CacheSlot {
    entry: Chunk,
    reused: Option<u32>,
}

/// The state of one dedup-cache entry: a base chunk not yet referenced by
/// the new manifest, or the index under which it was already appended.
pub enum CacheV {
    Available(ChunkV),
    Reused(u32),
}

spec fn slot_v(s: CacheSlot) -> CacheV {
    match s.reused {
        Some(ix) => CacheV::Reused(ix),
        None => CacheV::Available(s.entry@),
    }
}

spec fn cache_repr(v: Seq<CacheSlot>, m: Map<Seq<u8>, CacheV>) -> bool {
    &&& forall|j1: int, j2: int|
        0 <= j1 < j2 < v.len() ==> (#[trigger] v[j1]).entry.hash@ != (#[trigger] v[j2]).entry.hash@
    &&& forall|j: int|
        0 <= j < v.len() ==> m.contains_key((#[trigger] v[j]).entry.hash@) && m[v[j].entry.hash@]
            == slot_v(v[j])
    &&& forall|h: Seq<u8>|
        m.contains_key(h) ==> exists|j: int| 0 <= j < v.len() && (#[trigger] v[j]).entry.hash@ == h
    &&& forall|j: int| 0 <= j < v.len() ==> (#[trigger] v[j]).entry.hash@.len() == 32
}

/// The dedup cache a base snapshot's first `n` chunks build: each digest
/// maps to the last base chunk that bears it, still unreferenced.
pub open spec fn cache_of(chunks: Seq<ChunkV>, n: int) -> Map<Seq<u8>, CacheV>
    decreases n,
{
    if n <= 0 {
        Map::empty()
    } else {
        cache_of(chunks, n - 1).insert(chunks[n - 1].hash, CacheV::Available(chunks[n - 1]))
    }
}

/// The dedup cache at the start of a backup: built from the base
/// snapshot's chunks, or empty without one.
pub open spec fn init_cache(base: Option<SnapshotV>) -> Map<Seq<u8>, CacheV> {
    match base {
        Some(b) => cache_of(b.chunks, b.chunks.len() as int),
        None => Map::empty(),
    }
}

/// Every cached entry is one of the base snapshot's chunks.
pub proof fn lemma_cache_of_entries(chunks: Seq<ChunkV>, n: int)
    requires
        0 <= n <= chunks.len(),
    ensures
        forall|h: Seq<u8>|
            #![trigger cache_of(chunks, n).contains_key(h)]
            cache_of(chunks, n).contains_key(h) ==> match cache_of(chunks, n)[h] {
                CacheV::Available(e) => exists|k: int|
                    0 <= k < n && chunks[#[trigger] (k + 0)] == e && e.hash == h,
                CacheV::Reused(_) => false,
            },
    decreases n,
{
    if n > 0 {
        lemma_cache_of_entries(chunks, n - 1);
        let m = cache_of(chunks, n);
        let m0 = cache_of(chunks, n - 1);
        assert forall|h: Seq<u8>| m.contains_key(h) implies match m[h] {
            CacheV::Available(e) => exists|k: int|
                0 <= k < n && chunks[#[trigger] (k + 0)] == e && e.hash == h,
            CacheV::Reused(_) => false,
        } by {
            if h == chunks[n - 1].hash {
                assert(chunks[#[trigger] ((n - 1) + 0)] == chunks[n - 1]);
            } else {
                assert(m[h] == m0[h]);
                assert(m0.contains_key(h));
            }
        }
    }
}

pub(crate) fn bytes_eq(a: &Vec<u8>, b: &Vec<u8>) -> (r: bool)
    ensures
        r == (a@ == b@),
{
    if a.len() != b.len() {
        proof {
            assert(a@ != b@);
        }
        return false;
    }
    let mut i: usize = 0;
    while i < a.len()
        invariant
            0 <= i <= a@.len(),
            a@.len() == b@.len(),
            forall|k: int| 0 <= k < i ==> a@[k] == b@[k],
        decreases a@.len() - i,
    {
        if a[i] != b[i] {
            proof {
                assert(a@[i as int] != b@[i as int]);
            }
            return false;
        }
        i = i + 1;
    }
    proof {
        assert(a@ =~= b@);
    }
    true
}

fn clone_chunk(c: &Chunk) -> (r: Chunk)
    ensures
        r@ == c@,
{
    Chunk { hash: clone_bytes(&c.hash), location: clone_string(&c.location) }
}

/// The index of the cache entry whose digest is `hash`, if any.
fn cache_find(cache: &Vec<CacheSlot>, hash: &Vec<u8>) -> (r: Option<usize>)
    ensures
        match r {
            Some(j) => 0 <= j < cache@.len() && (cache@[j as int]).entry.hash@ == hash@,
            None => forall|k: int| 0 <= k < cache@.len() ==> (#[trigger] cache@[k]).entry.hash@ != hash@,
        },
{
    let mut j: usize = 0;
    while j < cache.len()
        invariant
            0 <= j <= cache@.len(),
            forall|k: int| 0 <= k < j ==> (#[trigger] cache@[k]).entry.hash@ != hash@,
        decreases cache@.len() - j,
    {
        if bytes_eq(&cache[j].entry.hash, hash) {
            return Some(j);
        }
        j = j + 1;
    }
    None
}

/// Builds the dedup cache from a base snapshot: one slot per digest, the
/// last chunk bearing it.
fn build_cache(base: &Snapshot) -> (r: Vec<CacheSlot>)
    requires
        forall|i: int| 0 <= i < base@.chunks.len() ==> (#[trigger] base@.chunks[i]).hash.len() == 32,
    ensures
        cache_repr(r@, init_cache(Some(base@))),
{
    let mut cache: Vec<CacheSlot> = Vec::new();
    let mut i: usize = 0;
    while i < base.chunks.len()
        invariant
            0 <= i <= base.chunks@.len(),
            base@.chunks.len() == base.chunks@.len(),
            forall|k: int|
                0 <= k < base@.chunks.len() ==> (#[trigger] base@.chunks[k]).hash.len() == 32,
            cache_repr(cache@, cache_of(base@.chunks, i as int)),
        decreases base.chunks@.len() - i,
    {
        let ghost m0 = cache_of(base@.chunks, i as int);
        let ghost m1 = cache_of(base@.chunks, i as int + 1);
        proof {
            assert(base@.chunks[i as int] == base.chunks@[i as int]@);
        }
        let entry = clone_chunk(&base.chunks[i]);
        let slot = CacheSlot { entry, reused: None };
        match cache_find(&cache, &base.chunks[i].hash) {
            Some(j) => {
                let ghost pre = cache@;
                cache.set(j, slot);
                proof {
                    assert forall|h: Seq<u8>| m1.contains_key(h) implies exists|k: int|
                        0 <= k < cache@.len() && (#[trigger] cache@[k]).entry.hash@ == h by {
                        if h == base@.chunks[i as int].hash {
                            assert(cache@[j as int].entry.hash@ == h);
                        } else {
                            assert(m0.contains_key(h));
                            let w = choose|k: int|
                                0 <= k < pre.len() && (#[trigger] pre[k]).entry.hash@ == h;
                            assert(cache@[w].entry.hash@ == h);
                        }
                    }
                }
            },
            None => {
                let ghost pre = cache@;
                cache.push(slot);
                proof {
                    assert forall|h: Seq<u8>| m1.contains_key(h) implies exists|k: int|
                        0 <= k < cache@.len() && (#[trigger] cache@[k]).entry.hash@ == h by {
                        if h == base@.chunks[i as int].hash {
                            assert(cache@[cache@.len() - 1].entry.hash@ == h);
                        } else {
                            assert(m0.contains_key(h));
                            let w = choose|k: int|
                                0 <= k < pre.len() && (#[trigger] pre[k]).entry.hash@ == h;
                            assert(cache@[w].entry.hash@ == h);
                        }
                    }
                }
            },
        }
        i = i + 1;
    }
    cache
}

/// The running state of the chunk loop: the manifest's chunk entries and
/// rows so far, the dedup cache, and the blob store's bytes.
pub struct PipeV {
    pub chunks: Seq<ChunkV>,
    pub rows: Seq<FileChunk>,
    pub cache: Map<Seq<u8>, CacheV>,
    pub store: Seq<u8>,
}

/// The rows one chunk contributes: one per share, in share order, with the
/// running offset inside the chunk.
pub open spec fn chunk_rows(ps: Seq<SourcePiece>, ci: int) -> Seq<FileChunk> {
    Seq::new(
        ps.len(),
        |i: int| FileChunk {
            chunk_index: ci as u32,
            file_index: ps[i].file as u32,
            chunk_offset: pieces_total(ps.take(i)) as u32,
            file_offset: ps[i].offset as u64,
            length: ps[i].length as u32,
        },
    )
}

/// One chunk through the dedup gate. A digest already available from the
/// base reuses that chunk's entry verbatim and uploads nothing; a digest
/// already referenced reuses its index; a new digest appends the chunk's
/// bytes to the store under a fresh key.
pub open spec fn pipe_step(st: PipeV, bytes: Seq<u8>, ps: Seq<SourcePiece>) -> PipeV {
    let h = blake3_of(bytes);
    if st.cache.contains_key(h) {
        match st.cache[h] {
            CacheV::Available(entry) => {
                let ci = st.chunks.len() as int;
                PipeV {
                    chunks: st.chunks.push(entry),
                    rows: st.rows + chunk_rows(ps, ci),
                    cache: st.cache.insert(h, CacheV::Reused(ci as u32)),
                    store: st.store,
                }
            },
            CacheV::Reused(ix) => PipeV {
                chunks: st.chunks,
                rows: st.rows + chunk_rows(ps, ix as int),
                cache: st.cache,
                store: st.store,
            },
        }
    } else {
        let ci = st.chunks.len() as int;
        let entry = ChunkV {
            hash: h,
            location: spec_encode_key(st.store.len() as u64, bytes.len() as u64),
        };
        PipeV {
            chunks: st.chunks.push(entry),
            rows: st.rows + chunk_rows(ps, ci),
            cache: st.cache,
            store: st.store + bytes,
        }
    }
}

/// The chunk loop's state after the first `j` chunks of the global stream.
pub open spec fn pipe_upto(
    content: Seq<(Seq<char>, Seq<u8>)>,
    lens: Seq<usize>,
    base: Option<SnapshotV>,
    store0: Seq<u8>,
    j: int,
) -> PipeV
    decreases j,
{
    if j <= 0 {
        PipeV { chunks: Seq::empty(), rows: Seq::empty(), cache: init_cache(base), store: store0 }
    } else {
        let st = pipe_upto(content, lens, base, store0, j - 1);
        let lo = lens_total(lens.take(j - 1));
        let hi = lo + lens[j - 1];
        let bytes = concat_all(content).subrange(lo, hi);
        let ps = spec_resolve(content_pairs(content), lo, hi);
        pipe_step(st, bytes, ps)
    }
}

/// The manifest one backup run produces, as a function of the walked
/// entries, the cut parameters, the base snapshot, and the store's prior
/// bytes.
pub open spec fn spec_backup_snapshot(
    items: Seq<WalkItemV>,
    config: ChunkerConfig,
    base: Option<SnapshotV>,
    store0: Seq<u8>,
) -> SnapshotV {
    let st = spec_classify(items);
    let content = st.content;
    let lens = cdc_lengths(
        concat_all(content),
        config.min_size,
        config.avg_size,
        config.max_size,
    );
    let pipe = pipe_upto(content, lens, base, store0, lens.len() as int);
    SnapshotV {
        files: content_paths(content),
        chunks: pipe.chunks,
        file_chunks: pipe.rows,
        file_symlink: st.links,
    }
}

/// The chunk-loop state a backup run ends with.
pub open spec fn spec_backup_pipe(
    items: Seq<WalkItemV>,
    config: ChunkerConfig,
    base: Option<SnapshotV>,
    store0: Seq<u8>,
) -> PipeV {
    let st = spec_classify(items);
    let content = st.content;
    let lens = cdc_lengths(
        concat_all(content),
        config.min_size,
        config.avg_size,
        config.max_size,
    );
    pipe_upto(content, lens, base, store0, lens.len() as int)
}


/// The machine limits a backup run needs: paths distinct and few enough to
/// index with a `u32`, cut parameters the chunker accepts, and a global
/// stream short enough that every chunk gets a `u32` index and the stream
/// fits in memory.
pub open spec fn backup_requires(items: Seq<WalkItemV>, config: ChunkerConfig) -> bool {
    let content = spec_classify(items).content;
    let total = prefix_len(content_pairs(content), content.len() as int);
    &&& crate::reader::config_valid(config)
    &&& distinct_paths(items)
    &&& items.len() <= u32::MAX
    &&& total <= usize::MAX
    &&& total <= (u32::MAX as int) * (config.min_size as int)
}

/// What a finished backup run guarantees: the manifest is the mathematical
/// backup of the walked entries, the store grew by exactly the fresh chunk
/// bytes and then the encoded manifest, and the returned key names that
/// manifest blob.
pub open spec fn backup_ensures(
    items: Seq<WalkItemV>,
    config: ChunkerConfig,
    base: Option<SnapshotV>,
    store0: Seq<u8>,
    snapshot: SnapshotV,
    key: Seq<char>,
    store1: Seq<u8>,
) -> bool {
    let sv = spec_backup_snapshot(items, config, base, store0);
    let pipe = spec_backup_pipe(items, config, base, store0);
    &&& snapshot == sv
    &&& crate::codec::wf_codec(sv)
    &&& store1 == pipe.store + crate::codec::spec_encode_snapshot(sv)
    &&& key == spec_encode_key(
        pipe.store.len() as u64,
        crate::codec::spec_encode_snapshot(sv).len() as u64,
    )
}

/// The file at or after `start` whose path is `path`.
fn cursor_find(files: &Vec<File>, start: usize, path: &String) -> (r: usize)
    requires
        exists|f: int|
            start <= f < files@.len() && (#[trigger] files@[f])@ == path@,
    ensures
        start <= r < files@.len(),
        files@[r as int]@ == path@,
        forall|k: int| start <= k < r ==> (#[trigger] files@[k])@ != path@,
{
    let ghost f0 = choose|f: int| start <= f < files@.len() && (#[trigger] files@[f])@ == path@;
    let mut k: usize = start;
    while k < files.len()
        invariant
            start <= k <= files@.len(),
            k <= f0 < files@.len(),
            files@[f0]@ == path@,
            forall|j: int| start <= j < k ==> (#[trigger] files@[j])@ != path@,
        decreases files@.len() - k,
    {
        if files[k].path == *path {
            return k;
        }
        k = k + 1;
    }
    proof {
        assert(false);
    }
    0
}

/// One chunk through the dedup gate, executably: decides reuse against the
/// cache, appends fresh bytes to the store, and returns the chunk's index
/// in the manifest.
fn dedup_chunk(
    chunks: &mut Vec<Chunk>,
    cache: &mut Vec<CacheSlot>,
    store: &mut BlobStore,
    data: &Vec<u8>,
    Ghost(pipe_j): Ghost<PipeV>,
    Ghost(ps): Ghost<Seq<SourcePiece>>,
) -> (ci: u32)
    requires
        crate::codec::chunks_view(old(chunks)@) == pipe_j.chunks,
        cache_repr(old(cache)@, pipe_j.cache),
        old(store)@ == pipe_j.store,
        old(chunks)@.len() <= u32::MAX,
        forall|i: int|
            0 <= i < old(chunks)@.len() ==> (#[trigger] old(chunks)@[i])@.hash.len() == 32,
    ensures
        ({
            let nxt = pipe_step(pipe_j, data@, ps);
            &&& crate::codec::chunks_view(final(chunks)@) == nxt.chunks
            &&& cache_repr(final(cache)@, nxt.cache)
            &&& final(store)@ == nxt.store
            &&& nxt.rows == pipe_j.rows + chunk_rows(ps, ci as int)
            &&& final(chunks)@.len() <= old(chunks)@.len() + 1
            &&& forall|i: int|
                0 <= i < final(chunks)@.len() ==> (#[trigger] final(chunks)@[i])@.hash.len() == 32
        }),
{
    let ghost h = blake3_of(data@);
    let ghost nxt = pipe_step(pipe_j, data@, ps);
    let hash = blake3_hash(data);
    let found = cache_find(cache, &hash);
    match found {
        Some(sj) => {
            proof {
                assert(pipe_j.cache.contains_key(h));
                assert(pipe_j.cache[h] == slot_v(cache@[sj as int]));
            }
            let reused = cache[sj].reused;
            match reused {
                Some(ix) => {
                    proof {
                        assert(nxt.chunks == pipe_j.chunks);
                        assert(nxt.store == pipe_j.store);
                        assert(nxt.cache == pipe_j.cache);
                        assert(nxt.rows == pipe_j.rows + chunk_rows(ps, ix as int));
                    }
                    ix
                },
                None => {
                    let ix = chunks.len() as u32;
                    let entry_for_snapshot = clone_chunk(&cache[sj].entry);
                    let entry_for_cache = clone_chunk(&cache[sj].entry);
                    let ghost cache_pre = cache@;
                    chunks.push(entry_for_snapshot);
                    cache.set(sj, CacheSlot { entry: entry_for_cache, reused: Some(ix) });
                    proof {
                        assert(crate::codec::chunks_view(chunks@) =~= nxt.chunks);
                        assert(cache_repr(cache@, nxt.cache)) by {
                            assert forall|hh: Seq<u8>|
                                nxt.cache.contains_key(hh) implies exists|k: int|
                                0 <= k < cache@.len() && (#[trigger] cache@[k]).entry.hash@
                                    == hh by {
                                assert(pipe_j.cache.contains_key(hh));
                                let w = choose|k: int|
                                    0 <= k < cache_pre.len() && (
                                    #[trigger] cache_pre[k]).entry.hash@ == hh;
                                assert(cache@[w].entry.hash@ == hh);
                            }
                        }
                    }
                    ix
                },
            }
        },
        None => {
            proof {
                if pipe_j.cache.contains_key(h) {
                    let w = choose|k: int|
                        0 <= k < cache@.len() && (#[trigger] cache@[k]).entry.hash@ == h;
                    assert(false);
                }
            }
            let ix = chunks.len() as u32;
            let key = store.put(data);
            chunks.push(Chunk { hash, location: key });
            proof {
                assert(crate::codec::chunks_view(chunks@) =~= nxt.chunks);
            }
            ix
        },
    }
}

/// The rows one chunk contributes, executably: walks the monotone file
/// cursor to each share's file and appends one row per share.
fn emit_rows(
    rows: &mut Vec<FileChunk>,
    files: &Vec<File>,
    cursor: &mut usize,
    sources: &Vec<ChunkSource>,
    ci: u32,
    Ghost(ps): Ghost<Seq<SourcePiece>>,
    Ghost(pairs): Ghost<Seq<(Seq<char>, nat)>>,
    Ghost(content_v): Ghost<Seq<(Seq<char>, Seq<u8>)>>,
    Ghost(lo): Ghost<int>,
    Ghost(hi): Ghost<int>,
)
    requires
        ps == spec_resolve(pairs, lo, hi),
        pairs == content_pairs(content_v),
        0 <= lo <= hi,
        hi <= prefix_len(pairs, pairs.len() as int),
        hi - lo <= u32::MAX,
        files_view(files@) == content_paths(content_v),
        files@.len() == content_v.len(),
        content_v.len() <= u32::MAX,
        forall|i1: int, i2: int|
            0 <= i1 < i2 < content_v.len() ==> (#[trigger] content_v[i1]).0 != (
            #[trigger] content_v[i2]).0,
        *old(cursor) <= content_v.len(),
        prefix_len(pairs, *old(cursor) as int) <= lo,
        sources@.len() == ps.len(),
        forall|j2: int|
            0 <= j2 < ps.len() ==> {
                &&& (#[trigger] sources@[j2]).path@ == pairs[ps[j2].file].0
                &&& sources@[j2].offset as int == ps[j2].offset
                &&& sources@[j2].length as int == ps[j2].length
            },
    ensures
        final(rows)@ == old(rows)@ + chunk_rows(ps, ci as int),
        *final(cursor) <= content_v.len(),
        prefix_len(pairs, *final(cursor) as int) <= hi,
{
    proof {
        crate::reader::lemma_resolve_validity(pairs, lo, hi, 0);
        crate::reader::lemma_resolve_tiling(pairs, lo, hi, 0);
        assert(crate::reader::span_start_from(pairs, lo, hi, 0) == lo);
        assert(rows@ + chunk_rows(ps, ci as int).take(0) =~= rows@);
    }
    let ghost rows0 = rows@;
    let mut chunk_offset: u32 = 0;
    let mut t: usize = 0;
    while t < sources.len()
        invariant
            0 <= t <= sources@.len(),
            sources@.len() == ps.len(),
            ps == spec_resolve(pairs, lo, hi),
            pairs == content_pairs(content_v),
            0 <= lo <= hi,
            hi <= prefix_len(pairs, pairs.len() as int),
            hi - lo <= u32::MAX,
            files_view(files@) == content_paths(content_v),
            files@.len() == content_v.len(),
            content_v.len() <= u32::MAX,
            forall|i1: int, i2: int|
                0 <= i1 < i2 < content_v.len() ==> (#[trigger] content_v[i1]).0 != (
                #[trigger] content_v[i2]).0,
            forall|j2: int|
                0 <= j2 < ps.len() ==> {
                    &&& (#[trigger] sources@[j2]).path@ == pairs[ps[j2].file].0
                    &&& sources@[j2].offset as int == ps[j2].offset
                    &&& sources@[j2].length as int == ps[j2].length
                },
            forall|j2: int|
                0 <= j2 < ps.len() ==> {
                    let p = #[trigger] ps[j2];
                    &&& 0 <= p.file < content_v.len()
                    &&& 0 <= p.offset
                    &&& p.length > 0
                    &&& p.offset + p.length <= pairs[p.file].1
                },
            forall|j2: int|
                0 <= j2 < ps.len() ==> prefix_len(pairs, (#[trigger] ps[j2]).file) + ps[j2].offset
                    == lo + pieces_total(ps.take(j2)),
            pieces_total(ps) == hi - lo,
            rows@ == rows0 + chunk_rows(ps, ci as int).take(t as int),
            chunk_offset as int == pieces_total(ps.take(t as int)),
            *cursor <= content_v.len(),
            prefix_len(pairs, *cursor as int) <= lo + chunk_offset,
        decreases sources@.len() - t,
    {
        let ghost p = ps[t as int];
        proof {
            crate::reader::lemma_pieces_total_take_le(ps, t as int);
            crate::reader::lemma_pieces_total_step(ps, t as int);
            crate::reader::lemma_pieces_total_take_le(ps, t as int + 1);
            crate::reader::lemma_prefix_len_mono(pairs, p.file + 1, content_v.len() as int);
            assert(prefix_len(pairs, p.file + 1) == prefix_len(pairs, p.file) + pairs[p.file].1);
            if *cursor as int > p.file {
                crate::reader::lemma_prefix_len_mono(pairs, p.file + 1, *cursor as int);
                assert(false);
            }
            assert(files_view(files@)[p.file] == content_v[p.file].0);
            assert(sources@[t as int].path@ == content_v[p.file].0);
        }
        let source = &sources[t];
        let fi = cursor_find(files, *cursor, &source.path);
        proof {
            assert(files_view(files@)[fi as int] == content_v[fi as int].0);
            if fi as int != p.file {
                assert(content_v[fi as int].0 == content_v[p.file].0);
                assert(false);
            }
        }
        *cursor = fi;
        rows.push(
            FileChunk {
                chunk_index: ci,
                file_index: fi as u32,
                chunk_offset,
                file_offset: source.offset,
                length: source.length,
            },
        );
        proof {
            assert(chunk_rows(ps, ci as int).take(t as int + 1) =~= chunk_rows(ps, ci as int).take(
                t as int,
            ).push(chunk_rows(ps, ci as int)[t as int]));
            assert(rows@ =~= rows0 + chunk_rows(ps, ci as int).take(t as int + 1));
        }
        chunk_offset = chunk_offset + source.length;
        t = t + 1;
    }
    proof {
        assert(chunk_rows(ps, ci as int).take(ps.len() as int) =~= chunk_rows(ps, ci as int));
        assert(ps.take(ps.len() as int) =~= ps);
    }
}

/// One backup run over entries that the walker has already read into plain
/// values. Classifies the entries, cuts the global stream into chunks,
/// reuses chunks the base snapshot already stores, appends only new chunk
/// bytes, writes the manifest as its own blob, and returns the manifest
/// and its root key.
pub fn backup_with(
    items: &Vec<WalkItem>,
    base: Option<&Snapshot>,
    store: &mut BlobStore,
    config: &ChunkerConfig,
) -> (r: (Snapshot, String))
    requires
        backup_requires(items_view(items@), *config),
        match base {
            Some(b) => forall|i: int|
                0 <= i < b@.chunks.len() ==> (#[trigger] b@.chunks[i]).hash.len() == 32,
            None => true,
        },
    ensures
        backup_ensures(
            items_view(items@),
            *config,
            match base {
                Some(b) => Some(b@),
                None => None,
            },
            old(store)@,
            r.0@,
            r.1@,
            final(store)@,
        ),
{
    let ghost iv = items_view(items@);
    let ghost st = spec_classify(iv);
    let ghost bv: Option<SnapshotV> = match base {
        Some(b) => Some(b@),
        None => None,
    };
    let ghost store0 = store@;

    let (files, links, content) = classify_items(items);
    let ghost content_v = st.content;
    let ghost pairs = content_pairs(content_v);
    proof {
        lemma_classify_content_len(iv, iv.len() as int);
        lemma_classify_distinct(iv, iv.len() as int);
        assert(content_view(content@) == content_v);
        assert(prefix_len(pairs, content_v.len() as int) <= u64::MAX);
    }

    let mut chunker = Chunker::new(&content, config);
    let ghost stream = concat_all(content_v);
    let ghost lens = cdc_lengths(stream, config.min_size, config.avg_size, config.max_size);
    let n = chunker.chunk_count();
    proof {
        crate::reader::lemma_concat_len(content_v, 0);
        if n > 0 {
            lemma_lens_min_bound(lens, config.min_size as int, n as int - 1);
            crate::reader::lemma_lens_total_take_le(lens, n as int - 1);
            assert((n - 1) as int * (config.min_size as int) <= (u32::MAX as int) * (
            config.min_size as int));
            assert((n - 1) as int <= u32::MAX) by (nonlinear_arith)
                requires
                    (n - 1) as int * (config.min_size as int) <= (u32::MAX as int) * (
                    config.min_size as int),
                    config.min_size >= 64,
            ;
        }
    }

    let mut cache: Vec<CacheSlot> = match base {
        Some(b) => build_cache(b),
        None => Vec::new(),
    };
    proof {
        match bv {
            Some(_) => {},
            None => {
                assert(cache_repr(cache@, init_cache(bv)));
            },
        }
    }

    let mut snapshot = Snapshot {
        files,
        chunks: Vec::new(),
        file_chunks: Vec::new(),
        file_symlink: links,
    };
    let mut cursor: usize = 0;
    let mut j: usize = 0;
    proof {
        assert(lens.take(0) =~= Seq::<usize>::empty());
        assert(lens_total(Seq::<usize>::empty()) == 0);
    }
    while j < n
        invariant
            chunker.wf(),
            chunker.spec_registry() == pairs,
            chunker.spec_stream() == stream,
            chunker.spec_lengths() == lens,
            chunker.spec_emitted() == j,
            n == lens.len(),
            n - 1 <= u32::MAX,
            0 <= j <= n,
            iv == items_view(items@),
            st == spec_classify(iv),
            content_v == st.content,
            pairs == content_pairs(content_v),
            stream == concat_all(content_v),
            lens == cdc_lengths(stream, config.min_size, config.avg_size, config.max_size),
            lens_total(lens) == stream.len(),
            crate::reader::config_valid(*config),
            forall|k: int| 0 <= k < lens.len() ==> #[trigger] lens[k] <= config.max_size,
            distinct_paths(iv),
            forall|i1: int, i2: int|
                0 <= i1 < i2 < content_v.len() ==> (#[trigger] content_v[i1]).0 != (
                #[trigger] content_v[i2]).0,
            content_v.len() <= u32::MAX,
            stream.len() == prefix_len(pairs, content_v.len() as int),
            files_view(snapshot.files@) == content_paths(content_v),
            snapshot.files@.len() == content_v.len(),
            links_view(snapshot.file_symlink@) == st.links,
            ({
                let pipe = pipe_upto(content_v, lens, bv, store0, j as int);
                &&& crate::codec::chunks_view(snapshot.chunks@) == pipe.chunks
                &&& snapshot.file_chunks@ == pipe.rows
                &&& store@ == pipe.store
                &&& cache_repr(cache@, pipe.cache)
            }),
            snapshot.chunks@.len() <= j,
            forall|i: int|
                0 <= i < snapshot.chunks@.len() ==> (#[trigger] snapshot.chunks@[i])@.hash.len()
                    == 32,
            cursor <= content_v.len(),
            prefix_len(pairs, cursor as int) <= lens_total(lens.take(j as int)),
        decreases n - j,
    {
        let ghost pipe_j = pipe_upto(content_v, lens, bv, store0, j as int);
        let ghost lo = lens_total(lens.take(j as int));
        let ghost hi = lo + lens[j as int];
        let ghost bytes = stream.subrange(lo, hi);
        let ghost ps = spec_resolve(pairs, lo, hi);
        proof {
            crate::reader::lemma_lens_total_step(lens, j as int);
            crate::reader::lemma_lens_total_take_le(lens, j as int + 1);
            crate::reader::lemma_lens_total_take_le(lens, j as int);
            assert(hi <= stream.len());
            assert(pairs.len() == content_v.len());
        }
        let chunk = match chunker.next() {
            Some(c) => c,
            None => {
                proof {
                    assert(false);
                }
                crate::reader::Chunk { sources: Vec::new(), data: Vec::new() }
            },
        };
        let ci = dedup_chunk(
            &mut snapshot.chunks,
            &mut cache,
            store,
            &chunk.data,
            Ghost(pipe_j),
            Ghost(ps),
        );
        proof {
            assert(pipe_upto(content_v, lens, bv, store0, j as int + 1) == pipe_step(
                pipe_j,
                bytes,
                ps,
            ));
            assert(chunk.data@ == bytes);
        }
        emit_rows(
            &mut snapshot.file_chunks,
            &snapshot.files,
            &mut cursor,
            &chunk.sources,
            ci,
            Ghost(ps),
            Ghost(pairs),
            Ghost(content_v),
            Ghost(lo),
            Ghost(hi),
        );
        proof {
            assert(snapshot.file_chunks@ == pipe_step(pipe_j, bytes, ps).rows);
            assert(hi == lens_total(lens.take(j as int + 1)));
        }
        j = j + 1;
    }

    let ghost pipe = spec_backup_pipe(iv, *config, bv, store0);
    let ghost sv = spec_backup_snapshot(iv, *config, bv, store0);
    proof {
        assert(snapshot@.files =~= content_paths(content_v));
        assert(snapshot@.chunks =~= pipe.chunks);
        assert(snapshot@.file_symlink =~= st.links);
        assert(snapshot@ == sv);
    }
    let encoded = crate::codec::encode_snapshot(&snapshot);
    let key = store.put(&encoded);
    (snapshot, key)
}


/// One backup run against an optional base snapshot named by its root key.
/// Loads and decodes the base snapshot first; a key that does not resolve
/// or a blob that does not decode fails the run before anything is written.
pub fn backup(
    items: &Vec<WalkItem>,
    base_key: Option<&String>,
    store: &mut BlobStore,
    config: &ChunkerConfig,
) -> (r: Result<(Snapshot, String), crate::error::Error>)
    requires
        backup_requires(items_view(items@), *config),
    ensures
        match base_key {
            None => {
                &&& r is Ok
                &&& backup_ensures(
                    items_view(items@),
                    *config,
                    None,
                    old(store)@,
                    r->Ok_0.0@,
                    r->Ok_0.1@,
                    final(store)@,
                )
            },
            Some(k) => match crate::codec::spec_load_snapshot(old(store)@, k@) {
                Some(bsv) => {
                    &&& r is Ok
                    &&& backup_ensures(
                        items_view(items@),
                        *config,
                        Some(bsv),
                        old(store)@,
                        r->Ok_0.0@,
                        r->Ok_0.1@,
                        final(store)@,
                    )
                },
                None => {
                    &&& r == Err::<(Snapshot, String), crate::error::Error>(
                        crate::codec::spec_load_error(old(store)@, k@),
                    )
                    &&& final(store)@ == old(store)@
                },
            },
        },
{
    match base_key {
        None => Ok(backup_with(items, None, store, config)),
        Some(k) => {
            let base = match crate::codec::load_snapshot(store, k) {
                Ok(b) => b,
                Err(e) => {
                    return Err(e);
                },
            };
            proof {
                match crate::storage::spec_parse_key(k@) {
                    Some(ol) => {
                        crate::codec::lemma_decoded_hashes(
                            store@.subrange(ol.0 as int, ol.0 + ol.1),
                        );
                    },
                    None => {},
                }
            }
            Ok(backup_with(items, Some(&base), store, config))
        },
    }
}
} // verus!
