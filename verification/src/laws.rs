//! The laws the pipelines obey, stated over the same specification
//! functions the pipelines' own contracts use and proved once and for all:
//! backups are deterministic; a backup against its own snapshot appends no
//! chunk bytes and copies every chunk entry from it; every recorded digest
//! matches its stored bytes; each file's rows tile its byte range exactly;
//! restoring what a backup wrote yields every file's bytes back; restoring
//! a snapshot twice yields the same tree; and every manifest a backup
//! writes satisfies the structural invariant.

use vstd::prelude::*;

use crate::backup::{
    cache_of, chunk_rows, init_cache, lemma_cache_of_entries, pipe_upto, spec_backup_pipe,
    spec_backup_snapshot, CacheV, WalkItemV,
};
use crate::digest::blake3_of;
use crate::metadata::{ChunkV, FileChunk, SnapshotV};
use crate::reader::{
    cdc_lengths, concat_all, content_pairs, lens_total, pieces_total, prefix_len, spec_resolve,
    ChunkerConfig,
};
use crate::storage::{spec_encode_key, spec_parse_key};

verus! {

/// Every chunk entry's key names bytes in the store that hash to the
/// entry's digest.
pub open spec fn hash_consistent(chunks: Seq<ChunkV>, store: Seq<u8>) -> bool {
    forall|i: int|
        0 <= i < chunks.len() ==> match spec_parse_key((#[trigger] chunks[i]).location) {
            Some(ol) => ol.0 + ol.1 <= store.len() && blake3_of(
                store.subrange(ol.0 as int, ol.0 + ol.1),
            ) == chunks[i].hash,
            None => false,
        }
}

/// Every available cache entry's key names bytes in the store that hash to
/// the entry's digest.
pub open spec fn cache_consistent(cache: Map<Seq<u8>, CacheV>, store: Seq<u8>) -> bool {
    forall|h: Seq<u8>|
        #![trigger cache.contains_key(h)]
        cache.contains_key(h) ==> match cache[h] {
            CacheV::Available(e) => match spec_parse_key(e.location) {
                Some(ol) => ol.0 + ol.1 <= store.len() && blake3_of(
                    store.subrange(ol.0 as int, ol.0 + ol.1),
                ) == e.hash,
                None => false,
            },
            CacheV::Reused(_) => true,
        }
}

/// Appending to the store never invalidates a consistent chunk list.
proof fn lemma_hash_consistent_append(chunks: Seq<ChunkV>, store: Seq<u8>, tail: Seq<u8>)
    requires
        hash_consistent(chunks, store),
    ensures
        hash_consistent(chunks, store + tail),
{
    assert forall|i: int|
        0 <= i < chunks.len() implies match spec_parse_key((#[trigger] chunks[i]).location) {
        Some(ol) => ol.0 + ol.1 <= (store + tail).len() && blake3_of(
            (store + tail).subrange(ol.0 as int, ol.0 + ol.1),
        ) == chunks[i].hash,
        None => false,
    } by {
        match spec_parse_key(chunks[i].location) {
            Some(ol) => {
                assert((store + tail).subrange(ol.0 as int, ol.0 + ol.1) =~= store.subrange(
                    ol.0 as int,
                    ol.0 + ol.1,
                ));
            },
            None => {},
        }
    }
}

/// Appending to the store never invalidates a consistent cache.
proof fn lemma_cache_consistent_append(cache: Map<Seq<u8>, CacheV>, store: Seq<u8>, tail: Seq<u8>)
    requires
        cache_consistent(cache, store),
    ensures
        cache_consistent(cache, store + tail),
{
    assert forall|h: Seq<u8>| cache.contains_key(h) implies match cache[h] {
        CacheV::Available(e) => match spec_parse_key(e.location) {
            Some(ol) => ol.0 + ol.1 <= (store + tail).len() && blake3_of(
                (store + tail).subrange(ol.0 as int, ol.0 + ol.1),
            ) == e.hash,
            None => false,
        },
        CacheV::Reused(_) => true,
    } by {
        match cache[h] {
            CacheV::Available(e) => {
                match spec_parse_key(e.location) {
                    Some(ol) => {
                        assert((store + tail).subrange(ol.0 as int, ol.0 + ol.1)
                            =~= store.subrange(ol.0 as int, ol.0 + ol.1));
                    },
                    None => {},
                }
            },
            CacheV::Reused(_) => {},
        }
    }
}

/// A cache built from a consistent chunk list is consistent.
proof fn lemma_cache_of_consistent(chunks: Seq<ChunkV>, store: Seq<u8>, n: int)
    requires
        0 <= n <= chunks.len(),
        hash_consistent(chunks, store),
    ensures
        cache_consistent(cache_of(chunks, n), store),
    decreases n,
{
    if n > 0 {
        lemma_cache_of_consistent(chunks, store, n - 1);
    }
}

/// The chunk loop keeps both the manifest's chunk list and the cache
/// consistent with the growing store.
proof fn lemma_pipe_consistent(
    content: Seq<(Seq<char>, Seq<u8>)>,
    lens: Seq<usize>,
    base: Option<SnapshotV>,
    store0: Seq<u8>,
    j: int,
)
    requires
        0 <= j <= lens.len(),
        match base {
            Some(b) => hash_consistent(b.chunks, store0),
            None => true,
        },
        store0.len() + lens_total(lens) <= u64::MAX,
        lens_total(lens) <= concat_all(content).len(),
        forall|k: int| 0 <= k < lens.len() ==> lens_total(lens.take(k)) + #[trigger] lens[k]
            <= concat_all(content).len(),
        forall|k: int|
            0 <= k <= lens.len() ==> #[trigger] lens_total(lens.take(k)) >= 0 && lens_total(
                lens.take(k),
            ) <= lens_total(lens),
    ensures
        ({
            let pipe = pipe_upto(content, lens, base, store0, j);
            &&& hash_consistent(pipe.chunks, pipe.store)
            &&& cache_consistent(pipe.cache, pipe.store)
            &&& pipe.store.len() <= store0.len() + lens_total(lens.take(j))
            &&& store0.len() <= pipe.store.len()
        }),
    decreases j,
{
    if j == 0 {
        match base {
            Some(b) => {
                lemma_cache_of_consistent(b.chunks, store0, b.chunks.len() as int);
            },
            None => {},
        }
    } else {
        lemma_pipe_consistent(content, lens, base, store0, j - 1);
        crate::reader::lemma_lens_total_step(lens, j - 1);
        let st = pipe_upto(content, lens, base, store0, j - 1);
        let nxt = pipe_upto(content, lens, base, store0, j);
        let lo = lens_total(lens.take(j - 1));
        let hi = lo + lens[j - 1];
        let bytes = concat_all(content).subrange(lo, hi);
        let ps = spec_resolve(content_pairs(content), lo, hi);
        let h = blake3_of(bytes);
        assert(0 <= lo && hi <= concat_all(content).len());
        assert(bytes.len() == hi - lo);
        if st.cache.contains_key(h) {
            match st.cache[h] {
                CacheV::Available(entry) => {
                    assert(cache_consistent(nxt.cache, nxt.store)) by {
                        assert forall|h2: Seq<u8>| nxt.cache.contains_key(h2) implies match nxt.cache[h2] {
                            CacheV::Available(e) => match spec_parse_key(e.location) {
                                Some(ol) => ol.0 + ol.1 <= nxt.store.len() && blake3_of(
                                    nxt.store.subrange(ol.0 as int, ol.0 + ol.1),
                                ) == e.hash,
                                None => false,
                            },
                            CacheV::Reused(_) => true,
                        } by {
                            if h2 != h {
                                assert(st.cache.contains_key(h2));
                                assert(nxt.cache[h2] == st.cache[h2]);
                            }
                        }
                    }
                    assert(hash_consistent(nxt.chunks, nxt.store)) by {
                        assert forall|i: int|
                            0 <= i < nxt.chunks.len() implies match spec_parse_key(
                            (#[trigger] nxt.chunks[i]).location,
                        ) {
                            Some(ol) => ol.0 + ol.1 <= nxt.store.len() && blake3_of(
                                nxt.store.subrange(ol.0 as int, ol.0 + ol.1),
                            ) == nxt.chunks[i].hash,
                            None => false,
                        } by {
                            if i < st.chunks.len() {
                                assert(nxt.chunks[i] == st.chunks[i]);
                            } else {
                                assert(nxt.chunks[i] == entry);
                            }
                        }
                    }
                },
                CacheV::Reused(_) => {},
            }
        } else {
            let entry = ChunkV {
                hash: h,
                location: spec_encode_key(st.store.len() as u64, bytes.len() as u64),
            };
            crate::storage::lemma_key_roundtrip(st.store.len() as u64, bytes.len() as u64);
            lemma_hash_consistent_append(st.chunks, st.store, bytes);
            lemma_cache_consistent_append(st.cache, st.store, bytes);
            assert(nxt.store.subrange(st.store.len() as int, st.store.len() + bytes.len() as int)
                =~= bytes);
            assert(hash_consistent(nxt.chunks, nxt.store)) by {
                assert forall|i: int|
                    0 <= i < nxt.chunks.len() implies match spec_parse_key(
                    (#[trigger] nxt.chunks[i]).location,
                ) {
                    Some(ol) => ol.0 + ol.1 <= nxt.store.len() && blake3_of(
                        nxt.store.subrange(ol.0 as int, ol.0 + ol.1),
                    ) == nxt.chunks[i].hash,
                    None => false,
                } by {
                    if i < st.chunks.len() {
                        assert(nxt.chunks[i] == st.chunks[i]);
                    } else {
                        assert(nxt.chunks[i] == entry);
                    }
                }
            }
        }
    }
}

/// Hash consistency: every chunk entry a backup records names stored bytes
/// whose BLAKE3 digest is the entry's recorded digest — against a base
/// snapshot, too, provided the base's own entries were consistent.
pub proof fn lemma_backup_hash_consistent(
    items: Seq<WalkItemV>,
    config: ChunkerConfig,
    base: Option<SnapshotV>,
    store0: Seq<u8>,
    store1: Seq<u8>,
)
    requires
        match base {
            Some(b) => hash_consistent(b.chunks, store0),
            None => true,
        },
        store0.len() + concat_all(crate::backup::spec_classify(items).content).len()
            <= u64::MAX,
        ({
            let content = crate::backup::spec_classify(items).content;
            let lens = cdc_lengths(
                concat_all(content),
                config.min_size,
                config.avg_size,
                config.max_size,
            );
            &&& lens_total(lens) == concat_all(content).len()
            &&& forall|k: int| 0 <= k < lens.len() ==> #[trigger] lens[k] >= 0
        }),
        spec_backup_pipe(items, config, base, store0).store.len() <= store1.len(),
        store1.subrange(0, spec_backup_pipe(items, config, base, store0).store.len() as int)
            == spec_backup_pipe(items, config, base, store0).store,
    ensures
        hash_consistent(spec_backup_snapshot(items, config, base, store0).chunks, store1),
{
    let content = crate::backup::spec_classify(items).content;
    let lens = cdc_lengths(
        concat_all(content),
        config.min_size,
        config.avg_size,
        config.max_size,
    );
    assert forall|k: int|
        0 <= k < lens.len() implies lens_total(lens.take(k)) + #[trigger] lens[k] <= concat_all(
        content,
    ).len() by {
        crate::reader::lemma_lens_total_step(lens, k);
        crate::reader::lemma_lens_total_take_le(lens, k + 1);
    }
    assert forall|k: int|
        0 <= k <= lens.len() implies #[trigger] lens_total(lens.take(k)) >= 0 && lens_total(
        lens.take(k),
    ) <= lens_total(lens) by {
        crate::reader::lemma_lens_total_take_le(lens, k);
    }
    lemma_pipe_consistent(content, lens, base, store0, lens.len() as int);
    assert(lens.take(lens.len() as int) =~= lens);
    let pipe = spec_backup_pipe(items, config, base, store0);
    let tail = store1.subrange(pipe.store.len() as int, store1.len() as int);
    assert(store1 =~= pipe.store + tail);
    lemma_hash_consistent_append(pipe.chunks, pipe.store, tail);
}

/// The chunk loop's outcome does not depend on what the store already held,
/// except through each fresh chunk's key text: the chunk count, every
/// digest, every row, and the cache come out the same.
proof fn lemma_pipe_store_independent(
    content: Seq<(Seq<char>, Seq<u8>)>,
    lens: Seq<usize>,
    base: Option<SnapshotV>,
    a: Seq<u8>,
    b: Seq<u8>,
    j: int,
)
    ensures
        ({
            let pa = pipe_upto(content, lens, base, a, j);
            let pb = pipe_upto(content, lens, base, b, j);
            &&& pa.chunks.len() == pb.chunks.len()
            &&& forall|i: int|
                0 <= i < pa.chunks.len() ==> (#[trigger] pa.chunks[i]).hash == (
                #[trigger] pb.chunks[i]).hash
            &&& pa.rows == pb.rows
            &&& pa.cache == pb.cache
        }),
    decreases j,
{
    if j > 0 {
        lemma_pipe_store_independent(content, lens, base, a, b, j - 1);
        let sa = pipe_upto(content, lens, base, a, j - 1);
        let sb = pipe_upto(content, lens, base, b, j - 1);
        let lo = lens_total(lens.take(j - 1));
        let hi = lo + lens[j - 1];
        let bytes = concat_all(content).subrange(lo, hi);
        let ps = spec_resolve(content_pairs(content), lo, hi);
        let h = blake3_of(bytes);
        let na = pipe_upto(content, lens, base, a, j);
        let nb = pipe_upto(content, lens, base, b, j);
        if sa.cache.contains_key(h) {
            match sa.cache[h] {
                CacheV::Available(_) => {
                    assert(forall|i: int|
                        0 <= i < na.chunks.len() ==> (#[trigger] na.chunks[i]).hash == (
                        #[trigger] nb.chunks[i]).hash);
                },
                CacheV::Reused(_) => {},
            }
        } else {
            assert forall|i: int|
                0 <= i < na.chunks.len() implies (#[trigger] na.chunks[i]).hash == (
            #[trigger] nb.chunks[i]).hash by {
                if i == na.chunks.len() - 1 {
                    assert(na.chunks[i].hash == h);
                    assert(nb.chunks[i].hash == h);
                }
            }
        }
    }
}

/// Determinism: two backups of the same entries with the same cut
/// parameters and the same base produce the same file list, the same link
/// records, the same digest sequence, and the same rows, whatever either
/// store already held.
pub proof fn lemma_backup_deterministic(
    items: Seq<WalkItemV>,
    config: ChunkerConfig,
    base: Option<SnapshotV>,
    a: Seq<u8>,
    b: Seq<u8>,
)
    ensures
        ({
            let s1 = spec_backup_snapshot(items, config, base, a);
            let s2 = spec_backup_snapshot(items, config, base, b);
            &&& s1.files == s2.files
            &&& s1.file_symlink == s2.file_symlink
            &&& s1.chunks.len() == s2.chunks.len()
            &&& forall|i: int|
                0 <= i < s1.chunks.len() ==> (#[trigger] s1.chunks[i]).hash == (
                #[trigger] s2.chunks[i]).hash
            &&& s1.file_chunks == s2.file_chunks
        }),
{
    let content = crate::backup::spec_classify(items).content;
    let lens = cdc_lengths(
        concat_all(content),
        config.min_size,
        config.avg_size,
        config.max_size,
    );
    lemma_pipe_store_independent(content, lens, base, a, b, lens.len() as int);
}

/// Restoring is deterministic: two file lists that both satisfy the restore
/// pipeline's contract for the same snapshot and store are equal.
pub proof fn lemma_restore_deterministic(
    sv: SnapshotV,
    store: Seq<u8>,
    files1: Seq<(Seq<char>, Seq<u8>)>,
    files2: Seq<(Seq<char>, Seq<u8>)>,
)
    requires
        files1.len() == sv.files.len(),
        files2.len() == sv.files.len(),
        forall|f: int|
            0 <= f < files1.len() ==> (#[trigger] files1[f]).0 == sv.files[f] && files1[f].1
                == crate::restore::spec_restore_file(sv, store, f),
        forall|f: int|
            0 <= f < files2.len() ==> (#[trigger] files2[f]).0 == sv.files[f] && files2[f].1
                == crate::restore::spec_restore_file(sv, store, f),
    ensures
        files1 == files2,
{
    assert(files1 =~= files2);
}


/// Without a base snapshot the chunk loop is one-to-one: the cache stays
/// empty, chunk `i` records the digest of the stream's `i`-th span, its key
/// names exactly the bytes appended for it, and the store grows by the
/// consumed prefix of the stream.
pub proof fn lemma_pipe_no_base(
    content: Seq<(Seq<char>, Seq<u8>)>,
    lens: Seq<usize>,
    store0: Seq<u8>,
    j: int,
)
    requires
        0 <= j <= lens.len(),
        lens_total(lens) <= concat_all(content).len(),
    ensures
        ({
            let pipe = pipe_upto(content, lens, None, store0, j);
            &&& pipe.cache == Map::<Seq<u8>, CacheV>::empty()
            &&& pipe.chunks.len() == j
            &&& pipe.store == store0 + concat_all(content).subrange(
                0,
                lens_total(lens.take(j)),
            )
            &&& forall|i: int|
                0 <= i < j ==> {
                    let lo = lens_total(lens.take(i));
                    let hi = lo + lens[i];
                    &&& (#[trigger] pipe.chunks[i]).hash == blake3_of(
                        concat_all(content).subrange(lo, hi),
                    )
                    &&& pipe.chunks[i].location == spec_encode_key(
                        (store0.len() + lo) as u64,
                        (hi - lo) as u64,
                    )
                }
        }),
    decreases j,
{
    let pipe = pipe_upto(content, lens, None, store0, j);
    if j == 0 {
        crate::reader::lemma_lens_total_take_le(lens, 0);
        assert(lens.take(0) =~= Seq::<usize>::empty());
        assert(lens_total(Seq::<usize>::empty()) == 0);
        assert(concat_all(content).subrange(0, 0) =~= Seq::<u8>::empty());
        assert(pipe.store =~= store0 + concat_all(content).subrange(0, 0));
    } else {
        lemma_pipe_no_base(content, lens, store0, j - 1);
        crate::reader::lemma_lens_total_step(lens, j - 1);
        crate::reader::lemma_lens_total_take_le(lens, j - 1);
        crate::reader::lemma_lens_total_take_le(lens, j);
        assert(0 <= lens_total(lens.take(j - 1)));
        assert(lens_total(lens.take(j)) <= concat_all(content).len());
        let st = pipe_upto(content, lens, None, store0, j - 1);
        let lo = lens_total(lens.take(j - 1));
        let hi = lo + lens[j - 1];
        let bytes = concat_all(content).subrange(lo, hi);
        assert(!st.cache.contains_key(blake3_of(bytes)));
        assert(st.store.len() == store0.len() + concat_all(content).subrange(0, lo).len());
        assert(pipe.store =~= store0 + concat_all(content).subrange(0, hi)) by {
            assert(pipe.store == (store0 + concat_all(content).subrange(0, lo)) + bytes);
        }
    }
}

/// Every digest in a base-snapshot cache is a key of that cache.
proof fn lemma_cache_of_contains(chunks: Seq<ChunkV>, n: int, k: int)
    requires
        0 <= k < n <= chunks.len(),
    ensures
        cache_of(chunks, n).contains_key(chunks[k].hash),
    decreases n,
{
    if k < n - 1 {
        lemma_cache_of_contains(chunks, n - 1, k);
    }
}

/// When every span's digest is already a cache key, the chunk loop appends
/// nothing to the store and records only chunk entries copied from the base
/// snapshot.
proof fn lemma_pipe_reuses(
    content: Seq<(Seq<char>, Seq<u8>)>,
    lens: Seq<usize>,
    base: SnapshotV,
    store1: Seq<u8>,
    j: int,
)
    requires
        0 <= j <= lens.len(),
        forall|i: int|
            0 <= i < lens.len() ==> init_cache(Some(base)).contains_key(
                blake3_of(
                    #[trigger] concat_all(content).subrange(
                        lens_total(lens.take(i)),
                        lens_total(lens.take(i)) + lens[i],
                    ),
                ),
            ),
    ensures
        ({
            let pipe = pipe_upto(content, lens, Some(base), store1, j);
            &&& pipe.store == store1
            &&& pipe.cache.dom() == init_cache(Some(base)).dom()
            &&& forall|h: Seq<u8>|
                #![trigger pipe.cache.contains_key(h)]
                pipe.cache.contains_key(h) ==> match pipe.cache[h] {
                    CacheV::Available(e) => base.chunks.contains(e),
                    CacheV::Reused(_) => true,
                }
            &&& forall|i: int|
                0 <= i < pipe.chunks.len() ==> base.chunks.contains(#[trigger] pipe.chunks[i])
        }),
    decreases j,
{
    if j == 0 {
        lemma_cache_of_entries(base.chunks, base.chunks.len() as int);
        let pipe = pipe_upto(content, lens, Some(base), store1, 0);
        assert(pipe.cache.dom() =~= init_cache(Some(base)).dom());
        assert forall|h: Seq<u8>| pipe.cache.contains_key(h) implies match pipe.cache[h] {
            CacheV::Available(e) => base.chunks.contains(e),
            CacheV::Reused(_) => true,
        } by {
            assert(cache_of(base.chunks, base.chunks.len() as int).contains_key(h));
            match pipe.cache[h] {
                CacheV::Available(e) => {
                    let k = choose|k: int|
                        0 <= k < base.chunks.len() && base.chunks[#[trigger] (k + 0)] == e
                            && e.hash == h;
                    assert(base.chunks[k] == e);
                    assert(base.chunks.contains(e));
                },
                CacheV::Reused(_) => {},
            }
        }
    } else {
        lemma_pipe_reuses(content, lens, base, store1, j - 1);
        let st = pipe_upto(content, lens, Some(base), store1, j - 1);
        let pipe = pipe_upto(content, lens, Some(base), store1, j);
        let lo = lens_total(lens.take(j - 1));
        let hi = lo + lens[j - 1];
        let bytes = concat_all(content).subrange(lo, hi);
        let h = blake3_of(bytes);
        assert(init_cache(Some(base)).contains_key(h));
        assert(st.cache.dom().contains(h));
        assert(st.cache.contains_key(h));
        match st.cache[h] {
            CacheV::Available(entry) => {
                assert(base.chunks.contains(entry));
                assert(pipe.cache.dom() =~= st.cache.dom());
                assert(pipe.chunks == st.chunks.push(entry));
                assert forall|i: int|
                    0 <= i < pipe.chunks.len() implies base.chunks.contains(
                    #[trigger] pipe.chunks[i],
                ) by {
                    if i < st.chunks.len() {
                        assert(pipe.chunks[i] == st.chunks[i]);
                    } else {
                        assert(pipe.chunks[i] == entry);
                    }
                }
                assert forall|h2: Seq<u8>|
                    pipe.cache.contains_key(h2) implies match pipe.cache[h2] {
                    CacheV::Available(e) => base.chunks.contains(e),
                    CacheV::Reused(_) => true,
                } by {
                    if h2 != h {
                        assert(st.cache.contains_key(h2));
                        assert(pipe.cache[h2] == st.cache[h2]);
                    }
                }
            },
            CacheV::Reused(_) => {
                assert(pipe.chunks == st.chunks);
                assert(pipe.cache == st.cache);
                assert(pipe.store == st.store);
            },
        }
    }
}

/// The cache a manifest builds has a key for every one of its digests.
proof fn lemma_init_cache_covers(base: SnapshotV, k: int)
    requires
        0 <= k < base.chunks.len(),
    ensures
        init_cache(Some(base)).contains_key(base.chunks[k].hash),
{
    lemma_cache_of_contains(base.chunks, base.chunks.len() as int, k);
}

/// The dedup law: a backup whose base is a snapshot of the same entries
/// with the same cut parameters appends no chunk bytes at all — the store
/// is untouched until the new manifest itself is written — and every chunk
/// entry of the new manifest, key text included, is copied verbatim from
/// the base snapshot.
pub proof fn lemma_backup_dedup(
    items: Seq<WalkItemV>,
    config: ChunkerConfig,
    store0: Seq<u8>,
    store1: Seq<u8>,
)
    requires
        ({
            let content = crate::backup::spec_classify(items).content;
            let lens = cdc_lengths(
                concat_all(content),
                config.min_size,
                config.avg_size,
                config.max_size,
            );
            lens_total(lens) <= concat_all(content).len()
        }),
    ensures
        ({
            let sv1 = spec_backup_snapshot(items, config, None, store0);
            let pipe2 = spec_backup_pipe(items, config, Some(sv1), store1);
            let sv2 = spec_backup_snapshot(items, config, Some(sv1), store1);
            &&& pipe2.store == store1
            &&& forall|i: int|
                0 <= i < sv2.chunks.len() ==> sv1.chunks.contains(#[trigger] sv2.chunks[i])
        }),
{
    let content = crate::backup::spec_classify(items).content;
    let lens = cdc_lengths(
        concat_all(content),
        config.min_size,
        config.avg_size,
        config.max_size,
    );
    let sv1 = spec_backup_snapshot(items, config, None, store0);
    lemma_pipe_no_base(content, lens, store0, lens.len() as int);
    assert forall|i: int|
        0 <= i < lens.len() implies init_cache(Some(sv1)).contains_key(
        blake3_of(
            #[trigger] concat_all(content).subrange(
                lens_total(lens.take(i)),
                lens_total(lens.take(i)) + lens[i],
            ),
        ),
    ) by {
        assert(sv1.chunks[i].hash == blake3_of(
            concat_all(content).subrange(
                lens_total(lens.take(i)),
                lens_total(lens.take(i)) + lens[i],
            ),
        ));
        lemma_init_cache_covers(sv1, i);
    }
    lemma_pipe_reuses(content, lens, sv1, store1, lens.len() as int);
}


/// The rows that write into file `f`, in stored order.
pub open spec fn rows_for(rows: Seq<FileChunk>, f: int) -> Seq<FileChunk>
    decreases rows.len(),
{
    if rows.len() == 0 {
        Seq::empty()
    } else if rows.last().file_index == f {
        rows_for(rows.drop_last(), f).push(rows.last())
    } else {
        rows_for(rows.drop_last(), f)
    }
}

/// Total byte count of a run of rows.
pub open spec fn rows_len_total(rs: Seq<FileChunk>) -> int
    decreases rs.len(),
{
    if rs.len() == 0 {
        0
    } else {
        rows_len_total(rs.drop_last()) + rs.last().length
    }
}

/// How much of file `f` the stream's first `pos` bytes cover: the overlap
/// of `[0, pos)` with the file's range, in file-local coordinates.
pub open spec fn covered(pairs: Seq<(Seq<char>, nat)>, f: int, pos: int) -> int {
    let go = prefix_len(pairs, f);
    let rel = pos - go;
    if rel <= 0 {
        0
    } else if rel >= pairs[f].1 {
        pairs[f].1 as int
    } else {
        rel
    }
}

/// The rows of file `f` tile its byte range: each row starts where the
/// bytes of the rows before it end.
#[verifier::opaque]
pub open spec fn rows_tiled(rs: Seq<FileChunk>, f: int) -> bool {
    forall|i: int|
        0 <= i < rs.len() ==> (#[trigger] rs[i]).file_index == f && rs[i].file_offset
            == rows_len_total(rs.take(i))
}

proof fn lemma_rows_for_add(a: Seq<FileChunk>, b: Seq<FileChunk>, f: int)
    ensures
        rows_for(a + b, f) == rows_for(a, f) + rows_for(b, f),
    decreases b.len(),
{
    if b.len() == 0 {
        assert(a + b =~= a);
        assert(rows_for(a, f) + rows_for(b, f) =~= rows_for(a, f));
    } else {
        lemma_rows_for_add(a, b.drop_last(), f);
        assert((a + b).drop_last() =~= a + b.drop_last());
        assert((a + b).last() == b.last());
        if b.last().file_index == f {
            assert(rows_for(a, f) + rows_for(b, f) =~= (rows_for(a, f) + rows_for(
                b.drop_last(),
                f,
            )).push(b.last()));
        }
    }
}

proof fn lemma_rows_len_total_add(a: Seq<FileChunk>, b: Seq<FileChunk>)
    ensures
        rows_len_total(a + b) == rows_len_total(a) + rows_len_total(b),
    decreases b.len(),
{
    if b.len() == 0 {
        assert(a + b =~= a);
    } else {
        lemma_rows_len_total_add(a, b.drop_last());
        assert((a + b).drop_last() =~= a + b.drop_last());
    }
}

/// A run with at most one row for `f`, whose every `f`-row has the given
/// offset and length, filters to nothing or that single row.
proof fn lemma_rows_for_single(rs: Seq<FileChunk>, f: int, off: int, ln: int)
    requires
        forall|i: int|
            0 <= i < rs.len() && (#[trigger] rs[i]).file_index == f ==> rs[i].file_offset == off
                && rs[i].length == ln,
        forall|i1: int, i2: int|
            0 <= i1 < i2 < rs.len() ==> !((#[trigger] rs[i1]).file_index == f && (
            #[trigger] rs[i2]).file_index == f),
    ensures
        ({
            let picked = rows_for(rs, f);
            &&& picked.len() <= 1
            &&& (exists|i: int| 0 <= i < rs.len() && (#[trigger] rs[i]).file_index == f)
                <==> picked.len() == 1
            &&& picked.len() == 1 ==> picked[0].file_index == f && picked[0].file_offset as int
                == off && picked[0].length as int == ln
        }),
    decreases rs.len(),
{
    if rs.len() > 0 {
        let head = rs.drop_last();
        assert(forall|i: int| 0 <= i < head.len() ==> #[trigger] head[i] == rs[i]);
        lemma_rows_for_single(head, f, off, ln);
        if rs.last().file_index == f {
            assert(rs[rs.len() - 1].file_index == f);
            if exists|i: int| 0 <= i < head.len() && (#[trigger] head[i]).file_index == f {
                let w = choose|i: int| 0 <= i < head.len() && (#[trigger] head[i]).file_index == f;
                assert(rs[w].file_index == f);
                assert(false);
            }
        } else {
            if exists|i: int| 0 <= i < rs.len() && (#[trigger] rs[i]).file_index == f {
                let w = choose|i: int| 0 <= i < rs.len() && (#[trigger] rs[i]).file_index == f;
                assert(head[w] == rs[w]);
            }
        }
    }
}


/// One chunk's rows extend each file's tiling by exactly the chunk's
/// overlap with the file.
proof fn lemma_partition_step(
    content: Seq<(Seq<char>, Seq<u8>)>,
    rows0: Seq<FileChunk>,
    lo: int,
    hi: int,
    ci: int,
    f: int,
)
    requires
        0 <= lo <= hi,
        hi <= prefix_len(content_pairs(content), content.len() as int),
        prefix_len(content_pairs(content), content.len() as int) <= u64::MAX,
        hi - lo <= u32::MAX,
        content.len() <= u32::MAX,
        0 <= f < content.len(),
        rows_tiled(rows_for(rows0, f), f),
        rows_len_total(rows_for(rows0, f)) == covered(content_pairs(content), f, lo),
    ensures
        ({
            let pairs = content_pairs(content);
            let ps = spec_resolve(pairs, lo, hi);
            let rs = rows_for(rows0 + chunk_rows(ps, ci), f);
            &&& rows_tiled(rs, f)
            &&& rows_len_total(rs) == covered(pairs, f, hi)
        }),
{
    reveal(rows_tiled);
    let pairs = content_pairs(content);
    let ps = spec_resolve(pairs, lo, hi);
    let cr = chunk_rows(ps, ci);
    crate::reader::lemma_resolve_validity(pairs, lo, hi, 0);
    crate::reader::lemma_resolve_coverage(pairs, lo, hi, 0);
    lemma_rows_for_add(rows0, cr, f);
    let go = prefix_len(pairs, f);
    crate::reader::lemma_prefix_len_mono(pairs, 0, f);
    crate::reader::lemma_prefix_len_mono(pairs, f + 1, content.len() as int);
    assert(prefix_len(pairs, f + 1) == go + pairs[f].1);
    let os = if lo > go {
        lo
    } else {
        go
    };
    let oe = if hi < go + pairs[f].1 {
        hi
    } else {
        go + pairs[f].1
    };
    assert forall|i: int|
        0 <= i < cr.len() && (#[trigger] cr[i]).file_index == f implies cr[i].file_offset == os
            - go && cr[i].length == oe - os by {
        assert(ps[i].file == f);
    }
    assert forall|i1: int, i2: int|
        0 <= i1 < i2 < cr.len() implies !((#[trigger] cr[i1]).file_index == f && (
    #[trigger] cr[i2]).file_index == f) by {
        if cr[i1].file_index == f && cr[i2].file_index == f {
            assert(ps[i1].file == f && ps[i2].file == f);
            assert(ps[i1].file < ps[i2].file);
        }
    }
    lemma_rows_for_single(cr, f, os - go, oe - os);
    let old_rs = rows_for(rows0, f);
    let rs = rows_for(rows0 + cr, f);
    if os < oe {
        assert(crate::reader::has_piece_for(ps, f));
        let w = choose|j2: int| 0 <= j2 < ps.len() && (#[trigger] ps[j2]).file == f;
        assert(cr[w].file_index == f);
        assert(rows_for(cr, f).len() == 1);
        let row = rows_for(cr, f)[0];
        assert(rs =~= old_rs.push(row));
        assert(rows_len_total(rs) == rows_len_total(old_rs) + row.length) by {
            assert(rs.drop_last() =~= old_rs);
        }
        assert(covered(pairs, f, hi) == covered(pairs, f, lo) + (oe - os));
        assert(rows_tiled(rs, f)) by {
            assert forall|i: int|
                0 <= i < rs.len() implies (#[trigger] rs[i]).file_index == f && rs[i].file_offset
                    == rows_len_total(rs.take(i)) by {
                if i < old_rs.len() {
                    assert(rs[i] == old_rs[i]);
                    assert(rs.take(i) =~= old_rs.take(i));
                } else {
                    assert(rs[i] == row);
                    assert(rs.take(i) =~= old_rs);
                    assert(row.file_offset == os - go);
                    assert(os - go == covered(pairs, f, lo));
                }
            }
        }
    } else {
        assert(rows_for(cr, f) =~= Seq::<FileChunk>::empty()) by {
            if rows_for(cr, f).len() >= 1 {
                assert(exists|i: int|
                    0 <= i < cr.len() && (#[trigger] cr[i]).file_index == f);
                let w = choose|i: int| 0 <= i < cr.len() && (#[trigger] cr[i]).file_index == f;
                assert(ps[w].file == f);
                assert(ps[w].length > 0);
                assert(ps[w].length == oe - os);
            }
        }
        assert(rs =~= old_rs);
        assert(covered(pairs, f, hi) == covered(pairs, f, lo));
    }
}

/// After the first `j` chunks, each file's rows tile exactly the part of
/// the file the consumed stream prefix covers.
pub open spec fn partition_upto(
    content: Seq<(Seq<char>, Seq<u8>)>,
    lens: Seq<usize>,
    base: Option<SnapshotV>,
    store0: Seq<u8>,
    j: int,
) -> bool {
    let pairs = content_pairs(content);
    let pipe = pipe_upto(content, lens, base, store0, j);
    forall|f: int|
        #![trigger rows_for(pipe.rows, f)]
        0 <= f < content.len() ==> {
            let rs = rows_for(pipe.rows, f);
            &&& rows_tiled(rs, f)
            &&& rows_len_total(rs) == covered(pairs, f, lens_total(lens.take(j)))
        }
}

#[verifier::rlimit(100)]
#[verifier::spinoff_prover]
proof fn lemma_pipe_partition(
    content: Seq<(Seq<char>, Seq<u8>)>,
    lens: Seq<usize>,
    base: Option<SnapshotV>,
    store0: Seq<u8>,
    j: int,
)
    requires
        0 <= j <= lens.len(),
        lens_total(lens) == concat_all(content).len(),
        concat_all(content).len() == prefix_len(content_pairs(content), content.len() as int),
        prefix_len(content_pairs(content), content.len() as int) <= u64::MAX,
        content.len() <= u32::MAX,
        forall|k: int| 0 <= k < lens.len() ==> #[trigger] lens[k] <= u32::MAX,
    ensures
        partition_upto(content, lens, base, store0, j),
    decreases j,
{
    reveal(rows_tiled);
    let pairs = content_pairs(content);
    let pipe = pipe_upto(content, lens, base, store0, j);
    if j == 0 {
        assert(lens.take(0) =~= Seq::<usize>::empty());
        assert(lens_total(Seq::<usize>::empty()) == 0);
        assert(partition_upto(content, lens, base, store0, j)) by {
            assert forall|f: int|
                #![trigger rows_for(pipe.rows, f)]
                0 <= f < content.len() implies {
                let rs = rows_for(pipe.rows, f);
                &&& rows_tiled(rs, f)
                &&& rows_len_total(rs) == covered(pairs, f, lens_total(lens.take(0)))
            } by {
                assert(pipe.rows =~= Seq::<FileChunk>::empty());
                assert(rows_for(pipe.rows, f) =~= Seq::<FileChunk>::empty());
                crate::reader::lemma_prefix_len_mono(pairs, 0, f);
            }
        }
    } else {
        lemma_pipe_partition(content, lens, base, store0, j - 1);
        crate::reader::lemma_lens_total_step(lens, j - 1);
        crate::reader::lemma_lens_total_take_le(lens, j - 1);
        crate::reader::lemma_lens_total_take_le(lens, j);
        let st = pipe_upto(content, lens, base, store0, j - 1);
        let lo = lens_total(lens.take(j - 1));
        let hi = lo + lens[j - 1];
        let bytes = concat_all(content).subrange(lo, hi);
        let ps = spec_resolve(pairs, lo, hi);
        let h = blake3_of(bytes);
        let ci: int = if st.cache.contains_key(h) {
            match st.cache[h] {
                CacheV::Available(_) => st.chunks.len() as int,
                CacheV::Reused(ix) => ix as int,
            }
        } else {
            st.chunks.len() as int
        };
        assert(pipe.rows == st.rows + chunk_rows(ps, ci));
        assert(hi == lens_total(lens.take(j)));
        assert(partition_upto(content, lens, base, store0, j)) by {
            assert forall|f: int|
                #![trigger rows_for(pipe.rows, f)]
                0 <= f < content.len() implies {
                let rs = rows_for(pipe.rows, f);
                &&& rows_tiled(rs, f)
                &&& rows_len_total(rs) == covered(pairs, f, lens_total(lens.take(j)))
            } by {
                let go = prefix_len(pairs, f);
                assert(rows_tiled(rows_for(st.rows, f), f));
                assert(rows_len_total(rows_for(st.rows, f)) == covered(pairs, f, lo));
                lemma_partition_step(content, st.rows, lo, hi, ci, f);
                assert(rows_tiled(rows_for(st.rows + chunk_rows(ps, ci), f), f));
                assert(rows_for(pipe.rows, f) == rows_for(st.rows + chunk_rows(ps, ci), f));
                assert(rows_len_total(rows_for(pipe.rows, f)) == covered(
                    pairs,
                    f,
                    lens_total(lens.take(j)),
                ));
            }
        }
    }
}

/// The partition law: in any backup's manifest, the rows of each file, in
/// stored order, tile the file's byte range gaplessly — each row starts
/// where the previous one ended, starting at zero, and together they cover
/// exactly the file's bytes.
pub proof fn lemma_backup_partition(
    items: Seq<WalkItemV>,
    config: ChunkerConfig,
    base: Option<SnapshotV>,
    store0: Seq<u8>,
)
    requires
        ({
            let content = crate::backup::spec_classify(items).content;
            let lens = cdc_lengths(
                concat_all(content),
                config.min_size,
                config.avg_size,
                config.max_size,
            );
            &&& lens_total(lens) == concat_all(content).len()
            &&& content.len() <= u32::MAX
            &&& concat_all(content).len() <= u64::MAX
            &&& forall|k: int| 0 <= k < lens.len() ==> #[trigger] lens[k] <= u32::MAX
        }),
    ensures
        ({
            let content = crate::backup::spec_classify(items).content;
            let sv = spec_backup_snapshot(items, config, base, store0);
            forall|f: int|
                #![trigger rows_for(sv.file_chunks, f)]
                0 <= f < sv.files.len() ==> {
                    let rs = rows_for(sv.file_chunks, f);
                    &&& rows_tiled(rs, f)
                    &&& rows_len_total(rs) == content[f].1.len()
                }
        }),
{
    let content = crate::backup::spec_classify(items).content;
    let pairs = content_pairs(content);
    let lens = cdc_lengths(
        concat_all(content),
        config.min_size,
        config.avg_size,
        config.max_size,
    );
    crate::reader::lemma_concat_len(content, 0);
    lemma_pipe_partition(content, lens, base, store0, lens.len() as int);
    assert(lens.take(lens.len() as int) =~= lens);
    let sv = spec_backup_snapshot(items, config, base, store0);
    assert forall|f: int|
        #![trigger rows_for(sv.file_chunks, f)]
        0 <= f < sv.files.len() implies {
        let rs = rows_for(sv.file_chunks, f);
        &&& rows_tiled(rs, f)
        &&& rows_len_total(rs) == content[f].1.len()
    } by {
        crate::reader::lemma_prefix_len_mono(pairs, f + 1, content.len() as int);
        assert(prefix_len(pairs, f + 1) == prefix_len(pairs, f) + pairs[f].1);
        crate::reader::lemma_prefix_len_mono(pairs, 0, f);
        assert(covered(pairs, f, lens_total(lens)) == pairs[f].1);
    }
}


/// What each row of a no-base backup means on the bytes: the slice it
/// names inside its chunk's stream span equals the slice of its file.
pub open spec fn row_faithful(
    content: Seq<(Seq<char>, Seq<u8>)>,
    lens: Seq<usize>,
    r: FileChunk,
) -> bool {
    let clo = lens_total(lens.take(r.chunk_index as int));
    &&& r.chunk_index < lens.len()
    &&& r.file_index < content.len()
    &&& r.chunk_offset + r.length <= lens[r.chunk_index as int]
    &&& r.file_offset + r.length <= content[r.file_index as int].1.len()
    &&& concat_all(content).subrange(
        clo + r.chunk_offset,
        clo + r.chunk_offset + r.length,
    ) == content[r.file_index as int].1.subrange(
        r.file_offset as int,
        r.file_offset + r.length,
    )
}

/// Every row a no-base backup emits is faithful, and points at the chunk it
/// was cut from.
proof fn lemma_pipe_rows_faithful(
    content: Seq<(Seq<char>, Seq<u8>)>,
    lens: Seq<usize>,
    store0: Seq<u8>,
    j: int,
)
    requires
        0 <= j <= lens.len(),
        lens_total(lens) == concat_all(content).len(),
        concat_all(content).len() == prefix_len(content_pairs(content), content.len() as int),
        prefix_len(content_pairs(content), content.len() as int) <= u64::MAX,
        content.len() <= u32::MAX,
        lens.len() <= u32::MAX + 1,
        forall|k: int| 0 <= k < lens.len() ==> #[trigger] lens[k] <= u32::MAX,
    ensures
        ({
            let pipe = pipe_upto(content, lens, None, store0, j);
            forall|i: int|
                0 <= i < pipe.rows.len() ==> row_faithful(content, lens, #[trigger] pipe.rows[i])
        }),
    decreases j,
{
    let pairs = content_pairs(content);
    let pipe = pipe_upto(content, lens, None, store0, j);
    if j == 0 {
        assert(pipe.rows =~= Seq::<FileChunk>::empty());
    } else {
        lemma_pipe_rows_faithful(content, lens, store0, j - 1);
        lemma_pipe_no_base(content, lens, store0, j - 1);
        crate::reader::lemma_lens_total_step(lens, j - 1);
        crate::reader::lemma_lens_total_take_le(lens, j - 1);
        crate::reader::lemma_lens_total_take_le(lens, j);
        let st = pipe_upto(content, lens, None, store0, j - 1);
        let lo = lens_total(lens.take(j - 1));
        let hi = lo + lens[j - 1];
        let bytes = concat_all(content).subrange(lo, hi);
        let ps = spec_resolve(pairs, lo, hi);
        let h = blake3_of(bytes);
        assert(!st.cache.contains_key(h));
        assert(st.chunks.len() == j - 1);
        let cr = chunk_rows(ps, j - 1);
        assert(pipe.rows == st.rows + cr);
        crate::reader::lemma_resolve_validity(pairs, lo, hi, 0);
        crate::reader::lemma_resolve_tiling(pairs, lo, hi, 0);
        assert(crate::reader::span_start_from(pairs, lo, hi, 0) == lo);
        assert forall|i: int|
            0 <= i < pipe.rows.len() implies row_faithful(content, lens, #[trigger] pipe.rows[i])
        by {
            if i < st.rows.len() {
                assert(pipe.rows[i] == st.rows[i]);
            } else {
                let t = i - st.rows.len();
                assert(pipe.rows[i] == cr[t]);
                let p = ps[t];
                crate::reader::lemma_pieces_total_take_le(ps, t);
                crate::reader::lemma_pieces_total_step(ps, t);
                crate::reader::lemma_pieces_total_take_le(ps, t + 1);
                let row = cr[t];
                crate::reader::lemma_prefix_len_mono(pairs, p.file + 1, content.len() as int);
                assert(prefix_len(pairs, p.file + 1) == prefix_len(pairs, p.file)
                    + pairs[p.file].1);
                crate::reader::lemma_prefix_len_mono(pairs, 0, p.file);
                assert(pairs[p.file].1 <= u64::MAX);
                assert(row.chunk_index as int == j - 1);
                assert(lens.take(row.chunk_index as int) =~= lens.take(j - 1));
                assert(row.file_index as int == p.file);
                assert(row.chunk_offset as int == pieces_total(ps.take(t)));
                assert(row.file_offset as int == p.offset);
                assert(row.length as int == p.length);
                assert(prefix_len(pairs, p.file) + p.offset == lo + pieces_total(ps.take(t)));
                crate::reader::lemma_concat_slice(content, p.file, p.offset, p.length);
                assert(concat_all(content).subrange(
                    lo + row.chunk_offset,
                    lo + row.chunk_offset + row.length,
                ) == content[p.file].1.subrange(p.offset, p.offset + p.length));
            }
        }
    }
}


proof fn lemma_rows_len_total_take_le(rs: Seq<FileChunk>, m: int)
    requires
        0 <= m <= rs.len(),
    ensures
        0 <= rows_len_total(rs.take(m)) <= rows_len_total(rs),
    decreases rs.len() - m,
{
    if m == rs.len() {
        assert(rs.take(m) =~= rs);
        lemma_rows_len_total_nonneg(rs.take(m));
    } else {
        assert(rs.take(m + 1).drop_last() =~= rs.take(m));
        assert(rs.take(m + 1).last() == rs[m]);
        lemma_rows_len_total_take_le(rs, m + 1);
        lemma_rows_len_total_nonneg(rs.take(m));
    }
}

proof fn lemma_rows_len_total_nonneg(rs: Seq<FileChunk>)
    ensures
        rows_len_total(rs) >= 0,
    decreases rs.len(),
{
    if rs.len() > 0 {
        lemma_rows_len_total_nonneg(rs.drop_last());
    }
}

/// The rows of a prefix of the manifest filter to a prefix of the filtered
/// rows.
proof fn lemma_rows_prefix_filter(rows: Seq<FileChunk>, f: int, n: int)
    requires
        0 <= n <= rows.len(),
    ensures
        ({
            let pf = rows_for(rows.take(n), f);
            let full = rows_for(rows, f);
            &&& pf.len() <= full.len()
            &&& pf == full.take(pf.len() as int)
        }),
    decreases rows.len() - n,
{
    let pf = rows_for(rows.take(n), f);
    let full = rows_for(rows, f);
    if n == rows.len() {
        assert(rows.take(n) =~= rows);
        assert(full.take(full.len() as int) =~= full);
    } else {
        lemma_rows_prefix_filter(rows, f, n + 1);
        let pf1 = rows_for(rows.take(n + 1), f);
        assert(rows.take(n + 1).drop_last() =~= rows.take(n));
        assert(rows.take(n + 1).last() == rows[n]);
        if rows[n].file_index == f {
            assert(pf1 == pf.push(rows[n]));
            assert(pf =~= pf1.drop_last());
            assert(pf1 == full.take(pf1.len() as int));
            assert(pf =~= full.take(pf.len() as int));
        } else {
            assert(pf1 == pf);
        }
    }
}

/// For tiled rows, the furthest byte the first `n` rows write into file `f`
/// is exactly the byte count of the `f`-rows among them.
proof fn lemma_file_size_is_covered(rows: Seq<FileChunk>, f: int, n: int)
    requires
        0 <= n <= rows.len(),
        rows_tiled(rows_for(rows, f), f),
    ensures
        crate::restore::file_size_upto(rows, f, n) == rows_len_total(rows_for(rows.take(n), f)),
    decreases n,
{
    reveal(rows_tiled);
    if n == 0 {
        assert(rows.take(0) =~= Seq::<FileChunk>::empty());
        assert(rows_for(Seq::<FileChunk>::empty(), f) =~= Seq::<FileChunk>::empty());
    } else {
        lemma_file_size_is_covered(rows, f, n - 1);
        let pf0 = rows_for(rows.take(n - 1), f);
        let pf1 = rows_for(rows.take(n), f);
        let full = rows_for(rows, f);
        assert(rows.take(n).drop_last() =~= rows.take(n - 1));
        assert(rows.take(n).last() == rows[n - 1]);
        lemma_rows_prefix_filter(rows, f, n - 1);
        lemma_rows_prefix_filter(rows, f, n);
        if rows[n - 1].file_index == f {
            let m = pf0.len() as int;
            assert(pf1 == pf0.push(rows[n - 1]));
            assert(pf1.drop_last() =~= pf0);
            assert(pf1[m] == rows[n - 1]);
            assert(full.take(pf1.len() as int)[m] == rows[n - 1]);
            assert(full[m] == rows[n - 1]);
            assert(full[m].file_offset == rows_len_total(full.take(m)));
            assert(full.take(m) =~= pf0);
            lemma_rows_len_total_nonneg(pf0);
            assert(rows[n - 1].file_offset + rows[n - 1].length == rows_len_total(pf1));
        }
    }
}

/// Every row's named chunk slice equals the slice of its file that the
/// manifest says it holds.
pub open spec fn rows_restorable(
    sv: SnapshotV,
    store: Seq<u8>,
    content: Seq<(Seq<char>, Seq<u8>)>,
) -> bool {
    forall|i: int|
        0 <= i < sv.file_chunks.len() ==> {
            let r = #[trigger] sv.file_chunks[i];
            &&& r.file_index < content.len()
            &&& r.file_offset + r.length <= content[r.file_index as int].1.len()
            &&& crate::restore::chunk_bytes_of(sv, store, r.chunk_index as int) is Some
            &&& crate::restore::chunk_bytes_of(
                sv,
                store,
                r.chunk_index as int,
            )->Some_0.subrange(r.chunk_offset as int, r.chunk_offset + r.length)
                == content[r.file_index as int].1.subrange(
                r.file_offset as int,
                r.file_offset + r.length,
            )
        }
}

/// Applying the first `n` rows rebuilds exactly the covered prefix of the
/// file, over untouched zero bytes.
proof fn lemma_restore_file_matches(
    sv: SnapshotV,
    store: Seq<u8>,
    content: Seq<(Seq<char>, Seq<u8>)>,
    f: int,
    n: int,
)
    requires
        0 <= f < content.len(),
        0 <= n <= sv.file_chunks.len(),
        rows_tiled(rows_for(sv.file_chunks, f), f),
        rows_len_total(rows_for(sv.file_chunks, f)) == content[f].1.len(),
        crate::restore::rows_ok(sv, store),
        rows_restorable(sv, store, content),
    ensures
        ({
            let c = rows_len_total(rows_for(sv.file_chunks.take(n), f));
            let data = content[f].1;
            &&& 0 <= c <= data.len()
            &&& crate::restore::restore_file_upto(sv, store, f, n) == data.take(c) + crate::restore::zeros(
                data.len() - c,
            )
        }),
    decreases n,
{
    reveal(rows_tiled);
    let rows = sv.file_chunks;
    let data = content[f].1;
    let full = rows_for(rows, f);
    let c = rows_len_total(rows_for(rows.take(n), f));
    lemma_rows_prefix_filter(rows, f, n);
    lemma_rows_len_total_take_le(full, rows_for(rows.take(n), f).len() as int);
    assert(rows_len_total(full.take(rows_for(rows.take(n), f).len() as int)) == c);
    if n == 0 {
        assert(rows.take(0) =~= Seq::<FileChunk>::empty());
        assert(rows_for(Seq::<FileChunk>::empty(), f) =~= Seq::<FileChunk>::empty());
        lemma_file_size_is_covered(rows, f, rows.len() as int);
        assert(rows.take(rows.len() as int) =~= rows);
        assert(crate::restore::spec_file_size(sv, f) == data.len());
        assert(crate::restore::restore_file_upto(sv, store, f, 0) =~= data.take(0)
            + crate::restore::zeros(data.len() - 0));
    } else {
        lemma_restore_file_matches(sv, store, content, f, n - 1);
        let c0 = rows_len_total(rows_for(rows.take(n - 1), f));
        let acc = crate::restore::restore_file_upto(sv, store, f, n - 1);
        let row = rows[n - 1];
        assert(rows.take(n).drop_last() =~= rows.take(n - 1));
        assert(rows.take(n).last() == row);
        lemma_rows_prefix_filter(rows, f, n - 1);
        if row.file_index == f {
            let pf0 = rows_for(rows.take(n - 1), f);
            let pf1 = rows_for(rows.take(n), f);
            let m = pf0.len() as int;
            assert(pf1 == pf0.push(row));
            assert(pf1.drop_last() =~= pf0);
            assert(c == c0 + row.length);
            assert(pf1[m] == row);
            assert(full.take(pf1.len() as int)[m] == row);
            assert(full[m] == row);
            assert(full[m].file_offset == rows_len_total(full.take(m)));
            assert(full.take(m) =~= pf0);
            assert(row.file_offset == c0);
            assert(crate::restore::rows_ok(sv, store));
            assert(crate::restore::row_ok(sv, store, rows[n - 1]));
            let bytes = crate::restore::chunk_bytes_of(sv, store, row.chunk_index as int)->Some_0;
            let piece = bytes.subrange(row.chunk_offset as int, row.chunk_offset + row.length);
            assert(piece == data.subrange(row.file_offset as int, row.file_offset + row.length));
            assert(crate::restore::restore_file_upto(sv, store, f, n)
                == crate::restore::overlay(acc, row.file_offset as int, piece));
            assert(crate::restore::overlay(acc, c0, piece) =~= data.take(c)
                + crate::restore::zeros(data.len() - c));
        } else {
            assert(rows_for(rows.take(n), f) == rows_for(rows.take(n - 1), f));
        }
    }
}

/// The round-trip law: restoring what a backup without a base snapshot
/// wrote yields every file's bytes back, byte for byte; the manifest loads
/// back from its root key; and the file list and link records are exactly
/// the classification of the walked entries.
pub proof fn lemma_backup_restore_roundtrip(
    items: Seq<WalkItemV>,
    config: ChunkerConfig,
    store0: Seq<u8>,
)
    requires
        ({
            let content = crate::backup::spec_classify(items).content;
            let lens = cdc_lengths(
                concat_all(content),
                config.min_size,
                config.avg_size,
                config.max_size,
            );
            &&& lens_total(lens) == concat_all(content).len()
            &&& lens.len() <= u32::MAX + 1
            &&& forall|k: int| 0 <= k < lens.len() ==> #[trigger] lens[k] <= u32::MAX
            &&& content.len() <= u32::MAX
            &&& concat_all(content).len() <= usize::MAX
            &&& store0.len() + concat_all(content).len() <= u64::MAX
        }),
    ensures
        ({
            let content = crate::backup::spec_classify(items).content;
            let sv = spec_backup_snapshot(items, config, None, store0);
            let pipe = spec_backup_pipe(items, config, None, store0);
            let enc = crate::codec::spec_encode_snapshot(sv);
            let store1 = pipe.store + enc;
            &&& crate::restore::rows_ok(sv, store1)
            &&& sv.files.len() == content.len()
            &&& forall|f: int|
                #![trigger crate::restore::spec_restore_file(sv, store1, f)]
                0 <= f < content.len() ==> crate::restore::spec_restore_file(sv, store1, f)
                    == content[f].1 && sv.files[f] == content[f].0
            &&& sv.file_symlink == crate::backup::spec_classify(items).links
            &&& (crate::codec::wf_codec(sv) && enc.len() <= u64::MAX
                ==> crate::codec::spec_load_snapshot(
                store1,
                spec_encode_key(pipe.store.len() as u64, enc.len() as u64),
            ) == Some(sv))
        }),
{
    let content = crate::backup::spec_classify(items).content;
    let pairs = content_pairs(content);
    let lens = cdc_lengths(
        concat_all(content),
        config.min_size,
        config.avg_size,
        config.max_size,
    );
    let stream = concat_all(content);
    let sv = spec_backup_snapshot(items, config, None, store0);
    let pipe = spec_backup_pipe(items, config, None, store0);
    let enc = crate::codec::spec_encode_snapshot(sv);
    let store1 = pipe.store + enc;
    let nn = lens.len() as int;
    crate::reader::lemma_concat_len(content, 0);
    lemma_pipe_no_base(content, lens, store0, nn);
    assert(lens.take(nn) =~= lens);
    assert(pipe.store.len() == store0.len() + stream.len());
    lemma_pipe_rows_faithful(content, lens, store0, nn);
    lemma_backup_partition(items, config, None, store0);

    // every row resolves against the final store
    assert forall|i: int|
        0 <= i < sv.file_chunks.len() implies crate::restore::row_ok(
        sv,
        store1,
        #[trigger] sv.file_chunks[i],
    ) by {
        let r = sv.file_chunks[i];
        assert(row_faithful(content, lens, r));
        let ci = r.chunk_index as int;
        let clo = lens_total(lens.take(ci));
        let chi = clo + lens[ci];
        crate::reader::lemma_lens_total_step(lens, ci);
        crate::reader::lemma_lens_total_take_le(lens, ci);
        crate::reader::lemma_lens_total_take_le(lens, ci + 1);
        crate::storage::lemma_key_roundtrip((store0.len() + clo) as u64, (chi - clo) as u64);
        assert(store1.subrange(store0.len() + clo, store0.len() + chi) =~= stream.subrange(
            clo,
            chi,
        ));
        crate::reader::lemma_prefix_len_mono(pairs, r.file_index as int + 1, content.len() as int);
        assert(prefix_len(pairs, r.file_index as int + 1) == prefix_len(pairs, r.file_index as int)
            + pairs[r.file_index as int].1);
        crate::reader::lemma_prefix_len_mono(pairs, 0, r.file_index as int);
    }
    assert(crate::restore::rows_ok(sv, store1));

    // every row's chunk slice is its file slice
    assert forall|i: int|
        0 <= i < sv.file_chunks.len() implies {
        let r = #[trigger] sv.file_chunks[i];
        &&& r.file_index < content.len()
        &&& r.file_offset + r.length <= content[r.file_index as int].1.len()
        &&& crate::restore::chunk_bytes_of(sv, store1, r.chunk_index as int) is Some
        &&& crate::restore::chunk_bytes_of(sv, store1, r.chunk_index as int)->Some_0.subrange(
            r.chunk_offset as int,
            r.chunk_offset + r.length,
        ) == content[r.file_index as int].1.subrange(
            r.file_offset as int,
            r.file_offset + r.length,
        )
    } by {
        let r = sv.file_chunks[i];
        assert(row_faithful(content, lens, r));
        let ci = r.chunk_index as int;
        let clo = lens_total(lens.take(ci));
        let chi = clo + lens[ci];
        crate::reader::lemma_lens_total_step(lens, ci);
        crate::reader::lemma_lens_total_take_le(lens, ci);
        crate::reader::lemma_lens_total_take_le(lens, ci + 1);
        crate::storage::lemma_key_roundtrip((store0.len() + clo) as u64, (chi - clo) as u64);
        let bytes = crate::restore::chunk_bytes_of(sv, store1, ci)->Some_0;
        assert(bytes =~= stream.subrange(clo, chi)) by {
            assert(store1.subrange(store0.len() + clo, store0.len() + chi) =~= stream.subrange(
                clo,
                chi,
            ));
        }
        assert(bytes.subrange(r.chunk_offset as int, r.chunk_offset + r.length) =~= stream.subrange(
            clo + r.chunk_offset,
            clo + r.chunk_offset + r.length,
        ));
    }
    assert(rows_restorable(sv, store1, content));

    assert forall|f: int|
        #![trigger crate::restore::spec_restore_file(sv, store1, f)]
        0 <= f < content.len() implies crate::restore::spec_restore_file(sv, store1, f)
            == content[f].1 && sv.files[f] == content[f].0 by {
        assert(rows_for(sv.file_chunks, f) == rows_for(sv.file_chunks, f));
        lemma_restore_file_matches(sv, store1, content, f, sv.file_chunks.len() as int);
        assert(sv.file_chunks.take(sv.file_chunks.len() as int) =~= sv.file_chunks);
        let data = content[f].1;
        assert(crate::restore::spec_restore_file(sv, store1, f) =~= data) by {
            assert(crate::restore::spec_restore_file(sv, store1, f) == data.take(data.len() as int)
                + crate::restore::zeros(0));
            assert(data.take(data.len() as int) =~= data);
            assert(crate::restore::zeros(0) =~= Seq::<u8>::empty());
        }
    }

    // the manifest loads back from its root key
    if crate::codec::wf_codec(sv) && enc.len() <= u64::MAX {
        crate::storage::lemma_key_roundtrip(pipe.store.len() as u64, enc.len() as u64);
        assert(store1.subrange(pipe.store.len() as int, pipe.store.len() + enc.len() as int)
            =~= enc);
        crate::codec::lemma_snapshot_roundtrip(sv);
    }
}


/// The chunk loop only ever points rows at files and chunks that exist,
/// moves at least one byte per row, and never hands out a reuse index past
/// the chunk list.
proof fn lemma_pipe_wf(
    content: Seq<(Seq<char>, Seq<u8>)>,
    lens: Seq<usize>,
    base: Option<SnapshotV>,
    store0: Seq<u8>,
    j: int,
)
    requires
        0 <= j <= lens.len(),
        lens.len() <= u32::MAX + 1,
        content.len() <= u32::MAX,
        forall|k: int| 0 <= k < lens.len() ==> #[trigger] lens[k] <= u32::MAX,
        lens_total(lens) == concat_all(content).len(),
        concat_all(content).len() == prefix_len(content_pairs(content), content.len() as int),
        prefix_len(content_pairs(content), content.len() as int) <= u64::MAX,
    ensures
        ({
            let pipe = pipe_upto(content, lens, base, store0, j);
            &&& pipe.chunks.len() <= j
            &&& forall|i: int|
                0 <= i < pipe.rows.len() ==> {
                    let r = #[trigger] pipe.rows[i];
                    &&& r.file_index < content.len()
                    &&& r.chunk_index < pipe.chunks.len()
                    &&& r.length > 0
                }
            &&& forall|h: Seq<u8>|
                #![trigger pipe.cache.contains_key(h)]
                pipe.cache.contains_key(h) ==> match pipe.cache[h] {
                    CacheV::Reused(ix) => ix < pipe.chunks.len(),
                    CacheV::Available(_) => true,
                }
        }),
    decreases j,
{
    let pairs = content_pairs(content);
    let pipe = pipe_upto(content, lens, base, store0, j);
    if j == 0 {
        assert(pipe.rows =~= Seq::<FileChunk>::empty());
        lemma_init_cache_no_reuse(base);
    } else {
        lemma_pipe_wf(content, lens, base, store0, j - 1);
        crate::reader::lemma_lens_total_step(lens, j - 1);
        crate::reader::lemma_lens_total_take_le(lens, j - 1);
        crate::reader::lemma_lens_total_take_le(lens, j);
        let st = pipe_upto(content, lens, base, store0, j - 1);
        let lo = lens_total(lens.take(j - 1));
        let hi = lo + lens[j - 1];
        let bytes = concat_all(content).subrange(lo, hi);
        let ps = spec_resolve(pairs, lo, hi);
        let h = blake3_of(bytes);
        crate::reader::lemma_resolve_validity(pairs, lo, hi, 0);
        let ci: int = if st.cache.contains_key(h) {
            match st.cache[h] {
                CacheV::Available(_) => st.chunks.len() as int,
                CacheV::Reused(ix) => ix as int,
            }
        } else {
            st.chunks.len() as int
        };
        assert(pipe.rows == st.rows + chunk_rows(ps, ci));
        assert(0 <= ci < pipe.chunks.len());
        assert forall|i: int|
            0 <= i < pipe.rows.len() implies {
            let r = #[trigger] pipe.rows[i];
            &&& r.file_index < content.len()
            &&& r.chunk_index < pipe.chunks.len()
            &&& r.length > 0
        } by {
            if i < st.rows.len() {
                assert(pipe.rows[i] == st.rows[i]);
                assert(st.chunks.len() <= pipe.chunks.len());
            } else {
                let t = i - st.rows.len();
                assert(pipe.rows[i] == chunk_rows(ps, ci)[t]);
                assert(ps[t].file < content.len());
                assert(0 < ps[t].length);
                crate::reader::lemma_resolve_tiling(pairs, lo, hi, 0);
                crate::reader::lemma_pieces_total_take_le(ps, t);
                crate::reader::lemma_pieces_total_step(ps, t);
                crate::reader::lemma_pieces_total_take_le(ps, t + 1);
                assert(crate::reader::span_start_from(pairs, lo, hi, 0) == lo);
                assert(ps[t].length <= hi - lo);
            }
        }
    }
}

proof fn lemma_init_cache_no_reuse(base: Option<SnapshotV>)
    ensures
        forall|h: Seq<u8>|
            #![trigger init_cache(base).contains_key(h)]
            init_cache(base).contains_key(h) ==> !(init_cache(base)[h] is Reused),
{
    match base {
        Some(b) => {
            lemma_cache_of_entries(b.chunks, b.chunks.len() as int);
            assert forall|h: Seq<u8>|
                init_cache(base).contains_key(h) implies !(init_cache(base)[h] is Reused) by {
                assert(cache_of(b.chunks, b.chunks.len() as int).contains_key(h));
            }
        },
        None => {},
    }
}

/// Any backup's manifest satisfies the structural invariant: every row
/// points at an existing file and chunk and moves at least one byte, and —
/// since the codec's well-formedness pins every digest at 32 bytes — the
/// whole manifest is well formed.
pub proof fn lemma_backup_wf(
    items: Seq<WalkItemV>,
    config: ChunkerConfig,
    base: Option<SnapshotV>,
    store0: Seq<u8>,
)
    requires
        ({
            let content = crate::backup::spec_classify(items).content;
            let lens = cdc_lengths(
                concat_all(content),
                config.min_size,
                config.avg_size,
                config.max_size,
            );
            &&& lens.len() <= u32::MAX + 1
            &&& content.len() <= u32::MAX
            &&& forall|k: int| 0 <= k < lens.len() ==> #[trigger] lens[k] <= u32::MAX
            &&& lens_total(lens) == concat_all(content).len()
            &&& concat_all(content).len() <= u64::MAX
        }),
    ensures
        ({
            let sv = spec_backup_snapshot(items, config, base, store0);
            crate::codec::wf_codec(sv) ==> crate::metadata::wf_snapshot(sv)
        }),
{
    let content = crate::backup::spec_classify(items).content;
    let lens = cdc_lengths(
        concat_all(content),
        config.min_size,
        config.avg_size,
        config.max_size,
    );
    crate::reader::lemma_concat_len(content, 0);
    lemma_pipe_wf(content, lens, base, store0, lens.len() as int);
}

} // verus!
