//! The global byte stream's geometry: which files a span of the stream
//! touches, and the content-defined chunker that cuts the stream.
//!
//! The global stream is the concatenation of the selected regular files'
//! bytes in walk order. A `FileRegistry` maps a span `[start, start+length)`
//! of that stream back to the files it crosses; the chunker cuts the stream
//! into spans.

use vstd::prelude::*;

use crate::error::Error;

verus! {

/// One file's share of a chunk: bytes `[offset, offset + length)` of the
/// file at `path` are part of the chunk.
pub struct ChunkSource {
    pub path: String,
    pub offset: u64,
    pub length: u32,
}

/// The mathematical form of one file's share of a span: which file (by
/// index into the registry), where in that file, and how many bytes.
pub struct SourcePiece {
    pub file: int,
    pub offset: int,
    pub length: int,
}

/// The global offset at which file `k` begins: the sum of the lengths of
/// the files before it.
pub open spec fn prefix_len(files: Seq<(Seq<char>, nat)>, k: int) -> int
    decreases k,
{
    if k <= 0 {
        0
    } else {
        prefix_len(files, k - 1) + files[k - 1].1
    }
}

/// The shares that files `k, k+1, ...` hold of the span `[lo, hi)` of the
/// global stream, in file order.
pub open spec fn spec_resolve_from(
    files: Seq<(Seq<char>, nat)>,
    lo: int,
    hi: int,
    k: int,
) -> Seq<SourcePiece>
    decreases files.len() - k,
{
    if k < 0 || k >= files.len() {
        Seq::empty()
    } else {
        let go = prefix_len(files, k);
        let fe = go + files[k].1;
        let s = if lo > go {
            lo
        } else {
            go
        };
        let e = if hi < fe {
            hi
        } else {
            fe
        };
        let here = if s < e {
            seq![SourcePiece { file: k, offset: s - go, length: e - s }]
        } else {
            Seq::empty()
        };
        here + spec_resolve_from(files, lo, hi, k + 1)
    }
}

/// The shares that the files hold of the span `[lo, hi)` of the global
/// stream, in file order.
pub open spec fn spec_resolve(files: Seq<(Seq<char>, nat)>, lo: int, hi: int) -> Seq<
    SourcePiece,
> {
    spec_resolve_from(files, lo, hi, 0)
}

/// Total byte count of a run of pieces.
pub open spec fn pieces_total(ps: Seq<SourcePiece>) -> int
    decreases ps.len(),
{
    if ps.len() == 0 {
        0
    } else {
        pieces_total(ps.drop_last()) + ps.last().length
    }
}

/// Whether some piece in `ps` belongs to file `f`.
pub open spec fn has_piece_for(ps: Seq<SourcePiece>, f: int) -> bool {
    exists|j: int| 0 <= j < ps.len() && (#[trigger] ps[j]).file == f
}

/// Where the span `[lo, hi)` enters the files at or after `k`: the first
/// global position at or after file `k`'s start that the span still covers.
pub open spec fn span_start_from(files: Seq<(Seq<char>, nat)>, lo: int, hi: int, k: int) -> int {
    let go = prefix_len(files, k);
    let s = if lo > go {
        lo
    } else {
        go
    };
    if s < hi {
        s
    } else {
        hi
    }
}

pub proof fn lemma_pieces_total_add(a: Seq<SourcePiece>, b: Seq<SourcePiece>)
    ensures
        pieces_total(a + b) == pieces_total(a) + pieces_total(b),
    decreases b.len(),
{
    if b.len() == 0 {
        assert(a + b =~= a);
    } else {
        assert((a + b).drop_last() =~= a + b.drop_last());
        assert((a + b).last() == b.last());
        lemma_pieces_total_add(a, b.drop_last());
    }
}

pub proof fn lemma_pieces_total_nonneg(ps: Seq<SourcePiece>)
    requires
        forall|j: int| 0 <= j < ps.len() ==> (#[trigger] ps[j]).length >= 0,
    ensures
        pieces_total(ps) >= 0,
    decreases ps.len(),
{
    if ps.len() > 0 {
        assert(forall|j: int|
            0 <= j < ps.len() - 1 ==> ps.drop_last()[j] == #[trigger] ps[j]);
        lemma_pieces_total_nonneg(ps.drop_last());
    }
}

pub proof fn lemma_pieces_total_step(ps: Seq<SourcePiece>, j: int)
    requires
        0 <= j < ps.len(),
    ensures
        pieces_total(ps.take(j + 1)) == pieces_total(ps.take(j)) + ps[j].length,
{
    assert(ps.take(j + 1).drop_last() =~= ps.take(j));
    assert(ps.take(j + 1).last() == ps[j]);
}

pub proof fn lemma_pieces_total_take_le(ps: Seq<SourcePiece>, j: int)
    requires
        0 <= j <= ps.len(),
        forall|k: int| 0 <= k < ps.len() ==> (#[trigger] ps[k]).length >= 0,
    ensures
        pieces_total(ps.take(j)) <= pieces_total(ps),
        pieces_total(ps.take(j)) >= 0,
    decreases ps.len() - j,
{
    if j == ps.len() {
        assert(ps.take(j) =~= ps);
        lemma_pieces_total_nonneg(ps);
    } else {
        lemma_pieces_total_step(ps, j);
        lemma_pieces_total_take_le(ps, j + 1);
        assert(forall|k: int|
            0 <= k < j ==> ps.take(j)[k] == #[trigger] ps[k]);
        lemma_pieces_total_nonneg(ps.take(j));
    }
}

pub proof fn lemma_prefix_len_mono(files: Seq<(Seq<char>, nat)>, k1: int, k2: int)
    requires
        0 <= k1 <= k2,
    ensures
        prefix_len(files, k1) <= prefix_len(files, k2),
    decreases k2 - k1,
{
    if k1 < k2 {
        lemma_prefix_len_mono(files, k1, k2 - 1);
    }
}

/// Every piece of a resolved span lies inside its file, moves at least one
/// byte, and the pieces come in strictly increasing file order.
pub proof fn lemma_resolve_validity(files: Seq<(Seq<char>, nat)>, lo: int, hi: int, k: int)
    requires
        0 <= k,
    ensures
        ({
            let ps = spec_resolve_from(files, lo, hi, k);
            &&& forall|j: int|
                0 <= j < ps.len() ==> {
                    let p = #[trigger] ps[j];
                    &&& k <= p.file < files.len()
                    &&& 0 <= p.offset
                    &&& p.length > 0
                    &&& p.offset + p.length <= files[p.file].1
                }
            &&& forall|j1: int, j2: int|
                0 <= j1 < j2 < ps.len() ==> (#[trigger] ps[j1]).file < (#[trigger] ps[j2]).file
        }),
    decreases files.len() - k,
{
    let ps = spec_resolve_from(files, lo, hi, k);
    if k >= files.len() {
        assert(ps =~= Seq::<SourcePiece>::empty());
    } else {
        lemma_resolve_validity(files, lo, hi, k + 1);
        let rest = spec_resolve_from(files, lo, hi, k + 1);
        let go = prefix_len(files, k);
        let fe = go + files[k].1;
        let s = if lo > go {
            lo
        } else {
            go
        };
        let e = if hi < fe {
            hi
        } else {
            fe
        };
        if s < e {
            let piece = SourcePiece { file: k, offset: s - go, length: e - s };
            assert(ps =~= seq![piece] + rest);
            assert(forall|j: int| 1 <= j < ps.len() ==> #[trigger] ps[j] == rest[j - 1]);
        } else {
            assert(ps =~= rest);
        }
    }
}

/// The pieces of a resolved span tile it gaplessly: each piece starts, in
/// global coordinates, exactly where the bytes of the pieces before it end,
/// and together they account for every byte of the span at or after file
/// `k`'s start.
pub proof fn lemma_resolve_tiling(files: Seq<(Seq<char>, nat)>, lo: int, hi: int, k: int)
    requires
        0 <= lo <= hi,
        hi <= prefix_len(files, files.len() as int),
        0 <= k <= files.len(),
    ensures
        ({
            let ps = spec_resolve_from(files, lo, hi, k);
            let start = span_start_from(files, lo, hi, k);
            &&& forall|j: int|
                0 <= j < ps.len() ==> prefix_len(files, (#[trigger] ps[j]).file) + ps[j].offset
                    == start + pieces_total(ps.take(j))
            &&& pieces_total(ps) == hi - start
        }),
    decreases files.len() - k,
{
    let ps = spec_resolve_from(files, lo, hi, k);
    let start = span_start_from(files, lo, hi, k);
    if k == files.len() {
        assert(ps =~= Seq::<SourcePiece>::empty());
        assert(start == hi);
    } else {
        lemma_resolve_tiling(files, lo, hi, k + 1);
        let rest = spec_resolve_from(files, lo, hi, k + 1);
        let start2 = span_start_from(files, lo, hi, k + 1);
        let go = prefix_len(files, k);
        let fe = go + files[k].1;
        assert(prefix_len(files, k + 1) == fe);
        let s = if lo > go {
            lo
        } else {
            go
        };
        let e = if hi < fe {
            hi
        } else {
            fe
        };
        if s < e {
            let piece = SourcePiece { file: k, offset: s - go, length: e - s };
            assert(ps =~= seq![piece] + rest);
            assert(start == s);
            assert(start2 == e);
            assert(pieces_total(seq![piece]) == e - s) by {
                assert(seq![piece].drop_last() =~= Seq::<SourcePiece>::empty());
                assert(pieces_total(Seq::<SourcePiece>::empty()) == 0);
            }
            lemma_pieces_total_add(seq![piece], rest);
            assert forall|j: int|
                0 <= j < ps.len() implies prefix_len(files, (#[trigger] ps[j]).file) + ps[j].offset
                    == start + pieces_total(ps.take(j)) by {
                if j == 0 {
                    assert(ps.take(0) =~= Seq::<SourcePiece>::empty());
                } else {
                    assert(ps[j] == rest[j - 1]);
                    assert(ps.take(j) =~= seq![piece] + rest.take(j - 1));
                    lemma_pieces_total_add(seq![piece], rest.take(j - 1));
                    assert(pieces_total(seq![piece]) == e - s) by {
                        assert(seq![piece].drop_last() =~= Seq::<SourcePiece>::empty());
                        assert(pieces_total(Seq::<SourcePiece>::empty()) == 0);
                    }
                }
            }
        } else {
            assert(ps =~= rest);
            assert(start == start2);
        }
    }
}

/// Each file holds of a resolved span exactly its overlap with the span:
/// when the overlap is nonempty there is a piece for the file, and any piece
/// for the file is that overlap, translated into file-local coordinates.
pub proof fn lemma_resolve_coverage(files: Seq<(Seq<char>, nat)>, lo: int, hi: int, k: int)
    requires
        0 <= k <= files.len(),
    ensures
        ({
            let ps = spec_resolve_from(files, lo, hi, k);
            forall|f: int|
                #![trigger prefix_len(files, f)]
                k <= f < files.len() ==> {
                    let go = prefix_len(files, f);
                    let os = if lo > go {
                        lo
                    } else {
                        go
                    };
                    let oe = if hi < go + files[f].1 {
                        hi
                    } else {
                        go + files[f].1
                    };
                    &&& (os < oe ==> has_piece_for(ps, f))
                    &&& forall|j: int|
                        0 <= j < ps.len() && (#[trigger] ps[j]).file == f ==> ps[j].offset == os
                            - go && ps[j].length == oe - os
                }
        }),
    decreases files.len() - k,
{
    let ps = spec_resolve_from(files, lo, hi, k);
    if k == files.len() {
        assert(ps =~= Seq::<SourcePiece>::empty());
    } else {
        lemma_resolve_coverage(files, lo, hi, k + 1);
        lemma_resolve_validity(files, lo, hi, k + 1);
        let rest = spec_resolve_from(files, lo, hi, k + 1);
        let go = prefix_len(files, k);
        let fe = go + files[k].1;
        let s = if lo > go {
            lo
        } else {
            go
        };
        let e = if hi < fe {
            hi
        } else {
            fe
        };
        assert forall|f: int|
            #![trigger prefix_len(files, f)]
            k <= f < files.len() implies {
                let gof = prefix_len(files, f);
                let os = if lo > gof {
                    lo
                } else {
                    gof
                };
                let oe = if hi < gof + files[f].1 {
                    hi
                } else {
                    gof + files[f].1
                };
                &&& (os < oe ==> has_piece_for(ps, f))
                &&& forall|j: int|
                    0 <= j < ps.len() && (#[trigger] ps[j]).file == f ==> ps[j].offset == os - gof
                        && ps[j].length == oe - os
            } by {
            let gof = prefix_len(files, f);
            let os = if lo > gof {
                lo
            } else {
                gof
            };
            let oe = if hi < gof + files[f].1 {
                hi
            } else {
                gof + files[f].1
            };
            if s < e {
                let piece = SourcePiece { file: k, offset: s - go, length: e - s };
                assert(ps =~= seq![piece] + rest);
                assert(forall|j: int| 1 <= j < ps.len() ==> #[trigger] ps[j] == rest[j - 1]);
                if f == k {
                    assert(ps[0] == piece);
                    assert(has_piece_for(ps, f));
                    assert forall|j: int|
                        0 <= j < ps.len() && (#[trigger] ps[j]).file == f implies ps[j].offset
                            == os - gof && ps[j].length == oe - os by {
                        if j > 0 {
                            assert(rest[j - 1].file >= k + 1);
                        }
                    }
                } else {
                    if os < oe {
                        assert(has_piece_for(rest, f));
                        let j0 = choose|j: int|
                            0 <= j < rest.len() && (#[trigger] rest[j]).file == f;
                        assert(ps[j0 + 1] == rest[j0]);
                        assert(has_piece_for(ps, f));
                    }
                }
            } else {
                assert(ps =~= rest);
                if f == k {
                    assert(os >= oe);
                    assert forall|j: int|
                        0 <= j < ps.len() && (#[trigger] ps[j]).file == f implies ps[j].offset
                            == os - gof && ps[j].length == oe - os by {
                        assert(rest[j].file >= k + 1);
                    }
                }
            }
        }
    }
}

struct EntryFileRegistry {
    path: String,
    length: u64,
    global_offset: u64,
}

/// Maps spans of the global stream back to the files they cross. Built once
/// per backup from the selected files' paths and lengths, in walk order.
pub struct FileRegistry {
    entries: Vec<EntryFileRegistry>,
}

impl View for FileRegistry {
    type V = Seq<(Seq<char>, nat)>;

    closed spec fn view(&self) -> Seq<(Seq<char>, nat)> {
        Seq::new(self.entries@.len(), |i: int| (self.entries@[i].path@, self.entries@[i].length as nat))
    }
}

impl FileRegistry {
    /// Each entry's recorded global offset is the sum of the lengths before
    /// it, and the whole stream's length fits a `u64`.
    pub closed spec fn wf(&self) -> bool {
        &&& forall|i: int|
            0 <= i < self.entries@.len() ==> (#[trigger] self.entries@[i]).global_offset as int
                == prefix_len(self@, i)
        &&& prefix_len(self@, self.entries@.len() as int) <= u64::MAX
    }

    /// Builds the registry from the selected files' paths and lengths, in
    /// walk order, precomputing each file's global offset.
    pub fn new(files: &Vec<(String, u64)>) -> (r: Self)
        requires
            prefix_len(
                Seq::new(files@.len(), |i: int| (files@[i].0@, files@[i].1 as nat)),
                files@.len() as int,
            ) <= u64::MAX,
        ensures
            r.wf(),
            r@ == Seq::new(files@.len(), |i: int| (files@[i].0@, files@[i].1 as nat)),
    {
        let ghost target: Seq<(Seq<char>, nat)> = Seq::new(
            files@.len(),
            |i: int| (files@[i].0@, files@[i].1 as nat),
        );
        let mut entries: Vec<EntryFileRegistry> = Vec::new();
        let mut global_offset: u64 = 0;
        let mut i: usize = 0;
        while i < files.len()
            invariant
                0 <= i <= files@.len(),
                target == Seq::new(files@.len(), |j: int| (files@[j].0@, files@[j].1 as nat)),
                prefix_len(target, files@.len() as int) <= u64::MAX,
                entries@.len() == i,
                forall|j: int|
                    0 <= j < i ==> (#[trigger] entries@[j]).path@ == files@[j].0@
                        && entries@[j].length == files@[j].1
                        && entries@[j].global_offset as int == prefix_len(target, j),
                global_offset as int == prefix_len(target, i as int),
            decreases files@.len() - i,
        {
            proof {
                lemma_prefix_len_mono(target, i + 1, files@.len() as int);
            }
            let (path, length) = &files[i];
            entries.push(
                EntryFileRegistry { path: path.clone(), length: *length, global_offset },
            );
            global_offset = global_offset + *length;
            i = i + 1;
        }
        let r = FileRegistry { entries };
        proof {
            assert(r@ =~= target);
        }
        r
    }

    /// How many files the registry covers.
    pub fn file_count(&self) -> (n: usize)
        ensures
            n == self@.len(),
    {
        self.entries.len()
    }

    /// The ordered shares that the files hold of the span
    /// `[global_start, global_start + length)` of the global stream: one
    /// entry per file the span crosses, each with the byte range it
    /// contributes, in file order.
    pub fn resolve_chunk(&self, global_start: u64, length: u32) -> (r: Vec<ChunkSource>)
        requires
            self.wf(),
            global_start + length <= u64::MAX,
        ensures
            ({
                let ps = spec_resolve(self@, global_start as int, global_start + length);
                &&& r@.len() == ps.len()
                &&& forall|j: int|
                    0 <= j < ps.len() ==> {
                        &&& (#[trigger] r@[j]).path@ == self@[ps[j].file].0
                        &&& r@[j].offset as int == ps[j].offset
                        &&& r@[j].length as int == ps[j].length
                    }
            }),
    {
        let lo = global_start;
        let hi = global_start + (length as u64);
        let ghost all = spec_resolve(self@, lo as int, hi as int);
        let mut r: Vec<ChunkSource> = Vec::new();
        let ghost done: Seq<SourcePiece> = Seq::empty();
        let mut k: usize = 0;
        proof {
            assert(done + spec_resolve_from(self@, lo as int, hi as int, 0) =~= all);
        }
        while k < self.entries.len()
            invariant
                self.wf(),
                0 <= k <= self.entries@.len(),
                self.entries@.len() == self@.len(),
                all == spec_resolve(self@, lo as int, hi as int),
                done + spec_resolve_from(self@, lo as int, hi as int, k as int) == all,
                r@.len() == done.len(),
                hi as int == lo + length,
                forall|j: int|
                    0 <= j < done.len() ==> {
                        &&& (#[trigger] r@[j]).path@ == self@[done[j].file].0
                        &&& r@[j].offset as int == done[j].offset
                        &&& r@[j].length as int == done[j].length
                    },
            decreases self.entries@.len() - k,
        {
            proof {
                lemma_prefix_len_mono(self@, k + 1, self@.len() as int);
            }
            let go = self.entries[k].global_offset;
            let fe = go + self.entries[k].length;
            let s = if lo > go {
                lo
            } else {
                go
            };
            let e = if hi < fe {
                hi
            } else {
                fe
            };
            let ghost here = spec_resolve_from(self@, lo as int, hi as int, k as int);
            let ghost rest = spec_resolve_from(self@, lo as int, hi as int, k as int + 1);
            if s < e {
                let ghost piece = SourcePiece { file: k as int, offset: s - go, length: e - s };
                proof {
                    assert(here =~= seq![piece] + rest);
                    assert((done + here) =~= (done.push(piece)) + rest);
                }
                r.push(
                    ChunkSource {
                        path: self.entries[k].path.clone(),
                        offset: s - go,
                        length: (e - s) as u32,
                    },
                );
                proof {
                    done = done.push(piece);
                }
            } else {
                proof {
                    assert(here =~= rest);
                    assert((done + here) =~= done + rest);
                }
            }
            k = k + 1;
        }
        proof {
            assert(spec_resolve_from(self@, lo as int, hi as int, self@.len() as int)
                =~= Seq::<SourcePiece>::empty());
            assert(done =~= all);
        }
        r
    }
}

/// The (path, byte count) pairs of a list of files with their contents, in
/// the shape the registry's specifications use.
pub open spec fn content_pairs(files: Seq<(Seq<char>, Seq<u8>)>) -> Seq<(Seq<char>, nat)> {
    Seq::new(files.len(), |i: int| (files[i].0, files[i].1.len()))
}

/// The view of a list of files with their contents.
pub open spec fn content_view(files: Seq<(String, Vec<u8>)>) -> Seq<(Seq<char>, Seq<u8>)> {
    Seq::new(files.len(), |i: int| (files[i].0@, files[i].1@))
}

/// The global byte stream from file `k` on: the concatenation of the files'
/// bytes in order.
pub open spec fn concat_from(datas: Seq<(Seq<char>, Seq<u8>)>, k: int) -> Seq<u8>
    decreases datas.len() - k,
{
    if k < 0 || k >= datas.len() {
        Seq::empty()
    } else {
        datas[k].1 + concat_from(datas, k + 1)
    }
}

/// The whole global byte stream: every selected file's bytes, concatenated
/// in walk order.
pub open spec fn concat_all(datas: Seq<(Seq<char>, Seq<u8>)>) -> Seq<u8> {
    concat_from(datas, 0)
}

pub proof fn lemma_concat_len(files: Seq<(Seq<char>, Seq<u8>)>, k: int)
    requires
        0 <= k <= files.len(),
    ensures
        concat_from(files, k).len() == prefix_len(content_pairs(files), files.len() as int)
            - prefix_len(content_pairs(files), k),
    decreases files.len() - k,
{
    if k < files.len() {
        lemma_concat_len(files, k + 1);
        assert(prefix_len(content_pairs(files), k + 1) == prefix_len(content_pairs(files), k)
            + files[k].1.len());
    }
}

/// Bytes `[offset, offset + count)` of file `f` are bytes
/// `[start + offset, start + offset + count)` of the global stream, where
/// `start` is the sum of the lengths of the files before `f`.
pub proof fn lemma_concat_slice(files: Seq<(Seq<char>, Seq<u8>)>, f: int, offset: int, count: int)
    requires
        0 <= f < files.len(),
        0 <= offset,
        0 <= count,
        offset + count <= files[f].1.len(),
    ensures
        prefix_len(content_pairs(files), f) + offset + count <= concat_all(files).len(),
        concat_all(files).subrange(
            prefix_len(content_pairs(files), f) + offset,
            prefix_len(content_pairs(files), f) + offset + count,
        ) =~= files[f].1.subrange(offset, offset + count),
{
    let pairs = content_pairs(files);
    lemma_concat_len(files, 0);
    lemma_prefix_len_mono(pairs, 0, f);
    lemma_prefix_len_mono(pairs, f + 1, files.len() as int);
    assert(prefix_len(pairs, f + 1) == prefix_len(pairs, f) + files[f].1.len());
    let a = concat_all(files).subrange(
        prefix_len(pairs, f) + offset,
        prefix_len(pairs, f) + offset + count,
    );
    let b = files[f].1.subrange(offset, offset + count);
    assert forall|x: int| 0 <= x < count implies a[x] == b[x] by {
        lemma_concat_from_index(files, 0, f, offset + x);
        assert(concat_from(files, 0)[prefix_len(pairs, f) + offset + x] == files[f].1[offset + x]);
    }
    assert(a =~= b);
}

proof fn lemma_concat_from_index(files: Seq<(Seq<char>, Seq<u8>)>, k: int, f: int, i: int)
    requires
        0 <= k <= f < files.len(),
        0 <= i < files[f].1.len(),
    ensures
        ({
            let pos = prefix_len(content_pairs(files), f) - prefix_len(content_pairs(files), k)
                + i;
            &&& 0 <= pos < concat_from(files, k).len()
            &&& concat_from(files, k)[pos] == files[f].1[i]
        }),
    decreases f - k,
{
    lemma_concat_len(files, k);
    lemma_prefix_len_mono(content_pairs(files), f + 1, files.len() as int);
    assert(prefix_len(content_pairs(files), f + 1) == prefix_len(content_pairs(files), f)
        + files[f].1.len());
    if k == f {
    } else {
        lemma_concat_from_index(files, k + 1, f, i);
        lemma_prefix_len_mono(content_pairs(files), k + 1, f);
        lemma_concat_len(files, k + 1);
        assert(prefix_len(content_pairs(files), k + 1) == prefix_len(content_pairs(files), k)
            + files[k].1.len());
        let pos = prefix_len(content_pairs(files), f) - prefix_len(content_pairs(files), k) + i;
        let pos2 = prefix_len(content_pairs(files), f) - prefix_len(content_pairs(files), k + 1)
            + i;
        assert(pos == files[k].1.len() + pos2);
        assert(concat_from(files, k)[pos] == concat_from(files, k + 1)[pos2]);
    }
}

/// Reads the whole global stream: the concatenation of the files' bytes in
/// walk order, as one buffer.
pub fn global_concat(files: &Vec<(String, Vec<u8>)>) -> (r: Vec<u8>)
    ensures
        r@ == concat_all(content_view(files@)),
{
    let ghost cv = content_view(files@);
    let mut r: Vec<u8> = Vec::new();
    let mut i: usize = 0;
    proof {
        assert(r@ + concat_from(cv, 0) =~= concat_all(cv));
    }
    while i < files.len()
        invariant
            0 <= i <= files@.len(),
            cv == content_view(files@),
            r@ + concat_from(cv, i as int) == concat_all(cv),
        decreases files@.len() - i,
    {
        let mut piece = vstd::slice::slice_to_vec(files[i].1.as_slice());
        r.append(&mut piece);
        proof {
            assert(r@ + concat_from(cv, i + 1) =~= concat_all(cv));
        }
        i = i + 1;
    }
    proof {
        assert(concat_from(cv, files@.len() as int) =~= Seq::<u8>::empty());
        assert(r@ =~= concat_all(cv));
    }
    r
}

/// The chunker's cut parameters: the smallest, expected, and largest chunk
/// size, in bytes.
#[derive(Clone, Copy)]
pub struct ChunkerConfig {
    pub min_size: u32,
    pub avg_size: u32,
    pub max_size: u32,
}

/// The parameter ranges the cut algorithm accepts: each bound even and
/// within its documented range, and the three bounds ordered.
pub open spec fn config_valid(c: ChunkerConfig) -> bool {
    &&& 64 <= c.min_size <= 1048576
    &&& 256 <= c.avg_size <= 4194304
    &&& 1024 <= c.max_size <= 16777216
    &&& c.min_size <= c.avg_size <= c.max_size
    &&& c.min_size % 2 == 0
    &&& c.avg_size % 2 == 0
    &&& c.max_size % 2 == 0
}

/// Total byte count of a run of chunk lengths.
pub open spec fn lens_total(s: Seq<usize>) -> int
    decreases s.len(),
{
    if s.len() == 0 {
        0
    } else {
        lens_total(s.drop_last()) + s.last()
    }
}

pub proof fn lemma_lens_total_step(s: Seq<usize>, j: int)
    requires
        0 <= j < s.len(),
    ensures
        lens_total(s.take(j + 1)) == lens_total(s.take(j)) + s[j],
{
    assert(s.take(j + 1).drop_last() =~= s.take(j));
    assert(s.take(j + 1).last() == s[j]);
}

pub proof fn lemma_lens_total_take_le(s: Seq<usize>, j: int)
    requires
        0 <= j <= s.len(),
    ensures
        lens_total(s.take(j)) <= lens_total(s),
        lens_total(s.take(j)) >= 0,
    decreases s.len() - j,
{
    if j == s.len() {
        assert(s.take(j) =~= s);
        lemma_lens_total_nonneg(s);
    } else {
        lemma_lens_total_step(s, j);
        lemma_lens_total_take_le(s, j + 1);
        lemma_lens_total_nonneg(s.take(j));
    }
}

pub proof fn lemma_lens_total_nonneg(s: Seq<usize>)
    ensures
        lens_total(s) >= 0,
    decreases s.len(),
{
    if s.len() > 0 {
        lemma_lens_total_nonneg(s.drop_last());
    }
}

/// The lengths into which the content-defined cut splits a byte string,
/// in order. The cut points are a pure function of the bytes and the three
/// size bounds, which is what makes chunking deterministic.
pub uninterp spec fn cdc_lengths(data: Seq<u8>, min_size: u32, avg_size: u32, max_size: u32) -> Seq<
    usize,
>;

/// Relies on fastcdc's v2020 chunker over a byte slice: the emitted chunks
/// tile the input in order; every chunk is nonempty and at most `max_size`
/// long; every chunk but the last is at least `min_size` long; and the cut
/// points depend on the bytes and the size bounds alone.
#[verifier::external_body]
fn cdc_chunk_lengths(data: &Vec<u8>, min_size: u32, avg_size: u32, max_size: u32) -> (r: Vec<
    usize,
>)
    requires
        64 <= min_size <= 1048576,
        256 <= avg_size <= 4194304,
        1024 <= max_size <= 16777216,
        min_size <= avg_size <= max_size,
        min_size % 2 == 0,
        avg_size % 2 == 0,
        max_size % 2 == 0,
    ensures
        r@ == cdc_lengths(data@, min_size, avg_size, max_size),
        lens_total(r@) == data@.len(),
        forall|j: int| 0 <= j < r@.len() ==> 1 <= #[trigger] r@[j] && r@[j] <= max_size,
        forall|j: int| 0 <= j < r@.len() - 1 ==> min_size <= #[trigger] r@[j],
{
    let chunker = fastcdc::v2020::FastCDC::new(
        data.as_slice(),
        min_size as usize,
        avg_size as usize,
        max_size as usize,
    );
    chunker.map(|c| c.length).collect()
}

/// One emitted chunk: the bytes of one span of the global stream, and the
/// ordered shares the files hold of that span.
pub struct Chunk {
    pub sources: Vec<ChunkSource>,
    pub data: Vec<u8>,
}

/// Cuts the global stream of a file list into content-defined chunks and
/// attributes every chunk back to the files it crosses. Emits chunks in
/// global-offset order; it is finite and not restartable.
pub struct Chunker {
    registry: FileRegistry,
    stream: Vec<u8>,
    lengths: Vec<usize>,
    emitted: usize,
    consumed: u64,
}

impl Chunker {
    /// The registry geometry the chunker resolves against.
    pub closed spec fn spec_registry(&self) -> Seq<(Seq<char>, nat)> {
        self.registry@
    }

    /// The global stream's bytes.
    pub closed spec fn spec_stream(&self) -> Seq<u8> {
        self.stream@
    }

    /// The chunk lengths, in emission order.
    pub closed spec fn spec_lengths(&self) -> Seq<usize> {
        self.lengths@
    }

    /// How many chunks have been emitted so far.
    pub closed spec fn spec_emitted(&self) -> int {
        self.emitted as int
    }

    pub closed spec fn wf(&self) -> bool {
        &&& self.registry.wf()
        &&& self.stream@.len() == prefix_len(self.registry@, self.registry@.len() as int)
        &&& lens_total(self.lengths@) == self.stream@.len()
        &&& 0 <= self.emitted <= self.lengths@.len()
        &&& self.consumed as int == lens_total(self.lengths@.take(self.emitted as int))
        &&& forall|j: int|
            0 <= j < self.lengths@.len() ==> 1 <= #[trigger] self.lengths@[j]
                && self.lengths@[j] <= u32::MAX
    }

    /// Builds the chunker over the given files' global stream with the
    /// given cut parameters.
    pub fn new(files: &Vec<(String, Vec<u8>)>, config: &ChunkerConfig) -> (r: Self)
        requires
            config_valid(*config),
            prefix_len(content_pairs(content_view(files@)), files@.len() as int) <= u64::MAX,
        ensures
            r.wf(),
            r.spec_registry() == content_pairs(content_view(files@)),
            r.spec_stream() == concat_all(content_view(files@)),
            r.spec_lengths() == cdc_lengths(
                concat_all(content_view(files@)),
                config.min_size,
                config.avg_size,
                config.max_size,
            ),
            r.spec_emitted() == 0,
            lens_total(r.spec_lengths()) == r.spec_stream().len(),
            forall|k: int|
                0 <= k < r.spec_lengths().len() - 1 ==> config.min_size <= #[trigger] r.spec_lengths()[k],
            forall|k: int|
                0 <= k < r.spec_lengths().len() ==> #[trigger] r.spec_lengths()[k] <= config.max_size,
    {
        let ghost cv = content_view(files@);
        let mut pairs: Vec<(String, u64)> = Vec::new();
        let mut i: usize = 0;
        while i < files.len()
            invariant
                0 <= i <= files@.len(),
                pairs@.len() == i,
                forall|j: int|
                    0 <= j < i ==> (#[trigger] pairs@[j]).0@ == files@[j].0@ && pairs@[j].1
                        == files@[j].1@.len(),
            decreases files@.len() - i,
        {
            let (path, data) = &files[i];
            pairs.push((path.clone(), data.len() as u64));
            i = i + 1;
        }
        proof {
            assert(Seq::new(pairs@.len(), |j: int| (pairs@[j].0@, pairs@[j].1 as nat))
                =~= content_pairs(cv));
        }
        let registry = FileRegistry::new(&pairs);
        let stream = global_concat(files);
        let lengths = cdc_chunk_lengths(
            &stream,
            config.min_size,
            config.avg_size,
            config.max_size,
        );
        let r = Chunker { registry, stream, lengths, emitted: 0, consumed: 0 };
        proof {
            lemma_concat_len(cv, 0);
            assert(r.lengths@.take(0) =~= Seq::<usize>::empty());
        }
        r
    }

    /// How many chunks the stream cuts into.
    pub fn chunk_count(&self) -> (n: usize)
        ensures
            n == self.spec_lengths().len(),
    {
        self.lengths.len()
    }

    /// The next chunk in global-offset order: its bytes are the next span
    /// of the stream, its sources are the shares the files hold of that
    /// span. Returns `None` exactly when every chunk has been emitted.
    pub fn next(&mut self) -> (r: Option<Chunk>)
        requires
            old(self).wf(),
        ensures
            final(self).wf(),
            final(self).spec_registry() == old(self).spec_registry(),
            final(self).spec_stream() == old(self).spec_stream(),
            final(self).spec_lengths() == old(self).spec_lengths(),
            match r {
                None => {
                    &&& old(self).spec_emitted() == old(self).spec_lengths().len()
                    &&& final(self).spec_emitted() == old(self).spec_emitted()
                },
                Some(chunk) => {
                    let j = old(self).spec_emitted();
                    let lo = lens_total(old(self).spec_lengths().take(j));
                    let hi = lo + old(self).spec_lengths()[j];
                    &&& j < old(self).spec_lengths().len()
                    &&& final(self).spec_emitted() == j + 1
                    &&& chunk.data@ == old(self).spec_stream().subrange(lo, hi)
                    &&& ({
                        let ps = spec_resolve(old(self).spec_registry(), lo, hi);
                        &&& chunk.sources@.len() == ps.len()
                        &&& forall|j2: int|
                            0 <= j2 < ps.len() ==> {
                                &&& (#[trigger] chunk.sources@[j2]).path@ == old(
                                    self,
                                ).spec_registry()[ps[j2].file].0
                                &&& chunk.sources@[j2].offset as int == ps[j2].offset
                                &&& chunk.sources@[j2].length as int == ps[j2].length
                            }
                    })
                },
            },
    {
        if self.emitted >= self.lengths.len() {
            return None;
        }
        let j = self.emitted;
        let len = self.lengths[j];
        proof {
            lemma_lens_total_step(self.lengths@, j as int);
            lemma_lens_total_take_le(self.lengths@, j as int + 1);
            lemma_lens_total_take_le(self.lengths@, j as int);
        }
        let lo = self.consumed;
        let hi = lo + (len as u64);
        let n = self.stream.len();
        proof {
            assert(hi as int <= n as int);
        }
        let piece = vstd::slice::slice_subrange(
            self.stream.as_slice(),
            lo as usize,
            hi as usize,
        );
        let data = vstd::slice::slice_to_vec(piece);
        let sources = self.registry.resolve_chunk(lo, len as u32);
        self.emitted = j + 1;
        self.consumed = hi;
        Some(Chunk { sources, data })
    }
}


/// Where a seek aims: an absolute position, a signed move from the current
/// position, or a signed move from the end of the window.
pub enum SeekWhence {
    Start(u64),
    Current(i64),
    End(i64),
}

/// A bounded read window over some underlying byte source: at most `limit`
/// bytes may be read, and seeks stay inside `[0, limit]`. The decisions
/// live here; the part that moves bytes from the actual source consults
/// this state machine.
pub struct SliceAsyncReader {
    position: u64,
    limit: u64,
}

impl SliceAsyncReader {
    /// How many bytes have been consumed.
    pub closed spec fn spec_position(&self) -> u64 {
        self.position
    }

    /// The window's size.
    pub closed spec fn spec_limit(&self) -> u64 {
        self.limit
    }

    /// A fresh window of `limit` bytes, positioned at its start.
    pub fn new(limit: u64) -> (r: Self)
        ensures
            r.spec_position() == 0,
            r.spec_limit() == limit,
    {
        SliceAsyncReader { position: 0, limit }
    }

    /// How many of the next `want` asked-for bytes may be read: all of
    /// them, up to what is left of the window. Zero exactly at the end of
    /// the window or when nothing is asked for.
    pub fn read_budget(&self, want: u64) -> (n: u64)
        requires
            self.spec_position() <= self.spec_limit(),
        ensures
            n == if self.spec_limit() - self.spec_position() < want {
                (self.spec_limit() - self.spec_position()) as u64
            } else {
                want
            },
            self.spec_position() + n <= self.spec_limit(),
    {
        let remaining = self.limit - self.position;
        if remaining < want {
            remaining
        } else {
            want
        }
    }

    /// Accounts for `n` bytes actually read.
    pub fn advance(&mut self, n: u64)
        requires
            old(self).spec_position() + n <= old(self).spec_limit(),
        ensures
            final(self).spec_position() == old(self).spec_position() + n,
            final(self).spec_limit() == old(self).spec_limit(),
    {
        self.position = self.position + n;
    }

    /// Resolves a seek against the window: the new position on success,
    /// and `Error::InvalidInput` exactly when the target lies before the
    /// start or past the end of the window.
    pub fn start_seek(&mut self, whence: SeekWhence) -> (r: Result<u64, Error>)
        ensures
            ({
                let target: int = match whence {
                    SeekWhence::Start(n) => n as int,
                    SeekWhence::Current(d) => old(self).spec_position() + d,
                    SeekWhence::End(d) => old(self).spec_limit() + d,
                };
                if 0 <= target <= old(self).spec_limit() {
                    &&& r is Ok
                    &&& r->Ok_0 as int == target
                    &&& final(self).spec_position() as int == target
                    &&& final(self).spec_limit() == old(self).spec_limit()
                } else {
                    &&& r == Err::<u64, Error>(Error::InvalidInput)
                    &&& *final(self) == *old(self)
                }
            }),
    {
        let new_position: u64 = match whence {
            SeekWhence::Start(n) => {
                if n > self.limit {
                    return Err(Error::InvalidInput);
                }
                n
            },
            SeekWhence::Current(d) => {
                match Self::offset_by(self.position, d) {
                    Some(p) => {
                        if p > self.limit {
                            return Err(Error::InvalidInput);
                        }
                        p
                    },
                    None => {
                        return Err(Error::InvalidInput);
                    },
                }
            },
            SeekWhence::End(d) => {
                match Self::offset_by(self.limit, d) {
                    Some(p) => {
                        if p > self.limit {
                            return Err(Error::InvalidInput);
                        }
                        p
                    },
                    None => {
                        return Err(Error::InvalidInput);
                    },
                }
            },
        };
        self.position = new_position;
        Ok(new_position)
    }

    /// The position reported after a completed seek.
    pub fn poll_complete(&self) -> (r: u64)
        ensures
            r == self.spec_position(),
    {
        self.position
    }

    /// `base` moved by the signed distance `d`, when that stays a `u64`.
    fn offset_by(base: u64, d: i64) -> (r: Option<u64>)
        ensures
            ({
                let target = base + d;
                match r {
                    Some(p) => 0 <= target <= u64::MAX && p as int == target,
                    None => !(0 <= target <= u64::MAX),
                }
            }),
    {
        if d >= 0 {
            let du = d as u64;
            if du > u64::MAX - base {
                None
            } else {
                Some(base + du)
            }
        } else {
            let m: u64 = if d == i64::MIN {
                0x8000000000000000u64
            } else {
                (-d) as u64
            };
            if m > base {
                None
            } else {
                Some(base - m)
            }
        }
    }
}

} // verus!
