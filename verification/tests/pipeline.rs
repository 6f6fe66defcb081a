//! End-to-end scenarios: backup a tree given as plain values, then restore
//! it and compare byte for byte.

use lepatch::backup::{backup, FileId, WalkItem, WalkKind};
use lepatch::metadata::FileChunk;
use lepatch::reader::ChunkerConfig;
use lepatch::restore::restore;
use lepatch::storage::{decode_key, BlobStore};

fn default_config() -> ChunkerConfig {
    ChunkerConfig { min_size: 8 * 1024, avg_size: 16 * 1024, max_size: 64 * 1024 }
}

fn regular(path: &str, data: Vec<u8>) -> WalkItem {
    WalkItem { path: path.to_string(), kind: WalkKind::Regular { file_id: None, data } }
}

fn regular_with_id(path: &str, id: (u64, u64), data: Vec<u8>) -> WalkItem {
    WalkItem {
        path: path.to_string(),
        kind: WalkKind::Regular {
            file_id: Some(FileId { volume_id: id.0, file_index: id.1 }),
            data,
        },
    }
}

fn symlink(path: &str, target: &str) -> WalkItem {
    WalkItem { path: path.to_string(), kind: WalkKind::Symlink { target: target.to_string() } }
}

/// Deterministic pseudo-random bytes for chunk-boundary tests.
fn noise(n: usize) -> Vec<u8> {
    let mut out = Vec::with_capacity(n);
    let mut x: u64 = 0x243f6a8885a308d3;
    for _ in 0..n {
        x = x.wrapping_mul(6364136223846793005).wrapping_add(1442695040888963407);
        out.push((x >> 56) as u8);
    }
    out
}

#[test]
fn empty_tree() {
    let mut store = BlobStore::new();
    let items: Vec<WalkItem> = Vec::new();
    let (snapshot, key) = backup(&items, None, &mut store, &default_config()).unwrap();
    assert_eq!(snapshot.files.len(), 0);
    assert_eq!(snapshot.chunks.len(), 0);
    assert_eq!(snapshot.file_chunks.len(), 0);
    assert_eq!(snapshot.file_symlink.len(), 0);
    // the blob file holds only the serialized snapshot
    let (offset, length) = decode_key(key.as_str()).unwrap();
    assert_eq!(offset, 0);
    assert_eq!(offset as usize + length as usize, store.len());
    let tree = restore(&key, &store).unwrap();
    assert_eq!(tree.files.len(), 0);
    assert_eq!(tree.links.len(), 0);
}

#[test]
fn single_one_byte_file() {
    let mut store = BlobStore::new();
    let items = vec![regular("a", vec![0x41])];
    let (snapshot, key) = backup(&items, None, &mut store, &default_config()).unwrap();
    assert_eq!(snapshot.files.len(), 1);
    assert_eq!(snapshot.files[0].path, "a");
    assert_eq!(snapshot.chunks.len(), 1);
    assert_eq!(snapshot.file_chunks.len(), 1);
    let row = snapshot.file_chunks[0];
    assert_eq!(row.chunk_index, 0);
    assert_eq!(row.file_index, 0);
    assert_eq!(row.chunk_offset, 0);
    assert_eq!(row.file_offset, 0);
    assert_eq!(row.length, 1);
    // the recorded digest is the BLAKE3 digest of the byte
    assert_eq!(snapshot.chunks[0].hash.as_slice(), blake3::hash(&[0x41]).as_bytes());
    let tree = restore(&key, &store).unwrap();
    assert_eq!(tree.files.len(), 1);
    assert_eq!(tree.files[0].path, "a");
    assert_eq!(tree.files[0].data, vec![0x41]);
}

#[test]
fn dedup_against_base_appends_no_chunk_bytes() {
    // boundaries align when the maximum chunk size equals the file size
    let config = ChunkerConfig { min_size: 8 * 1024, avg_size: 16 * 1024, max_size: 32 * 1024 };
    let zeros = vec![0u8; 32 * 1024];
    let mut store = BlobStore::new();
    let first = vec![regular("a", zeros.clone())];
    let (base_snapshot, base_key) = backup(&first, None, &mut store, &config).unwrap();
    let len_after_first = store.len();
    let both = vec![regular("a", zeros.clone()), regular("b", zeros.clone())];
    let (snapshot, key) = backup(&both, Some(&base_key), &mut store, &config).unwrap();
    assert_eq!(snapshot.files.len(), 2);
    // no chunk bytes beyond the newly serialized snapshot
    let (offset, length) = decode_key(key.as_str()).unwrap();
    assert_eq!(offset as usize, len_after_first);
    assert_eq!(offset as usize + length as usize, store.len());
    // every chunk entry is copied verbatim from the base snapshot
    for chunk in &snapshot.chunks {
        assert!(base_snapshot.chunks.iter().any(|b| b.hash == chunk.hash
            && b.location == chunk.location));
    }
    let tree = restore(&key, &store).unwrap();
    assert_eq!(tree.files[0].data, zeros);
    assert_eq!(tree.files[1].data, zeros);
}

#[test]
fn hardlink_pair() {
    let mut store = BlobStore::new();
    let data = b"shared bytes".to_vec();
    let items = vec![
        regular_with_id("a", (7, 42), data.clone()),
        regular_with_id("b", (7, 42), data.clone()),
    ];
    let (snapshot, key) = backup(&items, None, &mut store, &default_config()).unwrap();
    assert_eq!(snapshot.files.len(), 1);
    assert_eq!(snapshot.files[0].path, "a");
    assert_eq!(snapshot.file_symlink.len(), 1);
    assert_eq!(snapshot.file_symlink[0].path, "b");
    assert_eq!(snapshot.file_symlink[0].source, "a");
    assert!(snapshot.file_symlink[0].is_hard);
    let tree = restore(&key, &store).unwrap();
    assert_eq!(tree.files.len(), 1);
    assert_eq!(tree.links.len(), 1);
    assert!(tree.links[0].is_hard);
    assert_eq!(tree.links[0].source, "a");
}

#[test]
fn symlink_recorded_verbatim() {
    let mut store = BlobStore::new();
    let items = vec![symlink("link", "target_that_may_not_exist")];
    let (snapshot, key) = backup(&items, None, &mut store, &default_config()).unwrap();
    assert_eq!(snapshot.files.len(), 0);
    assert_eq!(snapshot.file_symlink.len(), 1);
    assert_eq!(snapshot.file_symlink[0].path, "link");
    assert_eq!(snapshot.file_symlink[0].source, "target_that_may_not_exist");
    assert!(!snapshot.file_symlink[0].is_hard);
    let tree = restore(&key, &store).unwrap();
    assert_eq!(tree.links.len(), 1);
    assert_eq!(tree.links[0].source, "target_that_may_not_exist");
    assert!(!tree.links[0].is_hard);
}

#[test]
fn file_spanning_several_chunks() {
    let mut store = BlobStore::new();
    let data = noise(200 * 1024);
    let items = vec![regular("big", data.clone())];
    let (snapshot, key) = backup(&items, None, &mut store, &default_config()).unwrap();
    // at least three rows covering [0, 200 KiB) contiguously
    assert!(snapshot.file_chunks.len() >= 3);
    let mut expected_offset: u64 = 0;
    for row in &snapshot.file_chunks {
        assert_eq!(row.file_index, 0);
        assert_eq!(row.file_offset, expected_offset);
        assert!(row.length > 0);
        expected_offset += row.length as u64;
    }
    assert_eq!(expected_offset, data.len() as u64);
    let tree = restore(&key, &store).unwrap();
    assert_eq!(tree.files[0].data, data);
}

#[test]
fn round_trip_mixed_tree() {
    let mut store = BlobStore::new();
    let items = vec![
        regular("dir/empty", Vec::new()),
        regular_with_id("dir/first", (1, 10), noise(70 * 1024)),
        regular_with_id("dir/hard", (1, 10), noise(70 * 1024)),
        symlink("dir/link", "first"),
        regular("z\u{00e9}ta.txt", b"accented path".to_vec()),
    ];
    let (snapshot, key) = backup(&items, None, &mut store, &default_config()).unwrap();
    assert_eq!(snapshot.files.len(), 3);
    let tree = restore(&key, &store).unwrap();
    assert_eq!(tree.files.len(), 3);
    assert_eq!(tree.files[0].path, "dir/empty");
    assert_eq!(tree.files[0].data, Vec::<u8>::new());
    assert_eq!(tree.files[1].path, "dir/first");
    assert_eq!(tree.files[1].data, noise(70 * 1024));
    assert_eq!(tree.files[2].path, "z\u{00e9}ta.txt");
    assert_eq!(tree.files[2].data, b"accented path".to_vec());
    assert_eq!(tree.links.len(), 2);
    assert_eq!(tree.links[0].path, "dir/hard");
    assert_eq!(tree.links[0].source, "dir/first");
    assert!(tree.links[0].is_hard);
    assert_eq!(tree.links[1].path, "dir/link");
    assert!(!tree.links[1].is_hard);
}

#[test]
fn deterministic_backups() {
    let data = noise(100 * 1024);
    let items = vec![regular("a", data.clone()), regular("b", b"second".to_vec())];
    let mut store1 = BlobStore::new();
    let mut store2 = BlobStore::new();
    // the second store already holds unrelated bytes, so keys differ
    let _ = store2.put(&b"unrelated".to_vec());
    let (s1, _) = backup(&items, None, &mut store1, &default_config()).unwrap();
    let (s2, _) = backup(&items, None, &mut store2, &default_config()).unwrap();
    assert_eq!(s1.files.len(), s2.files.len());
    for (a, b) in s1.files.iter().zip(s2.files.iter()) {
        assert_eq!(a.path, b.path);
    }
    assert_eq!(s1.chunks.len(), s2.chunks.len());
    for (a, b) in s1.chunks.iter().zip(s2.chunks.iter()) {
        assert_eq!(a.hash, b.hash);
    }
    let rows1: Vec<FileChunk> = s1.file_chunks.clone();
    let rows2: Vec<FileChunk> = s2.file_chunks.clone();
    assert_eq!(rows1.len(), rows2.len());
    for (a, b) in rows1.iter().zip(rows2.iter()) {
        assert_eq!(a, b);
    }
}

#[test]
fn hash_consistency_of_stored_chunks() {
    let mut store = BlobStore::new();
    let items = vec![regular("a", noise(150 * 1024)), regular("b", noise(9 * 1024))];
    let (snapshot, _key) = backup(&items, None, &mut store, &default_config()).unwrap();
    assert!(snapshot.chunks.len() >= 2);
    for chunk in &snapshot.chunks {
        let bytes = store.get(&chunk.location).unwrap();
        assert_eq!(blake3::hash(&bytes).as_bytes(), chunk.hash.as_slice());
    }
}

#[test]
fn idempotent_restore() {
    let mut store = BlobStore::new();
    let items = vec![regular("a", noise(40 * 1024)), symlink("l", "a")];
    let (_snapshot, key) = backup(&items, None, &mut store, &default_config()).unwrap();
    let t1 = restore(&key, &store).unwrap();
    let t2 = restore(&key, &store).unwrap();
    assert_eq!(t1.files.len(), t2.files.len());
    for (a, b) in t1.files.iter().zip(t2.files.iter()) {
        assert_eq!(a.path, b.path);
        assert_eq!(a.data, b.data);
    }
    assert_eq!(t1.links.len(), t2.links.len());
}

#[test]
fn base_chunks_reused_for_unchanged_tree() {
    let mut store = BlobStore::new();
    let items = vec![regular("a", noise(120 * 1024))];
    let (first, first_key) = backup(&items, None, &mut store, &default_config()).unwrap();
    let len_after_first = store.len();
    let (second, second_key) =
        backup(&items, Some(&first_key), &mut store, &default_config()).unwrap();
    let (offset, length) = decode_key(second_key.as_str()).unwrap();
    assert_eq!(offset as usize, len_after_first);
    assert_eq!(offset as usize + length as usize, store.len());
    assert_eq!(first.chunks.len(), second.chunks.len());
    for (a, b) in first.chunks.iter().zip(second.chunks.iter()) {
        assert_eq!(a.location, b.location);
        assert_eq!(a.hash, b.hash);
    }
    let tree = restore(&second_key, &store).unwrap();
    assert_eq!(tree.files[0].data, noise(120 * 1024));
}

#[test]
fn one_chunk_spanning_two_files() {
    // 2 x 32 KiB of zeros concatenate to one 64 KiB chunk with two shares
    let mut store = BlobStore::new();
    let zeros = vec![0u8; 32 * 1024];
    let items = vec![regular("a", zeros.clone()), regular("b", zeros.clone())];
    let (snapshot, key) = backup(&items, None, &mut store, &default_config()).unwrap();
    assert_eq!(snapshot.files.len(), 2);
    assert_eq!(snapshot.chunks.len(), 1);
    assert_eq!(snapshot.file_chunks.len(), 2);
    let first = snapshot.file_chunks[0];
    let second = snapshot.file_chunks[1];
    assert_eq!(first.chunk_index, 0);
    assert_eq!(first.file_index, 0);
    assert_eq!(first.chunk_offset, 0);
    assert_eq!(first.length, 32 * 1024);
    assert_eq!(second.chunk_index, 0);
    assert_eq!(second.file_index, 1);
    assert_eq!(second.chunk_offset, 32 * 1024);
    assert_eq!(second.file_offset, 0);
    assert_eq!(second.length, 32 * 1024);
    let tree = restore(&key, &store).unwrap();
    assert_eq!(tree.files[0].data, zeros);
    assert_eq!(tree.files[1].data, zeros);
}

#[test]
fn incremental_backup_reuses_unchanged_chunks() {
    let mut store = BlobStore::new();
    let unchanged = noise(200 * 1024);
    let first_items = vec![regular("a", unchanged.clone())];
    let (first, first_key) = backup(&first_items, None, &mut store, &default_config()).unwrap();
    let mut added = noise(40 * 1024);
    added.reverse();
    let second_items = vec![regular("a", unchanged.clone()), regular("b", added.clone())];
    let (second, second_key) =
        backup(&second_items, Some(&first_key), &mut store, &default_config()).unwrap();
    // the unchanged prefix cuts at the same points, so early chunks are
    // copied verbatim from the base snapshot
    let reused = second
        .chunks
        .iter()
        .filter(|c| first.chunks.iter().any(|b| b.location == c.location))
        .count();
    assert!(reused >= 1);
    let tree = restore(&second_key, &store).unwrap();
    assert_eq!(tree.files[0].data, unchanged);
    assert_eq!(tree.files[1].data, added);
}
