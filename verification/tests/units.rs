//! Unit-level checks: the key codec, the blob store, the snapshot codec,
//! the bounded reader and writer, and each error variant.

use lepatch::error::Error;
use lepatch::index::last_version;
use lepatch::metadata::{Chunk, File, FileChunk, Snapshot};
use lepatch::reader::{FileRegistry, SeekWhence, SliceAsyncReader};
use lepatch::restore::restore_snapshot;
use lepatch::codec::{decode_snapshot, encode_snapshot};
use lepatch::storage::{decode_key, encode_key, BlobStore};
use lepatch::writer::SliceAsyncWriter;

#[test]
fn key_codec_round_trip() {
    assert_eq!(decode_key(encode_key(0, 0).as_str()), Some((0, 0)));
    assert_eq!(decode_key(encode_key(5, 7).as_str()), Some((5, 7)));
    assert_eq!(
        decode_key(encode_key(u64::MAX, 1234567890123).as_str()),
        Some((u64::MAX, 1234567890123))
    );
    // the canonical form is 32 lower-case hexadecimal digits
    assert_eq!(encode_key(0, 0), "00000000000000000000000000000000");
    assert_eq!(encode_key(255, 16), "00000000000000ff0000000000000010");
}

#[test]
fn key_codec_rejects_noncanonical_text() {
    assert_eq!(decode_key(""), None);
    assert_eq!(decode_key("xyz"), None);
    assert_eq!(decode_key("0000000000000000000000000000001"), None); // 31 digits
    assert_eq!(decode_key("000000000000000000000000000000100"), None); // 33 digits
    assert_eq!(decode_key("00000000000000FF0000000000000010"), None); // upper case
    assert_eq!(decode_key("{\"offset\":0,\"length\":0}"), None);
}

#[test]
fn blob_store_put_then_get() {
    let mut store = BlobStore::new();
    let first = b"hello".to_vec();
    let second = b"world!".to_vec();
    let k1 = store.put(&first);
    let k2 = store.put(&second);
    assert_eq!(store.len(), 11);
    assert_eq!(store.get(&k1).unwrap(), first);
    assert_eq!(store.get(&k2).unwrap(), second);
}

#[test]
fn blob_store_rejects_bad_keys() {
    let mut store = BlobStore::new();
    let _ = store.put(&b"abc".to_vec());
    // malformed key text
    assert_eq!(store.get(&"not a key".to_string()), Err(Error::InvalidInput));
    // canonical key whose range lies outside the store
    let beyond = encode_key(2, 10);
    assert_eq!(store.get(&beyond), Err(Error::InvalidInput));
}

#[test]
fn snapshot_blob_must_decode() {
    let mut store = BlobStore::new();
    let key = store.put(&b"definitely not a snapshot".to_vec());
    match restore(&key, &store) {
        Err(Error::InvalidData) => {},
        other => panic!("expected InvalidData, got {:?}", other.map(|_| ())),
    }
}

use lepatch::restore::restore;

#[test]
fn restore_verifies_chunk_digests() {
    let mut store = BlobStore::new();
    let payload = b"chunk payload".to_vec();
    let location = store.put(&payload);
    let snapshot = Snapshot {
        files: vec![File { path: "a".to_string() }],
        chunks: vec![Chunk { hash: vec![0u8; 32], location }],
        file_chunks: vec![FileChunk {
            chunk_index: 0,
            file_index: 0,
            chunk_offset: 0,
            file_offset: 0,
            length: payload.len() as u32,
        }],
        file_symlink: Vec::new(),
    };
    assert_eq!(
        restore_snapshot(&snapshot, &store).err(),
        Some(Error::Integrity)
    );
}

#[test]
fn restore_rejects_out_of_range_rows() {
    let mut store = BlobStore::new();
    let payload = b"chunk payload".to_vec();
    let location = store.put(&payload);
    let hash = blake3::hash(&payload).as_bytes().to_vec();
    let snapshot = Snapshot {
        files: vec![File { path: "a".to_string() }],
        chunks: vec![Chunk { hash, location }],
        file_chunks: vec![FileChunk {
            chunk_index: 0,
            file_index: 9, // no such file
            chunk_offset: 0,
            file_offset: 0,
            length: payload.len() as u32,
        }],
        file_symlink: Vec::new(),
    };
    assert_eq!(
        restore_snapshot(&snapshot, &store).err(),
        Some(Error::InvalidData)
    );
}

#[test]
fn registry_resolves_spans_to_files() {
    let files = vec![
        ("a".to_string(), 10u64),
        ("empty".to_string(), 0u64),
        ("b".to_string(), 5u64),
    ];
    let registry = FileRegistry::new(&files);
    // a span crossing the file boundary touches both nonempty files
    let sources = registry.resolve_chunk(8, 4);
    assert_eq!(sources.len(), 2);
    assert_eq!(sources[0].path, "a");
    assert_eq!(sources[0].offset, 8);
    assert_eq!(sources[0].length, 2);
    assert_eq!(sources[1].path, "b");
    assert_eq!(sources[1].offset, 0);
    assert_eq!(sources[1].length, 2);
    // a span inside one file yields one share
    let sources = registry.resolve_chunk(0, 10);
    assert_eq!(sources.len(), 1);
    assert_eq!(sources[0].path, "a");
    assert_eq!(sources[0].length, 10);
    // a span past the end yields nothing
    let sources = registry.resolve_chunk(15, 3);
    assert_eq!(sources.len(), 0);
}

#[test]
fn bounded_reader_budget_and_seek() {
    let mut reader = SliceAsyncReader::new(100);
    assert_eq!(reader.read_budget(30), 30);
    reader.advance(30);
    assert_eq!(reader.read_budget(1000), 70);
    assert_eq!(reader.start_seek(SeekWhence::Start(50)), Ok(50));
    assert_eq!(reader.start_seek(SeekWhence::Current(-10)), Ok(40));
    assert_eq!(reader.start_seek(SeekWhence::End(-100)), Ok(0));
    assert_eq!(reader.start_seek(SeekWhence::End(0)), Ok(100));
    assert_eq!(reader.read_budget(1), 0);
    assert_eq!(reader.poll_complete(), 100);
    // seeks outside the window fail and move nothing
    assert_eq!(
        reader.start_seek(SeekWhence::Start(101)),
        Err(Error::InvalidInput)
    );
    assert_eq!(
        reader.start_seek(SeekWhence::Current(-101)),
        Err(Error::InvalidInput)
    );
    assert_eq!(reader.start_seek(SeekWhence::End(1)), Err(Error::InvalidInput));
    assert_eq!(reader.poll_complete(), 100);
}

#[test]
fn bounded_writer_budget() {
    let mut writer = SliceAsyncWriter::new(10);
    assert_eq!(writer.write_budget(4), 4);
    writer.record_written(4);
    assert_eq!(writer.write_budget(100), 6);
    writer.record_written(6);
    assert!(writer.is_done());
    assert_eq!(writer.write_budget(5), 0);
}

#[test]
fn version_numbering_from_file_names() {
    let names = vec![
        "backup.001.idx".to_string(),
        "backup.007.idx".to_string(),
        "backup.003.idx".to_string(),
        "other.099.idx".to_string(),
        "backup.12.idx".to_string(),   // two digits, not three
        "backup.abc.idx".to_string(),  // not digits
        "backup.007.bin".to_string(),  // wrong extension
        "deep.backup.008.idx".to_string(),
    ];
    assert_eq!(last_version(&names, "backup"), Some(7));
    assert_eq!(last_version(&names, "other"), Some(99));
    assert_eq!(last_version(&names, "missing"), None);
    // a dotted name can never match the shape
    assert_eq!(last_version(&names, "deep.backup"), None);
    assert_eq!(last_version(&Vec::new(), "backup"), None);
}

#[test]
fn blob_store_round_trips_through_bytes() {
    let mut store = BlobStore::new();
    let key = store.put(&b"payload".to_vec());
    let reopened = BlobStore::from_bytes(store.bytes().clone());
    assert_eq!(reopened.get(&key).unwrap(), b"payload".to_vec());
}

#[test]
fn snapshot_codec_round_trip() {
    let snapshot = Snapshot {
        files: vec![File { path: "dir/a".to_string() }, File { path: "b\u{00e9}".to_string() }],
        chunks: vec![Chunk {
            hash: blake3::hash(b"x").as_bytes().to_vec(),
            location: encode_key(3, 9),
        }],
        file_chunks: vec![FileChunk {
            chunk_index: 0,
            file_index: 1,
            chunk_offset: 2,
            file_offset: 3,
            length: 4,
        }],
        file_symlink: vec![lepatch::metadata::FileSymlink {
            path: "l".to_string(),
            source: "dir/a".to_string(),
            is_hard: true,
        }],
    };
    let bytes = encode_snapshot(&snapshot);
    let back = decode_snapshot(&bytes).unwrap();
    assert_eq!(back.files.len(), 2);
    assert_eq!(back.files[0].path, "dir/a");
    assert_eq!(back.files[1].path, "b\u{00e9}");
    assert_eq!(back.chunks[0].hash, snapshot.chunks[0].hash);
    assert_eq!(back.chunks[0].location, snapshot.chunks[0].location);
    assert_eq!(back.file_chunks[0], snapshot.file_chunks[0]);
    assert_eq!(back.file_symlink[0].path, "l");
    assert_eq!(back.file_symlink[0].source, "dir/a");
    assert!(back.file_symlink[0].is_hard);
    // a truncated encoding is rejected
    let mut cut = bytes.clone();
    cut.pop();
    assert_eq!(decode_snapshot(&cut).err(), Some(Error::InvalidData));
    // trailing garbage is rejected
    let mut long = bytes.clone();
    long.push(0);
    assert_eq!(decode_snapshot(&long).err(), Some(Error::InvalidData));
}
