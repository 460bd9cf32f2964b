use std::collections::HashMap;

use base64::{engine::general_purpose::STANDARD, Engine};
use binfs::chunks::{ChunkError, ChunkWrite};
use binfs::{ChunkStore, FileManifest};

/// An in-memory set of bins: (bin, key) to stored text.
#[derive(Default)]
struct MemBins {
    values: HashMap<(String, String), String>,
}

impl MemBins {
    fn apply(&mut self, writes: &[ChunkWrite]) {
        for w in writes {
            self.values
                .insert((w.bin.clone(), w.key.clone()), w.value.clone());
        }
    }

    fn set(&mut self, bin: &str, key: &str, value: String) {
        self.values.insert((bin.to_string(), key.to_string()), value);
    }

    fn stored_for(&self, manifest: &FileManifest) -> Vec<Option<String>> {
        manifest
            .chunks
            .iter()
            .map(|c| {
                self.values
                    .get(&(c.bin.clone(), c.key.clone()))
                    .filter(|v| !v.is_empty())
                    .cloned()
            })
            .collect()
    }
}

fn store(bins: &mut MemBins, store: &ChunkStore, data: &[u8], modified_ms: u64) -> FileManifest {
    let (manifest, writes) = store.plan_store(data, modified_ms);
    bins.apply(&writes);
    manifest
}

fn load(bins: &MemBins, manifest: &FileManifest) -> Result<Vec<u8>, ChunkError> {
    ChunkStore::load_chunks(manifest, &bins.stored_for(manifest))
}

#[test]
fn chunks_round_trip_binary_data() {
    let mut bins = MemBins::default();
    let chunk_store = ChunkStore::new(3, 4);
    let data = b"\0abc\xffhello world".to_vec();

    let manifest = store(&mut bins, &chunk_store, &data, 12);
    assert_eq!(manifest.chunks.len(), 6);
    assert_eq!(load(&bins, &manifest).unwrap(), data);
}

#[test]
fn bin_hashing_is_stable() {
    let store = ChunkStore::new(64, 128);

    assert_eq!(
        store.data_bin_name("000000000000000faaaaaaaaaaaaaaaa"),
        "__fs_data_15"
    );
    assert_eq!(
        store.data_bin_name("0000000000000080aaaaaaaaaaaaaaaa"),
        "__fs_data_0"
    );
}

#[test]
fn corrupted_chunk_is_rejected() {
    let mut bins = MemBins::default();
    let chunk_store = ChunkStore::new(4, 2);
    let manifest = store(&mut bins, &chunk_store, b"abcdef", 1);
    let first = &manifest.chunks[0];
    bins.set(&first.bin, &first.key, STANDARD.encode(b"zzzz"));

    assert!(load(&bins, &manifest).is_err());
}

#[test]
fn missing_chunk_is_rejected() {
    let mut bins = MemBins::default();
    let chunk_store = ChunkStore::new(4, 2);
    let manifest = store(&mut bins, &chunk_store, b"abcdefgh", 1);
    let first = &manifest.chunks[0];
    bins.set(&first.bin, &first.key, String::new());

    assert!(load(&bins, &manifest).is_err());
}

#[test]
fn truncated_chunk_is_rejected() {
    let mut bins = MemBins::default();
    let chunk_store = ChunkStore::new(4, 2);
    let manifest = store(&mut bins, &chunk_store, b"abcdefgh", 1);
    let first = &manifest.chunks[0];
    bins.set(&first.bin, &first.key, STANDARD.encode(b"abc"));

    assert!(load(&bins, &manifest).is_err());
}

#[test]
fn reordered_chunks_are_rejected() {
    let mut bins = MemBins::default();
    let chunk_store = ChunkStore::new(4, 2);
    let mut manifest = store(&mut bins, &chunk_store, b"abcdefgh", 1);
    manifest.chunks.swap(0, 1);

    assert!(load(&bins, &manifest).is_err());
}

#[test]
fn empty_and_boundary_sized_files_round_trip() {
    let mut bins = MemBins::default();
    let chunk_store = ChunkStore::new(4, 2);

    let empty = store(&mut bins, &chunk_store, &[], 1);
    assert!(empty.chunks.is_empty());
    assert_eq!(load(&bins, &empty).unwrap(), Vec::<u8>::new());

    let boundary = store(&mut bins, &chunk_store, b"abcdefgh", 2);
    assert_eq!(boundary.chunks.len(), 2);
    assert_eq!(load(&bins, &boundary).unwrap(), b"abcdefgh");
}

#[test]
fn manifest_records_size_chunk_size_and_time() {
    let chunk_store = ChunkStore::new(4, 2);
    let (manifest, writes) = chunk_store.plan_store(b"abcdefghij", 77);
    assert_eq!(manifest.size, 10);
    assert_eq!(manifest.chunk_size, 4);
    assert_eq!(manifest.modified_ms, 77);
    assert_eq!(writes.len(), 3);
    let lens: Vec<usize> = manifest.chunks.iter().map(|c| c.len).collect();
    assert_eq!(lens, vec![4, 4, 2]);
    assert_eq!(chunk_store.chunk_size(), 4);
}

#[test]
fn chunk_keys_and_values_come_from_hash_and_base64() {
    let chunk_store = ChunkStore::new(4, 2);
    let (manifest, writes) = chunk_store.plan_store(b"abcd", 0);
    let hash = blake3::hash(b"abcd").to_hex().to_string();
    assert_eq!(manifest.chunks[0].hash, hash);
    assert_eq!(manifest.chunks[0].key, format!("chunk:{hash}"));
    assert_eq!(manifest.chunks[0].bin, chunk_store.data_bin_name(&hash));
    assert_eq!(writes[0].value, STANDARD.encode(b"abcd"));
    assert_eq!(writes[0].key, manifest.chunks[0].key);
    assert_eq!(manifest.content_hash, hash);
}

#[test]
fn empty_manifest_hashes_no_bytes() {
    let manifest = FileManifest::empty(4, 9);
    assert_eq!(manifest.size, 0);
    assert_eq!(manifest.chunk_size, 4);
    assert!(manifest.chunks.is_empty());
    assert_eq!(manifest.modified_ms, 9);
    assert_eq!(manifest.content_hash, blake3::hash(&[]).to_hex().to_string());
}

#[test]
fn short_or_non_hex_hashes_pick_bin_zero_or_short_prefix() {
    let store = ChunkStore::new(4, 10);
    assert_eq!(store.data_bin_name("zz"), "__fs_data_0");
    assert_eq!(store.data_bin_name("1f"), "__fs_data_1");
    let no_bins = ChunkStore::new(4, 0);
    assert_eq!(no_bins.data_bin_name("ff"), "__fs_data_0");
}

#[test]
fn each_chunk_error_has_its_input() {
    let chunk_store = ChunkStore::new(4, 2);
    let (manifest, _) = chunk_store.plan_store(b"abcd", 0);
    let chunk = &manifest.chunks[0];

    assert!(matches!(
        ChunkStore::check_chunk(chunk, &None),
        Err(ChunkError::Missing(k)) if k == chunk.key
    ));
    assert!(matches!(
        ChunkStore::check_chunk(chunk, &Some("%%%".to_string())),
        Err(ChunkError::Undecodable(k)) if k == chunk.key
    ));
    assert!(matches!(
        ChunkStore::check_chunk(chunk, &Some(STANDARD.encode(b"abce"))),
        Err(ChunkError::Corrupt(k)) if k == chunk.key
    ));
    assert_eq!(
        ChunkStore::check_chunk(chunk, &Some(STANDARD.encode(b"abcd"))).unwrap(),
        b"abcd".to_vec()
    );
    assert!(matches!(
        ChunkStore::load_chunks(&manifest, &vec![]),
        Err(ChunkError::Mismatch)
    ));
    let mut wrong_size = manifest.clone();
    wrong_size.size = 5;
    assert!(matches!(
        ChunkStore::load_chunks(&wrong_size, &vec![Some(STANDARD.encode(b"abcd"))]),
        Err(ChunkError::Mismatch)
    ));
}

#[test]
fn the_first_failing_chunk_names_the_error() {
    let chunk_store = ChunkStore::new(2, 3);
    let (manifest, writes) = chunk_store.plan_store(b"abcdef", 0);
    let stored = vec![
        Some(writes[0].value.clone()),
        None,
        Some("!!".to_string()),
    ];
    assert!(matches!(
        ChunkStore::load_chunks(&manifest, &stored),
        Err(ChunkError::Missing(k)) if k == manifest.chunks[1].key
    ));
    let stored = vec![
        Some(writes[0].value.clone()),
        Some("!!".to_string()),
        None,
    ];
    assert!(matches!(
        ChunkStore::load_chunks(&manifest, &stored),
        Err(ChunkError::Undecodable(k)) if k == manifest.chunks[1].key
    ));
}
