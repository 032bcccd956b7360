use p2sync::chunk::{DEFAULT_CHUNK_SIZE, file_hash, metadata, split};

const CS: usize = DEFAULT_CHUNK_SIZE;

#[test]
fn empty_data_produces_no_chunks() {
    let (metas, chunks) = split(b"", CS);
    assert!(metas.is_empty());
    assert!(chunks.is_empty());
}

#[test]
fn small_data_produces_single_chunk() {
    let data = b"hello world";
    let (metas, chunks) = split(data, CS);

    assert_eq!(metas.len(), 1);
    assert_eq!(chunks.len(), 1);
    assert_eq!(metas[0].index, 0);
    assert_eq!(metas[0].offset, 0);
    assert_eq!(metas[0].len, data.len() as u32);
    assert_eq!(chunks[0].data, data.to_vec());
    assert_eq!(metas[0].hash, chunks[0].hash);
}

#[test]
fn data_splits_at_chunk_boundary() {
    let data = vec![0xAB; CS * 3];
    let (metas, chunks) = split(&data, CS);

    assert_eq!(metas.len(), 3);
    assert_eq!(chunks.len(), 3);

    for (i, meta) in metas.iter().enumerate() {
        assert_eq!(meta.index, i);
        assert_eq!(meta.offset, (i * CS) as u64);
        assert_eq!(meta.len, CS as u32);
    }
}

#[test]
fn data_with_remainder_chunk() {
    let data = vec![0xCD; CS * 2 + 100];
    let (metas, chunks) = split(&data, CS);

    assert_eq!(metas.len(), 3);
    assert_eq!(metas[2].len, 100);
    assert_eq!(chunks[2].data.len(), 100);
}

#[test]
fn chunk_hash_matches_blake3() {
    let data = b"test data for hashing";
    let expected = *blake3::hash(data).as_bytes();
    let (metas, chunks) = split(data, CS);

    assert_eq!(metas[0].hash, expected);
    assert_eq!(chunks[0].hash, expected);
}

#[test]
fn metadata_matches_split() {
    let data = vec![0xFF; CS * 2 + 500];
    let (metas_from_split, _) = split(&data, CS);
    let metas_from_fn = metadata(&data, CS);

    assert_eq!(metas_from_split, metas_from_fn);
}

#[test]
fn file_hash_is_deterministic() {
    let data = vec![0x42; CS + 1];
    let metas = metadata(&data, CS);
    let h1 = file_hash(&metas);
    let h2 = file_hash(&metas);
    assert_eq!(h1, h2);
}

#[test]
fn file_hash_changes_with_content() {
    let data_a = vec![0x00; CS + 1];
    let data_b = vec![0x01; CS + 1];
    let h_a = file_hash(&metadata(&data_a, CS));
    let h_b = file_hash(&metadata(&data_b, CS));
    assert_ne!(h_a, h_b);
}

#[test]
fn reassembled_chunks_match_original() {
    let data = vec![0xDE; CS * 3 + 42];
    let (_, chunks) = split(&data, CS);
    let reassembled: Vec<u8> = chunks.iter().flat_map(|c| c.data.iter().copied()).collect();
    assert_eq!(reassembled, data);
}

#[test]
fn custom_chunk_size() {
    let data = vec![0xAA; 1000];
    let (metas, _) = split(&data, 300);
    assert_eq!(metas.len(), 4); // 300+300+300+100
    assert_eq!(metas[3].len, 100);
}

#[test]
fn file_hash_is_the_hash_of_the_chunk_hashes() {
    let metas = metadata(b"abcdef", 4);
    let mut hasher = blake3::Hasher::new();
    hasher.update(blake3::hash(b"abcd").as_bytes());
    hasher.update(blake3::hash(b"ef").as_bytes());
    assert_eq!(file_hash(&metas), *hasher.finalize().as_bytes());
    assert_eq!(file_hash(&[]), *blake3::hash(b"").as_bytes());
}

#[test]
fn a_copied_chunk_is_the_same() {
    let (_, chunks) = split(b"abc", 2);
    assert_eq!(chunks[1].clone(), chunks[1]);
    assert_eq!(chunks[1].data, b"c".to_vec());
}
