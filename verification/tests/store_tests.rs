use monocore::codec::Codec;
use monocore::error::StoreError;
use monocore::store::{Cid, MemoryIpldStore};

#[test]
fn codec_tags_round_trip() {
    assert_eq!(Codec::Raw.to_code(), 0x55);
    assert_eq!(Codec::DagCbor.to_code(), 0x71);
    assert_eq!(Codec::DagJson.to_code(), 0x0129);
    assert_eq!(Codec::DagPb.to_code(), 0x70);
    for c in [Codec::Raw, Codec::DagCbor, Codec::DagJson, Codec::DagPb] {
        assert_eq!(Codec::try_from_code(c.to_code()).unwrap(), c);
    }
    assert_eq!(Codec::try_from_code(0x99), Err(StoreError::UnsupportedCodec(0x99)));
}

#[test]
fn raw_block_round_trip() {
    let mut store = MemoryIpldStore::new(Some(1024), Some(4096), 256);
    let data = vec![1u8, 2, 3, 4, 5];
    let cid = store.put_raw_block(data.clone()).unwrap();
    assert_eq!(cid.codec, Codec::Raw);
    let back = store.get_raw_block(&cid).unwrap();
    assert_eq!(back, data);
    // determinism: the same bytes give the same identifier, nothing grows
    let cid2 = store.put_raw_block(data.clone()).unwrap();
    assert_eq!(cid, cid2);
    assert_eq!(store.get_block_count(), 1);
    assert!(!store.is_empty());
    assert!(store.has(&cid));
}

#[test]
fn raw_block_size_limit() {
    let mut store = MemoryIpldStore::new(Some(4), None, 4);
    assert!(store.put_raw_block(vec![0u8; 4]).is_ok());
    assert_eq!(store.put_raw_block(vec![0u8; 5]), Err(StoreError::RawBlockTooLarge));
    // the oversized block left no trace
    assert_eq!(store.get_block_count(), 1);
}

#[test]
fn node_block_size_limit() {
    let mut store = MemoryIpldStore::new(None, Some(8), 16);
    assert!(store.put_node_bytes(Codec::DagCbor, vec![0u8; 8], Vec::new()).is_ok());
    assert_eq!(
        store.put_node_bytes(Codec::DagCbor, vec![0u8; 9], Vec::new()),
        Err(StoreError::NodeBlockTooLarge)
    );
}

#[test]
fn missing_block_not_found() {
    let store = MemoryIpldStore::new(None, None, 256);
    let cid = Cid { codec: Codec::Raw, hash: 42 };
    assert_eq!(store.get_raw_block(&cid), Err(StoreError::BlockNotFound));
    assert_eq!(store.read_all(&cid), Err(StoreError::BlockNotFound));
    assert_eq!(store.get_bytes_size(&cid), Err(StoreError::BlockNotFound));
    assert!(!store.has(&cid));
    assert!(store.is_empty());
}

fn pseudo_random_bytes(n: usize) -> Vec<u8> {
    let mut v = Vec::with_capacity(n);
    let mut x: u64 = 0x243f6a8885a308d3;
    for _ in 0..n {
        x = x.wrapping_mul(6364136223846793005).wrapping_add(1442695040888963407);
        v.push((x >> 33) as u8);
    }
    v
}

#[test]
fn put_bytes_read_all_round_trip() {
    let mut store = MemoryIpldStore::new(Some(64), None, 64);
    // several chunk boundaries, ending in a partial chunk
    let data = pseudo_random_bytes(64 * 5 + 17);
    let cid = store.put_bytes(&data).unwrap();
    assert_eq!(cid.codec, Codec::DagCbor);
    let back = store.read_all(&cid).unwrap();
    assert_eq!(back, data);
    assert_eq!(store.get_bytes_size(&cid).unwrap(), data.len() as u64);
}

#[test]
fn put_bytes_round_trip_across_chunk_sizes() {
    // the concatenation law holds regardless of where the chunks fall
    let data = pseudo_random_bytes(1000);
    for chunk in [1u64, 7, 100, 1000, 5000] {
        let mut store = MemoryIpldStore::new(None, None, chunk);
        let cid = store.put_bytes(&data).unwrap();
        assert_eq!(store.read_all(&cid).unwrap(), data);
        assert_eq!(store.get_bytes_size(&cid).unwrap(), 1000);
    }
}

#[test]
fn put_bytes_large_stream_round_trip() {
    // sixteen mebibytes of pseudo-random bytes survive the chunked round trip
    let mut store = MemoryIpldStore::new(Some(256 * 1024), None, 256 * 1024);
    let data = pseudo_random_bytes(16 * 1024 * 1024);
    let cid = store.put_bytes(&data).unwrap();
    let back = store.read_all(&cid).unwrap();
    assert_eq!(back, data);
    assert_eq!(store.get_bytes_size(&cid).unwrap(), 16 * 1024 * 1024);
}

#[test]
fn put_bytes_empty_stream() {
    let mut store = MemoryIpldStore::new(None, None, 256);
    let cid = store.put_bytes(&[]).unwrap();
    assert_eq!(store.read_all(&cid).unwrap(), Vec::<u8>::new());
    assert_eq!(store.get_bytes_size(&cid).unwrap(), 0);
}

#[test]
fn put_bytes_node_limit() {
    // 10 chunks make a node of 16 + 16 * 10 bytes; a lower limit refuses it
    let mut store = MemoryIpldStore::new(Some(16), Some(100), 16);
    let data = vec![7u8; 160];
    assert_eq!(store.put_bytes(&data), Err(StoreError::NodeBlockTooLarge));
}

#[test]
fn get_raw_block_differs_from_input_digest() {
    // the identifier is a digest, not the bytes: two different blocks get
    // two different identifiers
    let mut store = MemoryIpldStore::new(None, None, 256);
    let c1 = store.put_raw_block(vec![1u8]).unwrap();
    let c2 = store.put_raw_block(vec![2u8]).unwrap();
    assert_ne!(c1, c2);
    assert_eq!(store.get_block_count(), 2);
}
