use gelf_udp::chunked::{ChunkSize, ChunkedMessage, HEADER_WIDTH, ID_WIDTH, MAX_CHUNKS};
use gelf_udp::error::LogError;

const ID: [u8; 8] = [1, 2, 3, 4, 5, 6, 7, 8];

fn payload_of(m: &ChunkedMessage) -> Vec<u8> {
    let mut out = Vec::new();
    for c in m.chunks() {
        out.extend_from_slice(&c[HEADER_WIDTH..]);
    }
    out
}

#[test]
fn empty_payload_gives_one_header_only_chunk() {
    let m = ChunkedMessage::with_id(ChunkSize(100), Vec::new(), ID).unwrap();
    assert_eq!(m.total_chunks(), 1);
    assert_eq!(m.chunks()[0], vec![1, 2, 3, 4, 5, 6, 7, 8, 0, 1]);
    assert_eq!(m.len(), HEADER_WIDTH);
}

#[test]
fn one_byte_capacity_gives_one_chunk_per_byte() {
    let m = ChunkedMessage::with_id(ChunkSize(11), vec![0xAB; 10], ID).unwrap();
    assert_eq!(m.total_chunks(), 10);
    for (i, c) in m.chunks().iter().enumerate() {
        assert_eq!(c.len(), HEADER_WIDTH + 1);
        assert_eq!(&c[..ID_WIDTH], &ID[..]);
        assert_eq!(c[ID_WIDTH] as usize, i);
        assert_eq!(c[ID_WIDTH + 1], 10);
        assert_eq!(c[HEADER_WIDTH], 0xAB);
    }
    assert_eq!(m.len(), 10 * (HEADER_WIDTH + 1));
}

#[test]
fn header_sized_chunk_is_too_small() {
    let r = ChunkedMessage::with_id(ChunkSize(HEADER_WIDTH as u16), vec![1, 2, 3], ID);
    assert!(matches!(r, Err(LogError::ChunkSizeTooSmall)));
    let r = ChunkedMessage::new(ChunkSize(0), Vec::new());
    assert!(matches!(r, Err(LogError::ChunkSizeTooSmall)));
}

#[test]
fn too_many_chunks_is_refused() {
    let r = ChunkedMessage::with_id(ChunkSize(11), vec![0; MAX_CHUNKS + 1], ID);
    assert!(matches!(r, Err(LogError::TooManyChunks)));
    let m = ChunkedMessage::with_id(ChunkSize(11), vec![0; MAX_CHUNKS], ID).unwrap();
    assert_eq!(m.total_chunks(), MAX_CHUNKS);
}

#[test]
fn exact_multiple_has_no_trailing_empty_chunk() {
    let m = ChunkedMessage::with_id(ChunkSize(14), (0..12).collect(), ID).unwrap();
    assert_eq!(m.total_chunks(), 3);
    assert_eq!(m.chunks()[2][HEADER_WIDTH..], [8, 9, 10, 11]);
}

#[test]
fn payload_sections_reassemble_the_payload() {
    let payload: Vec<u8> = (0..=255u8).cycle().take(1000).collect();
    for size in [18u16, 19, 27, 64, 1000, 1010, 1011, 1420] {
        let m = ChunkedMessage::with_id(ChunkSize(size), payload.clone(), ID).unwrap();
        assert_eq!(payload_of(&m), payload);
    }
}

#[test]
fn chunks_fit_the_chunk_size() {
    let payload = vec![7u8; 777];
    let m = ChunkedMessage::with_id(ChunkSize(50), payload, ID).unwrap();
    assert!(m.chunks().iter().all(|c| c.len() <= 50));
    let total: usize = m.chunks().iter().map(|c| c.len()).sum();
    assert_eq!(total, m.len());
}

#[test]
fn chunk_count_is_the_ceiling() {
    // 777 bytes at 40 bytes per chunk
    let m = ChunkedMessage::with_id(ChunkSize(50), vec![7u8; 777], ID).unwrap();
    assert_eq!(m.total_chunks(), 20);
    assert_eq!(m.chunks()[19].len(), HEADER_WIDTH + 17);
    let m = ChunkedMessage::with_id(ChunkSize(50), vec![7u8; 800], ID).unwrap();
    assert_eq!(m.total_chunks(), 20);
}

#[test]
fn sequence_indices_run_from_zero() {
    let m = ChunkedMessage::with_id(ChunkSize(20), vec![3u8; 95], ID).unwrap();
    let n = m.total_chunks();
    assert_eq!(n, 10);
    let idx: Vec<usize> = m.chunks().iter().map(|c| c[ID_WIDTH] as usize).collect();
    assert_eq!(idx, (0..n).collect::<Vec<usize>>());
    assert!(m.chunks().iter().all(|c| c[ID_WIDTH + 1] as usize == n));
}

#[test]
fn fresh_identifiers_differ() {
    let mut ids = Vec::new();
    for k in 0..1000u32 {
        let m = ChunkedMessage::new(ChunkSize(1420), k.to_be_bytes().to_vec()).unwrap();
        let id = m.message_id();
        assert!(m.chunks().iter().all(|c| c[..ID_WIDTH] == id[..]));
        ids.push(id);
    }
    ids.sort();
    ids.dedup();
    assert_eq!(ids.len(), 1000);
}

#[test]
fn accessors_report_construction_inputs() {
    let m = ChunkedMessage::with_id(ChunkSize(64), vec![1, 2, 3], ID).unwrap();
    assert_eq!(m.message_id(), ID);
    assert_eq!(m.chunk_size(), ChunkSize(64));
    assert_eq!(m.chunks()[0], vec![1, 2, 3, 4, 5, 6, 7, 8, 0, 1, 1, 2, 3]);
}
