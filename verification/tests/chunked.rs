use bidiff::DiffParams;
use bidiff::diff_chunked;
use bidiff::instructions::apply_instructions;
use bidiff::patch::DecodeError;
use bidiff::patch::apply_chunk;
use bidiff::patch::apply_patch_chunked;
use bidiff::patch::apply_single;
use bidiff::patch::read_patch;
use bidiff::simple_diff_chunked_with_params;
use bidiff::simple_diff_with_params;

fn sample_pair(len: usize) -> (Vec<u8>, Vec<u8>) {
    let mut older = Vec::with_capacity(len);
    let mut x: u32 = 0x12345678;
    while older.len() < len {
        x = x.wrapping_mul(1664525).wrapping_add(1013904223);
        older.push((x >> 24) as u8);
    }
    let newer = apply_instructions(
        &older,
        &[5, 200, 140, 7, 30, 120, 150, 9, 133, 33, 61, 250, 150, 1, 2, 99],
    );
    (older, newer)
}

#[test]
fn identical_chunked_has_one_chunk() {
    let older: Vec<u8> = (0u8..=255).collect();
    let newer = older.clone();
    let patch = simple_diff_chunked_with_params(&older, &newer, &DiffParams::default(), 3);
    let p = read_patch(&patch).expect("patch reads back");
    assert_eq!(p.new_size, 256);
    assert_eq!(p.chunks.len(), 1);
    let fresh = apply_patch_chunked(&patch, &older).expect("patch applies");
    assert_eq!(fresh, newer);
}

#[test]
fn chunked_equivalence() {
    // A pair comfortably over 64 KiB, applied through the single-stream
    // format and through the chunked format at several chunk sizes: the
    // outputs are byte-identical.
    let (older, newer) = sample_pair(80 * 1024);
    assert!(newer.len() >= 64 * 1024);

    let single_params = DiffParams::new(32, None).unwrap();
    let single_patch = simple_diff_with_params(&older, &newer, &single_params);
    let single_out = apply_single(&single_patch, &older).expect("single-stream applies");
    assert_eq!(single_out, newer);

    for &chunk_size in &[1024usize, 8192, 65536] {
        let params = DiffParams::new(32, Some(chunk_size)).unwrap();
        let patch = simple_diff_chunked_with_params(&older, &newer, &params, 3);
        let chunked_out = apply_patch_chunked(&patch, &older).expect("chunked applies");
        assert_eq!(chunked_out, single_out, "chunk size {}", chunk_size);
    }
}

#[test]
fn chunk_records_tile_the_new_buffer() {
    let (older, newer) = sample_pair(8 * 1024);
    let params = DiffParams::new(16, Some(1000)).unwrap();
    let chunks = diff_chunked(&older, &newer, &params);
    assert_eq!(chunks.len(), (newer.len() + 999) / 1000);
    let mut expected_start = 0usize;
    for c in &chunks {
        assert_eq!(c.new_start, expected_start);
        expected_start += c.new_len;
        let mut cover = 0usize;
        for m in &c.matches {
            assert_eq!(m.add_new_start, cover);
            cover = m.copy_end;
        }
        assert_eq!(cover, c.new_len);
    }
    assert_eq!(expected_start, newer.len());
}

#[test]
fn chunks_apply_independently() {
    let (older, newer) = sample_pair(8 * 1024);
    let params = DiffParams::new(16, Some(2048)).unwrap();
    let patch = simple_diff_chunked_with_params(&older, &newer, &params, 3);
    let p = read_patch(&patch).expect("patch reads back");
    let mut assembled = Vec::new();
    for c in &p.chunks {
        let piece = apply_chunk(c, &older).expect("chunk applies");
        assert_eq!(piece.len(), c.new_len as usize);
        assembled.extend_from_slice(&piece);
    }
    assert_eq!(assembled, newer);
}

#[test]
fn chunked_header_errors_are_distinct() {
    let older: Vec<u8> = (0u8..=255).collect();
    let newer = older.clone();
    let mut patch = simple_diff_chunked_with_params(&older, &newer, &DiffParams::default(), 3);
    match read_patch(&patch[..3]) {
        Err(DecodeError::Truncated) => {}
        other => panic!("expected truncation, got {:?}", other.map(|p| p.new_size)),
    }
    patch[1] = 0;
    match read_patch(&patch) {
        Err(DecodeError::WrongMagic(_)) => {}
        other => panic!("expected wrong magic, got {:?}", other.map(|p| p.new_size)),
    }
    patch[1] = 0xB1;
    patch[5] = 0;
    match read_patch(&patch) {
        Err(DecodeError::WrongVersion(_)) => {}
        other => panic!("expected wrong version, got {:?}", other.map(|p| p.new_size)),
    }
}

#[test]
fn corrupt_chunk_data_is_rejected() {
    let older: Vec<u8> = (0u8..=255).collect();
    let newer = older.clone();
    let patch = simple_diff_chunked_with_params(&older, &newer, &DiffParams::default(), 3);
    // Drop the last byte: the chunk record then claims more data than the
    // patch holds.
    assert!(apply_patch_chunked(&patch[..patch.len() - 1], &older).is_err());
}
