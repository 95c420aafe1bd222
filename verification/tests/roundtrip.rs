use bidiff::DiffParams;
use bidiff::apply_controls;
use bidiff::assert_cycle;
use bidiff::assert_cycle_with_params;
use bidiff::diff;
use bidiff::instructions::apply_instructions;
use bidiff::patch::apply_single;
use bidiff::simple_diff;
use bidiff::simple_diff_with_params;
use bidiff::Translator;

#[test]
fn short_patch() {
    let older = [
        0, 0, 0, 0, 0, 0, 0, 0, 0, 0, 0, 0, 0, 0, 0, 0, 0, 0, 0, 0, 0, 0, 0, 0, 0, 0, 0, 0, 0, 1,
        2, 0,
    ];
    let instructions = [
        12, 16, 5, 40, 132, 1, 47, 43, 20, 86, 150, 0, 150, 0, 150, 0, 115, 31, 0, 0, 0, 0, 0, 0,
        0, 1, 38, 188, 128, 0, 150, 0,
    ];
    let newer = apply_instructions(&older[..], &instructions[..]);

    assert_cycle(&older[..], &newer[..]);
}

#[test]
fn lib_short_patch() {
    let older = [
        0, 0, 0, 0, 0, 0, 0, 0, 0, 0, 0, 0, 0, 0, 0, 0, 0, 0, 0, 0, 0, 0, 0, 0, 0, 0, 0, 0, 0, 1,
        2, 0,
    ];
    let instructions = [
        12, 16, 5, 40, 132, 1, 47, 43, 20, 86, 150, 0, 150, 0, 150, 0, 115, 31, 0, 0, 0, 0, 0, 0,
        0, 1, 38, 188, 128, 0, 150, 0,
    ];
    let newer = apply_instructions(&older[..], &instructions[..]);

    assert_cycle(&older[..], &newer[..]);
}

#[test]
fn short_bsdiff_smoke_bytes() {
    // Same seed data as the short patch, taken through the byte-level
    // patch format rather than bare controls.
    let older = [
        0u8, 0, 0, 0, 0, 0, 0, 0, 0, 0, 0, 0, 0, 0, 0, 0, 0, 0, 0, 0, 0, 0, 0, 0, 0, 0, 0, 0, 0,
        1, 2, 0,
    ];
    let instructions = [
        12u8, 16, 5, 40, 132, 1, 47, 43, 20, 86, 150, 0, 150, 0, 150, 0, 115, 31, 0, 0, 0, 0, 0,
        0, 0, 1, 38, 188, 128, 0, 150, 0,
    ];
    let newer = apply_instructions(&older[..], &instructions[..]);
    let params = DiffParams::new(4, None).unwrap();
    let patch = simple_diff_with_params(&older[..], &newer[..], &params);
    let fresh = apply_single(&patch, &older[..]).expect("patch applies");
    assert_eq!(fresh, newer);
}

#[test]
fn empty_new() {
    let older = [0u8, 1, 2, 3, 4];
    let newer: [u8; 0] = [];
    let ms = diff(&older[..], &newer[..], &DiffParams::default());
    assert_eq!(ms.len(), 0);
    let patch = simple_diff(&older[..], &newer[..]);
    // Header only: the control stream holds no records at all.
    assert_eq!(patch.len(), 16);
    let fresh = apply_single(&patch, &older[..]).expect("patch applies");
    assert_eq!(fresh.len(), 0);
}

#[test]
fn identical() {
    let older: Vec<u8> = (0u8..=255).collect();
    let newer = older.clone();
    let ms = diff(&older, &newer, &DiffParams::default());
    assert_eq!(ms.len(), 1);
    assert_eq!(ms[0].add_length, 256);
    assert_eq!(ms[0].copy_end, 256);
    assert_eq!(ms[0].add_old_start, 0);
    assert_eq!(ms[0].add_new_start, 0);

    // The delta buffer for an identical region is all zero.
    let mut tr = Translator::new(&older, &newer);
    assert!(tr.translate(ms[0]).is_none());
    let c = tr.close().expect("one control pending");
    assert_eq!(c.add.len(), 256);
    assert!(c.add.iter().all(|&b| b == 0));
    assert_eq!(c.copy.len(), 0);
    assert_eq!(c.seek, 0);

    let patch = simple_diff(&older, &newer);
    let fresh = apply_single(&patch, &older).expect("patch applies");
    assert_eq!(fresh, newer);
}

#[test]
fn single_insertion() {
    let older = b"abcdefghij";
    let newer = b"abcdeXYZfghij";
    let params = DiffParams::new(4, None).unwrap();
    let ms = diff(&older[..], &newer[..], &params);
    // The first match's ADD region covers the shared prefix "abcde"; the
    // block-aligned index finds no second anchor ("fghij" does not start
    // on a block boundary in the old buffer), so the rest is one literal
    // COPY.
    assert!(ms.len() >= 1);
    assert_eq!(ms[0].add_old_start, 0);
    assert_eq!(ms[0].add_new_start, 0);
    assert_eq!(ms[0].add_length, 5);
    let mut tr = Translator::new(&older[..], &newer[..]);
    let mut controls = Vec::new();
    for m in &ms {
        if let Some(c) = tr.translate(*m) {
            controls.push(c);
        }
    }
    if let Some(c) = tr.close() {
        controls.push(c);
    }
    assert!(controls[0].add.iter().all(|&b| b == 0));
    let fresh = apply_controls(&controls, &older[..]).expect("controls apply");
    assert_eq!(fresh, newer);

    let patch = simple_diff_with_params(&older[..], &newer[..], &params);
    let fresh2 = apply_single(&patch, &older[..]).expect("patch applies");
    assert_eq!(fresh2, newer);
}

#[test]
fn single_byte_flip_near_end() {
    let older = vec![0xAAu8; 4096];
    let mut newer = older.clone();
    newer[4000] = 0x55;
    let patch = simple_diff(&older, &newer);
    let fresh = apply_single(&patch, &older).expect("patch applies");
    assert_eq!(fresh, newer);
    // The uncompressed control stream is linear in the buffer size: at
    // worst one delta byte per new byte plus a few records of framing.
    assert!(patch.len() <= newer.len() + 64);
}

#[test]
fn cover_chains_and_stays_in_bounds() {
    let older = apply_instructions(&[3u8, 1, 4, 1, 5, 9, 2, 6], &[130, 7, 12, 50, 140, 9]);
    let newer = apply_instructions(&older, &[5, 40, 150, 3, 135, 77, 2, 30]);
    let params = DiffParams::new(4, None).unwrap();
    let ms = diff(&older, &newer, &params);
    let mut expected_start = 0usize;
    for m in &ms {
        assert_eq!(m.add_new_start, expected_start);
        assert!(m.add_new_start + m.add_length <= m.copy_end);
        assert!(m.copy_end <= newer.len());
        assert!(m.add_old_start + m.add_length <= older.len());
        expected_start = m.copy_end;
    }
    assert_eq!(expected_start, newer.len());
    assert_cycle_with_params(&older, &newer, &params);
}

#[test]
fn translator_close_is_idempotent() {
    let older = b"0123456789abcdef0123456789abcdef";
    let newer = b"0123456789abcdef0123456789abcdeg";
    let params = DiffParams::new(4, None).unwrap();
    let ms = diff(&older[..], &newer[..], &params);
    let mut tr = Translator::new(&older[..], &newer[..]);
    let mut controls = Vec::new();
    for m in &ms {
        if let Some(c) = tr.translate(*m) {
            controls.push(c);
        }
    }
    let last = tr.close();
    assert!(ms.is_empty() || last.is_some());
    // A second close emits nothing and does not fail.
    assert!(tr.close().is_none());
    assert!(tr.close().is_none());
}
