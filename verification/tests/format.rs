use bidiff::Control;
use bidiff::DiffParams;
use bidiff::DiffParamsError;
use bidiff::Method;
use bidiff::apply_controls;
use bidiff::enc::Writer;
use bidiff::patch::DecodeError;
use bidiff::patch::apply_single;
use bidiff::simple_diff;

#[test]
fn header_bytes_exact() {
    let w = Writer::new(5);
    let bytes = w.into_inner();
    assert_eq!(
        bytes,
        vec![0xDF, 0xB1, 0, 0, 0x00, 0x20, 0, 0, 5, 0, 0, 0, 0, 0, 0, 0]
    );
}

#[test]
fn control_record_bytes_exact() {
    let mut w = Writer::new_raw();
    let c = Control { add: vec![1], copy: vec![2, 3], seek: -1 };
    assert!(w.write(&c));
    // add tag 2*1 (literal), delta byte, copy tag 2*2, two literal bytes,
    // then the zig-zag of -1.
    assert_eq!(w.into_inner(), vec![2, 1, 4, 2, 3, 1]);
}

#[test]
fn zero_add_record_bytes_exact() {
    let mut w = Writer::new_raw();
    let c = Control { add: vec![0, 0, 0], copy: vec![], seek: 0 };
    assert!(w.write(&c));
    // add tag 2*3+1: all-zero delta, no bytes in the stream.
    assert_eq!(w.into_inner(), vec![7, 0, 0]);
}

#[test]
fn varint_multi_byte_exact() {
    let mut w = Writer::new_raw();
    let c = Control { add: vec![], copy: vec![9; 100], seek: 300 };
    assert!(w.write(&c));
    let bytes = w.into_inner();
    // copy tag 200 = 0xC8 -> [0xC8, 0x01]; seek zig-zag 600 -> [0xD8, 0x04].
    assert_eq!(bytes[0], 1); // add tag: zero-length delta counts as all-zero
    assert_eq!(&bytes[1..3], &[0xC8, 0x01]);
    assert_eq!(&bytes[103..], &[0xD8, 0x04]);
}

#[test]
fn wrong_magic_is_distinct() {
    let older = b"some old bytes some old bytes some old bytes";
    let newer = b"some new bytes some new bytes some new bytes";
    let mut patch = simple_diff(&older[..], &newer[..]);
    patch[0] ^= 0xFF;
    match apply_single(&patch, &older[..]) {
        Err(DecodeError::WrongMagic(_)) => {}
        other => panic!("expected a wrong-magic error, got {:?}", other),
    }
}

#[test]
fn wrong_version_is_distinct() {
    let older = b"some old bytes some old bytes some old bytes";
    let newer = b"some new bytes some new bytes some new bytes";
    let mut patch = simple_diff(&older[..], &newer[..]);
    patch[4] ^= 0xFF;
    match apply_single(&patch, &older[..]) {
        Err(DecodeError::WrongVersion(_)) => {}
        other => panic!("expected a wrong-version error, got {:?}", other),
    }
}

#[test]
fn truncated_is_distinct() {
    let older = b"some old bytes some old bytes some old bytes";
    match apply_single(&[0xDF, 0xB1, 0, 0], &older[..]) {
        Err(DecodeError::Truncated) => {}
        other => panic!("expected a truncation error, got {:?}", other),
    }
    match apply_single(&[], &older[..]) {
        Err(DecodeError::Truncated) => {}
        other => panic!("expected a truncation error, got {:?}", other),
    }
}

#[test]
fn garbage_stream_is_rejected() {
    let older = b"old";
    // Valid header, then a stream that announces five delta bytes and ends.
    let patch = vec![
        0xDF, 0xB1, 0, 0, 0x00, 0x20, 0, 0, 9, 0, 0, 0, 0, 0, 0, 0, 10, 1,
    ];
    assert!(apply_single(&patch, &older[..]).is_err());
}

#[test]
fn copy_from_old_form_is_accepted() {
    // A hand-framed patch whose COPY region points into the old file:
    // copy tag 2*4+1, then the old position.
    let older = b"junkDATA";
    let patch = vec![
        0xDF, 0xB1, 0, 0, 0x00, 0x20, 0, 0, 4, 0, 0, 0, 0, 0, 0, 0, // header
        0, // add tag: empty delta
        9, // copy tag: 4 bytes, low bit set - from old
        4, // position of "DATA"
        0, // seek
    ];
    let fresh = apply_single(&patch, &older[..]).expect("patch applies");
    assert_eq!(fresh, b"DATA");
}

#[test]
fn apply_controls_rejects_out_of_bounds() {
    let controls = vec![Control { add: vec![1, 2, 3], copy: vec![], seek: 0 }];
    assert!(apply_controls(&controls, b"xy").is_none());
    let controls = vec![
        Control { add: vec![], copy: vec![], seek: -5 },
        Control { add: vec![1], copy: vec![], seek: 0 },
    ];
    assert!(apply_controls(&controls, b"abcdef").is_none());
}

#[test]
fn apply_controls_exact() {
    let controls = vec![
        Control { add: vec![1, 1], copy: vec![9], seek: 1 },
        Control { add: vec![0], copy: vec![], seek: 0 },
    ];
    // old = [10, 20, 30, 40]: ADD gives [11, 21], COPY appends 9, the seek
    // skips one old byte, and the final ADD copies 40 verbatim.
    let fresh = apply_controls(&controls, &[10, 20, 30, 40]).expect("controls apply");
    assert_eq!(fresh, vec![11, 21, 9, 40]);
}

#[test]
fn params_are_validated() {
    assert_eq!(DiffParams::new(3, None).unwrap_err(), DiffParamsError::BlockSizeTooSmall);
    assert_eq!(
        DiffParams::new(4, Some(0)).unwrap_err(),
        DiffParamsError::ScanChunkSizeTooSmall
    );
    assert_eq!(
        DiffParams::with_threads(4, None, Some(0)).unwrap_err(),
        DiffParamsError::NumThreadsTooSmall
    );
    let p = DiffParams::with_threads(4, Some(1024), Some(2)).unwrap();
    assert_eq!(p.block_size, 4);
    let d = DiffParams::default();
    assert_eq!(d.block_size, 32);
}

#[test]
fn method_names() {
    assert_eq!(Method::from_str("stored"), Some(Method::Stored));
    assert_eq!(Method::from_str("deflate"), Some(Method::Deflate));
    assert_eq!(Method::from_str("brotli"), Some(Method::Brotli));
    assert_eq!(Method::from_str("snappy"), Some(Method::Snappy));
    assert_eq!(Method::from_str("zstd"), Some(Method::Zstd));
    assert_eq!(Method::from_str("lzma"), None);
    assert_eq!(Method::default(), Method::Stored);
}
