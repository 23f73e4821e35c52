use mikrodb::frame::{decode_frames, encode_frame};

fn frames(bodies: &[&[u8]]) -> Vec<u8> {
    let mut out = Vec::new();
    for b in bodies {
        out.extend_from_slice(&encode_frame(b));
    }
    out
}

#[test]
fn frame_starts_with_sha256_of_body() {
    let f = encode_frame(b"abc");
    let expected: [u8; 32] = [
        0xba, 0x78, 0x16, 0xbf, 0x8f, 0x01, 0xcf, 0xea, 0x41, 0x41, 0x40, 0xde, 0x5d, 0xae, 0x22,
        0x23, 0xb0, 0x03, 0x61, 0xa3, 0x96, 0x17, 0x7a, 0x9c, 0xb4, 0x10, 0xff, 0x61, 0xf2, 0x00,
        0x15, 0xad,
    ];
    assert_eq!(&f[0..32], &expected[..]);
}

#[test]
fn frame_length_is_little_endian() {
    let body = vec![7u8; 300];
    let f = encode_frame(&body);
    assert_eq!(f.len(), 40 + 300);
    assert_eq!(&f[32..40], &[0x2c, 0x01, 0, 0, 0, 0, 0, 0]);
    assert_eq!(&f[40..], &body[..]);
}

#[test]
fn empty_body_frame() {
    let f = encode_frame(b"");
    assert_eq!(f.len(), 40);
    assert_eq!(&f[32..40], &[0u8; 8]);
    assert_eq!(decode_frames(&f), vec![Vec::<u8>::new()]);
}

#[test]
fn single_frame_round_trip() {
    let f = encode_frame(b"{\"Commit\":null}");
    assert_eq!(decode_frames(&f), vec![b"{\"Commit\":null}".to_vec()]);
}

#[test]
fn many_frames_round_trip() {
    let log = frames(&[b"one", b"two", b"", b"three"]);
    assert_eq!(
        decode_frames(&log),
        vec![b"one".to_vec(), b"two".to_vec(), Vec::new(), b"three".to_vec()]
    );
}

#[test]
fn empty_log_has_no_frames() {
    assert!(decode_frames(&[]).is_empty());
}

#[test]
fn torn_tail_drops_only_the_last_frame() {
    let log = frames(&[b"first", b"second", b"third!"]);
    for cut in 1..40 {
        let torn = &log[..log.len() - cut];
        assert_eq!(decode_frames(torn), vec![b"first".to_vec(), b"second".to_vec()]);
    }
}

#[test]
fn flipped_last_byte_drops_the_last_frame() {
    let mut log = frames(&[b"first", b"second"]);
    let n = log.len();
    log[n - 1] ^= 0xff;
    assert_eq!(decode_frames(&log), vec![b"first".to_vec()]);
}

#[test]
fn corrupt_middle_frame_ends_the_valid_prefix() {
    let mut log = frames(&[b"first", b"second", b"third"]);
    let second_body = 45 + 40;
    log[second_body] ^= 1;
    assert_eq!(decode_frames(&log), vec![b"first".to_vec()]);
}

#[test]
fn oversized_length_field_ends_the_valid_prefix() {
    let mut log = frames(&[b"first"]);
    let mut bad = encode_frame(b"x");
    bad[32..40].copy_from_slice(&[0xff; 8]);
    log.extend_from_slice(&bad);
    assert_eq!(decode_frames(&log), vec![b"first".to_vec()]);
}
