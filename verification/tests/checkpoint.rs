//! Checkpoint images.
use holt::api::checkpoint::{begin, decode, put_family, put_kv, take, CheckpointImage, HEADER_LEN};
use holt::api::errors::Error;

fn sample() -> Vec<u8> {
    let mut buf = begin(77, 2);
    let mut users = Vec::new();
    put_kv(&mut users, b"alice", b"1");
    put_kv(&mut users, b"bob", b"");
    put_family(&mut buf, b"users", &users);
    put_family(&mut buf, b"empty", &[]);
    buf
}

fn corrupt(context: &'static str) -> Error {
    Error::NodeCorrupt { context, blob_guid: None, slot: None }
}

#[test]
fn an_image_reads_back_what_was_put_in() {
    let bytes = sample();
    let image = decode(&bytes).unwrap();
    assert_eq!(image.applied_index, 77);
    assert_eq!(image.families.len(), 2);
    assert_eq!(image.families[0].0, b"users");
    assert_eq!(image.families[0].1[0], (&b"alice"[..], &b"1"[..]));
    assert_eq!(image.families[0].1[1], (&b"bob"[..], &b""[..]));
    assert_eq!(image.families[1].0, b"empty");
    assert!(image.families[1].1.is_empty());
}

#[test]
fn the_header_has_a_fixed_layout() {
    let bytes = begin(0x0102_0304_0506_0708, 3);
    assert_eq!(bytes.len(), HEADER_LEN);
    assert_eq!(&bytes[..8], b"holtckp1");
    assert_eq!(&bytes[8..16], &[8, 7, 6, 5, 4, 3, 2, 1]);
    assert_eq!(&bytes[16..], &[3, 0, 0, 0]);
}

#[test]
fn encoding_is_length_prefixed() {
    let mut block = Vec::new();
    put_kv(&mut block, b"k", b"vv");
    assert_eq!(block, [1, 0, 0, 0, b'k', 2, 0, 0, 0, b'v', b'v']);
}

#[test]
fn validate_walks_the_whole_image() {
    let bytes = sample();
    let image = CheckpointImage::from_bytes(bytes.clone());
    assert_eq!(image.validate(), Ok(77));
    assert_eq!(image.applied_index(), Ok(77));
    assert_eq!(image.as_bytes(), &bytes[..]);
    assert_eq!(image.into_bytes(), bytes);

    // Cut anywhere behind the header: the header still reads, the image does not.
    for end in HEADER_LEN..bytes.len() {
        let cut = CheckpointImage::from_raw(bytes[..end].to_vec());
        assert_eq!(cut.applied_index(), Ok(77));
        assert!(cut.validate().is_err(), "cut at {end}");
    }
}

#[test]
fn every_fault_has_its_context() {
    let bytes = sample();
    let bad_header = corrupt("checkpoint image: bad magic or truncated header");
    assert_eq!(
        CheckpointImage::from_bytes(bytes[..HEADER_LEN - 1].to_vec()).applied_index(),
        Err(bad_header)
    );
    let mut wrong = bytes.clone();
    wrong[0] ^= 1;
    assert_eq!(CheckpointImage::from_bytes(wrong).validate(), Err(bad_header));

    assert_eq!(
        CheckpointImage::from_bytes(bytes[..HEADER_LEN + 2].to_vec()).validate(),
        Err(corrupt("checkpoint image: truncated length"))
    );
    assert_eq!(
        CheckpointImage::from_bytes(bytes[..HEADER_LEN + 6].to_vec()).validate(),
        Err(corrupt("checkpoint image: truncated body"))
    );
    let mut long = bytes;
    long.push(0);
    assert!(matches!(
        CheckpointImage::from_bytes(long).validate(),
        Err(Error::NodeCorrupt { .. })
    ));
}

#[test]
fn take_moves_on_only_when_it_succeeds() {
    let bytes = [2, 0, 0, 0, 9, 8, 7];
    let mut off = 0;
    assert_eq!(take(&bytes, &mut off), Ok(&[9u8, 8][..]));
    assert_eq!(off, 6);
    assert_eq!(
        take(&bytes, &mut off),
        Err(corrupt("checkpoint image: truncated length"))
    );
    assert_eq!(off, 6);
}
