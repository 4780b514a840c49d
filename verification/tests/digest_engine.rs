use photosync::digest::digest;
use photosync::digest::DigestWriter;
use photosync::digest::Sha256Hash;

fn hex(hash: &Sha256Hash) -> String {
    let mut out = String::new();
    for byte in hash.0.iter() {
        out.push_str(&format!("{:02x}", byte));
    }
    out
}

#[test]
fn digest_of_empty_stream_is_the_known_value() {
    assert_eq!(
        hex(&digest(b"")),
        "e3b0c44298fc1c149afbf4c8996fb92427ae41e4649b934ca495991b7852b855"
    );
}

#[test]
fn digest_of_abc_is_the_known_value() {
    assert_eq!(
        hex(&digest(b"abc")),
        "ba7816bf8f01cfea414140de5dae2223b00361a396177a9cb410ff61f20015ad"
    );
}

#[test]
fn digest_differs_from_its_input() {
    let input = [7u8; 32];
    assert_ne!(digest(&input).0, input);
}

#[test]
fn writer_without_writes_yields_digest_of_empty_stream() {
    assert_eq!(DigestWriter::new().finalise(), digest(b""));
}

#[test]
fn writer_in_one_piece_matches_one_shot_digest() {
    let data = b"the quick brown fox jumps over the lazy dog";
    let mut writer = DigestWriter::new();
    assert_eq!(writer.write(data, data.len()), data.len());
    assert_eq!(writer.finalise(), digest(data));
}

#[test]
fn writer_in_many_pieces_matches_one_shot_digest() {
    let data: Vec<u8> = (0..1000u32).map(|i| (i % 251) as u8).collect();
    let mut writer = DigestWriter::new();
    for chunk in data.chunks(7) {
        writer.write(chunk, chunk.len());
    }
    assert_eq!(writer.finalise(), digest(&data));
}

#[test]
fn writer_folds_only_the_accepted_prefix() {
    let mut writer = DigestWriter::new();
    assert_eq!(writer.write(b"abcdef", 3), 3);
    assert_eq!(
        hex(&writer.finalise()),
        "ba7816bf8f01cfea414140de5dae2223b00361a396177a9cb410ff61f20015ad"
    );
}

#[test]
fn short_writes_that_are_retried_give_the_digest_of_the_stream() {
    let data = b"abcdefghij";
    let mut writer = DigestWriter::new();
    let mut rest: &[u8] = data;
    while !rest.is_empty() {
        let accepted = writer.write(rest, 1.max(rest.len() / 2));
        rest = &rest[accepted..];
    }
    assert_eq!(writer.finalise(), digest(data));
}

#[test]
fn write_of_nothing_is_a_no_op() {
    let mut writer = DigestWriter::new();
    writer.write(b"abc", 3);
    assert_eq!(writer.write(b"ignored", 0), 0);
    assert_eq!(writer.write(b"", 0), 0);
    assert_eq!(writer.finalise(), digest(b"abc"));
}

#[test]
fn order_of_writes_matters() {
    let mut forward = DigestWriter::new();
    forward.write(b"ab", 2);
    forward.write(b"cd", 2);
    let mut backward = DigestWriter::new();
    backward.write(b"cd", 2);
    backward.write(b"ab", 2);
    assert_ne!(forward.finalise(), backward.finalise());
}

#[test]
fn new_for_tests_repeats_the_byte() {
    assert_eq!(Sha256Hash::new_for_tests(0).0, [0u8; 32]);
    assert_eq!(Sha256Hash::new_for_tests(9).0, [9u8; 32]);
    assert_eq!(Sha256Hash::new_for_tests(255).0, [255u8; 32]);
}

#[test]
fn digests_compare_by_their_bytes() {
    assert_eq!(Sha256Hash::new_for_tests(1), Sha256Hash::new_for_tests(1));
    assert_ne!(Sha256Hash::new_for_tests(1), Sha256Hash::new_for_tests(2));
    let mut bytes = [1u8; 32];
    bytes[31] = 2;
    assert_ne!(Sha256Hash(bytes), Sha256Hash::new_for_tests(1));
    bytes[31] = 1;
    assert_eq!(Sha256Hash(bytes), Sha256Hash::new_for_tests(1));
}

#[test]
fn from_bytes_takes_exactly_32_bytes() {
    let bytes: Vec<u8> = (0..32u8).collect();
    let hash = Sha256Hash::from_bytes(&bytes).unwrap();
    assert_eq!(&hash.0[..], &bytes[..]);
    assert!(Sha256Hash::from_bytes(&bytes[..31]).is_none());
    assert!(Sha256Hash::from_bytes(&[0u8; 33]).is_none());
    assert!(Sha256Hash::from_bytes(&[]).is_none());
}
