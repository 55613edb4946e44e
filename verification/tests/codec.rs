//! Tests for the chunk codec and the store backend.

use backy_extract::backend::{Backend, Error};
use backy_extract::codec::{decode, encode};
use backy_extract::CHUNKSZ;

fn sample_chunk() -> Vec<u8> {
    let mut data = vec![0u8; CHUNKSZ];
    for (i, b) in data.iter_mut().enumerate() {
        *b = ((i * 31 + i / 257) % 251) as u8;
    }
    data
}

#[test]
fn round_trip() {
    let data = sample_chunk();
    let encoded = encode(&data).expect("encode");
    // The magic header frames the compressed payload, which is shorter
    // than the regular input data.
    assert_eq!(&encoded[..5], &[0xF0, 0x00, 0x40, 0x00, 0x00]);
    assert!(encoded.len() < CHUNKSZ);
    let decoded = decode(&encoded).expect("decode");
    assert_eq!(decoded, data);
}

#[test]
fn decoded_length_is_chunk_size() {
    let data = vec![7u8; CHUNKSZ];
    let encoded = encode(&data).expect("encode");
    let decoded = decode(&encoded).expect("decode");
    assert_eq!(decoded.len(), CHUNKSZ);
}

#[test]
fn encode_rejects_missized_input() {
    match encode(&vec![1u8; 1000]) {
        Err(Error::Missized(n)) => assert_eq!(n, 1000),
        other => panic!("unexpected: {:?}", other),
    }
}

#[test]
fn decode_rejects_bad_magic() {
    match decode(b"junk data that is not a chunk") {
        Err(Error::Magic) => {}
        other => panic!("unexpected: {:?}", other),
    }
    match decode(b"ab") {
        Err(Error::Magic) => {}
        other => panic!("unexpected: {:?}", other),
    }
}

#[test]
fn corrupted_chunk() {
    // Truncating a chunk file leaves the header intact, so the failure
    // comes from the codec, not from the magic check.
    let data = sample_chunk();
    let mut encoded = encode(&data).expect("encode");
    encoded.truncate(1000);
    match decode(&encoded) {
        Err(Error::Lzo(_)) => {}
        other => panic!("unexpected: {:?}", other),
    }
}

#[test]
fn check_backend_store() {
    // (1) wrong contents
    assert!(Backend::open(b"/srv/backup", b"v1").is_err());
    match Backend::open(b"/srv/backup", b"v1\n") {
        Err(Error::VersionTag(t)) => assert_eq!(t, b"v1".to_vec()),
        other => panic!("unexpected: {:?}", other),
    }
    // (2) acceptable contents, with the trailing newline trimmed
    assert!(Backend::open(b"/srv/backup", b"v2").is_ok());
    assert!(Backend::open(b"/srv/backup", b"v2\n").is_ok());
    assert!(Backend::open(b"/srv/backup", b"  v2  \n").is_ok());
}

#[test]
fn chunk_file_name() {
    let be = Backend::open(b"/srv/backup", b"v2\n").expect("open");
    let p = be.filename(b"4db6e194fd398e8edb76e11054d73eb0");
    assert_eq!(
        p,
        b"/srv/backup/chunks/4d/4db6e194fd398e8edb76e11054d73eb0.chunk.lzo".to_vec()
    );
}
