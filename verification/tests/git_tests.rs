use hloc::git::{BlobId, CommitId};

#[test]
fn hex_ids_are_parsed_as_git_does() {
    let c = CommitId::from_hex_string("1").unwrap();
    let mut expected = vec![0u8; 20];
    expected[0] = 0x10;
    assert_eq!(c.to_bytes(), expected);
    let full = "0123456789abcdef0123456789abcdef01234567";
    let c = CommitId::from_hex_string(full).unwrap();
    assert_eq!(c.to_bytes()[0], 0x01);
    assert_eq!(c.to_bytes()[19], 0x67);
    assert_eq!(c.high, 0x0123456789abcdef);
    assert_eq!(CommitId::from_hex_string(""), None);
    assert_eq!(CommitId::from_hex_string("xyz"), None);
    assert_eq!(CommitId::from_hex_string(&"a".repeat(41)), None);
}

#[test]
fn bytes_round_trip() {
    let bytes: Vec<u8> = (1..=20).collect();
    let c = CommitId::from_bytes(&bytes);
    assert_eq!(c.to_bytes(), bytes);
    assert_eq!(CommitId::from_bytes(&c.to_bytes()), c);
    let b = BlobId::from_bytes(&bytes);
    assert_eq!(b.to_bytes(), bytes);
    assert_eq!(b.low, 0x11121314);
}
