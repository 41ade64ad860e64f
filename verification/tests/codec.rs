use ninep::dir::Dir;
use ninep::qidpool::Qid;
use ninep::qidpool::QidType;

#[test]
fn qid_encodes_to_thirteen_big_endian_bytes() {
    let qid = Qid::new(QidType::from_bits(0x80), 1, 2);
    let bytes = qid.as_bytes();
    assert_eq!(
        bytes,
        vec![0x80, 0, 0, 0, 1, 0, 0, 0, 0, 0, 0, 0, 2]
    );
}

#[test]
fn qid_round_trips_through_bytes() {
    let qid = Qid::new(QidType::from_bits(0x04), 0xdead_beef, 0x0123_4567_89ab_cdef);
    let bytes = qid.as_bytes();
    let back = Qid::from_bytes(bytes.as_slice(), 0);
    assert_eq!(back, qid);
}

#[test]
fn empty_record_has_exact_layout() {
    let qid = Qid::new(QidType::from_bits(0), 0, 0);
    let dir = Dir::new(0, 0, &qid, 0, 0, 0, 0, "", "", "", "");
    let bytes = dir.as_bytes();
    // 2 length bytes + 47 bytes of fixed fields and empty string prefixes
    assert_eq!(bytes.len(), 49);
    assert_eq!(bytes[0], 47);
    assert_eq!(bytes[1], 0);
    assert!(bytes[2..].iter().all(|b| *b == 0));
}

#[test]
fn record_round_trips_with_typical_strings() {
    let qid = Qid::new(QidType::from_bits(0x80), 7, 42);
    let dir = Dir::new(
        3, 4, &qid, 0o755, 100, 200, 11, "/test", "root", "wheel", "root",
    );
    let bytes = dir.as_bytes();
    let back = Dir::from_bytes(bytes.as_slice()).expect("record should decode");
    assert_eq!(back.dir_type, 3);
    assert_eq!(back.dev, 4);
    assert_eq!(back.qid, qid);
    assert_eq!(back.mode, 0o755);
    assert_eq!(back.atime, 100);
    assert_eq!(back.mtime, 200);
    assert_eq!(back.length, 11);
    assert_eq!(back.name, "/test");
    assert_eq!(back.uid, "root");
    assert_eq!(back.gid, "wheel");
    assert_eq!(back.muid, "root");
}

#[test]
fn record_round_trips_with_empty_strings() {
    let qid = Qid::new(QidType::from_bits(0), 0, 9);
    let dir = Dir::new(0, 0, &qid, 0, 0, 5, 0, "", "", "", "");
    let bytes = dir.as_bytes();
    let back = Dir::from_bytes(bytes.as_slice()).expect("record should decode");
    assert_eq!(back.name, "");
    assert_eq!(back.uid, "");
    assert_eq!(back.gid, "");
    assert_eq!(back.muid, "");
    assert_eq!(back.mtime, 5);
    assert_eq!(back.qid, qid);
}

#[test]
fn truncated_record_does_not_decode() {
    let qid = Qid::new(QidType::from_bits(0), 0, 0);
    let dir = Dir::new(0, 0, &qid, 0, 0, 0, 0, "name", "", "", "");
    let mut bytes = dir.as_bytes();
    bytes.pop();
    assert!(Dir::from_bytes(bytes.as_slice()).is_none());
}

#[test]
fn record_with_wrong_length_prefix_does_not_decode() {
    let qid = Qid::new(QidType::from_bits(0), 0, 0);
    let dir = Dir::new(0, 0, &qid, 0, 0, 0, 0, "", "", "", "");
    let mut bytes = dir.as_bytes();
    bytes[0] = 46;
    assert!(Dir::from_bytes(bytes.as_slice()).is_none());
}
