use gitlet::utils::{error, join, read_contents_as_string, sha1, to_hex, GitletError, UID_LENGTH};

#[test]
fn sha1_of_nothing() {
    let parts: [&[u8]; 0] = [];
    assert_eq!(sha1(&parts), "da39a3ee5e6b4b0d3255bfef95601890afd80709");
}

#[test]
fn sha1_of_abc() {
    let parts: [&[u8]; 1] = [b"abc"];
    assert_eq!(sha1(&parts), "a9993e364706816aba3e25717850c26c9cd0d89d");
}

#[test]
fn sha1_of_parts_is_sha1_of_their_concatenation() {
    let parts: [&[u8]; 3] = [b"a", b"", b"bc"];
    let whole: [&[u8]; 1] = [b"abc"];
    assert_eq!(sha1(&parts), sha1(&whole));
}

#[test]
fn sha1_ids_have_uid_length() {
    let parts: [&[u8]; 1] = [b"some longer text to hash"];
    assert_eq!(sha1(&parts).len(), UID_LENGTH);
    assert_eq!(UID_LENGTH, 40);
}

#[test]
fn hex_is_lower_case_two_digits_per_byte() {
    assert_eq!(to_hex(&[0x00, 0x0f, 0xa0, 0xff]), "000fa0ff");
    assert_eq!(to_hex(&[]), "");
}

#[test]
fn join_puts_separators_between_segments() {
    assert_eq!(join("/tmp/work", &[".gitlet", "objects"]), "/tmp/work/.gitlet/objects");
    assert_eq!(join("dir/", &["file"]), "dir/file");
    assert_eq!(join("", &["file"]), "file");
    assert_eq!(join("dir", &[]), "dir");
}

#[test]
fn join_with_absolute_segment_replaces_the_path() {
    assert_eq!(join("dir", &["/abs", "x"]), "/abs/x");
}

#[test]
fn error_carries_its_message() {
    let e = error("A branch with that name does not exist.");
    assert_eq!(e.0, "A branch with that name does not exist.");
    assert_eq!(e.display(), "A branch with that name does not exist.");
    let c: GitletError = e.clone();
    assert_eq!(c.0, e.0);
}

#[test]
fn read_contents_as_string_decodes_utf8() {
    let r = read_contents_as_string("héllo\n".as_bytes());
    assert_eq!(r.unwrap(), "héllo\n");
}

#[test]
fn read_contents_as_string_refuses_invalid_utf8() {
    match read_contents_as_string(&[0x66, 0xff, 0x6f]) {
        Ok(_) => panic!("invalid UTF-8 was accepted"),
        Err(e) => assert_eq!(e.0, "invalid UTF-8"),
    }
}
