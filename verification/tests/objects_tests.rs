use gitlet::blob::Blob;
use gitlet::commit::Commit;
use gitlet::filemap::FileMap;
use gitlet::gitlet_exception::GitletException;
use gitlet::index::Index;
use gitlet::utils::sha1;

fn initial_commit_data() -> Vec<u8> {
    let mut d = vec![14, 0, 0, 0, 0, 0, 0, 0];
    d.extend_from_slice(b"initial commit");
    d.extend_from_slice(&[0; 8]);
    d.push(0);
    d.extend_from_slice(&[0; 8]);
    d
}

#[test]
fn blob_data_is_length_then_bytes() {
    let blob = Blob::new(b"abc".to_vec());
    assert_eq!(blob.get_data(), vec![3, 0, 0, 0, 0, 0, 0, 0, 97, 98, 99]);
}

#[test]
fn blob_of_nothing() {
    let blob = Blob::new(Vec::new());
    assert_eq!(blob.get_data(), vec![0; 8]);
}

#[test]
fn blob_id_is_sha1_of_its_data() {
    let blob = Blob::new(b"hello\n".to_vec());
    let data = blob.get_data();
    let parts: [&[u8]; 1] = [&data];
    assert_eq!(blob.get_id(), sha1(&parts));
    assert_ne!(blob.get_id(), Blob::new(b"hello".to_vec()).get_id());
}

#[test]
fn blob_reads_back_from_its_data() {
    let blob = Blob::new(b"line one\nline two\n".to_vec());
    let back = Blob::from_data(&blob.get_data()).expect("a blob's own data decodes");
    assert_eq!(back.content, blob.content);
}

#[test]
fn truncated_blob_data_is_refused() {
    let data = Blob::new(b"abcdef".to_vec()).get_data();
    assert!(Blob::from_data(&data[..10]).is_none());
    assert!(Blob::from_data(&[]).is_none());
}

#[test]
fn initial_commit_fields() {
    let c = Commit::initial();
    assert_eq!(c.message, "initial commit");
    assert_eq!(c.timestamp, 0);
    assert!(c.parent.is_none());
    assert_eq!(c.tree.len(), 0);
}

#[test]
fn initial_commit_data_layout() {
    assert_eq!(Commit::initial().get_data(), initial_commit_data());
}

#[test]
fn commit_data_layout_with_parent_and_files() {
    let mut tree = FileMap::new();
    tree.insert("b.txt".to_string(), "22".to_string());
    tree.insert("a.txt".to_string(), "1".to_string());
    let c = Commit {
        message: "m".to_string(),
        timestamp: 258,
        parent: Some("p".to_string()),
        tree,
    };
    let mut expected = vec![1, 0, 0, 0, 0, 0, 0, 0, b'm'];
    expected.extend_from_slice(&[2, 1, 0, 0, 0, 0, 0, 0]);
    expected.extend_from_slice(&[1, 1, 0, 0, 0, 0, 0, 0, 0, b'p']);
    expected.extend_from_slice(&[2, 0, 0, 0, 0, 0, 0, 0]);
    expected.extend_from_slice(&[5, 0, 0, 0, 0, 0, 0, 0]);
    expected.extend_from_slice(b"a.txt");
    expected.extend_from_slice(&[1, 0, 0, 0, 0, 0, 0, 0, b'1']);
    expected.extend_from_slice(&[5, 0, 0, 0, 0, 0, 0, 0]);
    expected.extend_from_slice(b"b.txt");
    expected.extend_from_slice(&[2, 0, 0, 0, 0, 0, 0, 0, b'2', b'2']);
    assert_eq!(c.get_data(), expected);
}

#[test]
fn commit_id_is_sha1_of_its_data() {
    let c = Commit::initial();
    let data = initial_commit_data();
    let parts: [&[u8]; 1] = [&data];
    assert_eq!(c.get_id(), sha1(&parts));
    assert_eq!(c.get_id().len(), 40);
}

#[test]
fn commit_reads_back_from_its_data() {
    let mut tree = FileMap::new();
    tree.insert("x".to_string(), "id-x".to_string());
    tree.insert("w".to_string(), "id-w".to_string());
    let c = Commit::new("second".to_string(), Some(Commit::initial().get_id()), tree);
    let back = Commit::from_data(&c.get_data()).expect("a commit's own data decodes");
    assert_eq!(back.message, "second");
    assert_eq!(back.timestamp, c.timestamp);
    assert_eq!(back.parent, c.parent);
    assert_eq!(back.tree.as_entries(), c.tree.as_entries());
    assert_eq!(back.get_id(), c.get_id());
}

#[test]
fn garbage_commit_data_is_refused() {
    assert!(Commit::from_data(&[1, 2, 3]).is_none());
}

#[test]
fn new_commit_takes_the_clock() {
    let c = Commit::new("now".to_string(), None, FileMap::new());
    assert!(c.timestamp > 1_500_000_000);
}

#[test]
fn log_entry_layout() {
    let c = Commit::initial();
    let entry = c.log_entry("Thu Jan 1 00:00:00 1970 +0000");
    assert_eq!(
        entry,
        format!("===\ncommit {}\nDate: Thu Jan 1 00:00:00 1970 +0000\ninitial commit\n", c.get_id())
    );
}

#[test]
fn log_date_reads_as_local_time() {
    let c = Commit::initial();
    let entry = c.get_log();
    let head = format!("===\ncommit {}\nDate: ", c.get_id());
    assert!(entry.starts_with(&head));
    assert!(entry.ends_with("\ninitial commit\n"));
    let date = &entry[head.len()..entry.len() - "\ninitial commit\n".len()];
    let parts: Vec<&str> = date.split(' ').collect();
    assert_eq!(parts.len(), 6);
    assert!(parts[5].starts_with('+') || parts[5].starts_with('-'));
    assert!(parts[4] == "1970" || parts[4] == "1969");
}

#[test]
fn new_index_is_clear() {
    let i = Index::new();
    assert!(i.is_clear());
    assert_eq!(i.files.len(), 0);
    assert_eq!(i.removed.len(), 0);
}

#[test]
fn index_with_a_removal_is_not_clear() {
    let mut i = Index::new();
    i.removed.insert("gone.txt".to_string());
    assert!(!i.is_clear());
}

#[test]
fn exception_messages() {
    let e = GitletException::new();
    assert_eq!(e.message(), None);
    assert_eq!(e.display(), "Gitlet exception");
    let f = GitletException::with_message("Incorrect operands.".to_string());
    assert_eq!(f.message(), Some("Incorrect operands."));
    assert_eq!(f.display(), "Incorrect operands.");
    let d: GitletException = Default::default();
    assert_eq!(d.message(), None);
    assert_eq!(f.clone().message(), Some("Incorrect operands."));
}

#[test]
fn blob_reads_back_with_bytes_after_it() {
    let blob = Blob::new(b"xyz".to_vec());
    let mut data = blob.get_data();
    data.extend_from_slice(b"trailing");
    assert_eq!(Blob::from_data(&data).unwrap().content, b"xyz".to_vec());
}

#[test]
fn commit_reads_back_with_bytes_after_it() {
    let c = Commit::initial();
    let mut data = c.get_data();
    data.push(7);
    let back = Commit::from_data(&data).expect("a commit's stored form decodes");
    assert_eq!(back.get_id(), c.get_id());
    assert_eq!(back.message, "initial commit");
}

#[test]
fn commit_made_at_a_given_time() {
    let c = Commit::made_at("m".to_string(), 1_700_000_000, None, FileMap::new());
    assert_eq!(c.timestamp, 1_700_000_000);
    assert_eq!(c.message, "m");
    assert!(c.parent.is_none());
    assert_eq!(c.tree.len(), 0);
}
