use gitlet::repository::{Message, Repository};

fn words(args: &[&str]) -> Vec<String> {
    args.iter().map(|s| s.to_string()).collect()
}

fn run(repo: &mut Repository, args: &[&str]) -> Option<Vec<Message>> {
    repo.run(&words(args))
}

fn committed() -> Repository {
    let mut r = Repository::new();
    run(&mut r, &["init"]).unwrap();
    r.working.insert("a.txt".to_string(), b"A".to_vec());
    run(&mut r, &["add", "a.txt"]).unwrap();
    run(&mut r, &["commit", "a"]).unwrap();
    r
}

#[test]
fn commands_that_read_no_blob_run_without_blobs() {
    let mut r = committed();
    let id = r.get_head_commit().tree.get("a.txt").unwrap().clone();
    r.blobs.remove(&id);
    assert!(!r.check_valid());
    assert_eq!(run(&mut r, &["log"]).unwrap().len(), 2);
    assert!(run(&mut r, &["branch", "side"]).unwrap().is_empty());
    assert!(run(&mut r, &["rm-branch", "side"]).unwrap().is_empty());
    assert!(run(&mut r, &["status"]).is_some());
    r.working.insert("b.txt".to_string(), b"B".to_vec());
    assert!(run(&mut r, &["add", "b.txt"]).unwrap().is_empty());
    assert!(run(&mut r, &["commit", "b"]).unwrap().is_empty());
}

#[test]
fn checkout_of_a_file_whose_blob_is_missing_does_not_run() {
    let mut r = committed();
    let id = r.get_head_commit().tree.get("a.txt").unwrap().clone();
    r.blobs.remove(&id);
    assert!(run(&mut r, &["checkout", "--", "a.txt"]).is_none());
    assert!(run(&mut r, &["checkout", "--", "other.txt"]).is_some());
}

#[test]
fn log_runs_with_a_commit_stored_under_another_name() {
    let mut r = committed();
    let copy = r.get_head_commit();
    r.commits.insert("0000000000000000000000000000000000000000".to_string(), copy);
    assert!(!r.check_valid());
    assert_eq!(run(&mut r, &["log"]).unwrap().len(), 2);
}

#[test]
fn refusals_of_merge_need_no_valid_store() {
    let mut r = committed();
    let id = r.get_head_commit().tree.get("a.txt").unwrap().clone();
    r.blobs.remove(&id);
    let out = run(&mut r, &["merge", "nope"]).unwrap();
    assert!(matches!(&out[0], Message::Stderr(s) if s == "A branch with that name does not exist."));
}
