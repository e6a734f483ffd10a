use gitlet::repository::{Message, Repository};

fn words(args: &[&str]) -> Vec<String> {
    args.iter().map(|s| s.to_string()).collect()
}

fn run(repo: &mut Repository, args: &[&str]) -> Vec<Message> {
    repo.run(&words(args)).expect("the command ran")
}

fn write(repo: &mut Repository, name: &str, content: &str) {
    repo.working.insert(name.to_string(), content.as_bytes().to_vec());
}

/// The staging area, the working directory and the stored blobs, as plain values.
fn snapshot(r: &Repository) -> (Vec<(String, String)>, Vec<String>, Vec<(String, Vec<u8>)>, Vec<(String, Vec<u8>)>) {
    let staged = r.index.files.as_entries().clone();
    let removed = r.index.removed.names();
    let working = r.working.as_entries().clone();
    let blobs = r
        .blobs
        .as_entries()
        .iter()
        .map(|(k, b)| (k.clone(), b.content.clone()))
        .collect();
    (staged, removed, working, blobs)
}

fn fresh() -> Repository {
    let mut r = Repository::new();
    assert!(run(&mut r, &["init"]).is_empty());
    r
}

#[test]
fn init_gives_one_commit_on_master() {
    let mut r = fresh();
    assert!(r.check_valid());
    assert_eq!(r.current_branch(), "master");
    assert_eq!(run(&mut r, &["log"]).len(), 1);
}

#[test]
fn adding_twice_is_adding_once() {
    let mut once = fresh();
    write(&mut once, "a.txt", "contents");
    run(&mut once, &["add", "a.txt"]);
    let mut twice = fresh();
    write(&mut twice, "a.txt", "contents");
    run(&mut twice, &["add", "a.txt"]);
    run(&mut twice, &["add", "a.txt"]);
    assert_eq!(snapshot(&once), snapshot(&twice));
}

#[test]
fn rm_undoes_add_of_a_new_file() {
    let mut r = fresh();
    write(&mut r, "new.txt", "n");
    let (staged, removed, working, _) = snapshot(&r);
    run(&mut r, &["add", "new.txt"]);
    assert!(run(&mut r, &["rm", "new.txt"]).is_empty());
    let (staged2, removed2, working2, _) = snapshot(&r);
    assert_eq!((staged, removed, working), (staged2, removed2, working2));
}

#[test]
fn branch_then_rm_branch_restores_the_branches() {
    let mut r = fresh();
    let before = r.branches.as_entries().clone();
    assert!(run(&mut r, &["branch", "tmp"]).is_empty());
    assert!(run(&mut r, &["rm-branch", "tmp"]).is_empty());
    assert_eq!(r.branches.as_entries(), &before);
}

#[test]
fn log_after_commit_starts_with_the_new_commit_then_the_old_head() {
    let mut r = fresh();
    let old = r.get_head_commit().get_id();
    write(&mut r, "a.txt", "1");
    run(&mut r, &["add", "a.txt"]);
    run(&mut r, &["commit", "c"]);
    let new = r.get_head_commit().get_id();
    let log = run(&mut r, &["log"]);
    let texts: Vec<String> = log
        .iter()
        .map(|m| match m {
            Message::Stdout(s) => s.clone(),
            Message::Stderr(s) => s.clone(),
        })
        .collect();
    assert!(texts[0].starts_with(&format!("===\ncommit {}\n", new)));
    assert!(texts[1].starts_with(&format!("===\ncommit {}\n", old)));
}

#[test]
fn committed_file_reads_back_after_changes() {
    let mut r = fresh();
    write(&mut r, "a.txt", "kept");
    run(&mut r, &["add", "a.txt"]);
    run(&mut r, &["commit", "keep"]);
    write(&mut r, "a.txt", "overwritten");
    assert!(run(&mut r, &["checkout", "--", "a.txt"]).is_empty());
    assert_eq!(r.working.get("a.txt").unwrap(), &b"kept".to_vec());
}

#[test]
fn commands_keep_the_store_valid() {
    let mut r = fresh();
    write(&mut r, "a.txt", "1");
    for args in [
        vec!["add", "a.txt"],
        vec!["commit", "one"],
        vec!["branch", "b"],
        vec!["checkout", "b"],
        vec!["rm", "a.txt"],
        vec!["commit", "two"],
        vec!["checkout", "master"],
        vec!["merge", "b"],
        vec!["status"],
    ] {
        run(&mut r, &args);
        assert!(r.check_valid(), "after {:?}", args);
    }
}
