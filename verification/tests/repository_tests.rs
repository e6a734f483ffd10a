use gitlet::commit::Commit;
use gitlet::repository::{Message, Repository};

fn words(args: &[&str]) -> Vec<String> {
    args.iter().map(|s| s.to_string()).collect()
}

fn lines(v: &[Message]) -> Vec<(bool, String)> {
    v.iter()
        .map(|m| match m {
            Message::Stdout(s) => (true, s.clone()),
            Message::Stderr(s) => (false, s.clone()),
        })
        .collect()
}

fn run(repo: &mut Repository, args: &[&str]) -> Vec<(bool, String)> {
    let out = repo.run(&words(args)).expect("the command ran");
    lines(&out)
}

fn out(s: &str) -> (bool, String) {
    (true, s.to_string())
}

fn err(s: &str) -> (bool, String) {
    (false, s.to_string())
}

fn write(repo: &mut Repository, name: &str, content: &str) {
    repo.working.insert(name.to_string(), content.as_bytes().to_vec());
}

fn read(repo: &Repository, name: &str) -> Option<String> {
    repo.working.get(name).map(|v| String::from_utf8(v.clone()).unwrap())
}

fn fresh() -> Repository {
    let mut r = Repository::new();
    assert!(run(&mut r, &["init"]).is_empty());
    r
}

fn head_id(repo: &Repository) -> String {
    repo.get_head_commit().get_id()
}

fn commit_file(repo: &mut Repository, name: &str, content: &str, message: &str) {
    write(repo, name, content);
    assert!(run(repo, &["add", name]).is_empty());
    assert!(run(repo, &["commit", message]).is_empty());
}

const UNTRACKED: &str = "There is an untracked file in the way; delete it, or add and commit it first.";

#[test]
fn init_makes_a_valid_store() {
    let r = fresh();
    assert!(r.gitlet_exists());
    assert!(r.check_valid());
    assert_eq!(r.head, "refs/heads/master");
    assert_eq!(r.current_branch(), "master");
    let head = r.get_head_commit();
    assert_eq!(head.message, "initial commit");
    assert_eq!(head.get_id(), Commit::initial().get_id());
    assert_eq!(r.branches.get("master").unwrap(), &Commit::initial().get_id());
}

#[test]
fn init_twice_is_refused() {
    let mut r = fresh();
    assert_eq!(
        run(&mut r, &["init"]),
        vec![err("A Gitlet version-control system already exists in the current directory.")]
    );
}

#[test]
fn init_with_operand_is_refused() {
    let mut r = Repository::new();
    assert_eq!(run(&mut r, &["init", "x"]), vec![err("Incorrect operands.")]);
    assert!(!r.gitlet_exists());
}

#[test]
fn no_command() {
    let mut r = Repository::new();
    assert_eq!(run(&mut r, &[]), vec![err("Please enter a command.")]);
}

#[test]
fn unknown_command() {
    let mut r = fresh();
    assert_eq!(run(&mut r, &["push", "origin"]), vec![err("No command with that name exists.")]);
}

#[test]
fn commands_outside_a_repository() {
    let mut r = Repository::new();
    let not_init = vec![err("Not in an initialized Gitlet directory.")];
    assert_eq!(run(&mut r, &["commit", "m"]), not_init);
    assert_eq!(run(&mut r, &["rm", "f"]), not_init);
    assert_eq!(run(&mut r, &["log"]), not_init);
    assert_eq!(run(&mut r, &["global-log"]), not_init);
    assert_eq!(run(&mut r, &["find", "m"]), not_init);
    assert_eq!(run(&mut r, &["status"]), not_init);
    assert_eq!(run(&mut r, &["checkout", "master"]), not_init);
    assert_eq!(run(&mut r, &["branch", "b"]), not_init);
    assert_eq!(run(&mut r, &["rm-branch", "b"]), not_init);
    assert_eq!(run(&mut r, &["reset", "abc"]), not_init);
    assert_eq!(run(&mut r, &["merge", "b"]), not_init);
    assert!(run(&mut r, &["add", "f"]).is_empty());
}

#[test]
fn wrong_operand_counts() {
    let mut r = fresh();
    let bad = vec![err("Incorrect operands.")];
    assert_eq!(run(&mut r, &["add"]), bad);
    assert_eq!(run(&mut r, &["rm", "a", "b"]), bad);
    assert_eq!(run(&mut r, &["log", "x"]), bad);
    assert_eq!(run(&mut r, &["status", "x"]), bad);
    assert_eq!(run(&mut r, &["branch"]), bad);
    assert_eq!(run(&mut r, &["checkout"]), bad);
    assert_eq!(run(&mut r, &["checkout", "a", "b", "c", "d", "e"]), bad);
    assert_eq!(run(&mut r, &["checkout", "x", "f"]), bad);
    assert_eq!(run(&mut r, &["checkout", "id", "x", "f"]), bad);
    assert_eq!(run(&mut r, &["commit"]), vec![err("Please enter a commit message.")]);
}

#[test]
fn status_of_a_new_repository() {
    let mut r = fresh();
    assert_eq!(
        run(&mut r, &["status"]),
        vec![out("Branches:"), out("*master"), out("Staged Files:"), out("Removed Files:")]
    );
}

#[test]
fn add_missing_file() {
    let mut r = fresh();
    assert_eq!(run(&mut r, &["add", "nope.txt"]), vec![err("File does not exist.")]);
}

#[test]
fn add_commit_and_log() {
    let mut r = fresh();
    write(&mut r, "a.txt", "hello\n");
    assert!(run(&mut r, &["add", "a.txt"]).is_empty());
    assert_eq!(
        run(&mut r, &["status"]),
        vec![out("Branches:"), out("*master"), out("Staged Files:"), out("a.txt"), out("Removed Files:")]
    );
    let first = head_id(&r);
    assert!(run(&mut r, &["commit", "add a"]).is_empty());
    let head = r.get_head_commit();
    assert_eq!(head.message, "add a");
    assert_eq!(head.parent, Some(first.clone()));
    let blob_id = head.tree.get("a.txt").unwrap().clone();
    assert_eq!(r.load_blob(&blob_id).content, b"hello\n".to_vec());
    assert!(r.index.is_clear());
    let log = run(&mut r, &["log"]);
    assert_eq!(log.len(), 2);
    assert!(log[0].1.starts_with(&format!("===\ncommit {}\n", head.get_id())));
    assert!(log[0].1.ends_with("\nadd a\n"));
    assert!(log[1].1.starts_with(&format!("===\ncommit {}\n", first)));
    assert!(log[1].1.ends_with("\ninitial commit\n"));
    assert!(r.check_valid());
}

#[test]
fn adding_an_unchanged_file_unstages_it() {
    let mut r = fresh();
    commit_file(&mut r, "a.txt", "v1", "one");
    write(&mut r, "a.txt", "v2");
    assert!(run(&mut r, &["add", "a.txt"]).is_empty());
    assert!(r.index.files.contains_key("a.txt"));
    write(&mut r, "a.txt", "v1");
    assert!(run(&mut r, &["add", "a.txt"]).is_empty());
    assert!(r.index.is_clear());
}

#[test]
fn commit_messages_and_empty_commits() {
    let mut r = fresh();
    assert_eq!(run(&mut r, &["commit", "   "]), vec![err("Please enter a commit message.")]);
    assert_eq!(run(&mut r, &["commit", "nothing"]), vec![err("No changes added to the commit.")]);
    assert_eq!(r.commits.len(), 1);
}

#[test]
fn rm_cases() {
    let mut r = fresh();
    assert_eq!(run(&mut r, &["rm", "x"]), vec![err("No reason to remove the file.")]);
    write(&mut r, "new.txt", "n");
    run(&mut r, &["add", "new.txt"]);
    assert!(run(&mut r, &["rm", "new.txt"]).is_empty());
    assert!(r.index.is_clear());
    assert_eq!(read(&r, "new.txt"), Some("n".to_string()));
    commit_file(&mut r, "t.txt", "t", "track t");
    assert!(run(&mut r, &["rm", "t.txt"]).is_empty());
    assert_eq!(read(&r, "t.txt"), None);
    assert_eq!(
        run(&mut r, &["status"]),
        vec![out("Branches:"), out("*master"), out("Staged Files:"), out("Removed Files:"), out("t.txt")]
    );
    assert!(run(&mut r, &["commit", "drop t"]).is_empty());
    assert!(!r.get_head_commit().tree.contains_key("t.txt"));
}

#[test]
fn branches_and_status() {
    let mut r = fresh();
    assert!(run(&mut r, &["branch", "zeta"]).is_empty());
    assert!(run(&mut r, &["branch", "alpha"]).is_empty());
    assert_eq!(run(&mut r, &["branch", "alpha"]), vec![err("A branch with that name already exists.")]);
    assert_eq!(
        run(&mut r, &["status"]),
        vec![
            out("Branches:"),
            out("alpha"),
            out("*master"),
            out("zeta"),
            out("Staged Files:"),
            out("Removed Files:"),
        ]
    );
    assert_eq!(run(&mut r, &["rm-branch", "nope"]), vec![err("A branch with that name does not exist.")]);
    assert_eq!(run(&mut r, &["rm-branch", "master"]), vec![err("Cannot remove the current branch.")]);
    assert!(run(&mut r, &["rm-branch", "zeta"]).is_empty());
    assert!(!r.branches.contains_key("zeta"));
}

#[test]
fn checkout_files() {
    let mut r = fresh();
    commit_file(&mut r, "a.txt", "first", "one");
    let one = head_id(&r);
    commit_file(&mut r, "a.txt", "second", "two");
    write(&mut r, "a.txt", "scratch");
    assert!(run(&mut r, &["checkout", "--", "a.txt"]).is_empty());
    assert_eq!(read(&r, "a.txt"), Some("second".to_string()));
    assert!(run(&mut r, &["checkout", &one, "--", "a.txt"]).is_empty());
    assert_eq!(read(&r, "a.txt"), Some("first".to_string()));
    assert!(run(&mut r, &["checkout", &one[..8], "--", "a.txt"]).is_empty());
    assert_eq!(
        run(&mut r, &["checkout", "--", "missing.txt"]),
        vec![err("File does not exist in that commit.")]
    );
    assert_eq!(
        run(&mut r, &["checkout", "ffffffff", "--", "a.txt"]),
        vec![err("No commit with that id exists.")]
    );
}

#[test]
fn checkout_branches() {
    let mut r = fresh();
    commit_file(&mut r, "a.txt", "a on master", "a");
    assert!(run(&mut r, &["branch", "dev"]).is_empty());
    commit_file(&mut r, "m.txt", "only master", "m");
    assert_eq!(run(&mut r, &["checkout", "nope"]), vec![err("No such branch exists.")]);
    assert_eq!(run(&mut r, &["checkout", "master"]), vec![err("No need to checkout the current branch.")]);
    assert!(run(&mut r, &["checkout", "dev"]).is_empty());
    assert_eq!(r.current_branch(), "dev");
    assert_eq!(read(&r, "m.txt"), None);
    assert_eq!(read(&r, "a.txt"), Some("a on master".to_string()));
    write(&mut r, "m.txt", "untracked here");
    assert_eq!(run(&mut r, &["checkout", "master"]), vec![err(UNTRACKED)]);
    assert_eq!(r.current_branch(), "dev");
    r.working.remove("m.txt");
    assert!(run(&mut r, &["checkout", "master"]).is_empty());
    assert_eq!(read(&r, "m.txt"), Some("only master".to_string()));
    assert!(r.check_valid());
}

#[test]
fn reset_moves_the_branch() {
    let mut r = fresh();
    commit_file(&mut r, "a.txt", "1", "one");
    let one = head_id(&r);
    commit_file(&mut r, "b.txt", "2", "two");
    assert!(run(&mut r, &["reset", &one]).is_empty());
    assert_eq!(head_id(&r), one);
    assert_eq!(read(&r, "b.txt"), None);
    assert_eq!(read(&r, "a.txt"), Some("1".to_string()));
    assert_eq!(r.branches.get("master").unwrap(), &one);
    assert_eq!(run(&mut r, &["global-log"]).len(), 3);
}

#[test]
fn reset_to_an_unknown_commit_does_not_run() {
    let mut r = fresh();
    assert!(r.run(&words(&["reset", "0000000000"])).is_none());
}

#[test]
fn reset_with_untracked_file_in_the_way() {
    let mut r = fresh();
    let first = head_id(&r);
    commit_file(&mut r, "a.txt", "1", "one");
    let one = head_id(&r);
    assert!(run(&mut r, &["reset", &first]).is_empty());
    write(&mut r, "a.txt", "mine");
    assert_eq!(run(&mut r, &["reset", &one]), vec![err(UNTRACKED)]);
    assert_eq!(head_id(&r), first);
}

#[test]
fn find_by_message() {
    let mut r = fresh();
    commit_file(&mut r, "a.txt", "1", "same");
    let one = head_id(&r);
    commit_file(&mut r, "a.txt", "2", "same");
    let two = head_id(&r);
    let mut ids = vec![one, two];
    ids.sort();
    assert_eq!(run(&mut r, &["find", "same"]), vec![out(&ids[0]), out(&ids[1])]);
    assert_eq!(run(&mut r, &["find", "other"]), vec![out("Found no commit with that message.")]);
}

#[test]
fn global_log_lists_every_commit_in_id_order() {
    let mut r = fresh();
    commit_file(&mut r, "a.txt", "1", "one");
    let g = run(&mut r, &["global-log"]);
    assert_eq!(g.len(), 2);
    let mut ids: Vec<String> = r.commits.keys();
    ids.sort();
    assert!(g[0].1.starts_with(&format!("===\ncommit {}\n", ids[0])));
    assert!(g[1].1.starts_with(&format!("===\ncommit {}\n", ids[1])));
}

#[test]
fn a_broken_store_runs_nothing() {
    let mut r = fresh();
    r.head = "refs/heads/gone".to_string();
    assert!(!r.check_valid());
    assert!(r.run(&words(&["log"])).is_none());
    assert_eq!(r.head, "refs/heads/gone");
}

#[test]
fn paths_under_the_working_directory() {
    assert_eq!(Repository::gitlet_dir("/w"), "/w/.gitlet");
    assert_eq!(Repository::objects_dir("/w"), "/w/.gitlet/objects");
    assert_eq!(Repository::commits_dir("/w"), "/w/.gitlet/objects/commits");
    assert_eq!(Repository::blobs_dir("/w"), "/w/.gitlet/objects/blobs");
    assert_eq!(Repository::refs_dir("/w"), "/w/.gitlet/refs");
    assert_eq!(Repository::refs_heads_dir("/w"), "/w/.gitlet/refs/heads");
    assert_eq!(Repository::refs_tags_dir("/w"), "/w/.gitlet/refs/tags");
    assert_eq!(Repository::head_file("/w"), "/w/.gitlet/HEAD");
    assert_eq!(Repository::index_file("/w"), "/w/.gitlet/index");
}

#[test]
fn store_operations() {
    let mut r = Repository::new();
    assert!(!r.gitlet_exists());
    r.init_dirs();
    assert!(r.gitlet_exists());
    let c = Commit::initial();
    r.save_commit(&c);
    assert_eq!(r.load_commit(&c.get_id()).message, "initial commit");
    r.create_branch("master", &c.get_id());
    r.set_head("refs/heads/master");
    assert!(r.check_valid());
    let b = gitlet::blob::Blob::new(b"x".to_vec());
    r.save_blob(&b);
    assert_eq!(r.load_blob(&b.get_id()).content, b"x".to_vec());
    let mut i = r.load_index();
    i.files.insert("f".to_string(), b.get_id());
    r.save_index(&i);
    assert!(r.load_index().files.contains_key("f"));
}

#[test]
fn restore_and_untracked_checks() {
    let mut r = fresh();
    commit_file(&mut r, "a.txt", "A", "a");
    let head = r.get_head_commit();
    r.working.remove("a.txt");
    assert!(r.restore_files_from_commit(&head, "a.txt").is_ok());
    assert_eq!(read(&r, "a.txt"), Some("A".to_string()));
    assert_eq!(
        r.restore_files_from_commit(&head, "b.txt"),
        Err("File does not exist in that commit.".to_string())
    );
    let empty = Commit::initial();
    write(&mut r, "b.txt", "loose");
    let mut target_tree = gitlet::filemap::FileMap::new();
    target_tree.insert("b.txt".to_string(), "id".to_string());
    let target = Commit::new("t".to_string(), None, target_tree);
    assert_eq!(r.check_untracked_files(&empty, &target), Err(UNTRACKED.to_string()));
    assert!(r.check_untracked_files(&head, &head).is_ok());
}

#[test]
fn find_commit_by_prefix_takes_the_least_match() {
    let mut r = fresh();
    commit_file(&mut r, "a.txt", "1", "one");
    let mut ids: Vec<String> = r.commits.keys();
    ids.sort();
    assert_eq!(r.find_commit_by_prefix("").unwrap(), ids[0]);
    assert_eq!(r.find_commit_by_prefix(&ids[1]).unwrap(), ids[1]);
    assert_eq!(r.find_commit_by_prefix("xyz"), Err("No commit with that id exists.".to_string()));
}
