use gitlet::merge::{all_files, conflict_content, merge_action, MergeAction};
use gitlet::commit::Commit;
use gitlet::filemap::FileMap;
use gitlet::repository::{Message, Repository};

fn words(args: &[&str]) -> Vec<String> {
    args.iter().map(|s| s.to_string()).collect()
}

fn run(repo: &mut Repository, args: &[&str]) -> Vec<(bool, String)> {
    let v = repo.run(&words(args)).expect("the command ran");
    v.iter()
        .map(|m| match m {
            Message::Stdout(s) => (true, s.clone()),
            Message::Stderr(s) => (false, s.clone()),
        })
        .collect()
}

fn out(s: &str) -> (bool, String) {
    (true, s.to_string())
}

fn err(s: &str) -> (bool, String) {
    (false, s.to_string())
}

fn write(repo: &mut Repository, name: &str, content: &str) {
    repo.working.insert(name.to_string(), content.as_bytes().to_vec());
}

fn read(repo: &Repository, name: &str) -> Option<String> {
    repo.working.get(name).map(|v| String::from_utf8(v.clone()).unwrap())
}

fn stage(repo: &mut Repository, name: &str, content: &str) {
    write(repo, name, content);
    assert!(run(repo, &["add", name]).is_empty());
}

fn commit(repo: &mut Repository, message: &str) {
    assert!(run(repo, &["commit", message]).is_empty());
}

fn head_id(repo: &Repository) -> String {
    repo.get_head_commit().get_id()
}

/// master and other share a base commit with a.txt and b.txt.
fn diverged() -> Repository {
    let mut r = Repository::new();
    run(&mut r, &["init"]);
    stage(&mut r, "a.txt", "A\n");
    stage(&mut r, "b.txt", "B\n");
    commit(&mut r, "base");
    assert!(run(&mut r, &["branch", "other"]).is_empty());
    r
}

#[test]
fn merge_rule_table() {
    assert_eq!(merge_action(Some("s"), Some("s"), Some("g")), MergeAction::TakeGiven);
    assert_eq!(merge_action(Some("s"), Some("c"), Some("s")), MergeAction::Keep);
    assert_eq!(merge_action(Some("s"), Some("x"), Some("x")), MergeAction::Keep);
    assert_eq!(merge_action(Some("s"), Some("s"), Some("s")), MergeAction::Keep);
    assert_eq!(merge_action(Some("s"), None, None), MergeAction::Keep);
    assert_eq!(merge_action(None, Some("c"), None), MergeAction::Keep);
    assert_eq!(merge_action(None, None, Some("g")), MergeAction::TakeGiven);
    assert_eq!(merge_action(Some("s"), Some("s"), None), MergeAction::Remove);
    assert_eq!(merge_action(Some("s"), None, Some("s")), MergeAction::Keep);
    assert_eq!(merge_action(Some("s"), Some("c"), Some("g")), MergeAction::Conflict);
    assert_eq!(merge_action(Some("s"), Some("c"), None), MergeAction::Conflict);
    assert_eq!(merge_action(Some("s"), None, Some("g")), MergeAction::Conflict);
    assert_eq!(merge_action(None, Some("c"), Some("g")), MergeAction::Conflict);
    assert_eq!(merge_action(None, Some("x"), Some("x")), MergeAction::Keep);
}

#[test]
fn conflict_markers() {
    let c = conflict_content(b"mine\n".to_vec(), b"theirs\n".to_vec());
    assert_eq!(c, b"<<<<<<< HEAD\nmine\n=======\ntheirs\n>>>>>>>\n".to_vec());
    let d = conflict_content(Vec::new(), b"x".to_vec());
    assert_eq!(d, b"<<<<<<< HEAD\n=======\nx>>>>>>>\n".to_vec());
}

#[test]
fn all_files_is_the_sorted_union() {
    let mut t1 = FileMap::new();
    t1.insert("c".to_string(), "1".to_string());
    let mut t2 = FileMap::new();
    t2.insert("a".to_string(), "2".to_string());
    t2.insert("c".to_string(), "3".to_string());
    let mut t3 = FileMap::new();
    t3.insert("b".to_string(), "4".to_string());
    let s = Commit::new("s".to_string(), None, t1);
    let c = Commit::new("c".to_string(), None, t2);
    let g = Commit::new("g".to_string(), None, t3);
    assert_eq!(all_files(&s, &c, &g), vec!["a", "b", "c"]);
}

#[test]
fn split_point_of_diverged_branches() {
    let mut r = diverged();
    let base = head_id(&r);
    stage(&mut r, "a.txt", "A2\n");
    commit(&mut r, "m1");
    let m1 = head_id(&r);
    run(&mut r, &["checkout", "other"]);
    stage(&mut r, "b.txt", "B2\n");
    commit(&mut r, "o1");
    let o1 = head_id(&r);
    assert_eq!(r.find_split_point(&m1, &o1), base);
    assert_eq!(r.find_split_point(&o1, &m1), base);
    assert_eq!(r.find_split_point(&m1, &base), base);
    assert_eq!(r.find_split_point(&m1, &m1), m1);
}

#[test]
fn merge_preconditions() {
    let mut r = diverged();
    assert_eq!(run(&mut r, &["merge", "nope"]), vec![err("A branch with that name does not exist.")]);
    assert_eq!(run(&mut r, &["merge", "master"]), vec![err("Cannot merge a branch with itself.")]);
    stage(&mut r, "a.txt", "changed\n");
    assert_eq!(run(&mut r, &["merge", "other"]), vec![err("You have uncommitted changes.")]);
}

#[test]
fn merge_with_an_ancestor() {
    let mut r = diverged();
    stage(&mut r, "a.txt", "A2\n");
    commit(&mut r, "ahead");
    let before = head_id(&r);
    assert_eq!(
        run(&mut r, &["merge", "other"]),
        vec![out("Given branch is an ancestor of the current branch.")]
    );
    assert_eq!(head_id(&r), before);
}

#[test]
fn merge_fast_forwards() {
    let mut r = diverged();
    run(&mut r, &["checkout", "other"]);
    stage(&mut r, "c.txt", "C\n");
    commit(&mut r, "on other");
    let other = head_id(&r);
    run(&mut r, &["checkout", "master"]);
    assert_eq!(read(&r, "c.txt"), None);
    assert_eq!(run(&mut r, &["merge", "other"]), vec![out("Current branch fast-forwarded.")]);
    assert_eq!(r.current_branch(), "other");
    assert_eq!(head_id(&r), other);
    assert_eq!(read(&r, "c.txt"), Some("C\n".to_string()));
}

#[test]
fn clean_merge_takes_each_side_s_changes() {
    let mut r = diverged_clean();
    let m1 = head_id(&r);
    assert_eq!(run(&mut r, &["merge", "other"]), Vec::<(bool, String)>::new());
    let head = r.get_head_commit();
    assert_eq!(head.message, "Merged other into master.");
    assert_eq!(head.parent, Some(m1));
    assert_eq!(read(&r, "a.txt"), Some("A2\n".to_string()));
    assert_eq!(read(&r, "b.txt"), Some("B2\n".to_string()));
    assert_eq!(read(&r, "c.txt"), Some("C\n".to_string()));
    assert!(head.tree.contains_key("c.txt"));
    assert!(r.index.is_clear());
    assert!(r.check_valid());
}

/// master changed a.txt; other changed b.txt, added c.txt and removed d.txt.
fn diverged_clean() -> Repository {
    let mut r = Repository::new();
    run(&mut r, &["init"]);
    stage(&mut r, "a.txt", "A\n");
    stage(&mut r, "b.txt", "B\n");
    stage(&mut r, "d.txt", "D\n");
    commit(&mut r, "base");
    run(&mut r, &["branch", "other"]);
    stage(&mut r, "a.txt", "A2\n");
    commit(&mut r, "m1");
    run(&mut r, &["checkout", "other"]);
    stage(&mut r, "b.txt", "B2\n");
    stage(&mut r, "c.txt", "C\n");
    assert!(run(&mut r, &["rm", "d.txt"]).is_empty());
    commit(&mut r, "o1");
    run(&mut r, &["checkout", "master"]);
    r
}

#[test]
fn clean_merge_removes_what_the_given_side_removed() {
    let mut r = diverged_clean();
    assert_eq!(read(&r, "d.txt"), Some("D\n".to_string()));
    assert_eq!(run(&mut r, &["merge", "other"]), Vec::<(bool, String)>::new());
    assert_eq!(read(&r, "d.txt"), None);
    assert!(!r.get_head_commit().tree.contains_key("d.txt"));
}

#[test]
fn conflicting_merge_writes_both_versions() {
    let mut r = diverged();
    stage(&mut r, "a.txt", "mine\n");
    commit(&mut r, "m1");
    run(&mut r, &["checkout", "other"]);
    stage(&mut r, "a.txt", "theirs\n");
    commit(&mut r, "o1");
    run(&mut r, &["checkout", "master"]);
    assert_eq!(run(&mut r, &["merge", "other"]), vec![out("Encountered a merge conflict.")]);
    let merged = "<<<<<<< HEAD\nmine\n=======\ntheirs\n>>>>>>>\n";
    assert_eq!(read(&r, "a.txt"), Some(merged.to_string()));
    let head = r.get_head_commit();
    assert_eq!(head.message, "Merged other into master.");
    let id = head.tree.get("a.txt").unwrap().clone();
    assert_eq!(r.load_blob(&id).content, merged.as_bytes().to_vec());
    assert!(r.check_valid());
}

#[test]
fn merge_with_untracked_file_in_the_way() {
    let mut r = diverged_clean();
    write(&mut r, "c.txt", "loose\n");
    let before = head_id(&r);
    assert_eq!(
        run(&mut r, &["merge", "other"]),
        vec![err("There is an untracked file in the way; delete it, or add and commit it first.")]
    );
    assert_eq!(head_id(&r), before);
    assert_eq!(read(&r, "c.txt"), Some("loose\n".to_string()));
}
