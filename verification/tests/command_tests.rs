use gitlet::command::{parse_command, Command};
use gitlet::repository::{Message, Repository};

fn words(args: &[&str]) -> Vec<String> {
    args.iter().map(|s| s.to_string()).collect()
}

#[test]
fn parse_reads_commands_and_operands() {
    match parse_command(true, &words(&["checkout", "abc", "--", "f.txt"])) {
        Command::CheckoutFileFrom(id, f) => {
            assert_eq!(id, "abc");
            assert_eq!(f, "f.txt");
        }
        _ => panic!("not a checkout of a file from a commit"),
    }
    match parse_command(true, &words(&["checkout", "--", "f.txt"])) {
        Command::CheckoutFile(f) => assert_eq!(f, "f.txt"),
        _ => panic!("not a checkout of a file"),
    }
    match parse_command(true, &words(&["merge", "dev"])) {
        Command::Merge(b) => assert_eq!(b, "dev"),
        _ => panic!("not a merge"),
    }
    assert!(matches!(parse_command(false, &words(&["init"])), Command::Init));
    assert!(matches!(parse_command(true, &words(&["global-log"])), Command::GlobalLog));
}

#[test]
fn parse_answers_bad_command_lines() {
    match parse_command(true, &words(&["init"])) {
        Command::Reply(v) => {
            assert_eq!(v.len(), 1);
            assert!(matches!(&v[0], Message::Stderr(s)
                if s == "A Gitlet version-control system already exists in the current directory."));
        }
        _ => panic!("init in an existing repository was accepted"),
    }
    match parse_command(false, &words(&["add", "f"])) {
        Command::Reply(v) => assert!(v.is_empty()),
        _ => panic!("add outside a repository was accepted"),
    }
}

#[test]
fn execute_runs_a_parsed_command() {
    let mut r = Repository::new();
    assert!(r.execute(Command::Init).unwrap().is_empty());
    let out = r.execute(Command::Branch("dev".to_string())).unwrap();
    assert!(out.is_empty());
    assert!(r.branches.contains_key("dev"));
    let again = r.execute(Command::Branch("dev".to_string())).unwrap();
    assert!(matches!(&again[0], Message::Stderr(s) if s == "A branch with that name already exists."));
}
