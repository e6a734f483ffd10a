//! The command line: reading a command and its operands, and running it
//! on a repository.

use vstd::prelude::*;
use crate::text::{compare_str, trim, trim_str, Order};
use crate::commit::{Commit, commit_id, initial_commit};
use crate::repository::{
    Repository, RepoView, Message, Line, printed, names_of, err_line, clean_name,
    some_with_prefix, add_outcome, rm_outcome, commit_outcome, branch_outcome,
    rm_branch_outcome, checkout_branch_outcome, checkout_from_outcome, restore_outcome,
    reset_outcome, log_outcome, global_log_outcome, find_outcome, status_lines, head_stored,
    chain_closed, restorable, empty_index, lemma_walk_stored, checkout_ready, prefix_match,
    untracked_in_way, blobs_present,
};
use crate::merge::{merge_outcome, merge_ready};

verus! {

/// A command line taken apart.
pub enum Command {
    /// Print these lines and change nothing.
    Reply(Vec<Message>),
    Init,
    Add(String),
    Commit(String),
    Rm(String),
    Log,
    GlobalLog,
    Find(String),
    Status,
    CheckoutBranch(String),
    CheckoutFile(String),
    CheckoutFileFrom(String, String),
    Branch(String),
    RmBranch(String),
    Reset(String),
    Merge(String),
}

/// A command taken as plain values.
pub enum CommandView {
    Reply(Seq<Line>),
    Init,
    Add(Seq<char>),
    Commit(Seq<char>),
    Rm(Seq<char>),
    Log,
    GlobalLog,
    Find(Seq<char>),
    Status,
    CheckoutBranch(Seq<char>),
    CheckoutFile(Seq<char>),
    CheckoutFileFrom(Seq<char>, Seq<char>),
    Branch(Seq<char>),
    RmBranch(Seq<char>),
    Reset(Seq<char>),
    Merge(Seq<char>),
}

impl View for Command {
    type V = CommandView;

    open spec fn view(&self) -> CommandView {
        match self {
            Command::Reply(v) => CommandView::Reply(printed(v@)),
            Command::Init => CommandView::Init,
            Command::Add(f) => CommandView::Add(f@),
            Command::Commit(m) => CommandView::Commit(m@),
            Command::Rm(f) => CommandView::Rm(f@),
            Command::Log => CommandView::Log,
            Command::GlobalLog => CommandView::GlobalLog,
            Command::Find(m) => CommandView::Find(m@),
            Command::Status => CommandView::Status,
            Command::CheckoutBranch(b) => CommandView::CheckoutBranch(b@),
            Command::CheckoutFile(f) => CommandView::CheckoutFile(f@),
            Command::CheckoutFileFrom(id, f) => CommandView::CheckoutFileFrom(id@, f@),
            Command::Branch(b) => CommandView::Branch(b@),
            Command::RmBranch(b) => CommandView::RmBranch(b@),
            Command::Reset(id) => CommandView::Reset(id@),
            Command::Merge(b) => CommandView::Merge(b@),
        }
    }
}

/// One line on standard error.
pub open spec fn complaint(text: Seq<char>) -> CommandView {
    CommandView::Reply(seq![Line::Stderr(text)])
}

/// A command that takes one operand, in a repository that must exist.
pub open spec fn with_operand(
    initialized: bool,
    a: Seq<Seq<char>>,
    c: CommandView,
) -> CommandView {
    if a.len() != 2 {
        complaint("Incorrect operands."@)
    } else if !initialized {
        complaint("Not in an initialized Gitlet directory."@)
    } else {
        c
    }
}

/// A command that takes no operand, in a repository that must exist.
pub open spec fn without_operand(initialized: bool, a: Seq<Seq<char>>, c: CommandView) -> CommandView {
    if a.len() != 1 {
        complaint("Incorrect operands."@)
    } else if !initialized {
        complaint("Not in an initialized Gitlet directory."@)
    } else {
        c
    }
}

/// The command that the words `a` (the program's name left out) ask for,
/// in a directory where a repository exists or not.
pub open spec fn command_of(initialized: bool, a: Seq<Seq<char>>) -> CommandView {
    if a.len() == 0 {
        complaint("Please enter a command."@)
    } else if a[0] == "init"@ {
        if a.len() != 1 {
            complaint("Incorrect operands."@)
        } else if initialized {
            complaint("A Gitlet version-control system already exists in the current directory."@)
        } else {
            CommandView::Init
        }
    } else if a[0] == "add"@ {
        if a.len() != 2 {
            complaint("Incorrect operands."@)
        } else if !initialized {
            CommandView::Reply(Seq::empty())
        } else {
            CommandView::Add(a[1])
        }
    } else if a[0] == "commit"@ {
        if a.len() != 2 {
            complaint("Please enter a commit message."@)
        } else if !initialized {
            complaint("Not in an initialized Gitlet directory."@)
        } else {
            CommandView::Commit(a[1])
        }
    } else if a[0] == "rm"@ {
        with_operand(initialized, a, CommandView::Rm(a[1]))
    } else if a[0] == "log"@ {
        without_operand(initialized, a, CommandView::Log)
    } else if a[0] == "global-log"@ {
        without_operand(initialized, a, CommandView::GlobalLog)
    } else if a[0] == "find"@ {
        with_operand(initialized, a, CommandView::Find(a[1]))
    } else if a[0] == "status"@ {
        without_operand(initialized, a, CommandView::Status)
    } else if a[0] == "checkout"@ {
        if !initialized {
            complaint("Not in an initialized Gitlet directory."@)
        } else if a.len() == 2 {
            CommandView::CheckoutBranch(a[1])
        } else if a.len() == 3 {
            if a[1] != "--"@ {
                complaint("Incorrect operands."@)
            } else {
                CommandView::CheckoutFile(a[2])
            }
        } else if a.len() == 4 {
            if a[2] != "--"@ {
                complaint("Incorrect operands."@)
            } else {
                CommandView::CheckoutFileFrom(a[1], a[3])
            }
        } else {
            complaint("Incorrect operands."@)
        }
    } else if a[0] == "branch"@ {
        with_operand(initialized, a, CommandView::Branch(a[1]))
    } else if a[0] == "rm-branch"@ {
        with_operand(initialized, a, CommandView::RmBranch(a[1]))
    } else if a[0] == "reset"@ {
        with_operand(initialized, a, CommandView::Reset(a[1]))
    } else if a[0] == "merge"@ {
        with_operand(initialized, a, CommandView::Merge(a[1]))
    } else {
        complaint("No command with that name exists."@)
    }
}

/// True when `word` is the text `text`.
fn same_word(word: &String, text: &str) -> (r: bool)
    ensures
        r == (word@ == text@),
{
    compare_str(word.as_str(), text) == Order::Equal
}

/// A reply of one line on standard error.
fn complain(text: &str) -> (r: Command)
    ensures
        r@ == complaint(text@),
{
    Command::Reply(err_line(text))
}

/// `c` when there is exactly one operand in an existing repository; else the complaint.
fn operand_command(initialized: bool, args: &[String], c: Command) -> (r: Command)
    ensures
        r@ == with_operand(initialized, names_of(args@), c@),
{
    if args.len() != 2 {
        complain("Incorrect operands.")
    } else if !initialized {
        complain("Not in an initialized Gitlet directory.")
    } else {
        c
    }
}

/// `c` when there is no operand in an existing repository; else the complaint.
fn bare_command(initialized: bool, args: &[String], c: Command) -> (r: Command)
    ensures
        r@ == without_operand(initialized, names_of(args@), c@),
{
    if args.len() != 1 {
        complain("Incorrect operands.")
    } else if !initialized {
        complain("Not in an initialized Gitlet directory.")
    } else {
        c
    }
}

/// The operand at `i`, or the empty text where there is none.
fn operand(args: &[String], i: usize) -> (r: String)
    ensures
        i < args@.len() ==> r@ == args@[i as int]@,
{
    if i < args.len() {
        args[i].clone()
    } else {
        String::new()
    }
}

/// Reads the command that the words `args` (the program's name left out)
/// ask for.
#[verifier::rlimit(30)]
pub fn parse_command(initialized: bool, args: &[String]) -> (r: Command)
    ensures
        r@ == command_of(initialized, names_of(args@)),
{
    let ghost a = names_of(args@);
    if args.len() == 0 {
        return complain("Please enter a command.");
    }
    let word = &args[0];
    assert(a[0] == word@);
    if same_word(word, "init") {
        if args.len() != 1 {
            complain("Incorrect operands.")
        } else if initialized {
            complain("A Gitlet version-control system already exists in the current directory.")
        } else {
            Command::Init
        }
    } else if same_word(word, "add") {
        if args.len() != 2 {
            complain("Incorrect operands.")
        } else if !initialized {
            let v: Vec<Message> = Vec::new();
            assert(printed(v@) =~= Seq::<Line>::empty());
            Command::Reply(v)
        } else {
            Command::Add(operand(args, 1))
        }
    } else if same_word(word, "commit") {
        if args.len() != 2 {
            complain("Please enter a commit message.")
        } else if !initialized {
            complain("Not in an initialized Gitlet directory.")
        } else {
            Command::Commit(operand(args, 1))
        }
    } else if same_word(word, "rm") {
        operand_command(initialized, args, Command::Rm(operand(args, 1)))
    } else if same_word(word, "log") {
        bare_command(initialized, args, Command::Log)
    } else if same_word(word, "global-log") {
        bare_command(initialized, args, Command::GlobalLog)
    } else if same_word(word, "find") {
        operand_command(initialized, args, Command::Find(operand(args, 1)))
    } else if same_word(word, "status") {
        bare_command(initialized, args, Command::Status)
    } else if same_word(word, "checkout") {
        if !initialized {
            complain("Not in an initialized Gitlet directory.")
        } else if args.len() == 2 {
            Command::CheckoutBranch(operand(args, 1))
        } else if args.len() == 3 {
            if !same_word(&args[1], "--") {
                complain("Incorrect operands.")
            } else {
                Command::CheckoutFile(operand(args, 2))
            }
        } else if args.len() == 4 {
            if !same_word(&args[2], "--") {
                complain("Incorrect operands.")
            } else {
                Command::CheckoutFileFrom(operand(args, 1), operand(args, 3))
            }
        } else {
            complain("Incorrect operands.")
        }
    } else if same_word(word, "branch") {
        operand_command(initialized, args, Command::Branch(operand(args, 1)))
    } else if same_word(word, "rm-branch") {
        operand_command(initialized, args, Command::RmBranch(operand(args, 1)))
    } else if same_word(word, "reset") {
        operand_command(initialized, args, Command::Reset(operand(args, 1)))
    } else if same_word(word, "merge") {
        operand_command(initialized, args, Command::Merge(operand(args, 1)))
    } else {
        complain("No command with that name exists.")
    }
}

/// Lines printed, where the command ran.
pub open spec fn opt_printed(r: Option<Vec<Message>>) -> Option<Seq<Line>> {
    match r {
        Some(v) => Some(printed(v@)),
        None => None,
    }
}

/// The store that `init` makes: the initial commit stored, the branch
/// `master` at it, and HEAD on `master`.
pub open spec fn init_store(s: RepoView) -> RepoView {
    RepoView {
        initialized: true,
        commits: s.commits.insert(commit_id(initial_commit()), initial_commit()),
        branches: s.branches.insert("master"@, commit_id(initial_commit())),
        head: "refs/heads/master"@,
        ..s
    }
}

/// The store holds what `reset ID` reads: some commit id begins with `id`,
/// HEAD names a stored commit, and where no untracked file is in the way,
/// every blob of the commit found is stored.
pub open spec fn reset_ready(s: RepoView, id: Seq<char>) -> bool {
    &&& some_with_prefix(s, id)
    &&& head_stored(s)
    &&& !untracked_in_way(s, s.head_commit().files(), s.commits[prefix_match(s, id)].files())
        ==> blobs_present(s, s.commits[prefix_match(s, id)].files())
}

/// The store holds what the command `c` reads, on the path that the
/// command takes: the head commit where it is read, the commits along
/// its parents for `log`, the blobs of the files that are written out;
/// `merge` needs a valid store once it goes past its first checks.
pub open spec fn ready(s: RepoView, c: CommandView) -> bool {
    match c {
        CommandView::Add(f) => s.working.contains_key(f) ==> head_stored(s),
        CommandView::Commit(m) => trim(m).len() > 0 && s.index != empty_index() ==> head_stored(s),
        CommandView::Rm(_) => head_stored(s),
        CommandView::Branch(b) => !s.branches.contains_key(b) ==> head_stored(s),
        CommandView::Log => head_stored(s) && chain_closed(s, s.head_id()),
        CommandView::CheckoutFile(f) => head_stored(s) && restorable(s, s.head_commit().files(), f),
        CommandView::Reset(id) => reset_ready(s, id),
        CommandView::CheckoutBranch(b) => checkout_ready(s, b),
        CommandView::CheckoutFileFrom(id, f) => some_with_prefix(s, id) ==> restorable(
            s,
            s.commits[prefix_match(s, id)].files(),
            f,
        ),
        CommandView::Merge(b) => merge_ready(s, b) ==> s.valid(),
        _ => true,
    }
}

/// What running the command `c` on the store `s` prints and leaves. A
/// command runs only on a store that holds what it reads (`ready`);
/// otherwise nothing runs and there is no result. A valid store stays
/// valid.
pub open spec fn run_outcome(s: RepoView, c: CommandView, r: Option<Seq<Line>>, t: RepoView) -> bool {
    if !ready(s, c) {
        r is None && t == s
    } else {
        r matches Some(l) && match c {
            CommandView::Reply(lines) => l == lines && t == s,
            CommandView::Init => l == Seq::<Line>::empty() && t == init_store(s),
            CommandView::GlobalLog => global_log_outcome(s, l) && t == s,
            CommandView::Find(m) => find_outcome(s, m, l) && t == s,
            CommandView::Status => l == status_lines(s) && t == s,
            CommandView::Log => log_outcome(s, l) && t == s,
            CommandView::Add(f) => add_outcome(s, f, l, t) && (s.valid() ==> t.valid()),
            CommandView::Commit(m) => commit_outcome(s, m, l, t) && (s.valid() ==> t.valid()),
            CommandView::Rm(f) => rm_outcome(s, f, l, t) && (s.valid() ==> t.valid()),
            CommandView::Branch(b) => branch_outcome(s, b, l, t) && (s.valid() ==> t.valid()),
            CommandView::RmBranch(b) => rm_branch_outcome(s, b, l, t) && (s.valid() ==> t.valid()),
            CommandView::CheckoutFile(f) => restore_outcome(s, s.head_commit().files(), f, l, t) && (
            s.valid() ==> t.valid()),
            CommandView::CheckoutBranch(b) => checkout_branch_outcome(s, b, l, t) && (s.valid() ==> (
            t.valid() || !clean_name(b))),
            CommandView::CheckoutFileFrom(id, f) => checkout_from_outcome(s, id, f, l, t) && (
            s.valid() ==> t.valid()),
            CommandView::Reset(id) => reset_outcome(s, id, l, t) && (s.valid() ==> t.valid()),
            CommandView::Merge(b) => merge_outcome(s, b, l, t) && (s.valid() ==> (t.valid()
                || !clean_name(b))),
        }
    }
}

impl Repository {
    /// Creates the repository: the `.gitlet` directories, the initial
    /// commit, the branch `master` and HEAD.
    pub fn init(&mut self)
        ensures
            final(self)@ == init_store(old(self)@),
    {
        self.init_dirs();
        let initial_commit = Commit::initial();
        self.save_commit(&initial_commit);
        let id = initial_commit.get_id();
        self.create_branch("master", id.as_str());
        self.set_head("refs/heads/master");
    }

    /// True when the store holds what `checkout BRANCH` reads.
    #[verifier::rlimit(30)]
    fn checkout_is_ready(&self, name: &str) -> (r: bool)
        ensures
            r == checkout_ready(self@, name@),
    {
        let target = match self.branches.get(name) {
            Some(t) => trim_str(t.as_str()),
            None => {
                return true;
            },
        };
        if compare_str(self.current_branch(), name) == Order::Equal {
            return true;
        }
        if !self.check_head_stored() || !self.commits.contains_key(target) {
            return false;
        }
        let target_commit = self.load_commit(target);
        let head = self.get_head_commit();
        self.check_untracked_files(&head, &target_commit).is_err() || self.blobs_stored(
            &target_commit.tree,
        )
    }

    /// True when the store holds what `reset ID` reads.
    #[verifier::rlimit(30)]
    fn reset_is_ready(&self, id: &str) -> (r: bool)
        ensures
            r == reset_ready(self@, id@),
    {
        let full = match self.find_commit_by_prefix(id) {
            Ok(full) => full,
            Err(_) => {
                return false;
            },
        };
        if !self.check_head_stored() {
            return false;
        }
        let target_commit = self.load_commit(full.as_str());
        let head = self.get_head_commit();
        self.check_untracked_files(&head, &target_commit).is_err() || self.blobs_stored(
            &target_commit.tree,
        )
    }

    /// True when the store holds what `checkout ID -- FILE` reads.
    fn checkout_from_is_ready(&self, id: &str, file: &str) -> (r: bool)
        ensures
            r == (some_with_prefix(self@, id@) ==> restorable(
                self@,
                self@.commits[prefix_match(self@, id@)].files(),
                file@,
            )),
    {
        match self.find_commit_by_prefix(id) {
            Ok(full) => {
                let c = self.load_commit(full.as_str());
                match c.tree.get(file) {
                    Some(b) => self.blobs.contains_key(b.as_str()),
                    None => true,
                }
            },
            Err(_) => true,
        }
    }

    /// True when the store holds what the command reads.
    #[verifier::rlimit(30)]
    pub fn is_ready(&self, cmd: &Command) -> (r: bool)
        ensures
            r == ready(self@, cmd@),
    {
        match cmd {
            Command::Add(f) => !self.working.contains_key(f.as_str()) || self.check_head_stored(),
            Command::Commit(m) => trim_str(m.as_str()).is_empty() || self.index.is_clear()
                || self.check_head_stored(),
            Command::Rm(_) => self.check_head_stored(),
            Command::Branch(b) => self.branches.contains_key(b.as_str()) || self.check_head_stored(),
            Command::Log => {
                if !self.check_head_stored() {
                    return false;
                }
                match self.branches.get(self.current_branch()) {
                    Some(t) => self.check_chain(trim_str(t.as_str())),
                    None => false,
                }
            },
            Command::CheckoutFile(f) => {
                if !self.check_head_stored() {
                    return false;
                }
                let head = self.get_head_commit();
                match head.tree.get(f.as_str()) {
                    Some(b) => self.blobs.contains_key(b.as_str()),
                    None => true,
                }
            },
            Command::Reset(id) => self.reset_is_ready(id.as_str()),
            Command::CheckoutBranch(b) => self.checkout_is_ready(b.as_str()),
            Command::CheckoutFileFrom(id, f) => self.checkout_from_is_ready(id.as_str(), f.as_str()),
            Command::Merge(b) => {
                let checks_pass = self.index.is_clear() && self.branches.contains_key(b.as_str())
                    && compare_str(self.current_branch(), b.as_str()) != Order::Equal;
                !checks_pass || self.check_valid()
            },
            _ => true,
        }
    }

    /// Runs a command on the repository.
    #[verifier::rlimit(30)]
    pub fn execute(&mut self, cmd: Command) -> (r: Option<Vec<Message>>)
        ensures
            run_outcome(old(self)@, cmd@, opt_printed(r), final(self)@),
    {
        if !self.is_ready(&cmd) {
            return None;
        }
        proof {
            if self@.valid() {
                lemma_walk_stored(self@.commits, self@.head_id(), self@.commits.dom().len());
            }
        }
        match cmd {
            Command::Reply(v) => Some(v),
            Command::Init => {
                self.init();
                let v: Vec<Message> = Vec::new();
                assert(printed(v@) =~= Seq::<Line>::empty());
                Some(v)
            },
            Command::GlobalLog => Some(self.global_log()),
            Command::Find(m) => Some(self.find(m.as_str())),
            Command::Status => Some(self.status()),
            Command::Log => Some(self.log()),
            Command::Add(f) => Some(self.add_file(f.as_str())),
            Command::Commit(m) => Some(self.commit(m.as_str())),
            Command::Rm(f) => Some(self.rm_file(f.as_str())),
            Command::Branch(b) => Some(self.branch(b.as_str())),
            Command::RmBranch(b) => Some(self.rm_branch(b.as_str())),
            Command::CheckoutFile(f) => Some(self.checkout_file(f.as_str())),
            Command::CheckoutBranch(b) => Some(self.checkout_branch(b.as_str())),
            Command::CheckoutFileFrom(id, f) => Some(
                self.checkout_file_from_commit(id.as_str(), f.as_str()),
            ),
            Command::Reset(id) => Some(self.reset(id.as_str())),
            Command::Merge(b) => Some(self.merge(b.as_str())),
        }
    }

    /// Reads the words `args` (the program's name left out) as a command
    /// and runs it.
    pub fn run(&mut self, args: &[String]) -> (r: Option<Vec<Message>>)
        ensures
            run_outcome(
                old(self)@,
                command_of(old(self)@.initialized, names_of(args@)),
                opt_printed(r),
                final(self)@,
            ),
    {
        let cmd = parse_command(self.initialized, args);
        self.execute(cmd)
    }
}

} // verus!
