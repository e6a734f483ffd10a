//! A Gitlet repository: the `.gitlet` store (commits, blobs, branches,
//! HEAD and the staging area) together with the working directory's plain
//! files, and the commands that act on them.

use vstd::prelude::*;
use crate::text::{
    trim, trim_start, trim_end, is_ws, trim_str, has_prefix, strip_prefix, compare_str, Order,
    seq_lt,
};
use crate::utils::{path_push, push_path, error, hex_of, hex_char, sha1_digest_of};
use crate::filemap::{
    FileMap, Duplicate, keys_of, sorted_keys, sorted_list, lemma_map_of_all, lemma_prefix_step,
    lemma_prefix_all,
};
use crate::commit::{Commit, CommitView, commit_id, commit_data, log_text};
use crate::blob::{Blob, blob_id};
use crate::index::{Index, IndexView};

verus! {

/// A line that a command prints, on standard output or standard error.
#[derive(Debug)]
pub enum Message {
    Stdout(String),
    Stderr(String),
}

/// A printed line taken by its characters.
pub enum Line {
    Stdout(Seq<char>),
    Stderr(Seq<char>),
}

impl View for Message {
    type V = Line;

    open spec fn view(&self) -> Line {
        match self {
            Message::Stdout(s) => Line::Stdout(s@),
            Message::Stderr(s) => Line::Stderr(s@),
        }
    }
}

/// Printed lines taken by their characters.
pub open spec fn printed(v: Seq<Message>) -> Seq<Line> {
    v.map_values(|m: Message| m@)
}

/// Printing one more message adds its line at the end.
pub proof fn lemma_printed_push(v: Seq<Message>, m: Message)
    ensures
        printed(v.push(m)) == printed(v).push(m@),
{
    assert(printed(v.push(m)) =~= printed(v).push(m@));
}

/// One line on standard output.
pub fn out(s: String) -> (r: Message)
    ensures
        r@ == Line::Stdout(s@),
{
    Message::Stdout(s)
}

/// One line on standard error.
pub fn err_line(text: &str) -> (r: Vec<Message>)
    ensures
        printed(r@) == seq![Line::Stderr(text@)],
{
    let mut r: Vec<Message> = Vec::new();
    r.push(Message::Stderr(String::from_str(text)));
    assert(printed(r@) =~= seq![Line::Stderr(text@)]);
    r
}

/// The whole state of a repository taken as plain values.
pub struct RepoView {
    /// The `.gitlet` directory exists.
    pub initialized: bool,
    /// The text of the HEAD file.
    pub head: Seq<char>,
    /// Branch name to the text of its file: a commit id.
    pub branches: Map<Seq<char>, Seq<char>>,
    /// Commit id to commit.
    pub commits: Map<Seq<char>, CommitView>,
    /// Blob id to contents.
    pub blobs: Map<Seq<char>, Seq<u8>>,
    /// The staging area.
    pub index: IndexView,
    /// The working directory's files: name to contents.
    pub working: Map<Seq<char>, Seq<u8>>,
}

/// Where branch references live, relative to `.gitlet`.
pub open spec fn heads_prefix() -> Seq<char> {
    "refs/heads/"@
}

/// The ids met by following parents from `id`, at most `fuel` of them.
pub open spec fn walk(commits: Map<Seq<char>, CommitView>, id: Seq<char>, fuel: nat) -> Seq<
    Seq<char>,
>
    decreases fuel,
{
    if fuel == 0 || !commits.contains_key(id) {
        Seq::empty()
    } else {
        seq![id] + match commits[id].parent {
            None => Seq::empty(),
            Some(p) => walk(commits, p, (fuel - 1) as nat),
        }
    }
}

impl RepoView {
    /// The text of HEAD without surrounding white space: the reference it names.
    pub open spec fn head_ref(self) -> Seq<char> {
        trim(self.head)
    }

    /// The branch that HEAD names; empty when HEAD names no branch.
    pub open spec fn current_branch(self) -> Seq<char> {
        if has_prefix(self.head_ref(), heads_prefix()) {
            self.head_ref().subrange(heads_prefix().len() as int, self.head_ref().len() as int)
        } else {
            Seq::empty()
        }
    }

    /// The id that a branch's file holds.
    pub open spec fn branch_target(self, name: Seq<char>) -> Seq<char> {
        trim(self.branches[name])
    }

    /// The id of the head commit.
    pub open spec fn head_id(self) -> Seq<char> {
        self.branch_target(self.current_branch())
    }

    /// The head commit.
    pub open spec fn head_commit(self) -> CommitView {
        self.commits[self.head_id()]
    }

    /// The ids from `id` back along parents to the initial commit.
    pub open spec fn history(self, id: Seq<char>) -> Seq<Seq<char>> {
        walk(self.commits, id, self.commits.dom().len())
    }

    /// A well-formed store, as `init` makes it and every command keeps it:
    /// HEAD names an existing
    /// branch, every branch names a stored commit, every commit is stored
    /// under its own id, its parent is stored, and every blob that a commit
    /// or the staging area names is stored.
    pub open spec fn valid(self) -> bool {
        &&& self.initialized
        &&& has_prefix(self.head_ref(), heads_prefix())
        &&& self.branches.contains_key(self.current_branch())
        &&& forall|b: Seq<char>| #[trigger]
            self.branches.contains_key(b) ==> self.commits.contains_key(self.branch_target(b))
        &&& forall|k: Seq<char>| #[trigger]
            self.commits.contains_key(k) ==> commit_id(self.commits[k]) == k
        &&& forall|k: Seq<char>| #[trigger]
            self.commits.contains_key(k) ==> match self.commits[k].parent {
                Some(p) => self.commits.contains_key(p),
                None => true,
            }
        &&& forall|k: Seq<char>, f: Seq<char>| #[trigger]
            self.commits.contains_key(k) && #[trigger] self.commits[k].files().contains_key(f)
                ==> self.blobs.contains_key(self.commits[k].files()[f])
        &&& forall|f: Seq<char>| #[trigger]
            self.index.files.contains_key(f) ==> self.blobs.contains_key(self.index.files[f])
    }
}

/// The `.gitlet` directory under the working directory `cwd`.
pub open spec fn gitlet_dir_of(cwd: Seq<char>) -> Seq<char> {
    path_push(cwd, ".gitlet"@)
}

/// A Gitlet repository: the store and the working directory.
#[derive(Debug)]
pub struct Repository {
    /// The `.gitlet` directory exists.
    pub initialized: bool,
    /// The text of the HEAD file.
    pub head: String,
    /// Branch name to the text of its file.
    pub branches: FileMap<String>,
    /// Commit id to commit.
    pub commits: FileMap<Commit>,
    /// Blob id to blob.
    pub blobs: FileMap<Blob>,
    /// The staging area.
    pub index: Index,
    /// The working directory's plain files: name to contents.
    pub working: FileMap<Vec<u8>>,
}

impl View for Repository {
    type V = RepoView;

    open spec fn view(&self) -> RepoView {
        RepoView {
            initialized: self.initialized,
            head: self.head@,
            branches: self.branches@,
            commits: self.commits@,
            blobs: self.blobs@,
            index: self.index@,
            working: self.working@,
        }
    }
}

impl Repository {
    /// A repository with no `.gitlet` directory and an empty working directory.
    pub fn new() -> (r: Repository)
        ensures
            !r@.initialized,
            r@.head == Seq::<char>::empty(),
            r@.branches == Map::<Seq<char>, Seq<char>>::empty(),
            r@.commits == Map::<Seq<char>, CommitView>::empty(),
            r@.blobs == Map::<Seq<char>, Seq<u8>>::empty(),
            r@.index.files == Map::<Seq<char>, Seq<char>>::empty(),
            r@.index.removed == Set::<Seq<char>>::empty(),
            r@.working == Map::<Seq<char>, Seq<u8>>::empty(),
    {
        Repository {
            initialized: false,
            head: String::new(),
            branches: FileMap::new(),
            commits: FileMap::new(),
            blobs: FileMap::new(),
            index: Index::new(),
            working: FileMap::new(),
        }
    }

    /// The `.gitlet` directory under `cwd`.
    pub fn gitlet_dir(cwd: &str) -> (r: String)
        ensures
            r@ == gitlet_dir_of(cwd@),
    {
        let mut r = String::from_str(cwd);
        push_path(&mut r, ".gitlet");
        r
    }

    /// The objects directory.
    pub fn objects_dir(cwd: &str) -> (r: String)
        ensures
            r@ == path_push(gitlet_dir_of(cwd@), "objects"@),
    {
        let mut r = Self::gitlet_dir(cwd);
        push_path(&mut r, "objects");
        r
    }

    /// The directory of stored commits.
    pub fn commits_dir(cwd: &str) -> (r: String)
        ensures
            r@ == path_push(path_push(gitlet_dir_of(cwd@), "objects"@), "commits"@),
    {
        let mut r = Self::objects_dir(cwd);
        push_path(&mut r, "commits");
        r
    }

    /// The directory of stored blobs.
    pub fn blobs_dir(cwd: &str) -> (r: String)
        ensures
            r@ == path_push(path_push(gitlet_dir_of(cwd@), "objects"@), "blobs"@),
    {
        let mut r = Self::objects_dir(cwd);
        push_path(&mut r, "blobs");
        r
    }

    /// The references directory.
    pub fn refs_dir(cwd: &str) -> (r: String)
        ensures
            r@ == path_push(gitlet_dir_of(cwd@), "refs"@),
    {
        let mut r = Self::gitlet_dir(cwd);
        push_path(&mut r, "refs");
        r
    }

    /// The directory of branch files.
    pub fn refs_heads_dir(cwd: &str) -> (r: String)
        ensures
            r@ == path_push(path_push(gitlet_dir_of(cwd@), "refs"@), "heads"@),
    {
        let mut r = Self::refs_dir(cwd);
        push_path(&mut r, "heads");
        r
    }

    /// The directory of tag files.
    pub fn refs_tags_dir(cwd: &str) -> (r: String)
        ensures
            r@ == path_push(path_push(gitlet_dir_of(cwd@), "refs"@), "tags"@),
    {
        let mut r = Self::refs_dir(cwd);
        push_path(&mut r, "tags");
        r
    }

    /// The HEAD file.
    pub fn head_file(cwd: &str) -> (r: String)
        ensures
            r@ == path_push(gitlet_dir_of(cwd@), "HEAD"@),
    {
        let mut r = Self::gitlet_dir(cwd);
        push_path(&mut r, "HEAD");
        r
    }

    /// The file of the staging area.
    pub fn index_file(cwd: &str) -> (r: String)
        ensures
            r@ == path_push(gitlet_dir_of(cwd@), "index"@),
    {
        let mut r = Self::gitlet_dir(cwd);
        push_path(&mut r, "index");
        r
    }

    /// True when the `.gitlet` directory exists.
    pub fn gitlet_exists(&self) -> (r: bool)
        ensures
            r == self@.initialized,
    {
        self.initialized
    }

    /// Creates the `.gitlet` directory and its subdirectories.
    pub fn init_dirs(&mut self)
        ensures
            final(self)@ == (RepoView { initialized: true, ..old(self)@ }),
    {
        self.initialized = true;
    }

    /// Writes `value` into HEAD.
    pub fn set_head(&mut self, value: &str)
        ensures
            final(self)@ == (RepoView { head: value@, ..old(self)@ }),
    {
        self.head = String::from_str(value);
    }

    /// Writes the branch `name` pointing at `commit_id`.
    pub fn create_branch(&mut self, name: &str, commit_id: &str)
        ensures
            final(self)@ == (RepoView {
                branches: old(self)@.branches.insert(name@, commit_id@),
                ..old(self)@
            }),
    {
        self.branches.insert(String::from_str(name), String::from_str(commit_id));
    }

    /// The commit stored under `commit_id`.
    pub fn load_commit(&self, commit_id: &str) -> (r: Commit)
        requires
            self@.commits.contains_key(commit_id@),
        ensures
            r@ == self@.commits[commit_id@],
    {
        match self.commits.get(commit_id) {
            Some(c) => c.duplicate(),
            None => {
                proof {
                    assert(false);
                }
                Commit::initial()
            },
        }
    }

    /// Stores `commit` under its id.
    pub fn save_commit(&mut self, commit: &Commit)
        ensures
            final(self)@ == (RepoView {
                commits: old(self)@.commits.insert(commit_id(commit@), commit@),
                ..old(self)@
            }),
    {
        let id = commit.get_id();
        self.commits.insert(id, commit.duplicate());
    }

    /// The staging area.
    pub fn load_index(&self) -> (r: Index)
        ensures
            r@ == self@.index,
    {
        self.index.duplicate()
    }

    /// Replaces the staging area by `index`.
    pub fn save_index(&mut self, index: &Index)
        ensures
            final(self)@ == (RepoView { index: index@, ..old(self)@ }),
    {
        self.index = index.duplicate();
    }

    /// The blob stored under `blob_id`.
    pub fn load_blob(&self, blob_id: &str) -> (r: Blob)
        requires
            self@.blobs.contains_key(blob_id@),
        ensures
            r@ == self@.blobs[blob_id@],
    {
        match self.blobs.get(blob_id) {
            Some(b) => b.duplicate(),
            None => {
                proof {
                    assert(false);
                }
                Blob::new(Vec::new())
            },
        }
    }

    /// Stores `blob` under its id.
    pub fn save_blob(&mut self, blob: &Blob)
        ensures
            final(self)@ == (RepoView {
                blobs: old(self)@.blobs.insert(blob_id(blob@), blob@),
                ..old(self)@
            }),
    {
        let id = blob.get_id();
        self.blobs.insert(id, blob.duplicate());
    }

    /// The reference that HEAD names.
    fn head_ref(&self) -> (r: &str)
        ensures
            r@ == self@.head_ref(),
    {
        trim_str(self.head.as_str())
    }

    /// The branch that HEAD names, or the empty name.
    pub fn current_branch(&self) -> (r: &str)
        ensures
            r@ == self@.current_branch(),
    {
        match strip_prefix(self.head_ref(), "refs/heads/") {
            Some(b) => b,
            None => {
                proof {
                    reveal_strlit("");
                }
                assert(""@ =~= Seq::<char>::empty());
                ""
            },
        }
    }

    /// The id of the head commit.
    fn head_id(&self) -> (r: &str)
        requires
            self@.branches.contains_key(self@.current_branch()),
        ensures
            r@ == self@.head_id(),
    {
        match self.branches.get(self.current_branch()) {
            Some(t) => trim_str(t.as_str()),
            None => {
                proof {
                    assert(false);
                }
                ""
            },
        }
    }

    /// The head commit.
    pub fn get_head_commit(&self) -> (r: Commit)
        requires
            self@.branches.contains_key(self@.current_branch()),
            self@.commits.contains_key(self@.head_id()),
        ensures
            r@ == self@.head_commit(),
    {
        self.load_commit(self.head_id())
    }
}


/// Every branch names a stored commit.
pub open spec fn branches_sound(s: RepoView) -> bool {
    forall|b: Seq<char>| #[trigger]
        s.branches.contains_key(b) ==> s.commits.contains_key(s.branch_target(b))
}

/// The stored commit `k` is stored under its own id, its parent is
/// stored, and so is every blob it names.
pub open spec fn commit_sound(s: RepoView, k: Seq<char>) -> bool {
    &&& commit_id(s.commits[k]) == k
    &&& match s.commits[k].parent {
        Some(p) => s.commits.contains_key(p),
        None => true,
    }
    &&& blobs_present(s, s.commits[k].files())
}

impl Repository {
    /// True when every blob id that `t` maps to is stored.
    #[verifier::rlimit(30)]
    pub fn blobs_stored(&self, t: &FileMap<String>) -> (r: bool)
        ensures
            r == blobs_present(self@, t@),
    {
        proof {
            use_type_invariant(t);
            t.lemma_facts();
        }
        let n = t.len();
        let mut i: usize = 0;
        while i < n
            invariant
                n == t.entries().len(),
                i <= n,
                forall|j: int|
                    #![trigger t.entries()[j]]
                    0 <= j < t.entries().len() ==> t@.contains_key(t.entries()[j].0)
                        && t@[t.entries()[j].0] == t.entries()[j].1,
                forall|j: int|
                    0 <= j < i ==> #[trigger] self@.blobs.contains_key(t.entries()[j].1),
            decreases n - i,
        {
            if !self.blobs.contains_key(t.value_at(i).as_str()) {
                proof {
                    assert(t@.contains_key(t.entries()[i as int].0));
                }
                return false;
            }
            i = i + 1;
        }
        proof {
            assert forall|f: Seq<char>| #[trigger] t@.contains_key(f) implies self@.blobs.contains_key(
                t@[f],
            ) by {
                let j = choose|j: int| 0 <= j < t.entries().len() && t.entries()[j].0 == f;
                assert(t.entries()[j].0 == f);
            }
        }
        true
    }

    /// True when every branch names a stored commit.
    #[verifier::rlimit(30)]
    fn check_branches(&self) -> (r: bool)
        ensures
            r == branches_sound(self@),
    {
        let bs = &self.branches;
        proof {
            use_type_invariant(bs);
            bs.lemma_facts();
        }
        let n = bs.len();
        let mut i: usize = 0;
        while i < n
            invariant
                n == bs.entries().len(),
                bs == &self.branches,
                i <= n,
                forall|j: int|
                    #![trigger bs.entries()[j]]
                    0 <= j < bs.entries().len() ==> bs@.contains_key(bs.entries()[j].0)
                        && bs@[bs.entries()[j].0] == bs.entries()[j].1,
                forall|j: int|
                    0 <= j < i ==> #[trigger] self@.commits.contains_key(trim(bs.entries()[j].1)),
            decreases n - i,
        {
            if !self.commits.contains_key(trim_str(bs.value_at(i).as_str())) {
                proof {
                    let b = bs.entries()[i as int].0;
                    assert(bs@.contains_key(b));
                    assert(self@.branch_target(b) == trim(bs.entries()[i as int].1));
                }
                return false;
            }
            i = i + 1;
        }
        proof {
            assert forall|b: Seq<char>| #[trigger]
                self@.branches.contains_key(b) implies self@.commits.contains_key(
                self@.branch_target(b),
            ) by {
                let j = choose|j: int| 0 <= j < bs.entries().len() && bs.entries()[j].0 == b;
                assert(bs.entries()[j].0 == b);
            }
        }
        true
    }

    /// True when every stored commit is sound.
    #[verifier::rlimit(30)]
    fn check_commits(&self) -> (r: bool)
        ensures
            r == forall|k: Seq<char>| #[trigger] self@.commits.contains_key(k) ==> commit_sound(self@, k),
    {
        let cs = &self.commits;
        proof {
            use_type_invariant(cs);
            cs.lemma_facts();
        }
        let n = cs.len();
        let mut i: usize = 0;
        while i < n
            invariant
                n == cs.entries().len(),
                cs == &self.commits,
                i <= n,
                forall|j: int|
                    #![trigger cs.entries()[j]]
                    0 <= j < cs.entries().len() ==> cs@.contains_key(cs.entries()[j].0)
                        && cs@[cs.entries()[j].0] == cs.entries()[j].1,
                forall|j: int| 0 <= j < i ==> #[trigger] commit_sound(self@, cs.entries()[j].0),
            decreases n - i,
        {
            let k = cs.key_at(i);
            let c = cs.value_at(i);
            proof {
                assert(cs@.contains_key(cs.entries()[i as int].0));
                assert(c@ == self@.commits[k@]);
            }
            let id = c.get_id();
            let parent_ok = match &c.parent {
                Some(p) => self.commits.contains_key(p.as_str()),
                None => true,
            };
            if compare_str(id.as_str(), k.as_str()) != Order::Equal || !parent_ok || !self.blobs_stored(
                &c.tree,
            ) {
                return false;
            }
            i = i + 1;
        }
        proof {
            assert forall|k: Seq<char>| #[trigger] self@.commits.contains_key(k) implies commit_sound(
                self@,
                k,
            ) by {
                let j = choose|j: int| 0 <= j < cs.entries().len() && cs.entries()[j].0 == k;
                assert(cs.entries()[j].0 == k);
            }
        }
        true
    }

    /// True when HEAD names an existing branch that names a stored commit.
    pub fn check_head_stored(&self) -> (r: bool)
        ensures
            r == head_stored(self@),
    {
        match self.branches.get(self.current_branch()) {
            Some(t) => self.commits.contains_key(trim_str(t.as_str())),
            None => false,
        }
    }

    /// True when every commit met along parents from `id` has its parent stored.
    #[verifier::rlimit(30)]
    pub fn check_chain(&self, id: &str) -> (r: bool)
        ensures
            r == chain_closed(self@, id@),
    {
        let ids = self.history_ids(id);
        let ghost h = self@.history(id@);
        proof {
            lemma_walk_stored(self@.commits, id@, self@.commits.dom().len());
        }
        let n = ids.len();
        let mut i: usize = 0;
        while i < n
            invariant
                n == ids@.len(),
                names_of(ids@) == h,
                h == self@.history(id@),
                forall|j: int| 0 <= j < h.len() ==> #[trigger] self@.commits.contains_key(h[j]),
                i <= n,
                forall|j: int|
                    0 <= j < i ==> match self@.commits[#[trigger] h[j]].parent {
                        Some(p) => self@.commits.contains_key(p),
                        None => true,
                    },
            decreases n - i,
        {
            proof {
                assert(h[i as int] == ids@[i as int]@);
                assert(self@.commits.contains_key(h[i as int]));
            }
            match self.commits.get(ids[i].as_str()) {
                Some(c) => {
                    let ok = match &c.parent {
                        Some(p) => self.commits.contains_key(p.as_str()),
                        None => true,
                    };
                    if !ok {
                        return false;
                    }
                },
                None => {
                    return false;
                },
            }
            i = i + 1;
        }
        true
    }

    /// True when the store is well-formed.
    pub fn check_valid(&self) -> (r: bool)
        ensures
            r == self@.valid(),
    {
        proof {
            lemma_valid_parts(self@);
        }
        self.initialized && crate::text::starts_with(self.head_ref(), "refs/heads/")
            && self.branches.contains_key(self.current_branch()) && self.check_branches()
            && self.check_commits() && self.blobs_stored(&self.index.files)
    }
}

/// A store is valid exactly when each of its parts is sound.
#[verifier::rlimit(30)]
pub proof fn lemma_valid_parts(s: RepoView)
    ensures
        s.valid() == (s.initialized && has_prefix(s.head_ref(), heads_prefix())
            && s.branches.contains_key(s.current_branch()) && branches_sound(s) && (forall|
            k: Seq<char>,
        | #[trigger] s.commits.contains_key(k) ==> commit_sound(s, k)) && blobs_present(
            s,
            s.index.files,
        )),
{
    if s.valid() {
        assert forall|k: Seq<char>| #[trigger] s.commits.contains_key(k) implies commit_sound(s, k) by {
            assert forall|f: Seq<char>| #[trigger]
                s.commits[k].files().contains_key(f) implies s.blobs.contains_key(
                s.commits[k].files()[f],
            ) by {
                assert(s.commits.contains_key(k) && s.commits[k].files().contains_key(f));
            }
        }
    }
    if s.initialized && has_prefix(s.head_ref(), heads_prefix()) && s.branches.contains_key(
        s.current_branch(),
    ) && branches_sound(s) && (forall|k: Seq<char>| #[trigger]
        s.commits.contains_key(k) ==> commit_sound(s, k)) && blobs_present(s, s.index.files) {
        assert forall|k: Seq<char>, f: Seq<char>| #[trigger] s.commits.contains_key(k)
            && #[trigger] s.commits[k].files().contains_key(f) implies s.blobs.contains_key(
            s.commits[k].files()[f],
        ) by {
            assert(commit_sound(s, k));
        }
        assert forall|k: Seq<char>| #[trigger] s.commits.contains_key(k) implies commit_id(s.commits[k])
            == k by {
            assert(commit_sound(s, k));
        }
        assert forall|k: Seq<char>| #[trigger] s.commits.contains_key(k) implies match s.commits[k].parent {
            Some(p) => s.commits.contains_key(p),
            None => true,
        } by {
            assert(commit_sound(s, k));
        }
    }
}

/// The table of the next commit: the head's table without the files staged
/// for removal, with the staged files put in.
pub open spec fn next_tree(tree: Map<Seq<char>, Seq<char>>, index: IndexView) -> Map<
    Seq<char>,
    Seq<char>,
> {
    Map::new(
        |f: Seq<char>|
            (tree.contains_key(f) && !index.removed.contains(f)) || index.files.contains_key(f),
        |f: Seq<char>|
            if index.files.contains_key(f) {
                index.files[f]
            } else {
                tree[f]
            },
    )
}

/// The table of the next commit, built from the head's table and the
/// staging area.
#[verifier::rlimit(30)]
pub fn apply_index(tree: &FileMap<String>, index: &Index) -> (r: FileMap<String>)
    ensures
        r@ == next_tree(tree@, index@),
{
    let mut t = tree.duplicate();
    let removed = &index.removed;
    proof {
        use_type_invariant(removed);
        removed.lemma_facts();
    }
    let n = removed.len();
    let mut i: usize = 0;
    while i < n
        invariant
            n == removed.list().len(),
            i <= n,
            forall|f: Seq<char>|
                #[trigger] t@.contains_key(f) <==> tree@.contains_key(f) && !removed.list().subrange(
                    0,
                    i as int,
                ).contains(f),
            forall|f: Seq<char>| #[trigger] t@.contains_key(f) ==> t@[f] == tree@[f],
        decreases n - i,
    {
        let name = removed.name_at(i);
        let ghost t0 = t@;
        t.remove(name.as_str());
        proof {
            assert forall|f: Seq<char>| #[trigger] t@.contains_key(f) <==> tree@.contains_key(f)
                && !removed.list().subrange(0, i + 1).contains(f) by {
                let a = removed.list().subrange(0, i as int);
                let b = removed.list().subrange(0, i + 1);
                assert(b =~= a.push(name@));
                assert(t0.contains_key(f) <==> tree@.contains_key(f) && !a.contains(f));
                if f == name@ {
                    assert(b[i as int] == f);
                }
                if a.contains(f) {
                    let j = choose|j: int| 0 <= j < a.len() && a[j] == f;
                    assert(b[j] == f);
                }
                if b.contains(f) && f != name@ {
                    let j = choose|j: int| 0 <= j < b.len() && b[j] == f;
                    assert(a[j] == f);
                }
            }
        }
        i = i + 1;
    }
    assert(removed.list().subrange(0, n as int) =~= removed.list());
    let files = &index.files;
    proof {
        use_type_invariant(files);
        files.lemma_facts();
    }
    let m = files.len();
    let mut j: usize = 0;
    while j < m
        invariant
            m == files.entries().len(),
            j <= m,
            forall|f: Seq<char>|
                #[trigger] t@.contains_key(f) <==> (tree@.contains_key(f) && !removed@.contains(f))
                    || keys_of(files.entries()).subrange(0, j as int).contains(f),
            forall|f: Seq<char>|
                #[trigger] t@.contains_key(f) ==> t@[f] == if keys_of(files.entries()).subrange(
                    0,
                    j as int,
                ).contains(f) {
                    files@[f]
                } else {
                    tree@[f]
                },
            forall|i: int|
                #![trigger files.entries()[i]]
                0 <= i < files.entries().len() ==> files@.contains_key(files.entries()[i].0)
                    && files@[files.entries()[i].0] == files.entries()[i].1,
            forall|f: Seq<char>| #[trigger]
                removed@.contains(f) <==> removed.list().contains(f),
        decreases m - j,
    {
        let k = files.key_at(j).clone();
        let v = files.value_at(j).clone();
        let ghost kk = k@;
        let ghost t0 = t@;
        t.insert(k, v);
        proof {
            let a = keys_of(files.entries()).subrange(0, j as int);
            let b = keys_of(files.entries()).subrange(0, j + 1);
            assert(b =~= a.push(kk));
            assert(files.entries()[j as int].0 == kk);
            assert forall|f: Seq<char>| #[trigger] t@.contains_key(f) <==> (tree@.contains_key(f)
                && !removed@.contains(f)) || b.contains(f) by {
                assert(t0.contains_key(f) <==> (tree@.contains_key(f) && !removed@.contains(f))
                    || a.contains(f));
                if a.contains(f) {
                    let x = choose|x: int| 0 <= x < a.len() && a[x] == f;
                    assert(b[x] == f);
                }
                if b.contains(f) && f != kk {
                    let x = choose|x: int| 0 <= x < b.len() && b[x] == f;
                    assert(a[x] == f);
                }
                if f == kk {
                    assert(b[j as int] == f);
                }
            }
            assert forall|f: Seq<char>| #[trigger] t@.contains_key(f) implies t@[f] == if b.contains(
                f,
            ) {
                files@[f]
            } else {
                tree@[f]
            } by {
                assert(t0.contains_key(f) <==> (tree@.contains_key(f) && !removed@.contains(f))
                    || a.contains(f));
                if a.contains(f) {
                    let x = choose|x: int| 0 <= x < a.len() && a[x] == f;
                    assert(b[x] == f);
                }
                if b.contains(f) && f != kk {
                    let x = choose|x: int| 0 <= x < b.len() && b[x] == f;
                    assert(a[x] == f);
                }
                if f == kk {
                    assert(b[j as int] == f);
                }
            }
        }
        j = j + 1;
    }
    proof {
        let ks = keys_of(files.entries());
        assert(ks.subrange(0, m as int) =~= ks);
        assert forall|f: Seq<char>| #[trigger] ks.contains(f) <==> files@.contains_key(f) by {
            if ks.contains(f) {
                let x = choose|x: int| 0 <= x < ks.len() && ks[x] == f;
                assert(files.entries()[x].0 == f);
            }
            if files@.contains_key(f) {
                let x = choose|x: int| 0 <= x < files.entries().len() && files.entries()[x].0 == f;
                assert(ks[x] == f);
            }
        }
        assert(t@ =~= next_tree(tree@, index@));
    }
    t
}


/// Hexadecimal text has no white space to trim.
pub proof fn lemma_trim_hex(b: Seq<u8>)
    ensures
        trim(hex_of(b)) == hex_of(b),
{
    let h = hex_of(b);
    if h.len() > 0 {
        let d0 = (b[0] / 16) as int;
        assert(h[0] == hex_char(d0));
        assert(!is_ws(h[0]));
        assert(trim_start(h) == h);
        let n = h.len() as int;
        let dl = (b[(n - 1) / 2] % 16) as int;
        assert((n - 1) % 2 == 1);
        assert(h.last() == hex_char(dl));
        assert(!is_ws(h.last()));
        assert(trim_end(h) == h);
    } else {
        assert(trim_start(h) == h);
        assert(trim_end(h) == h);
    }
}

/// An id has no white space to trim.
pub proof fn lemma_trim_id(c: CommitView)
    ensures
        trim(commit_id(c)) == commit_id(c),
{
    lemma_trim_hex(sha1_digest_of(commit_data(c)));
}

/// HEAD names an existing branch, and that branch names a stored commit.
pub open spec fn head_stored(s: RepoView) -> bool {
    &&& s.branches.contains_key(s.current_branch())
    &&& s.commits.contains_key(s.head_id())
}

/// `c` is a commit that committing the staging area of `s` with `message`
/// can make: its parent is the head commit's id and its table is the head's
/// table updated by the staging area. Only its timestamp is free.
pub open spec fn next_commit(s: RepoView, message: Seq<char>, c: CommitView) -> bool {
    &&& c.message == message
    &&& c.parent == Some(commit_id(s.head_commit()))
    &&& sorted_keys(c.tree)
    &&& c.files() == next_tree(s.head_commit().files(), s.index)
}

/// The empty staging area.
pub open spec fn empty_index() -> IndexView {
    IndexView { files: Map::empty(), removed: Set::empty() }
}

/// `s` after storing `c`, pointing the current branch at it and clearing
/// the staging area.
pub open spec fn with_commit(s: RepoView, c: CommitView) -> RepoView {
    RepoView {
        commits: s.commits.insert(commit_id(c), c),
        branches: s.branches.insert(s.current_branch(), commit_id(c)),
        index: empty_index(),
        ..s
    }
}

/// Committing keeps a store valid.
#[verifier::rlimit(30)]
pub proof fn lemma_commit_keeps_valid(s: RepoView, message: Seq<char>, c: CommitView)
    requires
        s.valid(),
        next_commit(s, message, c),
    ensures
        with_commit(s, c).valid(),
        with_commit(s, c).head_id() == commit_id(c),
        with_commit(s, c).head_commit() == c,
{
    let t = with_commit(s, c);
    lemma_trim_id(c);
    assert(s.commits.contains_key(s.head_id()));
    assert(commit_id(s.head_commit()) == s.head_id());
    assert(t.current_branch() == s.current_branch());
    assert(t.head_id() == commit_id(c));
    lemma_map_of_all(c.tree);
    assert forall|b: Seq<char>| #[trigger] t.branches.contains_key(b) implies t.commits.contains_key(
        t.branch_target(b),
    ) by {
        if b != s.current_branch() {
            assert(s.commits.contains_key(s.branch_target(b)));
        }
    }
    assert forall|k: Seq<char>| #[trigger] t.commits.contains_key(k) implies commit_id(t.commits[k])
        == k by {
        if k != commit_id(c) {
            assert(s.commits.contains_key(k));
        }
    }
    assert forall|k: Seq<char>| #[trigger] t.commits.contains_key(k) implies match t.commits[k].parent {
        Some(p) => t.commits.contains_key(p),
        None => true,
    } by {
        if k != commit_id(c) {
            assert(s.commits.contains_key(k));
        }
    }
    assert forall|k: Seq<char>, f: Seq<char>| #[trigger] t.commits.contains_key(k)
        && #[trigger] t.commits[k].files().contains_key(f) implies t.blobs.contains_key(
        t.commits[k].files()[f],
    ) by {
        if k != commit_id(c) {
            assert(s.commits.contains_key(k));
        } else {
            let h = s.head_commit();
            if s.index.files.contains_key(f) {
            } else {
                assert(s.commits.contains_key(s.head_id()));
                assert(h.files().contains_key(f));
            }
        }
    }
}

impl Repository {
    /// Commits the staging area with `message`, after the checks that
    /// `commit` and `merge` make.
    #[verifier::rlimit(30)]
    pub fn merge_commit(&mut self, message: &str)
        requires
            head_stored(old(self)@),
        ensures
            exists|c: CommitView|
                next_commit(old(self)@, message@, c) && final(self)@ == with_commit(old(self)@, c),
            old(self)@.valid() ==> final(self)@.valid(),
    {
        let ghost s = self@;
        let index = self.load_index();
        let head = self.get_head_commit();
        let new_tree = apply_index(&head.tree, &index);
        let head_id = head.get_id();
        proof {
            assert(s.commits.contains_key(s.head_id()));
        }
        let new_commit = Commit::new(String::from_str(message), Some(head_id), new_tree);
        proof {
            use_type_invariant(&new_commit.tree);
            assert(next_commit(s, message@, new_commit@));
        }
        self.save_commit(&new_commit);
        let new_id = new_commit.get_id();
        let cur = String::from_str(self.current_branch());
        self.branches.insert(cur, new_id);
        self.save_index(&Index::new());
        proof {
            assert(self@ == with_commit(s, new_commit@));
            if s.valid() {
                lemma_commit_keeps_valid(s, message@, new_commit@);
            }
        }
    }
}


/// What a command prints when an untracked file stands in the way.
pub open spec fn untracked_text() -> Seq<char> {
    "There is an untracked file in the way; delete it, or add and commit it first."@
}

/// A file of the working directory that neither the commit `current`
/// tracks nor the staging area stages, and that `target` would overwrite.
pub open spec fn untracked_in_way(
    s: RepoView,
    current: Map<Seq<char>, Seq<char>>,
    target: Map<Seq<char>, Seq<char>>,
) -> bool {
    exists|f: Seq<char>|
        #![trigger s.working.contains_key(f)]
        s.working.contains_key(f) && !has_prefix(f, ".gitlet"@) && !current.contains_key(f)
            && !s.index.files.contains_key(f) && target.contains_key(f)
}

/// The working directory after moving from the files of `current` to those
/// of `target`: files tracked by `current` but not `target` are deleted,
/// and every file of `target` is written from its blob.
pub open spec fn switched_working(
    w: Map<Seq<char>, Seq<u8>>,
    current: Map<Seq<char>, Seq<char>>,
    target: Map<Seq<char>, Seq<char>>,
    blobs: Map<Seq<char>, Seq<u8>>,
) -> Map<Seq<char>, Seq<u8>> {
    Map::new(
        |f: Seq<char>| target.contains_key(f) || (w.contains_key(f) && !current.contains_key(f)),
        |f: Seq<char>|
            if target.contains_key(f) {
                blobs[target[f]]
            } else {
                w[f]
            },
    )
}

/// Every blob that the table names is stored.
pub open spec fn blobs_present(s: RepoView, files: Map<Seq<char>, Seq<char>>) -> bool {
    forall|f: Seq<char>| #[trigger] files.contains_key(f) ==> s.blobs.contains_key(files[f])
}

impl Repository {
    /// Writes the file `filename` of `commit` into the working directory.
    pub fn restore_files_from_commit(&mut self, commit: &Commit, filename: &str) -> (r: Result<
        (),
        String,
    >)
        requires
            commit@.files().contains_key(filename@) ==> old(self)@.blobs.contains_key(
                commit@.files()[filename@],
            ),
        ensures
            match r {
                Ok(()) => commit@.files().contains_key(filename@) && final(self)@ == (RepoView {
                    working: old(self)@.working.insert(
                        filename@,
                        old(self)@.blobs[commit@.files()[filename@]],
                    ),
                    ..old(self)@
                }),
                Err(e) => !commit@.files().contains_key(filename@) && e@
                    == "File does not exist in that commit."@ && final(self)@ == old(self)@,
            },
    {
        match commit.tree.get(filename) {
            Some(blob_id) => {
                let blob = self.load_blob(blob_id.as_str());
                self.working.insert(String::from_str(filename), blob.content);
                Ok(())
            },
            None => Err(String::from_str("File does not exist in that commit.")),
        }
    }

    /// Fails when a file that is neither tracked by `current_commit` nor
    /// staged would be overwritten by `target_commit`.
    #[verifier::rlimit(30)]
    pub fn check_untracked_files(&self, current_commit: &Commit, target_commit: &Commit) -> (r:
        Result<(), String>)
        ensures
            r is Err <==> untracked_in_way(self@, current_commit@.files(), target_commit@.files()),
            r matches Err(e) ==> e@ == untracked_text(),
    {
        let w = &self.working;
        proof {
            use_type_invariant(w);
            w.lemma_facts();
        }
        let n = w.len();
        let mut i: usize = 0;
        while i < n
            invariant
                n == w.entries().len(),
                i <= n,
                w == &self.working,
                forall|j: int|
                    #![trigger w.entries()[j]]
                    0 <= j < i ==> {
                        let f = w.entries()[j].0;
                        !(!has_prefix(f, ".gitlet"@) && !current_commit@.files().contains_key(f)
                            && !self@.index.files.contains_key(f)
                            && target_commit@.files().contains_key(f))
                    },
            decreases n - i,
        {
            let name = w.key_at(i);
            if !crate::text::starts_with(name.as_str(), ".gitlet") {
                let in_current = current_commit.tree.contains_key(name.as_str());
                let staged = self.index.files.contains_key(name.as_str());
                if !in_current && !staged {
                    if target_commit.tree.contains_key(name.as_str()) {
                        proof {
                            assert(self@.working.contains_key(name@));
                        }
                        return Err(
                            String::from_str(
                                "There is an untracked file in the way; delete it, or add and commit it first.",
                            ),
                        );
                    }
                }
            }
            i = i + 1;
        }
        proof {
            if untracked_in_way(self@, current_commit@.files(), target_commit@.files()) {
                let f = choose|f: Seq<char>|
                    #![trigger self@.working.contains_key(f)]
                    self@.working.contains_key(f) && !has_prefix(f, ".gitlet"@)
                        && !current_commit@.files().contains_key(f)
                        && !self@.index.files.contains_key(f)
                        && target_commit@.files().contains_key(f);
                let j = choose|j: int| 0 <= j < w.entries().len() && w.entries()[j].0 == f;
                assert(w.entries()[j].0 == f);
            }
        }
        Ok(())
    }

    /// Moves the working directory from the files of `current` to those of
    /// `target`.
    #[verifier::rlimit(30)]
    fn switch_files(&mut self, current: &Commit, target: &Commit)
        requires
            blobs_present(old(self)@, target@.files()),
        ensures
            final(self)@ == (RepoView {
                working: switched_working(
                    old(self)@.working,
                    current@.files(),
                    target@.files(),
                    old(self)@.blobs,
                ),
                ..old(self)@
            }),
    {
        let ghost w0 = self@.working;
        let ct = &current.tree;
        let tt = &target.tree;
        proof {
            use_type_invariant(ct);
            use_type_invariant(tt);
            ct.lemma_facts();
            tt.lemma_facts();
            lemma_prefix_all(ct.entries());
            lemma_prefix_all(tt.entries());
        }
        let n = ct.len();
        let mut i: usize = 0;
        while i < n
            invariant
                n == ct.entries().len(),
                i <= n,
                ct == &current.tree,
                tt == &target.tree,
                self@ == (RepoView { working: self@.working, ..old(self)@ }),
                forall|f: Seq<char>| #[trigger]
                    self@.working.contains_key(f) <==> w0.contains_key(f) && !(keys_of(
                        ct.entries(),
                    ).subrange(0, i as int).contains(f) && !tt@.contains_key(f)),
                forall|f: Seq<char>| #[trigger]
                    self@.working.contains_key(f) ==> self@.working[f] == w0[f],
            decreases n - i,
        {
            let name = ct.key_at(i);
            let ghost wb = self@.working;
            proof {
                lemma_prefix_step(ct.entries(), i as int);
            }
            if !tt.contains_key(name.as_str()) {
                self.working.remove(name.as_str());
            }
            proof {
                assert forall|f: Seq<char>| #[trigger] self@.working.contains_key(f) <==> w0.contains_key(
                    f,
                ) && !(keys_of(ct.entries()).subrange(0, i + 1).contains(f) && !tt@.contains_key(f)) by {
                    assert(wb.contains_key(f) <==> w0.contains_key(f) && !(keys_of(
                        ct.entries(),
                    ).subrange(0, i as int).contains(f) && !tt@.contains_key(f)));
                }
                assert forall|f: Seq<char>| #[trigger] self@.working.contains_key(f) implies self@.working[f]
                    == w0[f] by {
                    assert(wb.contains_key(f));
                }
            }
            i = i + 1;
        }
        let ghost w1 = self@.working;
        let m = tt.len();
        let mut j: usize = 0;
        while j < m
            invariant
                m == tt.entries().len(),
                j <= m,
                tt == &target.tree,
                blobs_present(old(self)@, target@.files()),
                self@ == (RepoView { working: self@.working, ..old(self)@ }),
                forall|f: Seq<char>| #[trigger]
                    self@.working.contains_key(f) <==> w1.contains_key(f) || keys_of(
                        tt.entries(),
                    ).subrange(0, j as int).contains(f),
                forall|f: Seq<char>| #[trigger]
                    self@.working.contains_key(f) ==> self@.working[f] == if keys_of(
                        tt.entries(),
                    ).subrange(0, j as int).contains(f) {
                        old(self)@.blobs[tt@[f]]
                    } else {
                        w1[f]
                    },
                forall|i: int|
                    #![trigger tt.entries()[i]]
                    0 <= i < tt.entries().len() ==> tt@.contains_key(tt.entries()[i].0)
                        && tt@[tt.entries()[i].0] == tt.entries()[i].1,
            decreases m - j,
        {
            let name = tt.key_at(j);
            let ghost wb = self@.working;
            proof {
                lemma_prefix_step(tt.entries(), j as int);
            }
            let res = self.restore_files_from_commit(target, name.as_str());
            proof {
                assert(tt@.contains_key(name@));
                assert forall|f: Seq<char>| #[trigger] self@.working.contains_key(f) <==> w1.contains_key(
                    f,
                ) || keys_of(tt.entries()).subrange(0, j + 1).contains(f) by {
                    assert(wb.contains_key(f) <==> w1.contains_key(f) || keys_of(
                        tt.entries(),
                    ).subrange(0, j as int).contains(f));
                }
                assert forall|f: Seq<char>| #[trigger] self@.working.contains_key(f) implies self@.working[f]
                    == if keys_of(tt.entries()).subrange(0, j + 1).contains(f) {
                    old(self)@.blobs[tt@[f]]
                } else {
                    w1[f]
                } by {
                    if f != name@ {
                        assert(wb.contains_key(f));
                    }
                }
            }
            j = j + 1;
        }
        proof {
            assert(self@.working =~= switched_working(
                old(self)@.working,
                current@.files(),
                target@.files(),
                old(self)@.blobs,
            ));
        }
    }
}


/// `id` is the least stored commit id that begins with `prefix`.
pub open spec fn first_with_prefix(s: RepoView, prefix: Seq<char>, id: Seq<char>) -> bool {
    &&& s.commits.contains_key(id)
    &&& has_prefix(id, prefix)
    &&& forall|k: Seq<char>| #[trigger]
        s.commits.contains_key(k) && has_prefix(k, prefix) ==> !seq_lt(k, id)
}

/// The least stored commit id that begins with `prefix`, where there is one.
pub open spec fn prefix_match(s: RepoView, prefix: Seq<char>) -> Seq<char> {
    choose|id: Seq<char>| first_with_prefix(s, prefix, id)
}

/// Among finitely many commits, some id beginning with `prefix` is the least.
#[verifier::rlimit(30)]
pub proof fn lemma_first_exists(s: RepoView, prefix: Seq<char>)
    requires
        s.commits.dom().finite(),
        some_with_prefix(s, prefix),
    ensures
        first_with_prefix(s, prefix, prefix_match(s, prefix)),
{
    let u = s.commits.dom().filter(|k: Seq<char>| has_prefix(k, prefix));
    let k = choose|k: Seq<char>| #[trigger] s.commits.contains_key(k) && has_prefix(k, prefix);
    assert(u.contains(k));
    vstd::set::axiom_set_contains_len(u, k);
    crate::filemap::lemma_least_exists(u);
    let m = choose|m: Seq<char>|
        u.contains(m) && forall|x: Seq<char>| #[trigger] u.contains(x) ==> !seq_lt(x, m);
    assert forall|x: Seq<char>| #[trigger] s.commits.contains_key(x) && has_prefix(x, prefix) implies !seq_lt(
        x,
        m,
    ) by {
        assert(u.contains(x));
    }
    assert(first_with_prefix(s, prefix, m));
}

/// At most one id is the least with a prefix.
pub proof fn lemma_first_unique(s: RepoView, prefix: Seq<char>, a: Seq<char>, b: Seq<char>)
    requires
        first_with_prefix(s, prefix, a),
        first_with_prefix(s, prefix, b),
    ensures
        a == b,
{
    assert(s.commits.contains_key(a) && has_prefix(a, prefix));
    assert(s.commits.contains_key(b) && has_prefix(b, prefix));
    crate::text::lemma_lt_total(a, b);
}

/// Some stored commit id begins with `prefix`.
pub open spec fn some_with_prefix(s: RepoView, prefix: Seq<char>) -> bool {
    exists|k: Seq<char>| #[trigger] s.commits.contains_key(k) && has_prefix(k, prefix)
}

/// A branch name that HEAD keeps unchanged when white space is trimmed.
pub open spec fn clean_name(name: Seq<char>) -> bool {
    name.len() == 0 || !is_ws(name.last())
}

/// `s` after checking out the branch `name`.
pub open spec fn checked_out(s: RepoView, name: Seq<char>) -> RepoView {
    RepoView {
        working: switched_working(
            s.working,
            s.head_commit().files(),
            s.commits[s.branch_target(name)].files(),
            s.blobs,
        ),
        head: heads_prefix() + name,
        index: empty_index(),
        ..s
    }
}

/// `s` after resetting the current branch to the commit `id`.
pub open spec fn reset_to(s: RepoView, id: Seq<char>) -> RepoView {
    RepoView {
        working: switched_working(s.working, s.head_commit().files(), s.commits[id].files(), s.blobs),
        branches: s.branches.insert(s.current_branch(), id),
        index: empty_index(),
        ..s
    }
}

/// A reference to a branch with a clean name reads back as that branch.
pub proof fn lemma_head_of_branch(name: Seq<char>)
    requires
        clean_name(name),
    ensures
        trim(heads_prefix() + name) == heads_prefix() + name,
        has_prefix(heads_prefix() + name, heads_prefix()),
        (heads_prefix() + name).subrange(
            heads_prefix().len() as int,
            (heads_prefix() + name).len() as int,
        ) == name,
{
    reveal_strlit("refs/heads/");
    let h = heads_prefix() + name;
    assert(h[0] == 'r');
    assert(trim_start(h) == h);
    if name.len() > 0 {
        assert(h.last() == name.last());
    } else {
        assert(h.last() == '/');
    }
    assert(trim_end(h) == h);
    assert(h.subrange(0, heads_prefix().len() as int) =~= heads_prefix());
    assert(h.subrange(heads_prefix().len() as int, h.len() as int) =~= name);
}

/// Checking out a branch with a clean name keeps a store valid.
pub proof fn lemma_checkout_keeps_valid(s: RepoView, name: Seq<char>)
    requires
        s.valid(),
        s.branches.contains_key(name),
        clean_name(name),
    ensures
        checked_out(s, name).valid(),
        checked_out(s, name).current_branch() == name,
{
    lemma_head_of_branch(name);
    let t = checked_out(s, name);
    assert(t.head_ref() == heads_prefix() + name);
    assert(t.current_branch() == name);
}

/// Resetting to a stored commit keeps a store valid.
pub proof fn lemma_reset_keeps_valid(s: RepoView, id: Seq<char>)
    requires
        s.valid(),
        s.commits.contains_key(id),
    ensures
        reset_to(s, id).valid(),
        reset_to(s, id).head_id() == id,
{
    let t = reset_to(s, id);
    assert(commit_id(s.commits[id]) == id);
    lemma_trim_id(s.commits[id]);
    assert(t.current_branch() == s.current_branch());
    assert forall|b: Seq<char>| #[trigger] t.branches.contains_key(b) implies t.commits.contains_key(
        t.branch_target(b),
    ) by {
        if b != s.current_branch() {
            assert(s.commits.contains_key(s.branch_target(b)));
        }
    }
}

/// Where the table `files` tracks `f`, its blob is stored.
pub open spec fn restorable(s: RepoView, files: Map<Seq<char>, Seq<char>>, f: Seq<char>) -> bool {
    files.contains_key(f) ==> s.blobs.contains_key(files[f])
}

/// Every commit met along parents from `id` has its parent stored.
pub open spec fn chain_closed(s: RepoView, id: Seq<char>) -> bool {
    forall|j: int|
        0 <= j < s.history(id).len() ==> match s.commits[#[trigger] s.history(id)[j]].parent {
            Some(p) => s.commits.contains_key(p),
            None => true,
        }
}

/// What restoring `f` from the table `files` prints and leaves: the
/// file is written from its blob, or an error when the table lacks it.
pub open spec fn restore_outcome(
    s: RepoView,
    files: Map<Seq<char>, Seq<char>>,
    f: Seq<char>,
    lines: Seq<Line>,
    t: RepoView,
) -> bool {
    if files.contains_key(f) {
        lines == Seq::<Line>::empty() && t == (RepoView {
            working: s.working.insert(f, s.blobs[files[f]]),
            ..s
        })
    } else {
        lines == seq![Line::Stderr("File does not exist in that commit."@)] && t == s
    }
}

/// What `checkout ID -- FILE` prints and leaves.
pub open spec fn checkout_from_outcome(
    s: RepoView,
    id: Seq<char>,
    f: Seq<char>,
    lines: Seq<Line>,
    t: RepoView,
) -> bool {
    if some_with_prefix(s, id) {
        restore_outcome(s, s.commits[prefix_match(s, id)].files(), f, lines, t)
    } else {
        lines == seq![Line::Stderr("No commit with that id exists."@)] && t == s
    }
}

/// The store holds what `checkout BRANCH` reads: where it goes past its
/// checks, HEAD and the branch name stored commits, and where no untracked
/// file is in the way, every blob of the branch's commit is stored.
pub open spec fn checkout_ready(s: RepoView, name: Seq<char>) -> bool {
    s.branches.contains_key(name) && name != s.current_branch() ==> {
        &&& head_stored(s)
        &&& s.commits.contains_key(s.branch_target(name))
        &&& !untracked_in_way(s, s.head_commit().files(), s.commits[s.branch_target(name)].files())
            ==> blobs_present(s, s.commits[s.branch_target(name)].files())
    }
}

/// What `checkout BRANCH` prints and leaves.
pub open spec fn checkout_branch_outcome(
    s: RepoView,
    name: Seq<char>,
    lines: Seq<Line>,
    t: RepoView,
) -> bool {
    if !s.branches.contains_key(name) {
        lines == seq![Line::Stderr("No such branch exists."@)] && t == s
    } else if name == s.current_branch() {
        lines == seq![Line::Stderr("No need to checkout the current branch."@)] && t == s
    } else if untracked_in_way(s, s.head_commit().files(), s.commits[s.branch_target(name)].files()) {
        lines == seq![Line::Stderr(untracked_text())] && t == s
    } else {
        lines == Seq::<Line>::empty() && t == checked_out(s, name)
    }
}

/// What `reset ID` prints and leaves, where some commit id begins with `id`.
pub open spec fn reset_outcome(s: RepoView, id: Seq<char>, lines: Seq<Line>, t: RepoView) -> bool {
    let full = prefix_match(s, id);
    if untracked_in_way(s, s.head_commit().files(), s.commits[full].files()) {
        lines == seq![Line::Stderr(untracked_text())] && t == s
    } else {
        lines == Seq::<Line>::empty() && t == reset_to(s, full)
    }
}

impl Repository {
    /// The least stored commit id that begins with `prefix`.
    #[verifier::rlimit(30)]
    pub fn find_commit_by_prefix(&self, prefix: &str) -> (r: Result<String, String>)
        ensures
            r is Ok <==> some_with_prefix(self@, prefix@),
            r matches Ok(id) ==> first_with_prefix(self@, prefix@, id@) && id@ == prefix_match(
                self@,
                prefix@,
            ),
            r matches Err(e) ==> e@ == "No commit with that id exists."@,
    {
        let cs = &self.commits;
        proof {
            use_type_invariant(cs);
            cs.lemma_facts();
        }
        let n = cs.len();
        let mut i: usize = 0;
        while i < n
            invariant
                n == cs.entries().len(),
                i <= n,
                cs == &self.commits,
                forall|j: int|
                    #![trigger cs.entries()[j]]
                    0 <= j < i ==> !has_prefix(cs.entries()[j].0, prefix@),
                sorted_keys(cs.entries()),
                forall|k: Seq<char>|
                    #[trigger] cs@.contains_key(k) ==> exists|j: int|
                        0 <= j < cs.entries().len() && cs.entries()[j].0 == k,
                forall|j: int|
                    #![trigger cs.entries()[j]]
                    0 <= j < cs.entries().len() ==> cs@.contains_key(cs.entries()[j].0),
            decreases n - i,
        {
            let id = cs.key_at(i);
            if crate::text::starts_with(id.as_str(), prefix) {
                proof {
                    assert forall|k: Seq<char>| #[trigger]
                        self@.commits.contains_key(k) && has_prefix(k, prefix@) implies !seq_lt(
                        k,
                        id@,
                    ) by {
                        let j = choose|j: int| 0 <= j < cs.entries().len() && cs.entries()[j].0 == k;
                        assert(cs.entries()[j].0 == k);
                        if j > i {
                            assert(seq_lt(cs.entries()[i as int].0, cs.entries()[j].0));
                            crate::text::lemma_lt_asymmetric(id@, k);
                        } else if j == i {
                            crate::text::lemma_lt_irreflexive(k);
                        }
                    }
                    assert(self@.commits.contains_key(id@));
                    assert(first_with_prefix(self@, prefix@, id@));
                    lemma_first_unique(self@, prefix@, id@, prefix_match(self@, prefix@));
                }
                return Ok(id.clone());
            }
            i = i + 1;
        }
        proof {
            if some_with_prefix(self@, prefix@) {
                let k = choose|k: Seq<char>| #[trigger]
                    self@.commits.contains_key(k) && has_prefix(k, prefix@);
                let j = choose|j: int| 0 <= j < cs.entries().len() && cs.entries()[j].0 == k;
                assert(cs.entries()[j].0 == k);
            }
        }
        Err(String::from_str("No commit with that id exists."))
    }

    /// Restores `filename` as the head commit has it.
    pub fn checkout_file(&mut self, filename: &str) -> (r: Vec<Message>)
        requires
            head_stored(old(self)@),
            restorable(old(self)@, old(self)@.head_commit().files(), filename@),
        ensures
            old(self)@.valid() ==> final(self)@.valid(),
            restore_outcome(
                old(self)@,
                old(self)@.head_commit().files(),
                filename@,
                printed(r@),
                final(self)@,
            ),
    {
        let head = self.get_head_commit();
        match self.restore_files_from_commit(&head, filename) {
            Ok(()) => {
                let r: Vec<Message> = Vec::new();
                assert(printed(r@) =~= Seq::<Line>::empty());
                r
            },
            Err(msg) => {
                let r = vec![Message::Stderr(msg)];
                assert(printed(r@) =~= seq![Line::Stderr("File does not exist in that commit."@)]);
                r
            },
        }
    }

    /// Restores `filename` as the commit whose id begins with `commit_id` has it.
    #[verifier::rlimit(30)]
    pub fn checkout_file_from_commit(&mut self, commit_id: &str, filename: &str) -> (r: Vec<
        Message,
    >)
        requires
            some_with_prefix(old(self)@, commit_id@) ==> restorable(
                old(self)@,
                old(self)@.commits[prefix_match(old(self)@, commit_id@)].files(),
                filename@,
            ),
        ensures
            old(self)@.valid() ==> final(self)@.valid(),
            checkout_from_outcome(old(self)@, commit_id@, filename@, printed(r@), final(self)@),
    {
        let full = match self.find_commit_by_prefix(commit_id) {
            Ok(id) => id,
            Err(msg) => {
                let r = vec![Message::Stderr(msg)];
                assert(printed(r@) =~= seq![Line::Stderr("No commit with that id exists."@)]);
                return r;
            },
        };
        let commit = self.load_commit(full.as_str());
        match self.restore_files_from_commit(&commit, filename) {
            Ok(()) => {
                let r: Vec<Message> = Vec::new();
                assert(printed(r@) =~= Seq::<Line>::empty());
                r
            },
            Err(msg) => {
                let r = vec![Message::Stderr(msg)];
                assert(printed(r@) =~= seq![Line::Stderr("File does not exist in that commit."@)]);
                r
            },
        }
    }

    /// Checks out the branch `branch_name`: its files replace those of the
    /// head commit, it becomes the current branch and the staging area is cleared.
    #[verifier::rlimit(30)]
    pub fn checkout_branch(&mut self, branch_name: &str) -> (r: Vec<Message>)
        requires
            checkout_ready(old(self)@, branch_name@),
        ensures
            old(self)@.valid() ==> final(self)@.valid() || !clean_name(branch_name@),
            checkout_branch_outcome(old(self)@, branch_name@, printed(r@), final(self)@),
    {
        let ghost s = self@;
        let target_id = match self.branches.get(branch_name) {
            Some(t) => trim_str(t.as_str()),
            None => {
                return err_line("No such branch exists.");
            },
        };
        if compare_str(self.current_branch(), branch_name) == Order::Equal {
            return err_line("No need to checkout the current branch.");
        }
        proof {
            assert(s.commits.contains_key(s.branch_target(branch_name@)));
        }
        let target_commit = self.load_commit(target_id);
        let head_commit = self.get_head_commit();
        match self.check_untracked_files(&head_commit, &target_commit) {
            Err(msg) => {
                let r = vec![Message::Stderr(msg)];
                assert(printed(r@) =~= seq![
                    Line::Stderr(untracked_text()),
                ]);
                return r;
            },
            Ok(()) => {},
        }
        proof {
            assert(s.commits.contains_key(s.branch_target(branch_name@)));
        }
        self.switch_files(&head_commit, &target_commit);
        let mut head = String::from_str("refs/heads/");
        head.append(branch_name);
        self.set_head(head.as_str());
        self.save_index(&Index::new());
        proof {
            assert(self@ == checked_out(s, branch_name@));
            if clean_name(branch_name@) && s.valid() {
                lemma_checkout_keeps_valid(s, branch_name@);
            }
        }
        let r: Vec<Message> = Vec::new();
        assert(printed(r@) =~= Seq::<Line>::empty());
        r
    }

    /// Moves the current branch to the commit whose id begins with
    /// `commit_id`, checking out its files and clearing the staging area.
    #[verifier::rlimit(30)]
    pub fn reset(&mut self, commit_id: &str) -> (r: Vec<Message>)
        requires
            some_with_prefix(old(self)@, commit_id@),
            head_stored(old(self)@),
            !untracked_in_way(
                old(self)@,
                old(self)@.head_commit().files(),
                old(self)@.commits[prefix_match(old(self)@, commit_id@)].files(),
            ) ==> blobs_present(
                old(self)@,
                old(self)@.commits[prefix_match(old(self)@, commit_id@)].files(),
            ),
        ensures
            old(self)@.valid() ==> final(self)@.valid(),
            reset_outcome(old(self)@, commit_id@, printed(r@), final(self)@),
    {
        let ghost s = self@;
        let full_commit_id = match self.find_commit_by_prefix(commit_id) {
            Ok(id) => id,
            Err(_) => {
                proof {
                    assert(false);
                }
                return Vec::new();
            },
        };
        let target_commit = self.load_commit(full_commit_id.as_str());
        let head_commit = self.get_head_commit();
        match self.check_untracked_files(&head_commit, &target_commit) {
            Err(msg) => {
                let r = vec![Message::Stderr(msg)];
                assert(printed(r@) =~= seq![
                    Line::Stderr(untracked_text()),
                ]);
                return r;
            },
            Ok(()) => {},
        }
        self.switch_files(&head_commit, &target_commit);
        let cur = String::from_str(self.current_branch());
        self.branches.insert(cur, full_commit_id);
        self.save_index(&Index::new());
        proof {
            assert(self@ == reset_to(s, full_commit_id@));
            if s.valid() {
                lemma_reset_keeps_valid(s, full_commit_id@);
            }
        }
        let r: Vec<Message> = Vec::new();
        assert(printed(r@) =~= Seq::<Line>::empty());
        r
    }
}


/// `s` after staging the working file `f` for addition.
pub open spec fn added(s: RepoView, f: Seq<char>) -> RepoView {
    let c = s.working[f];
    let id = blob_id(c);
    if s.head_commit().files().contains_key(f) && s.head_commit().files()[f] == id {
        RepoView { index: IndexView { files: s.index.files.remove(f), ..s.index }, ..s }
    } else {
        RepoView {
            blobs: s.blobs.insert(id, c),
            index: IndexView { files: s.index.files.insert(f, id), removed: s.index.removed.remove(f) },
            ..s
        }
    }
}

/// `s` after staging `f` for removal.
pub open spec fn removed_file(s: RepoView, f: Seq<char>) -> RepoView {
    if s.head_commit().files().contains_key(f) {
        RepoView {
            index: IndexView { files: s.index.files.remove(f), removed: s.index.removed.insert(f) },
            working: s.working.remove(f),
            ..s
        }
    } else {
        RepoView { index: IndexView { files: s.index.files.remove(f), ..s.index }, ..s }
    }
}

/// Staging a working file keeps a store valid.
pub proof fn lemma_added_valid(s: RepoView, f: Seq<char>)
    requires
        s.valid(),
        s.working.contains_key(f),
    ensures
        added(s, f).valid(),
{
    let t = added(s, f);
    assert forall|k: Seq<char>, g: Seq<char>| #[trigger] t.commits.contains_key(k)
        && #[trigger] t.commits[k].files().contains_key(g) implies t.blobs.contains_key(
        t.commits[k].files()[g],
    ) by {
        assert(s.commits.contains_key(k) && s.commits[k].files().contains_key(g));
    }
    assert forall|g: Seq<char>| #[trigger] t.index.files.contains_key(g) implies t.blobs.contains_key(
        t.index.files[g],
    ) by {
        if g != f {
            assert(s.index.files.contains_key(g));
        }
    }
}

/// Creating a branch at the head commit keeps a store valid.
pub proof fn lemma_branch_valid(s: RepoView, name: Seq<char>)
    requires
        s.valid(),
    ensures
        (RepoView { branches: s.branches.insert(name, commit_id(s.head_commit())), ..s }).valid(),
{
    let t = RepoView { branches: s.branches.insert(name, commit_id(s.head_commit())), ..s };
    assert(s.commits.contains_key(s.head_id()));
    lemma_trim_id(s.head_commit());
    assert(t.current_branch() == s.current_branch());
    assert forall|b: Seq<char>| #[trigger] t.branches.contains_key(b) implies t.commits.contains_key(
        t.branch_target(b),
    ) by {
        if b != name {
            assert(s.commits.contains_key(s.branch_target(b)));
        }
    }
}

/// What `add FILE` prints and leaves.
pub open spec fn add_outcome(s: RepoView, f: Seq<char>, lines: Seq<Line>, t: RepoView) -> bool {
    if s.working.contains_key(f) {
        lines == Seq::<Line>::empty() && t == added(s, f)
    } else {
        lines == seq![Line::Stderr("File does not exist."@)] && t == s
    }
}

/// What `rm FILE` prints and leaves.
pub open spec fn rm_outcome(s: RepoView, f: Seq<char>, lines: Seq<Line>, t: RepoView) -> bool {
    if s.index.files.contains_key(f) || s.head_commit().files().contains_key(f) {
        lines == Seq::<Line>::empty() && t == removed_file(s, f)
    } else {
        lines == seq![Line::Stderr("No reason to remove the file."@)] && t == s
    }
}

/// What `commit MESSAGE` prints and leaves: a new head commit whose only
/// free part is its time.
pub open spec fn commit_outcome(s: RepoView, message: Seq<char>, lines: Seq<Line>, t: RepoView) -> bool {
    if trim(message).len() == 0 {
        lines == seq![Line::Stderr("Please enter a commit message."@)] && t == s
    } else if s.index == empty_index() {
        lines == seq![Line::Stderr("No changes added to the commit."@)] && t == s
    } else {
        lines == Seq::<Line>::empty() && exists|c: CommitView|
            next_commit(s, message, c) && t == with_commit(s, c)
    }
}

/// What `branch NAME` prints and leaves.
pub open spec fn branch_outcome(s: RepoView, name: Seq<char>, lines: Seq<Line>, t: RepoView) -> bool {
    if s.branches.contains_key(name) {
        lines == seq![Line::Stderr("A branch with that name already exists."@)] && t == s
    } else {
        lines == Seq::<Line>::empty() && t == (RepoView {
            branches: s.branches.insert(name, commit_id(s.head_commit())),
            ..s
        })
    }
}

/// What `rm-branch NAME` prints and leaves.
pub open spec fn rm_branch_outcome(s: RepoView, name: Seq<char>, lines: Seq<Line>, t: RepoView) -> bool {
    if !s.branches.contains_key(name) {
        lines == seq![Line::Stderr("A branch with that name does not exist."@)] && t == s
    } else if name == s.current_branch() {
        lines == seq![Line::Stderr("Cannot remove the current branch."@)] && t == s
    } else {
        lines == Seq::<Line>::empty() && t == (RepoView { branches: s.branches.remove(name), ..s })
    }
}

impl Repository {
    /// Stages the working file `filename` for the next commit.
    #[verifier::rlimit(30)]
    pub fn add_file(&mut self, filename: &str) -> (r: Vec<Message>)
        requires
            old(self)@.working.contains_key(filename@) ==> head_stored(old(self)@),
        ensures
            old(self)@.valid() ==> final(self)@.valid(),
            add_outcome(old(self)@, filename@, printed(r@), final(self)@),
    {
        let ghost s = self@;
        let data = match self.working.get(filename) {
            Some(d) => d.duplicate(),
            None => {
                return err_line("File does not exist.");
            },
        };
        let blob = Blob::new(data);
        let blob_id = blob.get_id();
        let head_commit = self.get_head_commit();
        let r: Vec<Message> = Vec::new();
        assert(printed(r@) =~= Seq::<Line>::empty());
        match head_commit.tree.get(filename) {
            Some(existing) => {
                if compare_str(existing.as_str(), blob_id.as_str()) == Order::Equal {
                    let mut index = self.load_index();
                    index.files.remove(filename);
                    self.save_index(&index);
                    proof {
                        assert(self@ == added(s, filename@));
                        if s.valid() {
                            lemma_added_valid(s, filename@);
                        }
                    }
                    return r;
                }
            },
            None => {},
        }
        self.save_blob(&blob);
        let mut index = self.load_index();
        index.files.insert(String::from_str(filename), blob_id);
        index.removed.remove(filename);
        self.save_index(&index);
        proof {
            assert(self@ == added(s, filename@));
            if s.valid() {
                lemma_added_valid(s, filename@);
            }
        }
        r
    }

    /// Unstages `filename`, and when the head commit tracks it, stages it
    /// for removal and deletes it from the working directory.
    #[verifier::rlimit(30)]
    pub fn rm_file(&mut self, filename: &str) -> (r: Vec<Message>)
        requires
            head_stored(old(self)@),
        ensures
            old(self)@.valid() ==> final(self)@.valid(),
            rm_outcome(old(self)@, filename@, printed(r@), final(self)@),
    {
        let ghost s = self@;
        let mut index = self.load_index();
        let head_commit = self.get_head_commit();
        let staged = index.files.contains_key(filename);
        let in_head = head_commit.tree.contains_key(filename);
        if !staged && !in_head {
            return err_line("No reason to remove the file.");
        }
        if staged {
            index.files.remove(filename);
        }
        if in_head {
            index.removed.insert(String::from_str(filename));
            self.working.remove(filename);
        }
        self.save_index(&index);
        proof {
            if !staged {
                assert(s.index.files.remove(filename@) =~= s.index.files);
            }
            assert(self@ == removed_file(s, filename@));
        }
        let r: Vec<Message> = Vec::new();
        assert(printed(r@) =~= Seq::<Line>::empty());
        r
    }

    /// Commits the staging area with `message`.
    #[verifier::rlimit(30)]
    pub fn commit(&mut self, message: &str) -> (r: Vec<Message>)
        requires
            trim(message@).len() > 0 && old(self)@.index != empty_index() ==> head_stored(old(self)@),
        ensures
            old(self)@.valid() ==> final(self)@.valid(),
            commit_outcome(old(self)@, message@, printed(r@), final(self)@),
    {
        if trim_str(message).is_empty() {
            return err_line("Please enter a commit message.");
        }
        let index = self.load_index();
        if index.is_clear() {
            proof {
                assert(self@.index == empty_index());
            }
            return err_line("No changes added to the commit.");
        }
        self.merge_commit(message);
        let r: Vec<Message> = Vec::new();
        assert(printed(r@) =~= Seq::<Line>::empty());
        r
    }

    /// Creates the branch `branch_name` at the head commit.
    #[verifier::rlimit(30)]
    pub fn branch(&mut self, branch_name: &str) -> (r: Vec<Message>)
        requires
            !old(self)@.branches.contains_key(branch_name@) ==> head_stored(old(self)@),
        ensures
            old(self)@.valid() ==> final(self)@.valid(),
            branch_outcome(old(self)@, branch_name@, printed(r@), final(self)@),
    {
        let ghost s = self@;
        if self.branches.contains_key(branch_name) {
            return err_line("A branch with that name already exists.");
        }
        let head_commit = self.get_head_commit();
        let commit_id = head_commit.get_id();
        proof {
            assert(s.commits.contains_key(s.head_id()));
        }
        self.create_branch(branch_name, commit_id.as_str());
        proof {
            if s.valid() {
                lemma_branch_valid(s, branch_name@);
            }
        }
        let r: Vec<Message> = Vec::new();
        assert(printed(r@) =~= Seq::<Line>::empty());
        r
    }

    /// Deletes the branch `branch_name`.
    #[verifier::rlimit(30)]
    pub fn rm_branch(&mut self, branch_name: &str) -> (r: Vec<Message>)
        ensures
            old(self)@.valid() ==> final(self)@.valid(),
            rm_branch_outcome(old(self)@, branch_name@, printed(r@), final(self)@),
    {
        let ghost s = self@;
        if !self.branches.contains_key(branch_name) {
            return err_line("A branch with that name does not exist.");
        }
        if compare_str(self.current_branch(), branch_name) == Order::Equal {
            return err_line("Cannot remove the current branch.");
        }
        self.branches.remove(branch_name);
        proof {
            let t = self@;
            assert(t == (RepoView { branches: s.branches.remove(branch_name@), ..s }));
            if s.valid() {
                assert(t.current_branch() == s.current_branch());
                assert forall|b: Seq<char>| #[trigger] t.branches.contains_key(b) implies t.commits.contains_key(
                    t.branch_target(b),
                ) by {
                    assert(s.commits.contains_key(s.branch_target(b)));
                }
                assert(t.valid());
            }
        }
        let r: Vec<Message> = Vec::new();
        assert(printed(r@) =~= Seq::<Line>::empty());
        r
    }
}


/// Lines on standard output, one per text.
pub open spec fn out_lines(texts: Seq<Seq<char>>) -> Seq<Line> {
    texts.map_values(|t: Seq<char>| Line::Stdout(t))
}

/// How `status` lists a branch: the current one marked with `*`.
pub open spec fn branch_mark(b: Seq<char>, current: Seq<char>) -> Seq<char> {
    if b == current {
        seq!['*'] + b
    } else {
        b
    }
}

/// The ids of the commits named by `ids` whose message is `m`, in order.
pub open spec fn ids_with_message(
    commits: Map<Seq<char>, CommitView>,
    ids: Seq<Seq<char>>,
    m: Seq<char>,
) -> Seq<Seq<char>>
    decreases ids.len(),
{
    if ids.len() == 0 {
        Seq::empty()
    } else {
        ids_with_message(commits, ids.drop_last(), m) + if commits[ids.last()].message == m {
            seq![commit_id(commits[ids.last()])]
        } else {
            Seq::empty()
        }
    }
}

/// What `log` prints: the entries of the head commit and its ancestors,
/// newest first, each under the date its time reads as.
pub open spec fn log_outcome(s: RepoView, lines: Seq<Line>) -> bool {
    let h = s.history(s.head_id());
    &&& lines.len() == h.len()
    &&& forall|i: int| 0 <= i < lines.len() ==> is_log_entry(#[trigger] lines[i], s.commits[h[i]])
}

/// What `global-log` prints: the entry of every stored commit, in id order.
pub open spec fn global_log_outcome(s: RepoView, lines: Seq<Line>) -> bool {
    let ids = sorted_list(s.commits.dom());
    &&& lines.len() == ids.len()
    &&& forall|i: int| 0 <= i < lines.len() ==> is_log_entry(#[trigger] lines[i], s.commits[ids[i]])
}

/// What `find MESSAGE` prints: the ids of the commits with that message,
/// in id order, or a notice that there is none.
pub open spec fn find_outcome(s: RepoView, message: Seq<char>, lines: Seq<Line>) -> bool {
    let found = ids_with_message(s.commits, sorted_list(s.commits.dom()), message);
    if found.len() == 0 {
        lines == seq![Line::Stdout("Found no commit with that message."@)]
    } else {
        lines == out_lines(found)
    }
}

/// What `status` prints: the branches with the current one marked, the
/// staged files and the files staged for removal, each in name order.
pub open spec fn status_lines(s: RepoView) -> Seq<Line> {
    seq![Line::Stdout("Branches:"@)] + out_lines(
        sorted_list(s.branches.dom()).map_values(|b: Seq<char>| branch_mark(b, s.current_branch())),
    ) + seq![Line::Stdout("Staged Files:"@)] + out_lines(sorted_list(s.index.files.dom())) + seq![
        Line::Stdout("Removed Files:"@),
    ] + out_lines(sorted_list(s.index.removed))
}

/// The texts of a list of strings.
pub open spec fn names_of(v: Seq<String>) -> Seq<Seq<char>> {
    v.map_values(|k: String| k@)
}

/// `line` is the log entry of `c` on standard output, under some date.
pub open spec fn is_log_entry(line: Line, c: CommitView) -> bool {
    exists|d: Seq<char>| line == Line::Stdout(log_text(c, d))
}

/// Every id met along parents is a stored commit.
pub proof fn lemma_walk_stored(commits: Map<Seq<char>, CommitView>, id: Seq<char>, fuel: nat)
    ensures
        forall|j: int|
            0 <= j < walk(commits, id, fuel).len() ==> #[trigger] commits.contains_key(
                walk(commits, id, fuel)[j],
            ),
    decreases fuel,
{
    if fuel > 0 && commits.contains_key(id) {
        match commits[id].parent {
            None => {},
            Some(p) => {
                lemma_walk_stored(commits, p, (fuel - 1) as nat);
                let w = walk(commits, id, fuel);
                let t = walk(commits, p, (fuel - 1) as nat);
                assert(w == seq![id] + t);
                assert forall|j: int| 0 <= j < w.len() implies #[trigger] commits.contains_key(
                    w[j],
                ) by {
                    if j > 0 {
                        assert(w[j] == t[j - 1]);
                    }
                }
            },
        }
    }
}

impl Repository {
    /// The ids from `id` back along parents, as far as they are stored.
    #[verifier::rlimit(30)]
    pub fn history_ids(&self, id: &str) -> (r: Vec<String>)
        ensures
            names_of(r@) == self@.history(id@),
    {
        let cs = &self.commits;
        proof {
            use_type_invariant(cs);
            cs.lemma_facts();
        }
        let ghost commits = self@.commits;
        let ghost h = self@.history(id@);
        let mut r: Vec<String> = Vec::new();
        let mut cur = String::from_str(id);
        let n = cs.len();
        let mut fuel: usize = n;
        assert(names_of(r@) + walk(commits, cur@, fuel as nat) =~= h);
        while fuel > 0
            invariant
                cs == &self.commits,
                commits == cs@,
                names_of(r@) + walk(commits, cur@, fuel as nat) == h,
            decreases fuel,
        {
            match cs.get(cur.as_str()) {
                None => {
                    fuel = 0;
                },
                Some(c) => {
                    let ghost before = r@;
                    let ghost prev = cur@;
                    r.push(cur.clone());
                    proof {
                        assert(names_of(r@) =~= names_of(before).push(prev));
                    }
                    match &c.parent {
                        None => {
                            proof {
                                assert(walk(commits, prev, fuel as nat) =~= seq![prev]);
                                assert(names_of(r@) + walk(commits, prev, 0) =~= h);
                            }
                            fuel = 0;
                        },
                        Some(p) => {
                            cur = p.clone();
                            fuel = fuel - 1;
                            proof {
                                assert(walk(commits, prev, (fuel + 1) as nat) =~= seq![prev] + walk(
                                    commits,
                                    cur@,
                                    fuel as nat,
                                ));
                                assert(names_of(r@) + walk(commits, cur@, fuel as nat) =~= h);
                            }
                        },
                    }
                },
            }
        }
        assert(names_of(r@) =~= h);
        r
    }

    /// The log entries of the head commit and its ancestors, newest first.
    #[verifier::rlimit(30)]
    pub fn log(&self) -> (r: Vec<Message>)
        requires
            head_stored(self@),
            chain_closed(self@, self@.head_id()),
        ensures
            log_outcome(self@, printed(r@)),
    {
        let ids = self.history_ids(self.head_id());
        let ghost h = self@.history(self@.head_id());
        proof {
            lemma_walk_stored(self@.commits, self@.head_id(), self@.commits.dom().len());
        }
        let mut r: Vec<Message> = Vec::new();
        let n = ids.len();
        let mut i: usize = 0;
        while i < n
            invariant
                n == ids@.len(),
                names_of(ids@) == h,
                h == self@.history(self@.head_id()),
                forall|j: int| 0 <= j < h.len() ==> #[trigger] self@.commits.contains_key(h[j]),
                i <= n,
                r@.len() == i,
                forall|j: int|
                    #![trigger r@[j]]
                    0 <= j < i ==> is_log_entry(r@[j]@, self@.commits[h[j]]),
            decreases n - i,
        {
            proof {
                assert(h[i as int] == ids@[i as int]@);
                assert(self@.commits.contains_key(h[i as int]));
            }
            let c = self.load_commit(ids[i].as_str());
            let entry = c.get_log();
            let ghost d = choose|d: Seq<char>| entry@ == log_text(c@, d);
            let ghost before = r@;
            r.push(out(entry));
            proof {
                assert(r@[i as int]@ == Line::Stdout(log_text(c@, d)));
                assert forall|j: int| 0 <= j < i + 1 implies #[trigger] is_log_entry(
                    r@[j]@,
                    self@.commits[h[j]],
                ) by {
                    if j < i {
                        assert(r@[j] == before[j]);
                    }
                }
            }
            i = i + 1;
        }
        assert forall|j: int| 0 <= j < printed(r@).len() implies is_log_entry(
            #[trigger] printed(r@)[j],
            self@.commits[h[j]],
        ) by {
            assert(printed(r@)[j] == r@[j]@);
        }
        r
    }

    /// The log entries of every stored commit, in id order.
    #[verifier::rlimit(30)]
    pub fn global_log(&self) -> (r: Vec<Message>)
        ensures
            global_log_outcome(self@, printed(r@)),
    {
        let cs = &self.commits;
        proof {
            use_type_invariant(cs);
            cs.lemma_facts();
            cs.lemma_keys_sorted();
        }
        let ghost ids = keys_of(cs.entries());
        let mut r: Vec<Message> = Vec::new();
        let n = cs.len();
        let mut i: usize = 0;
        while i < n
            invariant
                n == cs.entries().len(),
                cs == &self.commits,
                ids == keys_of(cs.entries()),
                forall|j: int|
                    #![trigger cs.entries()[j]]
                    0 <= j < cs.entries().len() ==> cs@.contains_key(cs.entries()[j].0)
                        && cs@[cs.entries()[j].0] == cs.entries()[j].1,
                i <= n,
                r@.len() == i,
                forall|j: int|
                    #![trigger r@[j]]
                    0 <= j < i ==> is_log_entry(r@[j]@, self@.commits[ids[j]]),
            decreases n - i,
        {
            let c = cs.value_at(i);
            let entry = c.get_log();
            let ghost d = choose|d: Seq<char>| entry@ == log_text(c@, d);
            let ghost before = r@;
            r.push(out(entry));
            proof {
                assert(cs.entries()[i as int].1 == self@.commits[ids[i as int]]);
                assert(r@[i as int]@ == Line::Stdout(log_text(c@, d)));
                assert forall|j: int| 0 <= j < i + 1 implies #[trigger] is_log_entry(
                    r@[j]@,
                    self@.commits[ids[j]],
                ) by {
                    if j < i {
                        assert(r@[j] == before[j]);
                    }
                }
            }
            i = i + 1;
        }
        assert forall|j: int| 0 <= j < printed(r@).len() implies is_log_entry(
            #[trigger] printed(r@)[j],
            self@.commits[ids[j]],
        ) by {
            assert(printed(r@)[j] == r@[j]@);
        }
        r
    }

    /// The ids of the stored commits whose message is `message`, in id order.
    #[verifier::rlimit(30)]
    pub fn find(&self, message: &str) -> (r: Vec<Message>)
        ensures
            find_outcome(self@, message@, printed(r@)),
    {
        let cs = &self.commits;
        proof {
            use_type_invariant(cs);
            cs.lemma_facts();
            cs.lemma_keys_sorted();
        }
        let ghost ids = keys_of(cs.entries());
        let ghost commits = self@.commits;
        let mut r: Vec<Message> = Vec::new();
        let n = cs.len();
        let mut i: usize = 0;
        assert(ids.subrange(0, 0) =~= Seq::<Seq<char>>::empty());
        while i < n
            invariant
                n == cs.entries().len(),
                cs == &self.commits,
                commits == cs@,
                ids == keys_of(cs.entries()),
                forall|j: int|
                    #![trigger cs.entries()[j]]
                    0 <= j < cs.entries().len() ==> cs@.contains_key(cs.entries()[j].0)
                        && cs@[cs.entries()[j].0] == cs.entries()[j].1,
                i <= n,
                printed(r@) == out_lines(ids_with_message(commits, ids.subrange(0, i as int), message@)),
            decreases n - i,
        {
            let c = cs.value_at(i);
            let ghost before = r@;
            let ghost sub = ids.subrange(0, i + 1);
            proof {
                assert(sub.drop_last() =~= ids.subrange(0, i as int));
                assert(sub.last() == ids[i as int]);
                assert(cs.entries()[i as int].1 == commits[ids[i as int]]);
            }
            if compare_str(c.message.as_str(), message) == Order::Equal {
                r.push(out(c.get_id()));
                proof {
                    lemma_printed_push(before, r@.last());
                    assert(r@ == before.push(r@.last()));
                    assert(ids_with_message(commits, sub, message@) == ids_with_message(
                        commits,
                        ids.subrange(0, i as int),
                        message@,
                    ) + seq![commit_id(c@)]);
                    assert(printed(r@) =~= out_lines(ids_with_message(commits, sub, message@)));
                }
            } else {
                proof {
                    assert(ids_with_message(commits, sub, message@) =~= ids_with_message(
                        commits,
                        ids.subrange(0, i as int),
                        message@,
                    ));
                }
            }
            i = i + 1;
        }
        assert(ids.subrange(0, n as int) =~= ids);
        if r.len() == 0 {
            let mut z: Vec<Message> = Vec::new();
            z.push(out(String::from_str("Found no commit with that message.")));
            assert(printed(z@) =~= seq![Line::Stdout("Found no commit with that message."@)]);
            return z;
        }
        r
    }

    /// Appends the branch section of `status`.
    #[verifier::rlimit(30)]
    fn get_branches(&self, r: &mut Vec<Message>)
        ensures
            printed(final(r)@) == printed(old(r)@) + seq![Line::Stdout("Branches:"@)]
                + out_lines(
                keys_of(self.branches.entries()).map_values(
                    |b: Seq<char>| branch_mark(b, self@.current_branch()),
                ),
            ),
    {
        let ghost r0 = printed(r@);
        let ghost rr = r@;
        r.push(out(String::from_str("Branches:")));
        proof {
            lemma_printed_push(rr, r@.last());
            assert(r@ == rr.push(r@.last()));
        }
        let current = self.current_branch();
        let bs = &self.branches;
        let ghost names = keys_of(bs.entries()).map_values(
            |b: Seq<char>| branch_mark(b, self@.current_branch()),
        );
        let n = bs.len();
        let mut i: usize = 0;
        assert(printed(r@) =~= r0 + seq![Line::Stdout("Branches:"@)] + out_lines(names.subrange(0, 0)));
        while i < n
            invariant
                n == bs.entries().len(),
                bs == &self.branches,
                current@ == self@.current_branch(),
                names == keys_of(bs.entries()).map_values(
                    |b: Seq<char>| branch_mark(b, self@.current_branch()),
                ),
                i <= n,
                printed(r@) == r0 + seq![Line::Stdout("Branches:"@)] + out_lines(
                    names.subrange(0, i as int),
                ),
            decreases n - i,
        {
            let b = bs.key_at(i);
            let ghost r_before = r@;
            if compare_str(b.as_str(), current) == Order::Equal {
                let mut line = String::from_str("*");
                line.append(b.as_str());
                proof {
                    reveal_strlit("*");
                    assert("*"@ =~= seq!['*']);
                }
                r.push(out(line));
            } else {
                r.push(out(b.clone()));
            }
            proof {
                assert(keys_of(bs.entries())[i as int] == b@);
                assert(names[i as int] == branch_mark(b@, current@));
                lemma_printed_push(r_before, r@.last());
                assert(r@ == r_before.push(r@.last()));
                assert(r@.last()@ == Line::Stdout(names[i as int]));
                assert(out_lines(names.subrange(0, i + 1)) =~= out_lines(names.subrange(0, i as int)).push(
                    Line::Stdout(names[i as int]),
                ));
                assert(printed(r@) =~= r0 + seq![Line::Stdout("Branches:"@)] + out_lines(
                    names.subrange(0, i + 1),
                ));
            }
            i = i + 1;
        }
        assert(names.subrange(0, n as int) =~= names);
    }

    /// Appends a titled list of names.
    #[verifier::rlimit(30)]
    fn push_names(r: &mut Vec<Message>, title: &str, names: &Vec<String>)
        ensures
            printed(final(r)@) == printed(old(r)@) + seq![Line::Stdout(title@)] + out_lines(
                names@.map_values(|k: String| k@),
            ),
    {
        let ghost r0 = printed(r@);
        let ghost ns = names@.map_values(|k: String| k@);
        let ghost rr = r@;
        r.push(out(String::from_str(title)));
        proof {
            lemma_printed_push(rr, r@.last());
            assert(r@ == rr.push(r@.last()));
        }
        let n = names.len();
        let mut i: usize = 0;
        assert(printed(r@) =~= r0 + seq![Line::Stdout(title@)] + out_lines(ns.subrange(0, 0)));
        while i < n
            invariant
                n == names@.len(),
                ns == names@.map_values(|k: String| k@),
                i <= n,
                printed(r@) == r0 + seq![Line::Stdout(title@)] + out_lines(ns.subrange(0, i as int)),
            decreases n - i,
        {
            let ghost r_before = r@;
            r.push(out(names[i].clone()));
            proof {
                lemma_printed_push(r_before, r@.last());
                assert(r@ == r_before.push(r@.last()));
                assert(r@.last()@ == Line::Stdout(ns[i as int]));
                assert(out_lines(ns.subrange(0, i + 1)) =~= out_lines(ns.subrange(0, i as int)).push(
                    Line::Stdout(ns[i as int]),
                ));
                assert(printed(r@) =~= r0 + seq![Line::Stdout(title@)] + out_lines(
                    ns.subrange(0, i + 1),
                ));
            }
            i = i + 1;
        }
        assert(ns.subrange(0, n as int) =~= ns);
    }

    /// Appends the staged-files section of `status`.
    fn get_staged_files(&self, r: &mut Vec<Message>)
        ensures
            printed(final(r)@) == printed(old(r)@) + seq![Line::Stdout("Staged Files:"@)] + out_lines(
                keys_of(self.index.files.entries()),
            ),
    {
        let names = self.index.files.keys();
        Self::push_names(r, "Staged Files:", &names);
    }

    /// Appends the removed-files section of `status`.
    fn get_removed_files(&self, r: &mut Vec<Message>)
        ensures
            printed(final(r)@) == printed(old(r)@) + seq![Line::Stdout("Removed Files:"@)] + out_lines(
                self.index.removed.list(),
            ),
    {
        let names = self.index.removed.names();
        Self::push_names(r, "Removed Files:", &names);
    }

    /// The branches, the current one marked, then the staged files and the
    /// files staged for removal, each list in name order.
    pub fn status(&self) -> (r: Vec<Message>)
        ensures
            printed(r@) == status_lines(self@),
    {
        proof {
            use_type_invariant(&self.branches);
            use_type_invariant(&self.index.files);
            use_type_invariant(&self.index.removed);
            self.branches.lemma_keys_sorted();
            self.index.files.lemma_keys_sorted();
            self.index.removed.lemma_list_sorted();
        }
        let mut r: Vec<Message> = Vec::new();
        assert(printed(r@) =~= Seq::<Line>::empty());
        self.get_branches(&mut r);
        self.get_staged_files(&mut r);
        self.get_removed_files(&mut r);
        assert(Seq::<Line>::empty() + seq![Line::Stdout("Branches:"@)] =~= seq![
            Line::Stdout("Branches:"@),
        ]);
        r
    }
}

} // verus!
