//! Merging a branch into the current one: the split point of two
//! histories, the rule that decides each file, and the `merge` command.

use vstd::prelude::*;
use vstd::utf8::encode_utf8;
use crate::text::{compare_str, trim_str, Order};
use crate::filemap::{
    FileMap, NameSet, Duplicate, keys_of, strictly_sorted, sorted_list,
    lemma_sorted_lists_equal,
};
use crate::commit::Commit;
use crate::blob::{Blob, blob_id};
use crate::index::{Index, IndexView};
use crate::repository::{
    Repository, RepoView, names_of, Message, Line, printed, out, err_line, empty_index,
    untracked_in_way, checked_out, clean_name, next_commit, with_commit, blobs_present,
    lemma_walk_stored, lemma_printed_push, untracked_text,
};
use crate::commit::commit_id;

verus! {

/// What a merge does with one file.
#[derive(Debug, Clone, Copy, PartialEq, Eq, Structural)]
pub enum MergeAction {
    /// Take the given branch's version and stage it.
    TakeGiven,
    /// Leave the file as the current commit has it.
    Keep,
    /// Delete the file and stage its removal.
    Remove,
    /// Write both versions between conflict markers and stage the result.
    Conflict,
}

/// The action for a file whose blob ids are `split` at the split point,
/// `current` in the current commit and `given` in the given commit (each
/// `None` where that commit does not track the file).
pub open spec fn merge_rule(
    split: Option<Seq<char>>,
    current: Option<Seq<char>>,
    given: Option<Seq<char>>,
) -> MergeAction {
    match (split, current, given) {
        (Some(s), Some(c), Some(g)) => if s == c && s != g {
            MergeAction::TakeGiven
        } else if (s == g && s != c) || c == g {
            MergeAction::Keep
        } else {
            MergeAction::Conflict
        },
        (Some(_), None, None) => MergeAction::Keep,
        (None, Some(_), None) => MergeAction::Keep,
        (None, None, Some(_)) => MergeAction::TakeGiven,
        (Some(s), Some(c), None) => if s == c {
            MergeAction::Remove
        } else {
            MergeAction::Conflict
        },
        (Some(s), None, Some(g)) => if s == g {
            MergeAction::Keep
        } else {
            MergeAction::Conflict
        },
        (None, Some(c), Some(g)) => if c == g {
            MergeAction::Keep
        } else {
            MergeAction::Conflict
        },
        (None, None, None) => MergeAction::Conflict,
    }
}

/// An optional text taken by its characters.
pub open spec fn opt_text(o: Option<&str>) -> Option<Seq<char>> {
    match o {
        Some(t) => Some(t@),
        None => None,
    }
}

/// True when two texts are equal.
fn same(a: &str, b: &str) -> (r: bool)
    ensures
        r == (a@ == b@),
{
    compare_str(a, b) == Order::Equal
}

/// The action a merge takes for a file with these blob ids.
pub fn merge_action(split: Option<&str>, current: Option<&str>, given: Option<&str>) -> (r:
    MergeAction)
    ensures
        r == merge_rule(opt_text(split), opt_text(current), opt_text(given)),
{
    match (split, current, given) {
        (Some(s), Some(c), Some(g)) => {
            if same(s, c) && !same(s, g) {
                MergeAction::TakeGiven
            } else if (same(s, g) && !same(s, c)) || same(c, g) {
                MergeAction::Keep
            } else {
                MergeAction::Conflict
            }
        },
        (Some(_), None, None) => MergeAction::Keep,
        (None, Some(_), None) => MergeAction::Keep,
        (None, None, Some(_)) => MergeAction::TakeGiven,
        (Some(s), Some(c), None) => {
            if same(s, c) {
                MergeAction::Remove
            } else {
                MergeAction::Conflict
            }
        },
        (Some(s), None, Some(g)) => {
            if same(s, g) {
                MergeAction::Keep
            } else {
                MergeAction::Conflict
            }
        },
        (None, Some(c), Some(g)) => {
            if same(c, g) {
                MergeAction::Keep
            } else {
                MergeAction::Conflict
            }
        },
        (None, None, None) => MergeAction::Conflict,
    }
}

/// The first id of `later` that `earlier` also holds; the last id of
/// `later` when there is none.
pub open spec fn first_shared(later: Seq<Seq<char>>, earlier: Seq<Seq<char>>) -> Seq<char>
    decreases later.len(),
{
    if later.len() == 0 {
        Seq::empty()
    } else if earlier.contains(later[0]) || later.len() == 1 {
        later[0]
    } else {
        first_shared(later.drop_first(), earlier)
    }
}

/// The split point of the commits `a` and `b`: the nearest ancestor of `b`
/// (itself included) that is also an ancestor of `a`.
pub open spec fn split_point(s: RepoView, a: Seq<char>, b: Seq<char>) -> Seq<char> {
    first_shared(s.history(b), s.history(a))
}

/// True when `name` is one of `v`.
fn contains_name(v: &Vec<String>, name: &str) -> (r: bool)
    ensures
        r == names_of(v@).contains(name@),
{
    let n = v.len();
    let mut i: usize = 0;
    while i < n
        invariant
            n == v@.len(),
            i <= n,
            forall|j: int| 0 <= j < i ==> #[trigger] v@[j]@ != name@,
        decreases n - i,
    {
        if same(v[i].as_str(), name) {
            assert(names_of(v@)[i as int] == name@);
            return true;
        }
        i = i + 1;
    }
    proof {
        if names_of(v@).contains(name@) {
            let j = choose|j: int| 0 <= j < names_of(v@).len() && names_of(v@)[j] == name@;
            assert(v@[j]@ == name@);
        }
    }
    false
}

impl Repository {
    /// The split point of the commits `commit1_id` and `commit2_id`.
    #[verifier::rlimit(30)]
    pub fn find_split_point(&self, commit1_id: &str, commit2_id: &str) -> (r: String)
        requires
            self@.valid(),
            self@.commits.contains_key(commit1_id@),
            self@.commits.contains_key(commit2_id@),
        ensures
            r@ == split_point(self@, commit1_id@, commit2_id@),
    {
        let ancestors = self.history_ids(commit1_id);
        let chain = self.history_ids(commit2_id);
        let ghost h1 = names_of(ancestors@);
        let ghost h2 = names_of(chain@);
        let n = chain.len();
        let mut i: usize = 0;
        assert(h2.subrange(0, n as int) =~= h2);
        while i < n
            invariant
                n == chain@.len(),
                h1 == names_of(ancestors@),
                h2 == names_of(chain@),
                h1 == self@.history(commit1_id@),
                h2 == self@.history(commit2_id@),
                i <= n,
                first_shared(h2.subrange(i as int, n as int), h1) == first_shared(h2, h1),
            decreases n - i,
        {
            let ghost rest = h2.subrange(i as int, n as int);
            assert(rest[0] == chain@[i as int]@);
            if contains_name(&ancestors, chain[i].as_str()) || i + 1 == n {
                return chain[i].clone();
            }
            assert(rest.drop_first() =~= h2.subrange(i + 1, n as int));
            i = i + 1;
        }
        assert(h2.subrange(n as int, n as int) =~= Seq::<Seq<char>>::empty());
        String::new()
    }
}

/// Adds every name that `t` maps.
#[verifier::rlimit(30)]
fn insert_keys(set: &mut NameSet, t: &FileMap<String>)
    ensures
        final(set)@ == old(set)@.union(t@.dom()),
{
    proof {
        use_type_invariant(t);
        t.lemma_facts();
    }
    let n = t.len();
    let mut i: usize = 0;
    while i < n
        invariant
            n == t.entries().len(),
            i <= n,
            forall|k: Seq<char>| #[trigger]
                set@.contains(k) <==> old(set)@.contains(k) || keys_of(t.entries()).subrange(
                    0,
                    i as int,
                ).contains(k),
        decreases n - i,
    {
        let k = t.key_at(i).clone();
        let ghost kk = k@;
        let ghost before = set@;
        set.insert(k);
        proof {
            let a = keys_of(t.entries()).subrange(0, i as int);
            let b = keys_of(t.entries()).subrange(0, i + 1);
            assert(b =~= a.push(kk));
            assert forall|x: Seq<char>| #[trigger] set@.contains(x) <==> old(set)@.contains(x)
                || b.contains(x) by {
                if a.contains(x) {
                    let p = choose|p: int| 0 <= p < a.len() && a[p] == x;
                    assert(b[p] == x);
                }
                if b.contains(x) && x != kk {
                    let p = choose|p: int| 0 <= p < b.len() && b[p] == x;
                    assert(a[p] == x);
                }
                if x == kk {
                    assert(b[i as int] == x);
                }
            }
        }
        i = i + 1;
    }
    proof {
        assert(keys_of(t.entries()).subrange(0, n as int) =~= keys_of(t.entries()));
        assert(set@ =~= old(set)@.union(t@.dom()));
    }
}

/// Every name that any of the three commits tracks, in increasing order.
#[verifier::rlimit(30)]
pub fn all_files(split: &Commit, current: &Commit, given: &Commit) -> (r: Vec<String>)
    ensures
        names_of(r@) == sorted_list(
            split@.files().dom().union(current@.files().dom()).union(given@.files().dom()),
        ),
{
    let mut set = NameSet::new();
    insert_keys(&mut set, &split.tree);
    insert_keys(&mut set, &current.tree);
    insert_keys(&mut set, &given.tree);
    let r = set.names();
    proof {
        use_type_invariant(&set);
        set.lemma_facts();
        let u = split@.files().dom().union(current@.files().dom()).union(given@.files().dom());
        let l = names_of(r@);
        assert(l == set.list());
        assert(strictly_sorted(l));
        assert forall|x: Seq<char>| #[trigger] l.contains(x) <==> u.contains(x) by {
            if l.contains(x) {
                let p = choose|p: int| 0 <= p < l.len() && l[p] == x;
                assert(set@.contains(l[p]));
            }
            if u.contains(x) {
                assert(set@.contains(x));
            }
        }
        let c = sorted_list(u);
        assert(strictly_sorted(c) && forall|x: Seq<char>| #[trigger] c.contains(x) <==> u.contains(x));
        lemma_sorted_lists_equal(l, c);
    }
    r
}

/// The blob id that a table maps `f` to, if any.
pub open spec fn lookup(files: Map<Seq<char>, Seq<char>>, f: Seq<char>) -> Option<Seq<char>> {
    if files.contains_key(f) {
        Some(files[f])
    } else {
        None
    }
}

/// The action a merge takes for the file `f` of the three tables.
pub open spec fn file_rule(
    f: Seq<char>,
    split: Map<Seq<char>, Seq<char>>,
    current: Map<Seq<char>, Seq<char>>,
    given: Map<Seq<char>, Seq<char>>,
) -> MergeAction {
    merge_rule(lookup(split, f), lookup(current, f), lookup(given, f))
}

/// The contents that a table gives `f`; empty where it does not track it.
pub open spec fn side(
    blobs: Map<Seq<char>, Seq<u8>>,
    files: Map<Seq<char>, Seq<char>>,
    f: Seq<char>,
) -> Seq<u8> {
    if files.contains_key(f) {
        blobs[files[f]]
    } else {
        Seq::empty()
    }
}

/// Both versions of a conflicting file between conflict markers.
pub open spec fn conflict_text(current: Seq<u8>, given: Seq<u8>) -> Seq<u8> {
    encode_utf8("<<<<<<< HEAD\n"@) + current + encode_utf8("=======\n"@) + given + encode_utf8(
        ">>>>>>>\n"@,
    )
}

/// Both versions of a conflicting file between conflict markers.
pub fn conflict_content(current: Vec<u8>, given: Vec<u8>) -> (r: Vec<u8>)
    ensures
        r@ == conflict_text(current@, given@),
{
    let mut r = "<<<<<<< HEAD\n".as_bytes_vec();
    let mut c = current;
    r.append(&mut c);
    let mut m = "=======\n".as_bytes_vec();
    r.append(&mut m);
    let mut g = given;
    r.append(&mut g);
    let mut e = ">>>>>>>\n".as_bytes_vec();
    r.append(&mut e);
    r
}

/// The state after a merge has handled the file `f`: the working
/// directory, the blobs and the staging area change as its action says.
pub open spec fn merge_file(
    st: RepoView,
    f: Seq<char>,
    split: Map<Seq<char>, Seq<char>>,
    current: Map<Seq<char>, Seq<char>>,
    given: Map<Seq<char>, Seq<char>>,
) -> RepoView {
    match file_rule(f, split, current, given) {
        MergeAction::TakeGiven => RepoView {
            working: st.working.insert(f, st.blobs[given[f]]),
            index: IndexView { files: st.index.files.insert(f, given[f]), ..st.index },
            ..st
        },
        MergeAction::Keep => st,
        MergeAction::Remove => RepoView {
            working: st.working.remove(f),
            index: IndexView { removed: st.index.removed.insert(f), ..st.index },
            ..st
        },
        MergeAction::Conflict => {
            let x = conflict_text(side(st.blobs, current, f), side(st.blobs, given, f));
            RepoView {
                working: st.working.insert(f, x),
                blobs: st.blobs.insert(blob_id(x), x),
                index: IndexView { files: st.index.files.insert(f, blob_id(x)), ..st.index },
                ..st
            }
        },
    }
}

/// The state after a merge has handled the files `names` in order.
pub open spec fn merge_files(
    st: RepoView,
    names: Seq<Seq<char>>,
    split: Map<Seq<char>, Seq<char>>,
    current: Map<Seq<char>, Seq<char>>,
    given: Map<Seq<char>, Seq<char>>,
) -> RepoView
    decreases names.len(),
{
    if names.len() == 0 {
        st
    } else {
        merge_file(
            merge_files(st, names.drop_last(), split, current, given),
            names.last(),
            split,
            current,
            given,
        )
    }
}

/// Some file of `names` conflicts.
pub open spec fn has_conflict(
    names: Seq<Seq<char>>,
    split: Map<Seq<char>, Seq<char>>,
    current: Map<Seq<char>, Seq<char>>,
    given: Map<Seq<char>, Seq<char>>,
) -> bool
    decreases names.len(),
{
    names.len() > 0 && (has_conflict(names.drop_last(), split, current, given) || file_rule(
        names.last(),
        split,
        current,
        given,
    ) == MergeAction::Conflict)
}

/// `s` with the staging area `i`.
pub open spec fn with_index(s: RepoView, i: IndexView) -> RepoView {
    RepoView { index: i, ..s }
}

/// Handling one file keeps a store valid, and keeps every blob stored.
#[verifier::rlimit(30)]
pub proof fn lemma_merge_file_valid(
    st: RepoView,
    f: Seq<char>,
    split: Map<Seq<char>, Seq<char>>,
    current: Map<Seq<char>, Seq<char>>,
    given: Map<Seq<char>, Seq<char>>,
)
    requires
        st.valid(),
        blobs_present(st, given),
    ensures
        merge_file(st, f, split, current, given).valid(),
        forall|k: Seq<char>| #[trigger]
            st.blobs.contains_key(k) ==> merge_file(st, f, split, current, given).blobs.contains_key(k),
        blobs_present(merge_file(st, f, split, current, given), given),
{
    let t = merge_file(st, f, split, current, given);
    assert forall|k: Seq<char>, g: Seq<char>| #[trigger] t.commits.contains_key(k)
        && #[trigger] t.commits[k].files().contains_key(g) implies t.blobs.contains_key(
        t.commits[k].files()[g],
    ) by {
        assert(st.commits.contains_key(k) && st.commits[k].files().contains_key(g));
    }
    assert forall|g: Seq<char>| #[trigger] t.index.files.contains_key(g) implies t.blobs.contains_key(
        t.index.files[g],
    ) by {
        if g != f {
            assert(st.index.files.contains_key(g));
        }
    }
}

/// Handling files in turn keeps a store valid.
pub proof fn lemma_merge_files_valid(
    st: RepoView,
    names: Seq<Seq<char>>,
    split: Map<Seq<char>, Seq<char>>,
    current: Map<Seq<char>, Seq<char>>,
    given: Map<Seq<char>, Seq<char>>,
)
    requires
        st.valid(),
        blobs_present(st, given),
    ensures
        merge_files(st, names, split, current, given).valid(),
        blobs_present(merge_files(st, names, split, current, given), given),
        merge_files(st, names, split, current, given) == (RepoView {
            working: merge_files(st, names, split, current, given).working,
            blobs: merge_files(st, names, split, current, given).blobs,
            index: merge_files(st, names, split, current, given).index,
            ..st
        }),
    decreases names.len(),
{
    if names.len() > 0 {
        lemma_merge_files_valid(st, names.drop_last(), split, current, given);
        lemma_merge_file_valid(
            merge_files(st, names.drop_last(), split, current, given),
            names.last(),
            split,
            current,
            given,
        );
    }
}

impl Repository {
    /// Handles the file `f` of a merge, staging into `index`; true when it conflicts.
    #[verifier::rlimit(30)]
    fn merge_one(
        &mut self,
        f: &str,
        split: &Commit,
        current: &Commit,
        given: &Commit,
        index: &mut Index,
    ) -> (conflict: bool)
        requires
            blobs_present(old(self)@, current@.files()),
            blobs_present(old(self)@, given@.files()),
        ensures
            with_index(final(self)@, final(index)@) == merge_file(
                with_index(old(self)@, old(index)@),
                f@,
                split@.files(),
                current@.files(),
                given@.files(),
            ),
            conflict == (file_rule(f@, split@.files(), current@.files(), given@.files())
                == MergeAction::Conflict),
    {
        let s = split.tree.get(f);
        let c = current.tree.get(f);
        let g = given.tree.get(f);
        let so: Option<&str> = match s {
            Some(x) => Some(x.as_str()),
            None => None,
        };
        let co: Option<&str> = match c {
            Some(x) => Some(x.as_str()),
            None => None,
        };
        let go: Option<&str> = match g {
            Some(x) => Some(x.as_str()),
            None => None,
        };
        let action = merge_action(so, co, go);
        match action {
            MergeAction::TakeGiven => {
                let gid = match g {
                    Some(x) => x.clone(),
                    None => {
                        proof {
                            assert(false);
                        }
                        String::new()
                    },
                };
                let _ = self.restore_files_from_commit(given, f);
                index.files.insert(String::from_str(f), gid);
                false
            },
            MergeAction::Keep => false,
            MergeAction::Remove => {
                self.working.remove(f);
                index.removed.insert(String::from_str(f));
                false
            },
            MergeAction::Conflict => {
                let cc = match c {
                    Some(id) => self.load_blob(id.as_str()).content,
                    None => Vec::new(),
                };
                let gc = match g {
                    Some(id) => self.load_blob(id.as_str()).content,
                    None => Vec::new(),
                };
                let content = conflict_content(cc, gc);
                self.working.insert(String::from_str(f), content.duplicate());
                let blob = Blob::new(content);
                self.save_blob(&blob);
                index.files.insert(String::from_str(f), blob.get_id());
                true
            },
        }
    }
}

/// The split point lies on the later history.
pub proof fn lemma_first_shared_in(later: Seq<Seq<char>>, earlier: Seq<Seq<char>>)
    ensures
        later.len() > 0 ==> later.contains(first_shared(later, earlier)),
    decreases later.len(),
{
    if later.len() > 0 {
        if earlier.contains(later[0]) || later.len() == 1 {
            assert(later[0] == first_shared(later, earlier));
        } else {
            lemma_first_shared_in(later.drop_first(), earlier);
            let x = first_shared(later, earlier);
            let p = choose|p: int| 0 <= p < later.len() - 1 && later.drop_first()[p] == x;
            assert(later[p + 1] == x);
        }
    }
}

/// The commit that the branch `name` names.
pub open spec fn given_id(s: RepoView, name: Seq<char>) -> Seq<char> {
    s.branch_target(name)
}

/// The split point of the head commit and the branch `name`.
pub open spec fn merge_base(s: RepoView, name: Seq<char>) -> Seq<char> {
    split_point(s, s.head_id(), given_id(s, name))
}

/// The files of the split point.
pub open spec fn base_files(s: RepoView, name: Seq<char>) -> Map<Seq<char>, Seq<char>> {
    s.commits[merge_base(s, name)].files()
}

/// The files of the branch `name`'s commit.
pub open spec fn given_files(s: RepoView, name: Seq<char>) -> Map<Seq<char>, Seq<char>> {
    s.commits[given_id(s, name)].files()
}

/// Every file that the split point, the head or the branch tracks, in name order.
pub open spec fn merge_names(s: RepoView, name: Seq<char>) -> Seq<Seq<char>> {
    sorted_list(
        base_files(s, name).dom().union(s.head_commit().files().dom()).union(
            given_files(s, name).dom(),
        ),
    )
}

/// The store once every file of a merge with `name` has been handled.
pub open spec fn merged(s: RepoView, name: Seq<char>) -> RepoView {
    merge_files(
        s,
        merge_names(s, name),
        base_files(s, name),
        s.head_commit().files(),
        given_files(s, name),
    )
}

/// Some file of a merge with `name` conflicts.
pub open spec fn merge_conflicts(s: RepoView, name: Seq<char>) -> bool {
    has_conflict(
        merge_names(s, name),
        base_files(s, name),
        s.head_commit().files(),
        given_files(s, name),
    )
}

/// The message of the commit that merges `name` into `current`.
pub open spec fn merge_message(name: Seq<char>, current: Seq<char>) -> Seq<char> {
    "Merged "@ + name + " into "@ + current + "."@
}

/// Nothing is staged, the branch exists and it is not the current one.
pub open spec fn merge_ready(s: RepoView, name: Seq<char>) -> bool {
    &&& s.index == empty_index()
    &&& s.branches.contains_key(name)
    &&& name != s.current_branch()
}

/// The lines printed and the store left when a merge with `name` commits:
/// the merged files are committed on the current branch, and a conflict
/// is reported.
pub open spec fn merge_committed(s: RepoView, name: Seq<char>, lines: Seq<Line>, t: RepoView) -> bool {
    &&& lines == if merge_conflicts(s, name) {
        seq![Line::Stdout("Encountered a merge conflict."@)]
    } else {
        Seq::<Line>::empty()
    }
    &&& exists|c: crate::commit::CommitView|
        next_commit(merged(s, name), merge_message(name, s.current_branch()), c) && t == with_commit(
            merged(s, name),
            c,
        )
}

/// Taking the files of the branch `name` would overwrite no untracked file.
pub open spec fn merge_clear(s: RepoView, name: Seq<char>) -> bool {
    !untracked_in_way(s, s.head_commit().files(), given_files(s, name))
}

/// What `merge BRANCH` prints and leaves.
pub open spec fn merge_outcome(s: RepoView, name: Seq<char>, lines: Seq<Line>, t: RepoView) -> bool {
    if s.index != empty_index() {
        lines == seq![Line::Stderr("You have uncommitted changes."@)] && t == s
    } else if !s.branches.contains_key(name) {
        lines == seq![Line::Stderr("A branch with that name does not exist."@)] && t == s
    } else if name == s.current_branch() {
        lines == seq![Line::Stderr("Cannot merge a branch with itself."@)] && t == s
    } else if merge_base(s, name) == given_id(s, name) {
        lines == seq![Line::Stdout("Given branch is an ancestor of the current branch."@)] && t == s
    } else if merge_base(s, name) == s.head_id() {
        if merge_clear(s, name) {
            lines == seq![Line::Stdout("Current branch fast-forwarded."@)] && t == checked_out(s, name)
        } else {
            lines == seq![
                Line::Stderr(untracked_text()),
                Line::Stdout("Current branch fast-forwarded."@),
            ] && t == s
        }
    } else if merge_clear(s, name) {
        merge_committed(s, name, lines, t)
    } else {
        lines == seq![
            Line::Stderr(untracked_text()),
        ] && t == s
    }
}

impl Repository {
    /// Handles every file and commits the merge, once every check has passed.
    #[verifier::rlimit(30)]
    fn finish_merge(&mut self, branch_name: &str, split: &Commit, current: &Commit, given: &Commit) -> (r:
        Vec<Message>)
        requires
            old(self)@.valid(),
            merge_ready(old(self)@, branch_name@),
            split@ == old(self)@.commits[merge_base(old(self)@, branch_name@)],
            current@ == old(self)@.head_commit(),
            given@ == old(self)@.commits[given_id(old(self)@, branch_name@)],
            old(self)@.commits.contains_key(old(self)@.head_id()),
            old(self)@.commits.contains_key(given_id(old(self)@, branch_name@)),
        ensures
            final(self)@.valid(),
            merge_committed(old(self)@, branch_name@, printed(r@), final(self)@),
    {
        let ghost s = self@;
        let ghost name = branch_name@;
        let names = all_files(split, current, given);
        let ghost nm = merge_names(s, name);
        let ghost sf = base_files(s, name);
        let ghost cf = s.head_commit().files();
        let ghost gf = given_files(s, name);
        let mut new_index = Index::new();
        proof {
            assert(with_index(self@, new_index@) == s);
            assert forall|f: Seq<char>| #[trigger] cf.contains_key(f) implies s.blobs.contains_key(
                cf[f],
            ) by {
                assert(s.commits.contains_key(s.head_id()));
            }
            assert forall|f: Seq<char>| #[trigger] gf.contains_key(f) implies s.blobs.contains_key(
                gf[f],
            ) by {
                assert(s.commits.contains_key(given_id(s, name)));
            }
        }
        let conflict = self.merge_all(&names, split, current, given, &mut new_index);
        proof {
            lemma_merge_files_valid(s, nm, sf, cf, gf);
        }
        self.save_index(&new_index);
        proof {
            assert(self@ == merged(s, name));
            assert(self@.head == s.head);
        }
        let mut msg = String::from_str("Merged ");
        msg.append(branch_name);
        msg.append(" into ");
        msg.append(self.current_branch());
        msg.append(".");
        self.merge_commit(msg.as_str());
        let mut r: Vec<Message> = Vec::new();
        if conflict {
            r.push(out(String::from_str("Encountered a merge conflict.")));
            assert(printed(r@) =~= seq![Line::Stdout("Encountered a merge conflict."@)]);
        } else {
            assert(printed(r@) =~= Seq::<Line>::empty());
        }
        r
    }

    /// The rest of a merge, once nothing is staged and the branch is
    /// another existing one.
    #[verifier::rlimit(30)]
    fn merge_branch(&mut self, branch_name: &str) -> (r: Vec<Message>)
        requires
            old(self)@.valid(),
            merge_ready(old(self)@, branch_name@),
        ensures
            final(self)@.valid() || !clean_name(branch_name@),
            merge_outcome(old(self)@, branch_name@, printed(r@), final(self)@),
    {
        let ghost s = self@;
        let ghost name = branch_name@;
        let target = match self.branches.get(branch_name) {
            Some(t) => trim_str(t.as_str()),
            None => {
                proof {
                    assert(false);
                }
                ""
            },
        };
        proof {
            assert(s.commits.contains_key(s.branch_target(name)));
            assert(s.commits.contains_key(s.head_id()));
            assert(commit_id(s.commits[s.head_id()]) == s.head_id());
            assert(commit_id(s.commits[s.branch_target(name)]) == s.branch_target(name));
        }
        let current_commit = self.get_head_commit();
        let given_commit = self.load_commit(target);
        let current_id = current_commit.get_id();
        let given_commit_id = given_commit.get_id();
        let split_id = self.find_split_point(current_id.as_str(), given_commit_id.as_str());
        proof {
            let h = s.history(given_id(s, name));
            use_type_invariant(&self.commits);
            self.commits.lemma_facts();
            vstd::set::axiom_set_contains_len(s.commits.dom(), given_id(s, name));
            assert(h.len() > 0);
            lemma_first_shared_in(h, s.history(s.head_id()));
            lemma_walk_stored(s.commits, given_id(s, name), s.commits.dom().len());
            let p = choose|p: int| 0 <= p < h.len() && h[p] == split_id@;
            assert(s.commits.contains_key(h[p]));
        }
        let split_commit = self.load_commit(split_id.as_str());
        if same(split_id.as_str(), given_commit_id.as_str()) {
            let mut r: Vec<Message> = Vec::new();
            r.push(out(String::from_str("Given branch is an ancestor of the current branch.")));
            assert(printed(r@) =~= seq![
                Line::Stdout("Given branch is an ancestor of the current branch."@),
            ]);
            return r;
        }
        if same(split_id.as_str(), current_id.as_str()) {
            let mut r = self.checkout_branch(branch_name);
            let ghost before = r@;
            r.push(out(String::from_str("Current branch fast-forwarded.")));
            proof {
                lemma_printed_push(before, r@.last());
                assert(r@ == before.push(r@.last()));
                if untracked_in_way(s, s.head_commit().files(), given_files(s, name)) {
                    assert(printed(r@) =~= seq![
                        Line::Stderr(untracked_text()),
                        Line::Stdout("Current branch fast-forwarded."@),
                    ]);
                } else {
                    assert(printed(r@) =~= seq![Line::Stdout("Current branch fast-forwarded."@)]);
                }
            }
            return r;
        }
        match self.check_untracked_files(&current_commit, &given_commit) {
            Err(msg) => {
                let r = vec![Message::Stderr(msg)];
                assert(printed(r@) =~= seq![Line::Stderr(untracked_text())]);
                return r;
            },
            Ok(()) => {},
        }
        self.finish_merge(branch_name, &split_commit, &current_commit, &given_commit)
    }

    /// Merges the branch `branch_name` into the current branch.
    #[verifier::rlimit(30)]
    pub fn merge(&mut self, branch_name: &str) -> (r: Vec<Message>)
        requires
            merge_ready(old(self)@, branch_name@) ==> old(self)@.valid(),
        ensures
            old(self)@.valid() ==> final(self)@.valid() || !clean_name(branch_name@),
            merge_outcome(old(self)@, branch_name@, printed(r@), final(self)@),
    {
        let ghost s = self@;
        let index = self.load_index();
        if !index.is_clear() {
            return err_line("You have uncommitted changes.");
        }
        proof {
            assert(s.index == empty_index());
        }
        if !self.branches.contains_key(branch_name) {
            return err_line("A branch with that name does not exist.");
        }
        if same(self.current_branch(), branch_name) {
            return err_line("Cannot merge a branch with itself.");
        }
        self.merge_branch(branch_name)
    }
}

impl Repository {
    /// Handles the files `names` of a merge in turn, staging into `index`;
    /// true when one of them conflicts.
    #[verifier::rlimit(30)]
    fn merge_all(
        &mut self,
        names: &Vec<String>,
        split: &Commit,
        current: &Commit,
        given: &Commit,
        index: &mut Index,
    ) -> (conflict: bool)
        requires
            blobs_present(old(self)@, current@.files()),
            blobs_present(old(self)@, given@.files()),
        ensures
            with_index(final(self)@, final(index)@) == merge_files(
                with_index(old(self)@, old(index)@),
                names_of(names@),
                split@.files(),
                current@.files(),
                given@.files(),
            ),
            conflict == has_conflict(
                names_of(names@),
                split@.files(),
                current@.files(),
                given@.files(),
            ),
    {
        let ghost st0 = with_index(self@, index@);
        let ghost nm = names_of(names@);
        let ghost sf = split@.files();
        let ghost cf = current@.files();
        let ghost gf = given@.files();
        let mut conflict = false;
        let n = names.len();
        let mut i: usize = 0;
        assert(nm.subrange(0, 0) =~= Seq::<Seq<char>>::empty());
        while i < n
            invariant
                n == names@.len(),
                nm == names_of(names@),
                sf == split@.files(),
                cf == current@.files(),
                gf == given@.files(),
                i <= n,
                with_index(self@, index@) == merge_files(st0, nm.subrange(0, i as int), sf, cf, gf),
                conflict == has_conflict(nm.subrange(0, i as int), sf, cf, gf),
                forall|k: Seq<char>| #[trigger]
                    old(self)@.blobs.contains_key(k) ==> self@.blobs.contains_key(k),
                blobs_present(old(self)@, cf),
                blobs_present(old(self)@, gf),
            decreases n - i,
        {
            let ghost prev = self@;
            let ghost st = with_index(self@, index@);
            let c = self.merge_one(names[i].as_str(), split, current, given, index);
            conflict = conflict || c;
            proof {
                let sub = nm.subrange(0, i + 1);
                assert(sub.drop_last() =~= nm.subrange(0, i as int));
                assert(sub.last() == names@[i as int]@);
                assert forall|k: Seq<char>| #[trigger]
                    old(self)@.blobs.contains_key(k) implies self@.blobs.contains_key(k) by {
                    assert(prev.blobs.contains_key(k));
                    assert(st.blobs == prev.blobs);
                }
            }
            i = i + 1;
        }
        assert(nm.subrange(0, n as int) =~= nm);
        conflict
    }
}

} // verus!
