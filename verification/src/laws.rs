//! Properties of the repository that span several commands.

use vstd::prelude::*;
use crate::commit::{CommitView, commit_id, initial_commit};
use crate::blob::blob_id;
use crate::repository::{
    RepoView, Line, added, removed_file, rm_outcome, branch_outcome, rm_branch_outcome, walk,
    next_commit, with_commit, empty_index, heads_prefix, lemma_head_of_branch, lemma_trim_id,
    lemma_commit_keeps_valid, restore_outcome, clean_name, checkout_branch_outcome, reset_outcome,
    lemma_checkout_keeps_valid, lemma_reset_keeps_valid, prefix_match, some_with_prefix,
    lemma_first_exists, untracked_in_way, checked_out, reset_to, status_lines, find_outcome,
    ids_with_message, out_lines,
};
use crate::command::init_store;
use crate::merge::{
    MergeAction, merge_rule, file_rule, merge_files, merged, merge_names, merge_ready,
    base_files, given_files, lemma_merge_files_valid, split_point, first_shared,
};
use crate::filemap::{lemma_sorted_list_exists, lemma_map_of_finite, sorted_list, strictly_sorted};
use crate::text::{lemma_lt_irreflexive, seq_lt};

verus! {

/// `init` on a directory with no store makes a valid store whose current
/// branch is `master`, whose head is the initial commit, and whose log
/// holds that commit alone.
#[verifier::rlimit(30)]
pub proof fn law_init(s: RepoView)
    requires
        s.commits == Map::<Seq<char>, CommitView>::empty(),
        s.branches == Map::<Seq<char>, Seq<char>>::empty(),
        s.index == empty_index(),
    ensures
        init_store(s).valid(),
        init_store(s).current_branch() == "master"@,
        init_store(s).head_id() == commit_id(initial_commit()),
        init_store(s).head_commit() == initial_commit(),
        init_store(s).history(init_store(s).head_id()) == seq![commit_id(initial_commit())],
{
    let t = init_store(s);
    let c = initial_commit();
    let id = commit_id(c);
    reveal_strlit("master");
    reveal_strlit("refs/heads/master");
    reveal_strlit("refs/heads/");
    assert("refs/heads/master"@ =~= heads_prefix() + "master"@);
    assert(clean_name("master"@)) by {
        assert("master"@.last() == 'r');
    }
    lemma_head_of_branch("master"@);
    lemma_trim_id(c);
    assert(t.current_branch() == "master"@);
    assert(t.head_id() == id);
    assert(t.commits.dom() =~= set![id]);
    assert(t.commits.dom().len() == 1);
    assert(walk(t.commits, id, 1) =~= seq![id]);
    assert(c.files() =~= Map::<Seq<char>, Seq<char>>::empty());
}

/// Adding a file twice leaves the store as adding it once.
pub proof fn law_add_twice(s: RepoView, f: Seq<char>)
    requires
        s.valid(),
        s.working.contains_key(f),
    ensures
        added(added(s, f), f) == added(s, f),
{
    let t = added(s, f);
    assert(t.head_commit() == s.head_commit());
    assert(t.working == s.working);
    let u = added(t, f);
    assert(u.index.files =~= t.index.files);
    assert(u.index.removed =~= t.index.removed);
    assert(u.blobs =~= t.blobs);
}

/// Removing a file that was only just staged for addition, and that the
/// head commit does not track, leaves the staging area and the working
/// directory as they were before the `add`.
#[verifier::rlimit(30)]
pub proof fn law_rm_undoes_add(s: RepoView, f: Seq<char>, lines: Seq<Line>, t: RepoView)
    requires
        s.valid(),
        s.working.contains_key(f),
        !s.head_commit().files().contains_key(f),
        !s.index.files.contains_key(f),
        !s.index.removed.contains(f),
        rm_outcome(added(s, f), f, lines, t),
    ensures
        lines == Seq::<Line>::empty(),
        t.index == s.index,
        t.working == s.working,
{
    let a = added(s, f);
    assert(a.head_commit() == s.head_commit());
    assert(a.index.files.contains_key(f));
    assert(t == removed_file(a, f));
    assert(t.index.files =~= s.index.files);
    assert(t.index.removed =~= s.index.removed);
}

/// `rm` of a file that the head commit tracks goes through whether or not
/// the file was staged: it unstages the file, stages it for removal and
/// deletes it from the working directory, touching no other file, so the
/// commit made next no longer tracks it.
pub proof fn law_rm_tracked(
    s: RepoView,
    f: Seq<char>,
    lines: Seq<Line>,
    t: RepoView,
    message: Seq<char>,
    c: CommitView,
    g: Seq<char>,
)
    requires
        s.head_commit().files().contains_key(f),
        rm_outcome(s, f, lines, t),
    ensures
        lines == Seq::<Line>::empty(),
        !t.index.files.contains_key(f),
        t.index.removed.contains(f),
        !t.working.contains_key(f),
        t.head_commit() == s.head_commit(),
        t.commits == s.commits,
        t.branches == s.branches,
        g != f ==> t.working.contains_key(g) == s.working.contains_key(g) && (s.working.contains_key(g)
            ==> t.working[g] == s.working[g]),
        g != f ==> t.index.files.contains_key(g) == s.index.files.contains_key(g) && (
        s.index.files.contains_key(g) ==> t.index.files[g] == s.index.files[g]),
        g != f ==> (t.index.removed.contains(g) <==> s.index.removed.contains(g)),
        next_commit(t, message, c) ==> !c.files().contains_key(f),
{
    assert(t == removed_file(s, f));
    assert(t.head_id() == s.head_id());
}

/// Creating a branch and then removing it leaves the store as it was.
pub proof fn law_branch_then_rm_branch(
    s: RepoView,
    name: Seq<char>,
    l1: Seq<Line>,
    t1: RepoView,
    l2: Seq<Line>,
    t2: RepoView,
)
    requires
        s.valid(),
        !s.branches.contains_key(name),
        branch_outcome(s, name, l1, t1),
        rm_branch_outcome(t1, name, l2, t2),
    ensures
        l1 == Seq::<Line>::empty(),
        l2 == Seq::<Line>::empty(),
        t2 == s,
{
    assert(name != s.current_branch());
    assert(t1.current_branch() == s.current_branch());
    assert(t2.branches =~= s.branches);
}

/// After a commit, the log begins with the new commit and goes on with
/// the commit that was the head before.
#[verifier::rlimit(30)]
pub proof fn law_log_after_commit(s: RepoView, message: Seq<char>, c: CommitView)
    requires
        s.valid(),
        s.commits.dom().finite(),
        next_commit(s, message, c),
    ensures
        ({
            let t = with_commit(s, c);
            let h = t.history(t.head_id());
            &&& h.len() >= 1
            &&& h[0] == commit_id(c)
            &&& h.len() >= 2 ==> h[1] == s.head_id()
        }),
{
    let t = with_commit(s, c);
    lemma_commit_keeps_valid(s, message, c);
    let id = commit_id(c);
    assert(t.commits.contains_key(id));
    vstd::set::axiom_set_contains_len(t.commits.dom(), id);
    let n = t.commits.dom().len();
    assert(n >= 1);
    assert(t.commits[id] == c);
    let rest = walk(t.commits, s.head_id(), (n - 1) as nat);
    assert(walk(t.commits, id, n) == seq![id] + rest);
    assert(s.commits.contains_key(s.head_id()));
    if n >= 2 {
        assert(t.commits.contains_key(s.head_id()));
        assert(rest[0] == s.head_id());
    }
}

/// A file added and committed reads back as it was from the new head
/// commit, whatever the working directory holds by then. (Where the head
/// commit already held exactly these contents, `add` stages nothing and
/// the head's own blob is read back.)
#[verifier::rlimit(30)]
pub proof fn law_commit_then_checkout(
    s: RepoView,
    f: Seq<char>,
    message: Seq<char>,
    c: CommitView,
    w: Map<Seq<char>, Seq<u8>>,
    lines: Seq<Line>,
    t: RepoView,
)
    requires
        s.valid(),
        s.working.contains_key(f),
        !(s.head_commit().files().contains_key(f) && s.head_commit().files()[f] == blob_id(
            s.working[f],
        )),
        next_commit(added(s, f), message, c),
        restore_outcome(
            RepoView { working: w, ..with_commit(added(s, f), c) },
            with_commit(added(s, f), c).head_commit().files(),
            f,
            lines,
            t,
        ),
    ensures
        lines == Seq::<Line>::empty(),
        t.working.contains_key(f),
        t.working[f] == s.working[f],
{
    let a = added(s, f);
    assert(a.head_id() == s.head_id());
    assert(a.valid()) by {
        assert forall|k: Seq<char>, g: Seq<char>| #[trigger] a.commits.contains_key(k)
            && #[trigger] a.commits[k].files().contains_key(g) implies a.blobs.contains_key(
            a.commits[k].files()[g],
        ) by {
            assert(s.commits.contains_key(k) && s.commits[k].files().contains_key(g));
        }
        assert forall|g: Seq<char>| #[trigger] a.index.files.contains_key(g) implies a.blobs.contains_key(
            a.index.files[g],
        ) by {
            if g != f {
                assert(s.index.files.contains_key(g));
            }
        }
    }
    lemma_commit_keeps_valid(a, message, c);
    let b = with_commit(a, c);
    assert(b.head_commit() == c);
    assert(c.files().contains_key(f));
    assert(c.files()[f] == blob_id(s.working[f]));
}

/// A checkout of another branch that goes through makes it the current
/// branch, writes every file of its head commit from the store, deletes the
/// files that only the old head tracked, keeps every other file, and
/// clears the staging area.
#[verifier::rlimit(30)]
pub proof fn law_checkout_branch(s: RepoView, name: Seq<char>, lines: Seq<Line>, t: RepoView, f: Seq<char>)
    requires
        s.valid(),
        clean_name(name),
        checkout_branch_outcome(s, name, lines, t),
        lines == Seq::<Line>::empty(),
    ensures
        t.valid(),
        t.current_branch() == name,
        t.head_id() == s.branch_target(name),
        t.index == empty_index(),
        t.head_commit().files().contains_key(f) ==> t.working.contains_key(f) && t.working[f]
            == s.blobs[t.head_commit().files()[f]],
        !t.head_commit().files().contains_key(f) && s.head_commit().files().contains_key(f)
            ==> !t.working.contains_key(f),
        !t.head_commit().files().contains_key(f) && !s.head_commit().files().contains_key(f)
            ==> t.working.contains_key(f) == s.working.contains_key(f) && (s.working.contains_key(f)
            ==> t.working[f] == s.working[f]),
{
    assert(s.branches.contains_key(name) && name != s.current_branch()) by {
        if !s.branches.contains_key(name) || name == s.current_branch() {
            assert(lines.len() == 1);
        }
    }
    let target = s.commits[s.branch_target(name)].files();
    assert(!untracked_in_way(s, s.head_commit().files(), target)) by {
        if untracked_in_way(s, s.head_commit().files(), target) {
            assert(lines.len() == 1);
        }
    }
    assert(t == checked_out(s, name));
    lemma_checkout_keeps_valid(s, name);
    assert(t.head_id() == s.branch_target(name));
    assert(t.head_commit().files() == target);
}

/// A reset that goes through moves the current branch to the commit found,
/// writes its files from the store, deletes the files that only the old
/// head tracked, keeps every other file as it was (untracked files
/// included), and clears the staging area.
#[verifier::rlimit(30)]
pub proof fn law_reset(s: RepoView, id: Seq<char>, lines: Seq<Line>, t: RepoView, f: Seq<char>)
    requires
        s.valid(),
        s.commits.dom().finite(),
        some_with_prefix(s, id),
        reset_outcome(s, id, lines, t),
        lines == Seq::<Line>::empty(),
    ensures
        t.valid(),
        t.current_branch() == s.current_branch(),
        t.head_id() == prefix_match(s, id),
        t.index == empty_index(),
        t.head_commit().files().contains_key(f) ==> t.working.contains_key(f) && t.working[f]
            == s.blobs[t.head_commit().files()[f]],
        !t.head_commit().files().contains_key(f) && s.head_commit().files().contains_key(f)
            ==> !t.working.contains_key(f),
        !t.head_commit().files().contains_key(f) && !s.head_commit().files().contains_key(f)
            ==> t.working.contains_key(f) == s.working.contains_key(f) && (s.working.contains_key(f)
            ==> t.working[f] == s.working[f]),
{
    let full = prefix_match(s, id);
    lemma_first_exists(s, id);
    assert(s.commits.contains_key(full));
    assert(!untracked_in_way(s, s.head_commit().files(), s.commits[full].files())) by {
        if untracked_in_way(s, s.head_commit().files(), s.commits[full].files()) {
            assert(lines.len() == 1);
        }
    }
    assert(t == reset_to(s, full));
    lemma_reset_keeps_valid(s, full);
    assert(t.head_commit().files() == s.commits[full].files());
}

/// `status` opens with its title, then lists every branch once, in name
/// order, and marks with `*` exactly the branch that HEAD names; the
/// staged files follow under their own title.
#[verifier::rlimit(30)]
pub proof fn law_status_branches(s: RepoView, b: Seq<char>, i: int)
    requires
        s.branches.dom().finite(),
    ensures
        status_lines(s)[0] == Line::Stdout("Branches:"@),
        sorted_list(s.branches.dom()).contains(b) <==> s.branches.contains_key(b),
        strictly_sorted(sorted_list(s.branches.dom())),
        0 <= i < sorted_list(s.branches.dom()).len() ==> status_lines(s)[i + 1] == Line::Stdout(
            if sorted_list(s.branches.dom())[i] == s.current_branch() {
                seq!['*'] + sorted_list(s.branches.dom())[i]
            } else {
                sorted_list(s.branches.dom())[i]
            },
        ),
        status_lines(s)[sorted_list(s.branches.dom()).len() + 1int] == Line::Stdout("Staged Files:"@),
{
    let names = sorted_list(s.branches.dom());
    lemma_sorted_list_exists(s.branches.dom());
    let marked = names.map_values(|x: Seq<char>| crate::repository::branch_mark(x, s.current_branch()));
    let head = seq![Line::Stdout("Branches:"@)] + out_lines(marked);
    let rest = seq![Line::Stdout("Staged Files:"@)] + out_lines(sorted_list(s.index.files.dom()))
        + seq![Line::Stdout("Removed Files:"@)] + out_lines(sorted_list(s.index.removed));
    assert(status_lines(s) =~= head + rest);
    assert(head.len() == names.len() + 1);
    assert(status_lines(s)[0] == head[0]);
    if 0 <= i < names.len() {
        assert(status_lines(s)[i + 1] == head[i + 1]);
        assert(head[i + 1] == out_lines(marked)[i]);
    }
    assert(status_lines(s)[names.len() + 1int] == rest[0]);
}

/// The ids that `find` collects from a list are those of the listed
/// commits whose message is `m`, and no others.
proof fn lemma_ids_with_message(commits: Map<Seq<char>, CommitView>, ids: Seq<Seq<char>>, m: Seq<char>)
    ensures
        forall|j: int|
            0 <= j < ids.len() && commits[ids[j]].message == m ==> ids_with_message(
                commits,
                ids,
                m,
            ).contains(commit_id(#[trigger] commits[ids[j]])),
        forall|x: Seq<char>|
            #[trigger] ids_with_message(commits, ids, m).contains(x) ==> exists|j: int|
                0 <= j < ids.len() && commits[ids[j]].message == m && x == commit_id(
                    #[trigger] commits[ids[j]],
                ),
    decreases ids.len(),
{
    if ids.len() > 0 {
        let init = ids.drop_last();
        let found = ids_with_message(commits, ids, m);
        let before = ids_with_message(commits, init, m);
        lemma_ids_with_message(commits, init, m);
        assert forall|j: int|
            0 <= j < ids.len() && commits[ids[j]].message == m implies found.contains(
            commit_id(#[trigger] commits[ids[j]]),
        ) by {
            if j < ids.len() - 1 {
                assert(init[j] == ids[j]);
                let x = commit_id(commits[init[j]]);
                let k = choose|k: int| 0 <= k < before.len() && before[k] == x;
                assert(found[k] == x);
            } else {
                assert(found[found.len() - 1] == commit_id(commits[ids.last()]));
            }
        }
        assert forall|x: Seq<char>| #[trigger] found.contains(x) implies exists|j: int|
            0 <= j < ids.len() && commits[ids[j]].message == m && x == commit_id(
                #[trigger] commits[ids[j]],
            ) by {
            let k = choose|k: int| 0 <= k < found.len() && found[k] == x;
            if k < before.len() {
                assert(before[k] == x);
                assert(before.contains(x));
                let j = choose|j: int|
                    0 <= j < init.len() && commits[init[j]].message == m && x == commit_id(
                        #[trigger] commits[init[j]],
                    );
                assert(ids[j] == init[j]);
            } else {
                assert(commits[ids.last()].message == m);
                assert(ids[ids.len() - 1] == ids.last());
            }
        }
    }
}

/// Where every listed commit is stored under its own id and the list is
/// strictly increasing, so is what `find` collects from it.
proof fn lemma_ids_with_message_sorted(
    commits: Map<Seq<char>, CommitView>,
    ids: Seq<Seq<char>>,
    m: Seq<char>,
)
    requires
        strictly_sorted(ids),
        forall|j: int| 0 <= j < ids.len() ==> commit_id(#[trigger] commits[ids[j]]) == ids[j],
    ensures
        strictly_sorted(ids_with_message(commits, ids, m)),
    decreases ids.len(),
{
    if ids.len() > 0 {
        let init = ids.drop_last();
        let before = ids_with_message(commits, init, m);
        let found = ids_with_message(commits, ids, m);
        assert forall|j: int| 0 <= j < init.len() implies commit_id(#[trigger] commits[init[j]])
            == init[j] by {
            assert(init[j] == ids[j]);
        }
        lemma_ids_with_message_sorted(commits, init, m);
        lemma_ids_with_message(commits, init, m);
        if commits[ids.last()].message == m {
            let last = ids.last();
            assert(commit_id(commits[ids[ids.len() - 1]]) == ids[ids.len() - 1]);
            assert(found == before.push(last));
            assert forall|a: int, b: int| 0 <= a < b < found.len() implies seq_lt(
                #[trigger] found[a],
                #[trigger] found[b],
            ) by {
                if b < before.len() {
                    assert(found[a] == before[a] && found[b] == before[b]);
                } else {
                    let x = before[a];
                    assert(before.contains(x));
                    let j = choose|j: int|
                        0 <= j < init.len() && commits[init[j]].message == m && x == commit_id(
                            #[trigger] commits[init[j]],
                        );
                    assert(init[j] == ids[j]);
                    assert(x == ids[j]);
                    assert(seq_lt(ids[j], ids[ids.len() - 1]));
                }
            }
        } else {
            assert(found =~= before);
        }
    }
}

/// `find` prints the id of a stored commit exactly when its message is the
/// one asked for, as it is and not merely as a prefix; where no commit has
/// that message it prints only the notice that there is none. In a
/// well-formed store it prints no id twice.
#[verifier::rlimit(30)]
pub proof fn law_find(s: RepoView, m: Seq<char>, lines: Seq<Line>, k: Seq<char>, i: int)
    requires
        s.commits.dom().finite(),
        find_outcome(s, m, lines),
    ensures
        s.commits.contains_key(k) && s.commits[k].message == m ==> lines.contains(
            Line::Stdout(commit_id(s.commits[k])),
        ),
        (exists|x: Seq<char>| #[trigger] s.commits.contains_key(x) && s.commits[x].message == m)
            && 0 <= i < lines.len() ==> exists|x: Seq<char>|
            #[trigger] s.commits.contains_key(x) && s.commits[x].message == m && lines[i]
                == Line::Stdout(commit_id(s.commits[x])),
        !(exists|x: Seq<char>| #[trigger] s.commits.contains_key(x) && s.commits[x].message == m)
            ==> lines == seq![Line::Stdout("Found no commit with that message."@)],
        s.valid() ==> lines.no_duplicates(),
{
    let ids = sorted_list(s.commits.dom());
    lemma_sorted_list_exists(s.commits.dom());
    let found = ids_with_message(s.commits, ids, m);
    lemma_ids_with_message(s.commits, ids, m);
    if s.commits.contains_key(k) && s.commits[k].message == m {
        assert(ids.contains(k));
        let j = choose|j: int| 0 <= j < ids.len() && ids[j] == k;
        assert(found.contains(commit_id(s.commits[ids[j]])));
        let p = choose|p: int| 0 <= p < found.len() && found[p] == commit_id(s.commits[k]);
        assert(lines == out_lines(found));
        assert(lines[p] == Line::Stdout(commit_id(s.commits[k])));
    }
    if exists|x: Seq<char>| #[trigger] s.commits.contains_key(x) && s.commits[x].message == m {
        let x = choose|x: Seq<char>| #[trigger] s.commits.contains_key(x) && s.commits[x].message == m;
        assert(ids.contains(x));
        let j = choose|j: int| 0 <= j < ids.len() && ids[j] == x;
        assert(found.contains(commit_id(s.commits[ids[j]])));
        assert(found.len() > 0);
        assert(lines == out_lines(found));
        if 0 <= i < lines.len() {
            assert(found.contains(found[i]));
            let j2 = choose|j2: int|
                0 <= j2 < ids.len() && s.commits[ids[j2]].message == m && found[i] == commit_id(
                    #[trigger] s.commits[ids[j2]],
                );
            assert(ids.contains(ids[j2]));
            assert(s.commits.contains_key(ids[j2]));
            assert(lines[i] == Line::Stdout(commit_id(s.commits[ids[j2]])));
        }
    } else {
        if found.len() > 0 {
            assert(found.contains(found[0]));
            let j2 = choose|j2: int|
                0 <= j2 < ids.len() && s.commits[ids[j2]].message == m && found[0] == commit_id(
                    #[trigger] s.commits[ids[j2]],
                );
            assert(ids.contains(ids[j2]));
            assert(s.commits.contains_key(ids[j2]));
        }
    }
    if s.valid() && found.len() > 0 {
        assert forall|j: int| 0 <= j < ids.len() implies commit_id(#[trigger] s.commits[ids[j]])
            == ids[j] by {
            assert(ids.contains(ids[j]));
        }
        lemma_ids_with_message_sorted(s.commits, ids, m);
        assert forall|a: int, b: int| 0 <= a < lines.len() && 0 <= b < lines.len() && a != b implies lines[a]
            != lines[b] by {
            if a < b {
                assert(seq_lt(found[a], found[b]));
            } else {
                assert(seq_lt(found[b], found[a]));
            }
            lemma_lt_irreflexive(found[a]);
        }
    }
}

/// The history from `id` ends at a root commit, one with no parent.
pub open spec fn rooted(s: RepoView, id: Seq<char>) -> bool {
    let h = s.history(id);
    h.len() > 0 && s.commits[h.last()].parent is None
}

/// The walk from the `i`-th id of a walk is the rest of that walk.
proof fn lemma_walk_suffix(c: Map<Seq<char>, CommitView>, x: Seq<char>, f: nat, i: int)
    requires
        0 <= i < walk(c, x, f).len(),
    ensures
        walk(c, x, f).subrange(i, walk(c, x, f).len() as int) == walk(
            c,
            walk(c, x, f)[i],
            (f - i) as nat,
        ),
    decreases f,
{
    let h = walk(c, x, f);
    if i == 0 {
        assert(h.subrange(0, h.len() as int) =~= h);
    } else {
        match c[x].parent {
            None => {},
            Some(p) => {
                let t = walk(c, p, (f - 1) as nat);
                assert(h == seq![x] + t);
                lemma_walk_suffix(c, p, (f - 1) as nat, i - 1);
                assert(h[i] == t[i - 1]);
                assert(h.subrange(i, h.len() as int) =~= t.subrange(i - 1, t.len() as int));
            },
        }
    }
}

/// Two walks from one id that both end at a root are the same walk,
/// whatever their fuel.
proof fn lemma_walk_rooted_unique(c: Map<Seq<char>, CommitView>, x: Seq<char>, f1: nat, f2: nat)
    requires
        walk(c, x, f1).len() > 0,
        c[walk(c, x, f1).last()].parent is None,
        walk(c, x, f2).len() > 0,
        c[walk(c, x, f2).last()].parent is None,
    ensures
        walk(c, x, f1) == walk(c, x, f2),
    decreases f1,
{
    let h1 = walk(c, x, f1);
    let h2 = walk(c, x, f2);
    match c[x].parent {
        None => {
            assert(h1 =~= seq![x]);
            assert(h2 =~= seq![x]);
        },
        Some(p) => {
            let t1 = walk(c, p, (f1 - 1) as nat);
            let t2 = walk(c, p, (f2 - 1) as nat);
            assert(h1 == seq![x] + t1);
            assert(h2 == seq![x] + t2);
            if t1.len() == 0 {
                assert(h1.last() == x);
            }
            if t2.len() == 0 {
                assert(h2.last() == x);
            }
            assert(t1.last() == h1.last());
            assert(t2.last() == h2.last());
            lemma_walk_rooted_unique(c, p, (f1 - 1) as nat, (f2 - 1) as nat);
        },
    }
}

/// A walk that ends at a root meets no id twice.
proof fn lemma_rooted_no_dup(c: Map<Seq<char>, CommitView>, x: Seq<char>, f: nat)
    requires
        walk(c, x, f).len() > 0,
        c[walk(c, x, f).last()].parent is None,
    ensures
        walk(c, x, f).no_duplicates(),
{
    let h = walk(c, x, f);
    let n = h.len() as int;
    assert forall|i: int, k: int| 0 <= i < n && 0 <= k < n && i != k implies h[i] != h[k] by {
        if h[i] == h[k] {
            lemma_walk_suffix(c, x, f, i);
            lemma_walk_suffix(c, x, f, k);
            let si = h.subrange(i, n);
            let sk = h.subrange(k, n);
            assert(si.last() == h.last() && sk.last() == h.last());
            lemma_walk_rooted_unique(c, h[i], (f - i) as nat, (f - k) as nat);
            assert(si.len() == sk.len());
        }
    }
}

/// The split point is the first id of the later history that the earlier
/// one holds, where there is one.
proof fn lemma_first_shared_min(l: Seq<Seq<char>>, e: Seq<Seq<char>>)
    requires
        exists|k: int| 0 <= k < l.len() && e.contains(#[trigger] l[k]),
    ensures
        exists|j: int|
            0 <= j < l.len() && e.contains(l[j]) && (forall|k: int|
                0 <= k < j ==> !e.contains(#[trigger] l[k])) && first_shared(l, e) == l[j],
    decreases l.len(),
{
    if e.contains(l[0]) {
        assert(first_shared(l, e) == l[0]);
        assert(0 <= 0 < l.len() && e.contains(l[0]) && (forall|k: int|
            0 <= k < 0 ==> !e.contains(#[trigger] l[k])) && first_shared(l, e) == l[0]);
    } else {
        let k0 = choose|k: int| 0 <= k < l.len() && e.contains(#[trigger] l[k]);
        assert(k0 > 0);
        let t = l.drop_first();
        assert(t[k0 - 1] == l[k0]);
        lemma_first_shared_min(t, e);
        let j = choose|j: int|
            0 <= j < t.len() && e.contains(t[j]) && (forall|k: int|
                0 <= k < j ==> !e.contains(#[trigger] t[k])) && first_shared(t, e) == t[j];
        assert(first_shared(l, e) == first_shared(t, e));
        assert forall|k: int| 0 <= k < j + 1 implies !e.contains(#[trigger] l[k]) by {
            if k > 0 {
                assert(l[k] == t[k - 1]);
            }
        }
        assert(l[j + 1] == t[j]);
    }
}

/// The split point of two commits whose histories end at the same root
/// does not depend on the order in which they are given.
#[verifier::rlimit(30)]
pub proof fn law_split_point_symmetric(s: RepoView, a: Seq<char>, b: Seq<char>)
    requires
        rooted(s, a),
        rooted(s, b),
        s.history(a).last() == s.history(b).last(),
    ensures
        split_point(s, a, b) == split_point(s, b, a),
{
    let c = s.commits;
    let n = c.dom().len();
    let ha = s.history(a);
    let hb = s.history(b);
    let la = ha.len() as int;
    let lb = hb.len() as int;
    assert(ha[la - 1] == hb[lb - 1]);
    assert(ha.contains(hb[lb - 1]));
    assert(hb.contains(ha[la - 1]));
    lemma_first_shared_min(hb, ha);
    lemma_first_shared_min(ha, hb);
    let j = choose|j: int|
        0 <= j < lb && ha.contains(hb[j]) && (forall|k: int|
            0 <= k < j ==> !ha.contains(#[trigger] hb[k])) && first_shared(hb, ha) == hb[j];
    let i2 = choose|i: int|
        0 <= i < la && hb.contains(ha[i]) && (forall|k: int|
            0 <= k < i ==> !hb.contains(#[trigger] ha[k])) && first_shared(ha, hb) == ha[i];
    let x = hb[j];
    let y = ha[i2];
    let i = choose|i: int| 0 <= i < la && ha[i] == x;
    let j2 = choose|k: int| 0 <= k < lb && hb[k] == y;
    assert(hb.contains(ha[i]));
    assert(i2 <= i);
    assert(ha.contains(hb[j2]));
    assert(j <= j2);
    lemma_walk_suffix(c, a, n, i);
    lemma_walk_suffix(c, b, n, j);
    let sa = ha.subrange(i, la);
    let sb = hb.subrange(j, lb);
    assert(sa.last() == ha.last() && sb.last() == hb.last());
    lemma_walk_rooted_unique(c, x, (n - i) as nat, (n - j) as nat);
    let d = j2 - j;
    assert(sb[d] == hb[j2]);
    assert(sa[d] == ha[i + d]);
    lemma_rooted_no_dup(c, a, n);
    assert(ha[i2] == ha[i + d]);
}

/// When the commit `b` is an ancestor of `a` (or `a` itself), it is the
/// split point of the two.
pub proof fn law_split_of_ancestor(s: RepoView, a: Seq<char>, b: Seq<char>)
    requires
        s.commits.dom().finite(),
        s.commits.contains_key(b),
        s.history(a).contains(b),
    ensures
        split_point(s, a, b) == b,
{
    vstd::set::axiom_set_contains_len(s.commits.dom(), b);
    let h = s.history(b);
    assert(h[0] == b);
}

/// How a merge decides a file, read as rules: a file that differs in all
/// three versions conflicts, and only such a file; a side that left the
/// file as the split point had it gives way to the other side; where both
/// sides agree the current version stays.
pub proof fn law_merge_rule(split: Option<Seq<char>>, current: Option<Seq<char>>, given: Option<Seq<char>>)
    requires
        !(split is None && current is None && given is None),
    ensures
        (merge_rule(split, current, given) == MergeAction::Conflict) <==> (split != current
            && split != given && current != given),
        split == given ==> merge_rule(split, current, given) == MergeAction::Keep,
        current == given ==> merge_rule(split, current, given) == MergeAction::Keep,
        split == current && split != given ==> merge_rule(split, current, given) == if given is Some {
            MergeAction::TakeGiven
        } else {
            MergeAction::Remove
        },
{
}

/// What the merge leaves of the file `f` in the staging area and the
/// working directory, by its action.
pub open spec fn file_merged(
    st: RepoView,
    m: RepoView,
    f: Seq<char>,
    split: Map<Seq<char>, Seq<char>>,
    current: Map<Seq<char>, Seq<char>>,
    given: Map<Seq<char>, Seq<char>>,
) -> bool {
    match file_rule(f, split, current, given) {
        MergeAction::TakeGiven => m.index.files.contains_key(f) && m.index.files[f] == given[f]
            && !m.index.removed.contains(f) && m.working.contains_key(f),
        MergeAction::Keep => untouched(st, m, f),
        MergeAction::Remove => !m.index.files.contains_key(f) && m.index.removed.contains(f)
            && !m.working.contains_key(f),
        MergeAction::Conflict => m.index.files.contains_key(f) && !m.index.removed.contains(f)
            && m.working.contains_key(f) && m.index.files[f] == blob_id(m.working[f]),
    }
}

/// The file `f` is neither staged nor staged for removal, and the working
/// directory holds it as before.
pub open spec fn untouched(st: RepoView, m: RepoView, f: Seq<char>) -> bool {
    &&& !m.index.files.contains_key(f)
    &&& !m.index.removed.contains(f)
    &&& m.working.contains_key(f) == st.working.contains_key(f)
    &&& st.working.contains_key(f) ==> m.working[f] == st.working[f]
}

/// Handling the files of a merge in turn, starting from an empty staging
/// area, handles each listed file by its own action alone and leaves every
/// other file untouched.
#[verifier::rlimit(30)]
pub proof fn law_merge_files(
    st: RepoView,
    names: Seq<Seq<char>>,
    split: Map<Seq<char>, Seq<char>>,
    current: Map<Seq<char>, Seq<char>>,
    given: Map<Seq<char>, Seq<char>>,
    f: Seq<char>,
)
    requires
        st.index == empty_index(),
        names.no_duplicates(),
    ensures
        names.contains(f) ==> file_merged(
            st,
            merge_files(st, names, split, current, given),
            f,
            split,
            current,
            given,
        ),
        !names.contains(f) ==> untouched(st, merge_files(st, names, split, current, given), f),
    decreases names.len(),
{
    if names.len() > 0 {
        let init = names.drop_last();
        let last = names.last();
        assert(init.no_duplicates());
        law_merge_files(st, init, split, current, given, f);
        law_merge_files(st, init, split, current, given, last);
        assert(!init.contains(last)) by {
            if init.contains(last) {
                let i = choose|i: int| 0 <= i < init.len() && init[i] == last;
                assert(names[i] == names[names.len() - 1]);
            }
        }
        if f != last {
            assert(names.contains(f) <==> init.contains(f)) by {
                if names.contains(f) {
                    let i = choose|i: int| 0 <= i < names.len() && names[i] == f;
                    assert(init[i] == f);
                }
                if init.contains(f) {
                    let i = choose|i: int| 0 <= i < init.len() && init[i] == f;
                    assert(names[i] == f);
                }
            }
        } else {
            assert(names[names.len() - 1] == f);
        }
    }
}

/// The files that the split point, the head or the branch `name` tracks.
pub open spec fn merge_union(s: RepoView, name: Seq<char>) -> Set<Seq<char>> {
    base_files(s, name).dom().union(s.head_commit().files().dom()).union(given_files(s, name).dom())
}

/// What a commit of the staged merge tracks of a file of the merge.
pub open spec fn committed_as_merged(
    files: Map<Seq<char>, Seq<char>>,
    w: Map<Seq<char>, Seq<u8>>,
    f: Seq<char>,
    split: Map<Seq<char>, Seq<char>>,
    current: Map<Seq<char>, Seq<char>>,
    given: Map<Seq<char>, Seq<char>>,
) -> bool {
    match file_rule(f, split, current, given) {
        MergeAction::TakeGiven => files.contains_key(f) && files[f] == given[f] && w.contains_key(f),
        MergeAction::Keep => files.contains_key(f) == current.contains_key(f) && (current.contains_key(
            f,
        ) ==> files[f] == current[f]),
        MergeAction::Remove => !files.contains_key(f) && !w.contains_key(f),
        MergeAction::Conflict => files.contains_key(f) && w.contains_key(f) && files[f] == blob_id(
            w[f],
        ),
    }
}

/// The table committed from a merged staging area tracks a handled file as its action says.
proof fn lemma_committed_file(
    st: RepoView,
    m: RepoView,
    f: Seq<char>,
    split: Map<Seq<char>, Seq<char>>,
    current: Map<Seq<char>, Seq<char>>,
    given: Map<Seq<char>, Seq<char>>,
)
    requires
        file_merged(st, m, f, split, current, given),
    ensures
        committed_as_merged(
            crate::repository::next_tree(current, m.index),
            m.working,
            f,
            split,
            current,
            given,
        ),
{
}

/// The commit that a merge makes tracks each file of the merge as its
/// action says: the given version where the given side wins, the current
/// one where it stays, none where it is removed, and the merged contents
/// (which the working directory then holds) where it conflicts. Files of
/// none of the three commits stay untracked.
#[verifier::rlimit(30)]
pub proof fn law_merge_commit(
    s: RepoView,
    name: Seq<char>,
    message: Seq<char>,
    c: CommitView,
    f: Seq<char>,
)
    requires
        s.valid(),
        merge_ready(s, name),
        next_commit(merged(s, name), message, c),
    ensures
        merge_union(s, name).contains(f) ==> committed_as_merged(
            c.files(),
            merged(s, name).working,
            f,
            base_files(s, name),
            s.head_commit().files(),
            given_files(s, name),
        ),
        !merge_union(s, name).contains(f) ==> !c.files().contains_key(f),
{
    let sf = base_files(s, name);
    let cur = s.head_commit().files();
    let giv = given_files(s, name);
    let u = merge_union(s, name);
    let names = merge_names(s, name);
    let m = merged(s, name);
    lemma_map_of_finite(s.commits[crate::merge::merge_base(s, name)].tree);
    lemma_map_of_finite(s.head_commit().tree);
    lemma_map_of_finite(s.commits[crate::merge::given_id(s, name)].tree);
    lemma_sorted_list_exists(u);
    assert(names.no_duplicates()) by {
        assert forall|i: int, j: int| 0 <= i < names.len() && 0 <= j < names.len() && i != j implies names[i]
            != names[j] by {
            if i < j {
                assert(crate::text::seq_lt(names[i], names[j]));
            } else {
                assert(crate::text::seq_lt(names[j], names[i]));
            }
            lemma_lt_irreflexive(names[i]);
        }
    }
    law_merge_files(s, names, sf, cur, giv, f);
    lemma_merge_files_valid(s, names, sf, cur, giv);
    assert(m.head_commit() == s.head_commit());
    assert(c.files() == crate::repository::next_tree(cur, m.index));
    if u.contains(f) {
        assert(names.contains(f));
        lemma_committed_file(s, m, f, sf, cur, giv);
    } else {
        assert(!names.contains(f));
        assert(!cur.contains_key(f));
    }
}

} // verus!
