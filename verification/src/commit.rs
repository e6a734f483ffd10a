//! A commit: a message, a time, a parent, and the table from file names
//! to the ids of the blobs that hold their contents.

use vstd::prelude::*;
use chrono::{Datelike, Local, TimeZone};
use crate::codec::{
    enc_commit, opt_view, pairs_view, lemma_commit_front, bincode_encode_commit, bincode_decode_commit,
};
use crate::utils::{sha1, sha1_hex};
use crate::filemap::{
    FileMap, Duplicate, map_of, sorted_keys, lemma_map_of_last, lemma_same_map_same_entries,
};
use crate::blob::lemma_concat_one;

verus! {

/// A commit object.
#[derive(Debug)]
pub struct Commit {
    /// The commit's message.
    pub message: String,
    /// Seconds since the Unix epoch when the commit was made.
    pub timestamp: u64,
    /// The id of the parent commit; none for the initial commit.
    pub parent: Option<String>,
    /// File name to blob id.
    pub tree: FileMap<String>,
}

/// A commit taken as plain values; the table is listed in name order.
pub struct CommitView {
    pub message: Seq<char>,
    pub timestamp: u64,
    pub parent: Option<Seq<char>>,
    pub tree: Seq<(Seq<char>, Seq<char>)>,
}

impl View for Commit {
    type V = CommitView;

    open spec fn view(&self) -> CommitView {
        CommitView {
            message: self.message@,
            timestamp: self.timestamp,
            parent: opt_view(self.parent),
            tree: self.tree.entries(),
        }
    }
}

impl CommitView {
    /// The table as a map from file name to blob id.
    pub open spec fn files(self) -> Map<Seq<char>, Seq<char>> {
        map_of(self.tree)
    }
}

/// The stored form of a commit.
pub open spec fn commit_data(c: CommitView) -> Seq<u8> {
    enc_commit(c.message, c.timestamp, c.parent, c.tree)
}

/// The id of a commit: the SHA-1 of its stored form.
pub open spec fn commit_id(c: CommitView) -> Seq<char> {
    sha1_hex(commit_data(c))
}

/// The initial commit of every repository: no files, no parent, time zero.
pub open spec fn initial_commit() -> CommitView {
    CommitView {
        message: "initial commit"@,
        timestamp: 0,
        parent: None,
        tree: Seq::empty(),
    }
}

/// The entry that `log` prints for a commit, given how its date reads.
pub open spec fn log_text(c: CommitView, date: Seq<char>) -> Seq<char> {
    "===\ncommit "@ + commit_id(c) + "\nDate: "@ + date + "\n"@ + c.message + "\n"@
}

/// The map built by storing each pair in turn, later pairs winning.
pub open spec fn map_of_pairs(p: Seq<(Seq<char>, Seq<char>)>) -> Map<Seq<char>, Seq<char>>
    decreases p.len(),
{
    if p.len() == 0 {
        Map::empty()
    } else {
        map_of_pairs(p.drop_last()).insert(p.last().0, p.last().1)
    }
}

/// Storing pairs in turn into an empty map gives the map that a list with
/// strictly increasing keys denotes.
pub proof fn lemma_map_of_pairs_sorted(p: Seq<(Seq<char>, Seq<char>)>)
    requires
        sorted_keys(p),
    ensures
        map_of_pairs(p) == map_of(p),
    decreases p.len(),
{
    if p.len() == 0 {
        assert(map_of(p) =~= Map::<Seq<char>, Seq<char>>::empty());
    } else {
        assert(sorted_keys(p.drop_last()));
        lemma_map_of_pairs_sorted(p.drop_last());
        lemma_map_of_last(p);
    }
}

/// A stored commit reads back as the commit that was written: where a
/// commit `c2`, made of a message, a time, a parent and the pairs `pairs`
/// that were read, has a record that begins the stored form of `c`, then
/// `c2` is `c`.
#[verifier::rlimit(30)]
pub proof fn law_commit_read_back(c: CommitView, c2: CommitView, pairs: Seq<(Seq<char>, Seq<char>)>)
    requires
        sorted_keys(c.tree),
        sorted_keys(c2.tree),
        commit_data(c).len() < 0x1_0000_0000_0000_0000,
        enc_commit(c2.message, c2.timestamp, c2.parent, pairs).is_prefix_of(commit_data(c)),
        map_of(c2.tree) == map_of_pairs(pairs),
    ensures
        c2 == c,
{
    assert(commit_data(c) + Seq::<u8>::empty() =~= commit_data(c));
    lemma_commit_front(
        c.message,
        c.timestamp,
        c.parent,
        c.tree,
        Seq::<u8>::empty(),
        c2.message,
        c2.timestamp,
        c2.parent,
        pairs,
    );
    lemma_map_of_pairs_sorted(c.tree);
    lemma_same_map_same_entries(c2.tree, c.tree);
}

/// A record decoded from the front of `data` is the commit whose stored
/// form begins `data`, whenever there is one.
pub proof fn lemma_decoded_commit(data: Seq<u8>, d: CommitView, pairs: Seq<(Seq<char>, Seq<char>)>)
    requires
        data.len() < 0x1_0000_0000_0000_0000,
        enc_commit(d.message, d.timestamp, d.parent, pairs).is_prefix_of(data),
        sorted_keys(d.tree),
        map_of(d.tree) == map_of_pairs(pairs),
    ensures
        forall|c: CommitView|
            sorted_keys(c.tree) && #[trigger] commit_data(c).is_prefix_of(data) ==> d == c,
{
    assert forall|c: CommitView| sorted_keys(c.tree) && #[trigger] commit_data(c).is_prefix_of(
        data,
    ) implies d == c by {
        let rx = data.subrange(commit_data(c).len() as int, data.len() as int);
        assert(commit_data(c) + rx =~= data);
        lemma_commit_front(
            c.message,
            c.timestamp,
            c.parent,
            c.tree,
            rx,
            d.message,
            d.timestamp,
            d.parent,
            pairs,
        );
        lemma_map_of_pairs_sorted(c.tree);
        lemma_same_map_same_entries(d.tree, c.tree);
    }
}

#[verifier::external_type_specification]
#[verifier::external_body]
pub struct ExSystemTime(std::time::SystemTime);

/// The machine's clock, read by `std::time::SystemTime::now`. Nothing is
/// promised of the time it reads.
#[verifier::external_body]
fn clock_now() -> (r: std::time::SystemTime) {
    std::time::SystemTime::now()
}

/// How long after the Unix epoch `t` lies, by `SystemTime::duration_since`
/// with `UNIX_EPOCH`; none where `t` lies before it. Nothing more is
/// promised.
#[verifier::external_body]
fn since_epoch(t: &std::time::SystemTime) -> (r: Option<std::time::Duration>) {
    match t.duration_since(std::time::UNIX_EPOCH) {
        Ok(d) => Some(d),
        Err(_) => None,
    }
}

/// The whole seconds of a duration, by `Duration::as_secs`. Nothing is
/// promised of the number: a duration is opaque here.
#[verifier::external_body]
fn whole_seconds(d: &std::time::Duration) -> (r: u64) {
    d.as_secs()
}

/// The local date and time `secs` seconds after the Unix epoch, as the
/// `chrono` crate writes it in the machine's time zone (`Local.timestamp_opt`):
/// the time in the format `before`, the day of the month without padding,
/// and the time in the format `after`, separated by spaces. None where
/// chrono finds no single local time. Nothing is promised of the text: it
/// depends on the time zone. The formats are the two that the log uses;
/// chrono fails on a malformed one, so no other is admitted.
#[verifier::external_body]
fn local_date_text(secs: i64, before: &str, after: &str) -> (r: Option<String>)
    requires
        before@ == "%a %b"@,
        after@ == "%H:%M:%S %Y %z"@,
{
    match Local.timestamp_opt(secs, 0) {
        chrono::LocalResult::Single(t) => Some(
            format!("{} {} {}", t.format(before), t.day(), t.format(after)),
        ),
        chrono::LocalResult::Ambiguous(_, _) => None,
        chrono::LocalResult::None => None,
    }
}

impl Commit {
    /// A commit made now, with the given message, parent and table: its
    /// time is the clock's reading in whole seconds since the Unix epoch. A
    /// clock set before the Unix epoch reads as time zero.
    pub fn new(message: String, parent: Option<String>, tree: FileMap<String>) -> (r: Commit)
        ensures
            r.message@ == message@,
            opt_view(r.parent) == opt_view(parent),
            r.tree@ == tree@,
            r.tree.entries() == tree.entries(),
    {
        let timestamp = match since_epoch(&clock_now()) {
            Some(d) => whole_seconds(&d),
            None => 0,
        };
        Commit::made_at(message, timestamp, parent, tree)
    }

    /// A commit with the given message, parent and table, made `timestamp`
    /// seconds after the Unix epoch.
    pub fn made_at(message: String, timestamp: u64, parent: Option<String>, tree: FileMap<String>) -> (r:
        Commit)
        ensures
            r.message@ == message@,
            r.timestamp == timestamp,
            opt_view(r.parent) == opt_view(parent),
            r.tree@ == tree@,
            r.tree.entries() == tree.entries(),
    {
        Commit { message, timestamp, parent, tree }
    }

    /// The initial commit of every repository.
    pub fn initial() -> (r: Commit)
        ensures
            r@ == initial_commit(),
    {
        Commit {
            message: String::from_str("initial commit"),
            timestamp: 0,
            parent: None,
            tree: FileMap::new(),
        }
    }

    /// The commit's stored form.
    pub fn get_data(&self) -> (r: Vec<u8>)
        ensures
            r@ == commit_data(self@),
    {
        bincode_encode_commit(&self.message, self.timestamp, &self.parent, self.tree.as_entries())
    }

    /// The commit's id.
    pub fn get_id(&self) -> (r: String)
        ensures
            r@ == commit_id(self@),
    {
        let data = self.get_data();
        let parts: [&[u8]; 1] = [data.as_slice()];
        let r = sha1(parts.as_slice());
        proof {
            assert(parts@.map_values(|v: &[u8]| v@) =~= seq![data@]);
            lemma_concat_one(data@);
        }
        r
    }

    /// The entry that `log` prints for this commit, given its date text.
    pub fn log_entry(&self, date: &str) -> (r: String)
        ensures
            r@ == log_text(self@, date@),
    {
        let id = self.get_id();
        let mut r = String::from_str("===\ncommit ");
        r.append(id.as_str());
        r.append("\nDate: ");
        r.append(date);
        r.append("\n");
        r.append(self.message.as_str());
        r.append("\n");
        r
    }

    /// The entry that `log` prints for this commit, dated in local time.
    pub fn get_log(&self) -> (r: String)
        ensures
            exists|date: Seq<char>| r@ == log_text(self@, date),
    {
        let date = match local_date_text(self.timestamp as i64, "%a %b", "%H:%M:%S %Y %z") {
            Some(d) => d,
            None => match local_date_text(0, "%a %b", "%H:%M:%S %Y %z") {
                Some(d) => d,
                None => String::new(),
            },
        };
        self.log_entry(date.as_str())
    }

    /// The commit that a stored form holds. A table that names a file twice
    /// keeps the later entry. It is read whenever `data` begins with the
    /// stored form of a commit, and then it is that commit.
    #[verifier::rlimit(60)]
    pub fn from_data(data: &[u8]) -> (r: Option<Commit>)
        ensures
            r matches Some(c) ==> exists|pairs: Seq<(Seq<char>, Seq<char>)>|
                enc_commit(c@.message, c@.timestamp, c@.parent, pairs).is_prefix_of(data@)
                    && c.tree@ == map_of_pairs(pairs),
            forall|c: CommitView|
                sorted_keys(c.tree) && #[trigger] commit_data(c).is_prefix_of(data@) ==> (r matches Some(
                    d,
                ) && d@ == c),
    {
        let _len = data.len();
        match bincode_decode_commit(data) {
            Some(t) => {
                let (message, timestamp, parent, pairs) = t;
                let ghost pv = pairs_view(pairs@);
                let mut tree: FileMap<String> = FileMap::new();
                let n = pairs.len();
                let mut i: usize = 0;
                assert(pv.subrange(0, 0) =~= Seq::<(Seq<char>, Seq<char>)>::empty());
                while i < n
                    invariant
                        n == pairs@.len(),
                        pv == pairs_view(pairs@),
                        i <= n,
                        tree@ == map_of_pairs(pv.subrange(0, i as int)),
                    decreases n - i,
                {
                    let k = pairs[i].0.clone();
                    let v = pairs[i].1.clone();
                    tree.insert(k, v);
                    proof {
                        let sub = pv.subrange(0, i + 1);
                        assert(sub.drop_last() =~= pv.subrange(0, i as int));
                        assert(sub.last() == pv[i as int]);
                    }
                    i = i + 1;
                }
                assert(pv.subrange(0, n as int) =~= pv);
                proof {
                    use_type_invariant(&tree);
                }
                let c = Commit { message, timestamp, parent, tree };
                proof {
                    lemma_decoded_commit(data@, c@, pv);
                }
                Some(c)
            },
            None => {
                proof {
                    assert forall|c2: CommitView|
                        !(sorted_keys(c2.tree) && #[trigger] commit_data(c2).is_prefix_of(data@)) by {
                        if commit_data(c2).is_prefix_of(data@) {
                            assert(enc_commit(c2.message, c2.timestamp, c2.parent, c2.tree).is_prefix_of(
                                data@,
                            ));
                        }
                    }
                }
                None
            },
        }
    }
}

impl Duplicate for Commit {
    fn duplicate(&self) -> (r: Self) {
        let parent = match &self.parent {
            Some(p) => Some(p.clone()),
            None => None,
        };
        Commit {
            message: self.message.clone(),
            timestamp: self.timestamp,
            parent,
            tree: self.tree.duplicate(),
        }
    }
}

} // verus!
