//! Maps and sets keyed by file names (or branch names, or object ids),
//! kept sorted by name so that listing them and encoding them is
//! deterministic.

use vstd::prelude::*;
use crate::text::{
    Order, compare_str, seq_lt, lemma_lt_irreflexive, lemma_lt_transitive, lemma_lt_total,
};

verus! {

/// Keys strictly increasing: sorted and free of duplicates.
pub open spec fn sorted_keys<V>(s: Seq<(Seq<char>, V)>) -> bool {
    forall|i: int, j: int| 0 <= i < j < s.len() ==> seq_lt(#[trigger] s[i].0, #[trigger] s[j].0)
}

/// The map that an association list denotes.
pub open spec fn map_of<V>(s: Seq<(Seq<char>, V)>) -> Map<Seq<char>, V> {
    Map::new(
        |k: Seq<char>| exists|i: int| 0 <= i < s.len() && #[trigger] s[i].0 == k,
        |k: Seq<char>| s[index_of_key(s, k)].1,
    )
}

/// A position at which `k` is a key of `s`, where there is one.
pub open spec fn index_of_key<V>(s: Seq<(Seq<char>, V)>, k: Seq<char>) -> int {
    choose|i: int| 0 <= i < s.len() && #[trigger] s[i].0 == k
}

/// The keys of an association list, in order.
pub open spec fn keys_of<V>(s: Seq<(Seq<char>, V)>) -> Seq<Seq<char>> {
    s.map_values(|e: (Seq<char>, V)| e.0)
}

/// In a list with strictly increasing keys, a key occurs at one position only.
pub proof fn lemma_sorted_unique<V>(s: Seq<(Seq<char>, V)>, i: int, j: int)
    requires
        sorted_keys(s),
        0 <= i < s.len(),
        0 <= j < s.len(),
        s[i].0 == s[j].0,
    ensures
        i == j,
{
    if i < j {
        assert(seq_lt(s[i].0, s[j].0));
        lemma_lt_irreflexive(s[i].0);
    } else if j < i {
        assert(seq_lt(s[j].0, s[i].0));
        lemma_lt_irreflexive(s[i].0);
    }
}

/// Each entry of a list with strictly increasing keys is what its map holds.
pub proof fn lemma_map_of_index<V>(s: Seq<(Seq<char>, V)>, i: int)
    requires
        sorted_keys(s),
        0 <= i < s.len(),
    ensures
        map_of(s).contains_key(s[i].0),
        map_of(s)[s[i].0] == s[i].1,
{
    let k = s[i].0;
    assert(exists|j: int| 0 <= j < s.len() && #[trigger] s[j].0 == k);
    let j = index_of_key(s, k);
    lemma_sorted_unique(s, i, j);
    assert(map_of(s).contains_key(k));
    assert(map_of(s)[k] == s[j].1);
}

/// Every value of an association list, read through its map.
pub proof fn lemma_map_of_all<V>(s: Seq<(Seq<char>, V)>)
    requires
        sorted_keys(s),
    ensures
        forall|i: int|
            #![trigger s[i]]
            0 <= i < s.len() ==> map_of(s).contains_key(s[i].0) && map_of(s)[s[i].0] == s[i].1,
        forall|k: Seq<char>|
            #[trigger] map_of(s).contains_key(k) ==> exists|i: int| 0 <= i < s.len() && s[i].0 == k,
{
    assert forall|i: int| #![trigger s[i]] 0 <= i < s.len() implies map_of(s).contains_key(s[i].0)
        && map_of(s)[s[i].0] == s[i].1 by {
        lemma_map_of_index(s, i);
    }
}

/// Replacing the value at an existing key keeps the keys and updates the map.
pub proof fn lemma_update_entry<V>(s: Seq<(Seq<char>, V)>, i: int, k: Seq<char>, v: V)
    requires
        sorted_keys(s),
        0 <= i < s.len(),
        s[i].0 == k,
    ensures
        sorted_keys(s.update(i, (k, v))),
        map_of(s.update(i, (k, v))) == map_of(s).insert(k, v),
{
    let t = s.update(i, (k, v));
    assert(sorted_keys(t)) by {
        assert forall|a: int, b: int| 0 <= a < b < t.len() implies seq_lt(
            #[trigger] t[a].0,
            #[trigger] t[b].0,
        ) by {
            assert(seq_lt(s[a].0, s[b].0));
        }
    }
    lemma_map_of_all(s);
    lemma_map_of_all(t);
    assert forall|q: Seq<char>| #[trigger] map_of(t).contains_key(q) == map_of(s).insert(
        k,
        v,
    ).contains_key(q) by {
        if map_of(t).contains_key(q) {
            let j = choose|j: int| 0 <= j < t.len() && t[j].0 == q;
            assert(s[j].0 == q);
        }
        if map_of(s).contains_key(q) {
            let j = choose|j: int| 0 <= j < s.len() && s[j].0 == q;
            assert(t[j].0 == q);
        }
        if q == k {
            assert(t[i].0 == q);
        }
    }
    assert forall|q: Seq<char>| #[trigger] map_of(t).contains_key(q) implies map_of(t)[q]
        == map_of(s).insert(k, v)[q] by {
        let j = choose|j: int| 0 <= j < t.len() && t[j].0 == q;
        assert(t[j].0 == q);
        if q != k {
            assert(s[j].0 == q);
        } else {
            lemma_sorted_unique(t, i, j);
        }
    }
    assert(map_of(t) =~= map_of(s).insert(k, v));
}

/// Inserting a new key at its place keeps the keys increasing and extends the map.
pub proof fn lemma_insert_entry<V>(s: Seq<(Seq<char>, V)>, i: int, k: Seq<char>, v: V)
    requires
        sorted_keys(s),
        0 <= i <= s.len(),
        forall|j: int| 0 <= j < i ==> seq_lt(#[trigger] s[j].0, k),
        forall|j: int| i <= j < s.len() ==> seq_lt(k, #[trigger] s[j].0),
    ensures
        sorted_keys(s.insert(i, (k, v))),
        map_of(s.insert(i, (k, v))) == map_of(s).insert(k, v),
        !map_of(s).contains_key(k),
{
    let t = s.insert(i, (k, v));
    assert(sorted_keys(t)) by {
        assert forall|a: int, b: int| 0 <= a < b < t.len() implies seq_lt(
            #[trigger] t[a].0,
            #[trigger] t[b].0,
        ) by {
            if b < i {
                assert(seq_lt(s[a].0, s[b].0));
            } else if b == i {
            } else if a < i {
                lemma_lt_transitive(s[a].0, k, s[b - 1].0);
            } else if a == i {
            } else {
                assert(seq_lt(s[a - 1].0, s[b - 1].0));
            }
        }
    }
    lemma_map_of_all(s);
    lemma_map_of_all(t);
    if map_of(s).contains_key(k) {
        let j = choose|j: int| 0 <= j < s.len() && s[j].0 == k;
        lemma_lt_irreflexive(k);
    }
    assert forall|q: Seq<char>| #[trigger] map_of(t).contains_key(q) == map_of(s).insert(
        k,
        v,
    ).contains_key(q) by {
        if map_of(t).contains_key(q) && q != k {
            let j = choose|j: int| 0 <= j < t.len() && t[j].0 == q;
            if j < i {
                assert(s[j].0 == q);
            } else {
                assert(s[j - 1].0 == q);
            }
        }
        if map_of(s).contains_key(q) {
            let j = choose|j: int| 0 <= j < s.len() && s[j].0 == q;
            if j < i {
                assert(t[j].0 == q);
            } else {
                assert(t[j + 1].0 == q);
            }
        }
        if q == k {
            assert(t[i].0 == q);
        }
    }
    assert forall|q: Seq<char>| #[trigger] map_of(t).contains_key(q) implies map_of(t)[q]
        == map_of(s).insert(k, v)[q] by {
        let j = choose|j: int| 0 <= j < t.len() && t[j].0 == q;
        assert(t[j].0 == q);
        if q == k {
            lemma_sorted_unique(t, i, j);
        } else if j < i {
            assert(s[j].0 == q);
        } else {
            assert(s[j - 1].0 == q);
        }
    }
    assert(map_of(t) =~= map_of(s).insert(k, v));
}

/// Removing an entry keeps the keys increasing and removes the key from the map.
pub proof fn lemma_remove_entry<V>(s: Seq<(Seq<char>, V)>, i: int)
    requires
        sorted_keys(s),
        0 <= i < s.len(),
    ensures
        sorted_keys(s.remove(i)),
        map_of(s.remove(i)) == map_of(s).remove(s[i].0),
{
    let k = s[i].0;
    let t = s.remove(i);
    assert(sorted_keys(t)) by {
        assert forall|a: int, b: int| 0 <= a < b < t.len() implies seq_lt(
            #[trigger] t[a].0,
            #[trigger] t[b].0,
        ) by {
            if b < i {
                assert(seq_lt(s[a].0, s[b].0));
            } else if a < i {
                assert(seq_lt(s[a].0, s[b + 1].0));
            } else {
                assert(seq_lt(s[a + 1].0, s[b + 1].0));
            }
        }
    }
    lemma_map_of_all(s);
    lemma_map_of_all(t);
    assert forall|q: Seq<char>| #[trigger] map_of(t).contains_key(q) == map_of(s).remove(
        k,
    ).contains_key(q) by {
        if map_of(t).contains_key(q) {
            let j = choose|j: int| 0 <= j < t.len() && t[j].0 == q;
            if j < i {
                assert(s[j].0 == q);
                if q == k {
                    lemma_sorted_unique(s, j, i);
                }
            } else {
                assert(s[j + 1].0 == q);
                if q == k {
                    lemma_sorted_unique(s, j + 1, i);
                }
            }
        }
        if map_of(s).contains_key(q) && q != k {
            let j = choose|j: int| 0 <= j < s.len() && s[j].0 == q;
            if j < i {
                assert(t[j].0 == q);
            } else {
                assert(j != i);
                assert(t[j - 1].0 == q);
            }
        }
    }
    assert forall|q: Seq<char>| #[trigger] map_of(t).contains_key(q) implies map_of(t)[q]
        == map_of(s)[q] by {
        let j = choose|j: int| 0 <= j < t.len() && t[j].0 == q;
        if j < i {
            assert(s[j].0 == q);
        } else {
            assert(s[j + 1].0 == q);
        }
    }
    assert(map_of(t) =~= map_of(s).remove(k));
}

/// The names of the first `i + 1` entries are those of the first `i` and the `i`-th.
pub proof fn lemma_prefix_step<V>(e: Seq<(Seq<char>, V)>, i: int)
    requires
        0 <= i < e.len(),
    ensures
        forall|f: Seq<char>| #[trigger]
            keys_of(e).subrange(0, i + 1).contains(f) <==> keys_of(e).subrange(0, i).contains(f)
                || f == e[i].0,
{
    let a = keys_of(e).subrange(0, i);
    let b = keys_of(e).subrange(0, i + 1);
    assert(b =~= a.push(e[i].0));
    assert forall|f: Seq<char>| #[trigger] b.contains(f) <==> a.contains(f) || f == e[i].0 by {
        if a.contains(f) {
            let x = choose|x: int| 0 <= x < a.len() && a[x] == f;
            assert(b[x] == f);
        }
        if b.contains(f) && f != e[i].0 {
            let x = choose|x: int| 0 <= x < b.len() && b[x] == f;
            assert(a[x] == f);
        }
        if f == e[i].0 {
            assert(b[i] == f);
        }
    }
}

/// The names of all entries.
pub proof fn lemma_prefix_all<V>(e: Seq<(Seq<char>, V)>)
    ensures
        keys_of(e).subrange(0, e.len() as int) == keys_of(e),
        forall|f: Seq<char>| !(#[trigger] keys_of(e).subrange(0, 0).contains(f)),
{
    assert(keys_of(e).subrange(0, e.len() as int) =~= keys_of(e));
}

/// Names strictly increasing.
pub open spec fn strictly_sorted(l: Seq<Seq<char>>) -> bool {
    forall|i: int, j: int| 0 <= i < j < l.len() ==> seq_lt(#[trigger] l[i], #[trigger] l[j])
}

/// The members of a finite set of names, in increasing order.
pub open spec fn sorted_list(u: Set<Seq<char>>) -> Seq<Seq<char>> {
    choose|l: Seq<Seq<char>>|
        strictly_sorted(l) && forall|x: Seq<char>| #[trigger] l.contains(x) <==> u.contains(x)
}

/// Two strictly increasing lists with the same members are the same list.
#[verifier::rlimit(30)]
pub proof fn lemma_sorted_lists_equal(a: Seq<Seq<char>>, b: Seq<Seq<char>>)
    requires
        strictly_sorted(a),
        strictly_sorted(b),
        forall|x: Seq<char>|
            #![trigger a.contains(x)]
            #![trigger b.contains(x)]
            a.contains(x) <==> b.contains(x),
    ensures
        a == b,
    decreases a.len(),
{
    if a.len() == 0 {
        if b.len() > 0 {
            assert(b.contains(b[0]));
        }
        assert(a =~= b);
    } else {
        if b.len() == 0 {
            assert(a.contains(a[0]));
        }
        assert(a.contains(a[0]));
        assert(b.contains(b[0]));
        let j = choose|j: int| 0 <= j < b.len() && b[j] == a[0];
        let k = choose|k: int| 0 <= k < a.len() && a[k] == b[0];
        if j > 0 {
            assert(seq_lt(b[0], b[j]));
            if k > 0 {
                assert(seq_lt(a[0], a[k]));
                lemma_lt_transitive(b[0], a[0], b[0]);
            }
            lemma_lt_irreflexive(b[0]);
        }
        assert(a[0] == b[0]);
        let a1 = a.drop_first();
        let b1 = b.drop_first();
        assert forall|x: Seq<char>|
            #![trigger a1.contains(x)]
            #![trigger b1.contains(x)]
            a1.contains(x) <==> b1.contains(x) by {
            if a1.contains(x) {
                let p = choose|p: int| 0 <= p < a1.len() && a1[p] == x;
                assert(a[p + 1] == x);
                assert(seq_lt(a[0], a[p + 1]));
                assert(b.contains(x));
                let q = choose|q: int| 0 <= q < b.len() && b[q] == x;
                if q == 0 {
                    lemma_lt_irreflexive(x);
                }
                assert(b1[q - 1] == x);
            }
            if b1.contains(x) {
                let p = choose|p: int| 0 <= p < b1.len() && b1[p] == x;
                assert(b[p + 1] == x);
                assert(seq_lt(b[0], b[p + 1]));
                assert(a.contains(x));
                let q = choose|q: int| 0 <= q < a.len() && a[q] == x;
                if q == 0 {
                    lemma_lt_irreflexive(x);
                }
                assert(a1[q - 1] == x);
            }
        }
        lemma_sorted_lists_equal(a1, b1);
        assert(a =~= seq![a[0]] + a1);
        assert(b =~= seq![b[0]] + b1);
    }
}

/// The map that an association list denotes has finitely many keys.
pub proof fn lemma_map_of_finite<V>(s: Seq<(Seq<char>, V)>)
    ensures
        map_of(s).dom().finite(),
        map_of(s).dom() == keys_of(s).to_set(),
{
    let ks = keys_of(s);
    assert(map_of(s).dom() =~= ks.to_set()) by {
        assert forall|k: Seq<char>| map_of(s).dom().contains(k) implies ks.to_set().contains(k) by {
            let i = choose|i: int| 0 <= i < s.len() && s[i].0 == k;
            assert(ks[i] == k);
        }
        assert forall|k: Seq<char>| ks.to_set().contains(k) implies map_of(s).dom().contains(k) by {
            let i = choose|i: int| 0 <= i < ks.len() && ks[i] == k;
            assert(s[i].0 == k);
        }
    }
    vstd::seq_lib::seq_to_set_is_finite(ks);
}

/// A finite nonempty set of names has a least member.
#[verifier::rlimit(30)]
pub proof fn lemma_least_exists(u: Set<Seq<char>>)
    requires
        u.finite(),
        u.len() > 0,
    ensures
        exists|m: Seq<char>|
            u.contains(m) && forall|x: Seq<char>| #[trigger] u.contains(x) ==> !seq_lt(x, m),
    decreases u.len(),
{
    let a = u.choose();
    assert(u.contains(a));
    let r = u.remove(a);
    if r.len() == 0 {
        assert forall|x: Seq<char>| #[trigger] u.contains(x) implies !seq_lt(x, a) by {
            if x != a {
                assert(r.contains(x));
            }
            lemma_lt_irreflexive(a);
        }
    } else {
        lemma_least_exists(r);
        let m = choose|m: Seq<char>|
            r.contains(m) && forall|x: Seq<char>| #[trigger] r.contains(x) ==> !seq_lt(x, m);
        lemma_lt_total(a, m);
        if seq_lt(a, m) {
            assert forall|x: Seq<char>| #[trigger] u.contains(x) implies !seq_lt(x, a) by {
                if x == a {
                    lemma_lt_irreflexive(a);
                } else {
                    assert(r.contains(x));
                    if seq_lt(x, a) {
                        lemma_lt_transitive(x, a, m);
                    }
                }
            }
        } else {
            assert forall|x: Seq<char>| #[trigger] u.contains(x) implies !seq_lt(x, m) by {
                if x != a {
                    assert(r.contains(x));
                }
            }
        }
    }
}

/// Every finite set of names has a sorted listing.
pub proof fn lemma_sorted_list_exists(u: Set<Seq<char>>)
    requires
        u.finite(),
    ensures
        strictly_sorted(sorted_list(u)),
        forall|x: Seq<char>| #[trigger] sorted_list(u).contains(x) <==> u.contains(x),
    decreases u.len(),
{
    let l = sorted_listing(u);
    assert(strictly_sorted(l) && forall|x: Seq<char>| #[trigger] l.contains(x) <==> u.contains(x));
}

/// A sorted listing of a finite set of names, built from its least member on.
#[verifier::rlimit(30)]
proof fn sorted_listing(u: Set<Seq<char>>) -> (l: Seq<Seq<char>>)
    requires
        u.finite(),
    ensures
        strictly_sorted(l),
        forall|x: Seq<char>| #[trigger] l.contains(x) <==> u.contains(x),
    decreases u.len(),
{
    if u.len() == 0 {
        assert(u =~= Set::<Seq<char>>::empty()) by {
            if exists|x: Seq<char>| u.contains(x) {
                let x = choose|x: Seq<char>| u.contains(x);
                vstd::set::axiom_set_contains_len(u, x);
            }
        }
        Seq::empty()
    } else {
        lemma_least_exists(u);
        let m = choose|m: Seq<char>|
            u.contains(m) && forall|x: Seq<char>| #[trigger] u.contains(x) ==> !seq_lt(x, m);
        let r = u.remove(m);
        let t = sorted_listing(r);
        let l = seq![m] + t;
        assert forall|i: int, j: int| 0 <= i < j < l.len() implies seq_lt(
            #[trigger] l[i],
            #[trigger] l[j],
        ) by {
            if i == 0 {
                assert(l[j] == t[j - 1]);
                assert(t.contains(t[j - 1]));
                assert(r.contains(l[j]));
                assert(u.contains(l[j]));
                lemma_lt_total(m, l[j]);
            } else {
                assert(l[i] == t[i - 1] && l[j] == t[j - 1]);
            }
        }
        assert forall|x: Seq<char>| #[trigger] l.contains(x) <==> u.contains(x) by {
            if l.contains(x) {
                let i = choose|i: int| 0 <= i < l.len() && l[i] == x;
                if i > 0 {
                    assert(t[i - 1] == x);
                    assert(t.contains(x));
                    assert(r.contains(x));
                }
            }
            if u.contains(x) {
                if x == m {
                    assert(l[0] == x);
                } else {
                    assert(r.contains(x));
                    assert(t.contains(x));
                    let i = choose|i: int| 0 <= i < t.len() && t[i] == x;
                    assert(l[i + 1] == x);
                }
            }
        }
        l
    }
}

/// The map of a list with strictly increasing keys, built from its last
/// entry back: the map of the rest, with the last entry put in.
#[verifier::rlimit(30)]
pub proof fn lemma_map_of_last<V>(s: Seq<(Seq<char>, V)>)
    requires
        sorted_keys(s),
        s.len() > 0,
    ensures
        map_of(s) == map_of(s.drop_last()).insert(s.last().0, s.last().1),
{
    let d = s.drop_last();
    let n = s.len() - 1;
    assert(sorted_keys(d));
    lemma_map_of_all(s);
    lemma_map_of_all(d);
    let m = map_of(d).insert(s.last().0, s.last().1);
    assert forall|k: Seq<char>| #[trigger] map_of(s).contains_key(k) <==> m.contains_key(k) by {
        if map_of(s).contains_key(k) {
            let i = choose|i: int| 0 <= i < s.len() && #[trigger] s[i].0 == k;
            if i < n {
                assert(d[i].0 == k);
            }
        }
        if map_of(d).contains_key(k) {
            let i = choose|i: int| 0 <= i < d.len() && #[trigger] d[i].0 == k;
            assert(s[i].0 == k);
        }
        if k == s.last().0 {
            assert(s[n].0 == k);
        }
    }
    assert forall|k: Seq<char>| #[trigger] map_of(s).contains_key(k) implies map_of(s)[k] == m[k] by {
        let i = choose|i: int| 0 <= i < s.len() && #[trigger] s[i].0 == k;
        lemma_map_of_index(s, i);
        if i < n {
            lemma_map_of_index(d, i);
            if k == s.last().0 {
                lemma_sorted_unique(s, i, n);
            }
        }
    }
    assert(map_of(s) =~= m);
}

/// Two lists with strictly increasing keys that denote the same map are
/// the same list.
#[verifier::rlimit(30)]
pub proof fn lemma_same_map_same_entries<V>(a: Seq<(Seq<char>, V)>, b: Seq<(Seq<char>, V)>)
    requires
        sorted_keys(a),
        sorted_keys(b),
        map_of(a) == map_of(b),
    ensures
        a == b,
{
    lemma_map_of_all(a);
    lemma_map_of_all(b);
    let ka = keys_of(a);
    let kb = keys_of(b);
    assert(strictly_sorted(ka)) by {
        assert forall|i: int, j: int| 0 <= i < j < ka.len() implies seq_lt(
            #[trigger] ka[i],
            #[trigger] ka[j],
        ) by {
            assert(ka[i] == a[i].0 && ka[j] == a[j].0);
        }
    }
    assert(strictly_sorted(kb)) by {
        assert forall|i: int, j: int| 0 <= i < j < kb.len() implies seq_lt(
            #[trigger] kb[i],
            #[trigger] kb[j],
        ) by {
            assert(kb[i] == b[i].0 && kb[j] == b[j].0);
        }
    }
    assert forall|x: Seq<char>|
        #![trigger ka.contains(x)]
        #![trigger kb.contains(x)]
        ka.contains(x) <==> kb.contains(x) by {
        if ka.contains(x) {
            let i = choose|i: int| 0 <= i < ka.len() && ka[i] == x;
            assert(a[i].0 == x);
            assert(map_of(a).contains_key(x));
            let j = choose|j: int| 0 <= j < b.len() && #[trigger] b[j].0 == x;
            assert(kb[j] == x);
        }
        if kb.contains(x) {
            let i = choose|i: int| 0 <= i < kb.len() && kb[i] == x;
            assert(b[i].0 == x);
            assert(map_of(b).contains_key(x));
            let j = choose|j: int| 0 <= j < a.len() && #[trigger] a[j].0 == x;
            assert(ka[j] == x);
        }
    }
    lemma_sorted_lists_equal(ka, kb);
    assert forall|i: int| 0 <= i < a.len() implies a[i] == b[i] by {
        assert(ka[i] == kb[i]);
        lemma_map_of_index(a, i);
        lemma_map_of_index(b, i);
    }
    assert(a =~= b);
}

/// Values that can be copied with their view kept.
pub trait Duplicate: View + Sized {
    fn duplicate(&self) -> (r: Self)
        ensures
            r@ == self@,
    ;
}

impl Duplicate for String {
    fn duplicate(&self) -> (r: Self) {
        self.clone()
    }
}

impl Duplicate for () {
    fn duplicate(&self) -> (r: Self) {
        ()
    }
}

impl Duplicate for Vec<u8> {
    fn duplicate(&self) -> (r: Self) {
        let mut r: Vec<u8> = Vec::new();
        let n = self.len();
        let mut i: usize = 0;
        while i < n
            invariant
                n == self@.len(),
                i <= n,
                r@ == self@.subrange(0, i as int),
            decreases n - i,
        {
            r.push(self[i]);
            i = i + 1;
            assert(r@ =~= self@.subrange(0, i as int));
        }
        assert(r@ =~= self@);
        r
    }
}

/// A map from names to values, stored as a list sorted by name.
#[derive(Debug)]
pub struct FileMap<V: View> {
    entries: Vec<(String, V)>,
}

impl<V: View> View for FileMap<V> {
    type V = Map<Seq<char>, V::V>;

    open spec fn view(&self) -> Map<Seq<char>, V::V> {
        map_of(self.entries())
    }
}

impl<V: View> FileMap<V> {
    /// The entries, names taken by their characters, in increasing name order.
    pub closed spec fn entries(self) -> Seq<(Seq<char>, V::V)> {
        self.entries@.map_values(|e: (String, V)| (e.0@, e.1@))
    }

    /// Well-formed: names strictly increasing. Every map value keeps it.
    #[verifier::type_invariant]
    pub open spec fn wf(self) -> bool {
        sorted_keys(self.entries())
    }

    /// The number of entries.
    pub open spec fn size(self) -> nat {
        self.entries().len()
    }

    pub proof fn lemma_facts(&self)
        requires
            self.wf(),
        ensures
            sorted_keys(self.entries()),
            self.entries().len() == self.size(),
            self@ == map_of(self.entries()),
            forall|i: int|
                #![trigger self.entries()[i]]
                0 <= i < self.entries().len() ==> self@.contains_key(self.entries()[i].0)
                    && self@[self.entries()[i].0] == self.entries()[i].1,
            forall|k: Seq<char>|
                #[trigger] self@.contains_key(k) ==> exists|i: int|
                    0 <= i < self.entries().len() && self.entries()[i].0 == k,
            self@.dom().finite(),
            self@.dom().len() == self.size(),
            forall|k: Seq<char>| #[trigger]
                keys_of(self.entries()).contains(k) <==> self@.contains_key(k),
    {
        let e = self.entries();
        lemma_map_of_all(e);
        let ks = keys_of(e);
        assert(ks.no_duplicates()) by {
            assert forall|i: int, j: int| 0 <= i < ks.len() && 0 <= j < ks.len() && i != j implies ks[i]
                != ks[j] by {
                if ks[i] == ks[j] {
                    lemma_sorted_unique(e, i, j);
                }
            }
        }
        assert(self@.dom() =~= ks.to_set()) by {
            assert forall|k: Seq<char>| self@.dom().contains(k) implies ks.to_set().contains(k) by {
                let i = choose|i: int| 0 <= i < e.len() && e[i].0 == k;
                assert(ks[i] == k);
            }
            assert forall|k: Seq<char>| ks.to_set().contains(k) implies self@.dom().contains(k) by {
                let i = choose|i: int| 0 <= i < ks.len() && ks[i] == k;
                assert(e[i].0 == k);
            }
        }
        ks.unique_seq_to_set();
        assert forall|k: Seq<char>| #[trigger] keys_of(self.entries()).contains(k) <==> self@.contains_key(
            k,
        ) by {
            assert(ks.to_set().contains(k) <==> ks.contains(k));
        }
    }

    /// The names, in order, are the sorted listing of the map's domain.
    pub proof fn lemma_keys_sorted(&self)
        requires
            self.wf(),
        ensures
            keys_of(self.entries()) == sorted_list(self@.dom()),
            self@.dom().finite(),
    {
        self.lemma_facts();
        let l = keys_of(self.entries());
        let u = self@.dom();
        assert(strictly_sorted(l)) by {
            assert forall|i: int, j: int| 0 <= i < j < l.len() implies seq_lt(
                #[trigger] l[i],
                #[trigger] l[j],
            ) by {
                assert(l[i] == self.entries()[i].0 && l[j] == self.entries()[j].0);
            }
        }
        assert(forall|x: Seq<char>| #[trigger] l.contains(x) <==> u.contains(x));
        let c = sorted_list(u);
        assert(strictly_sorted(c) && forall|x: Seq<char>| #[trigger] c.contains(x) <==> u.contains(x));
        lemma_sorted_lists_equal(l, c);
    }

    /// An empty map.
    pub fn new() -> (r: Self)
        ensures
            r@ == Map::<Seq<char>, V::V>::empty(),
            r.entries() == Seq::<(Seq<char>, V::V)>::empty(),
            r.size() == 0,
    {
        let r = FileMap { entries: Vec::new() };
        assert(r.entries() =~= Seq::<(Seq<char>, V::V)>::empty());
        assert(r@ =~= Map::<Seq<char>, V::V>::empty());
        r
    }

    /// The number of entries.
    pub fn len(&self) -> (r: usize)
        ensures
            r == self.size(),
            r == self.entries().len(),
    {
        self.entries.len()
    }

    /// True when the map has no entries.
    pub fn is_empty(&self) -> (r: bool)
        ensures
            r <==> self@ == Map::<Seq<char>, V::V>::empty(),
            r <==> self.size() == 0,
    {
        proof {
            use_type_invariant(self);
            self.lemma_facts();
        }
        let r = self.entries.len() == 0;
        if !r {
            assert(self@.contains_key(self.entries()[0].0));
            assert(!Map::<Seq<char>, V::V>::empty().contains_key(self.entries()[0].0));
        } else {
            assert(self@ =~= Map::<Seq<char>, V::V>::empty());
        }
        r
    }

    /// The name of the `i`-th entry in name order.
    pub fn key_at(&self, i: usize) -> (r: &String)
        requires
            i < self.size(),
        ensures
            r@ == self.entries()[i as int].0,
    {
        &self.entries[i].0
    }

    /// The value of the `i`-th entry in name order.
    pub fn value_at(&self, i: usize) -> (r: &V)
        requires
            i < self.size(),
        ensures
            r@ == self.entries()[i as int].1,
    {
        &self.entries[i].1
    }

    /// Where `key` stands, or would stand, in the name order.
    fn position(&self, key: &str) -> (r: (bool, usize))
        ensures
            r.1 <= self.entries().len(),
            forall|i: int| 0 <= i < r.1 ==> seq_lt(#[trigger] self.entries()[i].0, key@),
            r.0 ==> r.1 < self.entries().len() && self.entries()[r.1 as int].0 == key@,
            !r.0 ==> forall|i: int|
                r.1 <= i < self.entries().len() ==> seq_lt(key@, #[trigger] self.entries()[i].0),
    {
        proof {
            use_type_invariant(self);
        }
        let n = self.entries.len();
        let mut i: usize = 0;
        while i < n
            invariant
                n == self.entries().len(),
                i <= n,
                sorted_keys(self.entries()),
                forall|j: int| 0 <= j < i ==> seq_lt(#[trigger] self.entries()[j].0, key@),
            decreases n - i,
        {
            let c = compare_str(self.entries[i].0.as_str(), key);
            match c {
                Order::Less => {
                    i = i + 1;
                },
                Order::Equal => {
                    return (true, i);
                },
                Order::Greater => {
                    proof {
                        assert forall|j: int| i <= j < self.entries().len() implies seq_lt(
                            key@,
                            #[trigger] self.entries()[j].0,
                        ) by {
                            if j > i {
                                lemma_lt_transitive(key@, self.entries()[i as int].0, self.entries()[j].0);
                            }
                        }
                    }
                    return (false, i);
                },
            }
        }
        (false, i)
    }

    /// The value stored under `key`, if any.
    pub fn get(&self, key: &str) -> (r: Option<&V>)
        ensures
            match r {
                Some(v) => self@.contains_key(key@) && v@ == self@[key@],
                None => !self@.contains_key(key@),
            },
    {
        proof {
            use_type_invariant(self);
            self.lemma_facts();
        }
        let (found, i) = self.position(key);
        if found {
            proof {
                assert(self.entries()[i as int].1 == self.entries@[i as int].1@);
                assert(self@.contains_key(self.entries()[i as int].0));
            }
            Some(&self.entries[i].1)
        } else {
            proof {
                if self@.contains_key(key@) {
                    let j = choose|j: int| 0 <= j < self.entries().len() && self.entries()[j].0 == key@;
                    if j < i {
                        lemma_lt_irreflexive(key@);
                    } else {
                        lemma_lt_irreflexive(key@);
                    }
                }
            }
            None
        }
    }

    /// True when `key` has a value.
    pub fn contains_key(&self, key: &str) -> (r: bool)
        ensures
            r == self@.contains_key(key@),
    {
        match self.get(key) {
            Some(_) => true,
            None => false,
        }
    }

    /// Stores `value` under `key`, replacing any value there.
    pub fn insert(&mut self, key: String, value: V)
        ensures
            final(self)@ == old(self)@.insert(key@, value@),
            final(self).size() == old(self).size() + (if old(self)@.contains_key(key@) {
                0int
            } else {
                1int
            }),
    {
        proof {
            use_type_invariant(&*self);
            self.lemma_facts();
        }
        let ghost s = self.entries();
        let ghost k = key@;
        let ghost val = value@;
        let (found, i) = self.position(key.as_str());
        let mut e: Vec<(String, V)> = Vec::new();
        std::mem::swap(&mut e, &mut self.entries);
        if found {
            e.set(i, (key, value));
            proof {
                assert(e@.map_values(|x: (String, V)| (x.0@, x.1@)) =~= s.update(i as int, (k, val)));
                lemma_update_entry(s, i as int, k, val);
            }
        } else {
            e.insert(i, (key, value));
            proof {
                assert(e@.map_values(|x: (String, V)| (x.0@, x.1@)) =~= s.insert(i as int, (k, val)));
                lemma_insert_entry(s, i as int, k, val);
            }
        }
        self.entries = e;
    }

    /// Removes the entry under `key`, if any.
    pub fn remove(&mut self, key: &str)
        ensures
            final(self)@ == old(self)@.remove(key@),
    {
        proof {
            use_type_invariant(&*self);
            self.lemma_facts();
        }
        let ghost s = self.entries();
        let (found, i) = self.position(key);
        if found {
            let mut e: Vec<(String, V)> = Vec::new();
            std::mem::swap(&mut e, &mut self.entries);
            e.remove(i);
            proof {
                assert(e@.map_values(|x: (String, V)| (x.0@, x.1@)) =~= s.remove(i as int));
                lemma_remove_entry(s, i as int);
            }
            self.entries = e;
        } else {
            proof {
                if old(self)@.contains_key(key@) {
                    let j = choose|j: int| 0 <= j < s.len() && s[j].0 == key@;
                    lemma_lt_irreflexive(key@);
                }
                assert(self@ =~= old(self)@.remove(key@));
            }
        }
    }

    /// The names, in increasing order.
    pub fn keys(&self) -> (r: Vec<String>)
        ensures
            r@.map_values(|k: String| k@) == keys_of(self.entries()),
    {
        let mut r: Vec<String> = Vec::new();
        let n = self.entries.len();
        let mut i: usize = 0;
        while i < n
            invariant
                n == self.entries().len(),
                i <= n,
                r@.len() == i,
                forall|j: int| 0 <= j < i ==> #[trigger] r@[j]@ == self.entries()[j].0,
            decreases n - i,
        {
            let k = self.entries[i].0.clone();
            r.push(k);
            i = i + 1;
        }
        assert(r@.map_values(|k: String| k@) =~= keys_of(self.entries()));
        r
    }

    /// The entries themselves, in increasing name order.
    pub fn as_entries(&self) -> (r: &Vec<(String, V)>)
        ensures
            r@.map_values(|e: (String, V)| (e.0@, e.1@)) == self.entries(),
    {
        &self.entries
    }
}

impl<V: Duplicate> FileMap<V> {
    /// A copy with the same entries.
    pub fn duplicate(&self) -> (r: Self)
        ensures
            r.entries() == self.entries(),
            r@ == self@,
    {
        proof {
            use_type_invariant(self);
        }
        let mut v: Vec<(String, V)> = Vec::new();
        let n = self.entries.len();
        let mut i: usize = 0;
        while i < n
            invariant
                n == self.entries().len(),
                i <= n,
                v@.len() == i,
                forall|j: int|
                    0 <= j < i ==> (#[trigger] v@[j]).0@ == self.entries()[j].0 && v@[j].1@
                        == self.entries()[j].1,
            decreases n - i,
        {
            let k = self.entries[i].0.clone();
            let x = self.entries[i].1.duplicate();
            v.push((k, x));
            i = i + 1;
        }
        assert(v@.map_values(|e: (String, V)| (e.0@, e.1@)) =~= self.entries());
        let r = FileMap { entries: v };
        r
    }
}

impl<V: Duplicate> Clone for FileMap<V> {
    fn clone(&self) -> (r: Self)
        ensures
            r.entries() == self.entries(),
            r@ == self@,
    {
        self.duplicate()
    }
}

impl<V: Duplicate> Duplicate for FileMap<V> {
    fn duplicate(&self) -> (r: Self) {
        FileMap::duplicate(self)
    }
}

/// A set of names, kept in increasing order.
#[derive(Debug)]
pub struct NameSet {
    names: FileMap<()>,
}

impl View for NameSet {
    type V = Set<Seq<char>>;

    open spec fn view(&self) -> Set<Seq<char>> {
        self.map()@.dom()
    }
}

impl NameSet {
    /// The underlying map from names to nothing.
    pub closed spec fn map(self) -> FileMap<()> {
        self.names
    }

    /// The names, in increasing order.
    pub open spec fn list(self) -> Seq<Seq<char>> {
        keys_of(self.map().entries())
    }

    /// Well-formed: names strictly increasing. Every set value keeps it.
    #[verifier::type_invariant]
    pub open spec fn wf(self) -> bool {
        self.map().wf()
    }

    /// An empty set.
    pub fn new() -> (r: Self)
        ensures
            r@ == Set::<Seq<char>>::empty(),
            r.list() == Seq::<Seq<char>>::empty(),
    {
        let m = FileMap::new();
        proof {
            use_type_invariant(&m);
        }
        let r = NameSet { names: m };
        assert(r@ =~= Set::<Seq<char>>::empty());
        assert(r.list() =~= Seq::<Seq<char>>::empty());
        r
    }

    /// The number of names.
    pub fn len(&self) -> (r: usize)
        ensures
            r == self.list().len(),
    {
        self.names.len()
    }

    /// True when the set has no names.
    pub fn is_empty(&self) -> (r: bool)
        ensures
            r <==> self@ == Set::<Seq<char>>::empty(),
            r <==> self.list().len() == 0,
    {
        let r = self.names.is_empty();
        if r {
            assert(self@ =~= Set::<Seq<char>>::empty());
        } else {
            assert(self@ != Set::<Seq<char>>::empty()) by {
                assert(self.names@ != Map::<Seq<char>, ()>::empty());
                if self@ == Set::<Seq<char>>::empty() {
                    assert(self.names@ =~= Map::<Seq<char>, ()>::empty());
                }
            }
        }
        r
    }

    /// True when `name` is in the set.
    pub fn contains(&self, name: &str) -> (r: bool)
        ensures
            r == self@.contains(name@),
    {
        self.names.contains_key(name)
    }

    /// Adds `name`.
    pub fn insert(&mut self, name: String)
        ensures
            final(self)@ == old(self)@.insert(name@),
    {
        let mut m = FileMap::new();
        std::mem::swap(&mut m, &mut self.names);
        m.insert(name, ());
        proof {
            use_type_invariant(&m);
        }
        self.names = m;
        assert(self@ =~= old(self)@.insert(name@));
    }

    /// Removes `name`.
    pub fn remove(&mut self, name: &str)
        ensures
            final(self)@ == old(self)@.remove(name@),
    {
        let mut m = FileMap::new();
        std::mem::swap(&mut m, &mut self.names);
        m.remove(name);
        proof {
            use_type_invariant(&m);
        }
        self.names = m;
        assert(self@ =~= old(self)@.remove(name@));
    }

    /// The `i`-th name in increasing order.
    pub fn name_at(&self, i: usize) -> (r: &String)
        requires
            i < self.list().len(),
        ensures
            r@ == self.list()[i as int],
    {
        self.names.key_at(i)
    }

    /// The names, in increasing order.
    pub fn names(&self) -> (r: Vec<String>)
        ensures
            r@.map_values(|k: String| k@) == self.list(),
    {
        self.names.keys()
    }

    /// The listing is the sorted listing of the set.
    pub proof fn lemma_list_sorted(&self)
        requires
            self.wf(),
        ensures
            self.list() == sorted_list(self@),
            self@.finite(),
    {
        self.map().lemma_keys_sorted();
    }

    /// Every name of the list is in the set, and every member is listed.
    pub proof fn lemma_facts(&self)
        requires
            self.wf(),
        ensures
            forall|i: int| 0 <= i < self.list().len() ==> #[trigger] self@.contains(self.list()[i]),
            forall|k: Seq<char>|
                #[trigger] self@.contains(k) ==> exists|i: int|
                    0 <= i < self.list().len() && self.list()[i] == k,
            forall|i: int, j: int|
                0 <= i < j < self.list().len() ==> seq_lt(
                    #[trigger] self.list()[i],
                    #[trigger] self.list()[j],
                ),
    {
        self.map().lemma_facts();
        assert forall|k: Seq<char>| #[trigger] self@.contains(k) implies exists|i: int|
            0 <= i < self.list().len() && self.list()[i] == k by {
            let i = choose|i: int| 0 <= i < self.map().entries().len() && self.map().entries()[i].0 == k;
            assert(self.list()[i] == k);
        }
    }
}

impl Clone for NameSet {
    fn clone(&self) -> (r: Self)
        ensures
            r.list() == self.list(),
            r@ == self@,
    {
        let m = self.names.duplicate();
        proof {
            use_type_invariant(&m);
        }
        NameSet { names: m }
    }
}


} // verus!
