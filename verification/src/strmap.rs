//! `StrMap`, a finite map from strings to strings whose entries are kept in
//! ascending key order: the collection behind headers, query strings, path
//! parameters and cookies.

use vstd::prelude::*;
use crate::text::{chars_eq, chars_of, lemma_lex_irreflexive, lemma_lex_total, lemma_lex_transitive, lex_less, lex_lt};

verus! {

/// A string key and its value, as character sequences.
pub type Entry = (Seq<char>, Seq<char>);

/// The keys of `es` are strictly ascending.
pub open spec fn sorted_keys(es: Seq<Entry>) -> bool {
    forall|i: int, j: int| 0 <= i < j < es.len() ==> lex_lt(#[trigger] es[i].0, #[trigger] es[j].0)
}

/// Whether `k` is the key of some entry of `es`.
pub open spec fn has_key(es: Seq<Entry>, k: Seq<char>) -> bool {
    exists|i: int| 0 <= i < es.len() && #[trigger] es[i].0 == k
}

/// A position of `es` whose key is `k`, when there is one.
pub open spec fn key_pos(es: Seq<Entry>, k: Seq<char>) -> int {
    choose|i: int| 0 <= i < es.len() && #[trigger] es[i].0 == k
}

/// The map that a list of entries with distinct keys stands for.
pub open spec fn map_of(es: Seq<Entry>) -> Map<Seq<char>, Seq<char>> {
    Map::new(|k: Seq<char>| has_key(es, k), |k: Seq<char>| es[key_pos(es, k)].1)
}

pub proof fn lemma_sorted_distinct(es: Seq<Entry>, i: int, j: int)
    requires
        sorted_keys(es),
        0 <= i < es.len(),
        0 <= j < es.len(),
        i != j,
    ensures
        es[i].0 != es[j].0,
{
    if i < j {
        lemma_lex_irreflexive(es[i].0);
    } else {
        lemma_lex_irreflexive(es[j].0);
    }
}

/// In a sorted list, the value `map_of` gives a key is the value of the
/// entry that holds it.
pub proof fn lemma_map_of_at(es: Seq<Entry>, i: int)
    requires
        sorted_keys(es),
        0 <= i < es.len(),
    ensures
        map_of(es).contains_key(es[i].0),
        map_of(es)[es[i].0] == es[i].1,
{
    let k = es[i].0;
    assert(has_key(es, k));
    let j = key_pos(es, k);
    assert(map_of(es)[k] == es[j].1);
    if j != i {
        lemma_sorted_distinct(es, i, j);
    }
}

/// A list with distinct keys stands for the map of all but its last entry,
/// with the last entry stored.
pub proof fn lemma_map_of_push(es: Seq<Entry>)
    requires
        sorted_keys(es),
        es.len() > 0,
    ensures
        map_of(es) == map_of(es.drop_last()).insert(es.last().0, es.last().1),
{
    let init = es.drop_last();
    let n = es.len() - 1;
    assert(sorted_keys(init));
    assert forall|k: Seq<char>| #[trigger] has_key(es, k) == (has_key(init, k) || k == es.last().0)
        by {
        if has_key(es, k) {
            let j = choose|j: int| 0 <= j < es.len() && #[trigger] es[j].0 == k;
            if j < n {
                assert(init[j].0 == k);
            }
        }
        if has_key(init, k) {
            let j = choose|j: int| 0 <= j < init.len() && #[trigger] init[j].0 == k;
            assert(es[j].0 == k);
        }
        assert(es[n].0 == es.last().0);
    }
    assert forall|k: Seq<char>| #[trigger] has_key(es, k) implies map_of(es)[k] == map_of(
        init,
    ).insert(es.last().0, es.last().1)[k] by {
        let j = choose|j: int| 0 <= j < es.len() && #[trigger] es[j].0 == k;
        lemma_map_of_at(es, j);
        if j < n {
            lemma_map_of_at(init, j);
            lemma_sorted_distinct(es, j, n);
        }
    }
    assert(map_of(es) =~= map_of(init).insert(es.last().0, es.last().1));
}

/// In a list with distinct keys, the entries before the last stand for the
/// map without the last key.
pub proof fn lemma_map_of_drop_last(es: Seq<Entry>)
    requires
        sorted_keys(es),
        es.len() > 0,
    ensures
        map_of(es.drop_last()) == map_of(es).remove(es.last().0),
{
    let init = es.drop_last();
    let n = es.len() - 1;
    lemma_map_of_push(es);
    assert(!map_of(init).contains_key(es.last().0)) by {
        if has_key(init, es.last().0) {
            let j = choose|j: int| 0 <= j < init.len() && #[trigger] init[j].0 == es.last().0;
            lemma_sorted_distinct(es, j, n);
        }
    }
    assert(map_of(init) =~= map_of(init).insert(es.last().0, es.last().1).remove(es.last().0));
}

/// Two lists with ascending keys that stand for the same map are the same
/// list: the map fixes its entries and their order.
pub proof fn lemma_sorted_unique(a: Seq<Entry>, b: Seq<Entry>)
    requires
        sorted_keys(a),
        sorted_keys(b),
        map_of(a) == map_of(b),
    ensures
        a == b,
    decreases a.len(),
{
    if a.len() == 0 {
        if b.len() > 0 {
            assert(has_key(b, b[0].0));
            assert(map_of(b).contains_key(b[0].0));
        }
        assert(a =~= b);
    } else {
        assert(has_key(a, a.last().0));
        assert(map_of(a).contains_key(a.last().0));
        assert(b.len() > 0);
        let ka = a.last().0;
        let kb = b.last().0;
        assert(has_key(b, kb));
        assert(map_of(a).contains_key(kb));
        assert(has_key(b, ka));
        let i = choose|i: int| 0 <= i < a.len() && #[trigger] a[i].0 == kb;
        let j = choose|j: int| 0 <= j < b.len() && #[trigger] b[j].0 == ka;
        if ka != kb {
            assert(i != a.len() - 1);
            assert(j != b.len() - 1);
            assert(lex_lt(a[i].0, a[a.len() - 1].0));
            assert(lex_lt(b[j].0, b[b.len() - 1].0));
            lemma_lex_transitive(ka, kb, ka);
            lemma_lex_irreflexive(ka);
        }
        lemma_map_of_at(a, a.len() - 1);
        lemma_map_of_at(b, b.len() - 1);
        lemma_map_of_drop_last(a);
        lemma_map_of_drop_last(b);
        lemma_sorted_unique(a.drop_last(), b.drop_last());
        assert(a =~= a.drop_last().push(a.last()));
        assert(b =~= b.drop_last().push(b.last()));
    }
}

/// A finite map from strings to strings, entries in ascending key order.
#[derive(Debug)]
pub struct StrMap {
    entries: Vec<(String, String)>,
}

impl StrMap {
    /// The entries, as character sequences, in ascending key order.
    pub closed spec fn entries_view(&self) -> Seq<Entry> {
        entries_of(self.entries@)
    }

    #[verifier::type_invariant]
    spec fn inv(&self) -> bool {
        sorted_keys(self.entries_view())
    }

    /// The empty map.
    pub fn new() -> (r: Self)
        ensures
            r@ == Map::<Seq<char>, Seq<char>>::empty(),
            r.entries_view() == Seq::<Entry>::empty(),
    {
        let r = StrMap { entries: Vec::new() };
        assert(r.entries_view() =~= Seq::<Entry>::empty());
        assert(r@ =~= Map::<Seq<char>, Seq<char>>::empty());
        r
    }

    /// The entries, in ascending key order.
    pub fn entries(&self) -> (r: &Vec<(String, String)>)
        ensures
            entries_of(r@) == self.entries_view(),
            sorted_keys(self.entries_view()),
    {
        proof {
            use_type_invariant(self);
        }
        &self.entries
    }

    /// The number of entries.
    pub fn len(&self) -> (r: usize)
        ensures
            r == self.entries_view().len(),
            sorted_keys(self.entries_view()),
    {
        proof {
            use_type_invariant(self);
        }
        self.entries.len()
    }

    /// The key of the `i`-th entry.
    pub fn key_at(&self, i: usize) -> (r: &String)
        requires
            i < self.entries_view().len(),
        ensures
            r@ == self.entries_view()[i as int].0,
    {
        &self.entries[i].0
    }

    /// The value of the `i`-th entry.
    pub fn value_at(&self, i: usize) -> (r: &String)
        requires
            i < self.entries_view().len(),
        ensures
            r@ == self.entries_view()[i as int].1,
    {
        &self.entries[i].1
    }

    /// The value stored under `key`, if any.
    pub fn get(&self, key: &str) -> (r: Option<String>)
        ensures
            r is Some <==> self@.contains_key(key@),
            r matches Some(v) ==> v@ == self@[key@],
    {
        proof {
            use_type_invariant(self);
        }
        let k = chars_of(key);
        let mut i: usize = 0;
        while i < self.entries.len()
            invariant
                i <= self.entries@.len(),
                k@ == key@,
                sorted_keys(self.entries_view()),
                forall|j: int| 0 <= j < i ==> self.entries_view()[j].0 != key@,
            decreases self.entries@.len() - i,
        {
            let ki = chars_of(self.entries[i].0.as_str());
            if chars_eq(&ki, &k) {
                proof {
                    lemma_map_of_at(self.entries_view(), i as int);
                }
                return Some(self.entries[i].1.clone());
            }
            i += 1;
        }
        proof {
            if self@.contains_key(key@) {
                let j = choose|j: int|
                    0 <= j < self.entries_view().len() && #[trigger] self.entries_view()[j].0
                        == key@;
                assert(self.entries_view()[j].0 == key@);
            }
        }
        None
    }

    /// Stores `value` under `key`, replacing what was stored there.
    pub fn insert(&mut self, key: String, value: String)
        ensures
            final(self)@ == old(self)@.insert(key@, value@),
            sorted_keys(final(self).entries_view()),
    {
        proof {
            use_type_invariant(&*self);
        }
        let ghost es = self.entries_view();
        let k = chars_of(key.as_str());
        let mut p: usize = 0;
        let n = self.entries.len();
        while p < n && lex_less(&chars_of(self.entries[p].0.as_str()), &k)
            invariant
                n == self.entries@.len() == es.len(),
                es == self.entries_view(),
                p <= n,
                k@ == key@,
                forall|j: int| 0 <= j < p ==> lex_lt(#[trigger] es[j].0, key@),
            decreases n - p,
        {
            p += 1;
        }
        let found = p < n && chars_eq(&chars_of(self.entries[p].0.as_str()), &k);
        let mut entries: Vec<(String, String)> = Vec::new();
        std::mem::swap(&mut entries, &mut self.entries);
        if found {
            entries.set(p, (key, value));
            proof {
                let new_es = entries_of(entries@);
                assert(new_es =~= es.update(p as int, (key@, value@)));
                lemma_replace_at(es, p as int, key@, value@);
            }
        } else {
            proof {
                assert forall|j: int| p <= j < n implies lex_lt(key@, #[trigger] es[j].0) by {
                    lemma_lex_total(es[p as int].0, key@);
                    if j > p {
                        lemma_lex_transitive(key@, es[p as int].0, es[j].0);
                    }
                }
            }
            entries.insert(p, (key, value));
            proof {
                let new_es = entries_of(entries@);
                assert(new_es =~= es.insert(p as int, (key@, value@)));
                lemma_insert_at(es, p as int, key@, value@);
            }
        }
        self.entries = entries;
    }
}

/// The entries of a vector of string pairs, as character sequences.
pub open spec fn entries_of(v: Seq<(String, String)>) -> Seq<Entry> {
    v.map_values(|e: (String, String)| (e.0@, e.1@))
}

proof fn lemma_replace_at(es: Seq<Entry>, p: int, k: Seq<char>, v: Seq<char>)
    requires
        sorted_keys(es),
        0 <= p < es.len(),
        es[p].0 == k,
    ensures
        sorted_keys(es.update(p, (k, v))),
        map_of(es.update(p, (k, v))) == map_of(es).insert(k, v),
{
    let new_es = es.update(p, (k, v));
    assert forall|i: int| 0 <= i < new_es.len() implies #[trigger] new_es[i].0 == es[i].0 by {}
    assert(sorted_keys(new_es));
    assert forall|kk: Seq<char>| #[trigger] has_key(new_es, kk) == (kk == k || has_key(es, kk)) by {
        if has_key(es, kk) {
            let j = choose|j: int| 0 <= j < es.len() && #[trigger] es[j].0 == kk;
            assert(new_es[j].0 == kk);
        }
        if has_key(new_es, kk) {
            let j = choose|j: int| 0 <= j < new_es.len() && #[trigger] new_es[j].0 == kk;
            assert(es[j].0 == kk);
        }
        assert(new_es[p].0 == k);
    }
    assert forall|kk: Seq<char>| #[trigger] has_key(new_es, kk) implies map_of(new_es)[kk]
        == map_of(es).insert(k, v)[kk] by {
        let j = choose|j: int| 0 <= j < new_es.len() && #[trigger] new_es[j].0 == kk;
        lemma_map_of_at(new_es, j);
        if kk != k {
            lemma_map_of_at(es, j);
        } else if j != p {
            lemma_sorted_distinct(new_es, j, p);
        }
    }
    assert(map_of(new_es) =~= map_of(es).insert(k, v));
}

proof fn lemma_insert_at(es: Seq<Entry>, p: int, k: Seq<char>, v: Seq<char>)
    requires
        sorted_keys(es),
        0 <= p <= es.len(),
        forall|j: int| 0 <= j < p ==> lex_lt(#[trigger] es[j].0, k),
        forall|j: int| p <= j < es.len() ==> lex_lt(k, #[trigger] es[j].0),
    ensures
        sorted_keys(es.insert(p, (k, v))),
        map_of(es.insert(p, (k, v))) == map_of(es).insert(k, v),
{
    let new_es = es.insert(p, (k, v));
    assert forall|i: int, j: int| 0 <= i < j < new_es.len() implies lex_lt(
        #[trigger] new_es[i].0,
        #[trigger] new_es[j].0,
    ) by {
        if i < p && j > p {
            lemma_lex_transitive(new_es[i].0, k, new_es[j].0);
        }
    }
    assert forall|kk: Seq<char>| #[trigger] has_key(new_es, kk) == (kk == k || has_key(es, kk)) by {
        if has_key(es, kk) {
            let j = choose|j: int| 0 <= j < es.len() && #[trigger] es[j].0 == kk;
            if j < p {
                assert(new_es[j].0 == kk);
            } else {
                assert(new_es[j + 1].0 == kk);
            }
        }
        if has_key(new_es, kk) && kk != k {
            let j = choose|j: int| 0 <= j < new_es.len() && #[trigger] new_es[j].0 == kk;
            if j < p {
                assert(es[j].0 == kk);
            } else {
                assert(es[j - 1].0 == kk);
            }
        }
        assert(new_es[p].0 == k);
    }
    assert forall|kk: Seq<char>| #[trigger] has_key(new_es, kk) implies map_of(new_es)[kk]
        == map_of(es).insert(k, v)[kk] by {
        let j = choose|j: int| 0 <= j < new_es.len() && #[trigger] new_es[j].0 == kk;
        lemma_map_of_at(new_es, j);
        if j != p {
            lemma_sorted_distinct(new_es, j, p);
        }
        if j < p {
            lemma_map_of_at(es, j);
        } else if j > p {
            lemma_map_of_at(es, j - 1);
        }
    }
    assert(map_of(new_es) =~= map_of(es).insert(k, v));
}

impl Clone for StrMap {
    /// A copy with the same entries.
    fn clone(&self) -> (r: Self)
        ensures
            r.entries_view() == self.entries_view(),
            r@ == self@,
    {
        proof {
            use_type_invariant(self);
        }
        let mut entries: Vec<(String, String)> = Vec::new();
        let mut i: usize = 0;
        while i < self.entries.len()
            invariant
                i <= self.entries@.len(),
                entries_of(entries@) == self.entries_view().take(i as int),
            decreases self.entries@.len() - i,
        {
            let a = self.entries[i].0.clone();
            let b = self.entries[i].1.clone();
            let ghost old_entries = entries@;
            entries.push((a, b));
            assert(entries@ == old_entries.push((a, b)));
            assert(entries_of(entries@) == entries_of(old_entries).push((a@, b@)));
            assert(self.entries_view()[i as int] == (self.entries@[i as int].0@, self.entries@[i as int].1@));
            i += 1;
            assert(entries_of(entries@) =~= self.entries_view().take(i as int));
        }
        assert(self.entries_view().take(i as int) =~= self.entries_view());
        StrMap { entries }
    }
}

impl StrMap {
    /// The map is the one that its entries stand for.
    pub proof fn lemma_view(&self)
        ensures
            self@ == map_of(self.entries_view()),
    {
    }
}

impl View for StrMap {
    type V = Map<Seq<char>, Seq<char>>;

    closed spec fn view(&self) -> Map<Seq<char>, Seq<char>> {
        map_of(self.entries_view())
    }
}

} // verus!
