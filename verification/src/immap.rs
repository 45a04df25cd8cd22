//! `ImMap`: a map from string keys to values, kept in ascending key order,
//! that refuses to overwrite a key unless asked to.
use vstd::prelude::*;

use crate::text::{seq_lt, str_eq, str_lt, to_owned_string, lemma_seq_lt_irreflexive,
    lemma_seq_lt_transitive, lemma_seq_lt_total};

verus! {

/// Errors of `ImMap`.
#[derive(Debug, PartialEq)]
pub enum Error {
    /// The key is already present.
    DupKey(String),
}

/// Keys in strictly ascending order (so no key occurs twice).
pub open spec fn sorted_keys<T>(s: Seq<(Seq<char>, T)>) -> bool {
    forall|i: int, j: int| 0 <= i < j < s.len() ==> seq_lt(#[trigger] s[i].0, #[trigger] s[j].0)
}

/// `s` maps `k` to `v`.
pub open spec fn has_entry<T>(s: Seq<(Seq<char>, T)>, k: Seq<char>, v: T) -> bool {
    exists|i: int| 0 <= i < s.len() && s[i] == (k, v)
}

/// `s` has the key `k`.
pub open spec fn has_key<T>(s: Seq<(Seq<char>, T)>, k: Seq<char>) -> bool {
    exists|i: int| 0 <= i < s.len() && #[trigger] s[i].0 == k
}

/// A map from strings to values, iterated in ascending key order.
#[derive(Debug, PartialEq)]
pub struct ImMap<T> {
    entries: Vec<(String, T)>,
}

/// Sorted keys have distinct keys.
pub proof fn lemma_sorted_distinct<T>(s: Seq<(Seq<char>, T)>, i: int, j: int)
    requires
        sorted_keys(s),
        0 <= i < s.len(),
        0 <= j < s.len(),
        i != j,
    ensures
        s[i].0 != s[j].0,
{
    if i < j {
        assert(seq_lt(s[i].0, s[j].0));
        lemma_seq_lt_irreflexive(s[i].0);
    } else {
        assert(seq_lt(s[j].0, s[i].0));
        lemma_seq_lt_irreflexive(s[i].0);
    }
}

impl<T: Copy> ImMap<T> {
    /// A copy of the map.
    pub fn copy(&self) -> (res: ImMap<T>)
        ensures
            res@ == self@,
    {
        let mut vals: Vec<T> = Vec::new();
        let mut i: usize = 0;
        while i < self.entries.len()
            invariant
                i <= self.entries@.len(),
                self@.len() == self.entries@.len(),
                vals@.len() == i,
                forall|j: int| 0 <= j < i ==> vals@[j] == self@[j].1,
            decreases self.entries.len() - i,
        {
            vals.push(self.entries[i].1);
            i = i + 1;
        }
        let res = self.with_values(vals);
        assert(res@ =~= self@);
        res
    }
}

impl<T> ImMap<T> {
    /// The entries, keys by their characters, in ascending key order.
    pub closed spec fn view(&self) -> Seq<(Seq<char>, T)> {
        self.entries@.map_values(|p: (String, T)| (p.0@, p.1))
    }

    #[verifier::type_invariant]
    closed spec fn inv(&self) -> bool {
        sorted_keys(self@)
    }

    /// Brings into view that the entries are in strictly ascending key order.
    pub fn sorted_fact(&self)
        ensures
            sorted_keys(self@),
    {
        proof { use_type_invariant(self); }
    }

    /// An empty map.
    pub fn new() -> (res: ImMap<T>)
        ensures
            res@ == Seq::<(Seq<char>, T)>::empty(),
    {
        let res = ImMap { entries: Vec::new() };
        assert(res@ =~= Seq::<(Seq<char>, T)>::empty());
        res
    }

    /// Number of entries.
    pub fn len(&self) -> (res: usize)
        ensures
            res == self@.len(),
    {
        self.entries.len()
    }

    /// Whether the map is empty.
    pub fn is_empty(&self) -> (res: bool)
        ensures
            res == (self@.len() == 0),
    {
        self.entries.len() == 0
    }

    /// The key of the `i`-th entry in key order.
    pub fn key_at(&self, i: usize) -> (res: &String)
        requires
            i < self@.len(),
        ensures
            res@ == self@[i as int].0,
    {
        &self.entries[i].0
    }

    /// The value of the `i`-th entry in key order.
    pub fn value_at(&self, i: usize) -> (res: &T)
        requires
            i < self@.len(),
        ensures
            *res == self@[i as int].1,
    {
        &self.entries[i].1
    }

    /// Position of `key`, if present.
    pub fn find(&self, key: &str) -> (res: Option<usize>)
        ensures
            res matches Some(i) ==> i < self@.len() && self@[i as int].0 == key@,
            res is None ==> !has_key(self@, key@),
    {
        let mut i: usize = 0;
        while i < self.entries.len()
            invariant
                0 <= i <= self@.len(),
                self@.len() == self.entries@.len(),
                forall|j: int| 0 <= j < i ==> self@[j].0 != key@,
            decreases self.entries.len() - i,
        {
            if str_eq(self.entries[i].0.as_str(), key) {
                return Some(i);
            }
            i = i + 1;
        }
        None
    }

    /// The value stored for `key`, if any.
    pub fn get(&self, key: &str) -> (res: Option<&T>)
        ensures
            res matches Some(v) ==> has_entry(self@, key@, *v),
            res is None ==> !has_key(self@, key@),
    {
        match self.find(key) {
            Some(i) => {
                let v = &self.entries[i].1;
                assert(self@[i as int] == (key@, *v));
                Some(v)
            },
            None => None,
        }
    }

    /// Whether `key` is present.
    pub fn contains_key(&self, key: &str) -> (res: bool)
        ensures
            res == has_key(self@, key@),
    {
        self.find(key).is_some()
    }

    /// Index at which `key` is, or would be inserted to keep key order.
    fn position(&self, key: &str) -> (res: (usize, bool))
        ensures
            res.0 <= self@.len(),
            forall|j: int| 0 <= j < res.0 ==> seq_lt(#[trigger] self@[j].0, key@),
            res.1 ==> res.0 < self@.len() && self@[res.0 as int].0 == key@,
            !res.1 ==> res.0 < self@.len() ==> seq_lt(key@, self@[res.0 as int].0),
    {
        proof { use_type_invariant(self); }
        let mut i: usize = 0;
        while i < self.entries.len()
            invariant
                0 <= i <= self@.len(),
                self@.len() == self.entries@.len(),
                forall|j: int| 0 <= j < i ==> seq_lt(#[trigger] self@[j].0, key@),
            decreases self.entries.len() - i,
        {
            let k = self.entries[i].0.as_str();
            if !str_lt(k, key) {
                let eq = str_eq(k, key);
                if !eq {
                    proof { lemma_seq_lt_total(self@[i as int].0, key@); }
                }
                return (i, eq);
            }
            i = i + 1;
        }
        (i, false)
    }

    /// Inserting at the sorted position keeps the keys sorted.
    proof fn lemma_insert_sorted(s: Seq<(Seq<char>, T)>, p: int, k: Seq<char>, v: T)
        requires
            sorted_keys(s),
            0 <= p <= s.len(),
            forall|j: int| 0 <= j < p ==> seq_lt(#[trigger] s[j].0, k),
            p < s.len() ==> seq_lt(k, s[p].0),
        ensures
            sorted_keys(s.insert(p, (k, v))),
    {
        let r = s.insert(p, (k, v));
        assert forall|i: int, j: int| 0 <= i < j < r.len() implies seq_lt(
            #[trigger] r[i].0,
            #[trigger] r[j].0,
        ) by {
            if j < p {
                assert(r[i] == s[i] && r[j] == s[j]);
            } else if j == p {
                assert(r[i] == s[i]);
            } else if i < p {
                assert(r[i] == s[i] && r[j] == s[j - 1]);
                assert(seq_lt(k, s[p].0));
                if j - 1 > p {
                    assert(seq_lt(s[p].0, s[j - 1].0));
                    lemma_seq_lt_transitive(k, s[p].0, s[j - 1].0);
                }
                lemma_seq_lt_transitive(s[i].0, k, s[j - 1].0);
            } else if i == p {
                assert(r[j] == s[j - 1]);
                if j - 1 > p {
                    assert(seq_lt(s[p].0, s[j - 1].0));
                    lemma_seq_lt_transitive(k, s[p].0, s[j - 1].0);
                }
            } else {
                assert(r[i] == s[i - 1] && r[j] == s[j - 1]);
            }
        }
    }

    /// Adds `key` with `value`; when `key` is present already, its value is
    /// replaced and the result is `DupKey`.
    pub fn set_mut(&mut self, key: &str, value: T) -> (res: Result<(), Error>)
        ensures
            res is Err <==> has_key(old(self)@, key@),
            res is Err ==> exists|p: int|
                0 <= p < old(self)@.len() && old(self)@[p].0 == key@ && final(self)@ == old(self)@.update(p, (key@, value)),
            res matches Err(Error::DupKey(k)) ==> k@ == key@,
            res is Ok ==> exists|p: int|
                0 <= p <= old(self)@.len() && final(self)@ == old(self)@.insert(p, (key@, value)),
    {
        proof { use_type_invariant(&*self); }
        let (p, found) = self.position(key);
        if found {
            let ghost old_view = self@;
            let k = to_owned_string(key);
            let mut entries = Vec::new();
            std::mem::swap(&mut entries, &mut self.entries);
            entries.set(p, (k, value));
            assert(entries@.map_values(|q: (String, T)| (q.0@, q.1)) =~= old_view.update(p as int, (key@, value)));
            proof {
                let nv = old_view.update(p as int, (key@, value));
                assert forall|i: int, j: int| 0 <= i < j < nv.len() implies seq_lt(#[trigger] nv[i].0, #[trigger] nv[j].0) by {
                    assert(nv[i].0 == old_view[i].0);
                    assert(nv[j].0 == old_view[j].0);
                }
            }
            self.entries = entries;
            return Err(Error::DupKey(to_owned_string(key)));
        }
        proof {
            if has_key(self@, key@) {
                let j = choose|j: int| 0 <= j < self@.len() && #[trigger] self@[j].0 == key@;
                if j < p {
                    lemma_seq_lt_irreflexive(key@);
                } else {
                    if j > p as int {
                        lemma_seq_lt_transitive(key@, self@[p as int].0, self@[j].0);
                    }
                    lemma_seq_lt_irreflexive(key@);
                }
            }
            Self::lemma_insert_sorted(self@, p as int, key@, value);
        }
        let ghost old_view = self@;
        let k = to_owned_string(key);
        let mut entries = Vec::new();
        std::mem::swap(&mut entries, &mut self.entries);
        entries.insert(p, (k, value));
        assert(entries@.map_values(|q: (String, T)| (q.0@, q.1)) =~= old_view.insert(
            p as int,
            (key@, value),
        ));
        self.entries = entries;
        Ok(())
    }

    /// A map with the same keys and the values `vals`, in key order.
    pub fn with_values<U>(&self, vals: Vec<U>) -> (res: ImMap<U>)
        requires
            vals@.len() == self@.len(),
        ensures
            res@.len() == self@.len(),
            forall|i: int| 0 <= i < self@.len() ==> (#[trigger] res@[i]) == (self@[i].0, vals@[i]),
    {
        proof { use_type_invariant(self); }
        let mut entries: Vec<(String, U)> = Vec::new();
        let mut vals = vals;
        let ghost vs = vals@;
        let mut rev: Vec<U> = Vec::new();
        while vals.len() > 0
            invariant
                vals@.len() + rev@.len() == vs.len(),
                vals@ == vs.take(vals@.len() as int),
                forall|i: int| 0 <= i < rev@.len() ==> rev@[i] == vs[vs.len() - 1 - i],
            decreases vals@.len(),
        {
            let v = vals.pop().unwrap();
            rev.push(v);
            assert(vals@ =~= vs.take(vals@.len() as int));
        }
        let mut i: usize = 0;
        while i < self.entries.len()
            invariant
                i <= self@.len(),
                self@.len() == vs.len(),
                self@.len() == self.entries@.len(),
                rev@.len() + i == vs.len(),
                forall|j: int| 0 <= j < rev@.len() ==> rev@[j] == vs[vs.len() - 1 - j],
                entries@.len() == i,
                forall|j: int| 0 <= j < i ==> (#[trigger] entries@[j]).0@ == self@[j].0 && entries@[j].1 == vs[j],
            decreases self.entries.len() - i,
        {
            let v = rev.pop().unwrap();
            let k = to_owned_string(self.entries[i].0.as_str());
            entries.push((k, v));
            i = i + 1;
        }
        let res = ImMap { entries };
        assert forall|j: int| 0 <= j < self@.len() implies (#[trigger] res@[j]) == (self@[j].0, vs[j]) by {
            assert(entries@[j].0@ == self@[j].0);
        }
        assert(sorted_keys(res@)) by {
            assert forall|a: int, b: int| 0 <= a < b < res@.len() implies seq_lt(#[trigger] res@[a].0, #[trigger] res@[b].0) by {
                assert(res@[a].0 == self@[a].0);
                assert(res@[b].0 == self@[b].0);
            }
        }
        res
    }

    /// Adds `key` with `value`, replacing a value already stored for `key`.
    pub fn upsert(&mut self, key: &str, value: T)
        ensures
            forall|k: Seq<char>| #[trigger] has_key(final(self)@, k) <==> (k == key@ || has_key(old(self)@, k)),
            forall|k: Seq<char>, v: T|
                #[trigger] has_entry(final(self)@, k, v) <==> ((k == key@ && v == value) || (k != key@
                    && has_entry(old(self)@, k, v))),
    {
        proof { use_type_invariant(&*self); }
        let (p, found) = self.position(key);
        let ghost old_view = self@;
        assert(forall|j: int| 0 <= j < p ==> seq_lt(#[trigger] old_view[j].0, key@));
        proof {
            assert forall|k: Seq<char>| has_key(old_view, k) implies exists|v: T| has_entry(old_view, k, v) by {
                let i = choose|i: int| 0 <= i < old_view.len() && #[trigger] old_view[i].0 == k;
                assert(has_entry(old_view, k, old_view[i].1));
            }
        }
        let mut entries = Vec::new();
        std::mem::swap(&mut entries, &mut self.entries);
        if found {
            let k = to_owned_string(key);
            entries.set(p, (k, value));
            proof {
                assert(entries@.map_values(|q: (String, T)| (q.0@, q.1)) =~= old_view.update(
                    p as int,
                    (key@, value),
                ));
                let r = old_view.update(p as int, (key@, value));
                assert(sorted_keys(r)) by {
                    assert forall|i: int, j: int| 0 <= i < j < r.len() implies seq_lt(
                        #[trigger] r[i].0,
                        #[trigger] r[j].0,
                    ) by {
                        assert(seq_lt(old_view[i].0, old_view[j].0));
                    }
                }
                assert forall|k: Seq<char>, v: T| has_entry(r, k, v) <==> ((k == key@ && v
                    == value) || (k != key@ && has_entry(old_view, k, v))) by {
                    if has_entry(r, k, v) && !(k == key@ && v == value) {
                        let i = choose|i: int| 0 <= i < r.len() && r[i] == (k, v);
                        if i == p {
                            assert(false);
                        }
                        lemma_sorted_distinct(old_view, i, p as int);
                        assert(old_view[i] == (k, v));
                    }
                    if k == key@ && v == value {
                        assert(r[p as int] == (k, v));
                    }
                    if k != key@ && has_entry(old_view, k, v) {
                        let i = choose|i: int| 0 <= i < old_view.len() && old_view[i] == (k, v);
                        assert(r[i] == (k, v));
                    }
                }
            }
            self.entries = entries;
        } else {
            proof {
                Self::lemma_insert_sorted(old_view, p as int, key@, value);
            }
            let k = to_owned_string(key);
            entries.insert(p, (k, value));
            proof {
                assert(entries@.map_values(|q: (String, T)| (q.0@, q.1)) =~= old_view.insert(
                    p as int,
                    (key@, value),
                ));
                let r = old_view.insert(p as int, (key@, value));
                assert forall|k: Seq<char>, v: T| has_entry(r, k, v) <==> ((k == key@ && v
                    == value) || (k != key@ && has_entry(old_view, k, v))) by {
                    if has_entry(r, k, v) {
                        let i = choose|i: int| 0 <= i < r.len() && r[i] == (k, v);
                        if i < p {
                            assert(old_view[i] == (k, v));
                            assert(old_view[i].0 == k);
                            assert(seq_lt(k, key@));
                            lemma_seq_lt_irreflexive(k);
                        } else if i > p {
                            assert(old_view[i - 1] == (k, v));
                            assert(seq_lt(key@, old_view[p as int].0));
                            if i - 1 > p {
                                assert(seq_lt(old_view[p as int].0, old_view[i - 1].0));
                                lemma_seq_lt_transitive(key@, old_view[p as int].0, k);
                            }
                            lemma_seq_lt_irreflexive(k);
                        }
                    }
                    if k == key@ && v == value {
                        assert(r[p as int] == (k, v));
                    }
                    if k != key@ && has_entry(old_view, k, v) {
                        let i = choose|i: int| 0 <= i < old_view.len() && old_view[i] == (k, v);
                        if i < p {
                            assert(r[i] == (k, v));
                        } else {
                            assert(r[i + 1] == (k, v));
                        }
                    }
                }
            }
            self.entries = entries;
        }
        proof {
            assert(forall|k: Seq<char>, v: T|
                has_entry(self@, k, v) <==> ((k == key@ && v == value) || (k != key@
                    && has_entry(old_view, k, v))));
            assert forall|k: Seq<char>| #[trigger] has_key(self@, k) <==> (k == key@ || has_key(old_view, k)) by {
                if has_key(self@, k) {
                    let i = choose|i: int| 0 <= i < self@.len() && #[trigger] self@[i].0 == k;
                    assert(has_entry(self@, k, self@[i].1));
                    if k != key@ {
                        let j = choose|j: int| 0 <= j < old_view.len() && old_view[j] == (k, self@[i].1);
                        assert(old_view[j].0 == k);
                    }
                }
                if k == key@ {
                    assert(has_entry(self@, k, value));
                    let i = choose|i: int| 0 <= i < self@.len() && self@[i] == (k, value);
                    assert(self@[i].0 == k);
                }
                if has_key(old_view, k) && k != key@ {
                    let i = choose|i: int| 0 <= i < old_view.len() && #[trigger] old_view[i].0 == k;
                    assert(has_entry(old_view, k, old_view[i].1));
                    assert(has_entry(self@, k, old_view[i].1));
                    let j = choose|j: int| 0 <= j < self@.len() && self@[j] == (k, old_view[i].1);
                    assert(self@[j].0 == k);
                }
            }
        }
    }
    /// Removes `key` if present.
    pub fn unset_mut(&mut self, key: &str)
        ensures
            !has_key(final(self)@, key@),
            forall|k: Seq<char>, v: T|
                #[trigger] has_entry(final(self)@, k, v) <==> (k != key@ && has_entry(old(self)@, k, v)),
    {
        proof { use_type_invariant(&*self); }
        let ghost old_view = self@;
        match self.find(key) {
            None => {
                assert forall|k: Seq<char>, v: T| has_entry(old_view, k, v) implies k != key@ by {
                    let i = choose|i: int| 0 <= i < old_view.len() && old_view[i] == (k, v);
                    assert(old_view[i].0 == k);
                }
            },
            Some(p) => {
                let mut entries = Vec::new();
                std::mem::swap(&mut entries, &mut self.entries);
                entries.remove(p);
                proof {
                    assert(entries@.map_values(|q: (String, T)| (q.0@, q.1)) =~= old_view.remove(
                        p as int,
                    ));
                    let r = old_view.remove(p as int);
                    assert(sorted_keys(r)) by {
                        assert forall|i: int, j: int| 0 <= i < j < r.len() implies seq_lt(
                            #[trigger] r[i].0,
                            #[trigger] r[j].0,
                        ) by {
                            if j < p {
                                assert(seq_lt(old_view[i].0, old_view[j].0));
                            } else if i < p {
                                assert(seq_lt(old_view[i].0, old_view[j + 1].0));
                            } else {
                                assert(seq_lt(old_view[i + 1].0, old_view[j + 1].0));
                            }
                        }
                    }
                    assert forall|k: Seq<char>, v: T| has_entry(r, k, v) <==> (k != key@
                        && has_entry(old_view, k, v)) by {
                        if has_entry(r, k, v) {
                            let i = choose|i: int| 0 <= i < r.len() && r[i] == (k, v);
                            let oi = if i < p { i } else { i + 1 };
                            assert(old_view[oi] == (k, v));
                            lemma_sorted_distinct(old_view, oi, p as int);
                        }
                        if k != key@ && has_entry(old_view, k, v) {
                            let i = choose|i: int| 0 <= i < old_view.len() && old_view[i] == (k, v);
                            if i < p {
                                assert(r[i] == (k, v));
                            } else {
                                assert(i != p);
                                assert(r[i - 1] == (k, v));
                            }
                        }
                    }
                    assert(!has_key(r, key@)) by {
                        if has_key(r, key@) {
                            let i = choose|i: int| 0 <= i < r.len() && #[trigger] r[i].0 == key@;
                            let oi = if i < p { i } else { i + 1 };
                            lemma_sorted_distinct(old_view, oi, p as int);
                        }
                    }
                }
                self.entries = entries;
            },
        }
    }

    /// A map holding only `key` with `value`.
    pub fn single(key: &str, value: T) -> (res: ImMap<T>)
        ensures
            res@ == seq![(key@, value)],
    {
        let mut m = Self::new();
        let r = m.set_mut(key, value);
        proof {
            assert(!has_key(Seq::<(Seq<char>, T)>::empty(), key@));
        }
        assert(m@ =~= seq![(key@, value)]);
        m
    }

    /// Adds `key` with `value`, failing with `DupKey` when present.
    pub fn set(self, key: &str, value: T) -> (res: Result<ImMap<T>, Error>)
        ensures
            res is Err <==> has_key(self@, key@),
            res matches Err(Error::DupKey(k)) ==> k@ == key@,
            res matches Ok(m) ==> exists|p: int|
                0 <= p <= self@.len() && m@ == self@.insert(p, (key@, value)),
    {
        let mut m = self;
        match m.set_mut(key, value) {
            Ok(()) => Ok(m),
            Err(e) => Err(e),
        }
    }

    /// The map without `key`.
    pub fn unset(self, key: &str) -> (res: ImMap<T>)
        ensures
            !has_key(res@, key@),
            forall|k: Seq<char>, v: T|
                has_entry(res@, k, v) <==> (k != key@ && has_entry(self@, k, v)),
    {
        let mut m = self;
        m.unset_mut(key);
        m
    }

    /// Builds a map from `(key, value)` pairs in order; fails on the first
    /// key that occurs twice.
    pub fn from(fields: Vec<(String, T)>) -> (res: Result<ImMap<T>, Error>)
        ensures
            res is Ok <==> (forall|i: int, j: int|
                0 <= i < j < fields@.len() ==> #[trigger] fields@[i].0@ != #[trigger] fields@[j].0@),
            res matches Ok(m) ==> forall|k: Seq<char>, v: T|
                has_entry(m@, k, v) <==> exists|i: int|
                    0 <= i < fields@.len() && fields@[i].0@ == k && fields@[i].1 == v,
            res matches Err(Error::DupKey(k)) ==> exists|j: int| #![trigger fields@[j]] 0 <= j < fields@.len()
                && fields@[j].0@ == k@ && (exists|i: int| 0 <= i < j && #[trigger] fields@[i].0@ == k@) && (forall|
                a: int,
                b: int,
            | 0 <= a < b < j ==> #[trigger] fields@[a].0@ != #[trigger] fields@[b].0@),
    {
        let ghost fs = fields@;
        let total = fields.len();
        let mut m = Self::new();
        let mut rest = fields;
        let mut done: usize = 0;
        proof { assert(fs.skip(0) =~= fs); }
        while rest.len() > 0
            invariant
                fs == fields@,
                fs.len() == total,
                done + rest@.len() == fs.len(),
                rest@ == fs.skip(done as int),
                forall|i: int, j: int| 0 <= i < j < done ==> #[trigger] fs[i].0@ != #[trigger] fs[j].0@,
                forall|k: Seq<char>, v: T|
                    has_entry(m@, k, v) <==> exists|i: int| 0 <= i < done && fs[i].0@ == k && fs[i].1 == v,
                forall|k: Seq<char>|
                    has_key(m@, k) <==> exists|i: int| 0 <= i < done && #[trigger] fs[i].0@ == k,
            decreases rest@.len(),
        {
            let ghost n = done as int;
            let (k, v) = rest.remove(0);
            assert(fs[n] == (k, v)) by {
                assert(fs.skip(n)[0] == fs[n]);
            }
            let ghost before = m@;
            match m.set_mut(k.as_str(), v) {
                Ok(()) => {
                    proof {
                        let p = choose|p: int| 0 <= p <= before.len() && m@ == before.insert(p, (k@, v));
                        assert forall|kk: Seq<char>, vv: T| has_entry(m@, kk, vv) <==> exists|i: int|
                            0 <= i < n + 1 && fs[i].0@ == kk && fs[i].1 == vv by {
                            if has_entry(m@, kk, vv) {
                                let i = choose|i: int| 0 <= i < m@.len() && m@[i] == (kk, vv);
                                if i != p {
                                    if i < p {
                                        assert(before[i] == (kk, vv));
                                    } else {
                                        assert(before[i - 1] == (kk, vv));
                                    }
                                    assert(has_entry(before, kk, vv));
                                    let w = choose|w: int| 0 <= w < n && fs[w].0@ == kk && fs[w].1 == vv;
                                    assert(0 <= w < n + 1 && fs[w].0@ == kk && fs[w].1 == vv);
                                } else {
                                    assert(fs[n].0@ == kk && fs[n].1 == vv);
                                }
                            }
                            if exists|i: int| 0 <= i < n + 1 && fs[i].0@ == kk && fs[i].1 == vv {
                                let i = choose|i: int| 0 <= i < n + 1 && fs[i].0@ == kk && fs[i].1 == vv;
                                if i == n {
                                    assert(m@[p] == (kk, vv));
                                } else {
                                    assert(0 <= i < n && fs[i].0@ == kk && fs[i].1 == vv);
                                    assert(has_entry(before, kk, vv));
                                    let j = choose|j: int| 0 <= j < before.len() && before[j] == (kk, vv);
                                    if j < p {
                                        assert(m@[j] == (kk, vv));
                                    } else {
                                        assert(m@[j + 1] == (kk, vv));
                                    }
                                }
                            }
                        }
                        assert forall|kk: Seq<char>| has_key(m@, kk) <==> exists|i: int|
                            0 <= i < n + 1 && #[trigger] fs[i].0@ == kk by {
                            if has_key(m@, kk) {
                                let i = choose|i: int| 0 <= i < m@.len() && #[trigger] m@[i].0 == kk;
                                if i != p {
                                    if i < p {
                                        assert(before[i].0 == kk);
                                    } else {
                                        assert(before[i - 1].0 == kk);
                                    }
                                    assert(has_key(before, kk));
                                    let w = choose|w: int| 0 <= w < n && #[trigger] fs[w].0@ == kk;
                                    assert(0 <= w < n + 1 && fs[w].0@ == kk);
                                } else {
                                    assert(fs[n].0@ == kk);
                                }
                            }
                            if exists|i: int| 0 <= i < n + 1 && #[trigger] fs[i].0@ == kk {
                                let i = choose|i: int| 0 <= i < n + 1 && #[trigger] fs[i].0@ == kk;
                                if i == n {
                                    assert(m@[p].0 == kk);
                                } else {
                                    assert(0 <= i < n && fs[i].0@ == kk);
                                    assert(has_key(before, kk));
                                    let j = choose|j: int| 0 <= j < before.len() && #[trigger] before[j].0 == kk;
                                    if j < p {
                                        assert(m@[j].0 == kk);
                                    } else {
                                        assert(m@[j + 1].0 == kk);
                                    }
                                }
                            }
                        }
                        assert forall|i: int, j: int| 0 <= i < j < n + 1 implies #[trigger] fs[i].0@ != #[trigger] fs[j].0@ by {
                            if j == n && fs[i].0@ == fs[j].0@ {
                                assert(has_key(before, k@));
                            }
                        }
                    }
                },
                Err(e) => {
                    proof {
                        assert(has_key(before, k@));
                        let i = choose|i: int| 0 <= i < n && #[trigger] fs[i].0@ == k@;
                        assert(fs[i].0@ == fs[n].0@);
                        assert(!(forall|a: int, b: int| 0 <= a < b < fs.len() ==> #[trigger] fs[a].0@ != #[trigger] fs[b].0@));
                        let kk = e->DupKey_0;
                        assert(kk@ == k@);
                        assert(fs[n].0@ == kk@);
                        assert(exists|i2: int| 0 <= i2 < n && #[trigger] fs[i2].0@ == kk@);
                    }
                    return Err(e);
                },
            }
            done = done + 1;
            assert(rest@ =~= fs.skip(done as int));
        }
        Ok(m)
    }
}


impl<T: Copy> ImMap<T> {
    /// The entries of `self` and `other`; where both have a key, the value
    /// of `other`.
    pub fn merge(self, other: &ImMap<T>) -> (res: ImMap<T>)
        ensures
            forall|k: Seq<char>| #[trigger] has_key(res@, k) <==> (has_key(self@, k) || has_key(other@, k)),
            forall|k: Seq<char>, v: T|
                has_entry(res@, k, v) <==> (has_entry(other@, k, v) || (!has_key(other@, k)
                    && has_entry(self@, k, v))),
    {
        proof { use_type_invariant(other); }
        let mut out = self;
        let ghost s0 = out@;
        let mut i: usize = 0;
        while i < other.len()
            invariant
                i <= other@.len(),
                sorted_keys(other@),
                forall|k: Seq<char>| #[trigger] has_key(out@, k) <==> (has_key(s0, k) || has_key(other@.take(i as int), k)),
                forall|k: Seq<char>, v: T|
                    #[trigger] has_entry(out@, k, v) <==> (has_entry(other@.take(i as int), k, v) || (!has_key(other@.take(i as int), k)
                        && has_entry(s0, k, v))),
            decreases other@.len() - i,
        {
            let k = other.key_at(i);
            let v = *other.value_at(i);
            let ghost before = out@;
            out.upsert(k.as_str(), v);
            proof {
                let t0 = other@.take(i as int);
                let t1 = other@.take(i + 1);
                assert(t1 == t0.push((k@, v)));
                assert forall|kk: Seq<char>| has_key(t1, kk) <==> (has_key(t0, kk) || kk == k@) by {
                    if has_key(t1, kk) {
                        let j = choose|j: int| 0 <= j < t1.len() && #[trigger] t1[j].0 == kk;
                        if j < t0.len() {
                            assert(t0[j].0 == kk);
                        }
                    }
                    if has_key(t0, kk) {
                        let j = choose|j: int| 0 <= j < t0.len() && #[trigger] t0[j].0 == kk;
                        assert(t1[j].0 == kk);
                    }
                    if kk == k@ {
                        assert(t1[i as int].0 == kk);
                    }
                }
                assert(!has_key(t0, k@)) by {
                    if has_key(t0, k@) {
                        let j = choose|j: int| 0 <= j < t0.len() && #[trigger] t0[j].0 == k@;
                        lemma_sorted_distinct(other@, j, i as int);
                    }
                }
                assert forall|kk: Seq<char>, vv: T| has_entry(t1, kk, vv) <==> (has_entry(t0, kk, vv) || (kk == k@ && vv == v)) by {
                    if has_entry(t1, kk, vv) {
                        let j = choose|j: int| 0 <= j < t1.len() && t1[j] == (kk, vv);
                        if j < t0.len() {
                            assert(t0[j] == (kk, vv));
                        }
                    }
                    if has_entry(t0, kk, vv) {
                        let j = choose|j: int| 0 <= j < t0.len() && t0[j] == (kk, vv);
                        assert(t1[j] == (kk, vv));
                    }
                    if kk == k@ && vv == v {
                        assert(t1[i as int] == (kk, vv));
                    }
                }
                assert forall|kk: Seq<char>, vv: T| has_entry(t0, kk, vv) implies has_key(t0, kk) by {
                    let j = choose|j: int| 0 <= j < t0.len() && t0[j] == (kk, vv);
                    assert(t0[j].0 == kk);
                }
                assert forall|kk: Seq<char>, vv: T| has_entry(out@, kk, vv) <==> (has_entry(t1, kk, vv) || (!has_key(t1, kk)
                        && has_entry(s0, kk, vv))) by {
                    if kk == k@ {
                        assert(has_key(t1, kk));
                        if has_entry(t0, kk, vv) {
                            assert(has_key(t0, kk));
                        }
                        assert(has_entry(out@, kk, vv) <==> vv == v);
                        assert(has_entry(t1, kk, vv) <==> vv == v);
                    } else {
                        assert(has_entry(out@, kk, vv) == has_entry(before, kk, vv));
                        assert(has_key(t1, kk) == has_key(t0, kk));
                        assert(has_entry(t1, kk, vv) == has_entry(t0, kk, vv));
                        assert(has_entry(before, kk, vv) <==> (has_entry(t0, kk, vv) || (!has_key(t0, kk)
                            && has_entry(s0, kk, vv))));
                    }
                }
            }
            i = i + 1;
        }
        assert(other@.take(other@.len() as int) =~= other@);
        out
    }
}


/// `f` called on the key and value of `entry` may return `r`.
pub open spec fn visited<T, E, F: Fn(&str, &T) -> Result<(), E>>(f: F, entry: (Seq<char>, T), r: Result<(), E>) -> bool {
    exists|k: &str| k@ == entry.0 && #[trigger] f.ensures((k, &entry.1), r)
}

/// `f` called on the key and value of `entry` may succeed.
pub open spec fn visited_ok<T, E, F: Fn(&str, &T) -> Result<(), E>>(f: F, entry: (Seq<char>, T)) -> bool {
    exists|r: Result<(), E>| r is Ok && #[trigger] visited(f, entry, r)
}

/// `f` succeeds on each value of `s` before place `i`.
pub open spec fn ok_before<T, B, E, F: Fn(&T) -> Result<B, E>>(f: F, s: Seq<(Seq<char>, T)>, i: int) -> bool {
    forall|j: int| #![trigger s[j]] 0 <= j < i ==> exists|b: B| f.ensures((&s[j].1,), Ok::<B, E>(b))
}

impl<T> ImMap<T> {
    /// A map with the same keys and `f` applied to each value.
    pub fn map<B, F: Fn(&T) -> B>(&self, f: F) -> (res: ImMap<B>)
        requires
            forall|i: int| 0 <= i < self@.len() ==> f.requires((&self@[i].1,)),
        ensures
            res@.len() == self@.len(),
            forall|i: int| 0 <= i < self@.len() ==> (#[trigger] res@[i]).0 == self@[i].0 && f.ensures((&self@[i].1,), res@[i].1),
    {
        let mut vals: Vec<B> = Vec::new();
        let mut i: usize = 0;
        while i < self.len()
            invariant
                i <= self@.len(),
                forall|j: int| 0 <= j < self@.len() ==> f.requires((&self@[j].1,)),
                vals@.len() == i,
                forall|j: int| 0 <= j < i ==> f.ensures((&self@[j].1,), #[trigger] vals@[j]),
            decreases self@.len() - i,
        {
            let v = f(self.value_at(i));
            vals.push(v);
            i = i + 1;
        }
        self.with_values(vals)
    }

    /// Calls `f` on each key and value in key order until it fails; the
    /// first failure, or `Ok` when every call succeeded.
    pub fn foreach<E, F: Fn(&str, &T) -> Result<(), E>>(&self, f: F) -> (res: Result<(), E>)
        requires
            forall|k: &str, v: &T| #[trigger] f.requires((k, v)),
        ensures
            res is Ok ==> forall|i: int| 0 <= i < self@.len() ==> #[trigger] visited_ok(f, self@[i]),
            res matches Err(e) ==> exists|i: int| 0 <= i < self@.len() && (forall|j: int| 0 <= j < i ==> #[trigger] visited_ok(
                f,
                self@[j],
            )) && visited(f, self@[i], Err(e)),
    {
        let mut i: usize = 0;
        while i < self.len()
            invariant
                i <= self@.len(),
                forall|k: &str, v: &T| #[trigger] f.requires((k, v)),
                forall|j: int| 0 <= j < i ==> #[trigger] visited_ok(f, self@[j]),
            decreases self@.len() - i,
        {
            let k = self.key_at(i).as_str();
            let v = self.value_at(i);
            let r = f(k, v);
            proof {
                assert(visited(f, self@[i as int], r));
            }
            match r {
                Ok(()) => {
                    proof {
                        assert forall|j: int| 0 <= j < i + 1 implies #[trigger] visited_ok(f, self@[j]) by {
                            if j == i {
                                assert(visited(f, self@[i as int], r));
                            }
                        }
                    }
                },
                Err(e) => {
                    return Err(e);
                },
            }
            i = i + 1;
        }
        Ok(())
    }

    /// Like `map` for a function that may fail: the first failure in key
    /// order, or the map of all results.
    pub fn try_map<B, E, F: Fn(&T) -> Result<B, E>>(&self, f: F) -> (res: Result<ImMap<B>, E>)
        requires
            forall|i: int| 0 <= i < self@.len() ==> f.requires((&self@[i].1,)),
        ensures
            res matches Ok(m) ==> m@.len() == self@.len() && forall|i: int| 0 <= i < self@.len() ==> (#[trigger] m@[i]).0 == self@[i].0 && f.ensures((&self@[i].1,), Ok::<B, E>(m@[i].1)),
            res matches Err(e) ==> exists|i: int| #![trigger self@[i]] 0 <= i < self@.len() && f.ensures((&self@[i].1,), Err::<B, E>(e))
                && ok_before(f, self@, i),
    {
        let mut vals: Vec<B> = Vec::new();
        let mut i: usize = 0;
        while i < self.len()
            invariant
                i <= self@.len(),
                forall|j: int| 0 <= j < self@.len() ==> f.requires((&self@[j].1,)),
                vals@.len() == i,
                forall|j: int| 0 <= j < i ==> f.ensures((&self@[j].1,), Ok::<B, E>(#[trigger] vals@[j])),
            decreases self@.len() - i,
        {
            match f(self.value_at(i)) {
                Ok(v) => vals.push(v),
                Err(e) => {
                    proof {
                        let ghost sv = self@;
                        if i > 0 {
                            assert(f.ensures((&sv[0].1,), Ok::<B, E>(vals@[0])));
                            assert(exists|b: B| f.ensures((&sv[0].1,), Ok::<B, E>(b)));
                        }
                        assert(ok_before(f, sv, i as int)) by {
                            assert forall|j: int| #![trigger sv[j]] 0 <= j < i implies exists|b: B| f.ensures(
                                (&sv[j].1,),
                                Ok::<B, E>(b),
                            ) by {
                                assert(f.ensures((&sv[j].1,), Ok::<B, E>(vals@[j])));
                            }
                        }
                        assert(f.ensures((&self@[i as int].1,), Err::<B, E>(e)));
                        assert(0 <= i < self@.len() && f.ensures((&self@[i as int].1,), Err::<B, E>(e)) && ok_before(f, self@, i as int));
                    }
                    return Err(e);
                },
            }
            i = i + 1;
        }
        Ok(self.with_values(vals))
    }
}

/// A key is present exactly when some entry has it.
pub proof fn lemma_key_iff_entry<T>(s: Seq<(Seq<char>, T)>, k: Seq<char>)
    ensures
        has_key(s, k) <==> exists|v: T| #[trigger] has_entry(s, k, v),
{
    if has_key(s, k) {
        let i = choose|i: int| 0 <= i < s.len() && #[trigger] s[i].0 == k;
        assert(has_entry(s, k, s[i].1));
    }
    if exists|v: T| #[trigger] has_entry(s, k, v) {
        let v = choose|v: T| #[trigger] has_entry(s, k, v);
        let i = choose|i: int| 0 <= i < s.len() && s[i] == (k, v);
        assert(s[i].0 == k);
    }
}

/// A key of a map has one value: two entries for the same key agree.
pub proof fn law_one_value_per_key<T>(s: Seq<(Seq<char>, T)>, k: Seq<char>, v1: T, v2: T)
    requires
        sorted_keys(s),
        has_entry(s, k, v1),
        has_entry(s, k, v2),
    ensures
        v1 == v2,
{
    let i = choose|i: int| 0 <= i < s.len() && s[i] == (k, v1);
    let j = choose|j: int| 0 <= j < s.len() && s[j] == (k, v2);
    if i != j {
        lemma_sorted_distinct(s, i, j);
    }
}

/// After adding a key that was absent, the map has exactly the old entries
/// and the new one.
pub proof fn law_set_adds_entry<T>(s: Seq<(Seq<char>, T)>, p: int, k: Seq<char>, v: T)
    requires
        0 <= p <= s.len(),
        !has_key(s, k),
    ensures
        forall|kk: Seq<char>, vv: T| #[trigger] has_entry(s.insert(p, (k, v)), kk, vv) <==> ((kk == k && vv == v) || has_entry(s, kk, vv)),
{
    let r = s.insert(p, (k, v));
    assert forall|kk: Seq<char>, vv: T| #[trigger] has_entry(r, kk, vv) <==> ((kk == k && vv == v) || has_entry(s, kk, vv)) by {
        if has_entry(r, kk, vv) {
            let i = choose|i: int| 0 <= i < r.len() && r[i] == (kk, vv);
            if i < p {
                assert(s[i] == (kk, vv));
            } else if i > p {
                assert(s[i - 1] == (kk, vv));
            }
        }
        if has_entry(s, kk, vv) {
            let i = choose|i: int| 0 <= i < s.len() && s[i] == (kk, vv);
            if i < p {
                assert(r[i] == (kk, vv));
            } else {
                assert(r[i + 1] == (kk, vv));
            }
        }
        if kk == k && vv == v {
            assert(r[p] == (kk, vv));
        }
    }
}

} // verus!
