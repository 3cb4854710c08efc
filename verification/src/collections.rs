//! Small string-keyed collections with precise views.
//!
//! `StrSet` keeps distinct strings in the order they were first inserted;
//! `StrMap` keeps string pairs with distinct keys in insertion order.

use vstd::prelude::*;
use crate::ast::str_eq;
use crate::text::{owned, views};

verus! {

/// `s` holds no string twice.
pub open spec fn distinct(s: Seq<Seq<char>>) -> bool {
    forall|i: int, j: int| 0 <= i < j < s.len() ==> s[i] != s[j]
}

/// A set of strings remembering the order of first insertion.
#[derive(Debug, Clone)]
pub struct StrSet {
    items: Vec<String>,
}

impl View for StrSet {
    type V = Seq<Seq<char>>;

    closed spec fn view(&self) -> Seq<Seq<char>> {
        views(self.items@)
    }
}

/// Index of `key` in `s`, if present.
pub open spec fn index_of(s: Seq<Seq<char>>, key: Seq<char>) -> Option<int> {
    if exists|i: int| 0 <= i < s.len() && s[i] == key {
        Some(choose|i: int| 0 <= i < s.len() && s[i] == key)
    } else {
        None
    }
}

impl StrSet {
    /// Well-formedness: no string twice.
    pub open spec fn wf(&self) -> bool {
        distinct(self@)
    }

    /// An empty set.
    pub fn new() -> (r: Self)
        ensures
            r@ == Seq::<Seq<char>>::empty(),
            r.wf(),
    {
        let r = StrSet { items: Vec::new() };
        assert(r@ =~= Seq::<Seq<char>>::empty());
        r
    }

    /// Whether `key` is in the set.
    pub fn contains(&self, key: &str) -> (b: bool)
        ensures
            b == self@.contains(key@),
    {
        let mut i: usize = 0;
        while i < self.items.len()
            invariant
                i <= self.items@.len(),
                self@ == views(self.items@),
                forall|k: int| 0 <= k < i ==> self@[k] != key@,
            decreases self.items@.len() - i,
        {
            if str_eq(self.items[i].as_str(), key) {
                assert(self@[i as int] == key@);
                return true;
            }
            i = i + 1;
        }
        false
    }

    /// Where `key` stands in the set, if it is there.
    pub fn position(&self, key: &str) -> (r: Option<usize>)
        ensures
            match r {
                Some(i) => i < self@.len() && self@[i as int] == key@,
                None => !self@.contains(key@),
            },
    {
        let mut i: usize = 0;
        while i < self.items.len()
            invariant
                i <= self.items@.len(),
                self@ == views(self.items@),
                forall|k: int| 0 <= k < i ==> self@[k] != key@,
            decreases self.items@.len() - i,
        {
            if str_eq(self.items[i].as_str(), key) {
                return Some(i);
            }
            i = i + 1;
        }
        None
    }

    /// Adds `key` unless it is already present.
    pub fn insert(&mut self, key: &str)
        requires
            old(self).wf(),
        ensures
            final(self).wf(),
            old(self)@.contains(key@) ==> final(self)@ == old(self)@,
            !old(self)@.contains(key@) ==> final(self)@ == old(self)@.push(key@),
    {
        if !self.contains(key) {
            let ghost before = self@;
            self.items.push(owned(key));
            assert(self@ =~= before.push(key@));
        }
    }

    /// Number of strings.
    pub fn len(&self) -> (n: usize)
        ensures
            n == self@.len(),
    {
        self.items.len()
    }

    /// The strings, in insertion order.
    pub fn items(&self) -> (r: &Vec<String>)
        ensures
            views(r@) == self@,
    {
        &self.items
    }
}

/// The views of string pairs.
pub open spec fn pair_views(v: Seq<(String, String)>) -> Seq<(Seq<char>, Seq<char>)> {
    v.map_values(|p: (String, String)| (p.0@, p.1@))
}

/// The value of the last pair with key `k`.
pub open spec fn last_value(ps: Seq<(Seq<char>, Seq<char>)>, k: Seq<char>) -> Option<Seq<char>>
    decreases ps.len(),
{
    if ps.len() == 0 {
        None
    } else if ps.last().0 == k {
        Some(ps.last().1)
    } else {
        last_value(ps.drop_last(), k)
    }
}

/// A map from strings to strings remembering insertion order.
#[derive(Debug)]
pub struct StrMap {
    entries: Vec<(String, String)>,
}

/// Keys of a sequence of entries.
pub open spec fn entry_keys(e: Seq<(String, String)>) -> Seq<Seq<char>> {
    e.map_values(|p: (String, String)| p.0@)
}

/// Values of a sequence of entries.
pub open spec fn entry_values(e: Seq<(String, String)>) -> Seq<Seq<char>> {
    e.map_values(|p: (String, String)| p.1@)
}

impl StrMap {
    /// The keys in insertion order.
    pub closed spec fn keys(&self) -> Seq<Seq<char>> {
        entry_keys(self.entries@)
    }

    /// The values, in the order of their keys.
    pub closed spec fn vals(&self) -> Seq<Seq<char>> {
        entry_values(self.entries@)
    }

    /// Well-formedness: no key twice.
    #[verifier::type_invariant]
    pub open spec fn wf(&self) -> bool {
        distinct(self.keys()) && self.keys().len() == self.vals().len()
    }

    /// The value for `key`.
    pub open spec fn lookup(&self, key: Seq<char>) -> Option<Seq<char>> {
        match index_of(self.keys(), key) {
            Some(i) => Some(self.vals()[i]),
            None => None,
        }
    }

    /// An empty map.
    pub fn new() -> (r: Self)
        ensures
            r.keys() == Seq::<Seq<char>>::empty(),
            r.wf(),
    {
        let r = StrMap { entries: Vec::new() };
        assert(r.keys() =~= Seq::<Seq<char>>::empty());
        assert(r.vals() =~= Seq::<Seq<char>>::empty());
        r
    }

    /// Position of `key` among the keys.
    fn position(&self, key: &str) -> (r: Option<usize>)
        ensures
            match r {
                Some(i) => i < self.keys().len() && self.keys()[i as int] == key@,
                None => !self.keys().contains(key@),
            },
    {
        let mut i: usize = 0;
        while i < self.entries.len()
            invariant
                i <= self.entries@.len(),
                self.keys() == entry_keys(self.entries@),
                forall|k: int| 0 <= k < i ==> self.keys()[k] != key@,
            decreases self.entries@.len() - i,
        {
            if str_eq(self.entries[i].0.as_str(), key) {
                return Some(i);
            }
            i = i + 1;
        }
        None
    }

    /// The value for `key` (`HashMap::get`).
    pub fn get(&self, key: &str) -> (r: Option<&String>)
        requires
            self.wf(),
        ensures
            match r {
                Some(v) => self.lookup(key@) == Some(v@),
                None => self.lookup(key@) is None,
            },
    {
        match self.position(key) {
            Some(i) => {
                proof {
                    assert(self.keys()[i as int] == key@);
                    let j = index_of(self.keys(), key@)->0;
                    assert(self.keys()[j] == key@);
                    if j != i {
                        if j < i { assert(self.keys()[j] != self.keys()[i as int]); }
                        else { assert(self.keys()[i as int] != self.keys()[j]); }
                    }
                }
                Some(&self.entries[i].1)
            },
            None => None,
        }
    }

    /// Whether `key` has a value.
    pub fn contains_key(&self, key: &str) -> (b: bool)
        ensures
            b == self.keys().contains(key@),
    {
        self.position(key).is_some()
    }

    /// Sets `key` to `value`, replacing an earlier value in place.
    pub fn insert(&mut self, key: &str, value: &str)
        requires
            old(self).wf(),
        ensures
            final(self).wf(),
            old(self).keys().contains(key@) ==> final(self).keys() == old(self).keys(),
            !old(self).keys().contains(key@) ==> final(self).keys() == old(self).keys().push(key@),
            final(self).lookup(key@) == Some(value@),
            forall|k: Seq<char>| k != key@ ==> final(self).lookup(k) == old(self).lookup(k),
    {
        let ghost ok = self.keys();
        let ghost ov = self.vals();
        match self.position(key) {
            Some(i) => {
                let k = self.entries[i].0.clone();
                let mut entries: Vec<(String, String)> = Vec::new();
                std::mem::swap(&mut entries, &mut self.entries);
                entries.set(i, (k, owned(value)));
                proof {
                    assert(entry_keys(entries@) =~= ok);
                }
                self.entries = entries;
                assert(self.keys() =~= ok);
                assert(self.vals() =~= ov.update(i as int, value@));
                proof { self.lemma_lookup_update(ok, ov, i as int, key@, value@); }
            },
            None => {
                let mut entries: Vec<(String, String)> = Vec::new();
                std::mem::swap(&mut entries, &mut self.entries);
                entries.push((owned(key), owned(value)));
                proof {
                    assert(entry_keys(entries@) =~= ok.push(key@));
                    assert forall|a: int, b: int| 0 <= a < b < ok.len() + 1 implies entry_keys(entries@)[a] != entry_keys(entries@)[b] by {
                        if b == ok.len() {
                            assert(ok[a] != key@);
                        }
                    }
                }
                self.entries = entries;
                assert(self.keys() =~= ok.push(key@));
                assert(self.vals() =~= ov.push(value@));
                proof { self.lemma_lookup_push(ok, ov, key@, value@); }
            },
        }
    }

    proof fn lemma_lookup_update(&self, ok: Seq<Seq<char>>, ov: Seq<Seq<char>>, i: int, key: Seq<char>, value: Seq<char>)
        requires
            distinct(ok),
            ok.len() == ov.len(),
            0 <= i < ok.len(),
            ok[i] == key,
            self.keys() == ok,
            self.vals() == ov.update(i, value),
        ensures
            self.lookup(key) == Some(value),
            forall|k: Seq<char>| k != key ==> self.lookup(k) == (match index_of(ok, k) {
                Some(j) => Some(ov[j]),
                None => None::<Seq<char>>,
            }),
    {
        let j = index_of(ok, key)->0;
        assert(ok[j] == key);
        if j != i {
            if j < i { assert(ok[j] != ok[i]); } else { assert(ok[i] != ok[j]); }
        }
    }

    proof fn lemma_lookup_push(&self, ok: Seq<Seq<char>>, ov: Seq<Seq<char>>, key: Seq<char>, value: Seq<char>)
        requires
            distinct(ok),
            !ok.contains(key),
            ok.len() == ov.len(),
            self.keys() == ok.push(key),
            self.vals() == ov.push(value),
        ensures
            self.lookup(key) == Some(value),
            forall|k: Seq<char>| k != key ==> self.lookup(k) == (match index_of(ok, k) {
                Some(j) => Some(ov[j]),
                None => None::<Seq<char>>,
            }),
    {
        let nk = ok.push(key);
        let j = index_of(nk, key)->0;
        assert(nk[ok.len() as int] == key);
        assert(nk[j] == key);
        if j < ok.len() { assert(ok[j] == key); }
        assert forall|k: Seq<char>| k != key implies self.lookup(k) == (match index_of(ok, k) {
            Some(j) => Some(ov[j]),
            None => None::<Seq<char>>,
        }) by {
            if exists|m: int| 0 <= m < ok.len() && ok[m] == k {
                let m = choose|m: int| 0 <= m < ok.len() && ok[m] == k;
                assert(nk[m] == k);
                let a = index_of(nk, k)->0;
                let b = index_of(ok, k)->0;
                assert(nk[a] == k);
                assert(a != ok.len());
                assert(ok[a] == k);
                assert(ok[b] == k);
                if a != b {
                    if a < b { assert(ok[a] != ok[b]); } else { assert(ok[b] != ok[a]); }
                }
            } else {
                if exists|m: int| 0 <= m < nk.len() && nk[m] == k {
                    let m = choose|m: int| 0 <= m < nk.len() && nk[m] == k;
                    assert(m != ok.len());
                    assert(ok[m] == k);
                }
            }
        }
    }

    /// Number of entries.
    pub fn len(&self) -> (n: usize)
        ensures
            n == self.keys().len(),
    {
        self.entries.len()
    }

    /// A map holding `pairs`, a later pair replacing an earlier one with the
    /// same key (`HashMap::from`).
    pub fn from_pairs(pairs: Vec<(String, String)>) -> (r: Self)
        ensures
            r.wf(),
            forall|k: Seq<char>| #[trigger] r.lookup(k) == last_value(pair_views(pairs@), k),
    {
        let mut r = StrMap::new();
        let ghost ps = pair_views(pairs@);
        let mut i: usize = 0;
        proof {
            assert forall|k: Seq<char>| #[trigger] r.lookup(k) == last_value(ps.take(0), k) by {
                assert(ps.take(0).len() == 0);
            }
        }
        while i < pairs.len()
            invariant
                i <= pairs@.len(),
                ps == pair_views(pairs@),
                r.wf(),
                forall|k: Seq<char>| #[trigger] r.lookup(k) == last_value(ps.take(i as int), k),
            decreases pairs@.len() - i,
        {
            r.insert(pairs[i].0.as_str(), pairs[i].1.as_str());
            proof {
                assert(ps.take(i + 1).drop_last() =~= ps.take(i as int));
                assert(ps.take(i + 1).last() == (pairs@[i as int].0@, pairs@[i as int].1@));
            }
            i = i + 1;
        }
        proof {
            assert(ps.take(i as int) =~= ps);
        }
        r
    }

    /// Removes the entry of `key`, if any.
    pub fn remove(&mut self, key: &str)
        requires
            old(self).wf(),
        ensures
            final(self).wf(),
            final(self).lookup(key@) is None,
            forall|k: Seq<char>| k != key@ ==> final(self).lookup(k) == old(self).lookup(k),
    {
        let ghost ok = self.keys();
        let ghost ov = self.vals();
        match self.position(key) {
            Some(i) => {
                let mut entries: Vec<(String, String)> = Vec::new();
                std::mem::swap(&mut entries, &mut self.entries);
                entries.remove(i);
                proof {
                    let nk = entry_keys(entries@);
                    assert(nk =~= ok.remove(i as int));
                    assert forall|a: int, b: int| 0 <= a < b < nk.len() implies nk[a] != nk[b] by {
                        let oa = if a < i { a } else { a + 1 };
                        let ob = if b < i { b } else { b + 1 };
                        assert(nk[a] == ok[oa]);
                        assert(nk[b] == ok[ob]);
                    }
                }
                self.entries = entries;
                proof {
                    let nk = self.keys();
                    let nv = self.vals();
                    assert(nk =~= ok.remove(i as int));
                    assert(nv =~= ov.remove(i as int));
                    assert forall|a: int, b: int| 0 <= a < b < nk.len() implies nk[a] != nk[b] by {
                        let oa = if a < i { a } else { a + 1 };
                        let ob = if b < i { b } else { b + 1 };
                        assert(nk[a] == ok[oa]);
                        assert(nk[b] == ok[ob]);
                    }
                    assert forall|m: int| 0 <= m < nk.len() implies nk[m] != key@ by {
                        let om = if m < i { m } else { m + 1 };
                        assert(nk[m] == ok[om]);
                        if om < i { assert(ok[om] != ok[i as int]); } else { assert(ok[i as int] != ok[om]); }
                    }
                    assert forall|k: Seq<char>| k != key@ implies self.lookup(k) == (match index_of(ok, k) {
                        Some(j) => Some(ov[j]),
                        None => None::<Seq<char>>,
                    }) by {
                        if exists|m: int| 0 <= m < ok.len() && ok[m] == k {
                            let b = index_of(ok, k)->0;
                            assert(ok[b] == k);
                            assert(b != i);
                            let nb = if b < i { b } else { b - 1 };
                            assert(nk[nb] == k);
                            let a = index_of(nk, k)->0;
                            assert(nk[a] == k);
                            if a != nb {
                                if a < nb { assert(nk[a] != nk[nb]); } else { assert(nk[nb] != nk[a]); }
                            }
                        } else {
                            if exists|m: int| 0 <= m < nk.len() && nk[m] == k {
                                let m = choose|m: int| 0 <= m < nk.len() && nk[m] == k;
                                let om = if m < i { m } else { m + 1 };
                                assert(ok[om] == k);
                            }
                        }
                    }
                }
            },
            None => {},
        }
    }

    /// Removes every entry.
    pub fn clear(&mut self)
        ensures
            final(self).wf(),
            final(self).keys().len() == 0,
    {
        self.entries = Vec::new();
        proof {
            assert(self.keys() =~= Seq::<Seq<char>>::empty());
            assert(self.vals() =~= Seq::<Seq<char>>::empty());
        }
    }

    /// A copy of the map.
    pub fn duplicate(&self) -> (r: Self)
        ensures
            r.keys() == self.keys(),
            r.vals() == self.vals(),
    {
        proof {
            use_type_invariant(self);
        }
        let mut entries: Vec<(String, String)> = Vec::new();
        let mut i: usize = 0;
        while i < self.entries.len()
            invariant
                i <= self.entries@.len(),
                entry_keys(entries@) == entry_keys(self.entries@).take(i as int),
                entry_values(entries@) == entry_values(self.entries@).take(i as int),
            decreases self.entries@.len() - i,
        {
            let k = owned(self.entries[i].0.as_str());
            let v = owned(self.entries[i].1.as_str());
            let ghost before = entries@;
            entries.push((k, v));
            proof {
                assert(entry_keys(entries@) =~= entry_keys(before).push(self.entries@[i as int].0@));
                assert(entry_values(entries@) =~= entry_values(before).push(self.entries@[i as int].1@));
                assert(entry_keys(entries@) =~= entry_keys(self.entries@).take(i + 1));
                assert(entry_values(entries@) =~= entry_values(self.entries@).take(i + 1));
            }
            i = i + 1;
        }
        proof {
            assert(entry_keys(self.entries@).take(i as int) =~= entry_keys(self.entries@));
            assert(entry_values(self.entries@).take(i as int) =~= entry_values(self.entries@));
        }
        StrMap { entries }
    }

    /// Inserts every entry of `other`, in its order (`HashMap::extend`):
    /// keys of `other` take its values, other keys keep theirs.
    pub fn extend_from(&mut self, other: &StrMap)
        ensures
            forall|k: Seq<char>| #[trigger] final(self).lookup(k) == (if other.lookup(k) is Some {
                other.lookup(k)
            } else {
                old(self).lookup(k)
            }),
    {
        proof {
            use_type_invariant(other);
        }
        let ghost start = *self;
        let es = other.entries();
        let mut i: usize = 0;
        while i < es.len()
            invariant
                i <= es@.len(),
                entry_keys(es@) == other.keys(),
                entry_values(es@) == other.vals(),
                distinct(other.keys()),
                other.keys().len() == other.vals().len(),
                forall|k: Seq<char>| #[trigger] self.lookup(k) == (if other.keys().take(i as int).contains(k) {
                    other.lookup(k)
                } else {
                    start.lookup(k)
                }),
            decreases es@.len() - i,
        {
            proof {
                use_type_invariant(&*self);
            }
            let ghost prev = *self;
            self.insert(es[i].0.as_str(), es[i].1.as_str());
            proof {
                let ks = other.keys();
                assert(ks[i as int] == es@[i as int].0@);
                let idx = index_of(ks, ks[i as int])->0;
                assert(ks[idx] == ks[i as int]);
                if idx != i {
                    if idx < i { assert(ks[idx] != ks[i as int]); } else { assert(ks[i as int] != ks[idx]); }
                }
                assert(other.lookup(ks[i as int]) == Some(es@[i as int].1@));
                assert forall|k: Seq<char>| #[trigger] self.lookup(k) == (if ks.take(i + 1).contains(k) {
                    other.lookup(k)
                } else {
                    start.lookup(k)
                }) by {
                    if k == ks[i as int] {
                        assert(ks.take(i + 1)[i as int] == k);
                    } else {
                        assert(self.lookup(k) == prev.lookup(k));
                        if ks.take(i + 1).contains(k) {
                            let t = choose|t: int| 0 <= t < i + 1 && #[trigger] ks.take(i + 1)[t] == k;
                            assert(ks.take(i as int)[t] == k);
                        }
                        if ks.take(i as int).contains(k) {
                            let t = choose|t: int| 0 <= t < i && #[trigger] ks.take(i as int)[t] == k;
                            assert(ks.take(i + 1)[t] == k);
                        }
                    }
                }
            }
            i = i + 1;
        }
        proof {
            assert(other.keys().take(i as int) =~= other.keys());
            assert forall|k: Seq<char>| #[trigger] self.lookup(k) == (if other.lookup(k) is Some {
                other.lookup(k)
            } else {
                start.lookup(k)
            }) by {
                if other.keys().contains(k) {
                    let t = choose|t: int| 0 <= t < other.keys().len() && other.keys()[t] == k;
                    assert(index_of(other.keys(), k) is Some);
                } else {
                    assert(index_of(other.keys(), k) is None);
                }
            }
        }
    }

    /// The entries in insertion order.
    pub fn entries(&self) -> (r: &Vec<(String, String)>)
        ensures
            entry_keys(r@) == self.keys(),
            entry_values(r@) == self.vals(),
    {
        &self.entries
    }
}

impl Clone for StrMap {
    fn clone(&self) -> (r: Self)
        ensures
            r.keys() == self.keys(),
            r.vals() == self.vals(),
    {
        self.duplicate()
    }
}

} // verus!
