//! A key-value store kept in memory: values with optional metadata and
//! expiration, listed in key order by prefix and page.

use vstd::prelude::*;
use crate::sourcemap::{lemma_str_lt_irrefl, lemma_str_lt_total, lemma_str_lt_trans, str_less, str_lt};
use crate::text::{owned, starts_with, str_starts_with};

verus! {

/// An error of a key-value store.
#[derive(Debug)]
pub enum KVError {
    /// The key does not exist (reads answer `None` instead).
    NotFound,
    /// The storage failed.
    Storage(String),
    /// A value could not be encoded or decoded.
    Serialization(String),
    /// The operation is not allowed, such as for a malformed key.
    InvalidOperation(String),
}

/// The text of an error.
pub open spec fn kv_error_message(e: KVError) -> Seq<char> {
    match e {
        KVError::NotFound => "Key not found"@,
        KVError::Storage(m) => "Storage error: "@ + m@,
        KVError::Serialization(m) => "Serialization error: "@ + m@,
        KVError::InvalidOperation(m) => "Invalid operation: "@ + m@,
    }
}

impl KVError {
    /// The error as text.
    pub fn to_message(&self) -> (r: String)
        ensures
            r@ == kv_error_message(*self),
    {
        let mut out = String::new();
        match self {
            KVError::NotFound => out.append("Key not found"),
            KVError::Storage(m) => {
                out.append("Storage error: ");
                out.append(m.as_str());
            },
            KVError::Serialization(m) => {
                out.append("Serialization error: ");
                out.append(m.as_str());
            },
            KVError::InvalidOperation(m) => {
                out.append("Invalid operation: ");
                out.append(m.as_str());
            },
        }
        out
    }
}

/// A stored value with its metadata and expiration.
#[derive(Debug)]
pub struct KVEntry {
    /// The value.
    pub value: Vec<u8>,
    /// JSON metadata, if any.
    pub metadata: Option<serde_json::Value>,
    /// Unix time at which the entry expires, if any.
    pub expiration: Option<u64>,
}

/// How to store a value.
#[derive(Debug)]
pub struct PutOptions {
    /// Unix time at which the entry expires.
    pub expiration: Option<u64>,
    /// Seconds from now after which the entry expires.
    pub expiration_ttl: Option<u64>,
    /// JSON metadata to keep with the entry.
    pub metadata: Option<serde_json::Value>,
}

/// The expiration that options give at Unix time `now`: the explicit time,
/// else `now` plus the time to live (capped at the largest `u64`), else
/// none.
pub open spec fn expiration_at_spec(expiration: Option<u64>, ttl: Option<u64>, now: u64) -> Option<u64> {
    match expiration {
        Some(e) => Some(e),
        None => match ttl {
            Some(t) => Some(if now + t <= u64::MAX { (now + t) as u64 } else { u64::MAX }),
            None => None,
        },
    }
}

/// The current Unix time in seconds (`SystemTime::now` since
/// `UNIX_EPOCH`, 0 before it). Nothing is stated: it is the clock.
#[verifier::external_body]
fn now_secs() -> (r: u64) {
    std::time::SystemTime::now().duration_since(std::time::UNIX_EPOCH).map(|d| d.as_secs()).unwrap_or(0)
}

/// A copy of optional JSON metadata.
fn metadata_copy(m: &Option<serde_json::Value>) -> (r: Option<serde_json::Value>)
    ensures
        r == *m,
{
    match m {
        Some(v) => Some(v.clone()),
        None => None,
    }
}

/// A copy of bytes.
fn bytes_copy(b: &[u8]) -> (r: Vec<u8>)
    ensures
        r@ == b@,
{
    let mut out: Vec<u8> = Vec::new();
    let mut i: usize = 0;
    while i < b.len()
        invariant
            i <= b@.len(),
            out@ == b@.take(i as int),
        decreases b@.len() - i,
    {
        out.push(b[i]);
        proof {
            assert(out@ =~= b@.take(i + 1));
        }
        i = i + 1;
    }
    proof {
        assert(b@.take(i as int) =~= b@);
    }
    out
}

impl PutOptions {
    /// The expiration these options give at Unix time `now`.
    pub fn expiration_at(&self, now: u64) -> (r: Option<u64>)
        ensures
            r == expiration_at_spec(self.expiration, self.expiration_ttl, now),
    {
        match self.expiration {
            Some(e) => Some(e),
            None => match self.expiration_ttl {
                Some(t) => Some(now.saturating_add(t)),
                None => None,
            },
        }
    }

    /// The expiration these options give now: what `expiration_at` gives
    /// for the current time.
    pub fn calculate_expiration(&self) -> (r: Option<u64>)
        ensures
            self.expiration is Some ==> r == self.expiration,
            self.expiration is None && self.expiration_ttl is None ==> r is None,
            self.expiration is None && self.expiration_ttl is Some ==> r is Some,
    {
        let now = now_secs();
        self.expiration_at(now)
    }
}

impl Default for PutOptions {
    fn default() -> (r: Self)
        ensures
            r.expiration is None,
            r.expiration_ttl is None,
            r.metadata is None,
    {
        PutOptions { expiration: None, expiration_ttl: None, metadata: None }
    }
}

/// How to list keys.
#[derive(Debug, Clone)]
pub struct ListOptions {
    /// Only keys starting with this text.
    pub prefix: Option<String>,
    /// At most this many keys (1000 when unset).
    pub limit: Option<usize>,
    /// Continue after this key (the cursor of an earlier page).
    pub cursor: Option<String>,
}

impl Default for ListOptions {
    fn default() -> (r: Self)
        ensures
            r.prefix is None,
            r.limit is None,
            r.cursor is None,
    {
        ListOptions { prefix: None, limit: None, cursor: None }
    }
}

/// A listed key.
#[derive(Debug)]
pub struct ListKey {
    /// The key.
    pub name: String,
    /// Its expiration, if any.
    pub expiration: Option<u64>,
    /// Its metadata, if any.
    pub metadata: Option<serde_json::Value>,
}

/// A page of keys.
#[derive(Debug)]
pub struct ListResult {
    /// The keys, in order.
    pub keys: Vec<ListKey>,
    /// Whether no matching key is left after these.
    pub list_complete: bool,
    /// Where the next page starts, when there is one.
    pub cursor: Option<String>,
}

/// What is stored under a key: value, metadata, expiration.
pub type Record = (Seq<u8>, Option<serde_json::Value>, Option<u64>);

/// A stored entry.
#[derive(Debug)]
struct MemoryEntry {
    value: Vec<u8>,
    metadata: Option<serde_json::Value>,
    expiration: Option<u64>,
}

/// The record of an entry.
spec fn record_of(e: MemoryEntry) -> Record {
    (e.value@, e.metadata, e.expiration)
}

/// The keys of entries.
pub open spec fn kv_keys(es: Seq<(Seq<char>, Record)>) -> Seq<Seq<char>> {
    es.map_values(|e: (Seq<char>, Record)| e.0)
}

/// Keys strictly increasing.
pub open spec fn kv_sorted(es: Seq<(Seq<char>, Record)>) -> bool {
    forall|i: int, j: int| 0 <= i < j < es.len() ==> str_lt(#[trigger] es[i].0, #[trigger] es[j].0)
}

/// Where key `k` stands, if present.
pub open spec fn kv_index(es: Seq<(Seq<char>, Record)>, k: Seq<char>) -> Option<int> {
    if exists|i: int| 0 <= i < es.len() && es[i].0 == k {
        Some(choose|i: int| 0 <= i < es.len() && es[i].0 == k)
    } else {
        None
    }
}

/// The record under key `k`.
pub open spec fn kv_lookup(es: Seq<(Seq<char>, Record)>, k: Seq<char>) -> Option<Record> {
    match kv_index(es, k) {
        Some(i) => Some(es[i].1),
        None => None,
    }
}

/// The record has expired at Unix time `now`.
pub open spec fn expired(r: Record, now: u64) -> bool {
    r.2 matches Some(e) && now >= e
}

/// No record, or a record with an expiration.
pub open spec fn may_expire(r: Option<Record>) -> bool {
    match r {
        Some(rec) => rec.2 is Some,
        None => true,
    }
}

/// The record under `k` unless it has expired at `now`.
pub open spec fn live_record(es: Seq<(Seq<char>, Record)>, k: Seq<char>, now: u64) -> Option<Record> {
    match kv_lookup(es, k) {
        Some(r) => if expired(r, now) { None } else { Some(r) },
        None => None,
    }
}

/// The entries after key `cursor` (none when the key is absent), or all
/// without cursor.
pub open spec fn after_cursor(es: Seq<(Seq<char>, Record)>, cursor: Option<Seq<char>>) -> Seq<(Seq<char>, Record)> {
    match cursor {
        None => es,
        Some(c) => match kv_index(es, c) {
            Some(i) => es.skip(i + 1),
            None => Seq::empty(),
        },
    }
}

/// An entry that a listing at `now` with `prefix` shows.
pub open spec fn listable(e: (Seq<char>, Record), now: u64, prefix: Option<Seq<char>>) -> bool {
    !expired(e.1, now) && match prefix {
        Some(p) => starts_with(e.0, p),
        None => true,
    }
}

/// The entries that a listing at `now` with `prefix` shows, in order.
pub open spec fn matching(es: Seq<(Seq<char>, Record)>, now: u64, prefix: Option<Seq<char>>) -> Seq<(Seq<char>, Record)>
    decreases es.len(),
{
    if es.len() == 0 {
        Seq::empty()
    } else {
        let r = matching(es.drop_last(), now, prefix);
        if listable(es.last(), now, prefix) {
            r.push(es.last())
        } else {
            r
        }
    }
}

/// The view of an optional string.
pub open spec fn opt_view(o: Option<String>) -> Option<Seq<char>> {
    match o {
        Some(s) => Some(s@),
        None => None,
    }
}

/// The page size of options.
pub open spec fn page_limit(o: ListOptions) -> usize {
    match o.limit {
        Some(l) => l,
        None => 1000,
    }
}

/// What a listed key shows of an entry.
pub open spec fn key_shows(k: ListKey, e: (Seq<char>, Record)) -> bool {
    k.name@ == e.0 && k.expiration == e.1.2 && k.metadata == e.1.1
}

/// A page holds the first `n` of `m`: key by key.
pub open spec fn page_of(keys: Seq<ListKey>, m: Seq<(Seq<char>, Record)>, n: int) -> bool {
    keys.len() == n && forall|i: int| 0 <= i < n ==> key_shows(#[trigger] keys[i], m[i])
}

/// `res` is the page that listing `es` with `options` at `now` gives.
pub open spec fn list_page(es: Seq<(Seq<char>, Record)>, options: ListOptions, now: u64, res: ListResult) -> bool {
    let m = matching(after_cursor(es, opt_view(options.cursor)), now, opt_view(options.prefix));
    let l = page_limit(options);
    if m.len() > l {
        &&& page_of(res.keys@, m, l as int)
        &&& !res.list_complete
        &&& opt_view(res.cursor) == (if l > 0 { Some(m[l - 1].0) } else { None::<Seq<char>> })
    } else {
        &&& page_of(res.keys@, m, m.len() as int)
        &&& res.list_complete
        &&& res.cursor is None
    }
}

/// A key-value store in memory, entries in key order.
#[derive(Debug)]
pub struct MemoryKVStore {
    data: Vec<(String, MemoryEntry)>,
}

impl View for MemoryKVStore {
    type V = Seq<(Seq<char>, Record)>;

    closed spec fn view(&self) -> Seq<(Seq<char>, Record)> {
        self.data@.map_values(|e: (String, MemoryEntry)| (e.0@, record_of(e.1)))
    }
}

impl MemoryKVStore {
    /// Keys strictly increasing.
    #[verifier::type_invariant]
    closed spec fn wf(&self) -> bool {
        kv_sorted(self@)
    }

    /// An empty store.
    pub fn new() -> (r: Self)
        ensures
            r@ == Seq::<(Seq<char>, Record)>::empty(),
            kv_sorted(r@),
    {
        let r = MemoryKVStore { data: Vec::new() };
        assert(r@ =~= Seq::<(Seq<char>, Record)>::empty());
        r
    }

    /// Where `key` stands (`Ok`), or where it would go (`Err`).
    fn search(&self, key: &str) -> (r: Result<usize, usize>)
        ensures
            match r {
                Ok(i) => i < self@.len() && self@[i as int].0 == key@,
                Err(i) => i <= self@.len() && (forall|k: int| 0 <= k < i ==> str_lt(#[trigger] self@[k].0, key@))
                    && (forall|k: int| i <= k < self@.len() ==> str_lt(key@, #[trigger] self@[k].0)),
            },
    {
        proof {
            use_type_invariant(self);
        }
        let mut i: usize = 0;
        while i < self.data.len()
            invariant
                i <= self.data@.len() == self@.len(),
                kv_sorted(self@),
                forall|k: int| 0 <= k < i ==> str_lt(#[trigger] self@[k].0, key@),
            decreases self.data@.len() - i,
        {
            proof {
                assert(self@[i as int].0 == self.data@[i as int].0@);
            }
            if !str_less(self.data[i].0.as_str(), key) {
                if crate::ast::str_eq(self.data[i].0.as_str(), key) {
                    return Ok(i);
                }
                proof {
                    lemma_str_lt_total(self@[i as int].0, key@);
                    assert forall|k: int| i <= k < self@.len() implies str_lt(key@, #[trigger] self@[k].0) by {
                        if k > i {
                            lemma_str_lt_trans(key@, self@[i as int].0, self@[k].0);
                        }
                    }
                }
                return Err(i);
            }
            i = i + 1;
        }
        Err(i)
    }
}

/// In sorted entries a key stands at most once.
pub proof fn lemma_sorted_index(es: Seq<(Seq<char>, Record)>, i: int)
    requires
        kv_sorted(es),
        0 <= i < es.len(),
    ensures
        kv_index(es, es[i].0) == Some(i),
{
    let j = choose|j: int| 0 <= j < es.len() && es[j].0 == es[i].0;
    if j < i {
        assert(str_lt(es[j].0, es[i].0));
        lemma_str_lt_irrefl(es[i].0);
    } else if j > i {
        assert(str_lt(es[i].0, es[j].0));
        lemma_str_lt_irrefl(es[i].0);
    }
}


/// The store after putting `rec` under `k`: ordered, `k` holds `rec`, other
/// keys unchanged.
pub open spec fn put_result(before: Seq<(Seq<char>, Record)>, after: Seq<(Seq<char>, Record)>, k: Seq<char>, rec: Record) -> bool {
    &&& kv_sorted(after)
    &&& kv_lookup(after, k) == Some(rec)
    &&& forall|k2: Seq<char>| k2 != k ==> #[trigger] kv_lookup(after, k2) == kv_lookup(before, k2)
}

/// The store after deleting `k`: ordered, `k` absent, other keys unchanged.
pub open spec fn delete_result(before: Seq<(Seq<char>, Record)>, after: Seq<(Seq<char>, Record)>, k: Seq<char>) -> bool {
    &&& kv_sorted(after)
    &&& kv_lookup(after, k) is None
    &&& forall|k2: Seq<char>| k2 != k ==> #[trigger] kv_lookup(after, k2) == kv_lookup(before, k2)
}

/// In sorted entries the lookup of a key is the record where it stands,
/// and none when it stands nowhere.
pub proof fn lemma_lookup_at(es: Seq<(Seq<char>, Record)>, k: Seq<char>)
    requires
        kv_sorted(es),
    ensures
        forall|i: int| 0 <= i < es.len() && #[trigger] es[i].0 == k ==> kv_lookup(es, k) == Some(es[i].1),
        (forall|i: int| 0 <= i < es.len() ==> #[trigger] es[i].0 != k) ==> kv_lookup(es, k) is None,
{
    assert forall|i: int| 0 <= i < es.len() && #[trigger] es[i].0 == k implies kv_lookup(es, k) == Some(es[i].1) by {
        lemma_sorted_index(es, i);
    }
}

/// Listing splits over the parts of a sequence of entries.
pub proof fn lemma_matching_concat(a: Seq<(Seq<char>, Record)>, b: Seq<(Seq<char>, Record)>, now: u64, prefix: Option<Seq<char>>)
    ensures
        matching(a + b, now, prefix) == matching(a, now, prefix) + matching(b, now, prefix),
    decreases b.len(),
{
    if b.len() == 0 {
        assert(a + b =~= a);
        assert(matching(a, now, prefix) + Seq::<(Seq<char>, Record)>::empty() =~= matching(a, now, prefix));
    } else {
        lemma_matching_concat(a, b.drop_last(), now, prefix);
        assert((a + b).drop_last() =~= a + b.drop_last());
        assert((a + b).last() == b.last());
        if listable(b.last(), now, prefix) {
            assert(matching(a + b, now, prefix) =~= matching(a, now, prefix) + matching(b, now, prefix));
        }
    }
}

impl MemoryKVStore {
    /// Stores `value` under `key` with the options, at Unix time `now`.
    pub fn put_at(&mut self, key: &str, value: &[u8], options: PutOptions, now: u64) -> (r: Result<(), KVError>)
        ensures
            r is Ok,
            put_result(old(self)@, final(self)@, key@, (value@, options.metadata, expiration_at_spec(options.expiration, options.expiration_ttl, now))),
    {
        proof {
            use_type_invariant(&*self);
        }
        let exp = options.expiration_at(now);
        let entry = MemoryEntry { value: bytes_copy(value), metadata: options.metadata, expiration: exp };
        let ghost rec = record_of(entry);
        let ghost before = self@;
        let pos = self.search(key);
        let mut data: Vec<(String, MemoryEntry)> = Vec::new();
        std::mem::swap(&mut data, &mut self.data);
        let ghost old_data = data@;
        proof {
            assert(before == old_data.map_values(|e: (String, MemoryEntry)| (e.0@, record_of(e.1))));
        }
        match pos {
            Ok(i) => {
                let k = owned(data[i].0.as_str());
                data.set(i, (k, entry));
                proof {
                    let after = data@.map_values(|e: (String, MemoryEntry)| (e.0@, record_of(e.1)));
                    assert(after =~= before.update(i as int, (key@, rec)));
                    assert(kv_sorted(after));
                    lemma_lookup_at(after, key@);
                    assert(after[i as int].0 == key@);
                    assert forall|k2: Seq<char>| k2 != key@ implies #[trigger] kv_lookup(after, k2) == kv_lookup(before, k2) by {
                        lemma_lookup_at(after, k2);
                        lemma_lookup_at(before, k2);
                        if exists|j: int| 0 <= j < before.len() && before[j].0 == k2 {
                            let j = choose|j: int| 0 <= j < before.len() && before[j].0 == k2;
                            assert(after[j].0 == k2);
                        } else {
                            assert forall|j: int| 0 <= j < after.len() implies #[trigger] after[j].0 != k2 by {
                                if j != i {
                                    assert(after[j] == before[j]);
                                }
                            }
                        }
                    }
                }
            },
            Err(i) => {
                data.insert(i, (owned(key), entry));
                proof {
                    let after = data@.map_values(|e: (String, MemoryEntry)| (e.0@, record_of(e.1)));
                    assert(after =~= before.insert(i as int, (key@, rec)));
                    assert forall|a: int, b: int| 0 <= a < b < after.len() implies str_lt(#[trigger] after[a].0, #[trigger] after[b].0) by {
                        if b < i {
                            assert(after[a] == before[a] && after[b] == before[b]);
                        } else if b == i {
                            assert(after[a] == before[a]);
                        } else if a < i {
                            assert(after[a] == before[a] && after[b] == before[b - 1]);
                            lemma_str_lt_trans(before[a].0, key@, before[b - 1].0);
                        } else if a == i {
                            assert(after[b] == before[b - 1]);
                        } else {
                            assert(after[a] == before[a - 1] && after[b] == before[b - 1]);
                        }
                    }
                    lemma_lookup_at(after, key@);
                    assert(after[i as int].0 == key@);
                    assert forall|k2: Seq<char>| k2 != key@ implies #[trigger] kv_lookup(after, k2) == kv_lookup(before, k2) by {
                        lemma_lookup_at(after, k2);
                        lemma_lookup_at(before, k2);
                        if exists|j: int| 0 <= j < before.len() && before[j].0 == k2 {
                            let j = choose|j: int| 0 <= j < before.len() && before[j].0 == k2;
                            if j < i {
                                assert(after[j] == before[j]);
                            } else {
                                assert(after[j + 1] == before[j]);
                            }
                        } else {
                            assert forall|j: int| 0 <= j < after.len() implies #[trigger] after[j].0 != k2 by {
                                if j < i {
                                    assert(after[j] == before[j]);
                                } else if j > i {
                                    assert(after[j] == before[j - 1]);
                                }
                            }
                        }
                    }
                }
            },
        }
        self.data = data;
        Ok(())
    }

    /// Stores `value` under `key` with the options, now.
    pub fn put(&mut self, key: &str, value: &[u8], options: PutOptions) -> (r: Result<(), KVError>)
        ensures
            r is Ok,
            exists|now: u64| put_result(old(self)@, final(self)@, key@, (value@, options.metadata, expiration_at_spec(options.expiration, options.expiration_ttl, now))),
    {
        let now = now_secs();
        let ghost meta = options.metadata;
        let ghost e = options.expiration;
        let ghost t = options.expiration_ttl;
        let r = self.put_at(key, value, options, now);
        proof {
            assert(put_result(old(self)@, self@, key@, (value@, meta, expiration_at_spec(e, t, now))));
        }
        r
    }

    /// Removes `key`; nothing happens when it is absent.
    pub fn delete(&mut self, key: &str) -> (r: Result<(), KVError>)
        ensures
            r is Ok,
            delete_result(old(self)@, final(self)@, key@),
    {
        proof {
            use_type_invariant(&*self);
        }
        let ghost before = self@;
        let pos = self.search(key);
        match pos {
            Ok(i) => {
                let mut data: Vec<(String, MemoryEntry)> = Vec::new();
                std::mem::swap(&mut data, &mut self.data);
                proof {
                    assert(before == data@.map_values(|e: (String, MemoryEntry)| (e.0@, record_of(e.1))));
                }
                data.remove(i);
                proof {
                    let after = data@.map_values(|e: (String, MemoryEntry)| (e.0@, record_of(e.1)));
                    assert(after =~= before.remove(i as int));
                    assert forall|a: int, b: int| 0 <= a < b < after.len() implies str_lt(#[trigger] after[a].0, #[trigger] after[b].0) by {
                        if b < i {
                            assert(after[a] == before[a] && after[b] == before[b]);
                        } else if a < i {
                            assert(after[a] == before[a] && after[b] == before[b + 1]);
                        } else {
                            assert(after[a] == before[a + 1] && after[b] == before[b + 1]);
                        }
                    }
                    lemma_lookup_at(after, key@);
                    assert forall|j: int| 0 <= j < after.len() implies #[trigger] after[j].0 != key@ by {
                        lemma_sorted_index(before, i as int);
                        if j < i {
                            assert(after[j] == before[j]);
                            assert(str_lt(before[j].0, before[i as int].0));
                            lemma_str_lt_irrefl(key@);
                        } else {
                            assert(after[j] == before[j + 1]);
                            assert(str_lt(before[i as int].0, before[j + 1].0));
                            lemma_str_lt_irrefl(key@);
                        }
                    }
                    assert forall|k2: Seq<char>| k2 != key@ implies #[trigger] kv_lookup(after, k2) == kv_lookup(before, k2) by {
                        lemma_lookup_at(after, k2);
                        lemma_lookup_at(before, k2);
                        if exists|j: int| 0 <= j < before.len() && before[j].0 == k2 {
                            let j = choose|j: int| 0 <= j < before.len() && before[j].0 == k2;
                            if j < i {
                                assert(after[j] == before[j]);
                            } else {
                                assert(after[j - 1] == before[j]);
                            }
                        } else {
                            assert forall|j: int| 0 <= j < after.len() implies #[trigger] after[j].0 != k2 by {
                                if j < i {
                                    assert(after[j] == before[j]);
                                } else {
                                    assert(after[j] == before[j + 1]);
                                }
                            }
                        }
                    }
                }
                self.data = data;
            },
            Err(_) => {
                proof {
                    lemma_lookup_at(before, key@);
                    assert forall|j: int| 0 <= j < before.len() implies #[trigger] before[j].0 != key@ by {
                        lemma_str_lt_irrefl(key@);
                    }
                }
            },
        }
        Ok(())
    }
}


impl MemoryKVStore {
    /// The value under `key` at Unix time `now`, unless absent or expired.
    pub fn get_at(&self, key: &str, now: u64) -> (r: Result<Option<Vec<u8>>, KVError>)
        ensures
            r matches Ok(v) && match live_record(self@, key@, now) {
                Some(rec) => v matches Some(b) && b@ == rec.0,
                None => v is None,
            },
    {
        proof {
            use_type_invariant(self);
            lemma_lookup_at(self@, key@);
        }
        match self.search(key) {
            Ok(i) => {
                let e = &self.data[i].1;
                proof {
                    assert(self@[i as int].1 == record_of(*e));
                }
                let dead = match e.expiration {
                    Some(x) => now >= x,
                    None => false,
                };
                if dead {
                    Ok(None)
                } else {
                    Ok(Some(bytes_copy(e.value.as_slice())))
                }
            },
            Err(_) => {
                proof {
                    assert forall|j: int| 0 <= j < self@.len() implies #[trigger] self@[j].0 != key@ by {
                        lemma_str_lt_irrefl(key@);
                    }
                }
                Ok(None)
            },
        }
    }

    /// The value under `key` now, unless absent or expired: a value comes
    /// only from the record under the key.
    pub fn get(&self, key: &str) -> (r: Result<Option<Vec<u8>>, KVError>)
        ensures
            r matches Ok(v) && (v matches Some(b) ==> kv_lookup(self@, key@) matches Some(rec) && b@ == rec.0),
            r matches Ok(v) && (v is None ==> may_expire(kv_lookup(self@, key@))),
    {
        let now = now_secs();
        self.get_at(key, now)
    }

    /// The value, metadata and expiration under `key` at Unix time `now`,
    /// unless absent or expired.
    pub fn get_with_metadata_at(&self, key: &str, now: u64) -> (r: Result<Option<KVEntry>, KVError>)
        ensures
            r matches Ok(v) && match live_record(self@, key@, now) {
                Some(rec) => v matches Some(e) && e.value@ == rec.0 && e.metadata == rec.1 && e.expiration == rec.2,
                None => v is None,
            },
    {
        proof {
            use_type_invariant(self);
            lemma_lookup_at(self@, key@);
        }
        match self.search(key) {
            Ok(i) => {
                let e = &self.data[i].1;
                proof {
                    assert(self@[i as int].1 == record_of(*e));
                }
                let dead = match e.expiration {
                    Some(x) => now >= x,
                    None => false,
                };
                if dead {
                    Ok(None)
                } else {
                    Ok(Some(KVEntry { value: bytes_copy(e.value.as_slice()), metadata: metadata_copy(&e.metadata), expiration: e.expiration }))
                }
            },
            Err(_) => {
                proof {
                    assert forall|j: int| 0 <= j < self@.len() implies #[trigger] self@[j].0 != key@ by {
                        lemma_str_lt_irrefl(key@);
                    }
                }
                Ok(None)
            },
        }
    }

    /// The value, metadata and expiration under `key` now, unless absent
    /// or expired: what comes back is the record under the key.
    pub fn get_with_metadata(&self, key: &str) -> (r: Result<Option<KVEntry>, KVError>)
        ensures
            r matches Ok(v) && (v matches Some(e) ==> kv_lookup(self@, key@) matches Some(rec)
                && e.value@ == rec.0 && e.metadata == rec.1 && e.expiration == rec.2),
            r matches Ok(v) && (v is None ==> may_expire(kv_lookup(self@, key@))),
    {
        let now = now_secs();
        self.get_with_metadata_at(key, now)
    }

    /// One page of the keys at Unix time `now`: after the cursor, unexpired,
    /// with the prefix, in key order, at most the limit; the cursor of an
    /// incomplete page is its last key.
    pub fn list_at(&self, options: ListOptions, now: u64) -> (r: Result<ListResult, KVError>)
        ensures
            r matches Ok(res) && list_page(self@, options, now, res),
    {
        proof {
            use_type_invariant(self);
        }
        let ghost es = self@;
        let ghost prefix = opt_view(options.prefix);
        let limit: usize = match options.limit {
            Some(l) => l,
            None => 1000,
        };
        let n = self.data.len();
        let start: usize = match &options.cursor {
            None => 0,
            Some(c) => match self.search(c.as_str()) {
                Ok(i) => {
                    proof {
                        lemma_sorted_index(es, i as int);
                    }
                    i + 1
                },
                Err(_) => {
                    proof {
                        assert(!(exists|j: int| 0 <= j < es.len() && es[j].0 == c@)) by {
                            if exists|j: int| 0 <= j < es.len() && es[j].0 == c@ {
                                let j = choose|j: int| 0 <= j < es.len() && es[j].0 == c@;
                                lemma_str_lt_irrefl(c@);
                            }
                        }
                    }
                    n
                },
            },
        };
        let ghost rest = after_cursor(es, opt_view(options.cursor));
        proof {
            assert(es.subrange(start as int, n as int) =~= rest);
        }
        let mut keys: Vec<ListKey> = Vec::new();
        let mut i: usize = start;
        proof {
            assert(es.subrange(start as int, start as int) =~= Seq::<(Seq<char>, Record)>::empty());
        }
        while i < n
            invariant
                start <= i <= n == self.data@.len() == es.len(),
                es == self@,
                rest == es.subrange(start as int, n as int),
                rest == after_cursor(es, opt_view(options.cursor)),
                prefix == opt_view(options.prefix),
                limit == page_limit(options),
                keys@.len() <= limit,
                page_of(keys@, matching(es.subrange(start as int, i as int), now, prefix), keys@.len() as int),
                matching(es.subrange(start as int, i as int), now, prefix).len() == keys@.len(),
            decreases n - i,
        {
            let name = &self.data[i].0;
            let e = &self.data[i].1;
            let ghost cur = matching(es.subrange(start as int, i as int), now, prefix);
            proof {
                assert(es[i as int] == (name@, record_of(*e)));
                assert(es.subrange(start as int, i + 1).drop_last() =~= es.subrange(start as int, i as int));
                assert(es.subrange(start as int, i + 1).last() == es[i as int]);
            }
            let live = match e.expiration {
                Some(x) => now < x,
                None => true,
            };
            let fits = match &options.prefix {
                Some(p) => str_starts_with(name.as_str(), p.as_str()),
                None => true,
            };
            if live && fits {
                if keys.len() >= limit {
                    proof {
                        let next = matching(es.subrange(start as int, i + 1), now, prefix);
                        assert(next == cur.push(es[i as int]));
                        assert(es.subrange(start as int, i + 1) + es.subrange(i + 1, n as int) =~= rest);
                        lemma_matching_concat(es.subrange(start as int, i + 1), es.subrange(i + 1, n as int), now, prefix);
                        let m = matching(rest, now, prefix);
                        assert(m == next + matching(es.subrange(i + 1, n as int), now, prefix));
                        assert(next.len() == limit + 1);
                        assert(m.len() > limit);
                        assert forall|k: int| 0 <= k < limit implies key_shows(#[trigger] keys@[k], m[k]) by {
                            assert(m[k] == next[k]);
                            assert(next[k] == cur[k]);
                        }
                    }
                    let cursor = if keys.len() > 0 {
                        let last = keys.len() - 1;
                        Some(owned(keys[last].name.as_str()))
                    } else {
                        None
                    };
                    proof {
                        let m = matching(rest, now, prefix);
                        if keys@.len() > 0 {
                            assert(key_shows(keys@[limit - 1], m[limit - 1]));
                        }
                        assert(page_of(keys@, m, limit as int));
                    }
                    return Ok(ListResult { keys, list_complete: false, cursor });
                }
                keys.push(ListKey { name: owned(name.as_str()), expiration: e.expiration, metadata: metadata_copy(&e.metadata) });
                proof {
                    let next = matching(es.subrange(start as int, i + 1), now, prefix);
                    assert(next == cur.push(es[i as int]));
                    assert forall|k: int| 0 <= k < keys@.len() implies key_shows(#[trigger] keys@[k], next[k]) by {
                        if k < keys@.len() - 1 {
                            assert(next[k] == cur[k]);
                        }
                    }
                }
            } else {
                proof {
                    assert(!listable(es[i as int], now, prefix));
                }
            }
            i = i + 1;
        }
        Ok(ListResult { keys, list_complete: true, cursor: None })
    }

    /// One page of the keys now: as `list_at` for the current time.
    pub fn list(&self, options: ListOptions) -> (r: Result<ListResult, KVError>)
        ensures
            r matches Ok(res) && exists|now: u64| #[trigger] list_page(self@, options, now, res),
    {
        let now = now_secs();
        let ghost o = options;
        let r = self.list_at(options, now);
        r
    }
}


/// A value put with no expiration, or one still ahead, is read back.
pub proof fn lemma_get_after_put(before: Seq<(Seq<char>, Record)>, after: Seq<(Seq<char>, Record)>, k: Seq<char>, rec: Record, now: u64)
    requires
        put_result(before, after, k, rec),
        !expired(rec, now),
    ensures
        live_record(after, k, now) == Some(rec),
{
}

/// Putting under one key leaves what every other key reads.
pub proof fn lemma_put_keeps_others(before: Seq<(Seq<char>, Record)>, after: Seq<(Seq<char>, Record)>, k: Seq<char>, rec: Record, k2: Seq<char>, now: u64)
    requires
        put_result(before, after, k, rec),
        k2 != k,
    ensures
        live_record(after, k2, now) == live_record(before, k2, now),
{
    assert(kv_lookup(after, k2) == kv_lookup(before, k2));
}

/// A deleted key reads as absent.
pub proof fn lemma_get_after_delete(before: Seq<(Seq<char>, Record)>, after: Seq<(Seq<char>, Record)>, k: Seq<char>, now: u64)
    requires
        delete_result(before, after, k),
    ensures
        live_record(after, k, now) is None,
{
}

/// Each listed entry is shown by the listing and is an entry of the list.
proof fn lemma_matching_members(s: Seq<(Seq<char>, Record)>, now: u64, prefix: Option<Seq<char>>)
    ensures
        forall|q: int| 0 <= q < matching(s, now, prefix).len() ==> listable(#[trigger] matching(s, now, prefix)[q], now, prefix)
            && s.contains(matching(s, now, prefix)[q]),
        kv_sorted(s) ==> kv_sorted(matching(s, now, prefix)),
    decreases s.len(),
{
    if s.len() > 0 {
        let d = s.drop_last();
        lemma_matching_members(d, now, prefix);
        let m0 = matching(d, now, prefix);
        let m = matching(s, now, prefix);
        assert forall|q: int| 0 <= q < m.len() implies listable(#[trigger] m[q], now, prefix) && s.contains(m[q]) by {
            if q < m0.len() {
                assert(m[q] == m0[q]);
                let j = choose|j: int| 0 <= j < d.len() && d[j] == m0[q];
                assert(s[j] == d[j]);
            } else {
                assert(m[q] == s.last());
                assert(s[s.len() - 1] == s.last());
            }
        }
        if kv_sorted(s) {
            assert(kv_sorted(d)) by {
                assert forall|i: int, j: int| 0 <= i < j < d.len() implies str_lt(#[trigger] d[i].0, #[trigger] d[j].0) by {
                    assert(d[i] == s[i] && d[j] == s[j]);
                }
            }
            assert forall|i: int, j: int| 0 <= i < j < m.len() implies str_lt(#[trigger] m[i].0, #[trigger] m[j].0) by {
                if j < m0.len() {
                    assert(m[i] == m0[i] && m[j] == m0[j]);
                } else {
                    assert(m[i] == m0[i]);
                    let a = choose|a: int| 0 <= a < d.len() && d[a] == m0[i];
                    assert(s[a] == d[a]);
                    assert(m[j] == s[s.len() - 1]);
                }
            }
        }
    }
}

/// A listing shows entries in strictly increasing key order, none expired,
/// each with the prefix.
pub proof fn lemma_listing_ordered(es: Seq<(Seq<char>, Record)>, cursor: Option<Seq<char>>, now: u64, prefix: Option<Seq<char>>)
    requires
        kv_sorted(es),
    ensures
        kv_sorted(matching(after_cursor(es, cursor), now, prefix)),
        forall|q: int| 0 <= q < matching(after_cursor(es, cursor), now, prefix).len() ==> {
            let e = #[trigger] matching(after_cursor(es, cursor), now, prefix)[q];
            !expired(e.1, now) && (prefix matches Some(p) ==> starts_with(e.0, p))
        },
{
    let a = after_cursor(es, cursor);
    assert(kv_sorted(a)) by {
        match cursor {
            None => {},
            Some(c) => match kv_index(es, c) {
                Some(i) => {
                    assert forall|x: int, y: int| 0 <= x < y < a.len() implies str_lt(#[trigger] a[x].0, #[trigger] a[y].0) by {
                        assert(a[x] == es[x + i + 1] && a[y] == es[y + i + 1]);
                    }
                },
                None => {},
            },
        }
    }
    lemma_matching_members(a, now, prefix);
}

/// Listing again from the cursor of an incomplete page shows the entries
/// that the page left out, in order: pages put together are the whole
/// listing.
pub proof fn lemma_next_page(es: Seq<(Seq<char>, Record)>, cursor: Option<Seq<char>>, now: u64, prefix: Option<Seq<char>>, l: int)
    requires
        kv_sorted(es),
        0 < l < matching(after_cursor(es, cursor), now, prefix).len(),
    ensures
        matching(after_cursor(es, Some(matching(after_cursor(es, cursor), now, prefix)[l - 1].0)), now, prefix)
            == matching(after_cursor(es, cursor), now, prefix).skip(l),
{
    let a = after_cursor(es, cursor);
    let m = matching(a, now, prefix);
    let t: int = match cursor {
        None => 0,
        Some(c) => match kv_index(es, c) {
            Some(i) => i + 1,
            None => es.len() as int,
        },
    };
    assert(a =~= es.skip(t)) by {
        match cursor {
            None => {},
            Some(c) => match kv_index(es, c) {
                Some(i) => {},
                None => {},
            },
        }
    }
    lemma_matching_members(a, now, prefix);
    let x = m[l - 1];
    assert(a.contains(x));
    let ja = choose|ja: int| 0 <= ja < a.len() && a[ja] == x;
    let j = ja + t;
    assert(es[j] == x);
    lemma_sorted_index(es, j);
    assert(after_cursor(es, Some(x.0)) =~= es.skip(j + 1));
    let p1 = es.subrange(t, j + 1);
    let q1 = es.skip(j + 1);
    assert(p1 + q1 =~= a);
    lemma_matching_concat(p1, q1, now, prefix);
    let pm = matching(p1, now, prefix);
    let qm = matching(q1, now, prefix);
    assert(p1.drop_last() =~= es.subrange(t, j));
    assert(p1.last() == x);
    assert(listable(x, now, prefix));
    assert(pm.len() >= 1 && pm[pm.len() - 1] == x);
    assert(m == pm + qm);
    assert(m[pm.len() - 1] == x);
    assert(kv_sorted(es.skip(t))) by {
        assert forall|u: int, v: int| 0 <= u < v < es.skip(t).len() implies str_lt(#[trigger] es.skip(t)[u].0, #[trigger] es.skip(t)[v].0) by {
            assert(es.skip(t)[u] == es[u + t] && es.skip(t)[v] == es[v + t]);
        }
    }
    assert(kv_sorted(m));
    if pm.len() - 1 != l - 1 {
        if pm.len() - 1 < l - 1 {
            assert(str_lt(m[pm.len() - 1].0, m[l - 1].0));
        } else {
            assert(str_lt(m[l - 1].0, m[pm.len() - 1].0));
        }
        lemma_str_lt_irrefl(x.0);
    }
    assert(m.skip(l) =~= qm);
}

/// How a read hands a stored value back.
#[derive(Debug, Clone, Copy, PartialEq, Eq)]
pub enum ValueKind {
    /// Parsed as JSON (`"json"`).
    Json,
    /// As text, invalid UTF-8 replaced (`"text"`, or no hint).
    Text,
    /// As the raw bytes (`"arrayBuffer"`).
    Bytes,
}

/// The kind a type hint asks for: none for an unknown hint.
pub open spec fn hint_kind(hint: Option<Seq<char>>) -> Option<ValueKind> {
    match hint {
        None => Some(ValueKind::Text),
        Some(h) => if h == "json"@ {
            Some(ValueKind::Json)
        } else if h == "text"@ {
            Some(ValueKind::Text)
        } else if h == "arrayBuffer"@ {
            Some(ValueKind::Bytes)
        } else {
            None
        },
    }
}

/// The kind a read's type hint asks for: `json`, `text` (also without a
/// hint) or `arrayBuffer`; `None` for any other hint.
pub fn value_kind(hint: Option<&str>) -> (r: Option<ValueKind>)
    ensures
        r == hint_kind(match hint {
            Some(h) => Some(h@),
            None => None,
        }),
{
    match hint {
        None => Some(ValueKind::Text),
        Some(h) => {
            proof {
                reveal_strlit("json");
                reveal_strlit("text");
                reveal_strlit("arrayBuffer");
            }
            if crate::ast::str_eq(h, "json") {
                Some(ValueKind::Json)
            } else if crate::ast::str_eq(h, "text") {
                Some(ValueKind::Text)
            } else if crate::ast::str_eq(h, "arrayBuffer") {
                Some(ValueKind::Bytes)
            } else {
                None
            }
        },
    }
}

} // verus!
