//! The typed key-value store.
//!
//! One entry per key: a typed value plus an optional absolute expiration
//! in milliseconds.  An entry whose expiration has passed is logically
//! absent: reads evict it lazily, and a periodic sweep
//! ([`Db::cleanup_expired`]) evicts the rest.  The store also carries the
//! pub/sub registry and the append-only log buffer, so every mutation that
//! is durable-worthy is recorded in one place.
//!
//! The store never touches the clock: every time-dependent operation takes
//! `now`, the current wall-clock time in milliseconds.

use vstd::prelude::*;

verus! {

use crate::aof::{AofWriter, propagate_aof, record_if};
use crate::frame::dec_chars;

broadcast use vstd::std_specs::vec::group_vec_axioms, vstd::seq::group_seq_axioms;

/// A stored value: one of the closed set of types a key can hold.
#[derive(Debug)]
pub enum DbType {
    /// A plain text value.
    String(String),
    /// A field-to-value table; field order is the order fields were first
    /// set, and a field occurs at most once when built through the store.
    Hash(Vec<(String, String)>),
    /// A double-ended list of text values.
    List(Vec<String>),
}

/// The mathematical shape of a stored value.
pub enum ValueV {
    String(Seq<char>),
    Hash(Seq<(Seq<char>, Seq<char>)>),
    List(Seq<Seq<char>>),
}

impl View for DbType {
    type V = ValueV;

    open spec fn view(&self) -> ValueV {
        match self {
            DbType::String(s) => ValueV::String(s@),
            DbType::Hash(pairs) => ValueV::Hash(
                Seq::new(pairs@.len(), |i: int| (pairs@[i].0@, pairs@[i].1@)),
            ),
            DbType::List(items) => ValueV::List(Seq::new(items@.len(), |i: int| items@[i]@)),
        }
    }
}

/// A stored key's value plus its optional absolute expiration, in
/// milliseconds of wall-clock time.
#[derive(Debug)]
pub struct DbEntry {
    pub value: DbType,
    pub expiration: Option<u64>,
}

/// The mathematical shape of an entry.
pub struct EntryV {
    pub value: ValueV,
    pub expiration: Option<u64>,
}

impl View for DbEntry {
    type V = EntryV;

    open spec fn view(&self) -> EntryV {
        EntryV { value: self.value@, expiration: self.expiration }
    }
}

/// Whether an entry is logically present at time `now`.
pub open spec fn entry_live(e: EntryV, now: u64) -> bool {
    match e.expiration {
        Option::None => true,
        Option::Some(t) => now < t,
    }
}

/// The first entry bound to `k`, scanning in storage order.
pub open spec fn assoc_get<V>(s: Seq<(Seq<char>, V)>, k: Seq<char>) -> Option<V>
    decreases s.len(),
{
    if s.len() == 0 {
        Option::None
    } else if s[0].0 == k {
        Option::Some(s[0].1)
    } else {
        assoc_get(s.skip(1), k)
    }
}

/// Each key occurs at most once.
pub open spec fn keys_unique<V>(s: Seq<(Seq<char>, V)>) -> bool {
    forall|i: int, j: int| 0 <= i < j < s.len() ==> (#[trigger] s[i]).0 != (#[trigger] s[j]).0
}

/// A stretch with no hit leaves the scan where it was.
pub proof fn lemma_assoc_skip<V>(s: Seq<(Seq<char>, V)>, k: Seq<char>, i: int)
    requires
        0 <= i <= s.len(),
        forall|j: int| 0 <= j < i ==> (#[trigger] s[j]).0 != k,
    ensures
        assoc_get(s, k) == assoc_get(s.skip(i), k),
    decreases i,
{
    if i == 0 {
        assert(s.skip(0) =~= s);
    } else {
        lemma_assoc_skip(s, k, i - 1);
        let t = s.skip(i - 1);
        assert(t.len() > 0);
        assert(t[0] == s[i - 1]);
        assert(t[0].0 != k);
        assert(assoc_get(t, k) == assoc_get(t.skip(1), k));
        assert(t.skip(1) =~= s.skip(i));
    }
}

/// Replacing the entry at the first occurrence of a key rebinds that key
/// and no other.
pub proof fn lemma_assoc_update<V>(s: Seq<(Seq<char>, V)>, i: int, e: V)
    requires
        0 <= i < s.len(),
        forall|j: int| 0 <= j < i ==> (#[trigger] s[j]).0 != s[i].0,
    ensures
        assoc_get(s.update(i, (s[i].0, e)), s[i].0) == Option::Some(e),
        forall|k2: Seq<char>|
            k2 != s[i].0 ==> assoc_get(s.update(i, (s[i].0, e)), k2) == assoc_get(s, k2),
    decreases i,
{
    let s2 = s.update(i, (s[i].0, e));
    if i == 0 {
        assert(s2[0].0 == s[0].0);
        assert(assoc_get(s2, s[0].0) == Option::Some(s2[0].1));
        assert forall|k2: Seq<char>| k2 != s[0].0 implies assoc_get(s2, k2) == assoc_get(
            s,
            k2,
        ) by {
            assert(assoc_get(s2, k2) == assoc_get(s2.skip(1), k2));
            assert(s2.skip(1) =~= s.skip(1));
            assert(assoc_get(s, k2) == assoc_get(s.skip(1), k2));
        }
    } else {
        assert(s.skip(1)[i - 1] == s[i]);
        lemma_assoc_update(s.skip(1), i - 1, e);
        assert(s.skip(1).update(i - 1, (s.skip(1)[i - 1].0, e)) =~= s2.skip(1));
        assert(s2[0] == s[0]);
        assert(s[0].0 != s[i].0);
        assert(assoc_get(s2, s[i].0) == assoc_get(s2.skip(1), s[i].0));
        assert(assoc_get(s, s[i].0) == assoc_get(s.skip(1), s[i].0));
        assert forall|k2: Seq<char>| k2 != s[i].0 implies assoc_get(s2, k2) == assoc_get(
            s,
            k2,
        ) by {
            if s[0].0 == k2 {
                assert(assoc_get(s2, k2) == Option::Some(s2[0].1));
                assert(assoc_get(s, k2) == Option::Some(s[0].1));
            } else {
                assert(assoc_get(s2, k2) == assoc_get(s2.skip(1), k2));
                assert(assoc_get(s, k2) == assoc_get(s.skip(1), k2));
            }
        }
    }
}

/// Appending a binding for a fresh key binds that key and no other.
pub proof fn lemma_assoc_push<V>(s: Seq<(Seq<char>, V)>, k: Seq<char>, e: V)
    requires
        forall|j: int| 0 <= j < s.len() ==> (#[trigger] s[j]).0 != k,
    ensures
        assoc_get(s.push((k, e)), k) == Option::Some(e),
        forall|k2: Seq<char>| k2 != k ==> assoc_get(s.push((k, e)), k2) == assoc_get(s, k2),
    decreases s.len(),
{
    let s2 = s.push((k, e));
    if s.len() == 0 {
        assert(s2[0].0 == k);
        assert(assoc_get(s2, k) == Option::Some(e));
        assert forall|k2: Seq<char>| k2 != k implies assoc_get(s2, k2) == assoc_get(s, k2) by {
            assert(assoc_get(s2, k2) == assoc_get(s2.skip(1), k2));
            assert(s2.skip(1) =~= Seq::<(Seq<char>, V)>::empty());
        }
    } else {
        lemma_assoc_push(s.skip(1), k, e);
        assert(s.skip(1).push((k, e)) =~= s2.skip(1));
        assert(s2[0] == s[0]);
        assert(s2[0].0 != k);
        assert(assoc_get(s2, k) == assoc_get(s2.skip(1), k));
        assert forall|k2: Seq<char>| k2 != k implies assoc_get(s2, k2) == assoc_get(s, k2) by {
            if s[0].0 == k2 {
                assert(assoc_get(s2, k2) == Option::Some(s2[0].1));
                assert(assoc_get(s, k2) == Option::Some(s[0].1));
            } else {
                assert(assoc_get(s2, k2) == assoc_get(s2.skip(1), k2));
                assert(assoc_get(s, k2) == assoc_get(s.skip(1), k2));
            }
        }
    }
}

/// Removing the only occurrence of a key unbinds that key and no other.
pub proof fn lemma_assoc_remove<V>(s: Seq<(Seq<char>, V)>, i: int)
    requires
        keys_unique(s),
        0 <= i < s.len(),
    ensures
        assoc_get(s.remove(i), s[i].0) is None,
        forall|k2: Seq<char>| k2 != s[i].0 ==> assoc_get(s.remove(i), k2) == assoc_get(s, k2),
    decreases i,
{
    let s2 = s.remove(i);
    if i == 0 {
        assert(s2 =~= s.skip(1));
        assert forall|j: int| 0 <= j < s.skip(1).len() implies (#[trigger] s.skip(1)[j]).0
            != s[0].0 by {
            assert(s.skip(1)[j] == s[j + 1]);
        }
        lemma_assoc_none(s.skip(1), s[0].0);
        assert forall|k2: Seq<char>| k2 != s[0].0 implies assoc_get(s2, k2) == assoc_get(
            s,
            k2,
        ) by {
            assert(assoc_get(s, k2) == assoc_get(s.skip(1), k2));
        }
    } else {
        assert forall|p: int, q: int| 0 <= p < q < s.skip(1).len() implies (#[trigger] s.skip(
            1,
        )[p]).0 != (#[trigger] s.skip(1)[q]).0 by {
            assert(s.skip(1)[p] == s[p + 1]);
            assert(s.skip(1)[q] == s[q + 1]);
        }
        assert(s.skip(1)[i - 1] == s[i]);
        lemma_assoc_remove(s.skip(1), i - 1);
        assert(s.skip(1).remove(i - 1) =~= s2.skip(1));
        assert(s2[0] == s[0]);
        assert(s[0].0 != s[i].0);
        assert(assoc_get(s2, s[i].0) == assoc_get(s2.skip(1), s[i].0));
        assert(assoc_get(s, s[i].0) == assoc_get(s.skip(1), s[i].0));
        assert forall|k2: Seq<char>| k2 != s[i].0 implies assoc_get(s2, k2) == assoc_get(
            s,
            k2,
        ) by {
            if s[0].0 == k2 {
                assert(assoc_get(s2, k2) == Option::Some(s2[0].1));
                assert(assoc_get(s, k2) == Option::Some(s[0].1));
            } else {
                assert(assoc_get(s2, k2) == assoc_get(s2.skip(1), k2));
                assert(assoc_get(s, k2) == assoc_get(s.skip(1), k2));
            }
        }
    }
}

/// Removing a binding keeps the keys unique.
pub proof fn lemma_keys_unique_remove<V>(s: Seq<(Seq<char>, V)>, i: int)
    requires
        keys_unique(s),
        0 <= i < s.len(),
    ensures
        keys_unique(s.remove(i)),
{
    let s2 = s.remove(i);
    assert forall|p: int, q: int| 0 <= p < q < s2.len() implies (#[trigger] s2[p]).0 != (
    #[trigger] s2[q]).0 by {
        let p0: int = if p < i {
            p
        } else {
            p + 1
        };
        let q0: int = if q < i {
            q
        } else {
            q + 1
        };
        assert(s2[p] == s[p0]);
        assert(s2[q] == s[q0]);
    }
}

/// A key bound nowhere scans to nothing.
pub proof fn lemma_assoc_none<V>(s: Seq<(Seq<char>, V)>, k: Seq<char>)
    requires
        forall|j: int| 0 <= j < s.len() ==> (#[trigger] s[j]).0 != k,
    ensures
        assoc_get(s, k) is None,
    decreases s.len(),
{
    if s.len() > 0 {
        lemma_assoc_none(s.skip(1), k);
    }
}

/// The absolute expiration a request computes: `now` plus the offset,
/// saturating at the far end of time.
pub open spec fn abs_expiration(now: u64, expiration_ms: Option<u64>) -> Option<u64> {
    match expiration_ms {
        Option::None => Option::None,
        Option::Some(ms) => if now + ms <= u64::MAX {
            Option::Some((now + ms) as u64)
        } else {
            Option::Some(u64::MAX)
        },
    }
}

/// The log record a `set` emits: string values are logged with their key,
/// text and, when present, absolute expiration; collection values reach
/// the log through the store's typed operations instead.
pub open spec fn set_record(enabled: bool, k: Seq<char>, v: ValueV, exp: Option<u64>) -> Seq<u8> {
    match v {
        ValueV::String(sv) => match exp {
            Option::None => record_if(enabled, "set"@, seq![k, sv]),
            Option::Some(t) => record_if(enabled, "set"@, seq![k, sv, dec_chars(t as nat)]),
        },
        _ => Seq::<u8>::empty(),
    }
}

/// The authoritative store: the typed entries, the pub/sub registry, and
/// the append-only log buffer.
#[derive(Debug)]
pub struct Db {
    storage: Vec<(String, DbEntry)>,
    pub_sub: Vec<String>,
    psubscribes: Vec<String>,
    aof: AofWriter,
}

impl Db {
    /// The stored bindings, in insertion order.
    pub closed spec fn entries(&self) -> Seq<(Seq<char>, EntryV)> {
        Seq::new(self.storage@.len(), |i: int| (self.storage@[i].0@, self.storage@[i].1@))
    }

    /// The entry bound to `k`, live or not.
    pub open spec fn spec_get(&self, k: Seq<char>) -> Option<EntryV> {
        assoc_get(self.entries(), k)
    }

    /// The stored bindings as a map from key to entry.
    pub open spec fn spec_map(&self) -> Map<Seq<char>, EntryV> {
        Map::new(|k: Seq<char>| self.spec_get(k) is Some, |k: Seq<char>| self.spec_get(k)->Some_0)
    }

    /// The entry bound to `k` if it is logically present at `now`.
    pub open spec fn spec_live_get(&self, k: Seq<char>, now: u64) -> Option<EntryV> {
        match self.spec_get(k) {
            Option::Some(e) => if entry_live(e, now) {
                Option::Some(e)
            } else {
                Option::None
            },
            Option::None => Option::None,
        }
    }

    /// The exact-match channels with at least one subscription, in the
    /// order they were first subscribed to.
    pub closed spec fn channels(&self) -> Seq<Seq<char>> {
        Seq::new(self.pub_sub@.len(), |i: int| self.pub_sub@[i]@)
    }

    /// The prefix patterns with at least one subscription, wildcard
    /// already stripped, in the order they were first subscribed to.
    pub closed spec fn patterns(&self) -> Seq<Seq<char>> {
        Seq::new(self.psubscribes@.len(), |i: int| self.psubscribes@[i]@)
    }

    /// The encoded log records not yet drained.
    pub closed spec fn wal_pending(&self) -> Seq<u8> {
        self.aof.pending()
    }

    /// Whether mutations are being logged.
    pub closed spec fn wal_enabled(&self) -> bool {
        self.aof.is_enabled()
    }

    /// The store's structural invariant: no key, channel or pattern
    /// twice.  `new` establishes it and every operation preserves it.
    pub closed spec fn wf(&self) -> bool {
        &&& keys_unique(self.entries())
        &&& (forall|i: int, j: int|
            0 <= i < j < self.channels().len() ==> self.channels()[i] != self.channels()[j])
        &&& (forall|i: int, j: int|
            0 <= i < j < self.patterns().len() ==> self.patterns()[i] != self.patterns()[j])
    }

    /// An empty store; `wal_enabled` comes from configuration and decides
    /// whether mutations are recorded in the log buffer.
    pub fn new(wal_enabled: bool) -> (r: Db)
        ensures
            r.wf(),
            r.entries() == Seq::<(Seq<char>, EntryV)>::empty(),
            r.channels() == Seq::<Seq<char>>::empty(),
            r.patterns() == Seq::<Seq<char>>::empty(),
            r.wal_pending() == Seq::<u8>::empty(),
            r.wal_enabled() == wal_enabled,
            forall|k: Seq<char>| r.spec_get(k) is None,
    {
        let db = Db {
            storage: Vec::new(),
            pub_sub: Vec::new(),
            psubscribes: Vec::new(),
            aof: AofWriter::new(wal_enabled),
        };
        proof {
            assert(db.entries() =~= Seq::<(Seq<char>, EntryV)>::empty());
            assert(db.channels() =~= Seq::<Seq<char>>::empty());
            assert(db.patterns() =~= Seq::<Seq<char>>::empty());
        }
        db
    }

    /// The position of `key` in storage, with everything the scan rules
    /// out on the way.
    fn find_key(&self, key: &String) -> (r: Option<usize>)
        ensures
            match r {
                Option::Some(i) => i < self.entries().len() && self.entries()[i as int].0 == key@
                    && (forall|j: int| 0 <= j < i ==> (#[trigger] self.entries()[j]).0 != key@)
                    && self.spec_get(key@) == Option::Some(self.entries()[i as int].1),
                Option::None => self.spec_get(key@) is None && forall|j: int|
                    0 <= j < self.entries().len() ==> (#[trigger] self.entries()[j]).0 != key@,
            },
    {
        let n = self.storage.len();
        let mut i: usize = 0;
        while i < n
            invariant
                0 <= i <= n,
                n == self.entries().len(),
                forall|j: int| 0 <= j < i ==> (#[trigger] self.entries()[j]).0 != key@,
            decreases n - i,
        {
            let e = &self.storage[i];
            if e.0 == *key {
                proof {
                    assert(self.entries()[i as int].0 == key@);
                    lemma_assoc_skip(self.entries(), key@, i as int);
                    assert(self.entries().skip(i as int)[0] == self.entries()[i as int]);
                }
                return Some(i);
            }
            proof {
                assert(self.entries()[i as int].0 == self.storage@[i as int].0@);
            }
            i = i + 1;
        }
        proof {
            lemma_assoc_none(self.entries(), key@);
        }
        None
    }

    /// The absolute expiration for an offset given now, saturating instead
    /// of wrapping past the end of time.
    fn calculate_expiration(&self, expiration_ms: Option<u64>, now: u64) -> (r: Option<u64>)
        ensures
            r == abs_expiration(now, expiration_ms),
    {
        match expiration_ms {
            Option::None => None,
            Option::Some(ms) => match now.checked_add(ms) {
                Option::Some(t) => Some(t),
                Option::None => Some(u64::MAX),
            },
        }
    }

    /// Stores `value` under `key` with an optional expiration offset in
    /// milliseconds, replacing any prior entry whatever its type.  A
    /// string value is also recorded in the log (with its absolute
    /// expiration when one was given); collection values become durable
    /// through the typed operations that build them.
    pub fn set(&mut self, key: &String, value: DbType, expiration_ms: Option<u64>, now: u64)
        requires
            old(self).wf(),
        ensures
            final(self).wf(),
            final(self).spec_get(key@) == Option::Some(
                EntryV { value: value@, expiration: abs_expiration(now, expiration_ms) },
            ),
            forall|k2: Seq<char>| k2 != key@ ==> final(self).spec_get(k2) == old(self).spec_get(k2),
            final(self).channels() == old(self).channels(),
            final(self).patterns() == old(self).patterns(),
            final(self).wal_enabled() == old(self).wal_enabled(),
            final(self).wal_pending() == old(self).wal_pending() + set_record(
                old(self).wal_enabled(),
                key@,
                value@,
                abs_expiration(now, expiration_ms),
            ),
    {
        let exp = self.calculate_expiration(expiration_ms, now);
        let ghost pre = self.entries();
        let ghost pre_ch = self.channels();
        let ghost pre_pat = self.patterns();
        match &value {
            DbType::String(sv) => {
                let mut args: Vec<String> = Vec::new();
                args.push(key.clone());
                args.push(sv.clone());
                match exp {
                    Option::Some(t) => {
                        args.push(crate::frame::u64_to_string(t));
                        proof {
                            assert(args.deep_view() =~= seq![key@, sv@, dec_chars(t as nat)]);
                        }
                    }
                    Option::None => {
                        proof {
                            assert(args.deep_view() =~= seq![key@, sv@]);
                        }
                    }
                }
                let cmd: String = String::from_str("set");
                propagate_aof(&mut self.aof, &cmd, &args);
                proof {
                    assert(self.entries() =~= pre);
                    assert(self.channels() =~= pre_ch);
                    assert(self.patterns() =~= pre_pat);
                }
            }
            _ => {
                proof {
                    assert(old(self).wal_pending() + set_record(
                        old(self).wal_enabled(),
                        key@,
                        value@,
                        abs_expiration(now, expiration_ms),
                    ) =~= old(self).wal_pending());
                }
            }
        }
        self.store_entry(key, value, exp);
    }

    /// Stores `value` under `key` without recording anything in the log;
    /// replay and snapshot load use this so that rebuilding a store never
    /// writes to the log it is reading.
    pub fn set_without_aof(&mut self, key: &String, value: DbType, expiration_ms: Option<u64>, now: u64)
        requires
            old(self).wf(),
        ensures
            final(self).wf(),
            final(self).spec_get(key@) == Option::Some(
                EntryV { value: value@, expiration: abs_expiration(now, expiration_ms) },
            ),
            forall|k2: Seq<char>| k2 != key@ ==> final(self).spec_get(k2) == old(self).spec_get(k2),
            final(self).channels() == old(self).channels(),
            final(self).patterns() == old(self).patterns(),
            final(self).wal_enabled() == old(self).wal_enabled(),
            final(self).wal_pending() == old(self).wal_pending(),
    {
        let exp = self.calculate_expiration(expiration_ms, now);
        self.store_entry(key, value, exp);
    }

    /// Stores `value` under `key` with the expiration already absolute,
    /// recording nothing in the log.
    pub fn set_absolute(&mut self, key: &String, value: DbType, expire_at: Option<u64>)
        requires
            old(self).wf(),
        ensures
            final(self).wf(),
            final(self).spec_get(key@) == Option::Some(
                EntryV { value: value@, expiration: expire_at },
            ),
            forall|k2: Seq<char>| k2 != key@ ==> final(self).spec_get(k2) == old(self).spec_get(k2),
            final(self).channels() == old(self).channels(),
            final(self).patterns() == old(self).patterns(),
            final(self).wal_enabled() == old(self).wal_enabled(),
            final(self).wal_pending() == old(self).wal_pending(),
    {
        self.store_entry(key, value, expire_at);
    }

    /// Binds `key` to the entry, replacing the first occurrence in place
    /// or appending a fresh binding.
    fn store_entry(&mut self, key: &String, value: DbType, expire_at: Option<u64>)
        requires
            old(self).wf(),
        ensures
            final(self).wf(),
            final(self).spec_get(key@) == Option::Some(
                EntryV { value: value@, expiration: expire_at },
            ),
            forall|k2: Seq<char>| k2 != key@ ==> final(self).spec_get(k2) == old(self).spec_get(k2),
            final(self).channels() == old(self).channels(),
            final(self).patterns() == old(self).patterns(),
            final(self).wal_enabled() == old(self).wal_enabled(),
            final(self).wal_pending() == old(self).wal_pending(),
    {
        let entry = DbEntry { value, expiration: expire_at };
        let ghost pre = self.entries();
        let ghost pre_ch = self.channels();
        let ghost pre_pat = self.patterns();
        match self.find_key(key) {
            Option::Some(i) => {
                self.storage[i] = (key.clone(), entry);
                proof {
                    let cur = self.entries();
                    assert(cur =~= pre.update(i as int, (pre[i as int].0, cur[i as int].1)));
                    lemma_assoc_update(pre, i as int, cur[i as int].1);
                    assert forall|p: int, q: int| 0 <= p < q < cur.len() implies (
                    #[trigger] cur[p]).0 != (#[trigger] cur[q]).0 by {
                        assert(cur[p].0 == pre[p].0);
                        assert(cur[q].0 == pre[q].0);
                    }
                }
            }
            Option::None => {
                self.storage.push((key.clone(), entry));
                proof {
                    let cur = self.entries();
                    assert(cur =~= pre.push((key@, cur.last().1)));
                    lemma_assoc_push(pre, key@, cur.last().1);
                    assert forall|p: int, q: int| 0 <= p < q < cur.len() implies (
                    #[trigger] cur[p]).0 != (#[trigger] cur[q]).0 by {
                        assert(cur[p].0 == pre[p].0);
                        if q < pre.len() {
                            assert(cur[q].0 == pre[q].0);
                        } else {
                            assert(cur[q].0 == key@);
                        }
                    }
                }
            }
        }
        proof {
            assert(self.channels() =~= pre_ch);
            assert(self.patterns() =~= pre_pat);
        }
    }

    /// The value under `key` if it is logically present at `now`.  An
    /// entry found dead is evicted on the spot, so a read after its
    /// expiration behaves exactly as if the key were never set.
    pub fn get(&mut self, key: &String, now: u64) -> (r: Option<&DbType>)
        requires
            old(self).wf(),
        ensures
            final(self).wf(),
            forall|k2: Seq<char>| k2 != key@ ==> final(self).spec_get(k2) == old(self).spec_get(k2),
            final(self).channels() == old(self).channels(),
            final(self).patterns() == old(self).patterns(),
            final(self).wal_enabled() == old(self).wal_enabled(),
            final(self).wal_pending() == old(self).wal_pending(),
            match old(self).spec_live_get(key@, now) {
                Option::Some(e) => r matches Some(v) && v@ == e.value && final(self).spec_get(key@)
                    == old(self).spec_get(key@),
                Option::None => r is None && final(self).spec_get(key@) is None,
            },
    {
        let ghost pre = self.entries();
        let ghost pre_ch = self.channels();
        let ghost pre_pat = self.patterns();
        match self.find_key(key) {
            Option::None => None,
            Option::Some(i) => {
                let expired = match self.storage[i].1.expiration {
                    Option::Some(t) => now >= t,
                    Option::None => false,
                };
                if expired {
                    self.storage.remove(i);
                    proof {
                        let cur = self.entries();
                        assert(cur =~= pre.remove(i as int));
                        lemma_assoc_remove(pre, i as int);
                        lemma_keys_unique_remove(pre, i as int);
                        assert(self.channels() =~= pre_ch);
                        assert(self.patterns() =~= pre_pat);
                    }
                    None
                } else {
                    Some(&self.storage[i].1.value)
                }
            }
        }
    }

    /// Whether `key` is logically present at `now`, touching nothing;
    /// commands that only test a condition use this, leaving eviction to
    /// the reads and the sweep.
    pub fn has_live(&self, key: &String, now: u64) -> (r: bool)
        ensures
            r == (self.spec_live_get(key@, now) is Some),
    {
        match self.find_key(key) {
            Option::None => false,
            Option::Some(i) => {
                match self.storage[i].1.expiration {
                    Option::Some(t) => now < t,
                    Option::None => true,
                }
            }
        }
    }

    /// Whether `key` is logically present at `now`; an entry found dead is
    /// evicted as a side effect of the check.
    pub fn key_exists(&mut self, key: &String, now: u64) -> (r: bool)
        requires
            old(self).wf(),
        ensures
            final(self).wf(),
            r == (old(self).spec_live_get(key@, now) is Some),
            final(self).spec_get(key@) == (if r {
                old(self).spec_get(key@)
            } else {
                Option::<EntryV>::None
            }),
            forall|k2: Seq<char>| k2 != key@ ==> final(self).spec_get(k2) == old(self).spec_get(k2),
            final(self).channels() == old(self).channels(),
            final(self).patterns() == old(self).patterns(),
            final(self).wal_enabled() == old(self).wal_enabled(),
            final(self).wal_pending() == old(self).wal_pending(),
    {
        let ghost pre = self.entries();
        let ghost pre_ch = self.channels();
        let ghost pre_pat = self.patterns();
        match self.find_key(key) {
            Option::None => false,
            Option::Some(i) => {
                let expired = match self.storage[i].1.expiration {
                    Option::Some(t) => now >= t,
                    Option::None => false,
                };
                if expired {
                    self.storage.remove(i);
                    proof {
                        assert(self.entries() =~= pre.remove(i as int));
                        lemma_assoc_remove(pre, i as int);
                        lemma_keys_unique_remove(pre, i as int);
                        assert(self.channels() =~= pre_ch);
                        assert(self.patterns() =~= pre_pat);
                    }
                    false
                } else {
                    true
                }
            }
        }
    }

    /// Removes `key`'s entry.  True exactly when a live entry existed and
    /// was removed; an entry found dead is evicted but not counted, and
    /// only a counted removal is recorded in the log.
    pub fn del(&mut self, key: &String, now: u64) -> (r: bool)
        requires
            old(self).wf(),
        ensures
            final(self).wf(),
            r == (old(self).spec_live_get(key@, now) is Some),
            final(self).spec_get(key@) is None,
            forall|k2: Seq<char>| k2 != key@ ==> final(self).spec_get(k2) == old(self).spec_get(k2),
            final(self).channels() == old(self).channels(),
            final(self).patterns() == old(self).patterns(),
            final(self).wal_enabled() == old(self).wal_enabled(),
            final(self).wal_pending() == old(self).wal_pending() + (if r {
                record_if(old(self).wal_enabled(), "del"@, seq![key@])
            } else {
                Seq::<u8>::empty()
            }),
    {
        let ghost pre = self.entries();
        let ghost pre_ch = self.channels();
        let ghost pre_pat = self.patterns();
        match self.find_key(key) {
            Option::None => {
                proof {
                    assert(old(self).wal_pending() + Seq::<u8>::empty() =~= old(self).wal_pending());
                }
                false
            }
            Option::Some(i) => {
                let expired = match self.storage[i].1.expiration {
                    Option::Some(t) => now >= t,
                    Option::None => false,
                };
                self.storage.remove(i);
                proof {
                    assert(self.entries() =~= pre.remove(i as int));
                    lemma_assoc_remove(pre, i as int);
                    lemma_keys_unique_remove(pre, i as int);
                    assert(self.channels() =~= pre_ch);
                    assert(self.patterns() =~= pre_pat);
                }
                if expired {
                    proof {
                        assert(old(self).wal_pending() + Seq::<u8>::empty() =~= old(self).wal_pending());
                    }
                    false
                } else {
                    let mut args: Vec<String> = Vec::new();
                    args.push(key.clone());
                    let cmd: String = String::from_str("del");
                    proof {
                        assert(args.deep_view() =~= seq![key@]);
                    }
                    let ghost mid = self.entries();
                    propagate_aof(&mut self.aof, &cmd, &args);
                    proof {
                        assert(self.entries() =~= mid);
                        assert(self.channels() =~= pre_ch);
                        assert(self.patterns() =~= pre_pat);
                    }
                    true
                }
            }
        }
    }

    /// Switches log recording on or off; startup replays with the log off
    /// and switches it on before serving, so that rebuilding a store never
    /// writes to the log it is reading.
    pub fn set_wal_enabled(&mut self, enabled: bool)
        requires
            old(self).wf(),
        ensures
            final(self).wf(),
            final(self).wal_enabled() == enabled,
            final(self).wal_pending() == old(self).wal_pending(),
            final(self).entries() == old(self).entries(),
            final(self).channels() == old(self).channels(),
            final(self).patterns() == old(self).patterns(),
    {
        let ghost pre = self.entries();
        let ghost pre_ch = self.channels();
        let ghost pre_pat = self.patterns();
        self.aof.set_enabled(enabled);
        proof {
            assert(self.entries() =~= pre);
            assert(self.channels() =~= pre_ch);
            assert(self.patterns() =~= pre_pat);
        }
    }

    /// Hands the buffered log records out for the binary to append to the
    /// log file, leaving the buffer empty.
    pub fn take_aof_buffer(&mut self) -> (r: Vec<u8>)
        requires
            old(self).wf(),
        ensures
            final(self).wf(),
            r@ == old(self).wal_pending(),
            final(self).wal_pending() == Seq::<u8>::empty(),
            final(self).wal_enabled() == old(self).wal_enabled(),
            final(self).entries() == old(self).entries(),
            final(self).channels() == old(self).channels(),
            final(self).patterns() == old(self).patterns(),
    {
        let ghost pre = self.entries();
        let ghost pre_ch = self.channels();
        let ghost pre_pat = self.patterns();
        let r = self.aof.take_buffer();
        proof {
            assert(self.entries() =~= pre);
            assert(self.channels() =~= pre_ch);
            assert(self.patterns() =~= pre_pat);
        }
        r
    }
}

/// The live bindings of `s` at `now`, in their original order.
pub open spec fn filter_live(s: Seq<(Seq<char>, EntryV)>, now: u64) -> Seq<(Seq<char>, EntryV)>
    decreases s.len(),
{
    if s.len() == 0 {
        Seq::<(Seq<char>, EntryV)>::empty()
    } else if entry_live(s[0].1, now) {
        seq![s[0]] + filter_live(s.skip(1), now)
    } else {
        filter_live(s.skip(1), now)
    }
}

/// Filtering keeps a key out that was never there.
pub proof fn lemma_filter_live_keeps_out(s: Seq<(Seq<char>, EntryV)>, now: u64, k: Seq<char>)
    requires
        forall|j: int| 0 <= j < s.len() ==> (#[trigger] s[j]).0 != k,
    ensures
        forall|j: int| 0 <= j < filter_live(s, now).len() ==> (#[trigger] filter_live(s, now)[j]).0
            != k,
    decreases s.len(),
{
    if s.len() > 0 {
        lemma_filter_live_keeps_out(s.skip(1), now, k);
        if entry_live(s[0].1, now) {
            let f = filter_live(s, now);
            assert forall|j: int| 0 <= j < f.len() implies (#[trigger] f[j]).0 != k by {
                if j > 0 {
                    assert(f[j] == filter_live(s.skip(1), now)[j - 1]);
                }
            }
        }
    }
}

/// Filtering keeps the keys unique.
pub proof fn lemma_filter_live_unique(s: Seq<(Seq<char>, EntryV)>, now: u64)
    requires
        keys_unique(s),
    ensures
        keys_unique(filter_live(s, now)),
    decreases s.len(),
{
    if s.len() > 0 {
        assert forall|p: int, q: int| 0 <= p < q < s.skip(1).len() implies (#[trigger] s.skip(
            1,
        )[p]).0 != (#[trigger] s.skip(1)[q]).0 by {
            assert(s.skip(1)[p] == s[p + 1]);
            assert(s.skip(1)[q] == s[q + 1]);
        }
        lemma_filter_live_unique(s.skip(1), now);
        if entry_live(s[0].1, now) {
            assert forall|j: int| 0 <= j < s.skip(1).len() implies (#[trigger] s.skip(1)[j]).0
                != s[0].0 by {
                assert(s.skip(1)[j] == s[j + 1]);
            }
            lemma_filter_live_keeps_out(s.skip(1), now, s[0].0);
            let f = filter_live(s, now);
            let f1 = filter_live(s.skip(1), now);
            assert forall|p: int, q: int| 0 <= p < q < f.len() implies (#[trigger] f[p]).0 != (
            #[trigger] f[q]).0 by {
                assert(f[q] == f1[q - 1]);
                if p > 0 {
                    assert(f[p] == f1[p - 1]);
                }
            }
        }
    }
}

/// Looking a key up after the sweep sees exactly the live binding.
pub proof fn lemma_assoc_filter_live(s: Seq<(Seq<char>, EntryV)>, now: u64, k: Seq<char>)
    requires
        keys_unique(s),
    ensures
        assoc_get(filter_live(s, now), k) == (match assoc_get(s, k) {
            Option::Some(e) => if entry_live(e, now) {
                Option::Some(e)
            } else {
                Option::<EntryV>::None
            },
            Option::None => Option::<EntryV>::None,
        }),
    decreases s.len(),
{
    if s.len() > 0 {
        assert forall|p: int, q: int| 0 <= p < q < s.skip(1).len() implies (#[trigger] s.skip(
            1,
        )[p]).0 != (#[trigger] s.skip(1)[q]).0 by {
            assert(s.skip(1)[p] == s[p + 1]);
            assert(s.skip(1)[q] == s[q + 1]);
        }
        lemma_assoc_filter_live(s.skip(1), now, k);
        let f = filter_live(s, now);
        let f1 = filter_live(s.skip(1), now);
        if s[0].0 == k {
            assert forall|j: int| 0 <= j < s.skip(1).len() implies (#[trigger] s.skip(1)[j]).0
                != k by {
                assert(s.skip(1)[j] == s[j + 1]);
            }
            lemma_assoc_none(s.skip(1), k);
            if entry_live(s[0].1, now) {
                assert(f[0] == s[0]);
                assert(assoc_get(f, k) == Option::Some(s[0].1));
            } else {
                lemma_filter_live_keeps_out(s.skip(1), now, k);
                lemma_assoc_none(f1, k);
            }
        } else {
            if entry_live(s[0].1, now) {
                assert(f[0] == s[0]);
                assert(f.skip(1) =~= f1);
                assert(assoc_get(f, k) == assoc_get(f1, k));
            }
            assert(assoc_get(s, k) == assoc_get(s.skip(1), k));
        }
    }
}

/// Appending one binding extends the filtered view by that binding when it
/// is live.
pub proof fn lemma_filter_live_push(s: Seq<(Seq<char>, EntryV)>, x: (Seq<char>, EntryV), now: u64)
    ensures
        filter_live(s.push(x), now) == (if entry_live(x.1, now) {
            filter_live(s, now).push(x)
        } else {
            filter_live(s, now)
        }),
    decreases s.len(),
{
    let s2 = s.push(x);
    if s.len() == 0 {
        assert(s2[0] == x);
        assert(s2.skip(1) =~= Seq::<(Seq<char>, EntryV)>::empty());
        assert(filter_live(s2.skip(1), now) =~= Seq::<(Seq<char>, EntryV)>::empty());
        assert(filter_live(s, now) =~= Seq::<(Seq<char>, EntryV)>::empty());
        if entry_live(x.1, now) {
            assert(filter_live(s2, now) =~= seq![x] + filter_live(s2.skip(1), now));
            assert(filter_live(s2, now) =~= filter_live(s, now).push(x));
        } else {
            assert(filter_live(s2, now) =~= filter_live(s, now));
        }
    } else {
        lemma_filter_live_push(s.skip(1), x, now);
        assert(s.skip(1).push(x) =~= s2.skip(1));
        assert(filter_live(s2.skip(1), now) == filter_live(s.skip(1).push(x), now));
        assert(s2[0] == s[0]);
        if entry_live(s[0].1, now) {
            assert(filter_live(s2, now) == seq![s[0]] + filter_live(s2.skip(1), now));
            assert(filter_live(s, now) == seq![s[0]] + filter_live(s.skip(1), now));
            if entry_live(x.1, now) {
                assert(filter_live(s2, now) =~= filter_live(s, now).push(x));
            } else {
                assert(filter_live(s2, now) =~= filter_live(s, now));
            }
        } else {
            assert(filter_live(s2, now) == filter_live(s2.skip(1), now));
            assert(filter_live(s, now) == filter_live(s.skip(1), now));
        }
    }
}

/// The views of a vector of strings, element by element.
pub open spec fn string_views(v: Seq<String>) -> Seq<Seq<char>> {
    Seq::new(v.len(), |i: int| v[i]@)
}

/// `p` is an initial stretch of `c`.
pub open spec fn is_prefix(p: Seq<char>, c: Seq<char>) -> bool {
    p.len() <= c.len() && c.subrange(0, p.len() as int) == p
}

/// The patterns among `pats` that prefix `c`, in their original order.
pub open spec fn matching_patterns(pats: Seq<Seq<char>>, c: Seq<char>) -> Seq<Seq<char>>
    decreases pats.len(),
{
    if pats.len() == 0 {
        Seq::<Seq<char>>::empty()
    } else if is_prefix(pats[0], c) {
        seq![pats[0]] + matching_patterns(pats.skip(1), c)
    } else {
        matching_patterns(pats.skip(1), c)
    }
}

/// Appending a pattern extends the matching view by it when it prefixes
/// the channel.
pub proof fn lemma_matching_push(pats: Seq<Seq<char>>, x: Seq<char>, c: Seq<char>)
    ensures
        matching_patterns(pats.push(x), c) == (if is_prefix(x, c) {
            matching_patterns(pats, c).push(x)
        } else {
            matching_patterns(pats, c)
        }),
    decreases pats.len(),
{
    let s2 = pats.push(x);
    if pats.len() == 0 {
        assert(s2[0] == x);
        assert(s2.skip(1) =~= Seq::<Seq<char>>::empty());
        assert(matching_patterns(s2.skip(1), c) =~= Seq::<Seq<char>>::empty());
        assert(matching_patterns(pats, c) =~= Seq::<Seq<char>>::empty());
        if is_prefix(x, c) {
            assert(matching_patterns(s2, c) =~= seq![x] + matching_patterns(s2.skip(1), c));
            assert(matching_patterns(s2, c) =~= matching_patterns(pats, c).push(x));
        } else {
            assert(matching_patterns(s2, c) =~= matching_patterns(pats, c));
        }
    } else {
        lemma_matching_push(pats.skip(1), x, c);
        assert(pats.skip(1).push(x) =~= s2.skip(1));
        assert(matching_patterns(s2.skip(1), c) == matching_patterns(pats.skip(1).push(x), c));
        assert(s2[0] == pats[0]);
        if is_prefix(pats[0], c) {
            assert(matching_patterns(s2, c) == seq![pats[0]] + matching_patterns(s2.skip(1), c));
            assert(matching_patterns(pats, c) == seq![pats[0]] + matching_patterns(
                pats.skip(1),
                c,
            ));
            if is_prefix(x, c) {
                assert(matching_patterns(s2, c) =~= matching_patterns(pats, c).push(x));
            } else {
                assert(matching_patterns(s2, c) =~= matching_patterns(pats, c));
            }
        } else {
            assert(matching_patterns(s2, c) == matching_patterns(s2.skip(1), c));
            assert(matching_patterns(pats, c) == matching_patterns(pats.skip(1), c));
        }
    }
}

/// Whether `p@` is a prefix of `c@`, compared character by character.
fn str_is_prefix(p: &String, c: &String) -> (r: bool)
    ensures
        r == is_prefix(p@, c@),
{
    let pl = p.as_str().unicode_len();
    let cl = c.as_str().unicode_len();
    if pl > cl {
        assert(!is_prefix(p@, c@));
        return false;
    }
    let mut i: usize = 0;
    while i < pl
        invariant
            0 <= i <= pl,
            pl == p@.len(),
            cl == c@.len(),
            pl <= cl,
            forall|j: int| 0 <= j < i ==> p@[j] == c@[j],
        decreases pl - i,
    {
        if p.as_str().get_char(i) != c.as_str().get_char(i) {
            assert(c@.subrange(0, p@.len() as int)[i as int] != p@[i as int]);
            return false;
        }
        i = i + 1;
    }
    assert(c@.subrange(0, p@.len() as int) =~= p@);
    true
}

/// The position of `x` in `v`, with everything the scan rules out.
fn find_string(v: &Vec<String>, x: &String) -> (r: Option<usize>)
    ensures
        match r {
            Option::Some(i) => i < v@.len() && string_views(v@)[i as int] == x@ && forall|j: int|
                0 <= j < i ==> string_views(v@)[j] != x@,
            Option::None => forall|j: int| 0 <= j < v@.len() ==> string_views(v@)[j] != x@,
        },
{
    let n = v.len();
    let mut i: usize = 0;
    while i < n
        invariant
            0 <= i <= n,
            n == v@.len(),
            forall|j: int| 0 <= j < i ==> string_views(v@)[j] != x@,
        decreases n - i,
    {
        if v[i] == *x {
            return Some(i);
        }
        assert(string_views(v@)[i as int] == v@[i as int]@);
        i = i + 1;
    }
    None
}

impl Db {
    /// The active sweep: removes every entry whose expiration has passed,
    /// whether or not it is ever read again, keeping live entries in their
    /// order.
    pub fn cleanup_expired(&mut self, now: u64)
        requires
            old(self).wf(),
        ensures
            final(self).wf(),
            final(self).entries() == filter_live(old(self).entries(), now),
            forall|k: Seq<char>| final(self).spec_get(k) == old(self).spec_live_get(k, now),
            final(self).channels() == old(self).channels(),
            final(self).patterns() == old(self).patterns(),
            final(self).wal_enabled() == old(self).wal_enabled(),
            final(self).wal_pending() == old(self).wal_pending(),
    {
        let ghost pre = self.entries();
        let ghost pre_ch = self.channels();
        let ghost pre_pat = self.patterns();
        let mut i: usize = 0;
        let ghost j: int = 0;
        proof {
            assert(pre.take(0) =~= Seq::<(Seq<char>, EntryV)>::empty());
            assert(pre.skip(0) =~= pre);
            assert(self.entries() =~= filter_live(pre.take(0), now) + pre.skip(0));
        }
        while i < self.storage.len()
            invariant
                old(self).wf(),
                0 <= j <= pre.len(),
                i == filter_live(pre.take(j), now).len(),
                self.entries() == filter_live(pre.take(j), now) + pre.skip(j),
                self.channels() == pre_ch,
                self.patterns() == pre_pat,
                self.wal_pending() == old(self).wal_pending(),
                self.wal_enabled() == old(self).wal_enabled(),
                pre == old(self).entries(),
            decreases self.storage@.len() - i,
        {
            proof {
                assert(j < pre.len()) by {
                    if j == pre.len() {
                        assert(pre.skip(j) =~= Seq::<(Seq<char>, EntryV)>::empty());
                        lemma_filter_live_len(pre.take(j), now);
                    }
                }
                assert(pre.take(j + 1) =~= pre.take(j).push(pre[j]));
                lemma_filter_live_push(pre.take(j), pre[j], now);
                lemma_filter_live_len(pre.take(j), now);
                assert(self.entries()[i as int] == pre.skip(j)[0]);
                assert(pre.skip(j)[0] == pre[j]);
            }
            let expired = match self.storage[i].1.expiration {
                Option::Some(t) => now >= t,
                Option::None => false,
            };
            let ghost cur = self.entries();
            if expired {
                self.storage.remove(i);
                proof {
                    assert(self.entries() =~= cur.remove(i as int));
                    assert(self.entries() =~= filter_live(pre.take(j + 1), now) + pre.skip(j + 1));
                }
            } else {
                i = i + 1;
                proof {
                    assert(self.entries() =~= filter_live(pre.take(j + 1), now) + pre.skip(j + 1));
                }
            }
            proof {
                j = j + 1;
                assert(self.channels() =~= pre_ch);
                assert(self.patterns() =~= pre_pat);
            }
        }
        proof {
            assert(j == pre.len()) by {
                if j < pre.len() {
                    lemma_filter_live_len(pre.take(j), now);
                }
            }
            assert(pre.take(j) =~= pre);
            assert(pre.skip(j) =~= Seq::<(Seq<char>, EntryV)>::empty());
            assert(self.entries() =~= filter_live(pre, now));
            lemma_filter_live_unique(pre, now);
            assert forall|k: Seq<char>| true implies assoc_get(self.entries(), k) == old(self).spec_live_get(k, now) by {
                lemma_assoc_filter_live(pre, now, k);
            }
        }
    }

    /// Subscribes to an exact-match channel, registering the channel on
    /// its first subscription.  True when the channel is new.
    pub fn subscribe(&mut self, channel: &String) -> (r: bool)
        requires
            old(self).wf(),
        ensures
            final(self).wf(),
            r == !old(self).channels().contains(channel@),
            final(self).channels() == (if r {
                old(self).channels().push(channel@)
            } else {
                old(self).channels()
            }),
            final(self).patterns() == old(self).patterns(),
            final(self).entries() == old(self).entries(),
            final(self).wal_enabled() == old(self).wal_enabled(),
            final(self).wal_pending() == old(self).wal_pending(),
    {
        let ghost pre = self.entries();
        let ghost pre_ch = self.channels();
        let ghost pre_pat = self.patterns();
        match find_string(&self.pub_sub, channel) {
            Option::Some(i) => {
                proof {
                    assert(pre_ch[i as int] == channel@);
                    assert(pre_ch.contains(channel@));
                }
                false
            }
            Option::None => {
                self.pub_sub.push(channel.clone());
                proof {
                    assert(!pre_ch.contains(channel@)) by {
                        if pre_ch.contains(channel@) {
                            let w = choose|w: int|
                                0 <= w < pre_ch.len() && pre_ch[w] == channel@;
                            assert(string_views(old(self).pub_sub@)[w] == channel@);
                        }
                    }
                    assert(self.channels() =~= pre_ch.push(channel@));
                    assert(self.entries() =~= pre);
                    assert(self.patterns() =~= pre_pat);
                    assert forall|p: int, q: int|
                        0 <= p < q < self.channels().len() implies self.channels()[p]
                        != self.channels()[q] by {
                        if q == self.channels().len() - 1 {
                            assert(string_views(old(self).pub_sub@)[p] != channel@);
                        }
                    }
                }
                true
            }
        }
    }

    /// Subscribes through the wildcard form: a channel name ending in `*`
    /// becomes a prefix pattern with the wildcard stripped; any other name
    /// subscribes exactly.  True when the pattern or channel is new.
    pub fn psubscribe(&mut self, channel: &String) -> (r: bool)
        requires
            old(self).wf(),
        ensures
            final(self).wf(),
            final(self).entries() == old(self).entries(),
            final(self).wal_enabled() == old(self).wal_enabled(),
            final(self).wal_pending() == old(self).wal_pending(),
            (channel@.len() > 0 && channel@.last() == '*') ==> {
                let p = channel@.drop_last();
                &&& r == !old(self).patterns().contains(p)
                &&& final(self).patterns() == (if r {
                    old(self).patterns().push(p)
                } else {
                    old(self).patterns()
                })
                &&& final(self).channels() == old(self).channels()
            },
            !(channel@.len() > 0 && channel@.last() == '*') ==> {
                &&& r == !old(self).channels().contains(channel@)
                &&& final(self).channels() == (if r {
                    old(self).channels().push(channel@)
                } else {
                    old(self).channels()
                })
                &&& final(self).patterns() == old(self).patterns()
            },
    {
        let n = channel.as_str().unicode_len();
        let wildcard = n > 0 && channel.as_str().get_char(n - 1) == '*';
        if wildcard {
            let stripped: String = channel.as_str().substring_char(0, n - 1).to_owned();
            proof {
                assert(stripped@ =~= channel@.drop_last());
            }
            let ghost pre = self.entries();
            let ghost pre_ch = self.channels();
            let ghost pre_pat = self.patterns();
            match find_string(&self.psubscribes, &stripped) {
                Option::Some(i) => {
                    proof {
                        assert(pre_pat[i as int] == stripped@);
                        assert(pre_pat.contains(stripped@));
                    }
                    false
                }
                Option::None => {
                    self.psubscribes.push(stripped);
                    proof {
                        assert(!pre_pat.contains(channel@.drop_last())) by {
                            if pre_pat.contains(channel@.drop_last()) {
                                let w = choose|w: int|
                                    0 <= w < pre_pat.len() && pre_pat[w] == channel@.drop_last();
                                assert(string_views(old(self).psubscribes@)[w]
                                    == channel@.drop_last());
                            }
                        }
                        assert(self.patterns() =~= pre_pat.push(channel@.drop_last()));
                        assert(self.entries() =~= pre);
                        assert(self.channels() =~= pre_ch);
                        assert forall|p: int, q: int|
                            0 <= p < q < self.patterns().len() implies self.patterns()[p]
                            != self.patterns()[q] by {
                            if q == self.patterns().len() - 1 {
                                assert(string_views(old(self).psubscribes@)[p]
                                    != channel@.drop_last());
                            }
                        }
                    }
                    true
                }
            }
        } else {
            self.subscribe(channel)
        }
    }

    /// The targets a publish to `channel` fires: every registered prefix
    /// pattern that prefixes the channel, and whether the exact channel is
    /// registered.  The caller counts one delivery per pattern plus one
    /// for the exact match, and performs the sends.
    pub fn publish_targets(&self, channel: &String) -> (r: (Vec<String>, bool))
        requires
            self.wf(),
        ensures
            string_views(r.0@) == matching_patterns(self.patterns(), channel@),
            r.1 == self.channels().contains(channel@),
    {
        let mut hits: Vec<String> = Vec::new();
        let n = self.psubscribes.len();
        let mut i: usize = 0;
        proof {
            assert(self.patterns().take(0) =~= Seq::<Seq<char>>::empty());
            assert(string_views(hits@) =~= matching_patterns(self.patterns().take(0), channel@));
        }
        while i < n
            invariant
                0 <= i <= n,
                n == self.psubscribes@.len(),
                string_views(hits@) == matching_patterns(self.patterns().take(i as int), channel@),
            decreases n - i,
        {
            proof {
                assert(self.patterns().take(i + 1) =~= self.patterns().take(i as int).push(
                    self.patterns()[i as int],
                ));
                lemma_matching_push(self.patterns().take(i as int), self.patterns()[i as int],
                    channel@);
            }
            if str_is_prefix(&self.psubscribes[i], channel) {
                let ghost preh = hits@;
                hits.push(self.psubscribes[i].clone());
                proof {
                    assert(self.patterns()[i as int] == self.psubscribes@[i as int]@);
                    assert(string_views(hits@) =~= string_views(preh).push(
                        self.patterns()[i as int],
                    ));
                }
            } else {
                proof {
                    assert(self.patterns()[i as int] == self.psubscribes@[i as int]@);
                }
            }
            i = i + 1;
        }
        proof {
            assert(self.patterns().take(n as int) =~= self.patterns());
        }
        let exact = match find_string(&self.pub_sub, channel) {
            Option::Some(i2) => {
                proof {
                    assert(self.channels()[i2 as int] == channel@);
                }
                true
            }
            Option::None => {
                proof {
                    if self.channels().contains(channel@) {
                        let w = choose|w: int|
                            0 <= w < self.channels().len() && self.channels()[w] == channel@;
                        assert(string_views(self.pub_sub@)[w] == channel@);
                    }
                }
                false
            }
        };
        (hits, exact)
    }
}

/// The length of the filtered view never exceeds the original.
pub proof fn lemma_filter_live_len(s: Seq<(Seq<char>, EntryV)>, now: u64)
    ensures
        filter_live(s, now).len() <= s.len(),
    decreases s.len(),
{
    if s.len() > 0 {
        lemma_filter_live_len(s.skip(1), now);
    }
}

/// The TTL law: an entry stored at `set_now` with a positive expiration
/// offset `e` is logically present for every read before `set_now + e`
/// and logically absent from then on — so `get` returns the value before
/// that instant and nothing after, and the active sweep, which evicts
/// exactly the entries that are not live, cannot change what any read
/// observes.
pub proof fn lemma_ttl(value: ValueV, set_now: u64, e: u64, read_now: u64)
    requires
        e > 0,
        set_now + e <= u64::MAX,
    ensures
        ({
            let entry = EntryV { value, expiration: abs_expiration(set_now, Some(e)) };
            &&& (read_now < set_now + e ==> entry_live(entry, read_now))
            &&& (read_now >= set_now + e ==> !entry_live(entry, read_now))
        }),
{
}

/// The wrong-type condition: the key exists but holds another type; the
/// store is left unmodified when it is reported.
#[derive(Debug, Clone, Copy, PartialEq, Eq, Structural)]
pub struct WrongType;

/// The views of a vector of field/value pairs, element by element.
pub open spec fn pair_views(v: Seq<(String, String)>) -> Seq<(Seq<char>, Seq<char>)> {
    Seq::new(v.len(), |i: int| (v[i].0@, v[i].1@))
}

/// `pairs` with `f` bound to `v`: the first binding of `f` updated in
/// place, or a fresh binding appended.
pub open spec fn hash_update(
    pairs: Seq<(Seq<char>, Seq<char>)>,
    f: Seq<char>,
    v: Seq<char>,
) -> Seq<(Seq<char>, Seq<char>)>
    decreases pairs.len(),
{
    if pairs.len() == 0 {
        seq![(f, v)]
    } else if pairs[0].0 == f {
        seq![(f, v)] + pairs.skip(1)
    } else {
        seq![pairs[0]] + hash_update(pairs.skip(1), f, v)
    }
}

/// `pairs` with the first binding of `f` removed, if any.
pub open spec fn hash_remove(
    pairs: Seq<(Seq<char>, Seq<char>)>,
    f: Seq<char>,
) -> Seq<(Seq<char>, Seq<char>)>
    decreases pairs.len(),
{
    if pairs.len() == 0 {
        pairs
    } else if pairs[0].0 == f {
        pairs.skip(1)
    } else {
        seq![pairs[0]] + hash_remove(pairs.skip(1), f)
    }
}

/// Updating at the first occurrence is updating that position.
pub proof fn lemma_hash_update_at(
    pairs: Seq<(Seq<char>, Seq<char>)>,
    i: int,
    f: Seq<char>,
    v: Seq<char>,
)
    requires
        0 <= i < pairs.len(),
        pairs[i].0 == f,
        forall|j: int| 0 <= j < i ==> (#[trigger] pairs[j]).0 != f,
    ensures
        hash_update(pairs, f, v) == pairs.update(i, (f, v)),
    decreases i,
{
    if i == 0 {
        assert(hash_update(pairs, f, v) =~= pairs.update(0, (f, v)));
    } else {
        assert(pairs.skip(1)[i - 1] == pairs[i]);
        assert forall|j: int| 0 <= j < i - 1 implies (#[trigger] pairs.skip(1)[j]).0 != f by {
            assert(pairs.skip(1)[j] == pairs[j + 1]);
        }
        lemma_hash_update_at(pairs.skip(1), i - 1, f, v);
        assert(hash_update(pairs, f, v) == seq![pairs[0]] + hash_update(pairs.skip(1), f, v));
        assert(hash_update(pairs, f, v) =~= pairs.update(i, (f, v)));
    }
}

/// Updating an absent field is appending it.
pub proof fn lemma_hash_update_missing(
    pairs: Seq<(Seq<char>, Seq<char>)>,
    f: Seq<char>,
    v: Seq<char>,
)
    requires
        forall|j: int| 0 <= j < pairs.len() ==> (#[trigger] pairs[j]).0 != f,
    ensures
        hash_update(pairs, f, v) == pairs.push((f, v)),
    decreases pairs.len(),
{
    if pairs.len() == 0 {
        assert(hash_update(pairs, f, v) =~= pairs.push((f, v)));
    } else {
        assert forall|j: int| 0 <= j < pairs.skip(1).len() implies (#[trigger] pairs.skip(
            1,
        )[j]).0 != f by {
            assert(pairs.skip(1)[j] == pairs[j + 1]);
        }
        lemma_hash_update_missing(pairs.skip(1), f, v);
        assert(hash_update(pairs, f, v) =~= pairs.push((f, v)));
    }
}

/// Removing at the first occurrence is removing that position.
pub proof fn lemma_hash_remove_at(pairs: Seq<(Seq<char>, Seq<char>)>, i: int, f: Seq<char>)
    requires
        0 <= i < pairs.len(),
        pairs[i].0 == f,
        forall|j: int| 0 <= j < i ==> (#[trigger] pairs[j]).0 != f,
    ensures
        hash_remove(pairs, f) == pairs.remove(i),
    decreases i,
{
    if i == 0 {
        assert(hash_remove(pairs, f) =~= pairs.remove(0));
    } else {
        assert(pairs.skip(1)[i - 1] == pairs[i]);
        assert forall|j: int| 0 <= j < i - 1 implies (#[trigger] pairs.skip(1)[j]).0 != f by {
            assert(pairs.skip(1)[j] == pairs[j + 1]);
        }
        lemma_hash_remove_at(pairs.skip(1), i - 1, f);
        assert(hash_remove(pairs, f) == seq![pairs[0]] + hash_remove(pairs.skip(1), f));
        assert(hash_remove(pairs, f) =~= pairs.remove(i));
    }
}

/// Removing an absent field changes nothing.
pub proof fn lemma_hash_remove_missing(pairs: Seq<(Seq<char>, Seq<char>)>, f: Seq<char>)
    requires
        forall|j: int| 0 <= j < pairs.len() ==> (#[trigger] pairs[j]).0 != f,
    ensures
        hash_remove(pairs, f) == pairs,
    decreases pairs.len(),
{
    if pairs.len() > 0 {
        assert forall|j: int| 0 <= j < pairs.skip(1).len() implies (#[trigger] pairs.skip(
            1,
        )[j]).0 != f by {
            assert(pairs.skip(1)[j] == pairs[j + 1]);
        }
        lemma_hash_remove_missing(pairs.skip(1), f);
        assert(hash_remove(pairs, f) =~= pairs);
    }
}

/// The first value bound to `field` among `pairs`, scanning in order.
pub fn hash_pairs_find<'a>(pairs: &'a Vec<(String, String)>, field: &String) -> (r: Option<
    &'a String,
>)
    ensures
        match r {
            Option::Some(v) => assoc_get(pair_views(pairs@), field@) == Option::Some(v@),
            Option::None => assoc_get(pair_views(pairs@), field@) is None,
        },
{
    let n = pairs.len();
    let mut i: usize = 0;
    while i < n
        invariant
            0 <= i <= n,
            n == pairs@.len(),
            forall|j: int| 0 <= j < i ==> (#[trigger] pair_views(pairs@)[j]).0 != field@,
        decreases n - i,
    {
        let e = &pairs[i];
        if e.0 == *field {
            proof {
                assert(pair_views(pairs@)[i as int].0 == field@);
                lemma_assoc_skip(pair_views(pairs@), field@, i as int);
                assert(pair_views(pairs@).skip(i as int)[0] == pair_views(pairs@)[i as int]);
            }
            return Some(&pairs[i].1);
        }
        proof {
            assert(pair_views(pairs@)[i as int].0 == pairs@[i as int].0@);
        }
        i = i + 1;
    }
    proof {
        lemma_assoc_none(pair_views(pairs@), field@);
    }
    None
}

/// Finds the position of the first binding of `field`.
fn hash_pairs_pos(pairs: &Vec<(String, String)>, field: &String) -> (r: Option<usize>)
    ensures
        match r {
            Option::Some(i) => i < pairs@.len() && pair_views(pairs@)[i as int].0 == field@
                && (forall|j: int| 0 <= j < i ==> (#[trigger] pair_views(pairs@)[j]).0 != field@),
            Option::None => forall|j: int|
                0 <= j < pairs@.len() ==> (#[trigger] pair_views(pairs@)[j]).0 != field@,
        },
{
    let n = pairs.len();
    let mut i: usize = 0;
    while i < n
        invariant
            0 <= i <= n,
            n == pairs@.len(),
            forall|j: int| 0 <= j < i ==> (#[trigger] pair_views(pairs@)[j]).0 != field@,
        decreases n - i,
    {
        let e = &pairs[i];
        if e.0 == *field {
            proof {
                assert(pair_views(pairs@)[i as int].0 == field@);
            }
            return Some(i);
        }
        proof {
            assert(pair_views(pairs@)[i as int].0 == pairs@[i as int].0@);
        }
        i = i + 1;
    }
    None
}

impl Db {
    /// Sets `field` to `value` in the hash at `key`, creating the hash
    /// when the key is absent.  True when the field was not bound before.
    /// On a key of another type nothing changes and the wrong-type
    /// condition is reported.  The mutation is recorded in the log.
    pub fn hash_set(&mut self, key: &String, field: &String, value: &String) -> (r: Result<
        bool,
        WrongType,
    >)
        requires
            old(self).wf(),
        ensures
            final(self).wf(),
            final(self).channels() == old(self).channels(),
            final(self).patterns() == old(self).patterns(),
            final(self).wal_enabled() == old(self).wal_enabled(),
            forall|k2: Seq<char>| k2 != key@ ==> final(self).spec_get(k2) == old(self).spec_get(k2),
            match old(self).spec_get(key@) {
                Option::None => r == Ok::<bool, WrongType>(true) && final(self).spec_get(key@)
                    == Option::Some(
                    EntryV {
                        value: ValueV::Hash(seq![(field@, value@)]),
                        expiration: Option::None,
                    },
                ),
                Option::Some(e) => match e.value {
                    ValueV::Hash(h) => r == Ok::<bool, WrongType>(
                        assoc_get(h, field@) is None,
                    ) && final(self).spec_get(key@) == Option::Some(
                        EntryV {
                            value: ValueV::Hash(hash_update(h, field@, value@)),
                            expiration: e.expiration,
                        },
                    ),
                    _ => r == Err::<bool, WrongType>(WrongType) && final(self).spec_get(key@)
                        == old(self).spec_get(key@),
                },
            },
            final(self).wal_pending() == old(self).wal_pending() + (if r is Ok {
                record_if(old(self).wal_enabled(), "hset"@, seq![key@, field@, value@])
            } else {
                Seq::<u8>::empty()
            }),
    {
        let ghost pre = self.entries();
        let ghost pre_ch = self.channels();
        let ghost pre_pat = self.patterns();
        let outcome: Result<bool, WrongType> = match self.find_key(key) {
            Option::None => {
                let mut pairs: Vec<(String, String)> = Vec::new();
                pairs.push((field.clone(), value.clone()));
                let entry = DbEntry { value: DbType::Hash(pairs), expiration: None };
                proof {
                    assert(entry@.value->Hash_0 =~= seq![(field@, value@)]);
                }
                self.storage.push((key.clone(), entry));
                proof {
                    let cur = self.entries();
                    assert(cur =~= pre.push((key@, cur.last().1)));
                    lemma_assoc_push(pre, key@, cur.last().1);
                    assert forall|p: int, q: int| 0 <= p < q < cur.len() implies (
                    #[trigger] cur[p]).0 != (#[trigger] cur[q]).0 by {
                        assert(cur[p].0 == pre[p].0);
                        if q < pre.len() {
                            assert(cur[q].0 == pre[q].0);
                        } else {
                            assert(cur[q].0 == key@);
                        }
                    }
                }
                Ok(true)
            }
            Option::Some(i) => {
                let (k0, entry) = self.storage.remove(i);
                let ghost removed = pre.remove(i as int);
                proof {
                    assert(self.entries() =~= removed);
                }
                match entry.value {
                    DbType::Hash(mut pairs) => {
                        let ghost hpre = pair_views(pairs@);
                        let fresh = match hash_pairs_pos(&pairs, field) {
                            Option::Some(p) => {
                                pairs[p] = (field.clone(), value.clone());
                                proof {
                                    assert(pair_views(pairs@) =~= hpre.update(
                                        p as int,
                                        (field@, value@),
                                    ));
                                    lemma_hash_update_at(hpre, p as int, field@, value@);
                                    lemma_assoc_skip(hpre, field@, p as int);
                                    assert(hpre.skip(p as int)[0] == hpre[p as int]);
                                }
                                false
                            }
                            Option::None => {
                                pairs.push((field.clone(), value.clone()));
                                proof {
                                    assert(pair_views(pairs@) =~= hpre.push((field@, value@)));
                                    lemma_hash_update_missing(hpre, field@, value@);
                                    lemma_assoc_none(hpre, field@);
                                }
                                true
                            }
                        };
                        let e2 = DbEntry {
                            value: DbType::Hash(pairs),
                            expiration: entry.expiration,
                        };
                        self.storage.insert(i, (k0, e2));
                        proof {
                            let cur = self.entries();
                            assert(cur =~= pre.update(i as int, (pre[i as int].0, cur[i as int].1)));
                            lemma_assoc_update(pre, i as int, cur[i as int].1);
                            assert forall|p: int, q: int| 0 <= p < q < cur.len() implies (
                            #[trigger] cur[p]).0 != (#[trigger] cur[q]).0 by {
                                assert(cur[p].0 == pre[p].0);
                                assert(cur[q].0 == pre[q].0);
                            }
                            assert(cur[i as int].1.value =~= ValueV::Hash(
                                hash_update(hpre, field@, value@),
                            ));
                        }
                        Ok(fresh)
                    }
                    other => {
                        self.storage.insert(i, (k0, DbEntry { value: other, expiration: entry.expiration }));
                        proof {
                            assert(self.entries() =~= pre);
                        }
                        Err(WrongType)
                    }
                }
            }
        };
        proof {
            assert(self.channels() =~= pre_ch);
            assert(self.patterns() =~= pre_pat);
        }
        match outcome {
            Result::Ok(fresh) => {
                let mut args: Vec<String> = Vec::new();
                args.push(key.clone());
                args.push(field.clone());
                args.push(value.clone());
                let cmd: String = String::from_str("hset");
                proof {
                    assert(args.deep_view() =~= seq![key@, field@, value@]);
                }
                let ghost mid = self.entries();
                propagate_aof(&mut self.aof, &cmd, &args);
                proof {
                    assert(self.entries() =~= mid);
                    assert(self.channels() =~= pre_ch);
                    assert(self.patterns() =~= pre_pat);
                }
                Ok(fresh)
            }
            Result::Err(e) => {
                proof {
                    assert(old(self).wal_pending() + Seq::<u8>::empty() =~= old(self).wal_pending());
                }
                Err(e)
            }
        }
    }

    /// Removes `field` from the hash at `key`.  True when the field was
    /// bound and is gone; an absent key removes nothing.  On a key of
    /// another type nothing changes and the wrong-type condition is
    /// reported.  A removal is recorded in the log.
    pub fn hash_del(&mut self, key: &String, field: &String) -> (r: Result<bool, WrongType>)
        requires
            old(self).wf(),
        ensures
            final(self).wf(),
            final(self).channels() == old(self).channels(),
            final(self).patterns() == old(self).patterns(),
            final(self).wal_enabled() == old(self).wal_enabled(),
            forall|k2: Seq<char>| k2 != key@ ==> final(self).spec_get(k2) == old(self).spec_get(k2),
            match old(self).spec_get(key@) {
                Option::None => r == Ok::<bool, WrongType>(false) && final(self).spec_get(key@)
                    is None,
                Option::Some(e) => match e.value {
                    ValueV::Hash(h) => r == Ok::<bool, WrongType>(
                        assoc_get(h, field@) is Some,
                    ) && final(self).spec_get(key@) == Option::Some(
                        EntryV {
                            value: ValueV::Hash(hash_remove(h, field@)),
                            expiration: e.expiration,
                        },
                    ),
                    _ => r == Err::<bool, WrongType>(WrongType) && final(self).spec_get(key@)
                        == old(self).spec_get(key@),
                },
            },
            final(self).wal_pending() == old(self).wal_pending() + (if r == Ok::<bool, WrongType>(
                true,
            ) {
                record_if(old(self).wal_enabled(), "hdel"@, seq![key@, field@])
            } else {
                Seq::<u8>::empty()
            }),
    {
        let ghost pre = self.entries();
        let ghost pre_ch = self.channels();
        let ghost pre_pat = self.patterns();
        let outcome: Result<bool, WrongType> = match self.find_key(key) {
            Option::None => Ok(false),
            Option::Some(i) => {
                let (k0, entry) = self.storage.remove(i);
                proof {
                    assert(self.entries() =~= pre.remove(i as int));
                }
                match entry.value {
                    DbType::Hash(mut pairs) => {
                        let ghost hpre = pair_views(pairs@);
                        let removed_field = match hash_pairs_pos(&pairs, field) {
                            Option::Some(p) => {
                                pairs.remove(p);
                                proof {
                                    assert(pair_views(pairs@) =~= hpre.remove(p as int));
                                    lemma_hash_remove_at(hpre, p as int, field@);
                                    lemma_assoc_skip(hpre, field@, p as int);
                                    assert(hpre.skip(p as int)[0] == hpre[p as int]);
                                }
                                true
                            }
                            Option::None => {
                                proof {
                                    lemma_hash_remove_missing(hpre, field@);
                                    lemma_assoc_none(hpre, field@);
                                }
                                false
                            }
                        };
                        let e2 = DbEntry {
                            value: DbType::Hash(pairs),
                            expiration: entry.expiration,
                        };
                        self.storage.insert(i, (k0, e2));
                        proof {
                            let cur = self.entries();
                            assert(cur =~= pre.update(i as int, (pre[i as int].0, cur[i as int].1)));
                            lemma_assoc_update(pre, i as int, cur[i as int].1);
                            assert forall|p: int, q: int| 0 <= p < q < cur.len() implies (
                            #[trigger] cur[p]).0 != (#[trigger] cur[q]).0 by {
                                assert(cur[p].0 == pre[p].0);
                                assert(cur[q].0 == pre[q].0);
                            }
                            assert(cur[i as int].1.value =~= ValueV::Hash(
                                hash_remove(hpre, field@),
                            ));
                        }
                        Ok(removed_field)
                    }
                    other => {
                        self.storage.insert(i, (k0, DbEntry { value: other, expiration: entry.expiration }));
                        proof {
                            assert(self.entries() =~= pre);
                        }
                        Err(WrongType)
                    }
                }
            }
        };
        proof {
            assert(self.channels() =~= pre_ch);
            assert(self.patterns() =~= pre_pat);
        }
        match outcome {
            Result::Ok(true) => {
                let mut args: Vec<String> = Vec::new();
                args.push(key.clone());
                args.push(field.clone());
                let cmd: String = String::from_str("hdel");
                proof {
                    assert(args.deep_view() =~= seq![key@, field@]);
                }
                let ghost mid = self.entries();
                propagate_aof(&mut self.aof, &cmd, &args);
                proof {
                    assert(self.entries() =~= mid);
                    assert(self.channels() =~= pre_ch);
                    assert(self.patterns() =~= pre_pat);
                }
                Ok(true)
            }
            Result::Ok(false) => {
                proof {
                    assert(old(self).wal_pending() + Seq::<u8>::empty() =~= old(self).wal_pending());
                }
                Ok(false)
            }
            Result::Err(e) => {
                proof {
                    assert(old(self).wal_pending() + Seq::<u8>::empty() =~= old(self).wal_pending());
                }
                Err(e)
            }
        }
    }
}

/// `l` with up to `n` occurrences of `v` removed, scanning from the head.
pub open spec fn lrem_fwd(l: Seq<Seq<char>>, v: Seq<char>, n: int) -> Seq<Seq<char>>
    decreases l.len(),
{
    if l.len() == 0 || n <= 0 {
        l
    } else if l[0] == v {
        lrem_fwd(l.skip(1), v, n - 1)
    } else {
        seq![l[0]] + lrem_fwd(l.skip(1), v, n)
    }
}

/// `l` with up to `n` occurrences of `v` removed, scanning from the tail.
pub open spec fn lrem_bwd(l: Seq<Seq<char>>, v: Seq<char>, n: int) -> Seq<Seq<char>>
    decreases l.len(),
{
    if l.len() == 0 || n <= 0 {
        l
    } else if l.last() == v {
        lrem_bwd(l.drop_last(), v, n - 1)
    } else {
        lrem_bwd(l.drop_last(), v, n).push(l.last())
    }
}

/// `l` with every occurrence of `v` removed.
pub open spec fn lrem_all(l: Seq<Seq<char>>, v: Seq<char>) -> Seq<Seq<char>>
    decreases l.len(),
{
    if l.len() == 0 {
        l
    } else if l[0] == v {
        lrem_all(l.skip(1), v)
    } else {
        seq![l[0]] + lrem_all(l.skip(1), v)
    }
}

/// An index into a list, interpreted as the protocol does: negative counts
/// from the tail, and the result is clamped to the list's range.
pub open spec fn clamp_index(x: int, len: int) -> int {
    let y = if x < 0 {
        len + x
    } else {
        x
    };
    if y < 0 {
        0
    } else if y > len - 1 {
        len - 1
    } else {
        y
    }
}

/// The protocol's list trim: keep the clamped inclusive range, or nothing
/// when the range is empty; an empty list stays empty.
pub open spec fn trim_spec(l: Seq<Seq<char>>, start: int, stop: int) -> Seq<Seq<char>> {
    if l.len() == 0 {
        l
    } else {
        let a = clamp_index(start, l.len() as int);
        let b = clamp_index(stop, l.len() as int);
        if a <= b {
            l.subrange(a, b + 1)
        } else {
            Seq::<Seq<char>>::empty()
        }
    }
}

/// The list a push produces: pushing to the front prepends the values in
/// reverse, pushing to the back appends them in order.
pub open spec fn push_spec(l: Seq<Seq<char>>, values: Seq<Seq<char>>, front: bool) -> Seq<
    Seq<char>,
> {
    if front {
        values.reverse() + l
    } else {
        l + values
    }
}

impl Db {
    /// Pushes `values` onto the list at `key`, one by one at the chosen
    /// end, creating the list when the key is absent.  Returns the list's
    /// length afterwards.  On a key of another type nothing changes and
    /// the wrong-type condition is reported.  The mutation is recorded in
    /// the log as one record.
    #[verifier::loop_isolation(false)]
    pub fn list_push(&mut self, key: &String, values: &Vec<String>, front: bool) -> (r: Result<
        usize,
        WrongType,
    >)
        requires
            old(self).wf(),
        ensures
            final(self).wf(),
            final(self).channels() == old(self).channels(),
            final(self).patterns() == old(self).patterns(),
            final(self).wal_enabled() == old(self).wal_enabled(),
            forall|k2: Seq<char>| k2 != key@ ==> final(self).spec_get(k2) == old(self).spec_get(k2),
            match old(self).spec_get(key@) {
                Option::None => (r matches Ok(n) && n == values@.len()) && final(self).spec_get(
                    key@,
                ) == Option::Some(
                    EntryV {
                        value: ValueV::List(
                            push_spec(Seq::<Seq<char>>::empty(), values.deep_view(), front),
                        ),
                        expiration: Option::None,
                    },
                ),
                Option::Some(e) => match e.value {
                    ValueV::List(l) => (r matches Ok(n) && n == l.len() + values@.len()) && final(self).spec_get(key@) == Option::Some(
                        EntryV {
                            value: ValueV::List(push_spec(l, values.deep_view(), front)),
                            expiration: e.expiration,
                        },
                    ),
                    _ => r == Err::<usize, WrongType>(WrongType) && final(self).spec_get(key@)
                        == old(self).spec_get(key@),
                },
            },
            final(self).wal_pending() == old(self).wal_pending() + (if r is Ok {
                record_if(
                    old(self).wal_enabled(),
                    if front {
                        "lpush"@
                    } else {
                        "rpush"@
                    },
                    seq![key@] + values.deep_view(),
                )
            } else {
                Seq::<u8>::empty()
            }),
    {
        let ghost pre = self.entries();
        let ghost pre_ch = self.channels();
        let ghost pre_pat = self.patterns();
        let outcome: Result<usize, WrongType> = match self.find_key(key) {
            Option::None => {
                let mut items: Vec<String> = Vec::new();
                proof {
                    assert(string_views(items@) =~= Seq::<Seq<char>>::empty());
                }
                push_values(&mut items, values, front);
                let n = items.len();
                let entry = DbEntry { value: DbType::List(items), expiration: None };
                proof {
                    assert(entry@.value->List_0 =~= push_spec(
                        Seq::<Seq<char>>::empty(),
                        values.deep_view(),
                        front,
                    ));
                    assert(push_spec(Seq::<Seq<char>>::empty(), values.deep_view(), front).len()
                        == values.deep_view().len());
                }
                self.storage.push((key.clone(), entry));
                proof {
                    let cur = self.entries();
                    assert(cur =~= pre.push((key@, cur.last().1)));
                    lemma_assoc_push(pre, key@, cur.last().1);
                    assert forall|p: int, q: int| 0 <= p < q < cur.len() implies (
                    #[trigger] cur[p]).0 != (#[trigger] cur[q]).0 by {
                        assert(cur[p].0 == pre[p].0);
                        if q < pre.len() {
                            assert(cur[q].0 == pre[q].0);
                        } else {
                            assert(cur[q].0 == key@);
                        }
                    }
                }
                Ok(n)
            }
            Option::Some(i) => {
                let (k0, entry) = self.storage.remove(i);
                proof {
                    assert(self.entries() =~= pre.remove(i as int));
                }
                match entry.value {
                    DbType::List(mut items) => {
                        let ghost l0 = string_views(items@);
                        proof {
                            assert(pre[i as int].1.value->List_0 =~= l0);
                        }
                        push_values(&mut items, values, front);
                        let n = items.len();
                        let e2 = DbEntry {
                            value: DbType::List(items),
                            expiration: entry.expiration,
                        };
                        self.storage.insert(i, (k0, e2));
                        proof {
                            let cur = self.entries();
                            assert(cur =~= pre.update(i as int, (pre[i as int].0, cur[i as int].1)));
                            lemma_assoc_update(pre, i as int, cur[i as int].1);
                            assert forall|p: int, q: int| 0 <= p < q < cur.len() implies (
                            #[trigger] cur[p]).0 != (#[trigger] cur[q]).0 by {
                                assert(cur[p].0 == pre[p].0);
                                assert(cur[q].0 == pre[q].0);
                            }
                            assert(cur[i as int].1.value =~= ValueV::List(
                                push_spec(l0, values.deep_view(), front),
                            ));
                            assert(push_spec(l0, values.deep_view(), front).len() == l0.len()
                                + values.deep_view().len());
                        }
                        Ok(n)
                    }
                    other => {
                        self.storage.insert(i, (k0, DbEntry { value: other, expiration: entry.expiration }));
                        proof {
                            assert(self.entries() =~= pre);
                        }
                        Err(WrongType)
                    }
                }
            }
        };
        proof {
            assert(self.channels() =~= pre_ch);
            assert(self.patterns() =~= pre_pat);
        }
        match outcome {
            Result::Ok(n) => {
                let mut args: Vec<String> = Vec::new();
                args.push(key.clone());
                let mut j: usize = 0;
                while j < values.len()
                    invariant
                        j <= values@.len(),
                        args.deep_view() =~= seq![key@] + values.deep_view().subrange(0, j as int),
                    decreases values@.len() - j,
                {
                    let ghost preargs = args.deep_view();
                    args.push(values[j].clone());
                    j = j + 1;
                    proof {
                        assert(args.deep_view() =~= preargs.push(values@[j - 1]@));
                        assert(values.deep_view()[j - 1] == values@[j - 1]@);
                        assert(values.deep_view().subrange(0, j as int)
                            =~= values.deep_view().subrange(0, j - 1).push(
                            values.deep_view()[j - 1],
                        ));
                        assert(args.deep_view() =~= seq![key@] + values.deep_view().subrange(
                            0,
                            j as int,
                        ));
                    }
                }
                proof {
                    assert(values.deep_view().subrange(0, values@.len() as int) =~= values.deep_view());
                    assert(args.deep_view() =~= seq![key@] + values.deep_view());
                }
                let cmd: String = if front {
                    String::from_str("lpush")
                } else {
                    String::from_str("rpush")
                };
                let ghost mid = self.entries();
                propagate_aof(&mut self.aof, &cmd, &args);
                proof {
                    assert(self.entries() =~= mid);
                    assert(self.channels() =~= pre_ch);
                    assert(self.patterns() =~= pre_pat);
                }
                Ok(n)
            }
            Result::Err(e) => {
                proof {
                    assert(old(self).wal_pending() + Seq::<u8>::empty() =~= old(self).wal_pending());
                }
                Err(e)
            }
        }
    }

    /// Pops one value off the list at `key` at the chosen end.  An absent
    /// key or an empty list pops nothing.  On a key of another type
    /// nothing changes and the wrong-type condition is reported.  A
    /// removal is recorded in the log.
    pub fn list_pop(&mut self, key: &String, front: bool) -> (r: Result<Option<String>, WrongType>)
        requires
            old(self).wf(),
        ensures
            final(self).wf(),
            final(self).channels() == old(self).channels(),
            final(self).patterns() == old(self).patterns(),
            final(self).wal_enabled() == old(self).wal_enabled(),
            forall|k2: Seq<char>| k2 != key@ ==> final(self).spec_get(k2) == old(self).spec_get(k2),
            match old(self).spec_get(key@) {
                Option::None => r == Ok::<Option<String>, WrongType>(Option::None) && final(self).spec_get(key@) is None,
                Option::Some(e) => match e.value {
                    ValueV::List(l) => if l.len() == 0 {
                        r == Ok::<Option<String>, WrongType>(Option::None) && final(self).spec_get(key@) == old(self).spec_get(key@)
                    } else {
                        (r matches Ok(Some(x)) && x@ == (if front {
                            l[0]
                        } else {
                            l.last()
                        })) && final(self).spec_get(key@) == Option::Some(
                            EntryV {
                                value: ValueV::List(
                                    if front {
                                        l.skip(1)
                                    } else {
                                        l.drop_last()
                                    },
                                ),
                                expiration: e.expiration,
                            },
                        )
                    },
                    _ => r == Err::<Option<String>, WrongType>(WrongType) && final(self).spec_get(
                        key@,
                    ) == old(self).spec_get(key@),
                },
            },
            final(self).wal_pending() == old(self).wal_pending() + (if r matches Ok(Some(_)) {
                record_if(
                    old(self).wal_enabled(),
                    if front {
                        "lpop"@
                    } else {
                        "rpop"@
                    },
                    seq![key@],
                )
            } else {
                Seq::<u8>::empty()
            }),
    {
        let ghost pre = self.entries();
        let ghost pre_ch = self.channels();
        let ghost pre_pat = self.patterns();
        let outcome: Result<Option<String>, WrongType> = match self.find_key(key) {
            Option::None => Ok(None),
            Option::Some(i) => {
                let (k0, entry) = self.storage.remove(i);
                proof {
                    assert(self.entries() =~= pre.remove(i as int));
                }
                match entry.value {
                    DbType::List(mut items) => {
                        let ghost lpre = string_views(items@);
                        let popped: Option<String> = if items.len() == 0 {
                            None
                        } else if front {
                            let x = items.remove(0);
                            proof {
                                assert(string_views(items@) =~= lpre.skip(1));
                            }
                            Some(x)
                        } else {
                            match items.pop() {
                                Option::Some(x) => {
                                    proof {
                                        assert(string_views(items@) =~= lpre.drop_last());
                                    }
                                    Some(x)
                                }
                                Option::None => None,
                            }
                        };
                        let e2 = DbEntry {
                            value: DbType::List(items),
                            expiration: entry.expiration,
                        };
                        self.storage.insert(i, (k0, e2));
                        proof {
                            let cur = self.entries();
                            assert(cur =~= pre.update(i as int, (pre[i as int].0, cur[i as int].1)));
                            lemma_assoc_update(pre, i as int, cur[i as int].1);
                            assert forall|p: int, q: int| 0 <= p < q < cur.len() implies (
                            #[trigger] cur[p]).0 != (#[trigger] cur[q]).0 by {
                                assert(cur[p].0 == pre[p].0);
                                assert(cur[q].0 == pre[q].0);
                            }
                            assert(pre[i as int].1.value->List_0 =~= lpre);
                            assert(cur[i as int].1.value =~= ValueV::List(string_views(items@)));
                        }
                        Ok(popped)
                    }
                    other => {
                        self.storage.insert(i, (k0, DbEntry { value: other, expiration: entry.expiration }));
                        proof {
                            assert(self.entries() =~= pre);
                        }
                        Err(WrongType)
                    }
                }
            }
        };
        proof {
            assert(self.channels() =~= pre_ch);
            assert(self.patterns() =~= pre_pat);
        }
        match outcome {
            Result::Ok(Option::Some(x)) => {
                let mut args: Vec<String> = Vec::new();
                args.push(key.clone());
                let cmd: String = if front {
                    String::from_str("lpop")
                } else {
                    String::from_str("rpop")
                };
                proof {
                    assert(args.deep_view() =~= seq![key@]);
                }
                let ghost mid = self.entries();
                propagate_aof(&mut self.aof, &cmd, &args);
                proof {
                    assert(self.entries() =~= mid);
                    assert(self.channels() =~= pre_ch);
                    assert(self.patterns() =~= pre_pat);
                }
                Ok(Some(x))
            }
            Result::Ok(Option::None) => {
                proof {
                    assert(old(self).wal_pending() + Seq::<u8>::empty() =~= old(self).wal_pending());
                }
                Ok(None)
            }
            Result::Err(e) => {
                proof {
                    assert(old(self).wal_pending() + Seq::<u8>::empty() =~= old(self).wal_pending());
                }
                Err(e)
            }
        }
    }
}

/// Pushes each of `values` in order onto one end of `items`.
#[verifier::loop_isolation(false)]
fn push_values(items: &mut Vec<String>, values: &Vec<String>, front: bool)
    ensures
        string_views(final(items)@) == push_spec(
            string_views(old(items)@),
            values.deep_view(),
            front,
        ),
{
    let ghost l0 = string_views(items@);
    let ghost vs = values.deep_view();
    let mut j: usize = 0;
    while j < values.len()
        invariant
            j <= values@.len(),
            vs == values.deep_view(),
            string_views(items@) == push_spec(l0, vs.subrange(0, j as int), front),
        decreases values@.len() - j,
    {
        let ghost mid = string_views(items@);
        if front {
            items.insert(0, values[j].clone());
            proof {
                assert(string_views(items@) =~= seq![vs[j as int]] + mid);
                assert(vs.subrange(0, j + 1).reverse() =~= seq![vs[j as int]] + vs.subrange(
                    0,
                    j as int,
                ).reverse());
                assert(string_views(items@) =~= push_spec(l0, vs.subrange(0, j + 1), front));
            }
        } else {
            items.push(values[j].clone());
            proof {
                assert(string_views(items@) =~= mid.push(vs[j as int]));
                assert(l0 + vs.subrange(0, j + 1) =~= (l0 + vs.subrange(0, j as int)).push(
                    vs[j as int],
                ));
            }
        }
        j = j + 1;
    }
    proof {
        assert(vs.subrange(0, vs.len() as int) =~= vs);
        if front {
            assert(string_views(items@) =~= push_spec(l0, vs, front));
        } else {
            assert(string_views(items@) =~= push_spec(l0, vs, front));
        }
    }
}

impl Db {
    /// Sets the element at `index` of the list at `key`.  True when the
    /// index is in range; out of range nothing changes.  On an absent key
    /// or a key of another type nothing changes and the wrong-type
    /// condition is reported.  An in-range set is recorded in the log.
    pub fn list_set(&mut self, key: &String, index: i64, value: &String) -> (r: Result<
        bool,
        WrongType,
    >)
        requires
            old(self).wf(),
        ensures
            final(self).wf(),
            final(self).channels() == old(self).channels(),
            final(self).patterns() == old(self).patterns(),
            final(self).wal_enabled() == old(self).wal_enabled(),
            forall|k2: Seq<char>| k2 != key@ ==> final(self).spec_get(k2) == old(self).spec_get(k2),
            match old(self).spec_get(key@) {
                Option::None => r == Err::<bool, WrongType>(WrongType) && final(self).spec_get(
                    key@,
                ) is None,
                Option::Some(e) => match e.value {
                    ValueV::List(l) => if 0 <= index < l.len() {
                        r == Ok::<bool, WrongType>(true) && final(self).spec_get(key@)
                            == Option::Some(
                            EntryV {
                                value: ValueV::List(l.update(index as int, value@)),
                                expiration: e.expiration,
                            },
                        )
                    } else {
                        r == Ok::<bool, WrongType>(false) && final(self).spec_get(key@) == old(self).spec_get(key@)
                    },
                    _ => r == Err::<bool, WrongType>(WrongType) && final(self).spec_get(key@)
                        == old(self).spec_get(key@),
                },
            },
            final(self).wal_pending() == old(self).wal_pending() + (if r == Ok::<bool, WrongType>(
                true,
            ) {
                record_if(
                    old(self).wal_enabled(),
                    "lset"@,
                    seq![key@, crate::frame::dec_chars_int(index as int), value@],
                )
            } else {
                Seq::<u8>::empty()
            }),
    {
        let ghost pre = self.entries();
        let ghost pre_ch = self.channels();
        let ghost pre_pat = self.patterns();
        let outcome: Result<bool, WrongType> = match self.find_key(key) {
            Option::None => Err(WrongType),
            Option::Some(i) => {
                let (k0, entry) = self.storage.remove(i);
                proof {
                    assert(self.entries() =~= pre.remove(i as int));
                }
                match entry.value {
                    DbType::List(mut items) => {
                        let ghost lpre = string_views(items@);
                        proof {
                            assert(pre[i as int].1.value->List_0 =~= lpre);
                        }
                        let hit = if index >= 0 && (index as u64) < items.len() as u64 {
                            let iu: usize = index as usize;
                            items[iu] = value.clone();
                            proof {
                                assert(string_views(items@) =~= lpre.update(iu as int, value@));
                            }
                            true
                        } else {
                            false
                        };
                        let e2 = DbEntry {
                            value: DbType::List(items),
                            expiration: entry.expiration,
                        };
                        self.storage.insert(i, (k0, e2));
                        proof {
                            let cur = self.entries();
                            assert(cur =~= pre.update(i as int, (pre[i as int].0, cur[i as int].1)));
                            lemma_assoc_update(pre, i as int, cur[i as int].1);
                            assert forall|p: int, q: int| 0 <= p < q < cur.len() implies (
                            #[trigger] cur[p]).0 != (#[trigger] cur[q]).0 by {
                                assert(cur[p].0 == pre[p].0);
                                assert(cur[q].0 == pre[q].0);
                            }
                            assert(cur[i as int].1.value =~= ValueV::List(string_views(items@)));
                        }
                        Ok(hit)
                    }
                    other => {
                        self.storage.insert(i, (k0, DbEntry { value: other, expiration: entry.expiration }));
                        proof {
                            assert(self.entries() =~= pre);
                        }
                        Err(WrongType)
                    }
                }
            }
        };
        proof {
            assert(self.channels() =~= pre_ch);
            assert(self.patterns() =~= pre_pat);
        }
        match outcome {
            Result::Ok(true) => {
                let mut args: Vec<String> = Vec::new();
                args.push(key.clone());
                args.push(crate::frame::i64_to_string(index));
                args.push(value.clone());
                let cmd: String = String::from_str("lset");
                proof {
                    assert(args.deep_view() =~= seq![
                        key@,
                        crate::frame::dec_chars_int(index as int),
                        value@,
                    ]);
                }
                let ghost mid = self.entries();
                propagate_aof(&mut self.aof, &cmd, &args);
                proof {
                    assert(self.entries() =~= mid);
                    assert(self.channels() =~= pre_ch);
                    assert(self.patterns() =~= pre_pat);
                }
                Ok(true)
            }
            Result::Ok(false) => {
                proof {
                    assert(old(self).wal_pending() + Seq::<u8>::empty() =~= old(self).wal_pending());
                }
                Ok(false)
            }
            Result::Err(e) => {
                proof {
                    assert(old(self).wal_pending() + Seq::<u8>::empty() =~= old(self).wal_pending());
                }
                Err(e)
            }
        }
    }

    /// Trims the list at `key` to the clamped inclusive range, returning
    /// the length that remains.  On an absent key or a key of another
    /// type nothing changes and the wrong-type condition is reported.
    /// The mutation is recorded in the log.
    #[verifier::loop_isolation(false)]
    pub fn list_trim(&mut self, key: &String, start: i64, stop: i64) -> (r: Result<
        usize,
        WrongType,
    >)
        requires
            old(self).wf(),
        ensures
            final(self).wf(),
            final(self).channels() == old(self).channels(),
            final(self).patterns() == old(self).patterns(),
            final(self).wal_enabled() == old(self).wal_enabled(),
            forall|k2: Seq<char>| k2 != key@ ==> final(self).spec_get(k2) == old(self).spec_get(k2),
            match old(self).spec_get(key@) {
                Option::None => r == Err::<usize, WrongType>(WrongType) && final(self).spec_get(
                    key@,
                ) is None,
                Option::Some(e) => match e.value {
                    ValueV::List(l) => (r matches Ok(n) && n == trim_spec(
                        l,
                        start as int,
                        stop as int,
                    ).len()) && final(self).spec_get(key@) == Option::Some(
                        EntryV {
                            value: ValueV::List(trim_spec(l, start as int, stop as int)),
                            expiration: e.expiration,
                        },
                    ),
                    _ => r == Err::<usize, WrongType>(WrongType) && final(self).spec_get(key@)
                        == old(self).spec_get(key@),
                },
            },
            final(self).wal_pending() == old(self).wal_pending() + (if r is Ok {
                record_if(
                    old(self).wal_enabled(),
                    "ltrim"@,
                    seq![
                        key@,
                        crate::frame::dec_chars_int(start as int),
                        crate::frame::dec_chars_int(stop as int),
                    ],
                )
            } else {
                Seq::<u8>::empty()
            }),
    {
        let ghost pre = self.entries();
        let ghost pre_ch = self.channels();
        let ghost pre_pat = self.patterns();
        let outcome: Result<usize, WrongType> = match self.find_key(key) {
            Option::None => Err(WrongType),
            Option::Some(i) => {
                let (k0, entry) = self.storage.remove(i);
                proof {
                    assert(self.entries() =~= pre.remove(i as int));
                }
                match entry.value {
                    DbType::List(items) => {
                        let ghost lpre = string_views(items@);
                        proof {
                            assert(pre[i as int].1.value->List_0 =~= lpre);
                        }
                        let kept = trim_range(items.len(), start, stop);
                        let items2: Vec<String> = items;
                        let result: Vec<String> = match kept {
                            Option::Some(ab) => {
                                let mut out: Vec<String> = Vec::new();
                                let mut j: usize = ab.0;
                                while j <= ab.1
                                    invariant
                                        ab.0 <= j <= ab.1 + 1,
                                        ab.1 < items2@.len(),
                                        string_views(out@) == string_views(items2@).subrange(
                                            ab.0 as int,
                                            j as int,
                                        ),
                                    decreases ab.1 + 1 - j,
                                {
                                    let ghost preout = string_views(out@);
                                    out.push(items2[j].clone());
                                    j = j + 1;
                                    proof {
                                        assert(string_views(out@) =~= string_views(
                                            items2@,
                                        ).subrange(ab.0 as int, j as int));
                                    }
                                }
                                out
                            }
                            Option::None => Vec::new(),
                        };
                        proof {
                            match kept {
                                Option::Some(ab) => {
                                    assert(string_views(result@) =~= trim_spec(
                                        lpre,
                                        start as int,
                                        stop as int,
                                    ));
                                }
                                Option::None => {
                                    assert(string_views(result@) =~= trim_spec(
                                        lpre,
                                        start as int,
                                        stop as int,
                                    ));
                                }
                            }
                        }
                        let n2 = result.len();
                        let e2 = DbEntry {
                            value: DbType::List(result),
                            expiration: entry.expiration,
                        };
                        self.storage.insert(i, (k0, e2));
                        proof {
                            let cur = self.entries();
                            assert(cur =~= pre.update(i as int, (pre[i as int].0, cur[i as int].1)));
                            lemma_assoc_update(pre, i as int, cur[i as int].1);
                            assert forall|p: int, q: int| 0 <= p < q < cur.len() implies (
                            #[trigger] cur[p]).0 != (#[trigger] cur[q]).0 by {
                                assert(cur[p].0 == pre[p].0);
                                assert(cur[q].0 == pre[q].0);
                            }
                            assert(cur[i as int].1.value =~= ValueV::List(
                                trim_spec(lpre, start as int, stop as int),
                            ));
                        }
                        Ok(n2)
                    }
                    other => {
                        self.storage.insert(i, (k0, DbEntry { value: other, expiration: entry.expiration }));
                        proof {
                            assert(self.entries() =~= pre);
                        }
                        Err(WrongType)
                    }
                }
            }
        };
        proof {
            assert(self.channels() =~= pre_ch);
            assert(self.patterns() =~= pre_pat);
        }
        match outcome {
            Result::Ok(n) => {
                let mut args: Vec<String> = Vec::new();
                args.push(key.clone());
                args.push(crate::frame::i64_to_string(start));
                args.push(crate::frame::i64_to_string(stop));
                let cmd: String = String::from_str("ltrim");
                proof {
                    assert(args.deep_view() =~= seq![
                        key@,
                        crate::frame::dec_chars_int(start as int),
                        crate::frame::dec_chars_int(stop as int),
                    ]);
                }
                let ghost mid = self.entries();
                propagate_aof(&mut self.aof, &cmd, &args);
                proof {
                    assert(self.entries() =~= mid);
                    assert(self.channels() =~= pre_ch);
                    assert(self.patterns() =~= pre_pat);
                }
                Ok(n)
            }
            Result::Err(e) => {
                proof {
                    assert(old(self).wal_pending() + Seq::<u8>::empty() =~= old(self).wal_pending());
                }
                Err(e)
            }
        }
    }
}

/// The clamped inclusive range a trim keeps, if it keeps anything.
fn trim_range(len: usize, start: i64, stop: i64) -> (r: Option<(usize, usize)>)
    ensures
        match r {
            Option::Some(ab) => len > 0 && ab.0 == clamp_index(start as int, len as int) && ab.1
                == clamp_index(stop as int, len as int) && ab.0 <= ab.1 < len,
            Option::None => len == 0 || clamp_index(start as int, len as int) > clamp_index(
                stop as int,
                len as int,
            ),
        },
{
    if len == 0 {
        return None;
    }
    let n: i128 = len as i128;
    let a0: i128 = if start < 0 {
        n + start as i128
    } else {
        start as i128
    };
    let b0: i128 = if stop < 0 {
        n + stop as i128
    } else {
        stop as i128
    };
    let a: i128 = if a0 < 0 {
        0
    } else if a0 > n - 1 {
        n - 1
    } else {
        a0
    };
    let b: i128 = if b0 < 0 {
        0
    } else if b0 > n - 1 {
        n - 1
    } else {
        b0
    };
    if a <= b {
        Some((a as usize, b as usize))
    } else {
        None
    }
}

/// The list after a removal pass with the protocol's count convention:
/// zero removes every occurrence, a positive count removes from the head,
/// a negative count removes from the tail.
pub open spec fn lrem_spec(l: Seq<Seq<char>>, count: int, v: Seq<char>) -> Seq<Seq<char>> {
    if count == 0 {
        lrem_all(l, v)
    } else if count > 0 {
        lrem_fwd(l, v, count)
    } else {
        lrem_bwd(l, v, -count)
    }
}

/// Removes occurrences of `value` from `items` per the count convention.
#[verifier::loop_isolation(false)]
fn lrem_apply(items: &mut Vec<String>, count: i64, value: &String)
    ensures
        string_views(final(items)@) == lrem_spec(string_views(old(items)@), count as int, value@),
{
    let ghost l0 = string_views(items@);
    let ghost v = value@;
    if count == 0 {
        let mut i: usize = 0;
        proof {
            assert(string_views(items@).take(0) =~= Seq::<Seq<char>>::empty());
            assert(string_views(items@).skip(0) =~= string_views(items@));
        }
        while i < items.len()
            invariant
                0 <= i <= items@.len(),
                lrem_all(l0, v) == string_views(items@).take(i as int) + lrem_all(
                    string_views(items@).skip(i as int),
                    v,
                ),
            decreases items@.len() - i,
        {
            let ghost cur = string_views(items@);
            proof {
                assert(cur.skip(i as int)[0] == cur[i as int]);
                assert(cur[i as int] == items@[i as int]@);
            }
            if items[i] == *value {
                items.remove(i);
                proof {
                    let nxt = string_views(items@);
                    assert(nxt =~= cur.remove(i as int));
                    assert(nxt.take(i as int) =~= cur.take(i as int));
                    assert(nxt.skip(i as int) =~= cur.skip(i as int).skip(1));
                }
            } else {
                proof {
                    assert(lrem_all(cur.skip(i as int), v) == seq![cur[i as int]] + lrem_all(
                        cur.skip(i + 1),
                        v,
                    )) by {
                        assert(cur.skip(i as int).skip(1) =~= cur.skip(i + 1));
                    }
                    assert(cur.take(i + 1) =~= cur.take(i as int).push(cur[i as int]));
                    assert(cur.take(i as int) + (seq![cur[i as int]] + lrem_all(cur.skip(i + 1), v))
                        =~= cur.take(i + 1) + lrem_all(cur.skip(i + 1), v));
                }
                i = i + 1;
            }
        }
        proof {
            let cur = string_views(items@);
            assert(cur.take(i as int) =~= cur);
            assert(cur.skip(i as int) =~= Seq::<Seq<char>>::empty());
        }
    } else if count > 0 {
        let mut i: usize = 0;
        let mut m: u64 = count as u64;
        proof {
            assert(string_views(items@).take(0) =~= Seq::<Seq<char>>::empty());
            assert(string_views(items@).skip(0) =~= string_views(items@));
        }
        while i < items.len() && m > 0
            invariant
                0 <= i <= items@.len(),
                lrem_fwd(l0, v, count as int) == string_views(items@).take(i as int) + lrem_fwd(
                    string_views(items@).skip(i as int),
                    v,
                    m as int,
                ),
            decreases items@.len() - i, m,
        {
            let ghost cur = string_views(items@);
            proof {
                assert(cur.skip(i as int)[0] == cur[i as int]);
                assert(cur[i as int] == items@[i as int]@);
            }
            if items[i] == *value {
                items.remove(i);
                m = m - 1;
                proof {
                    let nxt = string_views(items@);
                    assert(nxt =~= cur.remove(i as int));
                    assert(nxt.take(i as int) =~= cur.take(i as int));
                    assert(nxt.skip(i as int) =~= cur.skip(i as int).skip(1));
                }
            } else {
                proof {
                    assert(lrem_fwd(cur.skip(i as int), v, m as int) == seq![cur[i as int]]
                        + lrem_fwd(cur.skip(i + 1), v, m as int)) by {
                        assert(cur.skip(i as int).skip(1) =~= cur.skip(i + 1));
                    }
                    assert(cur.take(i + 1) =~= cur.take(i as int).push(cur[i as int]));
                    assert(cur.take(i as int) + (seq![cur[i as int]] + lrem_fwd(
                        cur.skip(i + 1),
                        v,
                        m as int,
                    )) =~= cur.take(i + 1) + lrem_fwd(cur.skip(i + 1), v, m as int));
                }
                i = i + 1;
            }
        }
        proof {
            let cur = string_views(items@);
            if i == items@.len() {
                assert(cur.take(i as int) =~= cur);
                assert(cur.skip(i as int) =~= Seq::<Seq<char>>::empty());
            } else {
                assert(lrem_fwd(cur.skip(i as int), v, 0) == cur.skip(i as int));
                assert(cur.take(i as int) + cur.skip(i as int) =~= cur);
            }
        }
    } else {
        let mut m: u64 = if count == i64::MIN {
            9223372036854775808u64
        } else {
            (-count) as u64
        };
        let mut i: usize = items.len();
        proof {
            assert(string_views(items@).take(i as int) =~= string_views(items@));
            assert(string_views(items@).skip(i as int) =~= Seq::<Seq<char>>::empty());
        }
        while i > 0 && m > 0
            invariant
                0 <= i <= items@.len(),
                lrem_bwd(l0, v, -(count as int)) == lrem_bwd(
                    string_views(items@).take(i as int),
                    v,
                    m as int,
                ) + string_views(items@).skip(i as int),
            decreases i,
        {
            let ghost cur = string_views(items@);
            proof {
                assert(cur.take(i as int).last() == cur[i - 1]);
                assert(cur.take(i as int).drop_last() =~= cur.take(i - 1));
                assert(cur[i - 1] == items@[i - 1]@);
            }
            if items[i - 1] == *value {
                items.remove(i - 1);
                m = m - 1;
                proof {
                    let nxt = string_views(items@);
                    assert(nxt =~= cur.remove(i - 1));
                    assert(nxt.take(i - 1) =~= cur.take(i - 1));
                    assert(nxt.skip(i - 1) =~= cur.skip(i as int));
                }
            } else {
                proof {
                    assert(lrem_bwd(cur.take(i as int), v, m as int) == lrem_bwd(
                        cur.take(i - 1),
                        v,
                        m as int,
                    ).push(cur[i - 1]));
                    assert(lrem_bwd(cur.take(i - 1), v, m as int).push(cur[i - 1]) + cur.skip(
                        i as int,
                    ) =~= lrem_bwd(cur.take(i - 1), v, m as int) + cur.skip(i - 1)) by {
                        assert(cur.skip(i - 1) =~= seq![cur[i - 1]] + cur.skip(i as int));
                    }
                }
            }
            i = i - 1;
        }
        proof {
            let cur = string_views(items@);
            if i == 0 {
                assert(cur.take(0) =~= Seq::<Seq<char>>::empty());
                assert(lrem_bwd(Seq::<Seq<char>>::empty(), v, m as int) == Seq::<Seq<char>>::empty());
                assert(cur.skip(0) =~= cur);
                assert(Seq::<Seq<char>>::empty() + cur =~= cur);
            } else {
                assert(lrem_bwd(cur.take(i as int), v, 0) == cur.take(i as int));
                assert(cur.take(i as int) + cur.skip(i as int) =~= cur);
            }
        }
    }
}

impl Db {
    /// Removes occurrences of `value` from the list at `key`: all of them
    /// when `count` is zero, up to `count` scanning from the head when
    /// positive, up to `-count` scanning from the tail when negative.
    /// Returns how many left.  On an absent key or a key of another type
    /// nothing changes and the wrong-type condition is reported.  The
    /// pass is recorded in the log with the original count, so replay
    /// removes the same elements.
    pub fn list_rem(&mut self, key: &String, count: i64, value: &String) -> (r: Result<
        usize,
        WrongType,
    >)
        requires
            old(self).wf(),
        ensures
            final(self).wf(),
            final(self).channels() == old(self).channels(),
            final(self).patterns() == old(self).patterns(),
            final(self).wal_enabled() == old(self).wal_enabled(),
            forall|k2: Seq<char>| k2 != key@ ==> final(self).spec_get(k2) == old(self).spec_get(k2),
            match old(self).spec_get(key@) {
                Option::None => r == Err::<usize, WrongType>(WrongType) && final(self).spec_get(
                    key@,
                ) is None,
                Option::Some(e) => match e.value {
                    ValueV::List(l) => (r matches Ok(n) && n == l.len() - lrem_spec(
                        l,
                        count as int,
                        value@,
                    ).len()) && final(self).spec_get(key@) == Option::Some(
                        EntryV {
                            value: ValueV::List(lrem_spec(l, count as int, value@)),
                            expiration: e.expiration,
                        },
                    ),
                    _ => r == Err::<usize, WrongType>(WrongType) && final(self).spec_get(key@)
                        == old(self).spec_get(key@),
                },
            },
            final(self).wal_pending() == old(self).wal_pending() + (if r is Ok {
                record_if(
                    old(self).wal_enabled(),
                    "lrem"@,
                    seq![key@, crate::frame::dec_chars_int(count as int), value@],
                )
            } else {
                Seq::<u8>::empty()
            }),
    {
        let ghost pre = self.entries();
        let ghost pre_ch = self.channels();
        let ghost pre_pat = self.patterns();
        let outcome: Result<usize, WrongType> = match self.find_key(key) {
            Option::None => Err(WrongType),
            Option::Some(i) => {
                let (k0, entry) = self.storage.remove(i);
                proof {
                    assert(self.entries() =~= pre.remove(i as int));
                }
                match entry.value {
                    DbType::List(mut items) => {
                        let ghost lpre = string_views(items@);
                        proof {
                            assert(pre[i as int].1.value->List_0 =~= lpre);
                            lemma_lrem_spec_len(lpre, count as int, value@);
                        }
                        let before = items.len();
                        lrem_apply(&mut items, count, value);
                        let removed = before - items.len();
                        let e2 = DbEntry {
                            value: DbType::List(items),
                            expiration: entry.expiration,
                        };
                        self.storage.insert(i, (k0, e2));
                        proof {
                            let cur = self.entries();
                            assert(cur =~= pre.update(i as int, (pre[i as int].0, cur[i as int].1)));
                            lemma_assoc_update(pre, i as int, cur[i as int].1);
                            assert forall|p: int, q: int| 0 <= p < q < cur.len() implies (
                            #[trigger] cur[p]).0 != (#[trigger] cur[q]).0 by {
                                assert(cur[p].0 == pre[p].0);
                                assert(cur[q].0 == pre[q].0);
                            }
                            assert(cur[i as int].1.value =~= ValueV::List(
                                lrem_spec(lpre, count as int, value@),
                            ));
                        }
                        Ok(removed)
                    }
                    other => {
                        self.storage.insert(i, (k0, DbEntry { value: other, expiration: entry.expiration }));
                        proof {
                            assert(self.entries() =~= pre);
                        }
                        Err(WrongType)
                    }
                }
            }
        };
        proof {
            assert(self.channels() =~= pre_ch);
            assert(self.patterns() =~= pre_pat);
        }
        match outcome {
            Result::Ok(n) => {
                let mut args: Vec<String> = Vec::new();
                args.push(key.clone());
                args.push(crate::frame::i64_to_string(count));
                args.push(value.clone());
                let cmd: String = String::from_str("lrem");
                proof {
                    assert(args.deep_view() =~= seq![
                        key@,
                        crate::frame::dec_chars_int(count as int),
                        value@,
                    ]);
                }
                let ghost mid = self.entries();
                propagate_aof(&mut self.aof, &cmd, &args);
                proof {
                    assert(self.entries() =~= mid);
                    assert(self.channels() =~= pre_ch);
                    assert(self.patterns() =~= pre_pat);
                }
                Ok(n)
            }
            Result::Err(e) => {
                proof {
                    assert(old(self).wal_pending() + Seq::<u8>::empty() =~= old(self).wal_pending());
                }
                Err(e)
            }
        }
    }
}

/// A removal pass never lengthens the list.
pub proof fn lemma_lrem_spec_len(l: Seq<Seq<char>>, count: int, v: Seq<char>)
    ensures
        lrem_spec(l, count, v).len() <= l.len(),
{
    if count == 0 {
        lemma_lrem_all_len(l, v);
    } else if count > 0 {
        lemma_lrem_fwd_len(l, v, count);
    } else {
        lemma_lrem_bwd_len(l, v, -count);
    }
}

proof fn lemma_lrem_all_len(l: Seq<Seq<char>>, v: Seq<char>)
    ensures
        lrem_all(l, v).len() <= l.len(),
    decreases l.len(),
{
    if l.len() > 0 {
        lemma_lrem_all_len(l.skip(1), v);
    }
}

proof fn lemma_lrem_fwd_len(l: Seq<Seq<char>>, v: Seq<char>, n: int)
    ensures
        lrem_fwd(l, v, n).len() <= l.len(),
    decreases l.len(),
{
    if l.len() > 0 && n > 0 {
        lemma_lrem_fwd_len(l.skip(1), v, n);
        lemma_lrem_fwd_len(l.skip(1), v, n - 1);
    }
}

proof fn lemma_lrem_bwd_len(l: Seq<Seq<char>>, v: Seq<char>, n: int)
    ensures
        lrem_bwd(l, v, n).len() <= l.len(),
    decreases l.len(),
{
    if l.len() > 0 && n > 0 {
        lemma_lrem_bwd_len(l.drop_last(), v, n);
        lemma_lrem_bwd_len(l.drop_last(), v, n - 1);
    }
}

/// `base` with every pair of `adds` applied in order, each updating its
/// field in place or appending it.
pub open spec fn hash_extend(
    base: Seq<(Seq<char>, Seq<char>)>,
    adds: Seq<(Seq<char>, Seq<char>)>,
) -> Seq<(Seq<char>, Seq<char>)>
    decreases adds.len(),
{
    if adds.len() == 0 {
        base
    } else {
        hash_extend(hash_update(base, adds[0].0, adds[0].1), adds.skip(1))
    }
}

/// The entry a snapshot record leaves under its key: lists and hashes
/// merge into an existing value of the same type, which keeps its own
/// expiration; anything else replaces the entry outright.
pub open spec fn merge_entry(old_e: Option<EntryV>, v: ValueV, exp: Option<u64>) -> EntryV {
    match old_e {
        Option::Some(e) => match (e.value, v) {
            (ValueV::List(l0), ValueV::List(l)) => EntryV {
                value: ValueV::List(l0 + l),
                expiration: e.expiration,
            },
            (ValueV::Hash(h0), ValueV::Hash(h)) => EntryV {
                value: ValueV::Hash(hash_extend(h0, h)),
                expiration: e.expiration,
            },
            _ => EntryV { value: v, expiration: exp },
        },
        Option::None => EntryV { value: v, expiration: exp },
    }
}

/// Sets `field` to `value` among `pairs`, first match in place or a fresh
/// binding at the end.
fn hash_pairs_put(pairs: &mut Vec<(String, String)>, field: &String, value: &String)
    ensures
        pair_views(final(pairs)@) == hash_update(pair_views(old(pairs)@), field@, value@),
{
    let ghost hpre = pair_views(pairs@);
    match hash_pairs_pos(pairs, field) {
        Option::Some(p) => {
            pairs[p] = (field.clone(), value.clone());
            proof {
                assert(pair_views(pairs@) =~= hpre.update(p as int, (field@, value@)));
                lemma_hash_update_at(hpre, p as int, field@, value@);
            }
        }
        Option::None => {
            pairs.push((field.clone(), value.clone()));
            proof {
                assert(pair_views(pairs@) =~= hpre.push((field@, value@)));
                lemma_hash_update_missing(hpre, field@, value@);
            }
        }
    }
}

impl Db {
    /// How many entries the store physically holds.
    pub fn entry_count(&self) -> (r: usize)
        ensures
            r == self.entries().len(),
    {
        self.storage.len()
    }

    /// The entry at position `i`, in storage order; the snapshot walks
    /// the store with this.
    pub fn entry_at(&self, i: usize) -> (r: &(String, DbEntry))
        requires
            i < self.entries().len(),
        ensures
            r.0@ == self.entries()[i as int].0,
            r.1@ == self.entries()[i as int].1,
    {
        &self.storage[i]
    }

    /// Lays a loaded snapshot record into the store: lists and hashes
    /// extend an existing value of the same type rather than clobber it,
    /// so a snapshot can be layered over a replayed log; everything else
    /// replaces the entry.  Nothing is recorded in the log.
    #[verifier::loop_isolation(false)]
    pub fn merge_absolute(&mut self, key: &String, value: DbType, expire_at: Option<u64>)
        requires
            old(self).wf(),
        ensures
            final(self).wf(),
            final(self).spec_get(key@) == Option::Some(
                merge_entry(old(self).spec_get(key@), value@, expire_at),
            ),
            forall|k2: Seq<char>| k2 != key@ ==> final(self).spec_get(k2) == old(self).spec_get(k2),
            final(self).channels() == old(self).channels(),
            final(self).patterns() == old(self).patterns(),
            final(self).wal_enabled() == old(self).wal_enabled(),
            final(self).wal_pending() == old(self).wal_pending(),
    {
        let ghost pre = self.entries();
        let ghost pre_ch = self.channels();
        let ghost pre_pat = self.patterns();
        match self.find_key(key) {
            Option::None => {
                self.store_entry(key, value, expire_at);
            }
            Option::Some(i) => {
                let (k0, entry) = self.storage.remove(i);
                proof {
                    assert(self.entries() =~= pre.remove(i as int));
                }
                match (entry.value, value) {
                    (DbType::List(mut l0), DbType::List(l)) => {
                        let ghost v0 = string_views(l0@);
                        let ghost lv = string_views(l@);
                        proof {
                            assert(pre[i as int].1.value->List_0 =~= v0);
                        }
                        let mut j: usize = 0;
                        proof {
                            assert(string_views(l0@) =~= v0 + lv.subrange(0, 0));
                        }
                        while j < l.len()
                            invariant
                                j <= l@.len(),
                                string_views(l0@) == v0 + lv.subrange(0, j as int),
                            decreases l@.len() - j,
                        {
                            let ghost mid = string_views(l0@);
                            l0.push(l[j].clone());
                            j = j + 1;
                            proof {
                                assert(lv[j - 1] == l@[j - 1]@);
                                assert(string_views(l0@) =~= mid.push(lv[j - 1]));
                                assert(string_views(l0@) =~= v0 + lv.subrange(0, j as int));
                            }
                        }
                        proof {
                            assert(lv.subrange(0, lv.len() as int) =~= lv);
                        }
                        let e2 = DbEntry { value: DbType::List(l0), expiration: entry.expiration };
                        self.storage.insert(i, (k0, e2));
                        proof {
                            let cur = self.entries();
                            assert(cur =~= pre.update(i as int, (pre[i as int].0, cur[i as int].1)));
                            lemma_assoc_update(pre, i as int, cur[i as int].1);
                            assert forall|p: int, q: int| 0 <= p < q < cur.len() implies (
                            #[trigger] cur[p]).0 != (#[trigger] cur[q]).0 by {
                                assert(cur[p].0 == pre[p].0);
                                assert(cur[q].0 == pre[q].0);
                            }
                            assert(cur[i as int].1.value =~= ValueV::List(v0 + lv));
                        }
                    }
                    (DbType::Hash(mut h0), DbType::Hash(h)) => {
                        let ghost b0 = pair_views(h0@);
                        let ghost hv = pair_views(h@);
                        proof {
                            assert(pre[i as int].1.value->Hash_0 =~= b0);
                        }
                        let mut j: usize = 0;
                        proof {
                            assert(hv.skip(0) =~= hv);
                        }
                        while j < h.len()
                            invariant
                                j <= h@.len(),
                                hash_extend(b0, hv) == hash_extend(
                                    pair_views(h0@),
                                    hv.skip(j as int),
                                ),
                            decreases h@.len() - j,
                        {
                            let ghost mid = pair_views(h0@);
                            let fv = &h[j];
                            hash_pairs_put(&mut h0, &fv.0, &fv.1);
                            proof {
                                assert(hv.skip(j as int)[0] == hv[j as int]);
                                assert(hv[j as int] == (h@[j as int].0@, h@[j as int].1@));
                                assert(pair_views(h0@) == hash_update(
                                    mid,
                                    hv[j as int].0,
                                    hv[j as int].1,
                                ));
                                assert(hv.skip(j as int).skip(1) =~= hv.skip(j + 1));
                            }
                            j = j + 1;
                        }
                        proof {
                            assert(hv.skip(h@.len() as int) =~= Seq::<(Seq<char>, Seq<char>)>::empty());
                        }
                        let e2 = DbEntry { value: DbType::Hash(h0), expiration: entry.expiration };
                        self.storage.insert(i, (k0, e2));
                        proof {
                            let cur = self.entries();
                            assert(cur =~= pre.update(i as int, (pre[i as int].0, cur[i as int].1)));
                            lemma_assoc_update(pre, i as int, cur[i as int].1);
                            assert forall|p: int, q: int| 0 <= p < q < cur.len() implies (
                            #[trigger] cur[p]).0 != (#[trigger] cur[q]).0 by {
                                assert(cur[p].0 == pre[p].0);
                                assert(cur[q].0 == pre[q].0);
                            }
                            assert(cur[i as int].1.value =~= ValueV::Hash(hash_extend(b0, hv)));
                        }
                    }
                    (other_old, other_new) => {
                        let e2 = DbEntry { value: other_new, expiration: expire_at };
                        let ghost ev = e2@;
                        self.storage.insert(i, (k0, e2));
                        proof {
                            let cur = self.entries();
                            assert(cur =~= pre.update(i as int, (pre[i as int].0, cur[i as int].1)));
                            lemma_assoc_update(pre, i as int, cur[i as int].1);
                            assert forall|p: int, q: int| 0 <= p < q < cur.len() implies (
                            #[trigger] cur[p]).0 != (#[trigger] cur[q]).0 by {
                                assert(cur[p].0 == pre[p].0);
                                assert(cur[q].0 == pre[q].0);
                            }
                        }
                    }
                }
            }
        }
        proof {
            assert(self.channels() =~= pre_ch);
            assert(self.patterns() =~= pre_pat);
        }
    }
}

impl Db {
    /// Sets `field` only when the hash at `key` does not bind it yet,
    /// creating the hash when the key is absent.  True when the field
    /// was written; a field already bound leaves everything unchanged
    /// and nothing in the log.
    pub fn hash_setnx(&mut self, key: &String, field: &String, value: &String) -> (r: Result<
        bool,
        WrongType,
    >)
        requires
            old(self).wf(),
        ensures
            final(self).wf(),
            final(self).channels() == old(self).channels(),
            final(self).patterns() == old(self).patterns(),
            final(self).wal_enabled() == old(self).wal_enabled(),
            forall|k2: Seq<char>| k2 != key@ ==> final(self).spec_get(k2) == old(self).spec_get(k2),
            match old(self).spec_get(key@) {
                Option::None => r == Ok::<bool, WrongType>(true) && final(self).spec_get(key@)
                    == Option::Some(
                    EntryV {
                        value: ValueV::Hash(seq![(field@, value@)]),
                        expiration: Option::None,
                    },
                ),
                Option::Some(e) => match e.value {
                    ValueV::Hash(h) => if assoc_get(h, field@) is Some {
                        r == Ok::<bool, WrongType>(false) && final(self).spec_get(key@) == old(self).spec_get(key@)
                    } else {
                        r == Ok::<bool, WrongType>(true) && final(self).spec_get(key@)
                            == Option::Some(
                            EntryV {
                                value: ValueV::Hash(hash_update(h, field@, value@)),
                                expiration: e.expiration,
                            },
                        )
                    },
                    _ => r == Err::<bool, WrongType>(WrongType) && final(self).spec_get(key@)
                        == old(self).spec_get(key@),
                },
            },
            final(self).wal_pending() == old(self).wal_pending() + (if r == Ok::<bool, WrongType>(
                true,
            ) {
                record_if(old(self).wal_enabled(), "hset"@, seq![key@, field@, value@])
            } else {
                Seq::<u8>::empty()
            }),
    {
        let ghost pre = self.entries();
        match self.find_key(key) {
            Option::Some(i) => {
                let already = match &self.storage[i].1.value {
                    DbType::Hash(pairs) => {
                        proof {
                            assert(pre[i as int].1.value =~= ValueV::Hash(pair_views(pairs@)));
                        }
                        match hash_pairs_pos(pairs, field) {
                            Option::Some(p) => {
                                proof {
                                    let h = pre[i as int].1.value->Hash_0;
                                    assert(h =~= pair_views(pairs@));
                                    lemma_assoc_skip(h, field@, p as int);
                                    assert(h.skip(p as int)[0] == h[p as int]);
                                    assert(assoc_get(h, field@) is Some);
                                }
                                true
                            }
                            Option::None => {
                                proof {
                                    let h = pre[i as int].1.value->Hash_0;
                                    assert(h =~= pair_views(pairs@));
                                    lemma_assoc_none(h, field@);
                                }
                                false
                            }
                        }
                    },
                    _ => false,
                };
                if already {
                    proof {
                        assert(old(self).wal_pending() + Seq::<u8>::empty() =~= old(self).wal_pending());
                    }
                    Ok(false)
                } else {
                    self.hash_set(key, field, value)
                }
            }
            Option::None => self.hash_set(key, field, value),
        }
    }
}

impl Db {
    /// Borrows the list at `key` without touching anything: the list
    /// when the key holds one, nothing when the key is absent, and the
    /// wrong-type condition for any other type.
    pub fn list_read(&self, key: &String) -> (r: Result<Option<&Vec<String>>, WrongType>)
        ensures
            match self.spec_get(key@) {
                Option::Some(e) => match e.value {
                    ValueV::List(l) => (r matches Ok(Some(items)) && string_views(items@) == l),
                    _ => r is Err,
                },
                Option::None => r == Ok::<Option<&Vec<String>>, WrongType>(Option::None),
            },
    {
        match self.find_key(key) {
            Option::None => Ok(None),
            Option::Some(i) => match &self.storage[i].1.value {
                DbType::List(items) => {
                    proof {
                        assert(self.entries()[i as int].1.value =~= ValueV::List(
                            string_views(items@),
                        ));
                    }
                    Ok(Some(items))
                }
                _ => Err(WrongType),
            },
        }
    }
}

} // verus!
