//! The key-value store: an in-memory index layered over the commit log.
//!
//! On open, the store replays every record of the log, in order, into a
//! fresh mapping; every later mutation is first appended to the log and
//! only then applied to memory, so a mapping visible to the caller is
//! always recoverable from the log alone.  Reads are served from memory
//! and never touch the log.

use vstd::prelude::*;

use crate::defs::KvdbError;
use crate::log::{
    encode_entry, encode_log, parse_log, EntryModel, Log, LogEntry, LogFileIterator,
};

verus! {

/// The mapping an association list denotes: a later pair overrides an
/// earlier one with the same key.
pub open spec fn alist_view(s: Seq<(String, String)>) -> Map<Seq<char>, Seq<char>>
    decreases s.len(),
{
    if s.len() == 0 {
        Map::empty()
    } else {
        alist_view(s.drop_last()).insert(s.last().0@, s.last().1@)
    }
}

/// No two pairs of the list share a key.
pub open spec fn alist_distinct(s: Seq<(String, String)>) -> bool {
    forall|i: int, j: int| 0 <= i < j < s.len() ==> s[i].0@ != s[j].0@
}

/// The mapping a record history denotes: each `Put` inserts or
/// overwrites, each `Delete` removes (a no-op if the key is absent).
pub open spec fn replay(es: Seq<EntryModel>) -> Map<Seq<char>, Seq<char>>
    decreases es.len(),
{
    if es.len() == 0 {
        Map::empty()
    } else {
        let m = replay(es.drop_last());
        match es.last() {
            EntryModel::Put { key, value } => m.insert(key, value),
            EntryModel::Delete { key } => m.remove(key),
        }
    }
}

/// A key is in the list's mapping exactly when some pair carries it.
proof fn lemma_alist_dom(s: Seq<(String, String)>)
    ensures
        forall|k: Seq<char>|
            alist_view(s).dom().contains(k) <==> (exists|i: int|
                0 <= i < s.len() && s[i].0@ == k),
    decreases s.len(),
{
    if s.len() == 0 {
    } else {
        let d = s.drop_last();
        lemma_alist_dom(d);
        assert(alist_view(s) == alist_view(d).insert(s.last().0@, s.last().1@));
        assert forall|k: Seq<char>| alist_view(s).dom().contains(k) implies (exists|i: int|
            0 <= i < s.len() && s[i].0@ == k) by {
            if k == s.last().0@ {
                assert(s[s.len() - 1].0@ == k);
            } else {
                assert(alist_view(d).dom().contains(k));
                let i = choose|i: int| 0 <= i < d.len() && d[i].0@ == k;
                assert(d[i] == s[i]);
                assert(s[i].0@ == k);
            }
        }
        assert forall|k: Seq<char>| (exists|i: int| 0 <= i < s.len() && s[i].0@ == k)
            implies alist_view(s).dom().contains(k) by {
            let i = choose|i: int| 0 <= i < s.len() && s[i].0@ == k;
            if i < s.len() - 1 {
                assert(d[i] == s[i]);
                assert(d[i].0@ == k);
                assert(alist_view(d).dom().contains(k));
            } else {
                assert(k == s.last().0@);
            }
        }
    }
}

/// Dropping the last pair keeps the keys distinct.
proof fn lemma_alist_distinct_drop_last(s: Seq<(String, String)>)
    requires
        alist_distinct(s),
        s.len() > 0,
    ensures
        alist_distinct(s.drop_last()),
{
    assert forall|i: int, j: int|
        0 <= i < j < s.drop_last().len() implies s.drop_last()[i].0@ != s.drop_last()[j].0@ by {
        assert(s.drop_last()[i] == s[i]);
        assert(s.drop_last()[j] == s[j]);
    }
}

/// With distinct keys, the pair at `i` is what the mapping holds for its
/// key.
proof fn lemma_alist_at(s: Seq<(String, String)>, i: int)
    requires
        alist_distinct(s),
        0 <= i < s.len(),
    ensures
        alist_view(s).dom().contains(s[i].0@),
        alist_view(s)[s[i].0@] == s[i].1@,
    decreases s.len(),
{
    lemma_alist_dom(s);
    if i < s.len() - 1 {
        lemma_alist_distinct_drop_last(s);
        assert(s.drop_last()[i] == s[i]);
        lemma_alist_at(s.drop_last(), i);
        assert(s[i].0@ != s.last().0@);
    }
}

/// Removing the pair at `i` removes exactly its key from the mapping.
proof fn lemma_alist_remove(s: Seq<(String, String)>, i: int)
    requires
        alist_distinct(s),
        0 <= i < s.len(),
    ensures
        alist_distinct(s.remove(i)),
        alist_view(s.remove(i)) == alist_view(s).remove(s[i].0@),
    decreases s.len(),
{
    let key = s[i].0@;
    s.remove_ensures(i);
    assert forall|a: int, b: int|
        0 <= a < b < s.remove(i).len() implies s.remove(i)[a].0@ != s.remove(i)[b].0@ by {
        if a < i {
            assert(s.remove(i)[a] == s[a]);
        } else {
            assert(s.remove(i)[a] == s[a + 1]);
        }
        if b < i {
            assert(s.remove(i)[b] == s[b]);
        } else {
            assert(s.remove(i)[b] == s[b + 1]);
        }
    }
    lemma_alist_dom(s.drop_last());
    lemma_alist_distinct_drop_last(s);
    if i == s.len() - 1 {
        assert(s.remove(i) =~= s.drop_last());
        assert(!alist_view(s.drop_last()).dom().contains(key)) by {
            if alist_view(s.drop_last()).dom().contains(key) {
                let j = choose|j: int|
                    0 <= j < s.drop_last().len() && s.drop_last()[j].0@ == key;
                assert(s[j].0@ == key);
            }
        }
        assert(alist_view(s).remove(key) =~= alist_view(s.drop_last()));
    } else {
        let lastk = s.last().0@;
        let lastv = s.last().1@;
        assert(s.drop_last()[i] == s[i]);
        lemma_alist_remove(s.drop_last(), i);
        assert(s.remove(i).drop_last() =~= s.drop_last().remove(i));
        assert(s.remove(i).last() == s.last());
        assert(alist_view(s.remove(i)) == alist_view(s.drop_last().remove(i)).insert(
            lastk,
            lastv,
        ));
        assert(key != lastk);
        assert(alist_view(s.drop_last()).remove(key).insert(lastk, lastv) =~= alist_view(
            s.drop_last(),
        ).insert(lastk, lastv).remove(key));
    }
}

/// Finds the index of the pair that carries `key`, if any.
fn alist_find(memory: &Vec<(String, String)>, key: &String) -> (r: Option<usize>)
    ensures
        match r {
            Some(i) => i < memory@.len() && memory@[i as int].0@ == key@,
            None => forall|i: int| 0 <= i < memory@.len() ==> memory@[i].0@ != key@,
        },
{
    let n = memory.len();
    let mut i: usize = 0;
    while i < n
        invariant
            n == memory@.len(),
            i <= n,
            forall|j: int| 0 <= j < i ==> memory@[j].0@ != key@,
        decreases n - i,
    {
        if memory[i].0 == *key {
            return Some(i);
        }
        i = i + 1;
    }
    None
}

/// Inserts or overwrites `key` in the list, keeping keys distinct.
fn alist_insert(memory: &mut Vec<(String, String)>, key: String, value: String)
    requires
        alist_distinct(old(memory)@),
    ensures
        alist_distinct(final(memory)@),
        alist_view(final(memory)@) == alist_view(old(memory)@).insert(key@, value@),
{
    let ghost s0 = memory@;
    match alist_find(memory, &key) {
        Some(i) => {
            proof {
                lemma_alist_remove(s0, i as int);
            }
            memory.remove(i);
        },
        None => {},
    }
    let ghost s1 = memory@;
    memory.push((key, value));
    proof {
        assert(memory@.drop_last() =~= s1);
        assert(memory@.last().0@ == key@);
        assert(memory@.last().1@ == value@);
        lemma_alist_dom(s1);
        assert forall|a: int, b: int|
            0 <= a < b < memory@.len() implies memory@[a].0@ != memory@[b].0@ by {
            if b < memory@.len() - 1 {
                assert(memory@[a] == s1[a]);
                assert(memory@[b] == s1[b]);
            } else {
                assert(memory@[a] == s1[a]);
            }
        }
        assert(alist_view(memory@) =~= alist_view(s0).insert(key@, value@));
    }
}

/// Removes `key` from the list if present; reports whether it was.
fn alist_remove(memory: &mut Vec<(String, String)>, key: &String) -> (r: bool)
    requires
        alist_distinct(old(memory)@),
    ensures
        alist_distinct(final(memory)@),
        r == alist_view(old(memory)@).dom().contains(key@),
        alist_view(final(memory)@) == alist_view(old(memory)@).remove(key@),
        !r ==> final(memory)@ == old(memory)@,
{
    let ghost s0 = memory@;
    proof {
        lemma_alist_dom(s0);
    }
    match alist_find(memory, key) {
        Some(i) => {
            proof {
                lemma_alist_remove(s0, i as int);
                lemma_alist_at(s0, i as int);
            }
            memory.remove(i);
            true
        },
        None => {
            proof {
                assert(!alist_view(s0).dom().contains(key@));
                assert(alist_view(s0).remove(key@) =~= alist_view(s0));
            }
            false
        },
    }
}

/// One more replayed record updates the mapping by that record alone.
proof fn lemma_replay_take_succ(es: Seq<EntryModel>, n: int)
    requires
        0 <= n < es.len(),
    ensures
        replay(es.take(n + 1)) == (match es[n] {
            EntryModel::Put { key, value } => replay(es.take(n)).insert(key, value),
            EntryModel::Delete { key } => replay(es.take(n)).remove(key),
        }),
{
    assert(es.take(n + 1).last() == es[n]);
    assert(es.take(n + 1).drop_last() =~= es.take(n));
}

/// Appending one record updates the replayed mapping by that record
/// alone.
pub proof fn lemma_replay_push(es: Seq<EntryModel>, e: EntryModel)
    ensures
        replay(es.push(e)) == (match e {
            EntryModel::Put { key, value } => replay(es).insert(key, value),
            EntryModel::Delete { key } => replay(es).remove(key),
        }),
{
    assert(es.push(e).last() == e);
    assert(es.push(e).drop_last() =~= es);
}

/// In-memory key-value store backed by the commit log.
pub struct KvStore {
    memory: Vec<(String, String)>,
    commit_log: Log,
}

impl KvStore {
    /// The records the store's log holds.
    pub closed spec fn entries(&self) -> Seq<EntryModel> {
        self.commit_log.entries()
    }

    /// The log's textual content.
    pub closed spec fn data_view(&self) -> Seq<char> {
        self.commit_log.data_view()
    }

    /// The mapping the store serves.
    pub closed spec fn memory_view(&self) -> Map<Seq<char>, Seq<char>> {
        alist_view(self.memory@)
    }

    /// The store's invariant: the log is well formed, the index keys are
    /// distinct, and the mapping served is exactly the replay of the log.
    pub closed spec fn wf(&self) -> bool {
        &&& self.commit_log.wf()
        &&& alist_distinct(self.memory@)
        &&& alist_view(self.memory@) == replay(self.commit_log.entries())
    }

    /// Replays the log's records, in order, into the fresh mapping.
    fn hydrate_memory(memory: &mut Vec<(String, String)>, entries: LogFileIterator<'_>) -> (r:
        Result<(), KvdbError>)
        requires
            old(memory)@.len() == 0,
            entries.wf(),
            entries.read() == 0,
        ensures
            r is Ok,
            alist_distinct(final(memory)@),
            alist_view(final(memory)@) == replay(entries.log_ref().entries()),
    {
        let ghost es = entries.log_ref().entries();
        let mut it = entries;
        proof {
            assert(es.take(0) =~= Seq::<EntryModel>::empty());
            assert(alist_view(memory@) =~= replay(es.take(0)));
        }
        loop
            invariant
                es == entries.log_ref().entries(),
                it.wf(),
                it.log_ref().entries() == es,
                0 <= it.read() <= es.len(),
                alist_distinct(memory@),
                alist_view(memory@) == replay(es.take(it.read())),
            decreases es.len() - it.read(),
        {
            let ghost k = it.read();
            match it.next() {
                None => {
                    proof {
                        assert(es.take(k) =~= es);
                    }
                    return Ok(());
                },
                Some((entry, _off)) => {
                    proof {
                        lemma_replay_take_succ(es, k);
                    }
                    match entry {
                        LogEntry::Put { key, value } => {
                            alist_insert(memory, key, value);
                        },
                        LogEntry::Delete { key } => {
                            alist_remove(memory, &key);
                        },
                    }
                },
            }
        }
    }

    /// Opens a store from the text of its log file: opens the log, then
    /// rebuilds the in-memory mapping by replaying every record in order.
    /// Succeeds exactly when the text parses as a record history; the
    /// mapping served is then the replay of that history.
    pub fn open(data: String) -> (r: Result<KvStore, KvdbError>)
        ensures
            match r {
                Ok(st) => {
                    &&& st.wf()
                    &&& parse_log(data@) == Some(st.entries())
                    &&& st.data_view() == data@
                    &&& st.memory_view() == replay(st.entries())
                },
                Err(e) => parse_log(data@) is None && e == KvdbError::CorruptRecord,
            },
    {
        let commit_log = match Log::open(data) {
            Ok(l) => l,
            Err(e) => {
                return Err(e);
            },
        };
        let mut memory: Vec<(String, String)> = Vec::new();
        match KvStore::hydrate_memory(&mut memory, commit_log.iter()) {
            Ok(()) => {},
            Err(e) => {
                return Err(e);
            },
        }
        Ok(KvStore { memory, commit_log })
    }

    /// Maps `key` to `value`: appends a `Put` record to the log, then —
    /// only after the append succeeded — overwrites the key in memory.
    /// The log is never shortened.
    pub fn set(&mut self, key: String, value: String) -> (r: Result<(), KvdbError>)
        requires
            old(self).wf(),
        ensures
            final(self).wf(),
            r is Ok,
            final(self).entries() == old(self).entries().push(
                EntryModel::Put { key: key@, value: value@ },
            ),
            final(self).memory_view() == old(self).memory_view().insert(key@, value@),
            final(self).data_view() == old(self).data_view() + encode_entry(
                EntryModel::Put { key: key@, value: value@ },
            ),
            old(self).data_view().is_prefix_of(final(self).data_view()),
    {
        match self.commit_log.commit_set(&key, &value) {
            Ok(()) => {},
            Err(e) => {
                return Err(e);
            },
        }
        proof {
            lemma_replay_push(old(self).entries(), EntryModel::Put { key: key@, value: value@ });
        }
        alist_insert(&mut self.memory, key, value);
        Ok(())
    }

    /// Removes `key`: if it is absent, fails with `KeyNotFound` and
    /// changes nothing — neither the log nor memory; if present, appends
    /// a `Delete` record to the log, then removes the key from memory.
    pub fn remove(&mut self, key: String) -> (r: Result<(), KvdbError>)
        requires
            old(self).wf(),
        ensures
            final(self).wf(),
            old(self).memory_view().dom().contains(key@) ==> {
                &&& r is Ok
                &&& final(self).entries() == old(self).entries().push(
                    EntryModel::Delete { key: key@ },
                )
                &&& final(self).memory_view() == old(self).memory_view().remove(key@)
                &&& final(self).data_view() == old(self).data_view() + encode_entry(
                    EntryModel::Delete { key: key@ },
                )
            },
            !old(self).memory_view().dom().contains(key@) ==> {
                &&& r == Err::<(), KvdbError>(KvdbError::KeyNotFound)
                &&& *final(self) == *old(self)
            },
            old(self).data_view().is_prefix_of(final(self).data_view()),
    {
        match alist_find(&self.memory, &key) {
            None => {
                proof {
                    lemma_alist_dom(self.memory@);
                    assert(self.data_view().subrange(0, self.data_view().len() as int)
                        =~= self.data_view());
                }
                Err(KvdbError::KeyNotFound)
            },
            Some(_) => {
                proof {
                    lemma_alist_dom(self.memory@);
                }
                match self.commit_log.commit_rm(&key) {
                    Ok(()) => {},
                    Err(e) => {
                        return Err(e);
                    },
                }
                proof {
                    lemma_replay_push(old(self).entries(), EntryModel::Delete { key: key@ });
                }
                alist_remove(&mut self.memory, &key);
                Ok(())
            },
        }
    }

    /// Reads the current value of `key` from memory alone; absence is a
    /// normal result, not an error.
    pub fn get(&mut self, key: String) -> (r: Result<Option<String>, KvdbError>)
        requires
            old(self).wf(),
        ensures
            *final(self) == *old(self),
            match r {
                Ok(found) => match found {
                    Some(v) => old(self).memory_view().dom().contains(key@)
                        && old(self).memory_view()[key@] == v@,
                    None => !old(self).memory_view().dom().contains(key@),
                },
                Err(_) => false,
            },
    {
        proof {
            lemma_alist_dom(self.memory@);
        }
        match alist_find(&self.memory, &key) {
            None => Ok(None),
            Some(i) => {
                proof {
                    lemma_alist_at(self.memory@, i as int);
                }
                Ok(Some(self.memory[i].1.clone()))
            },
        }
    }

    /// The log's current text, for the caller that persists it.
    pub fn log_data(&self) -> (r: &String)
        requires
            self.wf(),
        ensures
            r@ == self.data_view(),
            parse_log(r@) == Some(self.entries()),
    {
        self.commit_log.export_data()
    }
}

/// Durability: what a well-formed store serves is exactly the replay of
/// the history its log text parses to, so a restart that reopens that
/// text observes every mutation the store has reported successful.
pub proof fn lemma_durable_state(st: &KvStore)
    requires
        st.wf(),
    ensures
        parse_log(st.data_view()) == Some(st.entries()),
        replay(st.entries()) == st.memory_view(),
{
    crate::log::lemma_log_text(&st.commit_log);
    crate::log::lemma_parse_encode(st.entries());
}

/// Recovery determinism: the text of any record history parses back to
/// exactly that history, so a store reopened from the log it wrote — with
/// no intervening writes — replays to the same mapping as before, however
/// often it is reopened.
pub proof fn lemma_recovery_roundtrip(es: Seq<EntryModel>)
    ensures
        parse_log(encode_log(es)) == Some(es),
{
    crate::log::lemma_parse_encode(es);
}

/// Last write wins: after two `Put` records for one key, the replayed
/// mapping holds the later value.
pub proof fn lemma_last_write_wins(
    es: Seq<EntryModel>,
    k: Seq<char>,
    v1: Seq<char>,
    v2: Seq<char>,
)
    ensures
        ({
            let m = replay(
                es.push(EntryModel::Put { key: k, value: v1 }).push(
                    EntryModel::Put { key: k, value: v2 },
                ),
            );
            m.dom().contains(k) && m[k] == v2
        }),
{
    let es1 = es.push(EntryModel::Put { key: k, value: v1 });
    lemma_replay_push(es, EntryModel::Put { key: k, value: v1 });
    lemma_replay_push(es1, EntryModel::Put { key: k, value: v2 });
}

/// Tombstone effect: a `Put` followed by a `Delete` of the same key
/// leaves the key absent from the replayed mapping.
pub proof fn lemma_tombstone(es: Seq<EntryModel>, k: Seq<char>, v: Seq<char>)
    ensures
        !replay(
            es.push(EntryModel::Put { key: k, value: v }).push(EntryModel::Delete { key: k }),
        ).dom().contains(k),
{
    let es1 = es.push(EntryModel::Put { key: k, value: v });
    lemma_replay_push(es, EntryModel::Put { key: k, value: v });
    lemma_replay_push(es1, EntryModel::Delete { key: k });
}

} // verus!
