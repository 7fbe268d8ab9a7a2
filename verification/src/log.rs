//! The commit log: an append-only, ordered sequence of mutation records.
//!
//! Each record occupies one tagged, newline-terminated line of the log's
//! text; the log's content is exactly the concatenation of its records'
//! lines, in write order.  `Log` holds that text, together with a ghost
//! sequence of the records it encodes; the caller keeps the backing file
//! in step by appending each committed line to it.

use vstd::prelude::*;
use vstd::string::*;

use crate::codec::{
    append_escaped, esc, lemma_esc_clean, lemma_unesc_esc, lemma_unesc_sound, push_char,
    unesc_from, unescape_field,
};
use crate::defs::{KvdbError, LogOffset};

verus! {

/// One durable mutation record.
pub enum LogEntry {
    /// Maps `key` to `value`, overwriting any earlier mapping.
    Put { key: String, value: String },
    /// Marks `key` absent until a later `Put`.
    Delete { key: String },
}

/// The mathematical form of a record: its fields as character sequences.
pub enum EntryModel {
    Put { key: Seq<char>, value: Seq<char> },
    Delete { key: Seq<char> },
}

impl View for LogEntry {
    type V = EntryModel;

    open spec fn view(&self) -> EntryModel {
        match self {
            LogEntry::Put { key, value } => EntryModel::Put { key: key@, value: value@ },
            LogEntry::Delete { key } => EntryModel::Delete { key: key@ },
        }
    }
}

/// The key a record speaks of.
pub open spec fn entry_key(e: EntryModel) -> Seq<char> {
    match e {
        EntryModel::Put { key, .. } => key,
        EntryModel::Delete { key } => key,
    }
}

/// The line a record occupies on the wire: a one-character tag, then the
/// escaped fields separated by tabs, terminated by a newline.
pub open spec fn encode_entry(e: EntryModel) -> Seq<char> {
    match e {
        EntryModel::Put { key, value } => seq!['S', '\t'] + esc(key) + seq!['\t'] + esc(value)
            + seq!['\n'],
        EntryModel::Delete { key } => seq!['R', '\t'] + esc(key) + seq!['\n'],
    }
}

/// The text of a whole log: the records' lines in write order.
pub open spec fn encode_log(es: Seq<EntryModel>) -> Seq<char>
    decreases es.len(),
{
    if es.len() == 0 {
        Seq::empty()
    } else {
        encode_entry(es[0]) + encode_log(es.drop_first())
    }
}

/// The record a line denotes, if the line is exactly the encoding of one.
pub open spec fn decode_entry(l: Seq<char>) -> Option<EntryModel> {
    if l.len() < 2 || l[1] != '\t' {
        None
    } else if l[0] == 'S' {
        match unesc_from(l, 2) {
            Some(p) => if l[p.1] == '\t' {
                match unesc_from(l, p.1 + 1) {
                    Some(q) => if q.1 == l.len() - 1 && l[q.1] == '\n' {
                        Some(EntryModel::Put { key: p.0, value: q.0 })
                    } else {
                        None
                    },
                    None => None,
                }
            } else {
                None
            },
            None => None,
        }
    } else if l[0] == 'R' {
        match unesc_from(l, 2) {
            Some(p) => if p.1 == l.len() - 1 && l[p.1] == '\n' {
                Some(EntryModel::Delete { key: p.0 })
            } else {
                None
            },
            None => None,
        }
    } else {
        None
    }
}

/// The index of the first newline of `t`, or `t.len()` if there is none.
pub open spec fn first_nl(t: Seq<char>) -> nat
    decreases t.len(),
{
    if t.len() == 0 {
        0
    } else if t[0] == '\n' {
        0
    } else {
        1 + first_nl(t.drop_first())
    }
}

/// The records a log text denotes: each line decoded in order, or `None`
/// if some prefix is not a record line or trailing text lacks its
/// terminator.
pub open spec fn parse_log(t: Seq<char>) -> Option<Seq<EntryModel>>
    decreases t.len(),
{
    if t.len() == 0 {
        Some(Seq::empty())
    } else {
        let j = first_nl(t) as int;
        if j >= t.len() {
            None
        } else {
            match decode_entry(t.subrange(0, j + 1)) {
                Some(e) => match parse_log(t.subrange(j + 1, t.len() as int)) {
                    Some(es) => Some(seq![e] + es),
                    None => None,
                },
                None => None,
            }
        }
    }
}

/// Parsed leading records prepended to the outcome of parsing the rest.
spec fn parse_compose(pre: Seq<EntryModel>, r: Option<Seq<EntryModel>>) -> Option<
    Seq<EntryModel>,
> {
    match r {
        Some(es) => Some(pre + es),
        None => None,
    }
}

/// Shape of an encoded record: at least three characters, a newline at
/// the end and nowhere else.
proof fn lemma_encode_entry_shape(e: EntryModel)
    ensures
        encode_entry(e).len() >= 3,
        encode_entry(e)[encode_entry(e).len() - 1] == '\n',
        forall|i: int|
            0 <= i < encode_entry(e).len() - 1 ==> encode_entry(e)[i] != '\n',
{
    match e {
        EntryModel::Put { key, value } => {
            lemma_esc_clean(key);
            lemma_esc_clean(value);
        },
        EntryModel::Delete { key } => {
            lemma_esc_clean(key);
        },
    }
}

/// Position of the first newline, from a witness: if nothing before `k`
/// is a newline and `t[k]` is one (or `k` is the length and `t` has
/// none), then `first_nl(t)` is `k`.
proof fn lemma_first_nl_at(t: Seq<char>, k: int)
    requires
        0 <= k <= t.len(),
        forall|i: int| 0 <= i < k ==> t[i] != '\n',
        k < t.len() ==> t[k] == '\n',
    ensures
        first_nl(t) == k,
    decreases t.len(),
{
    if t.len() == 0 {
    } else if t[0] == '\n' {
    } else {
        assert forall|i: int| 0 <= i < k - 1 implies t.drop_first()[i] != '\n' by {
            assert(t.drop_first()[i] == t[i + 1]);
        }
        lemma_first_nl_at(t.drop_first(), k - 1);
    }
}

/// Decoding a record's line recovers the record.
proof fn lemma_decode_encode(e: EntryModel)
    ensures
        decode_entry(encode_entry(e)) == Some(e),
{
    let l = encode_entry(e);
    match e {
        EntryModel::Put { key, value } => {
            let k = esc(key);
            let v = esc(value);
            let kl = k.len() as int;
            let vl = v.len() as int;
            assert(l =~= seq!['S', '\t'] + k + seq!['\t'] + v + seq!['\n']);
            assert(l.subrange(2, 2 + kl) =~= k);
            assert(l[2 + kl] == '\t');
            lemma_unesc_esc(l, 2, key);
            let j = 2 + kl;
            assert(l.subrange(j + 1, j + 1 + vl) =~= v);
            assert(l[j + 1 + vl] == '\n');
            lemma_unesc_esc(l, j + 1, value);
            assert(j + 1 + vl == l.len() - 1);
        },
        EntryModel::Delete { key } => {
            let k = esc(key);
            let kl = k.len() as int;
            assert(l =~= seq!['R', '\t'] + k + seq!['\n']);
            assert(l.subrange(2, 2 + kl) =~= k);
            assert(l[2 + kl] == '\n');
            lemma_unesc_esc(l, 2, key);
            assert(2 + kl == l.len() - 1);
        },
    }
}

/// Whatever a line decodes to, the line is that record's encoding.
proof fn lemma_decode_sound(l: Seq<char>)
    requires
        decode_entry(l) is Some,
    ensures
        l == encode_entry(decode_entry(l)->Some_0),
{
    let e = decode_entry(l)->Some_0;
    if l[0] == 'S' {
        lemma_unesc_sound(l, 2);
        let p = unesc_from(l, 2)->Some_0;
        lemma_unesc_sound(l, p.1 + 1);
        let q = unesc_from(l, p.1 + 1)->Some_0;
        assert(l.subrange(2, p.1) == esc(p.0));
        assert(l.subrange(p.1 + 1, q.1) == esc(q.0));
        assert(l =~= seq!['S', '\t'] + esc(p.0) + seq!['\t'] + esc(q.0) + seq!['\n']);
    } else {
        lemma_unesc_sound(l, 2);
        let p = unesc_from(l, 2)->Some_0;
        assert(l.subrange(2, p.1) == esc(p.0));
        assert(l =~= seq!['R', '\t'] + esc(p.0) + seq!['\n']);
    }
}

/// Appending one record to a log text appends its line.
proof fn lemma_encode_log_push(es: Seq<EntryModel>, e: EntryModel)
    ensures
        encode_log(es.push(e)) == encode_log(es) + encode_entry(e),
    decreases es.len(),
{
    let t = es.push(e);
    assert(t.len() > 0);
    assert(encode_log(t) == encode_entry(t[0]) + encode_log(t.drop_first()));
    if es.len() == 0 {
        assert(t[0] == e);
        assert(t.drop_first() =~= Seq::<EntryModel>::empty());
        assert(encode_log(t.drop_first()) == Seq::<char>::empty());
        assert(encode_entry(e) + Seq::<char>::empty() =~= encode_entry(e));
        assert(encode_log(es) == Seq::<char>::empty());
        assert(Seq::<char>::empty() + encode_entry(e) =~= encode_entry(e));
    } else {
        assert(t[0] == es[0]);
        assert(t.drop_first() =~= es.drop_first().push(e));
        lemma_encode_log_push(es.drop_first(), e);
        assert(encode_log(es) == encode_entry(es[0]) + encode_log(es.drop_first()));
        assert(encode_entry(es[0]) + (encode_log(es.drop_first()) + encode_entry(e)) =~= (
        encode_entry(es[0]) + encode_log(es.drop_first())) + encode_entry(e));
    }
}

/// The text of the first `k + 1` records is the text of the first `k`
/// followed by the line of record `k`.
proof fn lemma_encode_log_take_succ(es: Seq<EntryModel>, k: int)
    requires
        0 <= k < es.len(),
    ensures
        encode_log(es.take(k + 1)) == encode_log(es.take(k)) + encode_entry(es[k]),
{
    assert(es.take(k + 1) =~= es.take(k).push(es[k]));
    lemma_encode_log_push(es.take(k), es[k]);
}

/// Within a log text, the line of record `k` stands exactly at the end
/// of the text of the first `k` records.
proof fn lemma_encode_log_frame(es: Seq<EntryModel>, k: int)
    requires
        0 <= k < es.len(),
    ensures
        ({
            let p = encode_log(es.take(k)).len() as int;
            let ll = encode_entry(es[k]).len() as int;
            &&& p + ll <= encode_log(es).len()
            &&& encode_log(es).subrange(p, p + ll) == encode_entry(es[k])
            &&& (k + 1 == es.len() ==> p + ll == encode_log(es).len())
        }),
{
    lemma_encode_log_take_succ(es, k);
    lemma_encode_log_prefix_agree(es, k + 1);
    let t = encode_log(es);
    let pre = encode_log(es.take(k));
    let line = encode_entry(es[k]);
    let pre1 = encode_log(es.take(k + 1));
    let p = pre.len() as int;
    let ll = line.len() as int;
    assert(pre1 == pre + line);
    assert(pre1.len() == p + ll);
    assert(t.subrange(0, p + ll) == pre1);
    assert(t.subrange(p, p + ll) =~= line) by {
        assert forall|x: int| 0 <= x < ll implies t.subrange(p, p + ll)[x] == line[x] by {
            assert(t.subrange(p, p + ll)[x] == t[p + x]);
            assert(t.subrange(0, p + ll)[p + x] == t[p + x]);
            assert(pre1[p + x] == (pre + line)[p + x]);
            assert((pre + line)[p + x] == line[x]);
        }
    }
    if k + 1 == es.len() {
        assert(es.take(k + 1) =~= es);
    }
}

/// The text of the first `k` records is a prefix of the whole log text.
proof fn lemma_encode_log_prefix_agree(es: Seq<EntryModel>, k: int)
    requires
        0 <= k <= es.len(),
    ensures
        encode_log(es.take(k)).len() <= encode_log(es).len(),
        encode_log(es).subrange(0, encode_log(es.take(k)).len() as int) == encode_log(es.take(k)),
    decreases es.len() - k,
{
    if k == es.len() {
        assert(es.take(k) =~= es);
        assert(encode_log(es).subrange(0, encode_log(es).len() as int) =~= encode_log(es));
    } else {
        lemma_encode_log_take_succ(es, k);
        lemma_encode_log_prefix_agree(es, k + 1);
        assert(encode_log(es).subrange(0, encode_log(es.take(k)).len() as int) =~= encode_log(
            es.take(k),
        ));
    }
}

/// Parsing inverts encoding: the text of any record sequence parses back
/// to exactly that sequence.  Parsing is a function of the text alone,
/// so recovery from a given log is deterministic.
pub proof fn lemma_parse_encode(es: Seq<EntryModel>)
    ensures
        parse_log(encode_log(es)) == Some(es),
    decreases es.len(),
{
    if es.len() == 0 {
        assert(es =~= Seq::<EntryModel>::empty());
    } else {
        let t = encode_log(es);
        let e = es[0];
        let line = encode_entry(e);
        let rest = encode_log(es.drop_first());
        assert(t == line + rest);
        lemma_encode_entry_shape(e);
        assert forall|i: int| 0 <= i < line.len() - 1 implies t[i] != '\n' by {
            assert(t[i] == line[i]);
        }
        assert(t[line.len() - 1] == '\n');
        lemma_first_nl_at(t, line.len() - 1);
        let j = line.len() - 1;
        assert(t.subrange(0, j + 1) =~= line);
        lemma_decode_encode(e);
        assert(t.subrange(j + 1, t.len() as int) =~= rest);
        lemma_parse_encode(es.drop_first());
        assert(seq![e] + es.drop_first() =~= es);
    }
}

/// Whatever a text parses to, the text is that sequence's encoding.
proof fn lemma_parse_sound(t: Seq<char>)
    requires
        parse_log(t) is Some,
    ensures
        t == encode_log(parse_log(t)->Some_0),
    decreases t.len(),
{
    let es = parse_log(t)->Some_0;
    if t.len() == 0 {
        assert(t =~= encode_log(es));
    } else {
        let j = first_nl(t) as int;
        let line = t.subrange(0, j + 1);
        let e = decode_entry(line)->Some_0;
        let rest = t.subrange(j + 1, t.len() as int);
        lemma_decode_sound(line);
        lemma_parse_sound(rest);
        let es2 = parse_log(rest)->Some_0;
        assert(es == seq![e] + es2);
        assert((seq![e] + es2).drop_first() =~= es2);
        assert(encode_log(es) == encode_entry(e) + encode_log(es2));
        assert(t =~= line + rest);
        assert(t =~= encode_log(es));
    }
}

/// Builds the wire line of a record.
pub fn encoded_line(e: &LogEntry) -> (r: String)
    ensures
        r@ == encode_entry(e@),
{
    let mut out = String::new();
    match e {
        LogEntry::Put { key, value } => {
            push_char(&mut out, 'S');
            push_char(&mut out, '\t');
            append_escaped(&mut out, key.as_str());
            push_char(&mut out, '\t');
            append_escaped(&mut out, value.as_str());
            push_char(&mut out, '\n');
            proof {
                assert(out@ =~= encode_entry(e@));
            }
        },
        LogEntry::Delete { key } => {
            push_char(&mut out, 'R');
            push_char(&mut out, '\t');
            append_escaped(&mut out, key.as_str());
            push_char(&mut out, '\n');
            proof {
                assert(out@ =~= encode_entry(e@));
            }
        },
    }
    out
}

/// Decodes one wire line back into a record; rejects anything that is
/// not exactly the encoding of one.
pub fn decode_line(line: &str) -> (r: Result<LogEntry, KvdbError>)
    ensures
        match r {
            Ok(e) => decode_entry(line@) == Some(e@),
            Err(err) => decode_entry(line@) is None && err == KvdbError::CorruptRecord,
        },
{
    let n = line.unicode_len();
    if n < 2 {
        return Err(KvdbError::CorruptRecord);
    }
    let tag = line.get_char(0);
    if line.get_char(1) != '\t' {
        return Err(KvdbError::CorruptRecord);
    }
    if tag == 'S' {
        match unescape_field(line, 2) {
            None => Err(KvdbError::CorruptRecord),
            Some((key, j)) => {
                proof {
                    lemma_unesc_sound(line@, 2);
                }
                if line.get_char(j) != '\t' {
                    return Err(KvdbError::CorruptRecord);
                }
                match unescape_field(line, j + 1) {
                    None => Err(KvdbError::CorruptRecord),
                    Some((value, k)) => {
                        proof {
                            lemma_unesc_sound(line@, j + 1);
                        }
                        if k == n - 1 && line.get_char(k) == '\n' {
                            Ok(LogEntry::Put { key, value })
                        } else {
                            Err(KvdbError::CorruptRecord)
                        }
                    },
                }
            },
        }
    } else if tag == 'R' {
        match unescape_field(line, 2) {
            None => Err(KvdbError::CorruptRecord),
            Some((key, j)) => {
                proof {
                    lemma_unesc_sound(line@, 2);
                }
                if j == n - 1 && line.get_char(j) == '\n' {
                    Ok(LogEntry::Delete { key })
                } else {
                    Err(KvdbError::CorruptRecord)
                }
            },
        }
    } else {
        Err(KvdbError::CorruptRecord)
    }
}

/// Commit log: holds the log's whole text and, as a ghost, the records
/// it encodes.
pub struct Log {
    data: String,
    entries: Ghost<Seq<EntryModel>>,
}

/// Iterator over a log's records, in write order, each with the offset
/// at which its line starts.
pub struct LogFileIterator<'a> {
    log: &'a Log,
    pos: usize,
    n_read: Ghost<int>,
}

impl Log {
    /// The records the log holds, in write order.
    pub closed spec fn entries(&self) -> Seq<EntryModel> {
        self.entries@
    }

    /// The log's textual content.
    pub closed spec fn data_view(&self) -> Seq<char> {
        self.data@
    }

    /// The log's content is exactly the encoding of its records.
    pub closed spec fn wf(&self) -> bool {
        self.data@ == encode_log(self.entries@)
    }

    /// Opens a log from the text of its backing file.  Succeeds exactly
    /// when the whole text parses as a sequence of records; those records
    /// become the log's history.
    pub fn open(data: String) -> (r: Result<Log, KvdbError>)
        ensures
            match r {
                Ok(log) => {
                    &&& log.wf()
                    &&& parse_log(data@) == Some(log.entries())
                    &&& log.data_view() == data@
                },
                Err(e) => parse_log(data@) is None && e == KvdbError::CorruptRecord,
            },
    {
        let n = data.unicode_len();
        let mut pos: usize = 0;
        let ghost mut es: Seq<EntryModel> = Seq::empty();
        proof {
            assert(data@.subrange(0, n as int) =~= data@);
            match parse_log(data@) {
                Some(all) => {
                    assert(Seq::<EntryModel>::empty() + all =~= all);
                },
                None => {},
            }
        }
        while pos < n
            invariant
                n == data@.len(),
                pos <= n,
                parse_log(data@) == parse_compose(
                    es,
                    parse_log(data@.subrange(pos as int, n as int)),
                ),
            decreases n - pos,
        {
            let ghost suffix = data@.subrange(pos as int, n as int);
            let mut j: usize = pos;
            while j < n && data.as_str().get_char(j) != '\n'
                invariant
                    n == data@.len(),
                    pos <= j <= n,
                    forall|i: int| pos <= i < j ==> data@[i] != '\n',
                decreases n - j,
            {
                j = j + 1;
            }
            proof {
                assert forall|i: int| 0 <= i < j - pos implies suffix[i] != '\n' by {
                    assert(suffix[i] == data@[pos + i]);
                }
                if j < n {
                    assert(suffix[j - pos] == data@[j as int]);
                }
                lemma_first_nl_at(suffix, j - pos);
            }
            if j == n {
                return Err(KvdbError::CorruptRecord);
            }
            let line = data.as_str().substring_char(pos, j + 1);
            proof {
                assert(line@ =~= suffix.subrange(0, j - pos + 1));
            }
            match decode_line(line) {
                Err(_) => {
                    return Err(KvdbError::CorruptRecord);
                },
                Ok(entry) => {
                    proof {
                        let tail = data@.subrange(j + 1, n as int);
                        assert(suffix.subrange(j - pos + 1, suffix.len() as int) =~= tail);
                        assert(parse_log(suffix) == parse_compose(
                            seq![entry@],
                            parse_log(tail),
                        ));
                        match parse_log(tail) {
                            Some(rest) => {
                                assert(es + (seq![entry@] + rest) =~= (es + seq![entry@])
                                    + rest);
                            },
                            None => {},
                        }
                        es = es + seq![entry@];
                    }
                    pos = j + 1;
                },
            }
        }
        proof {
            assert(data@.subrange(n as int, n as int) =~= Seq::<char>::empty());
            assert(parse_log(data@) == Some(es));
            lemma_parse_sound(data@);
        }
        Ok(Log { data, entries: Ghost(es) })
    }

    /// Serializes the record, appends its line at the current end of the
    /// log, and returns the offset at which the line begins.
    fn commit(&mut self, entry: LogEntry) -> (r: Result<LogOffset, KvdbError>)
        requires
            old(self).wf(),
        ensures
            final(self).wf(),
            r is Ok,
            final(self).entries() == old(self).entries().push(entry@),
            final(self).data_view() == old(self).data_view() + encode_entry(entry@),
            old(self).data_view().is_prefix_of(final(self).data_view()),
            r->Ok_0 == old(self).data_view().len(),
    {
        let off = self.data.unicode_len();
        let line = encoded_line(&entry);
        self.data.append(line.as_str());
        proof {
            lemma_encode_log_push(self.entries@, entry@);
            assert(old(self).data_view().is_prefix_of(self.data@)) by {
                assert(self.data@.subrange(0, old(self).data_view().len() as int) =~= old(
                    self,
                ).data_view());
            }
        }
        self.entries = Ghost(self.entries@.push(entry@));
        Ok(off)
    }

    /// Appends a `Put` record for `(key, value)`.  The log grows by that
    /// record's line and is never shortened.
    pub fn commit_set(&mut self, key: &String, value: &String) -> (r: Result<(), KvdbError>)
        requires
            old(self).wf(),
        ensures
            final(self).wf(),
            r is Ok,
            final(self).entries() == old(self).entries().push(
                EntryModel::Put { key: key@, value: value@ },
            ),
            final(self).data_view() == old(self).data_view() + encode_entry(
                EntryModel::Put { key: key@, value: value@ },
            ),
            old(self).data_view().is_prefix_of(final(self).data_view()),
    {
        let entry = LogEntry::Put { key: key.clone(), value: value.clone() };
        match self.commit(entry) {
            Ok(_) => Ok(()),
            Err(e) => Err(e),
        }
    }

    /// Appends a `Delete` record for `key`.  The log grows by that
    /// record's line and is never shortened.
    pub fn commit_rm(&mut self, key: &String) -> (r: Result<(), KvdbError>)
        requires
            old(self).wf(),
        ensures
            final(self).wf(),
            r is Ok,
            final(self).entries() == old(self).entries().push(EntryModel::Delete { key: key@ }),
            final(self).data_view() == old(self).data_view() + encode_entry(
                EntryModel::Delete { key: key@ },
            ),
            old(self).data_view().is_prefix_of(final(self).data_view()),
    {
        let entry = LogEntry::Delete { key: key.clone() };
        match self.commit(entry) {
            Ok(_) => Ok(()),
            Err(e) => Err(e),
        }
    }

    /// The log's whole text, as the caller must persist it: exactly the
    /// encoding of the log's records, which parses back to them.
    pub fn export_data(&self) -> (r: &String)
        requires
            self.wf(),
        ensures
            r@ == self.data_view(),
            r@ == encode_log(self.entries()),
            parse_log(r@) == Some(self.entries()),
    {
        proof {
            lemma_parse_encode(self.entries());
        }
        &self.data
    }

    /// A fresh scan of the log from its beginning.
    pub fn iter(&self) -> (r: LogFileIterator<'_>)
        requires
            self.wf(),
        ensures
            r.wf(),
            r.log_ref() == self,
            r.read() == 0,
    {
        proof {
            assert(self.entries@.take(0) =~= Seq::<EntryModel>::empty());
        }
        LogFileIterator { log: self, pos: 0, n_read: Ghost(0) }
    }

    /// Point lookup in the history: the most recent record that speaks
    /// of `key`, or `None` if no record does.
    pub fn get(&mut self, key: &String) -> (r: Result<Option<LogEntry>, KvdbError>)
        requires
            old(self).wf(),
        ensures
            *final(self) == *old(self),
            match r {
                Ok(found) => match found {
                    Some(e) => last_entry_for(old(self).entries(), key@) == Some(e@),
                    None => last_entry_for(old(self).entries(), key@) is None,
                },
                Err(_) => false,
            },
    {
        let ghost es = self.entries();
        let mut it = self.iter();
        let mut found: Option<LogEntry> = None;
        loop
            invariant
                es == old(self).entries(),
                it.wf(),
                it.log_ref().entries() == es,
                0 <= it.read() <= es.len(),
                match found {
                    Some(e) => last_entry_for(es.take(it.read()), key@) == Some(e@),
                    None => last_entry_for(es.take(it.read()), key@) is None,
                },
            decreases es.len() - it.read(),
        {
            let ghost k = it.read();
            match it.next() {
                None => {
                    proof {
                        assert(es.take(k) =~= es);
                    }
                    return Ok(found);
                },
                Some((entry, _off)) => {
                    proof {
                        lemma_last_entry_take_succ(es, k, key@);
                    }
                    let matches_key = match &entry {
                        LogEntry::Put { key: ek, .. } => *ek == *key,
                        LogEntry::Delete { key: ek } => *ek == *key,
                    };
                    if matches_key {
                        found = Some(entry);
                    }
                },
            }
        }
    }
}

/// A well-formed log's text is exactly the encoding of its records.
pub proof fn lemma_log_text(log: &Log)
    requires
        log.wf(),
    ensures
        log.data_view() == encode_log(log.entries()),
{
}

/// The most recent record of `es` whose key is `k`.
pub open spec fn last_entry_for(es: Seq<EntryModel>, k: Seq<char>) -> Option<EntryModel>
    decreases es.len(),
{
    if es.len() == 0 {
        None
    } else if entry_key(es.last()) == k {
        Some(es.last())
    } else {
        last_entry_for(es.drop_last(), k)
    }
}

/// Scanning one more record updates the most recent match exactly when
/// that record speaks of the key.
proof fn lemma_last_entry_take_succ(es: Seq<EntryModel>, n: int, k: Seq<char>)
    requires
        0 <= n < es.len(),
    ensures
        last_entry_for(es.take(n + 1), k) == if entry_key(es[n]) == k {
            Some(es[n])
        } else {
            last_entry_for(es.take(n), k)
        },
{
    assert(es.take(n + 1).last() == es[n]);
    assert(es.take(n + 1).drop_last() =~= es.take(n));
}

impl<'a> LogFileIterator<'a> {
    /// The log being scanned.
    pub closed spec fn log_ref(&self) -> &'a Log {
        self.log
    }

    /// How many records the scan has yielded.
    pub closed spec fn read(&self) -> int {
        self.n_read@
    }

    /// The scan stands at the start of the first line it has not yet
    /// yielded.
    pub closed spec fn wf(&self) -> bool {
        &&& self.log.wf()
        &&& 0 <= self.n_read@ <= self.log.entries().len()
        &&& self.pos as int == encode_log(self.log.entries().take(self.n_read@)).len()
    }

    /// Yields the next record together with the offset at which its line
    /// starts, or `None` at the end of the log.
    pub fn next(&mut self) -> (r: Option<(LogEntry, LogOffset)>)
        requires
            old(self).wf(),
        ensures
            final(self).wf(),
            final(self).log_ref() == old(self).log_ref(),
            match r {
                Some(p) => {
                    &&& old(self).read() < old(self).log_ref().entries().len()
                    &&& final(self).read() == old(self).read() + 1
                    &&& p.0@ == old(self).log_ref().entries()[old(self).read()]
                    &&& p.1 as int == encode_log(
                        old(self).log_ref().entries().take(old(self).read()),
                    ).len()
                },
                None => {
                    &&& old(self).read() == old(self).log_ref().entries().len()
                    &&& *final(self) == *old(self)
                },
            },
    {
        let ghost es = self.log.entries();
        let ghost k = self.n_read@;
        let n = self.log.data.unicode_len();
        proof {
            if k < es.len() {
                lemma_encode_log_frame(es, k);
                lemma_encode_entry_shape(es[k]);
            } else {
                assert(es.take(k) =~= es);
            }
        }
        if self.pos >= n {
            return None;
        }
        let ghost line_len = encode_entry(es[k]).len() as int;
        let ghost end = self.pos + line_len - 1;
        let pos = self.pos;
        let mut j: usize = pos;
        while j < n && self.log.data.as_str().get_char(j) != '\n'
            invariant
                n == self.log.data@.len(),
                pos <= j <= n,
                forall|i: int| pos <= i < j ==> self.log.data@[i] != '\n',
            decreases n - j,
        {
            j = j + 1;
        }
        proof {
            let d = self.log.data@;
            let line = encode_entry(es[k]);
            assert forall|i: int| pos <= i < end implies d[i] != '\n' by {
                assert(d.subrange(pos as int, pos + line_len) == line);
                assert(d[i] == line[i - pos]);
            }
            assert(d.subrange(pos as int, pos + line_len) == line);
            assert(d[end] == line[line_len - 1]);
            assert(d[end] == '\n');
            assert(j == end);
        }
        let line = self.log.data.as_str().substring_char(pos, j + 1);
        proof {
            assert(line@ =~= encode_entry(es[k]));
            lemma_decode_encode(es[k]);
        }
        match decode_line(line) {
            Err(_) => {
                proof {
                    assert(false);
                }
                None
            },
            Ok(entry) => {
                self.pos = j + 1;
                self.n_read = Ghost(k + 1);
                proof {
                    lemma_encode_log_take_succ(es, k);
                }
                Some((entry, pos))
            },
        }
    }
}

} // verus!
