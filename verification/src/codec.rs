//! Escaping of record fields for the wire form of the log.
//!
//! A record occupies one line of the log.  Inside a field, the characters
//! that structure a line — the backslash, the tab that separates fields
//! and the newline that terminates a record — are written as two-character
//! escape sequences, so that every line of the log is self-delimited and
//! independently decodable.

use vstd::prelude::*;
use vstd::string::*;

verus! {

/// The wire form of one field character.
pub open spec fn esc_char(c: char) -> Seq<char> {
    if c == '\\' {
        seq!['\\', '\\']
    } else if c == '\t' {
        seq!['\\', 't']
    } else if c == '\n' {
        seq!['\\', 'n']
    } else {
        seq![c]
    }
}

/// The wire form of a whole field.
pub open spec fn esc(s: Seq<char>) -> Seq<char>
    decreases s.len(),
{
    if s.len() == 0 {
        Seq::empty()
    } else {
        esc_char(s[0]) + esc(s.drop_first())
    }
}

/// The second character of a valid escape sequence.
pub open spec fn is_escape_code(c: char) -> bool {
    c == '\\' || c == 't' || c == 'n'
}

/// The field character denoted by the second character of an escape
/// sequence.
pub open spec fn unesc_char(c: char) -> char {
    if c == 't' {
        '\t'
    } else if c == 'n' {
        '\n'
    } else {
        '\\'
    }
}

/// Decoding of one escaped field of `l`, starting at index `i`: the
/// decoded field together with the index of its terminator (a tab or a
/// newline), or `None` if no well-formed field ends before the end of
/// `l`.
pub open spec fn unesc_from(l: Seq<char>, i: int) -> Option<(Seq<char>, int)>
    decreases l.len() - i,
{
    if i < 0 || i >= l.len() {
        None
    } else if l[i] == '\t' || l[i] == '\n' {
        Some((Seq::empty(), i))
    } else if l[i] == '\\' {
        if i + 1 < l.len() && is_escape_code(l[i + 1]) {
            match unesc_from(l, i + 2) {
                Some(p) => Some((seq![unesc_char(l[i + 1])] + p.0, p.1)),
                None => None,
            }
        } else {
            None
        }
    } else {
        match unesc_from(l, i + 1) {
            Some(p) => Some((seq![l[i]] + p.0, p.1)),
            None => None,
        }
    }
}

/// A decoded prefix prepended to the outcome of decoding the rest.
spec fn unesc_compose(pre: Seq<char>, r: Option<(Seq<char>, int)>) -> Option<
    (Seq<char>, int),
> {
    match r {
        Some(p) => Some((pre + p.0, p.1)),
        None => None,
    }
}

/// Escaping distributes over appending one character.
proof fn lemma_esc_push(s: Seq<char>, c: char)
    ensures
        esc(s.push(c)) == esc(s) + esc_char(c),
    decreases s.len(),
{
    let t = s.push(c);
    assert(t.len() > 0);
    assert(esc(t) == esc_char(t[0]) + esc(t.drop_first()));
    if s.len() == 0 {
        assert(t[0] == c);
        assert(t.drop_first() =~= Seq::<char>::empty());
        assert(esc(t.drop_first()) == Seq::<char>::empty());
        assert(esc_char(c) + Seq::<char>::empty() =~= esc_char(c));
        assert(esc(s) == Seq::<char>::empty());
        assert(Seq::<char>::empty() + esc_char(c) =~= esc_char(c));
    } else {
        assert(t[0] == s[0]);
        assert(t.drop_first() =~= s.drop_first().push(c));
        lemma_esc_push(s.drop_first(), c);
        assert(esc(s) == esc_char(s[0]) + esc(s.drop_first()));
        assert(esc_char(s[0]) + (esc(s.drop_first()) + esc_char(c)) =~= (esc_char(s[0]) + esc(
            s.drop_first(),
        )) + esc_char(c));
    }
}

/// An escaped field never contains a field separator or a record
/// terminator.
pub proof fn lemma_esc_clean(s: Seq<char>)
    ensures
        forall|i: int|
            0 <= i < esc(s).len() ==> esc(s)[i] != '\t' && esc(s)[i] != '\n',
    decreases s.len(),
{
    if s.len() > 0 {
        lemma_esc_clean(s.drop_first());
        let ec = esc_char(s[0]);
        let rest = esc(s.drop_first());
        assert(esc(s) == ec + rest);
        assert forall|i: int|
            0 <= i < esc(s).len() implies esc(s)[i] != '\t' && esc(s)[i] != '\n' by {
            if i < ec.len() {
                assert(esc(s)[i] == ec[i]);
            } else {
                assert(esc(s)[i] == rest[i - ec.len()]);
            }
        }
    }
}

/// Decoding inverts escaping: if `l` holds the escape of `s` at `i`,
/// followed by a terminator, decoding from `i` recovers exactly `s` and
/// stops at that terminator.
pub proof fn lemma_unesc_esc(l: Seq<char>, i: int, s: Seq<char>)
    requires
        0 <= i,
        i + esc(s).len() < l.len(),
        l.subrange(i, i + esc(s).len()) == esc(s),
        l[i + esc(s).len()] == '\t' || l[i + esc(s).len()] == '\n',
    ensures
        unesc_from(l, i) == Some((s, i + esc(s).len())),
    decreases s.len(),
{
    if s.len() == 0 {
        assert(esc(s) == Seq::<char>::empty());
        assert(l[i] == '\t' || l[i] == '\n');
        assert(unesc_from(l, i) == Some((Seq::<char>::empty(), i)));
        assert(s =~= Seq::<char>::empty());
    } else {
        let c = s[0];
        let ec = esc_char(c);
        let rest = s.drop_first();
        let er = esc(rest);
        let el = esc(s).len() as int;
        let ecl = ec.len() as int;
        let erl = er.len() as int;
        assert(esc(s) == ec + er);
        assert(el == ecl + erl);
        let whole = l.subrange(i, i + el);
        assert(whole == esc(s));
        let i2 = i + ecl;
        assert(l.subrange(i2, i2 + erl) =~= er) by {
            assert forall|k: int| 0 <= k < erl implies l.subrange(i2, i2 + erl)[k] == er[k] by {
                assert(l.subrange(i2, i2 + erl)[k] == l[i2 + k]);
                assert(whole[ecl + k] == l[i + (ecl + k)]);
                assert(i2 + k == i + (ecl + k));
                assert(whole[ecl + k] == (ec + er)[ecl + k]);
                assert((ec + er)[ecl + k] == er[k]);
            }
        }
        assert(i2 + erl == i + el);
        assert(l[i2 + erl] == '\t' || l[i2 + erl] == '\n');
        lemma_unesc_esc(l, i2, rest);
        assert(unesc_from(l, i2) == Some((rest, i + el)));
        assert(whole[0] == l[i + 0]);
        assert(i + 0 == i);
        assert(l[i] == esc(s)[0]);
        assert(esc(s)[0] == ec[0]);
        if c == '\\' || c == '\t' || c == '\n' {
            assert(ecl == 2);
            assert(l[i] == '\\');
            assert(whole[1] == l[i + 1]);
            assert(l[i + 1] == ec[1]);
            assert(is_escape_code(l[i + 1]));
            assert(unesc_char(l[i + 1]) == c);
            assert(i + 1 < l.len());
            assert(i2 == i + 2);
            assert(unesc_from(l, i) == Some((seq![c] + rest, i + el)));
            assert(seq![c] + rest =~= s);
        } else {
            assert(ecl == 1);
            assert(l[i] == c);
            assert(l[i] != '\t' && l[i] != '\n' && l[i] != '\\');
            assert(i2 == i + 1);
            assert(unesc_from(l, i) == Some((seq![c] + rest, i + el)));
            assert(seq![c] + rest =~= s);
        }
    }
}

/// Whatever decoding accepts is the escape of what it returns: the range
/// of `l` between `i` and the terminator is exactly `esc` of the decoded
/// field.
pub proof fn lemma_unesc_sound(l: Seq<char>, i: int)
    requires
        0 <= i,
        unesc_from(l, i) is Some,
    ensures
        ({
            let p = unesc_from(l, i)->Some_0;
            &&& i <= p.1 < l.len()
            &&& l[p.1] == '\t' || l[p.1] == '\n'
            &&& l.subrange(i, p.1) == esc(p.0)
        }),
    decreases l.len() - i,
{
    let p = unesc_from(l, i)->Some_0;
    if l[i] == '\t' || l[i] == '\n' {
        assert(l.subrange(i, i) =~= esc(Seq::<char>::empty()));
    } else if l[i] == '\\' {
        lemma_unesc_sound(l, i + 2);
        let q = unesc_from(l, i + 2)->Some_0;
        let c = unesc_char(l[i + 1]);
        assert(p.0 == seq![c] + q.0);
        assert(esc_char(c) =~= seq![l[i], l[i + 1]]);
        lemma_esc_cons(p.0);
        assert(p.0.drop_first() =~= q.0);
        assert(p.0[0] == c);
        assert(l.subrange(i, p.1) =~= esc_char(c) + l.subrange(i + 2, q.1));
        assert(l.subrange(i, p.1) == esc(p.0));
    } else {
        lemma_unesc_sound(l, i + 1);
        let q = unesc_from(l, i + 1)->Some_0;
        let c = l[i];
        assert(p.0 == seq![c] + q.0);
        assert(esc_char(c) =~= seq![c]);
        lemma_esc_cons(p.0);
        assert(p.0.drop_first() =~= q.0);
        assert(p.0[0] == c);
        assert(l.subrange(i, p.1) =~= esc_char(c) + l.subrange(i + 1, q.1));
        assert(l.subrange(i, p.1) == esc(p.0));
    }
}

/// Unfolding of `esc` on a non-empty field.
proof fn lemma_esc_cons(s: Seq<char>)
    requires
        s.len() > 0,
    ensures
        esc(s) == esc_char(s[0]) + esc(s.drop_first()),
{
}

/// Relies on std's `String::push`: appends the given character to the end
/// of this string.
#[verifier::external_body]
pub(crate) fn push_char(s: &mut String, c: char)
    ensures
        final(s)@ == old(s)@.push(c),
{
    s.push(c);
}

/// Appends the escaped wire form of `s` to `out`.
pub fn append_escaped(out: &mut String, s: &str)
    ensures
        final(out)@ == old(out)@ + esc(s@),
{
    let n = s.unicode_len();
    let mut i: usize = 0;
    while i < n
        invariant
            n == s@.len(),
            i <= n,
            out@ == old(out)@ + esc(s@.subrange(0, i as int)),
        decreases n - i,
    {
        let c = s.get_char(i);
        let ghost pre = s@.subrange(0, i as int);
        proof {
            lemma_esc_push(pre, c);
            assert(s@.subrange(0, i + 1) =~= pre.push(c));
        }
        if c == '\\' {
            push_char(out, '\\');
            push_char(out, '\\');
        } else if c == '\t' {
            push_char(out, '\\');
            push_char(out, 't');
        } else if c == '\n' {
            push_char(out, '\\');
            push_char(out, 'n');
        } else {
            push_char(out, c);
        }
        proof {
            assert(out@ =~= old(out)@ + esc(s@.subrange(0, i + 1)));
        }
        i = i + 1;
    }
    proof {
        assert(s@.subrange(0, n as int) =~= s@);
    }
}

/// Decodes one escaped field of `line` starting at `start`; on success
/// returns the field together with the index of its terminator.
pub fn unescape_field(line: &str, start: usize) -> (r: Option<(String, usize)>)
    ensures
        match r {
            Some(p) => unesc_from(line@, start as int) == Some((p.0@, p.1 as int)),
            None => unesc_from(line@, start as int) is None,
        },
{
    let n = line.unicode_len();
    let mut i: usize = start;
    let mut out = String::new();
    if start > n {
        return None;
    }
    loop
        invariant
            n == line@.len(),
            i <= n,
            unesc_from(line@, start as int) == unesc_compose(
                out@,
                unesc_from(line@, i as int),
            ),
        decreases n - i,
    {
        if i >= n {
            return None;
        }
        let c = line.get_char(i);
        if c == '\t' || c == '\n' {
            proof {
                assert(out@ + Seq::<char>::empty() =~= out@);
            }
            return Some((out, i));
        } else if c == '\\' {
            if i + 1 < n {
                let c2 = line.get_char(i + 1);
                if c2 == '\\' || c2 == 't' || c2 == 'n' {
                    let d = if c2 == 't' {
                        '\t'
                    } else if c2 == 'n' {
                        '\n'
                    } else {
                        '\\'
                    };
                    proof {
                        assert(d == unesc_char(line@[i + 1]));
                        lemma_compose_step(line@, start as int, i as int, i + 2, out@, d);
                    }
                    push_char(&mut out, d);
                    i = i + 2;
                } else {
                    return None;
                }
            } else {
                return None;
            }
        } else {
            proof {
                lemma_compose_step(line@, start as int, i as int, i + 1, out@, c);
            }
            push_char(&mut out, c);
            i = i + 1;
        }
    }
}

/// One step of the decoding loop: consuming the character `d` (written at
/// `i` either plainly or as an escape sequence ending before `j`) moves
/// the composition frontier from `i` to `j`.
proof fn lemma_compose_step(l: Seq<char>, start: int, i: int, j: int, acc: Seq<char>, d: char)
    requires
        unesc_from(l, start) == unesc_compose(acc, unesc_from(l, i)),
        unesc_from(l, i) == unesc_compose(seq![d], unesc_from(l, j)),
    ensures
        unesc_from(l, start) == unesc_compose(acc.push(d), unesc_from(l, j)),
{
    match unesc_from(l, j) {
        Some(p) => {
            assert(acc + (seq![d] + p.0) =~= acc.push(d) + p.0);
        },
        None => {},
    }
}

} // verus!
