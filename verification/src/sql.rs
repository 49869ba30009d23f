//! SQL text: quoted identifiers and the statements built from them.

use vstd::prelude::*;
use crate::text::chars_of;

verus! {

/// `s` with every double quote written twice.
pub open spec fn doubled(s: Seq<char>) -> Seq<char>
    decreases s.len(),
{
    if s.len() == 0 {
        s
    } else if s.last() == '"' {
        doubled(s.drop_last()).push('"').push('"')
    } else {
        doubled(s.drop_last()).push(s.last())
    }
}

/// `name` as a quoted SQL identifier.
pub open spec fn quoted(name: Seq<char>) -> Seq<char> {
    seq!['"'] + doubled(name) + seq!['"']
}

/// Quotes an SQL identifier ("" doubling): table names contain ':' and
/// arbitrary resource-key characters.
pub fn quote_ident(name: &str) -> (r: String)
    ensures
        r@ == quoted(name@),
{
    let cs = chars_of(name);
    let mut out = String::new();
    out.push('"');
    let mut i: usize = 0;
    assert(out@ =~= seq!['"'] + doubled(name@.take(0)));
    while i < cs.len()
        invariant
            cs@ == name@,
            i <= cs@.len(),
            out@ == seq!['"'] + doubled(name@.take(i as int)),
        decreases cs@.len() - i,
    {
        let c = cs[i];
        let ghost before = out@;
        assert(name@.take(i + 1).drop_last() =~= name@.take(i as int));
        if c == '"' {
            out.push('"');
        }
        out.push(c);
        assert(out@ =~= seq!['"'] + doubled(name@.take(i + 1)));
        i = i + 1;
    }
    assert(name@.take(name@.len() as int) =~= name@);
    out.push('"');
    assert(out@ =~= quoted(name@));
    out
}

/// A quoted identifier as SQL reads it: a double quote opens it, two double
/// quotes in a row stand for one, and a single one ends it. `at` is the
/// position inside the quotes from which the rest is read.
pub open spec fn unquoted_from(text: Seq<char>, at: int) -> Option<Seq<char>>
    decreases text.len() - at,
{
    if at < 0 || at >= text.len() {
        None
    } else if text[at] != '"' {
        match unquoted_from(text, at + 1) {
            Some(rest) => Some(seq![text[at]] + rest),
            None => None,
        }
    } else if at + 1 < text.len() && text[at + 1] == '"' {
        match unquoted_from(text, at + 2) {
            Some(rest) => Some(seq!['"'] + rest),
            None => None,
        }
    } else if at + 1 == text.len() {
        Some(Seq::<char>::empty())
    } else {
        None
    }
}

proof fn lemma_doubled_first(s: Seq<char>)
    requires
        s.len() > 0,
    ensures
        doubled(s) == (if s[0] == '"' {
            seq!['"', '"']
        } else {
            seq![s[0]]
        }) + doubled(s.skip(1)),
    decreases s.len(),
{
    let head = if s[0] == '"' {
        seq!['"', '"']
    } else {
        seq![s[0]]
    };
    if s.len() == 1 {
        assert(s.drop_last() =~= Seq::<char>::empty());
        assert(s.skip(1) =~= Seq::<char>::empty());
        assert(doubled(s) =~= head + doubled(s.skip(1)));
    } else {
        lemma_doubled_first(s.drop_last());
        assert(s.drop_last().skip(1) =~= s.skip(1).drop_last());
        assert(s.skip(1).last() == s.last());
        assert(doubled(s) =~= head + doubled(s.skip(1)));
    }
}

proof fn lemma_unquote_tail(text: Seq<char>, at: int, name: Seq<char>)
    requires
        0 <= at,
        text.len() >= at,
        text.skip(at) == doubled(name) + seq!['"'],
    ensures
        unquoted_from(text, at) == Some(name),
    decreases name.len(),
{
    let rest = text.skip(at);
    assert(forall|i: int| 0 <= i < rest.len() ==> rest[i] == text[at + i]);
    if name.len() == 0 {
        assert(rest =~= seq!['"']);
        assert(rest[0] == text[at]);
        assert(name =~= Seq::<char>::empty());
    } else {
        lemma_doubled_first(name);
        let tail = name.skip(1);
        if name[0] == '"' {
            assert(rest =~= seq!['"', '"'] + doubled(tail) + seq!['"']);
            assert(rest[0] == '"' && rest[1] == '"');
            assert(text.skip(at + 2) =~= doubled(tail) + seq!['"']) by {
                assert(text.skip(at + 2) =~= rest.skip(2));
            }
            lemma_unquote_tail(text, at + 2, tail);
        } else {
            assert(rest =~= seq![name[0]] + doubled(tail) + seq!['"']);
            assert(rest[0] == name[0]);
            assert(text.skip(at + 1) =~= doubled(tail) + seq!['"']) by {
                assert(text.skip(at + 1) =~= rest.skip(1));
            }
            lemma_unquote_tail(text, at + 1, tail);
        }
        assert(seq![name[0]] + tail =~= name);
    }
}

/// A quoted identifier reads back as the name it was made from, whatever
/// characters the name holds, and nothing is left over behind it.
pub proof fn law_quoting_reads_back(name: Seq<char>)
    ensures
        quoted(name)[0] == '"',
        unquoted_from(quoted(name), 1) == Some(name),
{
    assert(quoted(name).skip(1) =~= doubled(name) + seq!['"']);
    lemma_unquote_tail(quoted(name), 1, name);
}

/// Two names that quote alike are the same name.
pub proof fn law_quoting_is_injective(a: Seq<char>, b: Seq<char>)
    requires
        quoted(a) == quoted(b),
    ensures
        a == b,
{
    law_quoting_reads_back(a);
    law_quoting_reads_back(b);
}

} // verus!
