//! The structured text encoding of nested values in output cells.
//!
//! A label sequence or a property mapping occupies a single cell of a row,
//! so it is rendered as embedded JSON: strings quoted with `"`, `\` and `"`
//! escaped with a backslash and the common control characters written as
//! `\n`, `\r` and `\t`; sequences in `[...]`, mappings in `{...}`.

use vstd::prelude::*;
use vstd::string::StrSliceExecFns;
use crate::extract::{DataPropsM, PropsM};

verus! {

pub open spec fn escape_char(c: char) -> Seq<char> {
    if c == '"' {
        seq!['\\', '"']
    } else if c == '\\' {
        seq!['\\', '\\']
    } else if c == '\n' {
        seq!['\\', 'n']
    } else if c == '\r' {
        seq!['\\', 'r']
    } else if c == '\t' {
        seq!['\\', 't']
    } else {
        seq![c]
    }
}

pub open spec fn escape_str(s: Seq<char>) -> Seq<char>
    decreases s.len(),
{
    if s.len() == 0 {
        Seq::empty()
    } else {
        escape_char(s[0]) + escape_str(s.drop_first())
    }
}

/// A string cell value: the escaped characters between double quotes.
pub open spec fn enc_str(s: Seq<char>) -> Seq<char> {
    seq!['"'] + escape_str(s) + seq!['"']
}

/// The comma-separated encodings of a sequence of strings.
pub open spec fn enc_str_items(ss: Seq<Seq<char>>) -> Seq<char>
    decreases ss.len(),
{
    if ss.len() == 0 {
        Seq::empty()
    } else if ss.len() == 1 {
        enc_str(ss[0])
    } else {
        enc_str(ss[0]) + seq![','] + enc_str_items(ss.drop_first())
    }
}

/// A sequence of strings as one cell value.
pub open spec fn enc_str_list(ss: Seq<Seq<char>>) -> Seq<char> {
    seq!['['] + enc_str_items(ss) + seq![']']
}

/// The comma-separated encodings of a sequence of string sequences.
pub open spec fn enc_list_items(ll: Seq<Seq<Seq<char>>>) -> Seq<char>
    decreases ll.len(),
{
    if ll.len() == 0 {
        Seq::empty()
    } else if ll.len() == 1 {
        enc_str_list(ll[0])
    } else {
        enc_str_list(ll[0]) + seq![','] + enc_list_items(ll.drop_first())
    }
}

/// A sequence of string sequences as one cell value.
pub open spec fn enc_list_list(ll: Seq<Seq<Seq<char>>>) -> Seq<char> {
    seq!['['] + enc_list_items(ll) + seq![']']
}

/// The comma-separated `"key":[...]` members of the relational mapping.
pub open spec fn enc_props_items(m: PropsM) -> Seq<char>
    decreases m.len(),
{
    if m.len() == 0 {
        Seq::empty()
    } else if m.len() == 1 {
        enc_str(m[0].0) + seq![':'] + enc_str_list(m[0].1)
    } else {
        enc_str(m[0].0) + seq![':'] + enc_str_list(m[0].1) + seq![','] + enc_props_items(
            m.drop_first(),
        )
    }
}

/// The relational-properties mapping as one cell value.
pub open spec fn enc_props(m: PropsM) -> Seq<char> {
    seq!['{'] + enc_props_items(m) + seq!['}']
}

/// The comma-separated `"key":[[...],...]` members of the literal mapping.
pub open spec fn enc_data_props_items(m: DataPropsM) -> Seq<char>
    decreases m.len(),
{
    if m.len() == 0 {
        Seq::empty()
    } else if m.len() == 1 {
        enc_str(m[0].0) + seq![':'] + enc_list_list(m[0].1)
    } else {
        enc_str(m[0].0) + seq![':'] + enc_list_list(m[0].1) + seq![','] + enc_data_props_items(
            m.drop_first(),
        )
    }
}

/// The literal-properties mapping as one cell value.
pub open spec fn enc_data_props(m: DataPropsM) -> Seq<char> {
    seq!['{'] + enc_data_props_items(m) + seq!['}']
}

proof fn lemma_escape_str_snoc(s: Seq<char>, c: char)
    ensures
        escape_str(s.push(c)) == escape_str(s) + escape_char(c),
    decreases s.len(),
{
    if s.len() == 0 {
        reveal_with_fuel(escape_str, 2);
        assert(s.push(c)[0] == c);
        assert(s.push(c).drop_first() =~= Seq::<char>::empty());
        assert(escape_str(s.push(c)) =~= escape_char(c) + Seq::<char>::empty());
        assert(escape_char(c) + Seq::<char>::empty() =~= escape_char(c));
        assert(escape_str(s) + escape_char(c) =~= escape_char(c));
    } else {
        assert(s.push(c).drop_first() =~= s.drop_first().push(c));
        lemma_escape_str_snoc(s.drop_first(), c);
        assert(escape_char(s[0]) + (escape_str(s.drop_first()) + escape_char(c)) =~= escape_char(
            s[0],
        ) + escape_str(s.drop_first()) + escape_char(c));
    }
}

proof fn lemma_enc_str_items_snoc(ss: Seq<Seq<char>>, x: Seq<char>)
    ensures
        ss.len() == 0 ==> enc_str_items(ss.push(x)) == enc_str(x),
        ss.len() > 0 ==> enc_str_items(ss.push(x)) == enc_str_items(ss) + seq![','] + enc_str(x),
    decreases ss.len(),
{
    if ss.len() == 0 {
        assert(ss.push(x)[0] == x);
    } else {
        assert(ss.push(x).drop_first() =~= ss.drop_first().push(x));
        lemma_enc_str_items_snoc(ss.drop_first(), x);
        if ss.len() == 1 {
            assert(enc_str_items(ss.push(x)) =~= enc_str_items(ss) + seq![','] + enc_str(x));
        } else {
            assert(enc_str(ss[0]) + seq![','] + (enc_str_items(ss.drop_first()) + seq![',']
                + enc_str(x)) =~= enc_str_items(ss) + seq![','] + enc_str(x));
        }
    }
}

proof fn lemma_enc_list_items_snoc(ll: Seq<Seq<Seq<char>>>, x: Seq<Seq<char>>)
    ensures
        ll.len() == 0 ==> enc_list_items(ll.push(x)) == enc_str_list(x),
        ll.len() > 0 ==> enc_list_items(ll.push(x)) == enc_list_items(ll) + seq![',']
            + enc_str_list(x),
    decreases ll.len(),
{
    if ll.len() == 0 {
        assert(ll.push(x)[0] == x);
    } else {
        assert(ll.push(x).drop_first() =~= ll.drop_first().push(x));
        lemma_enc_list_items_snoc(ll.drop_first(), x);
        if ll.len() == 1 {
            assert(enc_list_items(ll.push(x)) =~= enc_list_items(ll) + seq![','] + enc_str_list(x));
        } else {
            assert(enc_str_list(ll[0]) + seq![','] + (enc_list_items(ll.drop_first()) + seq![',']
                + enc_str_list(x)) =~= enc_list_items(ll) + seq![','] + enc_str_list(x));
        }
    }
}

proof fn lemma_enc_props_items_snoc(m: PropsM, x: (Seq<char>, Seq<Seq<char>>))
    ensures
        m.len() == 0 ==> enc_props_items(m.push(x)) == enc_str(x.0) + seq![':'] + enc_str_list(x.1),
        m.len() > 0 ==> enc_props_items(m.push(x)) == enc_props_items(m) + seq![','] + enc_str(x.0)
            + seq![':'] + enc_str_list(x.1),
    decreases m.len(),
{
    if m.len() == 0 {
        assert(m.push(x)[0] == x);
        assert(enc_props_items(m.push(x)) =~= enc_str(x.0) + seq![':'] + enc_str_list(x.1));
    } else {
        assert(m.push(x).drop_first() =~= m.drop_first().push(x));
        lemma_enc_props_items_snoc(m.drop_first(), x);
        if m.len() == 1 {
            assert(enc_props_items(m.push(x)) =~= enc_props_items(m) + seq![','] + enc_str(x.0)
                + seq![':'] + enc_str_list(x.1));
        } else {
            assert(enc_props_items(m.push(x)) =~= enc_props_items(m) + seq![','] + enc_str(x.0)
                + seq![':'] + enc_str_list(x.1));
        }
    }
}

proof fn lemma_enc_data_props_items_snoc(m: DataPropsM, x: (Seq<char>, Seq<Seq<Seq<char>>>))
    ensures
        m.len() == 0 ==> enc_data_props_items(m.push(x)) == enc_str(x.0) + seq![':']
            + enc_list_list(x.1),
        m.len() > 0 ==> enc_data_props_items(m.push(x)) == enc_data_props_items(m) + seq![',']
            + enc_str(x.0) + seq![':'] + enc_list_list(x.1),
    decreases m.len(),
{
    if m.len() == 0 {
        assert(m.push(x)[0] == x);
        assert(enc_data_props_items(m.push(x)) =~= enc_str(x.0) + seq![':'] + enc_list_list(x.1));
    } else {
        assert(m.push(x).drop_first() =~= m.drop_first().push(x));
        lemma_enc_data_props_items_snoc(m.drop_first(), x);
        if m.len() == 1 {
            assert(enc_data_props_items(m.push(x)) =~= enc_data_props_items(m) + seq![',']
                + enc_str(x.0) + seq![':'] + enc_list_list(x.1));
        } else {
            assert(enc_data_props_items(m.push(x)) =~= enc_data_props_items(m) + seq![',']
                + enc_str(x.0) + seq![':'] + enc_list_list(x.1));
        }
    }
}

/// Relies on String::push: appends exactly the one character.
#[verifier::external_body]
fn push_char(s: &mut String, c: char)
    ensures
        final(s)@ == old(s)@ + seq![c],
{
    s.push(c);
}

/// Appends the escaped form of one character.
fn push_escaped(out: &mut String, c: char)
    ensures
        final(out)@ == old(out)@ + escape_char(c),
{
    if c == '"' {
        push_char(out, '\\');
        push_char(out, '"');
        proof {
            assert(out@ =~= old(out)@ + escape_char(c));
        }
    } else if c == '\\' {
        push_char(out, '\\');
        push_char(out, '\\');
        proof {
            assert(out@ =~= old(out)@ + escape_char(c));
        }
    } else if c == '\n' {
        push_char(out, '\\');
        push_char(out, 'n');
        proof {
            assert(out@ =~= old(out)@ + escape_char(c));
        }
    } else if c == '\r' {
        push_char(out, '\\');
        push_char(out, 'r');
        proof {
            assert(out@ =~= old(out)@ + escape_char(c));
        }
    } else if c == '\t' {
        push_char(out, '\\');
        push_char(out, 't');
        proof {
            assert(out@ =~= old(out)@ + escape_char(c));
        }
    } else {
        push_char(out, c);
        proof {
            assert(out@ =~= old(out)@ + escape_char(c));
        }
    }
}

/// Appends the quoted, escaped form of `s`.
#[verifier::loop_isolation(false)]
fn append_enc_str(out: &mut String, s: &str)
    ensures
        final(out)@ == old(out)@ + enc_str(s@),
{
    push_char(out, '"');
    let n = s.unicode_len();
    let mut i: usize = 0;
    proof {
        assert(s@.take(0) =~= Seq::<char>::empty());
        assert(out@ =~= old(out)@ + seq!['"'] + escape_str(s@.take(0)));
    }
    while i < n
        invariant
            i <= n,
            out@ == old(out)@ + seq!['"'] + escape_str(s@.take(i as int)),
        decreases n - i,
    {
        let c = s.get_char(i);
        push_escaped(out, c);
        proof {
            assert(s@.take(i as int).push(c) =~= s@.take(i as int + 1));
            lemma_escape_str_snoc(s@.take(i as int), c);
            assert(out@ =~= old(out)@ + seq!['"'] + escape_str(s@.take(i as int + 1)));
        }
        i += 1;
    }
    push_char(out, '"');
    proof {
        assert(s@.take(s@.len() as int) =~= s@);
        assert(out@ =~= old(out)@ + enc_str(s@));
    }
}

/// Appends the encoding of a list of strings.
#[verifier::loop_isolation(false)]
fn append_enc_str_list(out: &mut String, v: &Vec<String>)
    ensures
        final(out)@ == old(out)@ + enc_str_list(v.deep_view()),
{
    let ghost dv = v.deep_view();
    push_char(out, '[');
    let mut i: usize = 0;
    proof {
        assert(dv.take(0) =~= Seq::<Seq<char>>::empty());
        assert(out@ =~= old(out)@ + seq!['['] + enc_str_items(dv.take(0)));
    }
    while i < v.len()
        invariant
            i <= v.len(),
            out@ == old(out)@ + seq!['['] + enc_str_items(dv.take(i as int)),
        decreases v.len() - i,
    {
        if i > 0 {
            push_char(out, ',');
        }
        append_enc_str(out, v[i].as_str());
        proof {
            assert(dv[i as int] == v@[i as int]@);
            assert(dv.take(i as int).push(dv[i as int]) =~= dv.take(i as int + 1));
            lemma_enc_str_items_snoc(dv.take(i as int), dv[i as int]);
            assert(out@ =~= old(out)@ + seq!['['] + enc_str_items(dv.take(i as int + 1)));
        }
        i += 1;
    }
    push_char(out, ']');
    proof {
        assert(dv.take(dv.len() as int) =~= dv);
        assert(out@ =~= old(out)@ + enc_str_list(dv));
    }
}

/// Appends the encoding of a list of string lists.
#[verifier::loop_isolation(false)]
fn append_enc_list_list(out: &mut String, v: &Vec<Vec<String>>)
    ensures
        final(out)@ == old(out)@ + enc_list_list(v.deep_view()),
{
    let ghost dv = v.deep_view();
    push_char(out, '[');
    let mut i: usize = 0;
    proof {
        assert(dv.take(0) =~= Seq::<Seq<Seq<char>>>::empty());
        assert(out@ =~= old(out)@ + seq!['['] + enc_list_items(dv.take(0)));
    }
    while i < v.len()
        invariant
            i <= v.len(),
            out@ == old(out)@ + seq!['['] + enc_list_items(dv.take(i as int)),
        decreases v.len() - i,
    {
        if i > 0 {
            push_char(out, ',');
        }
        append_enc_str_list(out, &v[i]);
        proof {
            assert(dv[i as int] == v@[i as int].deep_view());
            assert(dv.take(i as int).push(dv[i as int]) =~= dv.take(i as int + 1));
            lemma_enc_list_items_snoc(dv.take(i as int), dv[i as int]);
            assert(out@ =~= old(out)@ + seq!['['] + enc_list_items(dv.take(i as int + 1)));
        }
        i += 1;
    }
    push_char(out, ']');
    proof {
        assert(dv.take(dv.len() as int) =~= dv);
        assert(out@ =~= old(out)@ + enc_list_list(dv));
    }
}

/// A list of strings as one cell, such as a label sequence.
pub fn encode_string_list(v: &Vec<String>) -> (r: String)
    ensures
        r@ == enc_str_list(v.deep_view()),
{
    let mut out = String::new();
    append_enc_str_list(&mut out, v);
    proof {
        assert(out@ =~= enc_str_list(v.deep_view()));
    }
    out
}

/// The relational-properties mapping as one cell.
#[verifier::loop_isolation(false)]
pub fn encode_props(m: &Vec<(String, Vec<String>)>) -> (r: String)
    ensures
        r@ == enc_props(m.deep_view()),
{
    let ghost dv = m.deep_view();
    let mut out = String::new();
    push_char(&mut out, '{');
    let mut i: usize = 0;
    proof {
        assert(dv.take(0) =~= Seq::<(Seq<char>, Seq<Seq<char>>)>::empty());
        assert(out@ =~= seq!['{'] + enc_props_items(dv.take(0)));
    }
    while i < m.len()
        invariant
            i <= m.len(),
            out@ == seq!['{'] + enc_props_items(dv.take(i as int)),
        decreases m.len() - i,
    {
        if i > 0 {
            push_char(&mut out, ',');
        }
        append_enc_str(&mut out, m[i].0.as_str());
        push_char(&mut out, ':');
        append_enc_str_list(&mut out, &m[i].1);
        proof {
            assert(dv[i as int] == (m@[i as int].0@, m@[i as int].1.deep_view()));
            assert(dv.take(i as int).push(dv[i as int]) =~= dv.take(i as int + 1));
            lemma_enc_props_items_snoc(dv.take(i as int), dv[i as int]);
            assert(out@ =~= seq!['{'] + enc_props_items(dv.take(i as int + 1)));
        }
        i += 1;
    }
    push_char(&mut out, '}');
    proof {
        assert(dv.take(dv.len() as int) =~= dv);
        assert(out@ =~= enc_props(dv));
    }
    out
}

/// The literal-properties mapping as one cell.
#[verifier::loop_isolation(false)]
pub fn encode_data_props(m: &Vec<(String, Vec<Vec<String>>)>) -> (r: String)
    ensures
        r@ == enc_data_props(m.deep_view()),
{
    let ghost dv = m.deep_view();
    let mut out = String::new();
    push_char(&mut out, '{');
    let mut i: usize = 0;
    proof {
        assert(dv.take(0) =~= Seq::<(Seq<char>, Seq<Seq<Seq<char>>>)>::empty());
        assert(out@ =~= seq!['{'] + enc_data_props_items(dv.take(0)));
    }
    while i < m.len()
        invariant
            i <= m.len(),
            out@ == seq!['{'] + enc_data_props_items(dv.take(i as int)),
        decreases m.len() - i,
    {
        if i > 0 {
            push_char(&mut out, ',');
        }
        append_enc_str(&mut out, m[i].0.as_str());
        push_char(&mut out, ':');
        append_enc_list_list(&mut out, &m[i].1);
        proof {
            assert(dv[i as int] == (m@[i as int].0@, m@[i as int].1.deep_view()));
            assert(dv.take(i as int).push(dv[i as int]) =~= dv.take(i as int + 1));
            lemma_enc_data_props_items_snoc(dv.take(i as int), dv[i as int]);
            assert(out@ =~= seq!['{'] + enc_data_props_items(dv.take(i as int + 1)));
        }
        i += 1;
    }
    push_char(&mut out, '}');
    proof {
        assert(dv.take(dv.len() as int) =~= dv);
        assert(out@ =~= enc_data_props(dv));
    }
    out
}

} // verus!
