//! The on-disk format of the document: one JSON object whose property names
//! are the keys and whose values are arrays of strings. The writer emits the
//! compact form; the reader accepts whitespace between tokens and the JSON
//! string escapes, and rejects everything that is not an object of arrays of
//! strings.

use crate::store::{find_key, keys_distinct, Document, Entry};
use vstd::prelude::*;
use vstd::string::*;

verus! {

/// Relies on String::push: it appends exactly the one character at the end.
pub assume_specification[ String::push ](s: &mut String, c: char)
    ensures
        final(s)@ == old(s)@.push(c),
;

/// Relies on char::from_u32: `Some` exactly for code points that are not
/// surrogates and do not exceed 0x10FFFF, and then the char with that value.
pub assume_specification[ char::from_u32 ](n: u32) -> (r: Option<char>)
    ensures
        (r is Some) <==> (n < 0xD800 || (0xE000 <= n && n <= 0x10FFFF)),
        r is Some ==> r->Some_0 == n as char,
;

/// The backing file did not hold a JSON object of arrays of strings.
#[derive(Debug)]
pub struct ParseError;

/// Hexadecimal digit, lower case, as the writer emits it.
pub open spec fn hex_digit(n: int) -> char {
    if n == 0 {
        '0'
    } else if n == 1 {
        '1'
    } else if n == 2 {
        '2'
    } else if n == 3 {
        '3'
    } else if n == 4 {
        '4'
    } else if n == 5 {
        '5'
    } else if n == 6 {
        '6'
    } else if n == 7 {
        '7'
    } else if n == 8 {
        '8'
    } else if n == 9 {
        '9'
    } else if n == 10 {
        'a'
    } else if n == 11 {
        'b'
    } else if n == 12 {
        'c'
    } else if n == 13 {
        'd'
    } else if n == 14 {
        'e'
    } else {
        'f'
    }
}

/// How one character appears inside a JSON string: quote, backslash and the
/// five short control escapes get a two-character escape, any other control
/// character a `\u00..` escape, and everything else stands as itself.
pub open spec fn esc_char(c: char) -> Seq<char> {
    if c == '"' {
        seq!['\\', '"']
    } else if c == '\\' {
        seq!['\\', '\\']
    } else if c == '\u{8}' {
        seq!['\\', 'b']
    } else if c == '\t' {
        seq!['\\', 't']
    } else if c == '\n' {
        seq!['\\', 'n']
    } else if c == '\u{c}' {
        seq!['\\', 'f']
    } else if c == '\r' {
        seq!['\\', 'r']
    } else if (c as u32) < 0x20 {
        seq!['\\', 'u', '0', '0', hex_digit((c as u32 / 16) as int), hex_digit((c as u32 % 16) as int)]
    } else {
        seq![c]
    }
}

/// The characters of a JSON string body: each character escaped in turn.
pub open spec fn ser_str_body(s: Seq<char>) -> Seq<char>
    decreases s.len(),
{
    if s.len() == 0 {
        Seq::empty()
    } else {
        esc_char(s[0]) + ser_str_body(s.drop_first())
    }
}

/// A JSON string: the escaped body between quotes.
pub open spec fn ser_string(s: Seq<char>) -> Seq<char> {
    seq!['"'] + ser_str_body(s) + seq!['"']
}

/// The comma-separated strings inside an array.
pub open spec fn ser_values(vs: Seq<Seq<char>>) -> Seq<char>
    decreases vs.len(),
{
    if vs.len() == 0 {
        Seq::empty()
    } else if vs.len() == 1 {
        ser_string(vs[0])
    } else {
        ser_string(vs[0]) + seq![','] + ser_values(vs.drop_first())
    }
}

/// A JSON array of strings.
pub open spec fn ser_array(vs: Seq<Seq<char>>) -> Seq<char> {
    seq!['['] + ser_values(vs) + seq![']']
}

/// One object member: the key, a colon, the array of values.
pub open spec fn ser_entry(e: (Seq<char>, Seq<Seq<char>>)) -> Seq<char> {
    ser_string(e.0) + seq![':'] + ser_array(e.1)
}

/// The comma-separated members of the object.
pub open spec fn ser_entries(d: Seq<(Seq<char>, Seq<Seq<char>>)>) -> Seq<char>
    decreases d.len(),
{
    if d.len() == 0 {
        Seq::empty()
    } else if d.len() == 1 {
        ser_entry(d[0])
    } else {
        ser_entry(d[0]) + seq![','] + ser_entries(d.drop_first())
    }
}

/// The whole document as its compact JSON text.
pub open spec fn ser_doc(d: Seq<(Seq<char>, Seq<Seq<char>>)>) -> Seq<char> {
    seq!['{'] + ser_entries(d) + seq!['}']
}

/// Serializing one more character appends its escape.
proof fn lemma_ser_str_body_push(t: Seq<char>, c: char)
    ensures
        ser_str_body(t.push(c)) == ser_str_body(t) + esc_char(c),
    decreases t.len(),
{
    if t.len() == 0 {
        assert(t.push(c)[0] == c);
        assert(t.push(c).drop_first() =~= Seq::<char>::empty());
        assert(ser_str_body(t.push(c)) == esc_char(c) + ser_str_body(Seq::<char>::empty()));
        assert(esc_char(c) + Seq::<char>::empty() =~= esc_char(c));
        assert(ser_str_body(t) + esc_char(c) =~= esc_char(c));
    } else {
        assert(t.push(c)[0] == t[0]);
        assert(t.push(c).drop_first() =~= t.drop_first().push(c));
        lemma_ser_str_body_push(t.drop_first(), c);
        assert(esc_char(t[0]) + (ser_str_body(t.drop_first()) + esc_char(c)) =~= (esc_char(t[0])
            + ser_str_body(t.drop_first())) + esc_char(c));
    }
}

/// Serializing one more array element appends a comma (except at the front)
/// and the element's string.
proof fn lemma_ser_values_push(vs: Seq<Seq<char>>, v: Seq<char>)
    ensures
        vs.len() == 0 ==> ser_values(vs.push(v)) == ser_string(v),
        vs.len() > 0 ==> ser_values(vs.push(v)) == ser_values(vs) + seq![','] + ser_string(v),
    decreases vs.len(),
{
    if vs.len() == 0 {
        assert(vs.push(v)[0] == v);
        assert(ser_values(vs.push(v)) == ser_string(v));
    } else if vs.len() == 1 {
        assert(vs.push(v)[0] == vs[0]);
        assert(vs.push(v).drop_first() =~= seq![v]);
        assert(ser_values(seq![v]) == ser_string(v));
        assert(ser_values(vs.push(v)) == ser_string(vs[0]) + seq![','] + ser_string(v));
    } else {
        assert(vs.push(v)[0] == vs[0]);
        assert(vs.push(v).drop_first() =~= vs.drop_first().push(v));
        lemma_ser_values_push(vs.drop_first(), v);
        assert(ser_string(vs[0]) + seq![','] + (ser_values(vs.drop_first()) + seq![',']
            + ser_string(v)) =~= (ser_string(vs[0]) + seq![','] + ser_values(vs.drop_first()))
            + seq![','] + ser_string(v));
    }
}

/// Serializing one more member appends a comma (except at the front) and the
/// member's text.
proof fn lemma_ser_entries_push(d: Seq<(Seq<char>, Seq<Seq<char>>)>, e: (Seq<char>, Seq<Seq<char>>))
    ensures
        d.len() == 0 ==> ser_entries(d.push(e)) == ser_entry(e),
        d.len() > 0 ==> ser_entries(d.push(e)) == ser_entries(d) + seq![','] + ser_entry(e),
    decreases d.len(),
{
    if d.len() == 0 {
        assert(d.push(e)[0] == e);
        assert(ser_entries(d.push(e)) == ser_entry(e));
    } else if d.len() == 1 {
        assert(d.push(e)[0] == d[0]);
        assert(d.push(e).drop_first() =~= seq![e]);
        assert(ser_entries(seq![e]) == ser_entry(e));
    } else {
        assert(d.push(e)[0] == d[0]);
        assert(d.push(e).drop_first() =~= d.drop_first().push(e));
        lemma_ser_entries_push(d.drop_first(), e);
        assert(ser_entry(d[0]) + seq![','] + (ser_entries(d.drop_first()) + seq![','] + ser_entry(
            e,
        )) =~= (ser_entry(d[0]) + seq![','] + ser_entries(d.drop_first())) + seq![','] + ser_entry(
            e,
        ));
    }
}

/// The lower-case hexadecimal digit for `n`.
fn hex_digit_char(n: u32) -> (c: char)
    requires
        n < 16,
    ensures
        c == hex_digit(n as int),
{
    if n == 0 {
        '0'
    } else if n == 1 {
        '1'
    } else if n == 2 {
        '2'
    } else if n == 3 {
        '3'
    } else if n == 4 {
        '4'
    } else if n == 5 {
        '5'
    } else if n == 6 {
        '6'
    } else if n == 7 {
        '7'
    } else if n == 8 {
        '8'
    } else if n == 9 {
        '9'
    } else if n == 10 {
        'a'
    } else if n == 11 {
        'b'
    } else if n == 12 {
        'c'
    } else if n == 13 {
        'd'
    } else if n == 14 {
        'e'
    } else {
        'f'
    }
}

/// Appends the escaped form of one character.
fn write_escaped_char(out: &mut String, c: char)
    ensures
        final(out)@ == old(out)@ + esc_char(c),
{
    let ghost o0 = out@;
    let n = c as u32;
    if c == '"' {
        out.push('\\');
        out.push('"');
        assert(out@ =~= o0 + esc_char(c));
    } else if c == '\\' {
        out.push('\\');
        out.push('\\');
        assert(out@ =~= o0 + esc_char(c));
    } else if n == 0x8 {
        out.push('\\');
        out.push('b');
        assert(c == '\u{8}');
        assert(out@ =~= o0 + esc_char(c));
    } else if n == 0x9 {
        out.push('\\');
        out.push('t');
        assert(c == '\t');
        assert(out@ =~= o0 + esc_char(c));
    } else if n == 0xa {
        out.push('\\');
        out.push('n');
        assert(c == '\n');
        assert(out@ =~= o0 + esc_char(c));
    } else if n == 0xc {
        out.push('\\');
        out.push('f');
        assert(c == '\u{c}');
        assert(out@ =~= o0 + esc_char(c));
    } else if n == 0xd {
        out.push('\\');
        out.push('r');
        assert(c == '\r');
        assert(out@ =~= o0 + esc_char(c));
    } else if n < 0x20 {
        out.push('\\');
        out.push('u');
        out.push('0');
        out.push('0');
        out.push(hex_digit_char(n / 16));
        out.push(hex_digit_char(n % 16));
        assert(out@ =~= o0 + esc_char(c));
    } else {
        out.push(c);
        assert(out@ =~= o0 + esc_char(c));
    }
}

/// Appends the escaped body of one string.
fn write_str_body(out: &mut String, s: &str)
    ensures
        final(out)@ == old(out)@ + ser_str_body(s@),
{
    let n = s.unicode_len();
    let mut i: usize = 0;
    while i < n
        invariant
            i <= n,
            n == s@.len(),
            out@ == old(out)@ + ser_str_body(s@.take(i as int)),
        decreases n - i,
    {
        let c = s.get_char(i);
        write_escaped_char(out, c);
        proof {
            assert(s@.take(i + 1 as int) =~= s@.take(i as int).push(s@[i as int]));
            lemma_ser_str_body_push(s@.take(i as int), s@[i as int]);
            assert((old(out)@ + ser_str_body(s@.take(i as int))) + esc_char(s@[i as int]) =~= old(
                out,
            )@ + (ser_str_body(s@.take(i as int)) + esc_char(s@[i as int])));
        }
        i = i + 1;
    }
    proof {
        assert(s@.take(n as int) =~= s@);
    }
}

/// Appends one quoted JSON string.
fn write_string(out: &mut String, s: &str)
    ensures
        final(out)@ == old(out)@ + ser_string(s@),
{
    let ghost o0 = out@;
    out.push('"');
    write_str_body(out, s);
    out.push('"');
    assert(out@ =~= o0 + ser_string(s@));
}

/// Appends one member: key, colon, and the array of values.
fn write_entry(out: &mut String, e: &Entry)
    ensures
        final(out)@ == old(out)@ + ser_entry(e@),
{
    let ghost o0 = out@;
    write_string(out, e.key.as_str());
    out.push(':');
    out.push('[');
    let n = e.values.len();
    let mut i: usize = 0;
    while i < n
        invariant
            i <= n,
            n == e.values@.len(),
            e@.1 == e.values.deep_view(),
            out@ == o0 + ser_string(e@.0) + seq![':'] + seq!['['] + ser_values(
                e.values.deep_view().take(i as int),
            ),
        decreases n - i,
    {
        if i > 0 {
            out.push(',');
        }
        let ghost pre = out@;
        write_string(out, e.values[i].as_str());
        proof {
            let vs = e.values.deep_view();
            assert(e.values[i as int]@ == vs[i as int]);
            assert(vs.take(i + 1 as int) =~= vs.take(i as int).push(vs[i as int]));
            lemma_ser_values_push(vs.take(i as int), vs[i as int]);
            if i == 0 {
                assert(out@ =~= o0 + ser_string(e@.0) + seq![':'] + seq!['['] + ser_values(
                    vs.take(i + 1 as int),
                ));
            } else {
                assert(out@ =~= o0 + ser_string(e@.0) + seq![':'] + seq!['['] + ser_values(
                    vs.take(i + 1 as int),
                ));
            }
        }
        i = i + 1;
    }
    out.push(']');
    proof {
        assert(e.values.deep_view().take(n as int) =~= e.values.deep_view());
        assert(out@ =~= o0 + ser_entry(e@));
    }
}

/// The document's JSON text, exactly as `ser_doc` describes it.
pub fn serialize(doc: &Document) -> (r: String)
    ensures
        r@ == ser_doc(doc@),
{
    let mut out = String::new();
    out.push('{');
    let n = doc.entries.len();
    let mut i: usize = 0;
    while i < n
        invariant
            i <= n,
            n == doc.entries@.len(),
            doc@ == doc.entries.deep_view(),
            doc@.len() == n,
            out@ == seq!['{'] + ser_entries(doc@.take(i as int)),
        decreases n - i,
    {
        if i > 0 {
            out.push(',');
        }
        write_entry(&mut out, &doc.entries[i]);
        proof {
            assert(doc.entries[i as int].deep_view() == doc@[i as int]);
            assert(doc@.take(i + 1 as int) =~= doc@.take(i as int).push(doc@[i as int]));
            lemma_ser_entries_push(doc@.take(i as int), doc@[i as int]);
            assert(out@ =~= seq!['{'] + ser_entries(doc@.take(i + 1 as int)));
        }
        i = i + 1;
    }
    out.push('}');
    proof {
        assert(doc@.take(n as int) =~= doc@);
        assert(out@ =~= ser_doc(doc@));
    }
    out
}


/// JSON whitespace.
pub open spec fn is_ws(c: char) -> bool {
    c == ' ' || c == '\t' || c == '\n' || c == '\r'
}

/// The input with its leading whitespace removed.
pub open spec fn sp_ws(t: Seq<char>) -> Seq<char>
    decreases t.len(),
{
    if t.len() > 0 && is_ws(t[0]) {
        sp_ws(t.drop_first())
    } else {
        t
    }
}

/// The value of one hexadecimal digit, or -1 for any other character.
pub open spec fn hex_val(c: char) -> int {
    let n = c as int;
    if 0x30 <= n && n <= 0x39 {
        n - 0x30
    } else if 0x61 <= n && n <= 0x66 {
        n - 0x57
    } else if 0x41 <= n && n <= 0x46 {
        n - 0x37
    } else {
        -1
    }
}

/// The character denoted by one escape sequence (after the backslash),
/// together with the rest of the input. Surrogate code points are refused.
pub open spec fn sp_escape(t: Seq<char>) -> Option<(char, Seq<char>)> {
    if t.len() == 0 {
        None
    } else {
        let c = t[0];
        if c == '"' {
            Some(('"', t.drop_first()))
        } else if c == '\\' {
            Some(('\\', t.drop_first()))
        } else if c == '/' {
            Some(('/', t.drop_first()))
        } else if c == 'b' {
            Some(('\u{8}', t.drop_first()))
        } else if c == 'f' {
            Some(('\u{c}', t.drop_first()))
        } else if c == 'n' {
            Some(('\n', t.drop_first()))
        } else if c == 'r' {
            Some(('\r', t.drop_first()))
        } else if c == 't' {
            Some(('\t', t.drop_first()))
        } else if c == 'u' {
            if t.len() >= 5 && hex_val(t[1]) >= 0 && hex_val(t[2]) >= 0 && hex_val(t[3]) >= 0
                && hex_val(t[4]) >= 0 {
                let n = 4096 * hex_val(t[1]) + 256 * hex_val(t[2]) + 16 * hex_val(t[3]) + hex_val(
                    t[4],
                );
                if 0xD800 <= n && n < 0xE000 {
                    None
                } else {
                    Some((n as char, t.skip(5)))
                }
            } else {
                None
            }
        } else {
            None
        }
    }
}

/// A successful escape consumes at least one character.
proof fn lemma_sp_escape_len(t: Seq<char>)
    ensures
        match sp_escape(t) {
            Some((e, r)) => r.len() < t.len(),
            None => true,
        },
{
}

/// The body of a JSON string after its opening quote: the decoded characters
/// and the rest of the input after the closing quote.
pub open spec fn sp_string_rest(t: Seq<char>) -> Option<(Seq<char>, Seq<char>)>
    decreases t.len() via sp_string_rest_dec
{
    if t.len() == 0 {
        None
    } else if t[0] == '"' {
        Some((Seq::empty(), t.drop_first()))
    } else if t[0] == '\\' {
        match sp_escape(t.drop_first()) {
            None => None,
            Some((e, r)) => match sp_string_rest(r) {
                None => None,
                Some((s2, r2)) => Some((seq![e] + s2, r2)),
            },
        }
    } else if (t[0] as int) < 0x20 {
        None
    } else {
        match sp_string_rest(t.drop_first()) {
            None => None,
            Some((s2, r2)) => Some((seq![t[0]] + s2, r2)),
        }
    }
}

#[via_fn]
proof fn sp_string_rest_dec(t: Seq<char>) {
    if t.len() > 0 && t[0] == '\\' {
        lemma_sp_escape_len(t.drop_first());
    }
}

/// A successful string body consumes at least its closing quote.
proof fn lemma_sp_string_rest_len(t: Seq<char>)
    ensures
        match sp_string_rest(t) {
            Some((s, r)) => r.len() < t.len(),
            None => true,
        },
    decreases t.len(),
{
    if t.len() == 0 {
    } else if t[0] == '"' {
    } else if t[0] == '\\' {
        lemma_sp_escape_len(t.drop_first());
        match sp_escape(t.drop_first()) {
            None => {},
            Some((e, r)) => {
                lemma_sp_string_rest_len(r);
            },
        }
    } else if (t[0] as int) < 0x20 {
    } else {
        lemma_sp_string_rest_len(t.drop_first());
    }
}

/// Skipping whitespace never lengthens the input.
proof fn lemma_sp_ws_len(t: Seq<char>)
    ensures
        sp_ws(t).len() <= t.len(),
    decreases t.len(),
{
    if t.len() > 0 && is_ws(t[0]) {
        lemma_sp_ws_len(t.drop_first());
    }
}

/// The elements of an array after one parsed string: the closing bracket, or
/// a comma and another string, repeated.
pub open spec fn sp_values_more(t: Seq<char>) -> Option<(Seq<Seq<char>>, Seq<char>)>
    decreases t.len() via sp_values_more_dec
{
    let t1 = sp_ws(t);
    if t1.len() == 0 {
        None
    } else if t1[0] == ']' {
        Some((Seq::empty(), t1.drop_first()))
    } else if t1[0] == ',' {
        let t2 = sp_ws(t1.drop_first());
        if t2.len() > 0 && t2[0] == '"' {
            match sp_string_rest(t2.drop_first()) {
                None => None,
                Some((s, r)) => match sp_values_more(r) {
                    None => None,
                    Some((ss, r2)) => Some((seq![s] + ss, r2)),
                },
            }
        } else {
            None
        }
    } else {
        None
    }
}

#[via_fn]
proof fn sp_values_more_dec(t: Seq<char>) {
    lemma_sp_ws_len(t);
    let t1 = sp_ws(t);
    if t1.len() > 0 && t1[0] == ',' {
        lemma_sp_ws_len(t1.drop_first());
        let t2 = sp_ws(t1.drop_first());
        if t2.len() > 0 && t2[0] == '"' {
            lemma_sp_string_rest_len(t2.drop_first());
        }
    }
}

/// A successful tail of an array consumes at least its closing bracket.
proof fn lemma_sp_values_more_len(t: Seq<char>)
    ensures
        match sp_values_more(t) {
            Some((ss, r)) => r.len() < t.len(),
            None => true,
        },
    decreases t.len(),
{
    lemma_sp_ws_len(t);
    let t1 = sp_ws(t);
    if t1.len() > 0 && t1[0] == ',' {
        lemma_sp_ws_len(t1.drop_first());
        let t2 = sp_ws(t1.drop_first());
        if t2.len() > 0 && t2[0] == '"' {
            lemma_sp_string_rest_len(t2.drop_first());
            match sp_string_rest(t2.drop_first()) {
                None => {},
                Some((s, r)) => {
                    lemma_sp_values_more_len(r);
                },
            }
        }
    }
}

/// An array body after its opening bracket.
pub open spec fn sp_array(t: Seq<char>) -> Option<(Seq<Seq<char>>, Seq<char>)> {
    let t1 = sp_ws(t);
    if t1.len() == 0 {
        None
    } else if t1[0] == ']' {
        Some((Seq::empty(), t1.drop_first()))
    } else if t1[0] == '"' {
        match sp_string_rest(t1.drop_first()) {
            None => None,
            Some((s, r)) => match sp_values_more(r) {
                None => None,
                Some((ss, r2)) => Some((seq![s] + ss, r2)),
            },
        }
    } else {
        None
    }
}

/// A successful array consumes at least its closing bracket.
proof fn lemma_sp_array_len(t: Seq<char>)
    ensures
        match sp_array(t) {
            Some((ss, r)) => r.len() < t.len(),
            None => true,
        },
{
    lemma_sp_ws_len(t);
    let t1 = sp_ws(t);
    if t1.len() > 0 && t1[0] == '"' {
        lemma_sp_string_rest_len(t1.drop_first());
        match sp_string_rest(t1.drop_first()) {
            None => {},
            Some((s, r)) => {
                lemma_sp_values_more_len(r);
            },
        }
    }
}

/// One object member: a key string, a colon, and an array of strings.
pub open spec fn sp_member(t: Seq<char>) -> Option<((Seq<char>, Seq<Seq<char>>), Seq<char>)> {
    if t.len() > 0 && t[0] == '"' {
        match sp_string_rest(t.drop_first()) {
            None => None,
            Some((k, r)) => {
                let r1 = sp_ws(r);
                if r1.len() > 0 && r1[0] == ':' {
                    let r2 = sp_ws(r1.drop_first());
                    if r2.len() > 0 && r2[0] == '[' {
                        match sp_array(r2.drop_first()) {
                            None => None,
                            Some((vs, r3)) => Some(((k, vs), r3)),
                        }
                    } else {
                        None
                    }
                } else {
                    None
                }
            },
        }
    } else {
        None
    }
}

/// A successful member consumes at least one character.
proof fn lemma_sp_member_len(t: Seq<char>)
    ensures
        match sp_member(t) {
            Some((m, r)) => r.len() < t.len(),
            None => true,
        },
{
    if t.len() > 0 && t[0] == '"' {
        lemma_sp_string_rest_len(t.drop_first());
        match sp_string_rest(t.drop_first()) {
            None => {},
            Some((k, r)) => {
                lemma_sp_ws_len(r);
                let r1 = sp_ws(r);
                if r1.len() > 0 && r1[0] == ':' {
                    lemma_sp_ws_len(r1.drop_first());
                    let r2 = sp_ws(r1.drop_first());
                    if r2.len() > 0 && r2[0] == '[' {
                        lemma_sp_array_len(r2.drop_first());
                    }
                }
            },
        }
    }
}

/// The members of an object after one parsed member: the closing brace, or a
/// comma and another member, repeated.
pub open spec fn sp_members_more(t: Seq<char>) -> Option<
    (Seq<(Seq<char>, Seq<Seq<char>>)>, Seq<char>),
>
    decreases t.len() via sp_members_more_dec
{
    let t1 = sp_ws(t);
    if t1.len() == 0 {
        None
    } else if t1[0] == '}' {
        Some((Seq::empty(), t1.drop_first()))
    } else if t1[0] == ',' {
        let t2 = sp_ws(t1.drop_first());
        match sp_member(t2) {
            None => None,
            Some((m, r)) => match sp_members_more(r) {
                None => None,
                Some((ms, r2)) => Some((seq![m] + ms, r2)),
            },
        }
    } else {
        None
    }
}

#[via_fn]
proof fn sp_members_more_dec(t: Seq<char>) {
    lemma_sp_ws_len(t);
    let t1 = sp_ws(t);
    if t1.len() > 0 && t1[0] == ',' {
        lemma_sp_ws_len(t1.drop_first());
        lemma_sp_member_len(sp_ws(t1.drop_first()));
    }
}

/// The object body after its opening brace.
pub open spec fn sp_doc_body(t: Seq<char>) -> Option<(Seq<(Seq<char>, Seq<Seq<char>>)>, Seq<char>)> {
    let t1 = sp_ws(t);
    if t1.len() == 0 {
        None
    } else if t1[0] == '}' {
        Some((Seq::empty(), t1.drop_first()))
    } else {
        match sp_member(t1) {
            None => None,
            Some((m, r)) => match sp_members_more(r) {
                None => None,
                Some((ms, r2)) => Some((seq![m] + ms, r2)),
            },
        }
    }
}

/// Store `vs` under `k`: replace the values of an existing entry in place,
/// or append a new entry at the end.
pub open spec fn insert_replace(
    d: Seq<(Seq<char>, Seq<Seq<char>>)>,
    k: Seq<char>,
    vs: Seq<Seq<char>>,
) -> Seq<(Seq<char>, Seq<Seq<char>>)> {
    let i = find_key(d, k);
    if i == -1 {
        d.push((k, vs))
    } else {
        d.update(i, (k, vs))
    }
}

/// The document built from the parsed members, a later member overriding an
/// earlier one with the same key.
pub open spec fn build_doc(ms: Seq<(Seq<char>, Seq<Seq<char>>)>) -> Seq<
    (Seq<char>, Seq<Seq<char>>),
>
    decreases ms.len(),
{
    if ms.len() == 0 {
        Seq::empty()
    } else {
        insert_replace(build_doc(ms.drop_last()), ms.last().0, ms.last().1)
    }
}

/// The document a text denotes, if it is a JSON object of arrays of strings
/// with nothing but whitespace around it.
pub open spec fn parse_spec(t: Seq<char>) -> Option<Seq<(Seq<char>, Seq<Seq<char>>)>> {
    let t1 = sp_ws(t);
    if t1.len() > 0 && t1[0] == '{' {
        match sp_doc_body(t1.drop_first()) {
            None => None,
            Some((ms, r)) => if sp_ws(r).len() == 0 {
                Some(build_doc(ms))
            } else {
                None
            },
        }
    } else {
        None
    }
}

/// What load makes of the whole file text: an empty file stands for the
/// empty document, anything else must parse.
pub open spec fn load_spec(t: Seq<char>) -> Option<Seq<(Seq<char>, Seq<Seq<char>>)>> {
    if t.len() == 0 {
        Some(Seq::empty())
    } else {
        parse_spec(t)
    }
}


/// Index arithmetic for the suffix view of the input.
proof fn lemma_skip_step(s: Seq<char>, i: int)
    requires
        0 <= i < s.len(),
    ensures
        s.skip(i).drop_first() =~= s.skip(i + 1),
        s.skip(i)[0] == s[i],
        s.skip(i).len() == s.len() - i,
{
}

/// Position of the first non-whitespace character at or after `i`.
fn skip_ws(s: &str, i: usize) -> (j: usize)
    requires
        i <= s@.len(),
    ensures
        i <= j <= s@.len(),
        s@.skip(j as int) == sp_ws(s@.skip(i as int)),
    decreases s@.len() - i,
{
    let n = s.unicode_len();
    if i < n {
        let c = s.get_char(i);
        if c == ' ' || c == '\t' || c == '\n' || c == '\r' {
            proof {
                lemma_skip_step(s@, i as int);
            }
            let j = skip_ws(s, i + 1);
            return j;
        }
    }
    proof {
        if i < n {
            lemma_skip_step(s@, i as int);
        } else {
            assert(s@.skip(i as int).len() == 0);
        }
    }
    i
}

/// The numeric value of a hexadecimal digit, if the character is one.
fn hex_val_char(c: char) -> (v: Option<u32>)
    ensures
        match v {
            Some(h) => hex_val(c) == h as int,
            None => hex_val(c) == -1,
        },
{
    let n = c as u32;
    if 0x30 <= n && n <= 0x39 {
        Some(n - 0x30)
    } else if 0x61 <= n && n <= 0x66 {
        Some(n - 0x57)
    } else if 0x41 <= n && n <= 0x46 {
        Some(n - 0x37)
    } else {
        None
    }
}

/// Reads one escape sequence at `i` (just after the backslash).
fn parse_escape(s: &str, i: usize) -> (r: Option<(char, usize)>)
    requires
        i <= s@.len(),
    ensures
        match r {
            Some((c, j)) => i < j <= s@.len() && sp_escape(s@.skip(i as int)) == Some((
                c,
                s@.skip(j as int),
            )),
            None => sp_escape(s@.skip(i as int)) is None,
        },
{
    let n = s.unicode_len();
    if i >= n {
        proof {
            assert(s@.skip(i as int).len() == 0);
        }
        return None;
    }
    proof {
        lemma_skip_step(s@, i as int);
    }
    let c = s.get_char(i);
    if c == '"' {
        Some(('"', i + 1))
    } else if c == '\\' {
        Some(('\\', i + 1))
    } else if c == '/' {
        Some(('/', i + 1))
    } else if c == 'b' {
        Some(('\u{8}', i + 1))
    } else if c == 'f' {
        Some(('\u{c}', i + 1))
    } else if c == 'n' {
        Some(('\n', i + 1))
    } else if c == 'r' {
        Some(('\r', i + 1))
    } else if c == 't' {
        Some(('\t', i + 1))
    } else if c == 'u' {
        if n - i < 5 {
            return None;
        }
        proof {
            assert(s@.skip(i as int)[1] == s@[i + 1]);
            assert(s@.skip(i as int)[2] == s@[i + 2]);
            assert(s@.skip(i as int)[3] == s@[i + 3]);
            assert(s@.skip(i as int)[4] == s@[i + 4]);
        }
        let h1 = match hex_val_char(s.get_char(i + 1)) {
            Some(h) => h,
            None => {
                return None;
            },
        };
        let h2 = match hex_val_char(s.get_char(i + 2)) {
            Some(h) => h,
            None => {
                return None;
            },
        };
        let h3 = match hex_val_char(s.get_char(i + 3)) {
            Some(h) => h,
            None => {
                return None;
            },
        };
        let h4 = match hex_val_char(s.get_char(i + 4)) {
            Some(h) => h,
            None => {
                return None;
            },
        };
        let code: u32 = 4096 * h1 + 256 * h2 + 16 * h3 + h4;
        if 0xD800 <= code && code < 0xE000 {
            return None;
        }
        let ch = char::from_u32(code).unwrap();
        proof {
            assert(s@.skip(i as int).skip(5) =~= s@.skip(i + 5 as int));
        }
        Some((ch, i + 5))
    } else {
        None
    }
}

/// Reads a string body at `i` (just after the opening quote) and returns the
/// decoded content with the position after the closing quote.
fn parse_string_rest(s: &str, i: usize) -> (r: Option<(String, usize)>)
    requires
        i <= s@.len(),
    ensures
        match r {
            Some((c, j)) => i < j <= s@.len() && sp_string_rest(s@.skip(i as int)) == Some((
                c@,
                s@.skip(j as int),
            )),
            None => sp_string_rest(s@.skip(i as int)) is None,
        },
    decreases s@.len() - i,
{
    let n = s.unicode_len();
    if i >= n {
        proof {
            assert(s@.skip(i as int).len() == 0);
        }
        return None;
    }
    proof {
        lemma_skip_step(s@, i as int);
    }
    let c = s.get_char(i);
    if c == '"' {
        let e = String::new();
        proof {
            assert(e@ =~= Seq::<char>::empty());
        }
        return Some((e, i + 1));
    }
    if c == '\\' {
        match parse_escape(s, i + 1) {
            None => {
                return None;
            },
            Some((e, j)) => {
                match parse_string_rest(s, j) {
                    None => {
                        return None;
                    },
                    Some((rest, j2)) => {
                        let mut out = String::new();
                        out.push(e);
                        out.append(rest.as_str());
                        proof {
                            assert(out@ =~= seq![e] + rest@);
                        }
                        return Some((out, j2));
                    },
                }
            },
        }
    }
    if (c as u32) < 0x20 {
        return None;
    }
    match parse_string_rest(s, i + 1) {
        None => None,
        Some((rest, j2)) => {
            let mut out = String::new();
            out.push(c);
            out.append(rest.as_str());
            proof {
                assert(out@ =~= seq![c] + rest@);
            }
            Some((out, j2))
        },
    }
}

/// Reads the elements of an array after one parsed string.
fn parse_values_more(s: &str, i: usize) -> (r: Option<(Vec<String>, usize)>)
    requires
        i <= s@.len(),
    ensures
        match r {
            Some((vs, j)) => j <= s@.len() && sp_values_more(s@.skip(i as int)) == Some((
                vs.deep_view(),
                s@.skip(j as int),
            )),
            None => sp_values_more(s@.skip(i as int)) is None,
        },
    decreases s@.len() - i,
{
    let n = s.unicode_len();
    let i1 = skip_ws(s, i);
    if i1 >= n {
        return None;
    }
    proof {
        lemma_skip_step(s@, i1 as int);
    }
    let c = s.get_char(i1);
    if c == ']' {
        let v: Vec<String> = Vec::new();
        proof {
            assert(v.deep_view() =~= Seq::<Seq<char>>::empty());
        }
        return Some((v, i1 + 1));
    }
    if c == ',' {
        let i2 = skip_ws(s, i1 + 1);
        if i2 >= n {
            return None;
        }
        proof {
            lemma_skip_step(s@, i2 as int);
        }
        let c2 = s.get_char(i2);
        if c2 != '"' {
            return None;
        }
        match parse_string_rest(s, i2 + 1) {
            None => None,
            Some((v0, j)) => {
                match parse_values_more(s, j) {
                    None => None,
                    Some((vs, j2)) => {
                        let ghost pre = vs.deep_view();
                        let mut vs = vs;
                        vs.insert(0, v0);
                        proof {
                            assert(vs.deep_view() =~= seq![v0@] + pre);
                        }
                        Some((vs, j2))
                    },
                }
            },
        }
    } else {
        None
    }
}

/// Reads an array body at `i` (just after the opening bracket).
fn parse_array(s: &str, i: usize) -> (r: Option<(Vec<String>, usize)>)
    requires
        i <= s@.len(),
    ensures
        match r {
            Some((vs, j)) => j <= s@.len() && sp_array(s@.skip(i as int)) == Some((
                vs.deep_view(),
                s@.skip(j as int),
            )),
            None => sp_array(s@.skip(i as int)) is None,
        },
{
    let n = s.unicode_len();
    let i1 = skip_ws(s, i);
    if i1 >= n {
        return None;
    }
    proof {
        lemma_skip_step(s@, i1 as int);
    }
    let c = s.get_char(i1);
    if c == ']' {
        let v: Vec<String> = Vec::new();
        proof {
            assert(v.deep_view() =~= Seq::<Seq<char>>::empty());
        }
        return Some((v, i1 + 1));
    }
    if c != '"' {
        return None;
    }
    match parse_string_rest(s, i1 + 1) {
        None => None,
        Some((v0, j)) => {
            match parse_values_more(s, j) {
                None => None,
                Some((vs, j2)) => {
                    let ghost pre = vs.deep_view();
                    let mut vs = vs;
                    vs.insert(0, v0);
                    proof {
                        assert(vs.deep_view() =~= seq![v0@] + pre);
                    }
                    Some((vs, j2))
                },
            }
        },
    }
}

/// Reads one member at `i`: key, colon, array.
fn parse_member(s: &str, i: usize) -> (r: Option<((String, Vec<String>), usize)>)
    requires
        i <= s@.len(),
    ensures
        match r {
            Some((m, j)) => j <= s@.len() && sp_member(s@.skip(i as int)) == Some((
                (m.0@, m.1.deep_view()),
                s@.skip(j as int),
            )),
            None => sp_member(s@.skip(i as int)) is None,
        },
{
    let n = s.unicode_len();
    if i >= n {
        proof {
            assert(s@.skip(i as int).len() == 0);
        }
        return None;
    }
    proof {
        lemma_skip_step(s@, i as int);
    }
    if s.get_char(i) != '"' {
        return None;
    }
    match parse_string_rest(s, i + 1) {
        None => None,
        Some((k, j)) => {
            let j1 = skip_ws(s, j);
            if j1 >= n {
                return None;
            }
            proof {
                lemma_skip_step(s@, j1 as int);
            }
            if s.get_char(j1) != ':' {
                return None;
            }
            let j2 = skip_ws(s, j1 + 1);
            if j2 >= n {
                return None;
            }
            proof {
                lemma_skip_step(s@, j2 as int);
            }
            if s.get_char(j2) != '[' {
                return None;
            }
            match parse_array(s, j2 + 1) {
                None => None,
                Some((vs, j3)) => Some(((k, vs), j3)),
            }
        },
    }
}

/// Reads the members of an object after one parsed member.
fn parse_members_more(s: &str, i: usize) -> (r: Option<(Vec<(String, Vec<String>)>, usize)>)
    requires
        i <= s@.len(),
    ensures
        match r {
            Some((ms, j)) => j <= s@.len() && sp_members_more(s@.skip(i as int)) == Some((
                ms.deep_view(),
                s@.skip(j as int),
            )),
            None => sp_members_more(s@.skip(i as int)) is None,
        },
    decreases s@.len() - i,
{
    let n = s.unicode_len();
    let i1 = skip_ws(s, i);
    if i1 >= n {
        return None;
    }
    proof {
        lemma_skip_step(s@, i1 as int);
    }
    let c = s.get_char(i1);
    if c == '}' {
        let v: Vec<(String, Vec<String>)> = Vec::new();
        proof {
            assert(v.deep_view() =~= Seq::<(Seq<char>, Seq<Seq<char>>)>::empty());
        }
        return Some((v, i1 + 1));
    }
    if c == ',' {
        let i2 = skip_ws(s, i1 + 1);
        match parse_member(s, i2) {
            None => None,
            Some((m, j)) => {
                proof {
                    lemma_sp_member_len(s@.skip(i2 as int));
                }
                match parse_members_more(s, j) {
                    None => None,
                    Some((ms, j2)) => {
                        let ghost pre = ms.deep_view();
                        let ghost mv = (m.0@, m.1.deep_view());
                        let mut ms = ms;
                        ms.insert(0, m);
                        proof {
                            assert(ms.deep_view() =~= seq![mv] + pre);
                        }
                        Some((ms, j2))
                    },
                }
            },
        }
    } else {
        None
    }
}

/// Reads the object body at `i` (just after the opening brace).
fn parse_doc_body(s: &str, i: usize) -> (r: Option<(Vec<(String, Vec<String>)>, usize)>)
    requires
        i <= s@.len(),
    ensures
        match r {
            Some((ms, j)) => j <= s@.len() && sp_doc_body(s@.skip(i as int)) == Some((
                ms.deep_view(),
                s@.skip(j as int),
            )),
            None => sp_doc_body(s@.skip(i as int)) is None,
        },
{
    let n = s.unicode_len();
    let i1 = skip_ws(s, i);
    if i1 >= n {
        return None;
    }
    proof {
        lemma_skip_step(s@, i1 as int);
    }
    let c = s.get_char(i1);
    if c == '}' {
        let v: Vec<(String, Vec<String>)> = Vec::new();
        proof {
            assert(v.deep_view() =~= Seq::<(Seq<char>, Seq<Seq<char>>)>::empty());
        }
        return Some((v, i1 + 1));
    }
    match parse_member(s, i1) {
        None => None,
        Some((m, j)) => {
            match parse_members_more(s, j) {
                None => None,
                Some((ms, j2)) => {
                    let ghost pre = ms.deep_view();
                    let ghost mv = (m.0@, m.1.deep_view());
                    let mut ms = ms;
                    ms.insert(0, m);
                    proof {
                        assert(ms.deep_view() =~= seq![mv] + pre);
                    }
                    Some((ms, j2))
                },
            }
        },
    }
}


/// Stores `values` under `key` in the document, replacing the values of an
/// existing entry and appending a new entry otherwise.
fn doc_insert_replace(doc: &mut Document, key: String, values: Vec<String>)
    ensures
        final(doc)@ == insert_replace(old(doc)@, key@, values.deep_view()),
{
    let ghost d0 = doc@;
    let ghost e0 = doc.entries@;
    let ghost kv = key@;
    let ghost vv = values.deep_view();
    let n = doc.entries.len();
    let mut i: usize = 0;
    while i < n
        invariant
            i <= n,
            n == doc@.len(),
            doc@.len() == doc.entries@.len(),
            doc@ == d0,
            doc.entries@ == e0,
            d0 == old(doc)@,
            kv == key@,
            vv == values.deep_view(),
            forall|j: int| 0 <= j < i ==> d0[j].0 != kv,
        decreases n - i,
    {
        assert(d0[i as int] == doc.entries@[i as int].deep_view());
        if crate::store::str_eq(doc.entries[i].key.as_str(), key.as_str()) {
            proof {
                crate::store::lemma_find_key_at(d0, kv, i as int);
            }
            let _old_entry = doc.entries.remove(i);
            doc.entries.insert(i, Entry { key, values });
            proof {
                let d2 = d0.update(i as int, (kv, vv));
                assert forall|x: int| 0 <= x < doc@.len() implies doc@[x] == d2[x] by {
                    if x == i {
                        assert(doc.entries@[x].key@ == kv);
                        assert(doc.entries@[x].values.deep_view() =~= vv);
                    } else if x < i {
                        assert(doc.entries@[x] == e0[x]);
                        assert(e0[x].deep_view() == d0[x]);
                    } else {
                        assert(doc.entries@[x] == e0[x]);
                        assert(e0[x].deep_view() == d0[x]);
                    }
                }
                assert(doc@ =~= d2);
            }
            return;
        }
        i = i + 1;
    }
    proof {
        crate::store::lemma_find_key(d0, kv);
    }
    doc.entries.push(Entry { key, values });
    proof {
        let d2 = d0.push((kv, vv));
        assert forall|x: int| 0 <= x < doc@.len() implies doc@[x] == d2[x] by {
            if x < d0.len() {
                assert(doc.entries@[x] == e0[x]);
                assert(e0[x].deep_view() == d0[x]);
            } else {
                assert(doc.entries@[x].key@ == kv);
                assert(doc.entries@[x].values.deep_view() =~= vv);
            }
        }
        assert(doc@ =~= d2);
    }
}

/// Builds the document from the parsed members, in order.
fn build_document(ms: Vec<(String, Vec<String>)>) -> (d: Document)
    ensures
        d@ == build_doc(ms.deep_view()),
    decreases ms@.len(),
{
    let ghost ms0 = ms.deep_view();
    let mut ms = ms;
    match ms.pop() {
        None => {
            proof {
                assert(ms0 =~= Seq::<(Seq<char>, Seq<Seq<char>>)>::empty());
            }
            Document::new()
        },
        Some((k, vs)) => {
            let ghost kv = k@;
            let ghost vv = vs.deep_view();
            proof {
                assert(ms.deep_view() =~= ms0.drop_last());
                assert(ms0.last() == (kv, vv));
            }
            let mut d = build_document(ms);
            doc_insert_replace(&mut d, k, vs);
            d
        },
    }
}

/// `insert_replace` never introduces a duplicate key.
proof fn lemma_insert_replace_keys_distinct(
    d: Seq<(Seq<char>, Seq<Seq<char>>)>,
    k: Seq<char>,
    vs: Seq<Seq<char>>,
)
    requires
        keys_distinct(d),
    ensures
        keys_distinct(insert_replace(d, k, vs)),
{
    crate::store::lemma_find_key(d, k);
    let i = find_key(d, k);
    if i == -1 {
        let d2 = d.push((k, vs));
        assert forall|a: int, b: int| 0 <= a < b < d2.len() implies d2[a].0 != d2[b].0 by {
            if b == d.len() {
                assert(d2[a] == d[a]);
            }
        }
    } else {
        let d2 = d.update(i, (k, vs));
        assert forall|a: int, b: int| 0 <= a < b < d2.len() implies d2[a].0 != d2[b].0 by {
            assert(d2[a].0 == d[a].0);
            assert(d2[b].0 == d[b].0);
        }
    }
}

/// A document built from parsed members has no duplicate keys.
proof fn lemma_build_doc_keys_distinct(ms: Seq<(Seq<char>, Seq<Seq<char>>)>)
    ensures
        keys_distinct(build_doc(ms)),
    decreases ms.len(),
{
    if ms.len() == 0 {
    } else {
        lemma_build_doc_keys_distinct(ms.drop_last());
        lemma_insert_replace_keys_distinct(build_doc(ms.drop_last()), ms.last().0, ms.last().1);
    }
}

/// Whatever text parses, the document it denotes has no duplicate keys.
pub proof fn lemma_parse_spec_keys_distinct(t: Seq<char>, d: Seq<(Seq<char>, Seq<Seq<char>>)>)
    requires
        parse_spec(t) == Some(d),
    ensures
        keys_distinct(d),
{
    let t1 = sp_ws(t);
    match sp_doc_body(t1.drop_first()) {
        None => {
            assert(false);
        },
        Some((ms, r)) => {
            lemma_build_doc_keys_distinct(ms);
        },
    }
}

/// Reads the document out of a JSON text: exactly those texts denoting a
/// document under `parse_spec` are accepted, and yield exactly that document.
pub fn parse(s: &str) -> (r: Result<Document, ParseError>)
    ensures
        match r {
            Ok(d) => parse_spec(s@) == Some(d@) && keys_distinct(d@),
            Err(_) => parse_spec(s@) is None,
        },
{
    let n = s.unicode_len();
    proof {
        assert(s@.skip(0) =~= s@);
    }
    let i = skip_ws(s, 0);
    if i >= n {
        return Err(ParseError);
    }
    proof {
        lemma_skip_step(s@, i as int);
    }
    if s.get_char(i) != '{' {
        return Err(ParseError);
    }
    match parse_doc_body(s, i + 1) {
        None => Err(ParseError),
        Some((ms, j)) => {
            let k = skip_ws(s, j);
            if k < n {
                return Err(ParseError);
            }
            proof {
                assert(sp_ws(s@.skip(j as int)).len() == 0);
            }
            let d = build_document(ms);
            proof {
                lemma_parse_spec_keys_distinct(s@, d@);
            }
            Ok(d)
        },
    }
}

/// Reads the document out of the whole file text; an empty file stands for
/// the empty document.
pub fn load_text(s: &str) -> (r: Result<Document, ParseError>)
    ensures
        match r {
            Ok(d) => load_spec(s@) == Some(d@) && keys_distinct(d@),
            Err(_) => load_spec(s@) is None,
        },
{
    if s.is_empty() {
        Ok(Document::new())
    } else {
        parse(s)
    }
}


/// The escape digits written for a control character read back as its value.
proof fn lemma_hex_digit_val(h: int)
    requires
        0 <= h < 16,
    ensures
        hex_val(hex_digit(h)) == h,
{
}

/// Every char is a Unicode scalar value: its code point is below 0x110000
/// and is not a surrogate, and casting it through its code point gives it
/// back.
pub(crate) proof fn lemma_char_bounds(c: char)
    ensures
        0 <= (c as int) && (c as int) < 0x110000,
        (c as u32) as int == c as int,
        ((c as int) as char) == c,
{
}

/// A serialized string body followed by a closing quote reads back exactly
/// as the original characters.
proof fn lemma_str_roundtrip(content: Seq<char>, rest: Seq<char>)
    ensures
        sp_string_rest(ser_str_body(content) + seq!['"'] + rest) == Some((content, rest)),
    decreases content.len(),
{
    let t = ser_str_body(content) + seq!['"'] + rest;
    if content.len() == 0 {
        assert(t =~= seq!['"'] + rest);
        assert(t[0] == '"');
        assert(t.drop_first() =~= rest);
        assert(content =~= Seq::<char>::empty());
    } else {
        let c = content[0];
        lemma_char_bounds(c);
        let tail = ser_str_body(content.drop_first()) + seq!['"'] + rest;
        lemma_str_roundtrip(content.drop_first(), rest);
        assert(t =~= esc_char(c) + tail);
        assert(seq![c] + content.drop_first() =~= content);
        if c == '"' {
            assert(t[0] == '\\');
            assert(t.drop_first() =~= seq!['"'] + tail);
            assert((seq!['"'] + tail)[0] == '"');
            assert((seq!['"'] + tail).drop_first() =~= tail);
        } else if c == '\\' {
            assert(t[0] == '\\');
            assert(t.drop_first() =~= seq!['\\'] + tail);
            assert((seq!['\\'] + tail)[0] == '\\');
            assert((seq!['\\'] + tail).drop_first() =~= tail);
        } else if c == '\u{8}' {
            assert(t[0] == '\\');
            assert(t.drop_first() =~= seq!['b'] + tail);
            assert((seq!['b'] + tail)[0] == 'b');
            assert((seq!['b'] + tail).drop_first() =~= tail);
        } else if c == '\t' {
            assert(t[0] == '\\');
            assert(t.drop_first() =~= seq!['t'] + tail);
            assert((seq!['t'] + tail)[0] == 't');
            assert((seq!['t'] + tail).drop_first() =~= tail);
        } else if c == '\n' {
            assert(t[0] == '\\');
            assert(t.drop_first() =~= seq!['n'] + tail);
            assert((seq!['n'] + tail)[0] == 'n');
            assert((seq!['n'] + tail).drop_first() =~= tail);
        } else if c == '\u{c}' {
            assert(t[0] == '\\');
            assert(t.drop_first() =~= seq!['f'] + tail);
            assert((seq!['f'] + tail)[0] == 'f');
            assert((seq!['f'] + tail).drop_first() =~= tail);
        } else if c == '\r' {
            assert(t[0] == '\\');
            assert(t.drop_first() =~= seq!['r'] + tail);
            assert((seq!['r'] + tail)[0] == 'r');
            assert((seq!['r'] + tail).drop_first() =~= tail);
        } else if (c as u32) < 0x20 {
            let hi = (c as u32 / 16) as int;
            let lo = (c as u32 % 16) as int;
            assert(t[0] == '\\');
            let e = t.drop_first();
            assert(e =~= seq!['u', '0', '0', hex_digit(hi), hex_digit(lo)] + tail);
            assert(e[0] == 'u');
            assert(e.len() >= 5);
            assert(e[1] == '0' && e[2] == '0');
            assert(e[3] == hex_digit(hi));
            assert(e[4] == hex_digit(lo));
            assert(hex_val('0') == 0);
            assert(0 <= hi < 2);
            assert(0 <= lo < 16);
            lemma_hex_digit_val(hi);
            lemma_hex_digit_val(lo);
            let n = 4096 * hex_val(e[1]) + 256 * hex_val(e[2]) + 16 * hex_val(e[3]) + hex_val(
                e[4],
            );
            assert(n == 16 * hi + lo);
            let ci = c as int;
            lemma_char_bounds(c);
            assert(hi == ci / 16 && lo == ci % 16);
            vstd::arithmetic::div_mod::lemma_fundamental_div_mod(ci, 16);
            assert(n == ci);
            assert(n < 0x20);
            assert((n as char) == c);
            assert(e.skip(5) =~= tail);
        } else {
            assert(t[0] == c);
            assert(t.drop_first() =~= tail);
        }
    }
}

/// What follows the first element inside a serialized array: nothing but the
/// closing bracket, or a comma and the remaining elements.
spec fn ser_values_tail(vs: Seq<Seq<char>>) -> Seq<char> {
    if vs.len() == 0 {
        seq![']']
    } else {
        seq![','] + ser_values(vs) + seq![']']
    }
}

/// The remaining elements of a serialized array read back exactly.
proof fn lemma_values_more_roundtrip(vs: Seq<Seq<char>>, rest: Seq<char>)
    ensures
        sp_values_more(ser_values_tail(vs) + rest) == Some((vs, rest)),
    decreases vs.len(),
{
    let t = ser_values_tail(vs) + rest;
    if vs.len() == 0 {
        assert(t =~= seq![']'] + rest);
        assert(t[0] == ']');
        assert(!is_ws(t[0]));
        assert(sp_ws(t) == t);
        assert(t.drop_first() =~= rest);
        assert(vs =~= Seq::<Seq<char>>::empty());
    } else {
        assert(ser_values_tail(vs) =~= seq![','] + ser_string(vs[0]) + ser_values_tail(
            vs.drop_first(),
        )) by {
            if vs.len() == 1 {
                assert(ser_values(vs) == ser_string(vs[0]));
            } else {
                assert(ser_values(vs) == ser_string(vs[0]) + seq![','] + ser_values(
                    vs.drop_first(),
                ));
            }
        }
        let tail2 = ser_values_tail(vs.drop_first()) + rest;
        assert(t =~= seq![','] + (ser_string(vs[0]) + tail2));
        assert(t[0] == ',');
        assert(sp_ws(t) == t);
        let t1d = t.drop_first();
        assert(t1d =~= ser_string(vs[0]) + tail2);
        assert(t1d[0] == '"');
        assert(sp_ws(t1d) == t1d);
        assert(t1d.drop_first() =~= ser_str_body(vs[0]) + seq!['"'] + tail2);
        lemma_str_roundtrip(vs[0], tail2);
        lemma_values_more_roundtrip(vs.drop_first(), rest);
        assert(seq![vs[0]] + vs.drop_first() =~= vs);
    }
}

/// A serialized array body reads back exactly.
proof fn lemma_array_roundtrip(vs: Seq<Seq<char>>, rest: Seq<char>)
    ensures
        sp_array(ser_values(vs) + seq![']'] + rest) == Some((vs, rest)),
{
    let t = ser_values(vs) + seq![']'] + rest;
    if vs.len() == 0 {
        assert(t =~= seq![']'] + rest);
        assert(t[0] == ']');
        assert(sp_ws(t) == t);
        assert(t.drop_first() =~= rest);
        assert(vs =~= Seq::<Seq<char>>::empty());
    } else {
        let tail2 = ser_values_tail(vs.drop_first()) + rest;
        assert(t =~= ser_string(vs[0]) + tail2) by {
            if vs.len() == 1 {
                assert(ser_values(vs) == ser_string(vs[0]));
            } else {
                assert(ser_values(vs) == ser_string(vs[0]) + seq![','] + ser_values(
                    vs.drop_first(),
                ));
            }
        }
        assert(t[0] == '"');
        assert(sp_ws(t) == t);
        assert(t.drop_first() =~= ser_str_body(vs[0]) + seq!['"'] + tail2);
        lemma_str_roundtrip(vs[0], tail2);
        lemma_values_more_roundtrip(vs.drop_first(), rest);
        assert(seq![vs[0]] + vs.drop_first() =~= vs);
    }
}

/// A serialized member reads back exactly.
proof fn lemma_member_roundtrip(k: Seq<char>, vs: Seq<Seq<char>>, rest: Seq<char>)
    ensures
        sp_member(ser_entry((k, vs)) + rest) == Some(((k, vs), rest)),
{
    let t = ser_entry((k, vs)) + rest;
    let after_key = seq![':'] + ser_array(vs) + rest;
    assert(t =~= seq!['"'] + (ser_str_body(k) + seq!['"'] + after_key));
    assert(t[0] == '"');
    assert(t.drop_first() =~= ser_str_body(k) + seq!['"'] + after_key);
    lemma_str_roundtrip(k, after_key);
    assert(after_key[0] == ':');
    assert(sp_ws(after_key) == after_key);
    let r1d = after_key.drop_first();
    assert(r1d =~= seq!['['] + (ser_values(vs) + seq![']'] + rest));
    assert(r1d[0] == '[');
    assert(sp_ws(r1d) == r1d);
    assert(r1d.drop_first() =~= ser_values(vs) + seq![']'] + rest);
    lemma_array_roundtrip(vs, rest);
}

/// What follows the first member of the serialized object.
spec fn ser_entries_tail(d: Seq<(Seq<char>, Seq<Seq<char>>)>) -> Seq<char> {
    if d.len() == 0 {
        seq!['}']
    } else {
        seq![','] + ser_entries(d) + seq!['}']
    }
}

/// The remaining members of the serialized object read back exactly.
#[verifier::rlimit(50)]
proof fn lemma_members_more_roundtrip(d: Seq<(Seq<char>, Seq<Seq<char>>)>, rest: Seq<char>)
    ensures
        sp_members_more(ser_entries_tail(d) + rest) == Some((d, rest)),
    decreases d.len(),
{
    let t = ser_entries_tail(d) + rest;
    if d.len() == 0 {
        assert(t =~= seq!['}'] + rest);
        assert(t[0] == '}');
        assert(sp_ws(t) == t);
        assert(t.drop_first() =~= rest);
        assert(d =~= Seq::<(Seq<char>, Seq<Seq<char>>)>::empty());
    } else {
        assert(ser_entries_tail(d) =~= seq![','] + ser_entry(d[0]) + ser_entries_tail(
            d.drop_first(),
        )) by {
            if d.len() == 1 {
                assert(ser_entries(d) == ser_entry(d[0]));
            } else {
                assert(ser_entries(d) == ser_entry(d[0]) + seq![','] + ser_entries(
                    d.drop_first(),
                ));
            }
        }
        let tail2 = ser_entries_tail(d.drop_first()) + rest;
        assert(t =~= seq![','] + (ser_entry(d[0]) + tail2));
        assert(t[0] == ',');
        assert(sp_ws(t) == t);
        let t1d = t.drop_first();
        assert(t1d =~= ser_entry((d[0].0, d[0].1)) + tail2);
        assert(t1d[0] == '"');
        assert(sp_ws(t1d) == t1d);
        lemma_member_roundtrip(d[0].0, d[0].1, tail2);
        lemma_members_more_roundtrip(d.drop_first(), rest);
        assert((d[0].0, d[0].1) == d[0]);
        assert(seq![d[0]] + d.drop_first() =~= d);
    }
}

/// Rebuilding a document without duplicate keys from its own member list
/// gives it back unchanged.
proof fn lemma_build_doc_id(d: Seq<(Seq<char>, Seq<Seq<char>>)>)
    requires
        keys_distinct(d),
    ensures
        build_doc(d) == d,
    decreases d.len(),
{
    if d.len() == 0 {
        assert(build_doc(d) =~= d);
    } else {
        let front = d.drop_last();
        assert(keys_distinct(front)) by {
            assert forall|a: int, b: int| 0 <= a < b < front.len() implies front[a].0 != front[b].0
            by {
                assert(front[a] == d[a]);
                assert(front[b] == d[b]);
            }
        }
        lemma_build_doc_id(front);
        let k = d.last().0;
        crate::store::lemma_find_key(front, k);
        assert forall|j: int| 0 <= j < front.len() implies front[j].0 != k by {
            assert(front[j] == d[j]);
            assert(d.last() == d[d.len() - 1]);
        }
        assert(find_key(front, k) == -1);
        assert((d.last().0, d.last().1) == d.last());
        assert(front.push(d.last()) =~= d);
    }
}

/// Round trip: a document without duplicate keys is read back exactly from
/// its own serialized text.
pub proof fn lemma_parse_ser_roundtrip(d: Seq<(Seq<char>, Seq<Seq<char>>)>)
    requires
        keys_distinct(d),
    ensures
        parse_spec(ser_doc(d)) == Some(d),
{
    let t = ser_doc(d);
    assert(t =~= seq!['{'] + (ser_entries(d) + seq!['}']));
    assert(t[0] == '{');
    assert(sp_ws(t) == t);
    let body = t.drop_first();
    assert(body =~= ser_entries(d) + seq!['}']);
    if d.len() == 0 {
        assert(body =~= seq!['}']);
        assert(body[0] == '}');
        assert(sp_ws(body) == body);
        assert(body.drop_first() =~= Seq::<char>::empty());
        assert(sp_ws(Seq::<char>::empty()).len() == 0);
        assert(build_doc(Seq::<(Seq<char>, Seq<Seq<char>>)>::empty()) =~= d);
    } else {
        let tail2 = ser_entries_tail(d.drop_first()) + Seq::<char>::empty();
        assert(body =~= ser_entry((d[0].0, d[0].1)) + tail2) by {
            if d.len() == 1 {
                assert(ser_entries(d) == ser_entry(d[0]));
            } else {
                assert(ser_entries(d) == ser_entry(d[0]) + seq![','] + ser_entries(
                    d.drop_first(),
                ));
            }
            assert((d[0].0, d[0].1) == d[0]);
        }
        assert(body[0] == '"');
        assert(sp_ws(body) == body);
        lemma_member_roundtrip(d[0].0, d[0].1, tail2);
        lemma_members_more_roundtrip(d.drop_first(), Seq::<char>::empty());
        assert((d[0].0, d[0].1) == d[0]);
        assert(seq![d[0]] + d.drop_first() =~= d);
        assert(sp_ws(Seq::<char>::empty()).len() == 0);
        lemma_build_doc_id(d);
    }
}

/// Saving, loading, and saving again writes the same text: whatever document
/// a file text denotes, the text written for that document denotes it too.
pub proof fn lemma_save_load_roundtrip(t: Seq<char>, d: Seq<(Seq<char>, Seq<Seq<char>>)>)
    requires
        load_spec(t) == Some(d),
    ensures
        load_spec(ser_doc(d)) == Some(d),
{
    if t.len() == 0 {
        assert(d =~= Seq::<(Seq<char>, Seq<Seq<char>>)>::empty());
        assert(keys_distinct(d));
    } else {
        lemma_parse_spec_keys_distinct(t, d);
    }
    lemma_parse_ser_roundtrip(d);
    assert(ser_doc(d).len() >= 2);
}


} // verus!
