//! Deterministic text encoding of documents, and its parser.
//!
//! A leaf encodes as a quoted string with `"` and `\` escaped; a map
//! encodes as an object whose entries appear in stored (sorted) order,
//! so equal documents always encode to equal text. Parsing inverts the
//! encoding exactly; the round trip is proved below.

use vstd::prelude::*;

use crate::doc::{doc_view, entries_view, Doc, DocV};
use crate::doc::{lemma_entries_view, lemma_entries_view_suffix};
use crate::keys::{push_char, str_to_chars};

verus! {

/// Encoding of one character inside a quoted string.
pub open spec fn esc_char(c: char) -> Seq<char> {
    if c == '"' || c == '\\' {
        seq!['\\', c]
    } else {
        seq![c]
    }
}

/// Encoding of a string's characters, escaped one by one.
pub open spec fn esc(s: Seq<char>) -> Seq<char>
    decreases s.len(),
{
    if s.len() == 0 {
        Seq::empty()
    } else {
        esc_char(s[0]) + esc(s.drop_first())
    }
}

/// The text encoding of a document model.
pub open spec fn ser(v: DocV) -> Seq<char>
    decreases v, 1nat,
{
    match v {
        DocV::Val(s) => seq!['"'] + esc(s) + seq!['"'],
        DocV::Obj(es) => seq!['{'] + ser_entries(es) + seq!['}'],
    }
}

/// The text encoding of a map's entries: `"key":value`, separated by
/// commas.
pub open spec fn ser_entries(es: Seq<(Seq<char>, DocV)>) -> Seq<char>
    decreases es, 0nat,
{
    if es.len() == 0 {
        Seq::empty()
    } else {
        let head = seq!['"'] + esc(es[0].0) + seq!['"', ':'] + ser(es[0].1);
        if es.len() == 1 {
            head
        } else {
            head + seq![','] + ser_entries(es.drop_first())
        }
    }
}

/// Parses the escaped body of a quoted string up to its closing quote;
/// returns the decoded characters and the remaining input.
pub open spec fn parse_chars(s: Seq<char>) -> Option<(Seq<char>, Seq<char>)>
    decreases s.len(),
{
    if s.len() == 0 {
        None
    } else if s[0] == '"' {
        Some((Seq::empty(), s.drop_first()))
    } else if s[0] == '\\' {
        if s.len() >= 2 && (s[1] == '"' || s[1] == '\\') {
            match parse_chars(s.skip(2)) {
                Some((t, rest)) => Some((seq![s[1]] + t, rest)),
                None => None,
            }
        } else {
            None
        }
    } else {
        match parse_chars(s.drop_first()) {
            Some((t, rest)) => Some((seq![s[0]] + t, rest)),
            None => None,
        }
    }
}

/// Parses a quoted string.
pub open spec fn parse_string(s: Seq<char>) -> Option<(Seq<char>, Seq<char>)> {
    if s.len() > 0 && s[0] == '"' {
        parse_chars(s.drop_first())
    } else {
        None
    }
}

/// Parses one document from the front of the input.
pub open spec fn parse_doc(s: Seq<char>) -> Option<(DocV, Seq<char>)>
    decreases s.len(), 1nat,
{
    if s.len() == 0 {
        None
    } else if s[0] == '"' {
        match parse_string(s) {
            Some((t, rest)) => Some((DocV::Val(t), rest)),
            None => None,
        }
    } else if s[0] == '{' {
        if s.len() >= 2 && s[1] == '}' {
            Some((DocV::Obj(Seq::empty()), s.skip(2)))
        } else {
            match parse_entries(s.drop_first()) {
                Some((es, rest)) => Some((DocV::Obj(es), rest)),
                None => None,
            }
        }
    } else {
        None
    }
}

/// Parses one or more `"key":value` entries up to and including the
/// closing brace. The two length tests never fail on input a parse
/// step actually produced; they bound the recursion.
pub open spec fn parse_entries(s: Seq<char>) -> Option<(Seq<(Seq<char>, DocV)>, Seq<char>)>
    decreases s.len(), 0nat,
{
    match parse_string(s) {
        None => None,
        Some((k, r1)) => {
            if r1.len() >= s.len() {
                None
            } else if r1.len() > 0 && r1[0] == ':' {
                match parse_doc(r1.drop_first()) {
                    None => None,
                    Some((v, r2)) => {
                        if r2.len() >= r1.len() {
                            None
                        } else if r2.len() > 0 && r2[0] == ',' {
                            match parse_entries(r2.drop_first()) {
                                None => None,
                                Some((es, r3)) => Some((seq![(k, v)] + es, r3)),
                            }
                        } else if r2.len() > 0 && r2[0] == '}' {
                            Some((seq![(k, v)], r2.drop_first()))
                        } else {
                            None
                        }
                    },
                }
            } else {
                None
            }
        },
    }
}

/// Decoding of a complete input: one document and nothing after it.
pub open spec fn deserialize_spec(s: Seq<char>) -> Option<DocV> {
    match parse_doc(s) {
        Some((v, rest)) => if rest.len() == 0 {
            Some(v)
        } else {
            None
        },
        None => None,
    }
}

/// Escaping distributes over appending one character.
pub proof fn lemma_esc_snoc(x: Seq<char>, c: char)
    ensures
        esc(x.push(c)) == esc(x) + esc_char(c),
    decreases x.len(),
{
    if x.len() == 0 {
        assert(x.push(c) =~= seq![c]);
        assert(esc(seq![c]) == esc_char(seq![c][0]) + esc(seq![c].drop_first()));
        assert(seq![c][0] == c);
        assert(seq![c].drop_first() =~= Seq::<char>::empty());
        assert(esc(Seq::<char>::empty()) == Seq::<char>::empty());
        assert(esc(x.push(c)) =~= esc(x) + esc_char(c));
    } else {
        assert(x.push(c)[0] == x[0]);
        assert(x.push(c).drop_first() =~= x.drop_first().push(c));
        lemma_esc_snoc(x.drop_first(), c);
        assert(esc(x.push(c)) == esc_char(x[0]) + esc(x.drop_first().push(c)));
        assert(esc(x.push(c)) =~= esc(x) + esc_char(c));
    }
}

/// Parsing the escaped body of a string undoes the escaping: the
/// encoded characters followed by a closing quote and any remainder
/// parse back to the original characters and that remainder.
pub proof fn lemma_parse_chars_esc(s: Seq<char>, rest: Seq<char>)
    ensures
        parse_chars(esc(s) + seq!['"'] + rest) == Some((s, rest)),
    decreases s.len(),
{
    let t = esc(s) + seq!['"'] + rest;
    if s.len() == 0 {
        assert(esc(s) =~= Seq::<char>::empty());
        assert(t[0] == '"');
        assert(t.drop_first() =~= rest);
    } else {
        let c = s[0];
        let s1 = s.drop_first();
        lemma_parse_chars_esc(s1, rest);
        assert(esc(s) == esc_char(c) + esc(s1));
        if c == '"' || c == '\\' {
            assert(esc_char(c) == seq!['\\', c]);
            assert(t[0] == '\\');
            assert(t[1] == c);
            assert(t.len() >= 2);
            assert(t.skip(2) =~= esc(s1) + seq!['"'] + rest);
            assert(seq![c] + s1 =~= s);
            assert(parse_chars(t) == Some((s, rest)));
        } else {
            assert(t[0] == c);
            assert(t.drop_first() =~= esc(s1) + seq!['"'] + rest);
            assert(seq![c] + s1 =~= s);
            assert(parse_chars(t) == Some((s, rest)));
        }
    }
}

/// Round trip of the encoder and the parser, stated with an arbitrary
/// remainder: the encoding of `v` followed by `rest` parses to `v`
/// and `rest`.
pub proof fn lemma_parse_ser(v: DocV, rest: Seq<char>)
    ensures
        parse_doc(ser(v) + rest) == Some((v, rest)),
    decreases v, 1nat,
{
    let t = ser(v) + rest;
    match v {
        DocV::Val(s) => {
            assert(ser(v) == seq!['"'] + esc(s) + seq!['"']);
            assert(t[0] == '"');
            lemma_parse_chars_esc(s, rest);
            assert(t.drop_first() =~= esc(s) + seq!['"'] + rest);
            assert(parse_string(t) == Some((s, rest)));
        },
        DocV::Obj(es) => {
            assert(ser(v) == seq!['{'] + ser_entries(es) + seq!['}']);
            assert(t[0] == '{');
            if es.len() == 0 {
                assert(ser_entries(es) =~= Seq::<char>::empty());
                assert(t[1] == '}');
                assert(t.len() >= 2);
                assert(t.skip(2) =~= rest);
                assert(es =~= Seq::<(Seq<char>, DocV)>::empty());
            } else {
                let head = seq!['"'] + esc(es[0].0) + seq!['"', ':'] + ser(es[0].1);
                if es.len() == 1 {
                    assert(ser_entries(es) == head);
                } else {
                    assert(ser_entries(es) == head + seq![','] + ser_entries(es.drop_first()));
                }
                assert(ser_entries(es)[0] == '"');
                assert(t.len() >= 2);
                assert(t[1] == '"');
                lemma_parse_ser_entries(es, rest);
                assert(t.drop_first() =~= ser_entries(es) + seq!['}'] + rest);
                assert(parse_entries(t.drop_first()) == Some((es, rest)));
            }
        },
    }
}

proof fn lemma_parse_ser_entries(es: Seq<(Seq<char>, DocV)>, rest: Seq<char>)
    requires
        es.len() > 0,
    ensures
        parse_entries(ser_entries(es) + seq!['}'] + rest) == Some((es, rest)),
    decreases es, 0nat,
{
    let t = ser_entries(es) + seq!['}'] + rest;
    let k0 = es[0].0;
    let v0 = es[0].1;
    let head = seq!['"'] + esc(k0) + seq!['"', ':'] + ser(v0);
    if es.len() == 1 {
        assert(ser_entries(es) == head);
        let x = seq![':'] + ser(v0) + seq!['}'] + rest;
        assert(t[0] == '"');
        assert(t.drop_first() =~= esc(k0) + seq!['"'] + x);
        lemma_parse_chars_esc(k0, x);
        assert(parse_string(t) == Some((k0, x)));
        assert(x.len() < t.len());
        assert(x[0] == ':');
        let r2 = seq!['}'] + rest;
        assert(x.drop_first() =~= ser(v0) + r2);
        lemma_parse_ser(v0, r2);
        assert(parse_doc(x.drop_first()) == Some((v0, r2)));
        assert(r2.len() < x.len());
        assert(r2[0] == '}');
        assert(r2[0] != ',');
        assert(r2.drop_first() =~= rest);
        assert((k0, v0) == es[0]);
        assert(seq![(k0, v0)] =~= es);
        assert(parse_entries(t) == Some((es, rest)));
    } else {
        let tail = es.drop_first();
        assert(ser_entries(es) == head + seq![','] + ser_entries(tail));
        let x = seq![':'] + ser(v0) + seq![','] + ser_entries(tail) + seq!['}'] + rest;
        assert(t[0] == '"');
        assert(t.drop_first() =~= esc(k0) + seq!['"'] + x);
        lemma_parse_chars_esc(k0, x);
        assert(parse_string(t) == Some((k0, x)));
        assert(x.len() < t.len());
        assert(x[0] == ':');
        let r2 = seq![','] + ser_entries(tail) + seq!['}'] + rest;
        assert(x.drop_first() =~= ser(v0) + r2);
        lemma_parse_ser(v0, r2);
        assert(parse_doc(x.drop_first()) == Some((v0, r2)));
        assert(r2.len() < x.len());
        assert(r2[0] == ',');
        lemma_parse_ser_entries(tail, rest);
        assert(r2.drop_first() =~= ser_entries(tail) + seq!['}'] + rest);
        assert(parse_entries(r2.drop_first()) == Some((tail, rest)));
        assert((k0, v0) == es[0]);
        assert(seq![(k0, v0)] + tail =~= es);
        assert(parse_entries(t) == Some((es, rest)));
    }
}

/// Decoding inverts encoding on every document model.
pub proof fn lemma_round_trip(v: DocV)
    ensures
        deserialize_spec(ser(v)) == Some(v),
{
    lemma_parse_ser(v, Seq::empty());
    assert(ser(v) + Seq::<char>::empty() =~= ser(v));
}

/// Appends the escaped characters of `s` to `out`.
fn escape_onto(s: &str, out: &mut String)
    ensures
        final(out)@ == old(out)@ + esc(s@),
{
    let n = s.unicode_len();
    let mut i: usize = 0;
    while i < n
        invariant
            n == s@.len(),
            i <= n,
            out@ == old(out)@ + esc(s@.take(i as int)),
        decreases n - i,
    {
        let c = s.get_char(i);
        if c == '"' || c == '\\' {
            push_char(out, '\\');
        }
        push_char(out, c);
        proof {
            lemma_esc_snoc(s@.take(i as int), s@[i as int]);
            assert(s@.take(i + 1) =~= s@.take(i as int).push(s@[i as int]));
            assert(out@ =~= old(out)@ + esc(s@.take(i + 1)));
        }
        i = i + 1;
    }
    proof {
        assert(s@.take(n as int) =~= s@);
    }
}

/// Emits the entries of `es` from position `i` on, comma-separated.
fn emit_entries(es: &Vec<(String, Doc)>, i: usize) -> (r: String)
    requires
        i <= es.len(),
    ensures
        r@ == ser_entries(entries_view(es@.skip(i as int))),
    decreases *es, es@.len() - i, 0nat,
{
    if i >= es.len() {
        let r = String::new();
        proof {
            assert(es@.skip(i as int).len() == 0);
        }
        r
    } else {
        proof {
            lemma_entries_view_suffix(es@, i as int);
            assert(decreases_to!(es@ => es@[i as int]));
        }
        let ghost ev = entries_view(es@.skip(i as int));
        let mut out = String::new();
        push_char(&mut out, '"');
        escape_onto(es[i].0.as_str(), &mut out);
        push_char(&mut out, '"');
        push_char(&mut out, ':');
        let dv = es[i].1.emit();
        out.append(dv.as_str());
        let ghost head = seq!['"'] + esc(ev[0].0) + seq!['"', ':'] + ser(ev[0].1);
        proof {
            assert(out@ =~= head);
        }
        if i + 1 < es.len() {
            push_char(&mut out, ',');
            let rest = emit_entries(es, i + 1);
            out.append(rest.as_str());
            proof {
                assert(ev.len() > 1);
                assert(ser_entries(ev) == head + seq![','] + ser_entries(ev.drop_first()));
                assert(out@ =~= ser_entries(ev));
            }
        } else {
            proof {
                assert(ev.len() == 1);
                assert(ser_entries(ev) == head);
            }
        }
        out
    }
}

impl Doc {
    /// Emits the deterministic text encoding of this document.
    pub fn emit(&self) -> (r: String)
        ensures
            r@ == ser(self@),
        decreases *self, 0nat, 1nat,
    {
        match self {
            Doc::Val(s) => {
                let mut out = String::new();
                push_char(&mut out, '"');
                escape_onto(s.as_str(), &mut out);
                push_char(&mut out, '"');
                proof {
                    assert(out@ =~= ser(self@));
                }
                out
            },
            Doc::Obj(es) => {
                proof {
                    assert(decreases_to!(*self => self->Obj_0));
                }
                let mut out = String::new();
                push_char(&mut out, '{');
                let mid = emit_entries(es, 0);
                out.append(mid.as_str());
                push_char(&mut out, '}');
                proof {
                    assert(es@.skip(0) =~= es@);
                    assert(out@ =~= ser(self@));
                }
                out
            },
        }
    }
}

/// The indented multi-line rendering of a document model: a map lists
/// one entry per line, each entry's value in compact form. It is the
/// compact encoding with whitespace inserted, and nothing more; the
/// law below makes that exact.
pub open spec fn pretty_spec(v: DocV) -> Seq<char> {
    match v {
        DocV::Val(s) => seq!['"'] + esc(s) + seq!['"'],
        DocV::Obj(es) => seq!['{', '\n'] + pretty_entries_spec(es) + seq!['}'],
    }
}

/// One line per entry, comma-separated, with no comma after the last
/// entry, mirroring the compact encoding of the entries.
pub open spec fn pretty_entries_spec(es: Seq<(Seq<char>, DocV)>) -> Seq<char>
    decreases es.len(),
{
    if es.len() == 0 {
        Seq::empty()
    } else {
        let head = seq![' ', ' ', '"'] + esc(es[0].0) + seq!['"', ':', ' '] + ser(es[0].1);
        if es.len() == 1 {
            head + seq!['\n']
        } else {
            head + seq![',', '\n'] + pretty_entries_spec(es.drop_first())
        }
    }
}

/// Renders the entries of `es` from position `i` on, one line each.
fn pretty_entries(es: &Vec<(String, Doc)>, i: usize) -> (r: String)
    requires
        i <= es.len(),
    ensures
        r@ == pretty_entries_spec(entries_view(es@.skip(i as int))),
    decreases *es, es@.len() - i, 0nat,
{
    if i >= es.len() {
        let r = String::new();
        proof {
            assert(es@.skip(i as int).len() == 0);
        }
        r
    } else {
        proof {
            lemma_entries_view_suffix(es@, i as int);
            assert(decreases_to!(es@ => es@[i as int]));
        }
        let ghost ev = entries_view(es@.skip(i as int));
        let mut out = String::new();
        push_char(&mut out, ' ');
        push_char(&mut out, ' ');
        push_char(&mut out, '"');
        escape_onto(es[i].0.as_str(), &mut out);
        push_char(&mut out, '"');
        push_char(&mut out, ':');
        push_char(&mut out, ' ');
        let dv = es[i].1.emit();
        out.append(dv.as_str());
        let ghost head = seq![' ', ' ', '"'] + esc(ev[0].0) + seq!['"', ':', ' '] + ser(ev[0].1);
        proof {
            assert(out@ =~= head);
        }
        if i + 1 < es.len() {
            push_char(&mut out, ',');
            push_char(&mut out, '\n');
            let rest = pretty_entries(es, i + 1);
            out.append(rest.as_str());
            proof {
                assert(ev.len() > 1);
                assert(pretty_entries_spec(ev) == head + seq![',', '\n'] + pretty_entries_spec(
                    ev.drop_first(),
                ));
                assert(out@ =~= pretty_entries_spec(ev));
            }
        } else {
            push_char(&mut out, '\n');
            proof {
                assert(ev.len() == 1);
                assert(pretty_entries_spec(ev) == head + seq!['\n']);
                assert(out@ =~= pretty_entries_spec(ev));
            }
        }
        out
    }
}

impl Doc {
    /// Emits an indented multi-line rendering, for reading rather than
    /// storage: it is not parsed back. Stripping the inserted
    /// whitespace gives the compact encoding.
    pub fn emit_pretty(&self) -> (r: String)
        ensures
            r@ == pretty_spec(self@),
    {
        match self {
            Doc::Val(s) => {
                let mut out = String::new();
                push_char(&mut out, '"');
                escape_onto(s.as_str(), &mut out);
                push_char(&mut out, '"');
                proof {
                    assert(out@ =~= pretty_spec(self@));
                }
                out
            },
            Doc::Obj(es) => {
                let mut out = String::new();
                push_char(&mut out, '{');
                push_char(&mut out, '\n');
                let mid = pretty_entries(es, 0);
                out.append(mid.as_str());
                push_char(&mut out, '}');
                proof {
                    assert(es@.skip(0) =~= es@);
                    assert(out@ =~= pretty_spec(self@));
                }
                out
            },
        }
    }
}

/// Whitespace the indented rendering inserts.
pub open spec fn pretty_ws(c: char) -> bool {
    c == ' ' || c == '\n'
}

/// The characters of `s` with the rendering's whitespace removed.
pub open spec fn strip_ws(s: Seq<char>) -> Seq<char>
    decreases s.len(),
{
    if s.len() == 0 {
        Seq::empty()
    } else if pretty_ws(s[0]) {
        strip_ws(s.drop_first())
    } else {
        seq![s[0]] + strip_ws(s.drop_first())
    }
}

/// A character sequence holding no rendering whitespace.
pub open spec fn seq_ws_free(s: Seq<char>) -> bool {
    forall|i: int| 0 <= i < s.len() ==> !pretty_ws(#[trigger] s[i])
}

/// A document model whose keys and leaf strings hold no rendering
/// whitespace.
pub open spec fn ws_free(v: DocV) -> bool
    decreases v, 1nat,
{
    match v {
        DocV::Val(s) => seq_ws_free(s),
        DocV::Obj(es) => ws_free_entries(es),
    }
}

/// Every entry's key is whitespace-free and its value's model is
/// whitespace-free.
pub open spec fn ws_free_entries(es: Seq<(Seq<char>, DocV)>) -> bool
    decreases es, 0nat,
{
    forall|i: int| 0 <= i < es.len() ==> seq_ws_free((#[trigger] es[i]).0) && ws_free(es[i].1)
}

proof fn lemma_ws_free_entries_drop_first(es: Seq<(Seq<char>, DocV)>)
    requires
        ws_free_entries(es),
        es.len() > 0,
    ensures
        ws_free_entries(es.drop_first()),
{
    assert forall|i: int|
        0 <= i < es.drop_first().len() implies seq_ws_free((#[trigger] es.drop_first()[i]).0)
        && ws_free(es.drop_first()[i].1) by {
        assert(es.drop_first()[i] == es[i + 1]);
        assert(seq_ws_free((es[i + 1]).0) && ws_free(es[i + 1].1));
    }
}

proof fn lemma_strip_ws_concat(a: Seq<char>, b: Seq<char>)
    ensures
        strip_ws(a + b) == strip_ws(a) + strip_ws(b),
    decreases a.len(),
{
    if a.len() == 0 {
        assert(a + b =~= b);
        assert(strip_ws(a) =~= Seq::<char>::empty());
        assert(strip_ws(a + b) =~= strip_ws(a) + strip_ws(b));
    } else {
        assert((a + b)[0] == a[0]);
        assert((a + b).drop_first() =~= a.drop_first() + b);
        lemma_strip_ws_concat(a.drop_first(), b);
        assert(strip_ws(a + b) =~= strip_ws(a) + strip_ws(b));
    }
}

proof fn lemma_strip_ws_id(s: Seq<char>)
    requires
        seq_ws_free(s),
    ensures
        strip_ws(s) == s,
    decreases s.len(),
{
    if s.len() > 0 {
        assert(forall|i: int|
            0 <= i < s.drop_first().len() ==> #[trigger] s.drop_first()[i] == s[i + 1]);
        lemma_strip_ws_id(s.drop_first());
        assert(strip_ws(s) =~= s);
    }
}

proof fn lemma_seq_ws_free_concat(a: Seq<char>, b: Seq<char>)
    requires
        seq_ws_free(a),
        seq_ws_free(b),
    ensures
        seq_ws_free(a + b),
{
    assert forall|i: int| 0 <= i < (a + b).len() implies !pretty_ws(#[trigger] (a + b)[i]) by {
        if i < a.len() {
            assert((a + b)[i] == a[i]);
        } else {
            assert((a + b)[i] == b[i - a.len()]);
        }
    }
}

proof fn lemma_esc_ws_free(s: Seq<char>)
    requires
        seq_ws_free(s),
    ensures
        seq_ws_free(esc(s)),
    decreases s.len(),
{
    if s.len() > 0 {
        assert(forall|i: int|
            0 <= i < s.drop_first().len() ==> #[trigger] s.drop_first()[i] == s[i + 1]);
        lemma_esc_ws_free(s.drop_first());
        assert(seq_ws_free(esc_char(s[0]))) by {
            assert(!pretty_ws('\\'));
            assert(!pretty_ws(s[0]));
        }
        lemma_seq_ws_free_concat(esc_char(s[0]), esc(s.drop_first()));
    }
}

/// Stripping whitespace from a handful of fixed rendering pieces.
proof fn lemma_strip_ws_pieces()
    ensures
        strip_ws(Seq::<char>::empty()) == Seq::<char>::empty(),
        strip_ws(seq!['\n']) == Seq::<char>::empty(),
        strip_ws(seq![' ']) == Seq::<char>::empty(),
        strip_ws(seq!['"']) == seq!['"'],
        strip_ws(seq!['}']) == seq!['}'],
        strip_ws(seq![' ', '"']) == seq!['"'],
        strip_ws(seq![' ', ' ', '"']) == seq!['"'],
        strip_ws(seq![':', ' ']) == seq![':'],
        strip_ws(seq!['"', ':', ' ']) == seq!['"', ':'],
        strip_ws(seq![',', '\n']) == seq![','],
        strip_ws(seq!['{', '\n']) == seq!['{'],
{
    assert(strip_ws(Seq::<char>::empty()) == Seq::<char>::empty());
    assert(seq!['\n'][0] == '\n');
    assert(seq!['\n'].drop_first() =~= Seq::<char>::empty());
    assert(seq!['\n'].drop_first() == Seq::<char>::empty());
    assert(strip_ws(seq!['\n']) == Seq::<char>::empty());
    assert(seq![' '][0] == ' ');
    assert(seq![' '].drop_first() =~= Seq::<char>::empty());
    assert(seq![' '].drop_first() == Seq::<char>::empty());
    assert(strip_ws(seq![' ']) == Seq::<char>::empty());
    assert(seq!['"'][0] == '"');
    assert(!pretty_ws('"'));
    assert(seq!['"'].drop_first() =~= Seq::<char>::empty());
    assert(seq!['"'].drop_first() == Seq::<char>::empty());
    assert(strip_ws(seq!['"']) =~= seq!['"']);
    assert(seq!['}'][0] == '}');
    assert(!pretty_ws('}'));
    assert(seq!['}'].drop_first() =~= Seq::<char>::empty());
    assert(seq!['}'].drop_first() == Seq::<char>::empty());
    assert(strip_ws(seq!['}']) =~= seq!['}']);
    assert(seq![' ', '"'][0] == ' ');
    assert(seq![' ', '"'].drop_first() =~= seq!['"']);
    assert(seq![' ', '"'].drop_first() == seq!['"']);
    assert(strip_ws(seq![' ', '"']) == seq!['"']);
    assert(seq![' ', ' ', '"'][0] == ' ');
    assert(seq![' ', ' ', '"'].drop_first() =~= seq![' ', '"']);
    assert(seq![' ', ' ', '"'].drop_first() == seq![' ', '"']);
    assert(strip_ws(seq![' ', ' ', '"']) == seq!['"']);
    assert(seq![':', ' '][0] == ':');
    assert(!pretty_ws(':'));
    assert(seq![':', ' '].drop_first() =~= seq![' ']);
    assert(seq![':', ' '].drop_first() == seq![' ']);
    assert(strip_ws(seq![':', ' ']) =~= seq![':']);
    assert(seq!['"', ':', ' '][0] == '"');
    assert(seq!['"', ':', ' '].drop_first() =~= seq![':', ' ']);
    assert(seq!['"', ':', ' '].drop_first() == seq![':', ' ']);
    assert(strip_ws(seq!['"', ':', ' ']) =~= seq!['"', ':']);
    assert(seq![',', '\n'][0] == ',');
    assert(!pretty_ws(','));
    assert(seq![',', '\n'].drop_first() =~= seq!['\n']);
    assert(seq![',', '\n'].drop_first() == seq!['\n']);
    assert(strip_ws(seq![',', '\n']) =~= seq![',']);
    assert(seq!['{', '\n'][0] == '{');
    assert(!pretty_ws('{'));
    assert(seq!['{', '\n'].drop_first() =~= seq!['\n']);
    assert(seq!['{', '\n'].drop_first() == seq!['\n']);
    assert(strip_ws(seq!['{', '\n']) =~= seq!['{']);
}

/// The compact encoding of a whitespace-free model holds no rendering
/// whitespace: stripping leaves it unchanged.
pub proof fn lemma_ser_ws_free(v: DocV)
    requires
        ws_free(v),
    ensures
        seq_ws_free(ser(v)),
        strip_ws(ser(v)) == ser(v),
    decreases v, 1nat,
{
    match v {
        DocV::Val(s) => {
            lemma_esc_ws_free(s);
            assert(seq_ws_free(seq!['"']));
            lemma_seq_ws_free_concat(seq!['"'], esc(s));
            lemma_seq_ws_free_concat(seq!['"'] + esc(s), seq!['"']);
        },
        DocV::Obj(es) => {
            lemma_ser_entries_ws_free(es);
            assert(seq_ws_free(seq!['{']));
            assert(seq_ws_free(seq!['}']));
            lemma_seq_ws_free_concat(seq!['{'], ser_entries(es));
            lemma_seq_ws_free_concat(seq!['{'] + ser_entries(es), seq!['}']);
        },
    }
    lemma_strip_ws_id(ser(v));
}

proof fn lemma_ser_entries_ws_free(es: Seq<(Seq<char>, DocV)>)
    requires
        ws_free_entries(es),
    ensures
        seq_ws_free(ser_entries(es)),
    decreases es, 0nat,
{
    if es.len() > 0 {
        let head = seq!['"'] + esc(es[0].0) + seq!['"', ':'] + ser(es[0].1);
        assert(seq_ws_free((es[0]).0) && ws_free(es[0].1));
        lemma_esc_ws_free(es[0].0);
        lemma_ser_ws_free(es[0].1);
        assert(seq_ws_free(seq!['"']));
        assert(seq_ws_free(seq!['"', ':']));
        lemma_seq_ws_free_concat(seq!['"'], esc(es[0].0));
        lemma_seq_ws_free_concat(seq!['"'] + esc(es[0].0), seq!['"', ':']);
        lemma_seq_ws_free_concat(seq!['"'] + esc(es[0].0) + seq!['"', ':'], ser(es[0].1));
        if es.len() == 1 {
        } else {
            lemma_ws_free_entries_drop_first(es);
            lemma_ser_entries_ws_free(es.drop_first());
            assert(seq_ws_free(seq![',']));
            lemma_seq_ws_free_concat(head, seq![',']);
            lemma_seq_ws_free_concat(head + seq![','], ser_entries(es.drop_first()));
        }
    }
}

/// The law of the indented rendering: for a model whose keys and leaf
/// strings hold no rendering whitespace, stripping the whitespace from
/// the indented rendering gives exactly the compact encoding.
pub proof fn lemma_pretty_strips_to_ser(v: DocV)
    requires
        ws_free(v),
    ensures
        strip_ws(pretty_spec(v)) == ser(v),
{
    match v {
        DocV::Val(s) => {
            assert(pretty_spec(v) == ser(v));
            lemma_ser_ws_free(v);
        },
        DocV::Obj(es) => {
            lemma_pretty_entries_strip(es);
            lemma_strip_ws_concat(seq!['{', '\n'], pretty_entries_spec(es));
            lemma_strip_ws_concat(seq!['{', '\n'] + pretty_entries_spec(es), seq!['}']);
            lemma_strip_ws_pieces();
            assert(strip_ws(pretty_spec(v)) =~= ser(v));
        },
    }
}

proof fn lemma_pretty_entries_strip(es: Seq<(Seq<char>, DocV)>)
    requires
        ws_free_entries(es),
    ensures
        strip_ws(pretty_entries_spec(es)) == ser_entries(es),
    decreases es.len(),
{
    lemma_strip_ws_pieces();
    if es.len() == 0 {
        assert(strip_ws(pretty_entries_spec(es)) =~= ser_entries(es));
    } else {
        let phead = seq![' ', ' ', '"'] + esc(es[0].0) + seq!['"', ':', ' '] + ser(es[0].1);
        let shead = seq!['"'] + esc(es[0].0) + seq!['"', ':'] + ser(es[0].1);
        assert(seq_ws_free((es[0]).0) && ws_free(es[0].1));
        lemma_esc_ws_free(es[0].0);
        lemma_ser_ws_free(es[0].1);
        lemma_strip_ws_concat(seq![' ', ' ', '"'], esc(es[0].0));
        lemma_strip_ws_concat(seq![' ', ' ', '"'] + esc(es[0].0), seq!['"', ':', ' ']);
        lemma_strip_ws_concat(
            seq![' ', ' ', '"'] + esc(es[0].0) + seq!['"', ':', ' '],
            ser(es[0].1),
        );
        lemma_strip_ws_id(esc(es[0].0));
        assert(strip_ws(phead) =~= shead);
        if es.len() == 1 {
            lemma_strip_ws_concat(phead, seq!['\n']);
            assert(strip_ws(pretty_entries_spec(es)) =~= ser_entries(es));
        } else {
            lemma_ws_free_entries_drop_first(es);
            lemma_pretty_entries_strip(es.drop_first());
            lemma_strip_ws_concat(phead, seq![',', '\n']);
            lemma_strip_ws_concat(phead + seq![',', '\n'], pretty_entries_spec(es.drop_first()));
            assert(strip_ws(pretty_entries_spec(es)) =~= ser_entries(es));
        }
    }
}

/// Parses the escaped body of a quoted string starting at `i`,
/// mirroring `parse_chars` on the remaining input.
fn parse_chars_at(s: &Vec<char>, i: usize) -> (r: Option<(String, usize)>)
    requires
        i <= s.len(),
    ensures
        match r {
            Some(p) => i <= p.1 <= s@.len() && parse_chars(s@.skip(i as int)) == Some(
                (p.0@, s@.skip(p.1 as int)),
            ),
            None => parse_chars(s@.skip(i as int)) is None,
        },
    decreases s@.len() - i,
{
    let ghost suf = s@.skip(i as int);
    proof {
        assert(suf.len() == s@.len() - i);
    }
    if i >= s.len() {
        None
    } else {
        proof {
            assert(suf[0] == s@[i as int]);
            assert(suf.drop_first() =~= s@.skip(i + 1));
        }
        let c = s[i];
        if c == '"' {
            Some((String::new(), i + 1))
        } else if c == '\\' {
            if i + 1 < s.len() && (s[i + 1] == '"' || s[i + 1] == '\\') {
                proof {
                    assert(suf[1] == s@[i + 1]);
                    assert(suf.skip(2) =~= s@.skip(i + 2));
                }
                match parse_chars_at(s, i + 2) {
                    Some((t, j)) => {
                        let mut out = String::new();
                        push_char(&mut out, s[i + 1]);
                        out.append(t.as_str());
                        proof {
                            assert(out@ =~= seq![suf[1]] + t@);
                        }
                        Some((out, j))
                    },
                    None => None,
                }
            } else {
                proof {
                    if suf.len() >= 2 {
                        assert(suf[1] == s@[i + 1]);
                    }
                }
                None
            }
        } else {
            match parse_chars_at(s, i + 1) {
                Some((t, j)) => {
                    let mut out = String::new();
                    push_char(&mut out, c);
                    out.append(t.as_str());
                    proof {
                        assert(out@ =~= seq![suf[0]] + t@);
                    }
                    Some((out, j))
                },
                None => None,
            }
        }
    }
}

/// Parses a quoted string starting at `i`, mirroring `parse_string`.
fn parse_string_at(s: &Vec<char>, i: usize) -> (r: Option<(String, usize)>)
    requires
        i <= s.len(),
    ensures
        match r {
            Some(p) => i <= p.1 <= s@.len() && parse_string(s@.skip(i as int)) == Some(
                (p.0@, s@.skip(p.1 as int)),
            ),
            None => parse_string(s@.skip(i as int)) is None,
        },
{
    proof {
        assert(s@.skip(i as int).len() == s@.len() - i);
        if i < s@.len() {
            assert(s@.skip(i as int)[0] == s@[i as int]);
            assert(s@.skip(i as int).drop_first() =~= s@.skip(i + 1));
        }
    }
    if i < s.len() && s[i] == '"' {
        parse_chars_at(s, i + 1)
    } else {
        None
    }
}

/// Parses one document starting at `i`, mirroring `parse_doc`.
fn parse_doc_at(s: &Vec<char>, i: usize) -> (r: Option<(Doc, usize)>)
    requires
        i <= s.len(),
    ensures
        match r {
            Some(p) => i <= p.1 <= s@.len() && parse_doc(s@.skip(i as int)) == Some(
                (p.0@, s@.skip(p.1 as int)),
            ),
            None => parse_doc(s@.skip(i as int)) is None,
        },
    decreases s@.len() - i, 1nat,
{
    let ghost suf = s@.skip(i as int);
    proof {
        assert(suf.len() == s@.len() - i);
    }
    if i >= s.len() {
        None
    } else {
        proof {
            assert(suf[0] == s@[i as int]);
            assert(suf.drop_first() =~= s@.skip(i + 1));
        }
        let c = s[i];
        if c == '"' {
            match parse_string_at(s, i) {
                Some((t, j)) => Some((Doc::Val(t), j)),
                None => None,
            }
        } else if c == '{' {
            if i + 1 < s.len() && s[i + 1] == '}' {
                proof {
                    assert(suf[1] == s@[i + 1]);
                    assert(suf.skip(2) =~= s@.skip(i + 2));
                    assert(entries_view(Seq::<(String, Doc)>::empty()) =~= Seq::<(
                        Seq<char>,
                        DocV,
                    )>::empty());
                }
                let es: Vec<(String, Doc)> = Vec::new();
                Some((Doc::Obj(es), i + 2))
            } else {
                proof {
                    if suf.len() >= 2 {
                        assert(suf[1] == s@[i + 1]);
                    }
                }
                match parse_entries_at(s, i + 1) {
                    Some((es, j)) => Some((Doc::Obj(es), j)),
                    None => None,
                }
            }
        } else {
            None
        }
    }
}

/// Parses entries up to the closing brace starting at `i`, mirroring
/// `parse_entries`.
fn parse_entries_at(s: &Vec<char>, i: usize) -> (r: Option<(Vec<(String, Doc)>, usize)>)
    requires
        i <= s.len(),
    ensures
        match r {
            Some(p) => i <= p.1 <= s@.len() && parse_entries(s@.skip(i as int)) == Some(
                (entries_view(p.0@), s@.skip(p.1 as int)),
            ),
            None => parse_entries(s@.skip(i as int)) is None,
        },
    decreases s@.len() - i, 0nat,
{
    let ghost suf = s@.skip(i as int);
    match parse_string_at(s, i) {
        None => None,
        Some((k, j1)) => {
            let ghost r1 = s@.skip(j1 as int);
            if j1 <= i {
                proof {
                    assert(r1.len() >= suf.len());
                }
                None
            } else if j1 < s.len() && s[j1] == ':' {
                proof {
                    assert(r1.len() < suf.len());
                    assert(r1[0] == s@[j1 as int]);
                    assert(r1.drop_first() =~= s@.skip(j1 + 1));
                }
                match parse_doc_at(s, j1 + 1) {
                    None => None,
                    Some((v, j2)) => {
                        let ghost r2 = s@.skip(j2 as int);
                        if j2 <= j1 {
                            proof {
                                assert(r2.len() >= r1.len());
                            }
                            None
                        } else if j2 < s.len() && s[j2] == ',' {
                            proof {
                                assert(r2.len() < r1.len());
                                assert(r2[0] == s@[j2 as int]);
                                assert(r2.drop_first() =~= s@.skip(j2 + 1));
                            }
                            match parse_entries_at(s, j2 + 1) {
                                None => None,
                                Some((es, j3)) => {
                                    let mut out: Vec<(String, Doc)> = Vec::new();
                                    out.push((k, v));
                                    let ghost first = out@;
                                    let mut rest = es;
                                    let ghost rest_v = rest@;
                                    out.append(&mut rest);
                                    proof {
                                        assert(out@.drop_first() =~= rest_v);
                                        assert(entries_view(out@) == seq![
                                            (out@[0].0@, doc_view(out@[0].1)),
                                        ] + entries_view(rest_v));
                                        assert(entries_view(out@) =~= seq![(k@, v@)]
                                            + entries_view(rest_v));
                                    }
                                    Some((out, j3))
                                },
                            }
                        } else if j2 < s.len() && s[j2] == '}' {
                            proof {
                                assert(r2.len() < r1.len());
                                assert(r2[0] == s@[j2 as int]);
                                assert(r2.drop_first() =~= s@.skip(j2 + 1));
                            }
                            let mut out: Vec<(String, Doc)> = Vec::new();
                            out.push((k, v));
                            proof {
                                assert(out@.drop_first() =~= Seq::<(String, Doc)>::empty());
                                assert(entries_view(out@) == seq![(out@[0].0@, doc_view(out@[0].1))]
                                    + entries_view(Seq::<(String, Doc)>::empty()));
                                assert(entries_view(out@) =~= seq![(k@, v@)]);
                            }
                            Some((out, j2 + 1))
                        } else {
                            proof {
                                assert(r2.len() < r1.len());
                                if r2.len() > 0 {
                                    assert(r2[0] == s@[j2 as int]);
                                }
                            }
                            None
                        }
                    },
                }
            } else {
                proof {
                    assert(r1.len() < suf.len());
                    if r1.len() > 0 {
                        assert(r1[0] == s@[j1 as int]);
                    }
                }
                None
            }
        },
    }
}

impl Doc {
    /// The document's text encoding, as a fresh string.
    pub fn to_string(&self) -> (r: String)
        ensures
            r@ == ser(self@),
    {
        self.emit()
    }

    /// Parses a document from its text encoding; fails on any input
    /// that is not exactly the encoding of one document.
    pub fn from_str(s: &str) -> (r: Option<Doc>)
        ensures
            match r {
                Some(d) => deserialize_spec(s@) == Some(d@),
                None => deserialize_spec(s@) is None,
            },
    {
        let cs = str_to_chars(s);
        proof {
            assert(cs@.skip(0) =~= s@);
        }
        match parse_doc_at(&cs, 0) {
            Some((d, j)) => {
                if j == cs.len() {
                    proof {
                        assert(cs@.skip(j as int).len() == 0);
                    }
                    Some(d)
                } else {
                    proof {
                        assert(cs@.skip(j as int).len() > 0);
                    }
                    None
                }
            },
            None => None,
        }
    }
}

} // verus!
