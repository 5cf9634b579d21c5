//! What reading gives back of writing: a response written out by
//! `Response::raw` and read back by `Response::try_from` is the same
//! response, when its parts keep to the shape that the reader expects.

use vstd::prelude::*;
use vstd::utf8::{
    encode_scalar, encode_utf8, encode_utf8_decode_utf8, encode_utf8_valid_utf8,
    has_width_1_encoding,
};
use crate::outside::lossy_text;
use crate::http::{lines_from, trim_bytes, trim_end_bytes, trim_start_bytes};
use crate::text::{
    is_ws, lemma_first_index_after, occurs_at, replace_all, trim_start_ws, trim_ws,
};
use crate::http::{
    body_of, fields_spec, has_colon, header_key, header_map, header_text, header_value,
    lemma_first_empty_at, lemma_protocol_name_roundtrip, lossy_lines, message_lines,
    protocol_name, response_code, response_head, response_head_ok, response_parse,
    response_text, start_line, token, Protocol,
};
use crate::strmap::{lemma_map_of_push, map_of, sorted_keys, Entry};
use crate::text::all_ascii;
use crate::http::{
    lemma_method_name_roundtrip, method_name, request_head_ok, request_line,
    request_parse, request_path, request_version, header_error, Method,
};

verus! {

/// `s` holds no `\n` and no `\r`.
pub open spec fn no_line_break(s: Seq<char>) -> bool {
    forall|i: int| 0 <= i < s.len() ==> #[trigger] s[i] != '\n' && s[i] != '\r'
}

/// `b` holds no byte 10 (`\n`) and no byte 13 (`\r`).
pub open spec fn no_line_break_bytes(b: Seq<u8>) -> bool {
    forall|i: int| 0 <= i < b.len() ==> #[trigger] b[i] != 10 && b[i] != 13
}

pub proof fn lemma_encode_concat(a: Seq<char>, b: Seq<char>)
    ensures
        encode_utf8(a + b) == encode_utf8(a) + encode_utf8(b),
    decreases a.len(),
{
    if a.len() == 0 {
        assert(a + b == b);
    } else {
        lemma_encode_concat(a.drop_first(), b);
        assert((a + b).drop_first() == a.drop_first() + b);
        assert((a + b)[0] == a[0]);
    }
}

proof fn lemma_width1_byte(u: u32)
    by (bit_vector)
    requires
        u <= 0x7F,
    ensures
        (u & 0x7F) as u8 == u,
{
}

proof fn lemma_high_bytes(u: u32)
    by (bit_vector)
    ensures
        (0xC0u8 | ((u >> 6) & 0x1F) as u8) >= 0x80,
        (0xE0u8 | ((u >> 12) & 0x0F) as u8) >= 0x80,
        (0xF0u8 | ((u >> 18) & 0x7) as u8) >= 0x80,
        (0x80u8 | (u & 0x3F) as u8) >= 0x80,
        (0x80u8 | ((u >> 6) & 0x3F) as u8) >= 0x80,
        (0x80u8 | ((u >> 12) & 0x3F) as u8) >= 0x80,
{
}

/// The encoding of an ASCII character is its code.
pub proof fn lemma_encode_ascii(c: char)
    requires
        (c as u32) < 128,
    ensures
        encode_scalar(c as u32) == seq![c as u32 as u8],
{
    lemma_width1_byte(c as u32);
}

/// The encoding of a character that is no line break holds no line-break
/// byte.
pub proof fn lemma_encode_scalar_no_break(c: char)
    requires
        c != '\n',
        c != '\r',
    ensures
        no_line_break_bytes(encode_scalar(c as u32)),
{
    let u = c as u32;
    vstd::utf8::char_is_scalar(c);
    lemma_high_bytes(u);
    if has_width_1_encoding(u) {
        lemma_width1_byte(u);
        assert(u != 10 && u != 13);
    }
}

pub proof fn lemma_encode_no_break(s: Seq<char>)
    requires
        no_line_break(s),
    ensures
        no_line_break_bytes(encode_utf8(s)),
    decreases s.len(),
{
    if s.len() > 0 {
        assert(s[0] != '\n' && s[0] != '\r');
        lemma_encode_scalar_no_break(s[0]);
        assert(no_line_break(s.drop_first())) by {
            assert forall|i: int| 0 <= i < s.drop_first().len() implies #[trigger] s.drop_first()[i]
                != '\n' && s.drop_first()[i] != '\r' by {
                assert(s.drop_first()[i] == s[i + 1]);
            }
        }
        lemma_encode_no_break(s.drop_first());
        let a = encode_scalar(s[0] as u32);
        let b = encode_utf8(s.drop_first());
        assert forall|i: int| 0 <= i < (a + b).len() implies #[trigger] (a + b)[i] != 10 && (a
            + b)[i] != 13 by {
            if i < a.len() {
                assert((a + b)[i] == a[i]);
            } else {
                assert((a + b)[i] == b[i - a.len()]);
            }
        }
    }
}

/// Decoding the encoding of characters gives them back, as
/// `String::from_utf8_lossy` decodes.
pub proof fn lemma_lossy_encode(s: Seq<char>)
    ensures
        lossy_text(encode_utf8(s)) == s,
{
    encode_utf8_valid_utf8(s);
    encode_utf8_decode_utf8(s);
}


/// Lines: a line without line-break bytes followed by `\n` is read as one
/// line, and reading goes on with what follows.
pub proof fn lemma_lines_line(x: Seq<u8>, y: Seq<u8>, chunk: Seq<u8>)
    requires
        no_line_break_bytes(x),
    ensures
        lines_from(x + seq![10u8] + y, chunk) == seq![chunk + x] + lines_from(y, Seq::empty()),
    decreases x.len(),
{
    let s = x + seq![10u8] + y;
    if x.len() == 0 {
        assert(s[0] == 10);
        assert(s.skip(1) == y);
        assert(chunk + x == chunk);
    } else {
        assert(s[0] == x[0]);
        assert(x[0] != 10 && x[0] != 13);
        assert(s.skip(1) == x.drop_first() + seq![10u8] + y);
        assert(no_line_break_bytes(x.drop_first())) by {
            assert forall|i: int| 0 <= i < x.drop_first().len() implies #[trigger] x.drop_first()[i]
                != 10 && x.drop_first()[i] != 13 by {
                assert(x.drop_first()[i] == x[i + 1]);
            }
        }
        lemma_lines_line(x.drop_first(), y, chunk.push(x[0]));
        assert(chunk.push(x[0]) + x.drop_first() == chunk + x);
    }
}

/// Lines: bytes without line breaks are read as a single last line.
pub proof fn lemma_lines_last(x: Seq<u8>, chunk: Seq<u8>)
    requires
        no_line_break_bytes(x),
    ensures
        lines_from(x, chunk) == seq![chunk + x],
    decreases x.len(),
{
    if x.len() == 0 {
        assert(chunk + x == chunk);
    } else {
        assert(x[0] != 10 && x[0] != 13);
        assert(no_line_break_bytes(x.drop_first())) by {
            assert forall|i: int| 0 <= i < x.drop_first().len() implies #[trigger] x.drop_first()[i]
                != 10 && x.drop_first()[i] != 13 by {
                assert(x.drop_first()[i] == x[i + 1]);
            }
        }
        assert(x.skip(1) == x.drop_first());
        lemma_lines_last(x.drop_first(), chunk.push(x[0]));
        assert(chunk.push(x[0]) + x.drop_first() == chunk + x);
    }
}

/// Character lines, each followed by `\n`.
pub open spec fn joined(ls: Seq<Seq<char>>) -> Seq<char>
    decreases ls.len(),
{
    if ls.len() == 0 {
        Seq::empty()
    } else {
        joined(ls.drop_last()) + ls.last() + seq!['\n']
    }
}

/// The encodings of character lines.
pub open spec fn encoded_lines(ls: Seq<Seq<char>>) -> Seq<Seq<u8>> {
    ls.map_values(|l: Seq<char>| encode_utf8(l))
}

pub proof fn lemma_encode_newline()
    ensures
        encode_utf8(seq!['\n']) == seq![10u8],
{
    let s = seq!['\n'];
    assert(('\n' as u32) == 10);
    lemma_encode_ascii('\n');
    assert(s.drop_first() =~= Seq::<char>::empty());
    assert(encode_utf8(s.drop_first()) == Seq::<u8>::empty());
    assert(encode_utf8(s) == encode_scalar(s[0] as u32) + encode_utf8(s.drop_first()));
    assert(encode_scalar(s[0] as u32) == seq![10u8]);
    assert(encode_utf8(s) =~= seq![10u8]);
}

/// Lines: the encoding of joined lines without line breaks is read as those
/// lines, and reading goes on with what follows.
pub proof fn lemma_lines_joined(ls: Seq<Seq<char>>, rest: Seq<u8>)
    requires
        forall|i: int| 0 <= i < ls.len() ==> no_line_break(#[trigger] ls[i]),
    ensures
        lines_from(encode_utf8(joined(ls)) + rest, Seq::empty()) == encoded_lines(ls) + lines_from(
            rest,
            Seq::empty(),
        ),
    decreases ls.len(),
{
    if ls.len() == 0 {
        assert(encode_utf8(joined(ls)) + rest == rest);
        assert(encoded_lines(ls) + lines_from(rest, Seq::empty()) == lines_from(rest, Seq::empty()));
    } else {
        let init = ls.drop_last();
        let last = ls.last();
        lemma_encode_concat(joined(init) + last, seq!['\n']);
        lemma_encode_concat(joined(init), last);
        lemma_encode_newline();
        let e_last = encode_utf8(last);
        assert(encode_utf8(joined(ls)) + rest == encode_utf8(joined(init)) + (e_last + seq![10u8]
            + rest));
        assert(no_line_break(last));
        lemma_encode_no_break(last);
        lemma_lines_joined(init, e_last + seq![10u8] + rest);
        lemma_lines_line(e_last, rest, Seq::empty());
        assert(Seq::<u8>::empty() + e_last == e_last);
        assert(encoded_lines(ls) == encoded_lines(init).push(e_last));
        assert(encoded_lines(ls) + lines_from(rest, Seq::empty()) == encoded_lines(init) + (seq![
            e_last,
        ] + lines_from(rest, Seq::empty())));
    }
}

/// Trimming a sequence that neither starts nor ends with `ch` changes
/// nothing.
pub proof fn lemma_trim_noop(s: Seq<u8>, ch: u8)
    requires
        s.len() > 0,
        s[0] != ch,
        s.last() != ch,
    ensures
        trim_bytes(s, ch) == s,
{
    assert(trim_start_bytes(s, ch) == s);
    assert(trim_end_bytes(s, ch) == s);
}


pub proof fn lemma_replace_at_start(pat: Seq<char>, rest: Seq<char>, rep: Seq<char>)
    requires
        pat.len() > 0,
    ensures
        replace_all(pat + rest, pat, rep) == rep + replace_all(rest, pat, rep),
{
    let s = pat + rest;
    assert(s.subrange(0, pat.len() as int) == pat);
    assert(occurs_at(s, 0, pat));
    assert(s.skip(pat.len() as int) == rest);
}

/// Replacing skips a prefix none of whose characters starts the pattern.
pub proof fn lemma_replace_skip(x: Seq<char>, y: Seq<char>, pat: Seq<char>, rep: Seq<char>)
    requires
        pat.len() > 0,
        forall|i: int| 0 <= i < x.len() ==> #[trigger] x[i] != pat[0],
    ensures
        replace_all(x + y, pat, rep) == x + replace_all(y, pat, rep),
    decreases x.len(),
{
    if x.len() > 0 {
        let s = x + y;
        assert(s[0] == x[0]);
        assert(!occurs_at(s, 0, pat)) by {
            if occurs_at(s, 0, pat) {
                assert(s.subrange(0, pat.len() as int)[0] == s[0]);
            }
        }
        assert(s.drop_first() == x.drop_first() + y);
        lemma_replace_skip(x.drop_first(), y, pat, rep);
        assert(seq![x[0]] + (x.drop_first() + replace_all(y, pat, rep)) == x + replace_all(
            y,
            pat,
            rep,
        ));
    } else {
        assert(x + y == y);
    }
}

/// Replacing changes nothing where the pattern does not occur.
pub proof fn lemma_replace_none(t: Seq<char>, pat: Seq<char>, rep: Seq<char>)
    requires
        forall|i: int| #[trigger] occurs_at(t, i, pat) ==> false,
    ensures
        replace_all(t, pat, rep) == t,
    decreases t.len(),
{
    if t.len() > 0 {
        assert(!occurs_at(t, 0, pat));
        assert forall|i: int| #[trigger] occurs_at(t.drop_first(), i, pat) implies false by {
            assert(t.drop_first().subrange(i, i + pat.len()) == t.subrange(i + 1, i + 1 + pat.len()));
            assert(occurs_at(t, i + 1, pat));
        }
        lemma_replace_none(t.drop_first(), pat, rep);
        assert(seq![t[0]] + t.drop_first() == t);
    }
}

/// Trimming ignores a leading space.
pub proof fn lemma_trim_leading_space(v: Seq<char>)
    ensures
        trim_ws(seq![' '] + v) == trim_ws(v),
{
    let s = seq![' '] + v;
    assert(is_ws(' '));
    assert(s[0] == ' ');
    assert(s.drop_first() == v);
    assert(trim_start_ws(s) == trim_start_ws(v));
}


/// The line that `raw` writes for a header entry, without its line end.
pub open spec fn header_line(e: Entry) -> Seq<char> {
    e.0 + seq![':', ' '] + e.1
}

/// The header lines of a list of entries.
pub open spec fn header_lines(es: Seq<Entry>) -> Seq<Seq<char>> {
    es.map_values(|e: Entry| header_line(e))
}

/// A header entry that reads back as itself: no line breaks, no colon in
/// the name, and no surrounding whitespace in either part.
pub open spec fn header_entry_ok(e: Entry) -> bool {
    &&& no_line_break(e.0)
    &&& no_line_break(e.1)
    &&& forall|i: int| 0 <= i < e.0.len() ==> #[trigger] e.0[i] != ':'
    &&& trim_ws(e.0) == e.0
    &&& trim_ws(e.1) == e.1
}

pub proof fn lemma_header_text_joined(es: Seq<Entry>)
    ensures
        header_text(es) == joined(header_lines(es)),
    decreases es.len(),
{
    if es.len() > 0 {
        lemma_header_text_joined(es.drop_last());
        assert(header_lines(es).drop_last() == header_lines(es.drop_last()));
        assert(header_lines(es).last() == header_line(es.last()));
    } else {
        assert(header_lines(es) =~= Seq::<Seq<char>>::empty());
    }
}

pub proof fn lemma_header_line_parts(e: Entry)
    requires
        header_entry_ok(e),
    ensures
        has_colon(header_line(e)),
        header_key(header_line(e)) == e.0,
        header_value(header_line(e)) == e.1,
        no_line_break(header_line(e)),
        header_line(e).len() > 0,
{
    let l = header_line(e);
    let tail = seq![' '] + e.1;
    assert(l == e.0 + seq![':'] + tail);
    lemma_first_index_after(e.0, ':', tail);
    assert(l.take(e.0.len() as int) == e.0);
    assert(l.skip(e.0.len() + 1int) == tail);
    lemma_trim_leading_space(e.1);
    assert forall|i: int| 0 <= i < l.len() implies #[trigger] l[i] != '\n' && l[i] != '\r' by {
        if i < e.0.len() {
            assert(l[i] == e.0[i]);
        } else if i >= e.0.len() + 2 {
            assert(l[i] == e.1[i - e.0.len() - 2]);
        }
    }
}

pub proof fn lemma_header_map(es: Seq<Entry>)
    requires
        sorted_keys(es),
        forall|i: int| 0 <= i < es.len() ==> header_entry_ok(#[trigger] es[i]),
    ensures
        header_map(header_lines(es)) == map_of(es),
    decreases es.len(),
{
    if es.len() == 0 {
        assert(header_lines(es) =~= Seq::<Seq<char>>::empty());
        assert(map_of(es) =~= Map::<Seq<char>, Seq<char>>::empty());
    } else {
        let init = es.drop_last();
        assert(sorted_keys(init));
        assert forall|i: int| 0 <= i < init.len() implies header_entry_ok(#[trigger] init[i]) by {
            assert(init[i] == es[i]);
        }
        lemma_header_map(init);
        lemma_map_of_push(es);
        assert(header_lines(es).drop_last() == header_lines(init));
        assert(header_lines(es).last() == header_line(es.last()));
        assert(header_entry_ok(es[es.len() - 1]));
        lemma_header_line_parts(es.last());
    }
}

/// Lines that all decode to removed lines add nothing to the body.
pub proof fn lemma_body_removed(ls: Seq<Seq<u8>>, removed: Seq<Seq<char>>)
    requires
        forall|j: int| 0 <= j < ls.len() ==> removed.contains(lossy_text(#[trigger] ls[j])),
    ensures
        body_of(ls, removed) == Seq::<u8>::empty(),
    decreases ls.len(),
{
    if ls.len() > 0 {
        assert(removed.contains(lossy_text(ls[ls.len() - 1])));
        lemma_body_removed(ls.drop_last(), removed);
    }
}

/// A status code made of decimal digits.
pub open spec fn status_code_ok(code: Seq<char>) -> bool {
    forall|i: int| 0 <= i < code.len() ==> 48 <= #[trigger] (code[i] as u32) <= 57
}

/// The responses that read back as themselves: a status code of digits; a
/// status text without line breaks that does not contain the status line's
/// `"<VERSION> <code> "`; header entries in ascending order that read back
/// as themselves; a body without line breaks that does not end with a
/// space or a NUL byte and does not decode to one of the header lines.
pub open spec fn roundtrip_ok(
    p: Protocol,
    code: Seq<char>,
    text: Seq<char>,
    es: Seq<Entry>,
    body: Seq<u8>,
) -> bool {
    &&& status_code_ok(code)
    &&& no_line_break(text)
    &&& forall|i: int| !#[trigger] occurs_at(text, i, protocol_name(p).push(' ') + code.push(' '))
    &&& sorted_keys(es)
    &&& forall|i: int| 0 <= i < es.len() ==> header_entry_ok(#[trigger] es[i])
    &&& no_line_break_bytes(body)
    &&& body.len() > 0 ==> body.last() != 32 && body.last() != 0
    &&& !header_lines(es).contains(lossy_text(body))
}

proof fn lemma_protocol_name_shape(p: Protocol)
    ensures
        protocol_name(p).len() > 0,
        48 <= (protocol_name(p).last() as u32) <= 57,
        protocol_name(p)[0] == 'H',
        all_ascii(protocol_name(p)),
        no_line_break(protocol_name(p)),
        forall|i: int| 0 <= i < protocol_name(p).len() ==> #[trigger] protocol_name(p)[i] != ' ',
{
}

/// What `Response::raw` writes, `Response::try_from` reads back: the same
/// version, status code, status text, headers and body, for every response
/// of the shape that `roundtrip_ok` describes.
pub proof fn lemma_response_roundtrip(
    p: Protocol,
    code: Seq<char>,
    text: Seq<char>,
    es: Seq<Entry>,
    body: Seq<u8>,
)
    requires
        roundtrip_ok(p, code, text, es, body),
    ensures
        response_head_ok(encode_utf8(response_head(p, code, text, es)) + body),
        response_parse(encode_utf8(response_head(p, code, text, es)) + body) == Ok::<
            _,
            Seq<char>,
        >((p, code, text, map_of(es), body)),
{
    let v = encode_utf8(response_head(p, code, text, es)) + body;
    let pn = protocol_name(p);
    lemma_protocol_name_shape(p);
    let sl = pn + seq![' '] + code + seq![' '] + text;
    let hls = header_lines(es);
    lemma_header_text_joined(es);
    assert(response_head(p, code, text, es) == sl + seq!['\n'] + joined(hls) + seq!['\n']);
    // the status line has no line break
    assert(no_line_break(sl)) by {
        assert forall|i: int| 0 <= i < sl.len() implies #[trigger] sl[i] != '\n' && sl[i]
            != '\r' by {
            if i < pn.len() {
                assert(sl[i] == pn[i]);
            } else if i == pn.len() {
            } else if i < pn.len() + 1 + code.len() {
                assert(sl[i] == code[i - pn.len() - 1]);
                assert(48 <= (code[i - pn.len() - 1] as u32) <= 57);
            } else if i == pn.len() + 1 + code.len() {
            } else {
                assert(sl[i] == text[i - pn.len() - 2 - code.len()]);
            }
        }
    }
    // the bytes
    let esl = encode_utf8(sl);
    let ej = encode_utf8(joined(hls));
    lemma_encode_newline();
    lemma_encode_concat(sl + seq!['\n'] + joined(hls), seq!['\n']);
    lemma_encode_concat(sl + seq!['\n'], joined(hls));
    lemma_encode_concat(sl, seq!['\n']);
    assert(v == esl + seq![10u8] + (ej + (seq![10u8] + body)));
    // the first byte is 'H'
    assert(sl[0] == 'H');
    lemma_encode_ascii('H');
    assert(esl == encode_scalar(sl[0] as u32) + encode_utf8(sl.drop_first()));
    assert(v[0] == 72u8);
    // trimming changes nothing
    if body.len() > 0 {
        assert(v.last() == body.last());
    } else {
        assert(v.last() == 10u8);
    }
    lemma_trim_noop(v, 32);
    lemma_trim_noop(v, 0);
    // the lines
    lemma_encode_no_break(sl);
    lemma_lines_line(esl, ej + (seq![10u8] + body), Seq::empty());
    assert forall|i: int| 0 <= i < hls.len() implies no_line_break(#[trigger] hls[i]) by {
        assert(header_entry_ok(es[i]));
        lemma_header_line_parts(es[i]);
    }
    lemma_lines_joined(hls, seq![10u8] + body);
    lemma_lines_line(Seq::empty(), body, Seq::empty());
    assert(Seq::<u8>::empty() + seq![10u8] + body == seq![10u8] + body);
    lemma_lines_last(body, Seq::empty());
    assert(Seq::<u8>::empty() + body == body);
    let ls = message_lines(v);
    assert(Seq::<u8>::empty() + esl == esl);
    assert(ls == seq![esl] + (encoded_lines(hls) + (seq![Seq::<u8>::empty()] + seq![body])));
    // the status line
    assert(ls[0] == esl);
    lemma_lossy_encode(sl);
    assert(start_line(v) == sl);
    lemma_first_index_after(pn, ' ', code + seq![' '] + text);
    assert(sl == pn + seq![' '] + (code + seq![' '] + text));
    assert(token(sl) == pn);
    lemma_protocol_name_roundtrip(p);
    // the status code
    let pat = pn.push(' ');
    assert(sl == pat + (code + seq![' '] + text));
    lemma_replace_at_start(pat, code + seq![' '] + text, Seq::empty());
    assert forall|i: int| 0 <= i < (code + seq![' ']).len() implies #[trigger] (code + seq![' '])[i]
        != pat[0] by {
        if i < code.len() {
            assert((code + seq![' '])[i] == code[i]);
            assert(48 <= (code[i] as u32) <= 57);
        }
    }
    lemma_replace_skip(code + seq![' '], text, pat, Seq::empty());
    let after = crate::text::replace_all(text, pat, Seq::empty());
    assert(Seq::<char>::empty() + (code + seq![' '] + after) == code + seq![' '] + after);
    assert forall|i: int| 0 <= i < code.len() implies #[trigger] code[i] != ' ' by {
        assert(48 <= (code[i] as u32) <= 57);
    }
    lemma_first_index_after(code, ' ', after);
    assert((code + seq![' '] + after).take(code.len() as int) == code);
    assert(response_code(sl, p) == code);
    // the status text
    let pat2 = pn.push(' ') + code.push(' ');
    assert(sl == pat2 + text);
    lemma_replace_at_start(pat2, text, Seq::empty());
    lemma_replace_none(text, pat2, Seq::empty());
    assert(Seq::<char>::empty() + text == text);
    assert(response_text(sl, p) == text);
    // all of the head is ASCII where it must be
    assert(all_ascii(code));
    assert(response_head_ok(v));
    // the headers and the body
    let rest = ls.drop_first();
    assert(rest == encoded_lines(hls) + seq![Seq::<u8>::empty(), body]);
    let n = hls.len();
    let hl = lossy_lines(rest);
    assert(vstd::utf8::valid_utf8(Seq::<u8>::empty()));
    assert(lossy_text(Seq::<u8>::empty()) =~= Seq::<char>::empty());
    assert forall|j: int| 0 <= j < n implies #[trigger] hl[j] == hls[j] by {
        lemma_lossy_encode(hls[j]);
    }
    assert forall|j: int| 0 <= j < n implies #[trigger] hl[j].len() > 0 by {
        assert(hl[j] == hls[j]);
        assert(header_entry_ok(es[j]));
        lemma_header_line_parts(es[j]);
    }
    assert(hl[n as int].len() == 0);
    lemma_first_empty_at(hl, n as int);
    assert(hl.take(n as int) =~= hls);
    assert forall|j: int| 0 <= j < n implies #[trigger] has_colon(hl[j]) by {
        assert(hl[j] == hls[j]);
        assert(header_entry_ok(es[j]));
        lemma_header_line_parts(es[j]);
    }
    lemma_header_map(es);
    // the body
    let el = encoded_lines(hls);
    assert forall|j: int| 0 <= j < el.len() implies hls.contains(lossy_text(#[trigger] el[j])) by {
        lemma_lossy_encode(hls[j]);
        assert(hls[j] == hls[j]);
    }
    lemma_body_removed(el, hls);
    assert(rest.drop_last() == el.push(Seq::<u8>::empty()));
    assert(el.push(Seq::<u8>::empty()).drop_last() == el);
    assert forall|j: int| 0 <= j < n implies #[trigger] hls[j].len() > 0 by {
        assert(header_entry_ok(es[j]));
        lemma_header_line_parts(es[j]);
    }
    assert(!hls.contains(Seq::<char>::empty()));
    let ep = el.push(Seq::<u8>::empty());
    assert(ep.last() == Seq::<u8>::empty());
    assert(body_of(ep, hls) == body_of(el, hls) + Seq::<u8>::empty());
    assert(body_of(ep, hls) =~= Seq::<u8>::empty());
    assert(rest.last() == body);
    assert(!hls.contains(lossy_text(body)));
    assert(body_of(rest, hls) == body_of(ep, hls) + body);
    assert(body_of(rest, hls) =~= body);
    assert(fields_spec(rest) == Some((map_of(es), body)));
}


/// The encoding of characters whose last one is ASCII ends with that
/// character's code.
pub proof fn lemma_encode_last_ascii(s: Seq<char>)
    requires
        s.len() > 0,
        (s.last() as u32) < 128,
    ensures
        encode_utf8(s).len() > 0,
        encode_utf8(s).last() == s.last() as u32 as u8,
{
    let lc = s.last();
    assert(s == s.drop_last().push(lc));
    assert(s.drop_last().push(lc) == s.drop_last() + seq![lc]);
    lemma_encode_concat(s.drop_last(), seq![lc]);
    lemma_encode_ascii(lc);
    assert(seq![lc].drop_first() =~= Seq::<char>::empty());
    assert(encode_utf8(seq![lc]) == encode_scalar(seq![lc][0] as u32) + encode_utf8(
        seq![lc].drop_first(),
    ));
    assert(encode_utf8(seq![lc]) =~= seq![lc as u32 as u8]);
}

/// The first line of a message that starts with a line `sl` (followed by
/// nothing, or by `\n` and more) is `sl`, when `sl` starts and ends with
/// ASCII characters other than space and NUL.
pub proof fn lemma_first_line(sl: Seq<char>, tail: Seq<u8>)
    requires
        sl.len() > 0,
        no_line_break(sl),
        33 <= (sl[0] as u32) < 128,
        33 <= (sl.last() as u32) < 128,
        tail.len() > 0 ==> tail[0] == 10 && tail.last() != 32 && tail.last() != 0,
    ensures
        crate::http::start_line(encode_utf8(sl) + tail) == sl,
        tail.len() == 0 ==> crate::http::message_lines(encode_utf8(sl) + tail) == seq![
            encode_utf8(sl),
        ],
{
    let v = encode_utf8(sl) + tail;
    let esl = encode_utf8(sl);
    lemma_encode_no_break(sl);
    lemma_encode_ascii(sl[0]);
    assert(esl == encode_scalar(sl[0] as u32) + encode_utf8(sl.drop_first()));
    assert(v[0] == esl[0]);
    assert(v[0] != 32 && v[0] != 0);
    if tail.len() > 0 {
        assert(v.last() == tail.last());
    } else {
        lemma_encode_last_ascii(sl);
        assert(v == esl);
    }
    lemma_trim_noop(v, 32);
    lemma_trim_noop(v, 0);
    if tail.len() > 0 {
        assert(tail == seq![10u8] + tail.drop_first());
        assert(v == esl + seq![10u8] + tail.drop_first());
        lemma_lines_line(esl, tail.drop_first(), Seq::empty());
    } else {
        assert(v == esl);
        lemma_lines_last(esl, Seq::empty());
    }
    assert(Seq::<u8>::empty() + esl == esl);
    lemma_lossy_encode(sl);
}

proof fn lemma_method_name_shape(m: Method)
    ensures
        method_name(m).len() > 0,
        65 <= (method_name(m)[0] as u32) <= 90,
        all_ascii(method_name(m)),
        no_line_break(method_name(m)),
        forall|i: int| 0 <= i < method_name(m).len() ==> #[trigger] method_name(m)[i] != ' ',
{
}

/// A request whose first line is the request line of method `m`, path
/// `path` and version `p` reads back with that method, path and version
/// (and fails, if at all, only on a header line); the request line alone
/// reads back as a request with no headers and an empty body. The path must be ASCII
/// without spaces or line breaks, and `"<METHOD> "` must not occur in what
/// follows the method in the line (the reader removes every occurrence).
pub proof fn lemma_request_line_roundtrip(m: Method, path: Seq<char>, p: Protocol, tail: Seq<u8>)
    requires
        all_ascii(path),
        no_line_break(path),
        forall|i: int| 0 <= i < path.len() ==> #[trigger] path[i] != ' ',
        forall|i: int|
            !#[trigger] occurs_at(path + seq![' '] + protocol_name(p), i, method_name(m).push(' ')),
        tail.len() > 0 ==> tail[0] == 10 && tail.last() != 32 && tail.last() != 0,
    ensures
        request_head_ok(encode_utf8(request_line(m, path, p)) + tail),
        request_parse(encode_utf8(request_line(m, path, p)) + tail) matches Ok((m2, path2, p2, _, _))
            ==> m2 == m && path2 == path && p2 == p,
        request_parse(encode_utf8(request_line(m, path, p)) + tail) matches Err(e) ==> e
            == header_error(),
        tail.len() == 0 ==> request_parse(encode_utf8(request_line(m, path, p)) + tail) == Ok::<
            _,
            Seq<char>,
        >((m, path, p, Map::<Seq<char>, Seq<char>>::empty(), Seq::<u8>::empty())),
{
    let mn = method_name(m);
    let pn = protocol_name(p);
    lemma_method_name_shape(m);
    lemma_protocol_name_shape(p);
    let sl = request_line(m, path, p);
    let v = encode_utf8(sl) + tail;
    assert(no_line_break(sl)) by {
        assert forall|i: int| 0 <= i < sl.len() implies #[trigger] sl[i] != '\n' && sl[i]
            != '\r' by {
            if i < mn.len() {
                assert(sl[i] == mn[i]);
            } else if i == mn.len() {
            } else if i < mn.len() + 1 + path.len() {
                assert(sl[i] == path[i - mn.len() - 1]);
            } else if i == mn.len() + 1 + path.len() {
            } else {
                assert(sl[i] == pn[i - mn.len() - 2 - path.len()]);
            }
        }
    }
    assert(sl[0] == mn[0]);
    assert(sl.last() == pn.last());
    lemma_first_line(sl, tail);
    // the method
    lemma_first_index_after(mn, ' ', path + seq![' '] + pn);
    assert(sl == mn + seq![' '] + (path + seq![' '] + pn));
    assert(token(sl) == mn);
    lemma_method_name_roundtrip(m);
    // the path
    let pat = mn.push(' ');
    let after = path + seq![' '] + pn;
    assert(sl == pat + after);
    lemma_replace_at_start(pat, after, Seq::empty());
    lemma_replace_none(after, pat, Seq::empty());
    assert(Seq::<char>::empty() + after == after);
    lemma_first_index_after(path, ' ', pn);
    assert(after.take(path.len() as int) == path);
    assert(request_path(sl, m) == path);
    assert(request_head_ok(v));
    // the version
    let pat2 = mn.push(' ') + path.push(' ');
    assert(sl == pat2 + pn);
    lemma_replace_at_start(pat2, pn, Seq::empty());
    assert forall|i: int| #[trigger] occurs_at(pn, i, pat2) implies false by {
        assert(pn.subrange(i, i + pat2.len())[mn.len() as int] == pat2[mn.len() as int]);
        assert(pn[i + mn.len()] == ' ');
    }
    lemma_replace_none(pn, pat2, Seq::empty());
    assert(Seq::<char>::empty() + pn == pn);
    assert(request_version(sl, m) == pn);
    lemma_protocol_name_roundtrip(p);
    if tail.len() == 0 {
        let rest = crate::http::message_lines(v).drop_first();
        assert(rest =~= Seq::<Seq<u8>>::empty());
        let hl = lossy_lines(rest);
        assert(hl =~= Seq::<Seq<char>>::empty());
        assert(crate::http::first_empty(hl) == 0);
        assert(hl.take(0) =~= Seq::<Seq<char>>::empty());
        assert(header_map(hl.take(0)) == Map::<Seq<char>, Seq<char>>::empty());
        assert(body_of(rest, hl.take(0)) == Seq::<u8>::empty());
        assert(fields_spec(rest) == Some::<(Map<Seq<char>, Seq<char>>, Seq<u8>)>(
            (Map::<Seq<char>, Seq<char>>::empty(), Seq::<u8>::empty()),
        ));
    }
}

} // verus!
