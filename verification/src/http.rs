//! HTTP messages: methods and protocol versions, requests and responses,
//! how a response is written out as bytes and how requests and responses
//! are read back from bytes.

use vstd::prelude::*;
use crate::outside::{lossy_chars, lossy_text, string_of};
use crate::strmap::{lemma_map_of_push, lemma_sorted_unique, map_of, sorted_keys, Entry, StrMap};
use crate::text::{
    chars_of, ascii_lower, lemma_ascii_fold_equal, lemma_fold_congruent,
    all_ascii, all_ascii_exec, decimal, eq_ignore_ascii_case, eq_ignore_ascii_case_exec,
    find_char, first_index, lex_lt, push_all, push_decimal, replace_all,
    replace_all_exec, sub_chars, trim_ws, trim_ws_exec,
};

verus! {

/// The error of a message that cannot be read; it carries a description.
#[derive(Debug)]
pub struct ParseError(pub String);

/// An HTTP request method.
#[allow(non_camel_case_types)]
#[derive(PartialEq, Eq, Structural, Hash, Clone, Copy, Debug)]
pub enum Method {
    get,
    head,
    options,
    trace,
    put,
    delete,
    post,
    patch,
    connect,
}

/// The name of a method as it is written in a request line.
pub open spec fn method_name(m: Method) -> Seq<char> {
    match m {
        Method::get => seq!['G', 'E', 'T'],
        Method::head => seq!['H', 'E', 'A', 'D'],
        Method::options => seq!['O', 'P', 'T', 'I', 'O', 'N', 'S'],
        Method::trace => seq!['T', 'R', 'A', 'C', 'E'],
        Method::put => seq!['P', 'U', 'T'],
        Method::delete => seq!['D', 'E', 'L', 'E', 'T', 'E'],
        Method::post => seq!['P', 'O', 'S', 'T'],
        Method::patch => seq!['P', 'A', 'T', 'C', 'H'],
        Method::connect => seq!['C', 'O', 'N', 'N', 'E', 'C', 'T'],
    }
}

/// The method whose name `s` is, ignoring the case of ASCII letters.
pub open spec fn method_of(s: Seq<char>) -> Option<Method> {
    if eq_ignore_ascii_case(s, method_name(Method::get)) {
        Some(Method::get)
    } else if eq_ignore_ascii_case(s, method_name(Method::head)) {
        Some(Method::head)
    } else if eq_ignore_ascii_case(s, method_name(Method::options)) {
        Some(Method::options)
    } else if eq_ignore_ascii_case(s, method_name(Method::trace)) {
        Some(Method::trace)
    } else if eq_ignore_ascii_case(s, method_name(Method::put)) {
        Some(Method::put)
    } else if eq_ignore_ascii_case(s, method_name(Method::delete)) {
        Some(Method::delete)
    } else if eq_ignore_ascii_case(s, method_name(Method::post)) {
        Some(Method::post)
    } else if eq_ignore_ascii_case(s, method_name(Method::patch)) {
        Some(Method::patch)
    } else if eq_ignore_ascii_case(s, method_name(Method::connect)) {
        Some(Method::connect)
    } else {
        None
    }
}

/// The description of a method name that is not known.
pub open spec fn method_error(s: Seq<char>) -> Seq<char> {
    "failed to parse '"@ + s + "' into http::Method"@
}

/// The description of a protocol version that is not known.
pub open spec fn protocol_error() -> Seq<char> {
    "invalid parsing &str into HTTP protocol"@
}

/// The description of a header line without a colon.
pub open spec fn header_error() -> Seq<char> {
    "invalid header of HTTP message"@
}

fn method_chars(m: Method) -> (r: Vec<char>)
    ensures
        r@ == method_name(m),
{
    chars_of(m.to_string().as_str())
}

impl Method {
    /// The name of the method, in upper case.
    pub fn to_string(&self) -> (r: String)
        ensures
            r@ == method_name(*self),
    {
        match self {
            Method::get => {
                proof {
                    reveal_strlit("GET");
                }
                String::from_str("GET")
            },
            Method::post => {
                proof {
                    reveal_strlit("POST");
                }
                String::from_str("POST")
            },
            Method::put => {
                proof {
                    reveal_strlit("PUT");
                }
                String::from_str("PUT")
            },
            Method::delete => {
                proof {
                    reveal_strlit("DELETE");
                }
                String::from_str("DELETE")
            },
            Method::patch => {
                proof {
                    reveal_strlit("PATCH");
                }
                String::from_str("PATCH")
            },
            Method::head => {
                proof {
                    reveal_strlit("HEAD");
                }
                String::from_str("HEAD")
            },
            Method::options => {
                proof {
                    reveal_strlit("OPTIONS");
                }
                String::from_str("OPTIONS")
            },
            Method::trace => {
                proof {
                    reveal_strlit("TRACE");
                }
                String::from_str("TRACE")
            },
            Method::connect => {
                proof {
                    reveal_strlit("CONNECT");
                }
                String::from_str("CONNECT")
            },
        }
    }

    /// The method named by `v`, ignoring the case of ASCII letters.
    pub fn from_chars(v: &Vec<char>) -> (r: Option<Method>)
        ensures
            r == method_of(v@),
    {
        if eq_ignore_ascii_case_exec(v, &method_chars(Method::get)) {
            Some(Method::get)
        } else if eq_ignore_ascii_case_exec(v, &method_chars(Method::head)) {
            Some(Method::head)
        } else if eq_ignore_ascii_case_exec(v, &method_chars(Method::options)) {
            Some(Method::options)
        } else if eq_ignore_ascii_case_exec(v, &method_chars(Method::trace)) {
            Some(Method::trace)
        } else if eq_ignore_ascii_case_exec(v, &method_chars(Method::put)) {
            Some(Method::put)
        } else if eq_ignore_ascii_case_exec(v, &method_chars(Method::delete)) {
            Some(Method::delete)
        } else if eq_ignore_ascii_case_exec(v, &method_chars(Method::post)) {
            Some(Method::post)
        } else if eq_ignore_ascii_case_exec(v, &method_chars(Method::patch)) {
            Some(Method::patch)
        } else if eq_ignore_ascii_case_exec(v, &method_chars(Method::connect)) {
            Some(Method::connect)
        } else {
            None
        }
    }

    /// Reads a method name, in any mix of upper and lower case.
    pub fn try_from(value: &str) -> (r: Result<Method, ParseError>)
        ensures
            r matches Ok(m) ==> method_of(value@) == Some(m),
            r matches Err(e) ==> method_of(value@) is None && e.0@ == method_error(value@),
            r is Ok <==> method_of(value@) is Some,
    {
        match Method::from_chars(&chars_of(value)) {
            Some(m) => Ok(m),
            None => {
                let mut msg = String::from_str("failed to parse '");
                msg.append(value);
                msg.append("' into http::Method");
                Err(ParseError(msg))
            },
        }
    }
}

/// An HTTP protocol version.
#[allow(non_camel_case_types)]
#[derive(PartialEq, Eq, Structural, Clone, Copy, Debug)]
pub enum Protocol {
    HTTP_1_1,
    HTTP_2,
    HTTP_3,
}

/// The name of a protocol version as it is written in a message.
pub open spec fn protocol_name(p: Protocol) -> Seq<char> {
    match p {
        Protocol::HTTP_1_1 => seq!['H', 'T', 'T', 'P', '/', '1', '.', '1'],
        Protocol::HTTP_2 => seq!['H', 'T', 'T', 'P', '/', '2'],
        Protocol::HTTP_3 => seq!['H', 'T', 'T', 'P', '/', '3'],
    }
}

/// The protocol version whose name `s` is, ignoring the case of ASCII
/// letters.
pub open spec fn protocol_of(s: Seq<char>) -> Option<Protocol> {
    if eq_ignore_ascii_case(s, protocol_name(Protocol::HTTP_1_1)) {
        Some(Protocol::HTTP_1_1)
    } else if eq_ignore_ascii_case(s, protocol_name(Protocol::HTTP_2)) {
        Some(Protocol::HTTP_2)
    } else if eq_ignore_ascii_case(s, protocol_name(Protocol::HTTP_3)) {
        Some(Protocol::HTTP_3)
    } else {
        None
    }
}

fn protocol_chars(p: Protocol) -> (r: Vec<char>)
    ensures
        r@ == protocol_name(p),
{
    chars_of(p.to_string().as_str())
}

impl Protocol {
    /// The name of the version, such as `HTTP/1.1`.
    pub fn to_string(&self) -> (r: String)
        ensures
            r@ == protocol_name(*self),
    {
        match self {
            Protocol::HTTP_1_1 => {
                proof {
                    reveal_strlit("HTTP/1.1");
                }
                String::from_str("HTTP/1.1")
            },
            Protocol::HTTP_2 => {
                proof {
                    reveal_strlit("HTTP/2");
                }
                String::from_str("HTTP/2")
            },
            Protocol::HTTP_3 => {
                proof {
                    reveal_strlit("HTTP/3");
                }
                String::from_str("HTTP/3")
            },
        }
    }

    /// The version named by `v`, ignoring the case of ASCII letters.
    pub fn from_chars(v: &Vec<char>) -> (r: Option<Protocol>)
        ensures
            r == protocol_of(v@),
    {
        if eq_ignore_ascii_case_exec(v, &protocol_chars(Protocol::HTTP_1_1)) {
            Some(Protocol::HTTP_1_1)
        } else if eq_ignore_ascii_case_exec(v, &protocol_chars(Protocol::HTTP_2)) {
            Some(Protocol::HTTP_2)
        } else if eq_ignore_ascii_case_exec(v, &protocol_chars(Protocol::HTTP_3)) {
            Some(Protocol::HTTP_3)
        } else {
            None
        }
    }

    /// Reads a protocol version, in any mix of upper and lower case.
    pub fn try_from(value: &str) -> (r: Result<Protocol, ParseError>)
        ensures
            r matches Ok(p) ==> protocol_of(value@) == Some(p),
            r matches Err(e) ==> protocol_of(value@) is None && e.0@ == protocol_error(),
            r is Ok <==> protocol_of(value@) is Some,
    {
        match Protocol::from_chars(&chars_of(value)) {
            Some(p) => Ok(p),
            None => Err(ParseError(String::from_str("invalid parsing &str into HTTP protocol"))),
        }
    }
}


pub open spec fn trim_start_bytes(s: Seq<u8>, ch: u8) -> Seq<u8>
    decreases s.len(),
{
    if s.len() > 0 && s[0] == ch {
        trim_start_bytes(s.drop_first(), ch)
    } else {
        s
    }
}

pub open spec fn trim_end_bytes(s: Seq<u8>, ch: u8) -> Seq<u8>
    decreases s.len(),
{
    if s.len() > 0 && s.last() == ch {
        trim_end_bytes(s.drop_last(), ch)
    } else {
        s
    }
}

/// `s` without the copies of `ch` at its start and at its end.
pub open spec fn trim_bytes(s: Seq<u8>, ch: u8) -> Seq<u8> {
    trim_end_bytes(trim_start_bytes(s, ch), ch)
}

proof fn lemma_trim_start_bytes(s: Seq<u8>, ch: u8, k: int)
    requires
        0 <= k <= s.len(),
        forall|j: int| 0 <= j < k ==> s[j] == ch,
        k < s.len() ==> s[k] != ch,
    ensures
        trim_start_bytes(s, ch) == s.skip(k),
    decreases s.len(),
{
    if k > 0 {
        assert forall|j: int| 0 <= j < k - 1 implies s.drop_first()[j] == ch by {
            assert(s.drop_first()[j] == s[j + 1]);
        }
        lemma_trim_start_bytes(s.drop_first(), ch, k - 1);
        assert(s.drop_first().skip(k - 1) == s.skip(k));
    } else {
        assert(s.skip(0) == s);
    }
}

proof fn lemma_trim_end_bytes(s: Seq<u8>, ch: u8, k: int)
    requires
        0 <= k <= s.len(),
        forall|j: int| k <= j < s.len() ==> s[j] == ch,
        k > 0 ==> s[k - 1] != ch,
    ensures
        trim_end_bytes(s, ch) == s.take(k),
    decreases s.len(),
{
    if k < s.len() {
        assert forall|j: int| k <= j < s.drop_last().len() implies s.drop_last()[j] == ch by {
            assert(s.drop_last()[j] == s[j]);
        }
        lemma_trim_end_bytes(s.drop_last(), ch, k);
        assert(s.drop_last().take(k) == s.take(k));
    } else {
        assert(s.take(k) == s);
    }
}

/// Removes every `ch` at the start and at the end of `value`.
pub fn trim(value: &[u8], ch: u8) -> (r: Vec<u8>)
    ensures
        r@ == trim_bytes(value@, ch),
{
    let mut a: usize = 0;
    while a < value.len() && value[a] == ch
        invariant
            a <= value.len(),
            forall|j: int| 0 <= j < a ==> value@[j] == ch,
        decreases value.len() - a,
    {
        a += 1;
    }
    let mut b: usize = value.len();
    while b > a && value[b - 1] == ch
        invariant
            a <= b <= value.len(),
            forall|j: int| b <= j < value.len() ==> value@[j] == ch,
        decreases b,
    {
        b -= 1;
    }
    let mut r: Vec<u8> = Vec::new();
    let mut i = a;
    while i < b
        invariant
            a <= i <= b <= value.len(),
            r@ == value@.subrange(a as int, i as int),
        decreases b - i,
    {
        r.push(value[i]);
        i += 1;
    }
    proof {
        lemma_trim_start_bytes(value@, ch, a as int);
        let t = value@.skip(a as int);
        assert forall|j: int| b - a <= j < t.len() implies t[j] == ch by {
            assert(t[j] == value@[a + j]);
        }
        if b > a {
            assert(t[b - a - 1] == value@[b - 1]);
        }
        lemma_trim_end_bytes(t, ch, b - a);
        assert(t.take(b - a) == value@.subrange(a as int, b as int));
    }
    r
}

/// The lines of `s` that start with `chunk` already read: a line ends at
/// `\n` or at `\r\n`; a `\r` that is followed by another byte is kept and
/// that byte is dropped; the last line is the rest, possibly empty.
pub open spec fn lines_from(s: Seq<u8>, chunk: Seq<u8>) -> Seq<Seq<u8>>
    decreases s.len(),
{
    if s.len() == 0 {
        seq![chunk]
    } else if s[0] == 13 {
        if s.len() >= 2 && s[1] == 10 {
            seq![chunk] + lines_from(s.skip(2), Seq::empty())
        } else if s.len() >= 2 {
            lines_from(s.skip(2), chunk.push(13))
        } else {
            lines_from(s.skip(1), chunk.push(13))
        }
    } else if s[0] == 10 {
        seq![chunk] + lines_from(s.skip(1), Seq::empty())
    } else {
        lines_from(s.skip(1), chunk.push(s[0]))
    }
}

/// The lines of `s`.
pub open spec fn lines_spec(s: Seq<u8>) -> Seq<Seq<u8>> {
    lines_from(s, Seq::empty())
}

pub proof fn lemma_lines_from_nonempty(s: Seq<u8>, chunk: Seq<u8>)
    ensures
        lines_from(s, chunk).len() > 0,
    decreases s.len(),
{
    if s.len() > 0 {
        if s[0] == 13 {
            if s.len() >= 2 && s[1] == 10 {
                lemma_lines_from_nonempty(s.skip(2), Seq::empty());
            } else if s.len() >= 2 {
                lemma_lines_from_nonempty(s.skip(2), chunk.push(13));
            } else {
                lemma_lines_from_nonempty(s.skip(1), chunk.push(13));
            }
        } else if s[0] == 10 {
            lemma_lines_from_nonempty(s.skip(1), Seq::empty());
        } else {
            lemma_lines_from_nonempty(s.skip(1), chunk.push(s[0]));
        }
    }
}

/// The byte sequences held by a vector of byte vectors.
pub open spec fn byte_seqs(v: Seq<Vec<u8>>) -> Seq<Seq<u8>> {
    v.map_values(|x: Vec<u8>| x@)
}

/// Splits `value` into lines.
fn lines(value: &[u8]) -> (r: Vec<Vec<u8>>)
    ensures
        byte_seqs(r@) == lines_spec(value@),
        r@.len() > 0,
{
    let mut result: Vec<Vec<u8>> = Vec::new();
    let mut chunk: Vec<u8> = Vec::new();
    let mut i: usize = 0;
    assert(value@.skip(0) == value@);
    while i < value.len()
        invariant
            i <= value.len(),
            byte_seqs(result@) + lines_from(value@.skip(i as int), chunk@) == lines_spec(value@),
        decreases value.len() - i,
    {
        let ghost rest = value@.skip(i as int);
        let ghost old_result = byte_seqs(result@);
        let ghost old_chunk = chunk@;
        let now = value[i];
        assert(rest[0] == now);
        if now == 13 && i + 1 < value.len() && value[i + 1] == 10 {
            assert(rest[1] == value@[i + 1]);
            let c = chunk;
            result.push(c);
            chunk = Vec::new();
            i += 2;
            assert(rest.skip(2) == value@.skip(i as int));
            assert(byte_seqs(result@) == old_result.push(old_chunk));
            assert(byte_seqs(result@) + lines_from(value@.skip(i as int), chunk@) == old_result + (
            seq![old_chunk] + lines_from(rest.skip(2), Seq::empty())));
        } else if now == 13 {
            chunk.push(13);
            if i + 1 < value.len() {
                assert(rest[1] == value@[i + 1]);
                i += 2;
                assert(rest.skip(2) == value@.skip(i as int));
            } else {
                i += 1;
                assert(rest.skip(1) == value@.skip(i as int));
            }
        } else if now == 10 {
            let c = chunk;
            result.push(c);
            chunk = Vec::new();
            i += 1;
            assert(rest.skip(1) == value@.skip(i as int));
            assert(byte_seqs(result@) == old_result.push(old_chunk));
            assert(byte_seqs(result@) + lines_from(value@.skip(i as int), chunk@) == old_result + (
            seq![old_chunk] + lines_from(rest.skip(1), Seq::empty())));
        } else {
            chunk.push(now);
            i += 1;
            assert(rest.skip(1) == value@.skip(i as int));
        }
    }
    let ghost old_result = byte_seqs(result@);
    assert(value@.skip(i as int) =~= Seq::<u8>::empty());
    let ghost c = chunk@;
    result.push(chunk);
    assert(byte_seqs(result@) == old_result.push(c));
    assert(byte_seqs(result@) =~= old_result + seq![c]);
    result
}


/// The character sequences held by a vector of character vectors.
pub open spec fn char_seqs(v: Seq<Vec<char>>) -> Seq<Seq<char>> {
    v.map_values(|x: Vec<char>| x@)
}

/// Each line decoded as `String::from_utf8_lossy` decodes it.
pub open spec fn lossy_lines(ls: Seq<Seq<u8>>) -> Seq<Seq<char>> {
    ls.map_values(|l: Seq<u8>| lossy_text(l))
}

/// The index of the first empty line, or the number of lines.
pub open spec fn first_empty(hl: Seq<Seq<char>>) -> nat
    decreases hl.len(),
{
    if hl.len() == 0 {
        0
    } else if hl[0].len() == 0 {
        0
    } else {
        1 + first_empty(hl.drop_first())
    }
}

pub proof fn lemma_first_empty_at(hl: Seq<Seq<char>>, i: int)
    requires
        0 <= i <= hl.len(),
        forall|j: int| 0 <= j < i ==> hl[j].len() > 0,
        i < hl.len() ==> hl[i].len() == 0,
    ensures
        first_empty(hl) == i,
    decreases hl.len(),
{
    if hl.len() > 0 && hl[0].len() > 0 {
        assert forall|j: int| 0 <= j < i - 1 implies hl.drop_first()[j].len() > 0 by {
            assert(hl.drop_first()[j] == hl[j + 1]);
        }
        lemma_first_empty_at(hl.drop_first(), i - 1);
    }
}

/// Whether a header line holds a colon.
pub open spec fn has_colon(l: Seq<char>) -> bool {
    first_index(l, ':') < l.len()
}

/// The name of a header line: what stands before its first colon, trimmed.
pub open spec fn header_key(l: Seq<char>) -> Seq<char> {
    trim_ws(l.take(first_index(l, ':') as int))
}

/// The value of a header line: what follows its first colon, trimmed.
pub open spec fn header_value(l: Seq<char>) -> Seq<char> {
    trim_ws(l.skip(first_index(l, ':') + 1int))
}

/// The headers that a list of header lines sets, a later line replacing an
/// earlier one with the same name.
pub open spec fn header_map(hl: Seq<Seq<char>>) -> Map<Seq<char>, Seq<char>>
    decreases hl.len(),
{
    if hl.len() == 0 {
        Map::empty()
    } else {
        header_map(hl.drop_last()).insert(header_key(hl.last()), header_value(hl.last()))
    }
}

/// The body: the lines in order, each without its line end, leaving out
/// every line that decodes to one of the header lines.
pub open spec fn body_of(rest: Seq<Seq<u8>>, removed: Seq<Seq<char>>) -> Seq<u8>
    decreases rest.len(),
{
    if rest.len() == 0 {
        Seq::empty()
    } else {
        body_of(rest.drop_last(), removed) + if removed.contains(lossy_text(rest.last())) {
            Seq::<u8>::empty()
        } else {
            rest.last()
        }
    }
}

/// What the lines after the start line give: the headers, up to the first
/// empty line, and the body; `None` when one of those header lines has no
/// colon.
pub open spec fn fields_spec(rest: Seq<Seq<u8>>) -> Option<(Map<Seq<char>, Seq<char>>, Seq<u8>)> {
    let hl = lossy_lines(rest);
    let k = first_empty(hl);
    if forall|j: int| 0 <= j < k ==> #[trigger] has_colon(hl[j]) {
        Some((header_map(hl.take(k as int)), body_of(rest, hl.take(k as int))))
    } else {
        None
    }
}

/// Whether `x` is one of `v[0..n]`.
fn contains_line(v: &Vec<Vec<char>>, n: usize, x: &Vec<char>) -> (r: bool)
    requires
        n <= v.len(),
    ensures
        r == char_seqs(v@).take(n as int).contains(x@),
{
    let mut i: usize = 0;
    while i < n
        invariant
            n <= v.len(),
            i <= n,
            forall|j: int| 0 <= j < i ==> v@[j]@ != x@,
        decreases n - i,
    {
        if crate::text::chars_eq(&v[i], x) {
            assert(char_seqs(v@).take(n as int)[i as int] == x@);
            return true;
        }
        i += 1;
    }
    proof {
        if char_seqs(v@).take(n as int).contains(x@) {
            let j = choose|j: int|
                0 <= j < n && #[trigger] char_seqs(v@).take(n as int)[j] == x@;
            assert(v@[j]@ == x@);
        }
    }
    false
}

/// Reads the headers and the body from the lines after the start line,
/// `ls[1..]`.
fn parse_fields(ls: &Vec<Vec<u8>>) -> (r: Result<(StrMap, Vec<u8>), ParseError>)
    requires
        ls.len() > 0,
    ensures
        match (r, fields_spec(byte_seqs(ls@).drop_first())) {
            (Ok((h, b)), Some((hs, bs))) => h@ == hs && b@ == bs,
            (Err(e), None) => e.0@ == header_error(),
            _ => false,
        },
{
    let ghost rest = byte_seqs(ls@).drop_first();
    let n = ls.len() - 1;
    let mut hl: Vec<Vec<char>> = Vec::new();
    let mut j: usize = 0;
    while j < n
        invariant
            n == ls.len() - 1,
            rest == byte_seqs(ls@).drop_first(),
            j <= n,
            char_seqs(hl@) == lossy_lines(rest).take(j as int),
        decreases n - j,
    {
        let l = lossy_chars(ls[j + 1].as_slice());
        assert(rest[j as int] == ls@[j + 1]@);
        assert(l@ == lossy_lines(rest)[j as int]);
        let ghost old_hl = hl@;
        hl.push(l);
        assert(char_seqs(hl@) == char_seqs(old_hl).push(l@));
        j += 1;
        assert(char_seqs(hl@) =~= lossy_lines(rest).take(j as int));
    }
    let ghost hls = lossy_lines(rest);
    assert(char_seqs(hl@) =~= hls);
    let mut k: usize = 0;
    while k < n && hl[k].len() != 0
        invariant
            k <= n == hl.len(),
            char_seqs(hl@) == hls,
            forall|i: int| 0 <= i < k ==> hls[i].len() > 0,
        decreases n - k,
    {
        assert(hls[k as int] == hl@[k as int]@);
        k += 1;
    }
    proof {
        if k < n {
            assert(hls[k as int] == hl@[k as int]@);
        }
        lemma_first_empty_at(hls, k as int);
    }
    let mut headers = StrMap::new();
    let mut i: usize = 0;
    while i < k
        invariant
            k <= n == hl.len(),
            char_seqs(hl@) == hls,
            rest == byte_seqs(ls@).drop_first(),
            hls == lossy_lines(rest),
            k == first_empty(hls),
            i <= k,
            forall|j: int| 0 <= j < i ==> #[trigger] has_colon(hls[j]),
            headers@ == header_map(hls.take(i as int)),
        decreases k - i,
    {
        let line = &hl[i];
        assert(hls[i as int] == line@);
        let c = find_char(line, ':');
        if c == line.len() {
            assert(!has_colon(hls[i as int]));
            return Err(ParseError(String::from_str("invalid header of HTTP message")));
        }
        let key = trim_ws_exec(&sub_chars(line, 0, c));
        let value = trim_ws_exec(&sub_chars(line, c + 1, line.len()));
        proof {
            assert(line@.subrange(0, c as int) == line@.take(c as int));
            assert(line@.subrange(c + 1, line@.len() as int) == line@.skip(c + 1));
            assert(hls.take(i + 1).drop_last() == hls.take(i as int));
            assert(hls.take(i + 1).last() == hls[i as int]);
        }
        headers.insert(string_of(&key), string_of(&value));
        i += 1;
    }
    let mut body: Vec<u8> = Vec::new();
    let mut j: usize = 0;
    while j < n
        invariant
            k <= n == hl.len(),
            n == ls.len() - 1,
            rest == byte_seqs(ls@).drop_first(),
            char_seqs(hl@) == hls,
            hls == lossy_lines(rest),
            j <= n,
            body@ == body_of(rest.take(j as int), hls.take(k as int)),
        decreases n - j,
    {
        let ghost old_body = body@;
        let drop = contains_line(&hl, k, &hl[j]);
        assert(rest.take(j + 1).drop_last() == rest.take(j as int));
        assert(rest.take(j + 1).last() == ls@[j + 1]@);
        assert(rest[j as int] == ls@[j + 1]@);
        assert(hls[j as int] == hl@[j as int]@);
        assert(hl@[j as int]@ == lossy_text(ls@[j + 1]@));
        assert(char_seqs(hl@).take(k as int) == hls.take(k as int));
        if !drop {
            let line = &ls[j + 1];
            let mut t: usize = 0;
            while t < line.len()
                invariant
                    t <= line.len(),
                    body@ == old_body + line@.take(t as int),
                decreases line.len() - t,
            {
                body.push(line[t]);
                t += 1;
                assert(line@.take(t as int) == line@.take(t - 1).push(line@[t - 1]));
            }
            assert(line@.take(line.len() as int) == line@);
        } else {
            assert(body@ == old_body + Seq::<u8>::empty());
        }
        j += 1;
    }
    assert(rest.take(n as int) == rest);
    Ok((headers, body))
}


/// The lines of a message: the message without surrounding spaces and then
/// without surrounding NUL bytes, split into lines.
pub open spec fn message_lines(v: Seq<u8>) -> Seq<Seq<u8>> {
    lines_spec(trim_bytes(trim_bytes(v, 32), 0))
}

/// The first line of a message, decoded.
pub open spec fn start_line(v: Seq<u8>) -> Seq<char> {
    lossy_text(message_lines(v)[0])
}

/// What stands before the first space of `s` (all of `s` when it has none).
pub open spec fn token(s: Seq<char>) -> Seq<char> {
    s.take(first_index(s, ' ') as int)
}

/// `s` with every occurrence of `pat` removed.
pub open spec fn remove_all(s: Seq<char>, pat: Seq<char>) -> Seq<char> {
    replace_all(s, pat, Seq::empty())
}

/// The path of a request line read with method `m`: the first word of the
/// line once every `"<METHOD> "` is removed from it.
pub open spec fn request_path(sl: Seq<char>, m: Method) -> Seq<char> {
    token(remove_all(sl, method_name(m).push(' ')))
}

/// What is left of a request line once every `"<METHOD> <path> "` is
/// removed from it: the protocol version.
pub open spec fn request_version(sl: Seq<char>, m: Method) -> Seq<char> {
    remove_all(sl, method_name(m).push(' ') + request_path(sl, m).push(' '))
}

/// The request lines that can be read without a failure: the first word is
/// ASCII and names a method, and the path is ASCII.
pub open spec fn request_head_ok(v: Seq<u8>) -> bool {
    let sl = start_line(v);
    let mt = token(sl);
    &&& all_ascii(mt)
    &&& method_of(mt) is Some
    &&& all_ascii(request_path(sl, method_of(mt).unwrap()))
}

/// What a request reads as: its method, path, protocol version, headers
/// and body, or the description of the error.
pub open spec fn request_parse(v: Seq<u8>) -> Result<
    (Method, Seq<char>, Protocol, Map<Seq<char>, Seq<char>>, Seq<u8>),
    Seq<char>,
> {
    let sl = start_line(v);
    let m = method_of(token(sl)).unwrap();
    match protocol_of(request_version(sl, m)) {
        None => Err(protocol_error()),
        Some(p) => match fields_spec(message_lines(v).drop_first()) {
            None => Err(header_error()),
            Some((h, b)) => Ok((m, request_path(sl, m), p, h, b)),
        },
    }
}

/// The status code of a status line read with version `p`: the first word
/// of the line once every `"<VERSION> "` is removed from it.
pub open spec fn response_code(sl: Seq<char>, p: Protocol) -> Seq<char> {
    token(remove_all(sl, protocol_name(p).push(' ')))
}

/// The status text: what is left of the status line once every
/// `"<VERSION> <code> "` is removed from it.
pub open spec fn response_text(sl: Seq<char>, p: Protocol) -> Seq<char> {
    remove_all(sl, protocol_name(p).push(' ') + response_code(sl, p).push(' '))
}

/// The status lines that can be read without a failure: the first word is
/// ASCII, and when it names a version, the status code is ASCII.
pub open spec fn response_head_ok(v: Seq<u8>) -> bool {
    let sl = start_line(v);
    let pt = token(sl);
    &&& all_ascii(pt)
    &&& protocol_of(pt) matches Some(p) ==> all_ascii(response_code(sl, p))
}

/// What a response reads as: its version, status code, status text,
/// headers and body, or the description of the error.
pub open spec fn response_parse(v: Seq<u8>) -> Result<
    (Protocol, Seq<char>, Seq<char>, Map<Seq<char>, Seq<char>>, Seq<u8>),
    Seq<char>,
> {
    let sl = start_line(v);
    match protocol_of(token(sl)) {
        None => Err(protocol_error()),
        Some(p) => match fields_spec(message_lines(v).drop_first()) {
            None => Err(header_error()),
            Some((h, b)) => Ok((p, response_code(sl, p), response_text(sl, p), h, b)),
        },
    }
}

/// The lines of a message and its first line, decoded.
fn read_lines(value: &[u8]) -> (r: (Vec<Vec<u8>>, Vec<char>))
    ensures
        byte_seqs(r.0@) == message_lines(value@),
        r.0@.len() > 0,
        r.1@ == start_line(value@),
{
    let t = trim(trim(value, 32).as_slice(), 0);
    let ls = lines(t.as_slice());
    let sl = lossy_chars(ls[0].as_slice());
    proof {
        assert(byte_seqs(ls@)[0] == ls@[0]@);
    }
    (ls, sl)
}

/// The first word of `v` and whether it is ASCII.
fn first_word(v: &Vec<char>) -> (r: (Vec<char>, bool))
    ensures
        r.0@ == token(v@),
        r.1 == all_ascii(token(v@)),
{
    let i = find_char(v, ' ');
    let w = sub_chars(v, 0, i);
    assert(v@.subrange(0, i as int) == v@.take(i as int));
    let ok = all_ascii_exec(&w);
    (w, ok)
}

/// `a` followed by `b` and a space.
fn then_word(a: &Vec<char>, b: &Vec<char>) -> (r: Vec<char>)
    ensures
        r@ == a@ + b@.push(' '),
{
    let mut r: Vec<char> = Vec::new();
    push_all(&mut r, a);
    push_all(&mut r, b);
    r.push(' ');
    assert(r@ =~= a@ + b@.push(' '));
    r
}

/// A request.
#[derive(Debug, Clone)]
pub struct Request {
    pub method: Method,
    pub path: String,
    pub protocol: Protocol,
    pub headers: StrMap,
    pub body: Vec<u8>,
}

/// The request line of a request: `"<METHOD> <path> <VERSION>"`.
pub open spec fn request_line(m: Method, path: Seq<char>, p: Protocol) -> Seq<char> {
    method_name(m) + seq![' '] + path + seq![' '] + protocol_name(p)
}

impl Request {
    /// A request with no headers and an empty body.
    pub fn new(method: Method, path: String, protocol: Protocol) -> (r: Self)
        ensures
            r.method == method,
            r.path@ == path@,
            r.protocol == protocol,
            r.headers@ == Map::<Seq<char>, Seq<char>>::empty(),
            r.body@ == Seq::<u8>::empty(),
    {
        Request { method, path, protocol, headers: StrMap::new(), body: Vec::new() }
    }

    /// The request line, `"<METHOD> <path> <VERSION>"`.
    pub fn get_start_line(&self) -> (r: String)
        ensures
            r@ == request_line(self.method, self.path@, self.protocol),
    {
        let mut v = method_chars(self.method);
        v.push(' ');
        push_all(&mut v, &chars_of(self.path.as_str()));
        v.push(' ');
        push_all(&mut v, &protocol_chars(self.protocol));
        let r = string_of(&v);
        assert(r@ =~= request_line(self.method, self.path@, self.protocol));
        r
    }

    pub fn get_method(&self) -> (r: &Method)
        ensures
            *r == self.method,
    {
        &self.method
    }

    pub fn get_path(&self) -> (r: &str)
        ensures
            r@ == self.path@,
    {
        self.path.as_str()
    }

    pub fn get_protocol(&self) -> (r: &Protocol)
        ensures
            *r == self.protocol,
    {
        &self.protocol
    }

    pub fn get_headers(&self) -> (r: &StrMap)
        ensures
            r@ == self.headers@,
    {
        &self.headers
    }

    pub fn get_body(&self) -> (r: &Vec<u8>)
        ensures
            r@ == self.body@,
    {
        &self.body
    }

    /// Whether `value` has a request line that `try_from` reads without a
    /// failure (see `request_head_ok`).
    pub fn head_is_supported(value: &[u8]) -> (r: bool)
        ensures
            r == request_head_ok(value@),
    {
        let (_ls, sl) = read_lines(value);
        let (mt, ascii) = first_word(&sl);
        if !ascii {
            return false;
        }
        match Method::from_chars(&mt) {
            None => false,
            Some(m) => {
                let pat = then_word(&method_chars(m), &Vec::new());
                assert(pat@ =~= method_name(m).push(' '));
                let s1 = replace_all_exec(&sl, &pat, &Vec::new());
                let (_path, ok) = first_word(&s1);
                ok
            },
        }
    }

    /// Reads a request: the request line, the headers up to the first
    /// empty line, and the body.
    pub fn try_from(value: &[u8]) -> (r: Result<Request, ParseError>)
        requires
            request_head_ok(value@),
        ensures
            match (r, request_parse(value@)) {
                (Ok(req), Ok((m, path, p, h, b))) => req.method == m && req.path@ == path
                    && req.protocol == p && req.headers@ == h && req.body@ == b,
                (Err(e), Err(msg)) => e.0@ == msg,
                _ => false,
            },
    {
        let (ls, sl) = read_lines(value);
        let (mt, _) = first_word(&sl);
        let method = match Method::from_chars(&mt) {
            Some(m) => m,
            None => {
                proof {
                    assert(false);
                }
                Method::get
            },
        };
        let mname = method_chars(method);
        let pat = then_word(&mname, &Vec::new());
        assert(pat@ =~= method_name(method).push(' '));
        let s1 = replace_all_exec(&sl, &pat, &Vec::new());
        let (path, _) = first_word(&s1);
        let pat2 = then_word(&pat, &path);
        let s2 = replace_all_exec(&sl, &pat2, &Vec::new());
        let protocol = match Protocol::from_chars(&s2) {
            Some(p) => p,
            None => {
                return Err(ParseError(String::from_str("invalid parsing &str into HTTP protocol")));
            },
        };
        match parse_fields(&ls) {
            Ok((headers, body)) => Ok(Request { method, path: string_of(&path), protocol, headers, body }),
            Err(e) => Err(e),
        }
    }
}


/// A response.
#[derive(Debug)]
pub struct Response {
    pub protocol: Protocol,
    pub status_code: String,
    pub status_text: String,
    pub headers: StrMap,
    pub body: Vec<u8>,
}

/// The page that `Response::new` carries.
pub open spec fn default_page() -> Seq<char> {
    "<h1>Hello World</h1>"@
}

/// The header lines of a response, each `"<name>: <value>\n"`, in the order
/// of the entries.
pub open spec fn header_text(es: Seq<Entry>) -> Seq<char>
    decreases es.len(),
{
    if es.len() == 0 {
        Seq::empty()
    } else {
        header_text(es.drop_last()) + es.last().0 + seq![':', ' '] + es.last().1 + seq!['\n']
    }
}

/// The text of a response before its body: the status line, the header
/// lines and an empty line, each line ended by `\n`.
pub open spec fn response_head(
    p: Protocol,
    code: Seq<char>,
    text: Seq<char>,
    es: Seq<Entry>,
) -> Seq<char> {
    protocol_name(p) + seq![' '] + code + seq![' '] + text + seq!['\n'] + header_text(es) + seq![
        '\n',
    ]
}

/// The bytes of `s` (its UTF-8 encoding) in a new vector.
fn bytes_of(s: &String) -> (r: Vec<u8>)
    ensures
        r@ == vstd::utf8::encode_utf8(s@),
{
    vstd::slice::slice_to_vec(s.as_str().as_bytes())
}

/// The decimal notation of `n` as a string.
fn decimal_string(n: u64) -> (r: String)
    ensures
        r@ == decimal(n as nat),
{
    let mut v: Vec<char> = Vec::new();
    push_decimal(n, &mut v);
    assert(v@ =~= decimal(n as nat));
    string_of(&v)
}

impl Response {
    /// A `200 OK` response over HTTP/1.1 whose body is a small HTML page,
    /// with its `Content-Length` and a `Content-Type` of `text/html`.
    pub fn new() -> (r: Self)
        ensures
            r.protocol == Protocol::HTTP_1_1,
            r.status_code@ == decimal(200),
            r.status_text@ == "OK"@,
            r.body@ == vstd::utf8::encode_utf8(default_page()),
            r.headers@ == Map::<Seq<char>, Seq<char>>::empty().insert(
                "Content-Length"@,
                decimal(r.body@.len()),
            ).insert("Content-Type"@, "text/html"@),
            r.headers.entries_view() == seq![
                ("Content-Length"@, decimal(r.body@.len())),
                ("Content-Type"@, "text/html"@),
            ],
    {
        let content = String::from_str("<h1>Hello World</h1>");
        let body = bytes_of(&content);
        let mut headers = StrMap::new();
        headers.insert(String::from_str("Content-Length"), decimal_string(body.len() as u64));
        headers.insert(String::from_str("Content-Type"), String::from_str("text/html"));
        proof {
            reveal_strlit("Content-Length");
            reveal_strlit("Content-Type");
            let es: Seq<Entry> = seq![
                ("Content-Length"@, decimal(body@.len())),
                ("Content-Type"@, "text/html"@),
            ];
            let cl = "Content-Length"@;
            let ct = "Content-Type"@;
            assert(cl.skip(8)[0] == 'L' && ct.skip(8)[0] == 'T');
            assert(lex_lt(cl, ct)) by {
                reveal_with_fuel(lex_lt, 9);
                assert(cl.drop_first() == cl.skip(1));
                assert(cl.skip(1).drop_first() == cl.skip(2));
                assert(cl.skip(2).drop_first() == cl.skip(3));
                assert(cl.skip(3).drop_first() == cl.skip(4));
                assert(cl.skip(4).drop_first() == cl.skip(5));
                assert(cl.skip(5).drop_first() == cl.skip(6));
                assert(cl.skip(6).drop_first() == cl.skip(7));
                assert(cl.skip(7).drop_first() == cl.skip(8));
                assert(ct.drop_first() == ct.skip(1));
                assert(ct.skip(1).drop_first() == ct.skip(2));
                assert(ct.skip(2).drop_first() == ct.skip(3));
                assert(ct.skip(3).drop_first() == ct.skip(4));
                assert(ct.skip(4).drop_first() == ct.skip(5));
                assert(ct.skip(5).drop_first() == ct.skip(6));
                assert(ct.skip(6).drop_first() == ct.skip(7));
                assert(ct.skip(7).drop_first() == ct.skip(8));
            }
            assert(sorted_keys(es));
            lemma_map_of_push(es);
            lemma_map_of_push(es.drop_last());
            assert(es.drop_last().drop_last() =~= Seq::<Entry>::empty());
            assert(map_of(Seq::<Entry>::empty()) =~= Map::<Seq<char>, Seq<char>>::empty());
            headers.lemma_view();
            assert(map_of(es) == headers@);
        }
        let _count = headers.len();
        proof {
            lemma_sorted_unique(headers.entries_view(), seq![
                ("Content-Length"@, decimal(body@.len())),
                ("Content-Type"@, "text/html"@),
            ]);
        }
        Response {
            protocol: Protocol::HTTP_1_1,
            status_code: decimal_string(200),
            status_text: String::from_str("OK"),
            headers,
            body,
        }
    }

    /// A response with the given status line, no headers and an empty body.
    pub fn build(protocol: Protocol, status_code: u32, status_text: &str) -> (r: Self)
        ensures
            r.protocol == protocol,
            r.status_code@ == decimal(status_code as nat),
            r.status_text@ == status_text@,
            r.headers@ == Map::<Seq<char>, Seq<char>>::empty(),
            r.body@ == Seq::<u8>::empty(),
    {
        Response {
            protocol,
            status_code: decimal_string(status_code as u64),
            status_text: String::from_str(status_text),
            headers: StrMap::new(),
            body: Vec::new(),
        }
    }

    /// The same response over another protocol version.
    pub fn set_protocol(self, protocol: Protocol) -> (r: Self)
        ensures
            r.protocol == protocol,
            r.status_code == self.status_code,
            r.status_text == self.status_text,
            r.headers == self.headers,
            r.body == self.body,
    {
        let mut s = self;
        s.protocol = protocol;
        s
    }

    /// The same response with another status code.
    pub fn set_status_code(self, status_code: u32) -> (r: Self)
        ensures
            r.protocol == self.protocol,
            r.status_code@ == decimal(status_code as nat),
            r.status_text == self.status_text,
            r.headers == self.headers,
            r.body == self.body,
    {
        let mut s = self;
        s.status_code = decimal_string(status_code as u64);
        s
    }

    /// The same response with another status text.
    pub fn set_status_text(self, status_text: &str) -> (r: Self)
        ensures
            r.protocol == self.protocol,
            r.status_code == self.status_code,
            r.status_text@ == status_text@,
            r.headers == self.headers,
            r.body == self.body,
    {
        let mut s = self;
        s.status_text = String::from_str(status_text);
        s
    }

    /// The same response with header `key` set to `value`.
    pub fn set_header(self, key: &str, value: &str) -> (r: Self)
        ensures
            r.protocol == self.protocol,
            r.status_code == self.status_code,
            r.status_text == self.status_text,
            r.headers@ == self.headers@.insert(key@, value@),
            r.body == self.body,
    {
        let mut s = self;
        s.headers.insert(String::from_str(key), String::from_str(value));
        s
    }

    /// The same response with another body, and a `Content-Length` header
    /// that gives its length.
    pub fn set_body(self, body: Vec<u8>) -> (r: Self)
        ensures
            r.protocol == self.protocol,
            r.status_code == self.status_code,
            r.status_text == self.status_text,
            r.headers@ == self.headers@.insert("Content-Length"@, decimal(body@.len())),
            r.body@ == body@,
    {
        let mut s = self;
        let len = decimal_string(body.len() as u64);
        s.body = body;
        s.headers.insert(String::from_str("Content-Length"), len);
        s
    }

    /// The response as bytes: the status line, one line per header in
    /// ascending order of names, an empty line, then the body; lines end
    /// with `\n`.
    pub fn raw(&self) -> (r: Vec<u8>)
        ensures
            sorted_keys(self.headers.entries_view()),
            r@ == vstd::utf8::encode_utf8(
                response_head(
                    self.protocol,
                    self.status_code@,
                    self.status_text@,
                    self.headers.entries_view(),
                ),
            ) + self.body@,
    {
        let mut text = protocol_chars(self.protocol);
        text.push(' ');
        push_all(&mut text, &chars_of(self.status_code.as_str()));
        text.push(' ');
        push_all(&mut text, &chars_of(self.status_text.as_str()));
        text.push('\n');
        let ghost head = text@;
        let n = self.headers.len();
        let mut i: usize = 0;
        while i < n
            invariant
                n == self.headers.entries_view().len(),
                i <= n,
                text@ == head + header_text(self.headers.entries_view().take(i as int)),
            decreases n - i,
        {
            let ghost es = self.headers.entries_view();
            push_all(&mut text, &chars_of(self.headers.key_at(i).as_str()));
            text.push(':');
            text.push(' ');
            push_all(&mut text, &chars_of(self.headers.value_at(i).as_str()));
            text.push('\n');
            i += 1;
            assert(es.take(i as int).drop_last() == es.take(i - 1));
            assert(es.take(i as int).last() == es[i - 1]);
            assert(text@ =~= head + header_text(es.take(i as int)));
        }
        text.push('\n');
        proof {
            let es = self.headers.entries_view();
            assert(es.take(n as int) == es);
            assert(text@ =~= response_head(self.protocol, self.status_code@, self.status_text@, es));
        }
        let mut out = bytes_of(&string_of(&text));
        let ghost prefix = out@;
        let mut j: usize = 0;
        while j < self.body.len()
            invariant
                j <= self.body@.len(),
                out@ == prefix + self.body@.take(j as int),
            decreases self.body@.len() - j,
        {
            out.push(self.body[j]);
            j += 1;
            assert(self.body@.take(j as int) == self.body@.take(j - 1).push(self.body@[j - 1]));
        }
        assert(self.body@.take(self.body@.len() as int) == self.body@);
        out
    }

    /// Whether `value` has a status line that `try_from` reads without a
    /// failure (see `response_head_ok`).
    pub fn head_is_supported(value: &[u8]) -> (r: bool)
        ensures
            r == response_head_ok(value@),
    {
        let (_ls, sl) = read_lines(value);
        let (pt, ascii) = first_word(&sl);
        if !ascii {
            return false;
        }
        match Protocol::from_chars(&pt) {
            None => true,
            Some(p) => {
                let pat = then_word(&protocol_chars(p), &Vec::new());
                assert(pat@ =~= protocol_name(p).push(' '));
                let s1 = replace_all_exec(&sl, &pat, &Vec::new());
                let (_code, ok) = first_word(&s1);
                ok
            },
        }
    }

    /// Reads a response: the status line, the headers up to the first
    /// empty line, and the body.
    pub fn try_from(value: &[u8]) -> (r: Result<Response, ParseError>)
        requires
            response_head_ok(value@),
        ensures
            match (r, response_parse(value@)) {
                (Ok(res), Ok((p, code, text, h, b))) => res.protocol == p && res.status_code@
                    == code && res.status_text@ == text && res.headers@ == h && res.body@ == b,
                (Err(e), Err(msg)) => e.0@ == msg,
                _ => false,
            },
    {
        let (ls, sl) = read_lines(value);
        let (pt, _) = first_word(&sl);
        let protocol = match Protocol::from_chars(&pt) {
            Some(p) => p,
            None => {
                return Err(ParseError(String::from_str("invalid parsing &str into HTTP protocol")));
            },
        };
        let pat = then_word(&protocol_chars(protocol), &Vec::new());
        assert(pat@ =~= protocol_name(protocol).push(' '));
        let s1 = replace_all_exec(&sl, &pat, &Vec::new());
        let (code, _) = first_word(&s1);
        let pat2 = then_word(&pat, &code);
        let text = replace_all_exec(&sl, &pat2, &Vec::new());
        match parse_fields(&ls) {
            Ok((headers, body)) => Ok(
                Response {
                    protocol,
                    status_code: string_of(&code),
                    status_text: string_of(&text),
                    headers,
                    body,
                },
            ),
            Err(e) => Err(e),
        }
    }
}

/// What a handler gives back, turned into a response.
pub trait IntoResponse {
    fn into_response(self) -> Response;
}

impl IntoResponse for Response {
    fn into_response(self) -> (r: Response)
        ensures
            r == self,
    {
        self
    }
}

/// A `200 OK` HTML response whose body is `page`, as handlers that return
/// text answer.
pub fn html_response(page: &str) -> (r: Response)
    ensures
        r.protocol == Protocol::HTTP_1_1,
        r.status_code@ == decimal(200),
        r.status_text@ == "OK"@,
        r.body@ == vstd::utf8::encode_utf8(page@),
        r.headers@ == Map::<Seq<char>, Seq<char>>::empty().insert(
            "Content-Length"@,
            decimal(r.body@.len()),
        ).insert("Content-Type"@, "text/html"@),
{
    let body = bytes_of(&String::from_str(page));
    let len = decimal_string(body.len() as u64);
    let r0 = Response::new();
    let r1 = r0.set_header("Content-Length", len.as_str());
    let r2 = r1.set_header("Content-Type", "text/html");
    let ghost h2 = r2.headers@;
    let r = r2.set_body(body);
    proof {
        reveal_strlit("Content-Length");
        reveal_strlit("Content-Type");
        let cl = "Content-Length"@;
        let ct = "Content-Type"@;
        assert(cl != ct) by {
            assert(cl.len() != ct.len());
        }
        let m0 = Map::<Seq<char>, Seq<char>>::empty();
        assert(h2.dom() =~= set![cl, ct]);
        assert(h2[ct] == "text/html"@);
        assert(r.headers@ =~= m0.insert(cl, decimal(r.body@.len())).insert(ct, "text/html"@));
    }
    r
}

impl IntoResponse for String {
    /// The `200 OK` HTML response whose body is this text.
    fn into_response(self) -> (r: Response)
        ensures
            r.protocol == Protocol::HTTP_1_1,
            r.status_code@ == decimal(200),
            r.status_text@ == "OK"@,
            r.body@ == vstd::utf8::encode_utf8(self@),
            r.headers@ == Map::<Seq<char>, Seq<char>>::empty().insert(
                "Content-Length"@,
                decimal(r.body@.len()),
            ).insert("Content-Type"@, "text/html"@),
    {
        html_response(self.as_str())
    }
}

impl<'a> IntoResponse for &'a str {
    /// The `200 OK` HTML response whose body is this text.
    fn into_response(self) -> (r: Response)
        ensures
            r.protocol == Protocol::HTTP_1_1,
            r.status_code@ == decimal(200),
            r.status_text@ == "OK"@,
            r.body@ == vstd::utf8::encode_utf8(self@),
            r.headers@ == Map::<Seq<char>, Seq<char>>::empty().insert(
                "Content-Length"@,
                decimal(r.body@.len()),
            ).insert("Content-Type"@, "text/html"@),
    {
        html_response(self)
    }
}


/// The decimal notation of an integer, with a `-` before a negative one.
pub open spec fn signed_decimal(n: int) -> Seq<char> {
    if n < 0 {
        seq!['-'] + decimal((-n) as nat)
    } else {
        decimal(n as nat)
    }
}

/// The HTML response whose body is the decimal notation of `n`.
fn unsigned_response(n: u64) -> (r: Response)
        ensures
            r.protocol == Protocol::HTTP_1_1,
            r.status_code@ == decimal(200),
            r.status_text@ == "OK"@,
            r.body@ == vstd::utf8::encode_utf8(decimal(n as nat)),
            r.headers@ == Map::<Seq<char>, Seq<char>>::empty().insert(
                "Content-Length"@,
                decimal(r.body@.len()),
            ).insert("Content-Type"@, "text/html"@),
{
    html_response(decimal_string(n).as_str())
}

/// The HTML response whose body is the decimal notation of `n`.
fn signed_response(n: i64) -> (r: Response)
        ensures
            r.protocol == Protocol::HTTP_1_1,
            r.status_code@ == decimal(200),
            r.status_text@ == "OK"@,
            r.body@ == vstd::utf8::encode_utf8(signed_decimal(n as int)),
            r.headers@ == Map::<Seq<char>, Seq<char>>::empty().insert(
                "Content-Length"@,
                decimal(r.body@.len()),
            ).insert("Content-Type"@, "text/html"@),
{
    if n < 0 {
        let m: u64 = (0i128 - n as i128) as u64;
        let mut v: Vec<char> = Vec::new();
        v.push('-');
        push_decimal(m, &mut v);
        assert(v@ =~= signed_decimal(n as int));
        html_response(string_of(&v).as_str())
    } else {
        html_response(decimal_string(n as u64).as_str())
    }
}

impl IntoResponse for u8 {
    /// The `200 OK` HTML response whose body is this number in decimal.
    fn into_response(self) -> (r: Response)
        ensures
            r.protocol == Protocol::HTTP_1_1,
            r.status_code@ == decimal(200),
            r.status_text@ == "OK"@,
            r.body@ == vstd::utf8::encode_utf8(decimal(self as nat)),
            r.headers@ == Map::<Seq<char>, Seq<char>>::empty().insert(
                "Content-Length"@,
                decimal(r.body@.len()),
            ).insert("Content-Type"@, "text/html"@),
    {
        unsigned_response(self as u64)
    }
}

impl IntoResponse for u16 {
    /// The `200 OK` HTML response whose body is this number in decimal.
    fn into_response(self) -> (r: Response)
        ensures
            r.protocol == Protocol::HTTP_1_1,
            r.status_code@ == decimal(200),
            r.status_text@ == "OK"@,
            r.body@ == vstd::utf8::encode_utf8(decimal(self as nat)),
            r.headers@ == Map::<Seq<char>, Seq<char>>::empty().insert(
                "Content-Length"@,
                decimal(r.body@.len()),
            ).insert("Content-Type"@, "text/html"@),
    {
        unsigned_response(self as u64)
    }
}

impl IntoResponse for u32 {
    /// The `200 OK` HTML response whose body is this number in decimal.
    fn into_response(self) -> (r: Response)
        ensures
            r.protocol == Protocol::HTTP_1_1,
            r.status_code@ == decimal(200),
            r.status_text@ == "OK"@,
            r.body@ == vstd::utf8::encode_utf8(decimal(self as nat)),
            r.headers@ == Map::<Seq<char>, Seq<char>>::empty().insert(
                "Content-Length"@,
                decimal(r.body@.len()),
            ).insert("Content-Type"@, "text/html"@),
    {
        unsigned_response(self as u64)
    }
}

impl IntoResponse for u64 {
    /// The `200 OK` HTML response whose body is this number in decimal.
    fn into_response(self) -> (r: Response)
        ensures
            r.protocol == Protocol::HTTP_1_1,
            r.status_code@ == decimal(200),
            r.status_text@ == "OK"@,
            r.body@ == vstd::utf8::encode_utf8(decimal(self as nat)),
            r.headers@ == Map::<Seq<char>, Seq<char>>::empty().insert(
                "Content-Length"@,
                decimal(r.body@.len()),
            ).insert("Content-Type"@, "text/html"@),
    {
        unsigned_response(self as u64)
    }
}

impl IntoResponse for usize {
    /// The `200 OK` HTML response whose body is this number in decimal.
    fn into_response(self) -> (r: Response)
        ensures
            r.protocol == Protocol::HTTP_1_1,
            r.status_code@ == decimal(200),
            r.status_text@ == "OK"@,
            r.body@ == vstd::utf8::encode_utf8(decimal(self as nat)),
            r.headers@ == Map::<Seq<char>, Seq<char>>::empty().insert(
                "Content-Length"@,
                decimal(r.body@.len()),
            ).insert("Content-Type"@, "text/html"@),
    {
        unsigned_response(self as u64)
    }
}

impl IntoResponse for i8 {
    /// The `200 OK` HTML response whose body is this number in decimal.
    fn into_response(self) -> (r: Response)
        ensures
            r.protocol == Protocol::HTTP_1_1,
            r.status_code@ == decimal(200),
            r.status_text@ == "OK"@,
            r.body@ == vstd::utf8::encode_utf8(signed_decimal(self as int)),
            r.headers@ == Map::<Seq<char>, Seq<char>>::empty().insert(
                "Content-Length"@,
                decimal(r.body@.len()),
            ).insert("Content-Type"@, "text/html"@),
    {
        signed_response(self as i64)
    }
}

impl IntoResponse for i16 {
    /// The `200 OK` HTML response whose body is this number in decimal.
    fn into_response(self) -> (r: Response)
        ensures
            r.protocol == Protocol::HTTP_1_1,
            r.status_code@ == decimal(200),
            r.status_text@ == "OK"@,
            r.body@ == vstd::utf8::encode_utf8(signed_decimal(self as int)),
            r.headers@ == Map::<Seq<char>, Seq<char>>::empty().insert(
                "Content-Length"@,
                decimal(r.body@.len()),
            ).insert("Content-Type"@, "text/html"@),
    {
        signed_response(self as i64)
    }
}

impl IntoResponse for i32 {
    /// The `200 OK` HTML response whose body is this number in decimal.
    fn into_response(self) -> (r: Response)
        ensures
            r.protocol == Protocol::HTTP_1_1,
            r.status_code@ == decimal(200),
            r.status_text@ == "OK"@,
            r.body@ == vstd::utf8::encode_utf8(signed_decimal(self as int)),
            r.headers@ == Map::<Seq<char>, Seq<char>>::empty().insert(
                "Content-Length"@,
                decimal(r.body@.len()),
            ).insert("Content-Type"@, "text/html"@),
    {
        signed_response(self as i64)
    }
}

impl IntoResponse for i64 {
    /// The `200 OK` HTML response whose body is this number in decimal.
    fn into_response(self) -> (r: Response)
        ensures
            r.protocol == Protocol::HTTP_1_1,
            r.status_code@ == decimal(200),
            r.status_text@ == "OK"@,
            r.body@ == vstd::utf8::encode_utf8(signed_decimal(self as int)),
            r.headers@ == Map::<Seq<char>, Seq<char>>::empty().insert(
                "Content-Length"@,
                decimal(r.body@.len()),
            ).insert("Content-Type"@, "text/html"@),
    {
        signed_response(self as i64)
    }
}

impl IntoResponse for isize {
    /// The `200 OK` HTML response whose body is this number in decimal.
    fn into_response(self) -> (r: Response)
        ensures
            r.protocol == Protocol::HTTP_1_1,
            r.status_code@ == decimal(200),
            r.status_text@ == "OK"@,
            r.body@ == vstd::utf8::encode_utf8(signed_decimal(self as int)),
            r.headers@ == Map::<Seq<char>, Seq<char>>::empty().insert(
                "Content-Length"@,
                decimal(r.body@.len()),
            ).insert("Content-Type"@, "text/html"@),
    {
        signed_response(self as i64)
    }
}

impl IntoResponse for bool {
    /// The `200 OK` HTML response whose body is `true` or `false`.
    fn into_response(self) -> (r: Response)
        ensures
            r.protocol == Protocol::HTTP_1_1,
            r.status_code@ == decimal(200),
            r.status_text@ == "OK"@,
            r.body@ == vstd::utf8::encode_utf8(if self {
                "true"@
            } else {
                "false"@
            }),
            r.headers@ == Map::<Seq<char>, Seq<char>>::empty().insert(
                "Content-Length"@,
                decimal(r.body@.len()),
            ).insert("Content-Type"@, "text/html"@),
    {
        if self {
            html_response("true")
        } else {
            html_response("false")
        }
    }
}

impl IntoResponse for char {
    /// The `200 OK` HTML response whose body is this character.
    fn into_response(self) -> (r: Response)
        ensures
            r.protocol == Protocol::HTTP_1_1,
            r.status_code@ == decimal(200),
            r.status_text@ == "OK"@,
            r.body@ == vstd::utf8::encode_utf8(seq![self]),
            r.headers@ == Map::<Seq<char>, Seq<char>>::empty().insert(
                "Content-Length"@,
                decimal(r.body@.len()),
            ).insert("Content-Type"@, "text/html"@),
    {
        let mut v: Vec<char> = Vec::new();
        v.push(self);
        assert(v@ =~= seq![self]);
        html_response(string_of(&v).as_str())
    }
}

/// Reading the name of a method gives that method back.
pub proof fn lemma_method_name_roundtrip(m: Method)
    ensures
        method_of(method_name(m)) == Some(m),
{
    match m {
        Method::get => {},
        Method::head => {
            assert(!eq_ignore_ascii_case(method_name(m), method_name(Method::get)));
        },
        Method::options => {
            assert(!eq_ignore_ascii_case(method_name(m), method_name(Method::get)));
            assert(!eq_ignore_ascii_case(method_name(m), method_name(Method::head)));
        },
        Method::trace => {
            assert(ascii_lower_ne(method_name(m), method_name(Method::get), 0));
            assert(ascii_lower_ne(method_name(m), method_name(Method::options), 0));
        },
        Method::put => {
            assert(ascii_lower_ne(method_name(m), method_name(Method::get), 0));
            assert(ascii_lower_ne(method_name(m), method_name(Method::trace), 0));
        },
        Method::delete => {
            assert(ascii_lower_ne(method_name(m), method_name(Method::options), 0));
        },
        Method::post => {
            assert(ascii_lower_ne(method_name(m), method_name(Method::get), 0));
            assert(ascii_lower_ne(method_name(m), method_name(Method::head), 0));
            assert(ascii_lower_ne(method_name(m), method_name(Method::put), 1));
        },
        Method::patch => {
            assert(ascii_lower_ne(method_name(m), method_name(Method::head), 0));
            assert(ascii_lower_ne(method_name(m), method_name(Method::trace), 0));
        },
        Method::connect => {
            assert(ascii_lower_ne(method_name(m), method_name(Method::options), 0));
        },
    }
}

/// A method's name in lower case, as `to_lowercase` writes it.
pub open spec fn method_name_lower(m: Method) -> Seq<char> {
    match m {
        Method::get => seq!['g', 'e', 't'],
        Method::head => seq!['h', 'e', 'a', 'd'],
        Method::options => seq!['o', 'p', 't', 'i', 'o', 'n', 's'],
        Method::trace => seq!['t', 'r', 'a', 'c', 'e'],
        Method::put => seq!['p', 'u', 't'],
        Method::delete => seq!['d', 'e', 'l', 'e', 't', 'e'],
        Method::post => seq!['p', 'o', 's', 't'],
        Method::patch => seq!['p', 'a', 't', 'c', 'h'],
        Method::connect => seq!['c', 'o', 'n', 'n', 'e', 'c', 't'],
    }
}

/// A protocol version's name in lower case, as `to_lowercase` writes it.
pub open spec fn protocol_name_lower(p: Protocol) -> Seq<char> {
    match p {
        Protocol::HTTP_1_1 => seq!['h', 't', 't', 'p', '/', '1', '.', '1'],
        Protocol::HTTP_2 => seq!['h', 't', 't', 'p', '/', '2'],
        Protocol::HTTP_3 => seq!['h', 't', 't', 'p', '/', '3'],
    }
}

/// Reading a method name ignores ASCII case: two names that differ only in
/// the case of letters read as the same method, or both as none.
pub proof fn lemma_method_of_ignores_case(s: Seq<char>, t: Seq<char>)
    requires
        eq_ignore_ascii_case(s, t),
    ensures
        method_of(s) == method_of(t),
{
    lemma_fold_congruent(s, t, method_name(Method::get));
    lemma_fold_congruent(s, t, method_name(Method::head));
    lemma_fold_congruent(s, t, method_name(Method::options));
    lemma_fold_congruent(s, t, method_name(Method::trace));
    lemma_fold_congruent(s, t, method_name(Method::put));
    lemma_fold_congruent(s, t, method_name(Method::delete));
    lemma_fold_congruent(s, t, method_name(Method::post));
    lemma_fold_congruent(s, t, method_name(Method::patch));
    lemma_fold_congruent(s, t, method_name(Method::connect));
}

/// Reading a protocol version ignores ASCII case.
pub proof fn lemma_protocol_of_ignores_case(s: Seq<char>, t: Seq<char>)
    requires
        eq_ignore_ascii_case(s, t),
    ensures
        protocol_of(s) == protocol_of(t),
{
    lemma_fold_congruent(s, t, protocol_name(Protocol::HTTP_1_1));
    lemma_fold_congruent(s, t, protocol_name(Protocol::HTTP_2));
    lemma_fold_congruent(s, t, protocol_name(Protocol::HTTP_3));
}

/// A method's name written in lower case reads as that method, as it does
/// in upper case.
pub proof fn lemma_method_lower_name(m: Method)
    ensures
        eq_ignore_ascii_case(method_name_lower(m), method_name(m)),
        method_of(method_name_lower(m)) == Some(m),
{
    let l = method_name_lower(m);
    let u = method_name(m);
    assert forall|i: int| 0 <= i < l.len() implies ascii_lower(l[i]) == ascii_lower(u[i]) by {
        lemma_ascii_fold_equal(l[i], u[i]);
    }
    lemma_method_of_ignores_case(l, u);
    lemma_method_name_roundtrip(m);
}

/// A protocol version's name written in lower case reads as that version.
pub proof fn lemma_protocol_lower_name(p: Protocol)
    ensures
        eq_ignore_ascii_case(protocol_name_lower(p), protocol_name(p)),
        protocol_of(protocol_name_lower(p)) == Some(p),
{
    let l = protocol_name_lower(p);
    let u = protocol_name(p);
    assert forall|i: int| 0 <= i < l.len() implies ascii_lower(l[i]) == ascii_lower(u[i]) by {
        lemma_ascii_fold_equal(l[i], u[i]);
    }
    lemma_protocol_of_ignores_case(l, u);
    lemma_protocol_name_roundtrip(p);
}

/// A method is read only from its own name, up to ASCII case: nothing else
/// (such as `FETCH`) reads as a method.
pub proof fn lemma_method_of_only_names(s: Seq<char>)
    ensures
        method_of(s) matches Some(m) ==> eq_ignore_ascii_case(s, method_name(m)),
{
}

/// A protocol version is read only from its own name, up to ASCII case:
/// `HTTP/1.0`, for one, reads as no version.
pub proof fn lemma_protocol_of_only_names(s: Seq<char>)
    ensures
        protocol_of(s) matches Some(p) ==> eq_ignore_ascii_case(s, protocol_name(p)),
{
}

/// A header line is read as the trimmed text before its first colon and the
/// trimmed text after that colon, however the colon is spaced.
pub proof fn lemma_header_split(k: Seq<char>, v: Seq<char>)
    requires
        forall|i: int| 0 <= i < k.len() ==> #[trigger] k[i] != ':',
    ensures
        has_colon(k + seq![':'] + v),
        header_key(k + seq![':'] + v) == trim_ws(k),
        header_value(k + seq![':'] + v) == trim_ws(v),
{
    let l = k + seq![':'] + v;
    crate::text::lemma_first_index_after(k, ':', v);
    assert(l.take(k.len() as int) == k);
    assert(l.skip(k.len() + 1int) == v);
}

/// Two sequences differ, after folding ASCII case, at position `i`.
pub open spec fn ascii_lower_ne(a: Seq<char>, b: Seq<char>, i: int) -> bool {
    0 <= i < a.len() && 0 <= i < b.len() && crate::text::ascii_lower(a[i])
        != crate::text::ascii_lower(b[i])
}

/// Reading the name of a protocol version gives that version back.
pub proof fn lemma_protocol_name_roundtrip(p: Protocol)
    ensures
        protocol_of(protocol_name(p)) == Some(p),
{
    match p {
        Protocol::HTTP_1_1 => {},
        Protocol::HTTP_2 => {},
        Protocol::HTTP_3 => {
            assert(ascii_lower_ne(protocol_name(p), protocol_name(Protocol::HTTP_2), 5));
        },
    }
}

/// Trimming leaves no `ch` at either end, and trimming again changes
/// nothing.
pub proof fn lemma_trim_bytes(s: Seq<u8>, ch: u8)
    ensures
        trim_bytes(s, ch).len() > 0 ==> trim_bytes(s, ch)[0] != ch && trim_bytes(s, ch).last()
            != ch,
        trim_bytes(trim_bytes(s, ch), ch) == trim_bytes(s, ch),
        trim_bytes(s, ch).len() <= s.len(),
{
    lemma_trim_start_shape(s, ch);
    let t = trim_start_bytes(s, ch);
    lemma_trim_end_shape(t, ch);
    let u = trim_end_bytes(t, ch);
    if u.len() > 0 {
        assert(u[0] == t[0]);
    }
    lemma_trim_end_shape(u, ch);
    if u.len() > 0 {
        assert(trim_start_bytes(u, ch) == u);
        assert(trim_end_bytes(u, ch) == u);
    } else {
        assert(trim_start_bytes(u, ch) == u);
        assert(trim_end_bytes(u, ch) == u);
    }
}

proof fn lemma_trim_start_shape(s: Seq<u8>, ch: u8)
    ensures
        trim_start_bytes(s, ch).len() <= s.len(),
        trim_start_bytes(s, ch).len() > 0 ==> trim_start_bytes(s, ch)[0] != ch,
        trim_start_bytes(s, ch) == s.skip(s.len() - trim_start_bytes(s, ch).len()),
    decreases s.len(),
{
    if s.len() > 0 && s[0] == ch {
        lemma_trim_start_shape(s.drop_first(), ch);
        let t = trim_start_bytes(s.drop_first(), ch);
        assert(s.drop_first().skip(s.drop_first().len() - t.len()) == s.skip(s.len() - t.len()));
    } else {
        assert(s.skip(0) == s);
    }
}

proof fn lemma_trim_end_shape(s: Seq<u8>, ch: u8)
    ensures
        trim_end_bytes(s, ch).len() <= s.len(),
        trim_end_bytes(s, ch).len() > 0 ==> trim_end_bytes(s, ch).last() != ch,
        trim_end_bytes(s, ch) == s.take(trim_end_bytes(s, ch).len() as int),
        s.len() > 0 && trim_end_bytes(s, ch).len() > 0 ==> trim_end_bytes(s, ch)[0] == s[0],
    decreases s.len(),
{
    if s.len() > 0 && s.last() == ch {
        lemma_trim_end_shape(s.drop_last(), ch);
        let t = trim_end_bytes(s.drop_last(), ch);
        assert(s.drop_last().take(t.len() as int) == s.take(t.len() as int));
    } else {
        assert(s.take(s.len() as int) == s);
    }
}

} // verus!
