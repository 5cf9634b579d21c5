//! The calls this library makes into other code: a few functions of std
//! and of the `percent-encoding`, `url` and `regex` crates. Each item
//! states what the library relies on, as the other crate's documentation
//! and source give it; these statements are taken on trust.

use vstd::prelude::*;
use vstd::utf8::{decode_utf8, valid_utf8};
use crate::extractor::segment_seqs;

verus! {

/// `String`'s `FromIterator<&char>`: the string made of the characters of
/// `v`, in order.
#[verifier::external_body]
pub(crate) fn string_of(v: &Vec<char>) -> (r: String)
    ensures
        r@ == v@,
{
    v.iter().collect()
}

/// The characters that `String::from_utf8_lossy` makes of a byte sequence:
/// the UTF-8 decoding, with every invalid sequence replaced by U+FFFD.
pub uninterp spec fn utf8_lossy(b: Seq<u8>) -> Seq<char>;

/// The characters that `String::from_utf8_lossy` makes of `b`: the UTF-8
/// decoding when `b` is valid UTF-8, and what `utf8_lossy` names otherwise.
pub open spec fn lossy_text(b: Seq<u8>) -> Seq<char> {
    if valid_utf8(b) {
        decode_utf8(b)
    } else {
        utf8_lossy(b)
    }
}

/// `String::from_utf8_lossy`, as characters. Its documentation gives the
/// result as the decoding of `b` when `b` is valid UTF-8; on invalid input
/// the result is only named, by `utf8_lossy`.
#[verifier::external_body]
pub(crate) fn lossy_chars(b: &[u8]) -> (r: Vec<char>)
    ensures
        r@ == utf8_lossy(b@),
        valid_utf8(b@) ==> r@ == decode_utf8(b@),
        r@ == lossy_text(b@),
{
    String::from_utf8_lossy(b).chars().collect()
}

/// `std::str::from_utf8(b).is_ok()`: whether `b` is well-formed UTF-8.
#[verifier::external_body]
pub(crate) fn is_utf8(b: &[u8]) -> (r: bool)
    ensures
        r == valid_utf8(b@),
{
    std::str::from_utf8(b).is_ok()
}


/// The value of an ASCII hexadecimal digit, as `char::to_digit(16)` reads
/// a byte.
pub open spec fn hex_value(b: u8) -> Option<u8> {
    if 48 <= b <= 57 {
        Some((b - 48) as u8)
    } else if 97 <= b <= 102 {
        Some((b - 87) as u8)
    } else if 65 <= b <= 70 {
        Some((b - 55) as u8)
    } else {
        None
    }
}

/// Percent-decoding: every `%` followed by two hexadecimal digits stands
/// for the byte they spell; every other byte stands for itself.
pub open spec fn percent_decoded(s: Seq<u8>) -> Seq<u8>
    decreases s.len(),
{
    if s.len() == 0 {
        Seq::empty()
    } else if s[0] == 37 && s.len() >= 3 && hex_value(s[1]) is Some && hex_value(s[2]) is Some {
        seq![(hex_value(s[1]).unwrap() * 16 + hex_value(s[2]).unwrap()) as u8] + percent_decoded(
            s.skip(3),
        )
    } else {
        seq![s[0]] + percent_decoded(s.drop_first())
    }
}

/// `percent_encoding::percent_decode`, collected. Its source decodes as
/// `percent_decoded` says: a `%` and two hex digits (either case) become one
/// byte, and any other byte, a lone `%` among them, is copied.
#[verifier::external_body]
pub(crate) fn percent_decode_bytes(b: &[u8]) -> (r: Vec<u8>)
    ensures
        r@ == percent_decoded(b@),
{
    percent_encoding::percent_decode(b).collect()
}

/// Whether `segs` is a result that `url::Url::from_file_path(path)`,
/// followed by `path_segments`, gives on the platform at hand: the segments,
/// or `None` when the platform does not take `path` as a file path. It is a
/// relation, not a function: what the call gives depends on the platform
/// (on Unix a path needs a leading `/`, on Windows a drive or a share), so
/// nothing says that one path has only one outcome.
pub uninterp spec fn file_url_outcome(path: Seq<char>, segs: Option<Seq<Seq<char>>>) -> bool;

/// `url::Url::from_file_path(path)` followed by `path_segments`, each
/// segment as a string; `None` when the path is not a file path that the
/// platform accepts. The result is tied to `path` by `file_url_outcome`
/// alone: which segments a path gives is platform-dependent and is left
/// unsaid.
#[verifier::external_body]
pub(crate) fn file_url_segments(path: &str) -> (r: Option<Vec<String>>)
    ensures
        file_url_outcome(path@, segment_seqs(r)),
{
    match url::Url::from_file_path(path) {
        Ok(u) => Some(u.path_segments().unwrap().map(|s| s.to_string()).collect()),
        Err(_) => None,
    }
}

/// The text of capture group `group` of the first match of the regular
/// expression `pattern` in `text` (`None` when the pattern is invalid, when
/// there is no match, or when the group takes no part in it).
pub uninterp spec fn regex_capture(pattern: Seq<char>, text: Seq<char>, group: nat) -> Option<
    Seq<char>,
>;

/// `regex::Regex::new(pattern)` and `captures(text)`, then `get(group)`:
/// the result is named by `regex_capture`, a function of the three
/// arguments.
#[verifier::external_body]
pub(crate) fn regex_first_capture(pattern: &str, text: &str, group: usize) -> (r: Option<String>)
    ensures
        r matches Some(s) ==> regex_capture(pattern@, text@, group as nat) == Some(s@),
        r is None ==> regex_capture(pattern@, text@, group as nat) is None,
{
    let re = match regex::Regex::new(pattern) {
        Ok(re) => re,
        Err(_) => return None,
    };
    let caps = re.captures(text)?;
    let g = caps.get(group)?;
    Some(g.as_str().to_string())
}

} // verus!
