//! How the bytes of a message are framed before they are read: zero bytes
//! left at the end of a read buffer, and the two kinds of line end.

use vstd::prelude::*;
use crate::http::{
    lines_from, message_lines, request_head_ok, request_parse, response_head_ok, response_parse,
    trim_bytes, trim_end_bytes, trim_start_bytes,
};

verus! {

/// `k` zero bytes.
pub open spec fn zeros(k: nat) -> Seq<u8> {
    Seq::new(k, |i: int| 0u8)
}

proof fn lemma_trim_start_concat(a: Seq<u8>, b: Seq<u8>, ch: u8, i: int)
    requires
        0 <= i < a.len(),
        a[i] != ch,
    ensures
        trim_start_bytes(a + b, ch) == trim_start_bytes(a, ch) + b,
    decreases a.len(),
{
    let s = a + b;
    assert(s[0] == a[0]);
    if a[0] == ch {
        assert(s.drop_first() == a.drop_first() + b);
        lemma_trim_start_concat(a.drop_first(), b, ch, i - 1);
    }
}

proof fn lemma_trim_end_zeros(a: Seq<u8>, k: nat)
    ensures
        trim_end_bytes(a + zeros(k), 0) == trim_end_bytes(a, 0),
    decreases k,
{
    if k == 0 {
        assert(a + zeros(0) =~= a);
    } else {
        let s = a + zeros(k);
        assert(s.last() == 0);
        assert(s.drop_last() =~= a + zeros((k - 1) as nat));
        lemma_trim_end_zeros(a, (k - 1) as nat);
    }
}

/// Zero bytes after a message, such as the unused end of a read buffer, do
/// not change how it reads, when the message ends in a byte that is
/// neither a space nor zero: it splits into the same lines, and reads as
/// the same request or response, or fails in the same way.
pub proof fn lemma_zero_padding(v: Seq<u8>, k: nat)
    requires
        v.len() > 0,
        v.last() != 32,
        v.last() != 0,
    ensures
        message_lines(v + zeros(k)) == message_lines(v),
        request_head_ok(v + zeros(k)) == request_head_ok(v),
        request_parse(v + zeros(k)) == request_parse(v),
        response_head_ok(v + zeros(k)) == response_head_ok(v),
        response_parse(v + zeros(k)) == response_parse(v),
{
    let w = v + zeros(k);
    let n = v.len() - 1;
    lemma_trim_start_concat(v, zeros(k), 32, n);
    let a = trim_start_bytes(v, 32);
    // `a` ends where `v` does
    assert(a.len() > 0 && a.last() == v.last()) by {
        lemma_trim_start_suffix(v, 32, n);
    }
    assert(trim_bytes(v, 32) == a);
    if k > 0 {
        assert((a + zeros(k)).last() == 0);
    } else {
        assert(a + zeros(k) =~= a);
    }
    assert(trim_bytes(w, 32) == a + zeros(k));
    lemma_trim_start_concat(a, zeros(k), 0, a.len() - 1);
    lemma_trim_end_zeros(trim_start_bytes(a, 0), k);
    assert(trim_bytes(trim_bytes(w, 32), 0) == trim_bytes(trim_bytes(v, 32), 0));
}

proof fn lemma_trim_start_suffix(v: Seq<u8>, ch: u8, i: int)
    requires
        0 <= i < v.len(),
        v[i] != ch,
        i == v.len() - 1,
    ensures
        trim_start_bytes(v, ch).len() > 0,
        trim_start_bytes(v, ch).last() == v.last(),
    decreases v.len(),
{
    if v[0] == ch {
        assert(v.drop_first().last() == v.last());
        lemma_trim_start_suffix(v.drop_first(), ch, i - 1);
    }
}

/// `s` with every `\n` written as `\r\n`.
pub open spec fn crlf(s: Seq<u8>) -> Seq<u8>
    decreases s.len(),
{
    if s.len() == 0 {
        Seq::empty()
    } else {
        (if s[0] == 10 {
            seq![13u8, 10u8]
        } else {
            seq![s[0]]
        }) + crlf(s.drop_first())
    }
}

/// `s` holds no `\r`.
pub open spec fn no_cr(s: Seq<u8>) -> bool {
    forall|i: int| 0 <= i < s.len() ==> #[trigger] s[i] != 13
}

proof fn lemma_crlf_concat(a: Seq<u8>, b: Seq<u8>)
    ensures
        crlf(a + b) == crlf(a) + crlf(b),
    decreases a.len(),
{
    if a.len() == 0 {
        assert(a + b =~= b);
        assert(crlf(a) + crlf(b) =~= crlf(b));
    } else {
        let s = a + b;
        assert(s[0] == a[0]);
        assert(s.drop_first() =~= a.drop_first() + b);
        lemma_crlf_concat(a.drop_first(), b);
        let h = if a[0] == 10 {
            seq![13u8, 10u8]
        } else {
            seq![a[0]]
        };
        assert(crlf(s) == h + crlf(a.drop_first() + b));
        assert(crlf(a) == h + crlf(a.drop_first()));
        assert(h + (crlf(a.drop_first()) + crlf(b)) =~= (h + crlf(a.drop_first())) + crlf(b));
    }
}

proof fn lemma_crlf_last(s: Seq<u8>)
    requires
        s.len() > 0,
    ensures
        crlf(s) == crlf(s.drop_last()) + (if s.last() == 10 {
            seq![13u8, 10u8]
        } else {
            seq![s.last()]
        }),
{
    assert(s =~= s.drop_last() + seq![s.last()]);
    lemma_crlf_concat(s.drop_last(), seq![s.last()]);
    let t = seq![s.last()];
    assert(t.drop_first() =~= Seq::<u8>::empty());
    assert(crlf(Seq::<u8>::empty()) =~= Seq::<u8>::empty());
    let h = if s.last() == 10 {
        seq![13u8, 10u8]
    } else {
        seq![s.last()]
    };
    assert(crlf(t) == h + crlf(t.drop_first()));
    assert(crlf(t) =~= h);
}

proof fn lemma_crlf_trim_start(s: Seq<u8>, ch: u8)
    requires
        ch != 10,
        ch != 13,
    ensures
        trim_start_bytes(crlf(s), ch) == crlf(trim_start_bytes(s, ch)),
    decreases s.len(),
{
    if s.len() > 0 {
        let c = crlf(s);
        let h = if s[0] == 10 {
            seq![13u8, 10u8]
        } else {
            seq![s[0]]
        };
        assert(c == h + crlf(s.drop_first()));
        assert(c[0] == h[0]);
        if s[0] == ch {
            assert(c.drop_first() =~= crlf(s.drop_first()));
            lemma_crlf_trim_start(s.drop_first(), ch);
        }
    }
}

proof fn lemma_crlf_trim_end(s: Seq<u8>, ch: u8)
    requires
        ch != 10,
        ch != 13,
    ensures
        trim_end_bytes(crlf(s), ch) == crlf(trim_end_bytes(s, ch)),
    decreases s.len(),
{
    if s.len() > 0 {
        lemma_crlf_last(s);
        let c = crlf(s);
        let h = if s.last() == 10 {
            seq![13u8, 10u8]
        } else {
            seq![s.last()]
        };
        assert(c.last() == h.last());
        if s.last() == ch {
            assert(c.drop_last() =~= crlf(s.drop_last()));
            lemma_crlf_trim_end(s.drop_last(), ch);
        }
    }
}

proof fn lemma_crlf_trim(s: Seq<u8>, ch: u8)
    requires
        ch != 10,
        ch != 13,
    ensures
        trim_bytes(crlf(s), ch) == crlf(trim_bytes(s, ch)),
{
    lemma_crlf_trim_start(s, ch);
    lemma_crlf_trim_end(trim_start_bytes(s, ch), ch);
}

proof fn lemma_no_cr_trim(s: Seq<u8>, ch: u8)
    requires
        no_cr(s),
    ensures
        no_cr(trim_start_bytes(s, ch)),
        no_cr(trim_bytes(s, ch)),
    decreases s.len(),
{
    if s.len() > 0 {
        assert(no_cr(s.drop_first())) by {
            assert forall|i: int| 0 <= i < s.drop_first().len() implies #[trigger] s.drop_first()[i]
                != 13 by {
                assert(s.drop_first()[i] == s[i + 1]);
            }
        }
        lemma_no_cr_trim(s.drop_first(), ch);
    }
    lemma_no_cr_trim_end(trim_start_bytes(s, ch), ch);
}

proof fn lemma_no_cr_trim_end(s: Seq<u8>, ch: u8)
    requires
        no_cr(s),
    ensures
        no_cr(trim_end_bytes(s, ch)),
    decreases s.len(),
{
    if s.len() > 0 {
        assert(no_cr(s.drop_last())) by {
            assert forall|i: int| 0 <= i < s.drop_last().len() implies #[trigger] s.drop_last()[i]
                != 13 by {
                assert(s.drop_last()[i] == s[i]);
            }
        }
        lemma_no_cr_trim_end(s.drop_last(), ch);
    }
}

proof fn lemma_crlf_lines(s: Seq<u8>, chunk: Seq<u8>)
    requires
        no_cr(s),
    ensures
        lines_from(crlf(s), chunk) == lines_from(s, chunk),
    decreases s.len(),
{
    if s.len() > 0 {
        let c = crlf(s);
        let t = s.drop_first();
        assert(no_cr(t)) by {
            assert forall|i: int| 0 <= i < t.len() implies #[trigger] t[i] != 13 by {
                assert(t[i] == s[i + 1]);
            }
        }
        assert(s[0] != 13);
        assert(s.skip(1) == t);
        if s[0] == 10 {
            assert(c == seq![13u8, 10u8] + crlf(t));
            assert(c[0] == 13 && c[1] == 10);
            assert(c.skip(2) =~= crlf(t));
            lemma_crlf_lines(t, Seq::empty());
        } else {
            assert(c == seq![s[0]] + crlf(t));
            assert(c[0] == s[0]);
            assert(c.skip(1) =~= crlf(t));
            lemma_crlf_lines(t, chunk.push(s[0]));
        }
    }
}

/// A message whose lines end in `\r\n` reads as the same message with
/// lines that end in `\n`: it splits into the same lines, and reads as the
/// same request or response, or fails in the same way.
pub proof fn lemma_crlf_line_ends(v: Seq<u8>)
    requires
        no_cr(v),
    ensures
        message_lines(crlf(v)) == message_lines(v),
        request_head_ok(crlf(v)) == request_head_ok(v),
        request_parse(crlf(v)) == request_parse(v),
        response_head_ok(crlf(v)) == response_head_ok(v),
        response_parse(crlf(v)) == response_parse(v),
{
    lemma_crlf_trim(v, 32);
    lemma_crlf_trim(trim_bytes(v, 32), 0);
    lemma_no_cr_trim(v, 32);
    lemma_no_cr_trim(trim_bytes(v, 32), 0);
    lemma_crlf_lines(trim_bytes(trim_bytes(v, 32), 0), Seq::empty());
}

} // verus!
