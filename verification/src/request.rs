//! The request model.
//!
//! [`Request::new`] parses a raw header block — request line, then header
//! lines — into a structured value.  The request line is split on ASCII
//! whitespace into method, URI and version; every later line containing a
//! colon is split on its first colon into a key and a value, both trimmed of
//! surrounding whitespace; lines without a colon are ignored.  A request
//! line with fewer than three tokens is a fatal parse failure.
//!
//! The parse is specified by index scanners over the text's characters:
//! [`find_char`], [`skip_ws`], [`token_end`] and [`trim_end`] locate the
//! pieces, [`tokens_in`] lists the whitespace-delimited tokens of a window,
//! and [`headers_from`] lists the key/value pairs of the header lines.

use vstd::prelude::*;
use vstd::string::StrSliceExecFns;
use vstd::string::StringExecFns;

use crate::http_error::HttpError;

verus! {

/// ASCII whitespace: space, tab, newline, carriage return, form feed.
pub open spec fn is_ws(c: char) -> bool {
    c == ' ' || c == '\t' || c == '\n' || c == '\r' || c == '\u{c}'
}

fn is_ws_exec(c: char) -> (r: bool)
    ensures
        r == is_ws(c),
{
    c == ' ' || c == '\t' || c == '\n' || c == '\r' || c == '\u{c}'
}

/// The position of the first `ch` in `[p, bound)`, or `bound` if there is
/// none.
pub open spec fn find_char(s: Seq<char>, p: int, bound: int, ch: char) -> int
    decreases bound - p,
    when 0 <= p <= bound <= s.len()
{
    if p >= bound {
        bound
    } else if s[p] == ch {
        p
    } else {
        find_char(s, p + 1, bound, ch)
    }
}

pub proof fn lemma_find_char_bounds(s: Seq<char>, p: int, bound: int, ch: char)
    requires
        0 <= p <= bound <= s.len(),
    ensures
        p <= find_char(s, p, bound, ch) <= bound,
    decreases bound - p,
{
    if p < bound && s[p] != ch {
        lemma_find_char_bounds(s, p + 1, bound, ch);
    }
}

/// The position of the first non-whitespace character in `[p, bound)`, or
/// `bound`.
pub open spec fn skip_ws(s: Seq<char>, p: int, bound: int) -> int
    decreases bound - p,
    when 0 <= p <= bound <= s.len()
{
    if p >= bound {
        bound
    } else if is_ws(s[p]) {
        skip_ws(s, p + 1, bound)
    } else {
        p
    }
}

/// The position just past the token starting at `p`: the first whitespace
/// character in `[p, bound)`, or `bound`.
pub open spec fn token_end(s: Seq<char>, p: int, bound: int) -> int
    decreases bound - p,
    when 0 <= p <= bound <= s.len()
{
    if p >= bound {
        bound
    } else if !is_ws(s[p]) {
        token_end(s, p + 1, bound)
    } else {
        p
    }
}

pub proof fn lemma_token_end_bounds(s: Seq<char>, p: int, bound: int)
    requires
        0 <= p <= bound <= s.len(),
    ensures
        p <= token_end(s, p, bound) <= bound,
    decreases bound - p,
{
    if p < bound && !is_ws(s[p]) {
        lemma_token_end_bounds(s, p + 1, bound);
    }
}

/// The position after the last non-whitespace character in `[a, b)`, or `a`
/// if there is none.
pub open spec fn trim_end(s: Seq<char>, a: int, b: int) -> int
    decreases b - a,
    when 0 <= a <= b <= s.len()
{
    if b <= a {
        b
    } else if is_ws(s[b - 1]) {
        trim_end(s, a, b - 1)
    } else {
        b
    }
}

/// The window `[a, b)` with surrounding whitespace removed.
pub open spec fn trim_in(s: Seq<char>, a: int, b: int) -> Seq<char>
    recommends
        0 <= a <= b <= s.len(),
{
    let a2 = skip_ws(s, a, b);
    let b2 = trim_end(s, a2, b);
    s.subrange(a2, b2)
}

/// The whitespace-delimited tokens of the window `[p, bound)`, in order.
pub open spec fn tokens_in(s: Seq<char>, p: int, bound: int) -> Seq<Seq<char>>
    decreases bound - p,
    when 0 <= p <= bound <= s.len()
{
    if p >= bound {
        Seq::empty()
    } else if is_ws(s[p]) {
        tokens_in(s, p + 1, bound)
    } else {
        proof {
            lemma_token_end_bounds(s, p + 1, bound);
            assert(token_end(s, p, bound) == token_end(s, p + 1, bound));
        }
        seq![s.subrange(p, token_end(s, p, bound))] + tokens_in(s, token_end(s, p, bound), bound)
    }
}

/// The end of the line starting at `p`: the position of the next newline,
/// or the end of the text.
pub open spec fn line_end_at(s: Seq<char>, p: int) -> int {
    find_char(s, p, s.len() as int, '\n')
}

/// The tokens of the request line: the text up to the first newline.
pub open spec fn spec_tokens(s: Seq<char>) -> Seq<Seq<char>> {
    tokens_in(s, 0, line_end_at(s, 0))
}

/// One header line `[p, ce)`: split on the first colon, both sides trimmed;
/// a line without a colon yields nothing.
pub open spec fn parse_header_line(s: Seq<char>, p: int, ce: int) -> Option<(Seq<char>, Seq<char>)> {
    let c = find_char(s, p, ce, ':');
    if c >= ce {
        None
    } else {
        Some((trim_in(s, p, c), trim_in(s, c + 1, ce)))
    }
}

/// The key/value pairs of the header lines starting at position `p`, in
/// order.  Each line runs to the next newline; a carriage return before the
/// newline is not part of the line.
pub open spec fn headers_from(s: Seq<char>, p: int) -> Seq<(Seq<char>, Seq<char>)>
    decreases s.len() - p,
    when 0 <= p <= s.len()
{
    if p >= s.len() {
        Seq::empty()
    } else {
        proof {
            lemma_find_char_bounds(s, p, s.len() as int, '\n');
        }
        let e = line_end_at(s, p);
        let ce = if e < s.len() && e > p && s[e - 1] == '\r' {
            e - 1
        } else {
            e
        };
        let next = if e < s.len() {
            e + 1
        } else {
            e
        };
        match parse_header_line(s, p, ce) {
            Some(kv) => seq![kv] + headers_from(s, next),
            None => headers_from(s, next),
        }
    }
}

/// The header pairs of a whole header block: every line after the request
/// line.
pub open spec fn spec_headers(s: Seq<char>) -> Seq<(Seq<char>, Seq<char>)> {
    let e = line_end_at(s, 0);
    if e >= s.len() {
        Seq::empty()
    } else {
        headers_from(s, e + 1)
    }
}

/// Where the scanners land on known text: `find_char` stops at the first
/// occurrence.
pub proof fn lemma_find_char_value(s: Seq<char>, p: int, bound: int, ch: char, k: int)
    requires
        0 <= p,
        0 <= k,
        p + k < bound <= s.len(),
        forall|i: int| 0 <= i < k ==> #[trigger] s[p + i] != ch,
        s[p + k] == ch,
    ensures
        find_char(s, p, bound, ch) == p + k,
    decreases k,
{
    if k > 0 {
        assert(s[p + 0] != ch);
        assert forall|i: int| 0 <= i < k - 1 implies #[trigger] s[(p + 1) + i] != ch by {
            assert(s[p + (i + 1)] != ch);
        }
        lemma_find_char_value(s, p + 1, bound, ch, k - 1);
    }
}

/// `skip_ws` stops right after a known run of whitespace.
pub proof fn lemma_skip_ws_value(s: Seq<char>, p: int, bound: int, k: int)
    requires
        0 <= p,
        0 <= k,
        p + k <= bound <= s.len(),
        forall|i: int| 0 <= i < k ==> is_ws(#[trigger] s[p + i]),
        p + k == bound || !is_ws(s[p + k]),
    ensures
        skip_ws(s, p, bound) == p + k,
    decreases k,
{
    if k > 0 {
        assert(is_ws(s[p + 0]));
        assert forall|i: int| 0 <= i < k - 1 implies is_ws(#[trigger] s[(p + 1) + i]) by {
            assert(is_ws(s[p + (i + 1)]));
        }
        lemma_skip_ws_value(s, p + 1, bound, k - 1);
    }
}

/// `token_end` stops right after a known run of non-whitespace.
pub proof fn lemma_token_end_value(s: Seq<char>, p: int, bound: int, k: int)
    requires
        0 <= p,
        0 <= k,
        p + k <= bound <= s.len(),
        forall|i: int| 0 <= i < k ==> !is_ws(#[trigger] s[p + i]),
        p + k == bound || is_ws(s[p + k]),
    ensures
        token_end(s, p, bound) == p + k,
    decreases k,
{
    if k > 0 {
        assert(!is_ws(s[p + 0]));
        assert forall|i: int| 0 <= i < k - 1 implies !is_ws(#[trigger] s[(p + 1) + i]) by {
            assert(!is_ws(s[p + (i + 1)]));
        }
        lemma_token_end_value(s, p + 1, bound, k - 1);
    }
}

/// `trim_end` stops right before a known trailing run of whitespace.
pub proof fn lemma_trim_end_value(s: Seq<char>, a: int, b: int, k: int)
    requires
        0 <= a,
        0 <= k,
        a + k <= b <= s.len(),
        forall|i: int| a + k <= i < b ==> is_ws(#[trigger] s[i]),
        k == 0 || !is_ws(s[a + k - 1]),
    ensures
        trim_end(s, a, b) == a + k,
    decreases b - a - k,
{
    if b > a + k {
        assert(is_ws(s[b - 1]));
        lemma_trim_end_value(s, a, b - 1, k);
    }
}

/// A window that holds exactly an already-trimmed string trims to it.
pub proof fn lemma_trim_in_exact(s: Seq<char>, a: int, b: int, w: Seq<char>)
    requires
        0 <= a <= b <= s.len(),
        b - a == w.len(),
        forall|i: int| 0 <= i < w.len() ==> #[trigger] s[a + i] == w[i],
        w.len() > 0 ==> !is_ws(w[0]) && !is_ws(w[w.len() - 1]),
    ensures
        trim_in(s, a, b) == w,
{
    if w.len() == 0 {
        lemma_skip_ws_value(s, a, b, 0);
        lemma_trim_end_value(s, a, b, 0);
        assert(s.subrange(a, a) =~= w);
    } else {
        assert(s[a + 0] == w[0]);
        assert(s[a + (w.len() - 1) as int] == w[w.len() - 1]);
        lemma_skip_ws_value(s, a, b, 0);
        lemma_trim_end_value(s, a, b, b - a);
        assert forall|i: int| 0 <= i < w.len() implies s.subrange(a, b)[i] == w[i] by {
            assert(s[a + i] == w[i]);
        }
        assert(s.subrange(a, b) =~= w);
    }
}

/// A window of one leading space followed by an already-trimmed string
/// trims to the string.
pub proof fn lemma_trim_in_space_then(s: Seq<char>, a: int, b: int, w: Seq<char>)
    requires
        0 <= a < b <= s.len(),
        b - a == w.len() + 1,
        s[a] == ' ',
        forall|i: int| 0 <= i < w.len() ==> #[trigger] s[a + 1 + i] == w[i],
        w.len() > 0 ==> !is_ws(w[0]) && !is_ws(w[w.len() - 1]),
    ensures
        trim_in(s, a, b) == w,
{
    assert(is_ws(s[a + 0]));
    if w.len() == 0 {
        lemma_skip_ws_value(s, a, b, 1);
        lemma_trim_end_value(s, b, b, 0);
        assert(s.subrange(b, b) =~= w);
    } else {
        assert(s[a + 1 + 0] == w[0]);
        assert(s[a + 1 + (w.len() - 1) as int] == w[w.len() - 1]);
        lemma_skip_ws_value(s, a, b, 1);
        lemma_trim_end_value(s, a + 1, b, b - a - 1);
        assert forall|i: int| 0 <= i < w.len() implies s.subrange(a + 1, b)[i] == w[i] by {
            assert(s[a + 1 + i] == w[i]);
        }
        assert(s.subrange(a + 1, b) =~= w);
    }
}

/// A non-whitespace run at the scan position is the next token.
pub proof fn lemma_tokens_cons(s: Seq<char>, p: int, bound: int, t: Seq<char>)
    requires
        0 <= p,
        t.len() > 0,
        p + t.len() <= bound <= s.len(),
        forall|i: int| 0 <= i < t.len() ==> #[trigger] s[p + i] == t[i],
        forall|i: int| 0 <= i < t.len() ==> !is_ws(#[trigger] t[i]),
        p + t.len() == bound || is_ws(s[p + t.len()]),
    ensures
        tokens_in(s, p, bound) == seq![t] + tokens_in(s, p + t.len(), bound),
{
    assert(s[p + 0] == t[0]);
    assert(!is_ws(s[p]));
    assert forall|i: int| 0 <= i < t.len() implies !is_ws(#[trigger] s[p + i]) by {
        assert(s[p + i] == t[i]);
    }
    lemma_token_end_value(s, p, bound, t.len() as int);
    assert forall|i: int| 0 <= i < t.len() implies s.subrange(p, p + t.len())[i] == t[i] by {
        assert(s[p + i] == t[i]);
    }
    assert(s.subrange(p, p + t.len()) =~= t);
}

/// Scanning from a non-whitespace character yields at least one token.
pub proof fn lemma_tokens_nonempty(s: Seq<char>, p: int, bound: int)
    requires
        0 <= p < bound <= s.len(),
        !is_ws(s[p]),
    ensures
        tokens_in(s, p, bound).len() >= 1,
{
    lemma_token_end_bounds(s, p, bound);
}

/// A header key fit for an exact round trip: no carriage return, newline
/// or colon, and no surrounding whitespace.
pub open spec fn header_key_wf(k: Seq<char>) -> bool {
    &&& forall|i: int|
        0 <= i < k.len() ==> #[trigger] k[i] != '\r' && k[i] != '\n' && k[i] != ':'
    &&& (k.len() > 0 ==> !is_ws(k[0]) && !is_ws(k[k.len() - 1]))
}

/// A header value fit for an exact round trip: no carriage return or
/// newline, and no surrounding whitespace.
pub open spec fn header_value_wf(v: Seq<char>) -> bool {
    &&& forall|i: int| 0 <= i < v.len() ==> #[trigger] v[i] != '\r' && v[i] != '\n'
    &&& (v.len() > 0 ==> !is_ws(v[0]) && !is_ws(v[v.len() - 1]))
}

/// Parsing rendered header lines recovers exactly the rendered pairs.
pub proof fn lemma_headers_from_render(s: Seq<char>, p: int, hs: Seq<(Seq<char>, Seq<char>)>)
    requires
        0 <= p <= s.len(),
        s.skip(p) == render_header_lines(hs) + "\r\n"@,
        forall|i: int|
            0 <= i < hs.len() ==> header_key_wf(#[trigger] hs[i].0) && header_value_wf(hs[i].1),
    ensures
        headers_from(s, p) == hs,
    decreases hs.len(),
{
    reveal_strlit("\r\n");
    reveal_strlit(": ");
    assert("\r\n"@.len() == 2 && "\r\n"@[0] == '\r' && "\r\n"@[1] == '\n');
    assert(": "@.len() == 2 && ": "@[0] == ':' && ": "@[1] == ' ');
    let tail = s.skip(p);
    assert(forall|i: int| 0 <= i < tail.len() ==> #[trigger] tail[i] == s[p + i]);
    if hs.len() == 0 {
        assert(tail =~= "\r\n"@);
        assert(s[p] == '\r' && s[p + 1] == '\n');
        lemma_find_char_value(s, p, s.len() as int, '\n', 1);
        let e = line_end_at(s, p);
        assert(e == p + 1);
        assert(find_char(s, p, p, ':') == p);
        assert(parse_header_line(s, p, p) is None);
        assert(headers_from(s, p + 2) =~= Seq::<(Seq<char>, Seq<char>)>::empty());
        assert(headers_from(s, p) =~= hs);
    } else {
        let k = hs.first().0;
        let v = hs.first().1;
        let rest = render_header_lines(hs.drop_first()) + "\r\n"@;
        let full = k + ": "@ + v + "\r\n"@ + rest;
        let line_len = k.len() + 2 + v.len() + 2;
        assert(tail =~= full);
        // lay out the characters of the first rendered line
        assert forall|i: int| 0 <= i < k.len() implies #[trigger] s[p + i] == k[i] by {
            assert(s[p + i] == tail[i]);
            assert(full[i] == k[i]);
        }
        assert(s[p + k.len()] == ':') by {
            assert(s[p + k.len()] == tail[k.len() as int]);
            assert(full[k.len() as int] == ':');
        }
        assert(s[p + k.len() + 1] == ' ') by {
            assert(s[p + k.len() + 1] == tail[(k.len() + 1) as int]);
            assert(full[(k.len() + 1) as int] == ' ');
        }
        assert forall|i: int| 0 <= i < v.len() implies #[trigger] s[p + k.len() + 2 + i] == v[i]
            by {
            assert(s[p + k.len() + 2 + i] == tail[k.len() as int + 2 + i]);
            assert(full[k.len() as int + 2 + i] == v[i]);
        }
        assert(s[p + k.len() + 2 + v.len()] == '\r') by {
            assert(s[p + k.len() + 2 + v.len()] == tail[(k.len() + 2 + v.len()) as int]);
            assert(full[(k.len() + 2 + v.len()) as int] == '\r');
        }
        assert(s[p + k.len() + 2 + v.len() + 1] == '\n') by {
            assert(s[p + k.len() + 2 + v.len() + 1] == tail[(k.len() + 2 + v.len() + 1) as int]);
            assert(full[(k.len() + 2 + v.len() + 1) as int] == '\n');
        }
        // the line ends at its own newline: nothing earlier is one
        assert forall|i: int| 0 <= i < k.len() + 2 + v.len() + 1 implies #[trigger] s[p + i]
            != '\n' by {
            assert(s[p + i] == tail[i]);
            if i < k.len() {
                assert(full[i] == k[i]);
            } else if i == k.len() {
                assert(full[i] == ':');
            } else if i == k.len() + 1 {
                assert(full[i] == ' ');
            } else if i < k.len() + 2 + v.len() {
                assert(full[i] == v[i - k.len() - 2]);
            } else {
                assert(full[i] == '\r');
            }
        }
        lemma_find_char_value(s, p, s.len() as int, '\n', (k.len() + 2 + v.len() + 1) as int);
        let e = line_end_at(s, p);
        assert(e == p + k.len() + 2 + v.len() + 1);
        let ce = e - 1;
        // the first colon of the line is the one the renderer wrote
        assert forall|i: int| 0 <= i < k.len() implies #[trigger] s[p + i] != ':' by {
            assert(s[p + i] == k[i]);
        }
        lemma_find_char_value(s, p, ce, ':', k.len() as int);
        let c = find_char(s, p, ce, ':');
        assert(c == p + k.len());
        lemma_trim_in_exact(s, p, c, k);
        lemma_trim_in_space_then(s, c + 1, ce, v);
        assert(parse_header_line(s, p, ce) == Some((k, v)));
        let next = e + 1;
        assert forall|i: int| 0 <= i < s.len() - next implies s.skip(next)[i] == rest[i] by {
            assert(s.skip(next)[i] == s[next + i]);
            assert(s[p + (line_len + i)] == tail[line_len as int + i]);
            assert(full[line_len as int + i] == rest[i]);
        }
        assert(s.len() - next == rest.len()) by {
            assert(tail.len() == full.len());
        }
        assert(s.skip(next) =~= rest);
        assert forall|i: int|
            0 <= i < hs.drop_first().len() implies header_key_wf(
            #[trigger] hs.drop_first()[i].0,
        ) && header_value_wf(hs.drop_first()[i].1) by {
            assert(hs.drop_first()[i] == hs[i + 1]);
        }
        lemma_headers_from_render(s, next, hs.drop_first());
        assert(headers_from(s, p) =~= hs) by {
            assert(seq![(k, v)] + hs.drop_first() =~= hs);
        }
    }
}

/// The views of a vector of header pairs.
pub open spec fn headers_view(hs: Seq<(String, String)>) -> Seq<(Seq<char>, Seq<char>)> {
    hs.map_values(|kv: (String, String)| (kv.0@, kv.1@))
}

/// The value of the first header whose key equals `key` exactly, as stored.
pub open spec fn spec_lookup(hs: Seq<(Seq<char>, Seq<char>)>, key: Seq<char>) -> Option<Seq<char>>
    decreases hs.len(),
{
    if hs.len() == 0 {
        None
    } else if hs.first().0 == key {
        Some(hs.first().1)
    } else {
        spec_lookup(hs.drop_first(), key)
    }
}

/// A request declares a body exactly when it carries a `Content-Length` or
/// a `Transfer-Encoding` header.
pub open spec fn spec_is_body(hs: Seq<(Seq<char>, Seq<char>)>) -> bool {
    spec_lookup(hs, "Content-Length"@) is Some || spec_lookup(hs, "Transfer-Encoding"@) is Some
}

/// An ASCII decimal digit character.
pub open spec fn is_digit_char(c: char) -> bool {
    48 <= c as int <= 57
}

pub open spec fn all_digit_chars(s: Seq<char>) -> bool {
    forall|i: int| 0 <= i < s.len() ==> is_digit_char(#[trigger] s[i])
}

/// The numeric value of a digit string, most significant digit first.
pub open spec fn dec_value_chars(s: Seq<char>) -> int
    decreases s.len(),
{
    if s.len() == 0 {
        0
    } else {
        dec_value_chars(s.drop_last()) * 10 + (s.last() as int - 48)
    }
}

/// A header-value parse of a non-negative integer: a non-empty string of
/// decimal digits whose value fits in `usize`; anything else is rejected.
pub open spec fn parse_dec_chars(s: Seq<char>) -> Option<nat> {
    if s.len() > 0 && all_digit_chars(s) && dec_value_chars(s) <= usize::MAX as int {
        Some(dec_value_chars(s) as nat)
    } else {
        None
    }
}

/// The declared content length: the parsed `Content-Length` value, absent
/// when the header is missing or does not parse.
pub open spec fn spec_content_length(hs: Seq<(Seq<char>, Seq<char>)>) -> Option<nat> {
    match spec_lookup(hs, "Content-Length"@) {
        None => None,
        Some(v) => parse_dec_chars(v),
    }
}

/// Case-insensitive match of one character against its ASCII-lowercase
/// counterpart.
pub open spec fn ci_match(a: char, b: char) -> bool {
    if 65 <= a as int <= 90 {
        a as int + 32 == b as int
    } else {
        a == b
    }
}

/// `v` equals `w` up to ASCII case folding of `v`.
pub open spec fn ci_equal(v: Seq<char>, w: Seq<char>) -> bool {
    v.len() == w.len() && forall|i: int| 0 <= i < v.len() ==> ci_match(#[trigger] v[i], w[i])
}

/// The position of the last `ch` in the first `p` characters of `s`.
pub open spec fn rfind_char(s: Seq<char>, p: int, ch: char) -> Option<int>
    decreases p,
    when 0 <= p <= s.len()
{
    if p <= 0 {
        None
    } else if s[p - 1] == ch {
        Some(p - 1)
    } else {
        rfind_char(s, p - 1, ch)
    }
}

/// A `Transfer-Encoding` value announces chunked framing when, after
/// trimming, it equals `chunked` case-insensitively, or when the segment
/// after its last comma does.
pub open spec fn spec_is_chunked_value(v: Seq<char>) -> bool {
    ||| ci_equal(trim_in(v, 0, v.len() as int), "chunked"@)
    ||| match rfind_char(v, v.len() as int, ',') {
        Some(idx) => ci_equal(trim_in(v, idx + 1, v.len() as int), "chunked"@),
        None => false,
    }
}

pub open spec fn spec_is_chunked(hs: Seq<(Seq<char>, Seq<char>)>) -> bool {
    match spec_lookup(hs, "Transfer-Encoding"@) {
        Some(v) => spec_is_chunked_value(v),
        None => false,
    }
}

/// One rendered header line per pair: `key: value` and CRLF.
pub open spec fn render_header_lines(hs: Seq<(Seq<char>, Seq<char>)>) -> Seq<char>
    decreases hs.len(),
{
    if hs.len() == 0 {
        Seq::empty()
    } else {
        hs.first().0 + ": "@ + hs.first().1 + "\r\n"@ + render_header_lines(hs.drop_first())
    }
}

/// An HTTP request: the parsed request line and header pairs, and the body
/// once the connection pipeline has attached it.
#[derive(Debug)]
pub struct Request {
    pub method: String,
    pub uri: String,
    pub version: String,
    pub headers: Vec<(String, String)>,
    pub body: Vec<u8>,
}

pub(crate) fn find_char_at(s: &str, from: usize, bound: usize, ch: char) -> (r: usize)
    requires
        from <= bound <= s@.len(),
    ensures
        r == find_char(s@, from as int, bound as int, ch),
        from <= r <= bound,
{
    let mut i = from;
    while i < bound
        invariant
            from <= i <= bound <= s@.len(),
            find_char(s@, from as int, bound as int, ch) == find_char(s@, i as int, bound as int, ch),
        decreases bound - i,
    {
        if s.get_char(i) == ch {
            return i;
        }
        i += 1;
    }
    i
}

pub(crate) fn skip_ws_at(s: &str, from: usize, bound: usize) -> (r: usize)
    requires
        from <= bound <= s@.len(),
    ensures
        r == skip_ws(s@, from as int, bound as int),
        from <= r <= bound,
{
    let mut i = from;
    while i < bound
        invariant
            from <= i <= bound <= s@.len(),
            skip_ws(s@, from as int, bound as int) == skip_ws(s@, i as int, bound as int),
        decreases bound - i,
    {
        if !is_ws_exec(s.get_char(i)) {
            return i;
        }
        i += 1;
    }
    i
}

pub(crate) fn token_end_at(s: &str, from: usize, bound: usize) -> (r: usize)
    requires
        from <= bound <= s@.len(),
    ensures
        r == token_end(s@, from as int, bound as int),
        from <= r <= bound,
{
    let mut i = from;
    while i < bound
        invariant
            from <= i <= bound <= s@.len(),
            token_end(s@, from as int, bound as int) == token_end(s@, i as int, bound as int),
        decreases bound - i,
    {
        if is_ws_exec(s.get_char(i)) {
            return i;
        }
        i += 1;
    }
    i
}

pub(crate) fn trim_end_at(s: &str, a: usize, b: usize) -> (r: usize)
    requires
        a <= b <= s@.len(),
    ensures
        r == trim_end(s@, a as int, b as int),
        a <= r <= b,
{
    let mut i = b;
    while i > a
        invariant
            a <= i <= b <= s@.len(),
            trim_end(s@, a as int, b as int) == trim_end(s@, a as int, i as int),
        decreases i,
    {
        if !is_ws_exec(s.get_char(i - 1)) {
            return i;
        }
        i -= 1;
    }
    i
}

/// Copies the characters `[from, to)` of `s` into an owned string.
pub(crate) fn substring_string(s: &str, from: usize, to: usize) -> (r: String)
    requires
        from <= to <= s@.len(),
    ensures
        r@ == s@.subrange(from as int, to as int),
{
    s.substring_char(from, to).to_owned()
}

impl Request {
    /// Parses a raw header block.
    ///
    /// The first line must carry at least three whitespace-delimited tokens
    /// — method, URI, version — otherwise the request is rejected with
    /// `Error400`.  Every later line containing a colon becomes a header
    /// pair, split on the first colon and trimmed; other lines are ignored.
    /// The body starts empty.
    pub fn new(response: &str) -> (r: Result<Self, HttpError>)
        ensures
            match r {
                Ok(req) => {
                    &&& spec_tokens(response@).len() >= 3
                    &&& req.method@ == spec_tokens(response@)[0]
                    &&& req.uri@ == spec_tokens(response@)[1]
                    &&& req.version@ == spec_tokens(response@)[2]
                    &&& headers_view(req.headers@) == spec_headers(response@)
                    &&& req.body@ == Seq::<u8>::empty()
                },
                Err(e) => e == HttpError::Error400 && spec_tokens(response@).len() < 3,
            },
    {
        let ghost s = response@;
        let n = response.unicode_len();
        let e0 = find_char_at(response, 0, n, '\n');

        // the request line: collect its tokens
        let mut tokens: Vec<String> = Vec::new();
        let mut p: usize = 0;
        while p < e0
            invariant
                0 <= p <= e0 <= n,
                n == s.len(),
                s == response@,
                e0 == line_end_at(s, 0),
                tokens_in(s, 0, e0 as int) == tokens@.map_values(|t: String| t@) + tokens_in(
                    s,
                    p as int,
                    e0 as int,
                ),
            decreases e0 - p,
        {
            let c = response.get_char(p);
            if is_ws_exec(c) {
                p += 1;
            } else {
                let e = token_end_at(response, p, e0);
                let tok = substring_string(response, p, e);
                proof {
                    lemma_token_end_bounds(s, p as int, e0 as int);
                    let f = |t: String| t@;
                    assert(tokens@.push(tok).map_values(f) =~= tokens@.map_values(f).push(tok@));
                    assert(tokens@.map_values(f).push(tok@) + tokens_in(s, e as int, e0 as int)
                        =~= tokens@.map_values(f) + (seq![s.subrange(p as int, e as int)]
                        + tokens_in(s, e as int, e0 as int)));
                }
                tokens.push(tok);
                p = e;
            }
        }
        assert(tokens_in(s, 0, e0 as int) =~= tokens@.map_values(|t: String| t@)) by {
            assert(tokens_in(s, p as int, e0 as int) =~= Seq::<Seq<char>>::empty());
            assert(tokens@.map_values(|t: String| t@) + Seq::<Seq<char>>::empty() =~= tokens@
                .map_values(|t: String| t@));
        }

        if tokens.len() < 3 {
            return Err(HttpError::Error400);
        }
        let method = tokens[0].clone();
        let uri = tokens[1].clone();
        let version = tokens[2].clone();

        // the header lines
        let mut headers: Vec<(String, String)> = Vec::new();
        let q0: usize = if e0 < n {
            e0 + 1
        } else {
            n
        };
        let mut q = q0;
        while q < n
            invariant
                q0 <= q <= n,
                n == s.len(),
                s == response@,
                spec_headers(s) == headers_view(headers@) + headers_from(s, q as int),
            decreases n - q,
        {
            let ghost hs0 = headers_view(headers@);
            let e = find_char_at(response, q, n, '\n');
            let ce: usize = if e < n && e > q && response.get_char(e - 1) == '\r' {
                e - 1
            } else {
                e
            };
            let c = find_char_at(response, q, ce, ':');
            if c < ce {
                let ka = skip_ws_at(response, q, c);
                let kb = trim_end_at(response, ka, c);
                let va = skip_ws_at(response, c + 1, ce);
                let vb = trim_end_at(response, va, ce);
                let key = substring_string(response, ka, kb);
                let value = substring_string(response, va, vb);
                proof {
                    assert(key@ == trim_in(s, q as int, c as int));
                    assert(value@ == trim_in(s, c as int + 1, ce as int));
                }
                let ghost kv = (key@, value@);
                proof {
                    let f = |kv: (String, String)| (kv.0@, kv.1@);
                    assert(headers@.push((key, value)).map_values(f) =~= headers@.map_values(
                        f,
                    ).push(kv));
                }
                headers.push((key, value));
                proof {
                    assert(headers_from(s, q as int) == seq![kv] + headers_from(
                        s,
                        if e < n { e as int + 1 } else { e as int },
                    ));
                    assert(hs0.push(kv) + headers_from(s, if e < n { e as int + 1 } else { e as int })
                        =~= hs0 + (seq![kv] + headers_from(
                        s,
                        if e < n { e as int + 1 } else { e as int },
                    )));
                }
            } else {
                proof {
                    assert(headers_from(s, q as int) == headers_from(
                        s,
                        if e < n { e as int + 1 } else { e as int },
                    ));
                }
            }
            q = if e < n {
                e + 1
            } else {
                n
            };
        }
        proof {
            assert(headers_from(s, n as int) =~= Seq::<(Seq<char>, Seq<char>)>::empty());
            assert(headers_view(headers@) + Seq::<(Seq<char>, Seq<char>)>::empty() =~= headers_view(
                headers@,
            ));
        }

        Ok(Self { method, uri, version, headers, body: Vec::new() })
    }

    /// The header pairs, as character sequences.
    pub open spec fn hdrs(&self) -> Seq<(Seq<char>, Seq<char>)> {
        headers_view(self.headers@)
    }

    /// The value of the first header whose key equals `key` exactly, as
    /// stored.
    pub fn get_value(&self, key: &str) -> (r: Option<&str>)
        ensures
            match r {
                Some(v) => spec_lookup(self.hdrs(), key@) == Some(v@),
                None => spec_lookup(self.hdrs(), key@) is None,
            },
    {
        let k = key.to_owned();
        proof {
            assert(self.hdrs().skip(0) =~= self.hdrs());
        }
        let mut i: usize = 0;
        while i < self.headers.len()
            invariant
                i <= self.headers.len(),
                k@ == key@,
                spec_lookup(self.hdrs(), key@) == spec_lookup(
                    self.hdrs().skip(i as int),
                    key@,
                ),
            decreases self.headers.len() - i,
        {
            assert(self.hdrs().skip(i as int).first() == self.hdrs()[i as int]);
            if self.headers[i].0 == k {
                return Some(self.headers[i].1.as_str());
            }
            proof {
                assert(self.hdrs().skip(i as int).drop_first() =~= self.hdrs().skip(i as int + 1));
            }
            i += 1;
        }
        proof {
            assert(self.hdrs().skip(i as int) =~= Seq::<(Seq<char>, Seq<char>)>::empty());
        }
        None
    }

    /// True exactly when the request declares a body, by `Content-Length`
    /// or by `Transfer-Encoding`.
    pub fn is_body(&self) -> (r: bool)
        ensures
            r == spec_is_body(self.hdrs()),
    {
        if let Some(_) = self.get_value("Content-Length") {
            return true;
        }
        if let Some(_) = self.get_value("Transfer-Encoding") {
            return true;
        }
        false
    }

    /// The declared content length; absent when the `Content-Length` header
    /// is missing or is not a valid non-negative integer.  A present but
    /// unparsable value is a framing error for the caller, not "no body".
    pub fn get_content_length(&self) -> (r: Option<usize>)
        ensures
            match r {
                Some(n) => spec_content_length(self.hdrs()) == Some(n as nat),
                None => spec_content_length(self.hdrs()) is None,
            },
    {
        match self.get_value("Content-Length") {
            Some(v) => parse_usize_chars(v),
            None => None,
        }
    }

    /// True exactly when the `Transfer-Encoding` value announces chunked
    /// framing: it equals `chunked` case-insensitively after trimming, or
    /// the segment after its last comma does.
    pub fn is_chunked(&self) -> (r: bool)
        ensures
            r == spec_is_chunked(self.hdrs()),
    {
        match self.get_value("Transfer-Encoding") {
            None => false,
            Some(te) => is_chunked_value(te),
        }
    }

    /// Renders the request back to wire form: request line, header lines,
    /// and — when a body is attached — a blank line and the body bytes.
    pub fn as_bytes(&self) -> (r: Vec<u8>)
        ensures
            r@ == vstd::utf8::encode_utf8(spec_request_head(*self)) + self.body@,
    {
        let mut out = String::new();
        out.append(self.method.as_str());
        out.append(" ");
        out.append(self.uri.as_str());
        out.append(" ");
        out.append(self.version.as_str());
        out.append("\r\n");
        let ghost base = self.method@ + " "@ + self.uri@ + " "@ + self.version@ + "\r\n"@;
        proof {
            assert(render_header_lines(self.hdrs().take(0)) =~= Seq::<char>::empty()) by {
                assert(self.hdrs().take(0) =~= Seq::<(Seq<char>, Seq<char>)>::empty());
            }
            assert(out@ =~= base + render_header_lines(self.hdrs().take(0)));
        }
        let mut i: usize = 0;
        while i < self.headers.len()
            invariant
                i <= self.headers.len(),
                base == self.method@ + " "@ + self.uri@ + " "@ + self.version@ + "\r\n"@,
                out@ == base + render_header_lines(self.hdrs().take(i as int)),
            decreases self.headers.len() - i,
        {
            out.append(self.headers[i].0.as_str());
            out.append(": ");
            out.append(self.headers[i].1.as_str());
            out.append("\r\n");
            proof {
                lemma_render_header_lines_snoc(self.hdrs(), i as int);
                assert(out@ =~= base + render_header_lines(self.hdrs().take(i as int + 1)));
            }
            i += 1;
        }
        proof {
            assert(self.hdrs().take(i as int) =~= self.hdrs());
        }
        if self.body.len() > 0 {
            out.append("\r\n");
        }
        proof {
            if self.body@.len() > 0 {
                assert(out@ =~= spec_request_head(*self));
            } else {
                assert(base + render_header_lines(self.hdrs()) + Seq::<char>::empty() =~= base
                    + render_header_lines(self.hdrs()));
                assert(out@ =~= spec_request_head(*self));
            }
        }
        let mut bytes = out.as_str().as_bytes_vec();
        bytes.extend_from_slice(self.body.as_slice());
        bytes
    }
}

/// Decides whether a `Transfer-Encoding` value announces chunked framing,
/// by the token rule: after trimming it equals `chunked` case-insensitively,
/// or the segment after its last comma does.
pub fn is_chunked_value(te: &str) -> (r: bool)
    ensures
        r == spec_is_chunked_value(te@),
{
    let n = te.unicode_len();
    let a = skip_ws_at(te, 0, n);
    let b = trim_end_at(te, a, n);
    if ci_equal_range(te, a, b, "chunked") {
        return true;
    }
    match rfind_char_at(te, n, ',') {
        None => false,
        Some(idx) => {
            let a2 = skip_ws_at(te, idx + 1, n);
            let b2 = trim_end_at(te, a2, n);
            ci_equal_range(te, a2, b2, "chunked")
        },
    }
}

/// The wire text of a request's head: the request line, the header lines,
/// and the blank line that separates a non-empty body.
pub open spec fn spec_request_head(req: Request) -> Seq<char> {
    req.method@ + " "@ + req.uri@ + " "@ + req.version@ + "\r\n"@ + render_header_lines(
        headers_view(req.headers@),
    ) + if req.body@.len() > 0 {
        "\r\n"@
    } else {
        Seq::empty()
    }
}

/// Rendering one more header appends one more line.
pub proof fn lemma_render_header_lines_snoc(hs: Seq<(Seq<char>, Seq<char>)>, i: int)
    requires
        0 <= i < hs.len(),
    ensures
        render_header_lines(hs.take(i + 1)) == render_header_lines(hs.take(i)) + (hs[i].0 + ": "@
            + hs[i].1 + "\r\n"@),
{
    lemma_render_header_lines_concat(hs.take(i), seq![hs[i]]);
    assert(hs.take(i) + seq![hs[i]] =~= hs.take(i + 1));
    assert(seq![hs[i]].drop_first() =~= Seq::<(Seq<char>, Seq<char>)>::empty());
    assert(render_header_lines(Seq::<(Seq<char>, Seq<char>)>::empty()) =~= Seq::<char>::empty());
    assert(render_header_lines(seq![hs[i]]) =~= hs[i].0 + ": "@ + hs[i].1 + "\r\n"@);
}

/// Rendering distributes over concatenation of header lists.
proof fn lemma_render_header_lines_concat(a: Seq<(Seq<char>, Seq<char>)>, b: Seq<(Seq<char>, Seq<char>)>)
    ensures
        render_header_lines(a + b) == render_header_lines(a) + render_header_lines(b),
    decreases a.len(),
{
    if a.len() == 0 {
        assert(a + b =~= b);
        assert(render_header_lines(a) =~= Seq::<char>::empty());
        assert(render_header_lines(a) + render_header_lines(b) =~= render_header_lines(b));
    } else {
        assert((a + b).first() == a.first());
        assert((a + b).drop_first() =~= a.drop_first() + b);
        lemma_render_header_lines_concat(a.drop_first(), b);
        assert(a.first().0 + ": "@ + a.first().1 + "\r\n"@ + (render_header_lines(a.drop_first())
            + render_header_lines(b)) =~= (a.first().0 + ": "@ + a.first().1 + "\r\n"@
            + render_header_lines(a.drop_first())) + render_header_lines(b));
    }
}

/// Parses a header value as a non-negative decimal integer.
fn parse_usize_chars(v: &str) -> (r: Option<usize>)
    ensures
        match r {
            Some(n) => parse_dec_chars(v@) == Some(n as nat),
            None => parse_dec_chars(v@) is None,
        },
{
    let n = v.unicode_len();
    if n == 0 {
        return None;
    }
    let mut acc: usize = 0;
    let mut i: usize = 0;
    while i < n
        invariant
            i <= n,
            n == v@.len(),
            all_digit_chars(v@.take(i as int)),
            acc == dec_value_chars(v@.take(i as int)),
        decreases n - i,
    {
        let c = v.get_char(i);
        let x = c as u32;
        if x < 48 || x > 57 {
            assert(!is_digit_char(v@[i as int]));
            return None;
        }
        let d = (x - 48) as usize;
        proof {
            assert(v@.take(i as int + 1).drop_last() =~= v@.take(i as int));
            assert(v@.take(i as int + 1).last() == v@[i as int]);
        }
        let shifted = match acc.checked_mul(10) {
            Some(w) => w,
            None => {
                proof {
                    if all_digit_chars(v@) {
                        lemma_dec_value_chars_monotone(v@, i as int + 1);
                    }
                }
                return None;
            },
        };
        let next = match shifted.checked_add(d) {
            Some(w) => w,
            None => {
                proof {
                    if all_digit_chars(v@) {
                        lemma_dec_value_chars_monotone(v@, i as int + 1);
                    }
                }
                return None;
            },
        };
        acc = next;
        i += 1;
    }
    proof {
        assert(v@.take(n as int) =~= v@);
    }
    Some(acc)
}

/// The value of a digit string is at least the value of any prefix.
proof fn lemma_dec_value_chars_monotone(s: Seq<char>, i: int)
    requires
        0 <= i <= s.len(),
        all_digit_chars(s),
    ensures
        dec_value_chars(s) >= dec_value_chars(s.take(i)),
    decreases s.len() - i,
{
    lemma_dec_value_chars_nonneg(s.take(i));
    if i < s.len() {
        assert(s.take(i + 1).drop_last() =~= s.take(i));
        assert(s.take(i + 1).last() == s[i]);
        lemma_dec_value_chars_nonneg(s.take(i + 1));
        lemma_dec_value_chars_monotone(s, i + 1);
    } else {
        assert(s.take(i) =~= s);
    }
}

proof fn lemma_dec_value_chars_nonneg(s: Seq<char>)
    requires
        all_digit_chars(s),
    ensures
        dec_value_chars(s) >= 0,
    decreases s.len(),
{
    if s.len() > 0 {
        assert(all_digit_chars(s.drop_last())) by {
            assert(forall|i: int|
                0 <= i < s.drop_last().len() ==> #[trigger] s.drop_last()[i] == s[i]);
        }
        lemma_dec_value_chars_nonneg(s.drop_last());
    }
}

fn ci_match_exec(a: char, b: char) -> (r: bool)
    ensures
        r == ci_match(a, b),
{
    let x = a as u32;
    if 65 <= x && x <= 90 {
        x + 32 == b as u32
    } else {
        a == b
    }
}

/// Compares the window `[a, b)` of `s` against `w`, folding ASCII upper
/// case in `s` to lower case.
pub(crate) fn ci_equal_range(s: &str, a: usize, b: usize, w: &str) -> (r: bool)
    requires
        a <= b <= s@.len(),
    ensures
        r == ci_equal(s@.subrange(a as int, b as int), w@),
{
    let wl = w.unicode_len();
    if b - a != wl {
        return false;
    }
    let mut i: usize = 0;
    while i < wl
        invariant
            i <= wl,
            wl == w@.len(),
            b - a == wl,
            a <= b <= s@.len(),
            forall|j: int|
                0 <= j < i ==> ci_match(#[trigger] s@.subrange(a as int, b as int)[j], w@[j]),
        decreases wl - i,
    {
        let sc = s.get_char(a + i);
        let wc = w.get_char(i);
        proof {
            assert(s@.subrange(a as int, b as int)[i as int] == s@[a + i]);
        }
        if !ci_match_exec(sc, wc) {
            return false;
        }
        i += 1;
    }
    true
}

/// The position of the last `ch` in the first `bound` characters, if any.
pub(crate) fn rfind_char_at(s: &str, bound: usize, ch: char) -> (r: Option<usize>)
    requires
        bound <= s@.len(),
    ensures
        match r {
            Some(i) => i < bound && rfind_char(s@, bound as int, ch) == Some(i as int),
            None => rfind_char(s@, bound as int, ch) is None,
        },
{
    let mut p = bound;
    while p > 0
        invariant
            p <= bound <= s@.len(),
            rfind_char(s@, bound as int, ch) == rfind_char(s@, p as int, ch),
        decreases p,
    {
        if s.get_char(p - 1) == ch {
            return Some(p - 1);
        }
        p -= 1;
    }
    None
}

} // verus!
