//! The response model: built once by a handler from a status code, body
//! bytes, extra headers and a content type; rendering adds the synthesized
//! headers (length, encoding, connection, content type, date, server) and
//! serializes the status line, the header lines, a blank line, and the body.

use vstd::prelude::*;
use vstd::string::StrSliceExecFns;
use vstd::string::StringExecFns;

use crate::content_type::ContentType;
use crate::request::headers_view;
use crate::request::is_ws;
use crate::request::render_header_lines;
use crate::request::spec_headers;
use crate::request::spec_tokens;
use crate::request::tokens_in;

verus! {

/// The decimal digit characters of `n`, most significant first.
pub open spec fn dec_chars(n: nat) -> Seq<char>
    decreases n,
{
    if n < 10 {
        seq![digit_char(n)]
    } else {
        dec_chars(n / 10).push(digit_char(n % 10))
    }
}

/// The character for one decimal digit.
pub open spec fn digit_char(d: nat) -> char {
    if d == 0 {
        '0'
    } else if d == 1 {
        '1'
    } else if d == 2 {
        '2'
    } else if d == 3 {
        '3'
    } else if d == 4 {
        '4'
    } else if d == 5 {
        '5'
    } else if d == 6 {
        '6'
    } else if d == 7 {
        '7'
    } else if d == 8 {
        '8'
    } else {
        '9'
    }
}

/// A value fit to stand in a header: one non-empty line, no carriage return
/// or newline, no surrounding whitespace — re-parsing the rendered header
/// recovers it exactly.
pub open spec fn spec_date_ok(d: Seq<char>) -> bool {
    &&& d.len() > 0
    &&& !is_ws(d[0])
    &&& !is_ws(d[d.len() - 1])
    &&& forall|i: int| 0 <= i < d.len() ==> #[trigger] d[i] != '\r' && d[i] != '\n'
}

/// Relies on chrono's `Utc::now` and `DateTime::format`: the fixed format
/// below renders an English weekday name and decimal fields with literal
/// separators — a single non-empty line with no leading or trailing
/// whitespace and no carriage return or newline in it.  The value itself
/// depends on the clock.
#[verifier::external_body]
fn get_header_date() -> (r: String)
    ensures
        spec_date_ok(r@),
{
    let now: chrono::DateTime<chrono::Utc> = chrono::Utc::now();
    format!("{}", now.format("%A, %d %m %Y %H:%M:%S GMT"))
}

/// Appends one decimal digit character.
fn append_digit(out: &mut String, d: u64)
    requires
        d < 10,
    ensures
        final(out)@ == old(out)@ + seq![digit_char(d as nat)],
{
    if d == 0 {
        proof {
            reveal_strlit("0");
        }
        out.append("0");
    } else if d == 1 {
        proof {
            reveal_strlit("1");
        }
        out.append("1");
    } else if d == 2 {
        proof {
            reveal_strlit("2");
        }
        out.append("2");
    } else if d == 3 {
        proof {
            reveal_strlit("3");
        }
        out.append("3");
    } else if d == 4 {
        proof {
            reveal_strlit("4");
        }
        out.append("4");
    } else if d == 5 {
        proof {
            reveal_strlit("5");
        }
        out.append("5");
    } else if d == 6 {
        proof {
            reveal_strlit("6");
        }
        out.append("6");
    } else if d == 7 {
        proof {
            reveal_strlit("7");
        }
        out.append("7");
    } else if d == 8 {
        proof {
            reveal_strlit("8");
        }
        out.append("8");
    } else {
        proof {
            reveal_strlit("9");
        }
        out.append("9");
    }
    proof {
        assert(final(out)@ =~= old(out)@ + seq![digit_char(d as nat)]);
    }
}

/// Appends the decimal rendering of `n`.
fn append_dec(out: &mut String, n: u64)
    ensures
        final(out)@ == old(out)@ + dec_chars(n as nat),
    decreases n,
{
    if n >= 10 {
        append_dec(out, n / 10);
        append_digit(out, n % 10);
        proof {
            assert(old(out)@ + dec_chars((n / 10) as nat) + seq![digit_char((n % 10) as nat)]
                =~= old(out)@ + dec_chars(n as nat));
        }
    } else {
        append_digit(out, n);
    }
}

/// Renders `n` in decimal.
pub fn u64_to_string(n: u64) -> (r: String)
    ensures
        r@ == dec_chars(n as nat),
{
    let mut out = String::new();
    append_dec(&mut out, n);
    proof {
        assert(Seq::<char>::empty() + dec_chars(n as nat) =~= dec_chars(n as nat));
    }
    out
}

/// The reason phrase served with each status code.
pub open spec fn spec_reason(status: u32) -> Seq<char> {
    if status == 100 {
        "Continue"@
    } else if status == 101 {
        "Switching Protocols"@
    } else if status == 200 {
        "OK"@
    } else if status == 201 {
        "Created"@
    } else if status == 202 {
        "Accepted"@
    } else if status == 203 {
        "Non-Authoritative Information"@
    } else if status == 204 {
        "No Content"@
    } else if status == 205 {
        "Reset Content"@
    } else if status == 206 {
        "Partial Content"@
    } else if status == 300 {
        "Multiple Choices"@
    } else if status == 301 {
        "Moved Permanently"@
    } else if status == 302 {
        "Found"@
    } else if status == 303 {
        "See Other"@
    } else if status == 304 {
        "Not Modified"@
    } else if status == 305 {
        "Use Proxy"@
    } else if status == 306 {
        "(Unused)"@
    } else if status == 307 {
        "Temporary Redirect"@
    } else if status == 308 {
        "Permanent Redirect"@
    } else if status == 400 {
        "Bad Request"@
    } else if status == 401 {
        "Unauthorized"@
    } else if status == 402 {
        "Payment Required"@
    } else if status == 403 {
        "Forbidden"@
    } else if status == 404 {
        "Not Found"@
    } else if status == 405 {
        "Method Not Allowed"@
    } else if status == 406 {
        "Not Acceptable"@
    } else if status == 407 {
        "Proxy Authentication Required"@
    } else if status == 408 {
        "Request Timeout"@
    } else if status == 409 {
        "Conflict"@
    } else if status == 410 {
        "Gone"@
    } else if status == 411 {
        "Length Required"@
    } else if status == 412 {
        "Precondition Failed"@
    } else if status == 413 {
        "Content Too Large"@
    } else if status == 414 {
        "URI Too Long"@
    } else if status == 415 {
        "Unsupported Media Type"@
    } else if status == 416 {
        "Range Not Satisfiable"@
    } else if status == 417 {
        "Expectation Failed"@
    } else if status == 418 {
        "I'm a tea pot"@
    } else if status == 421 {
        "Misdirected Request"@
    } else if status == 422 {
        "Unprocessable Content"@
    } else if status == 426 {
        "Upgrade Required"@
    } else if status == 500 {
        "Internal Server Error"@
    } else if status == 501 {
        "Not Implemented"@
    } else if status == 502 {
        "Bad Gateway"@
    } else if status == 503 {
        "Service Unavailable"@
    } else if status == 504 {
        "Gateway Timeout"@
    } else if status == 505 {
        "HTTP Version Not Supported"@
    } else {
        "Unknown Status Code"@
    }
}

/// The reason phrase for a status code.
fn reason_phrase(status: u32) -> (r: String)
    ensures
        r@ == spec_reason(status),
{
    match status {
        100 => "Continue".to_owned(),
        101 => "Switching Protocols".to_owned(),
        200 => "OK".to_owned(),
        201 => "Created".to_owned(),
        202 => "Accepted".to_owned(),
        203 => "Non-Authoritative Information".to_owned(),
        204 => "No Content".to_owned(),
        205 => "Reset Content".to_owned(),
        206 => "Partial Content".to_owned(),
        300 => "Multiple Choices".to_owned(),
        301 => "Moved Permanently".to_owned(),
        302 => "Found".to_owned(),
        303 => "See Other".to_owned(),
        304 => "Not Modified".to_owned(),
        305 => "Use Proxy".to_owned(),
        306 => "(Unused)".to_owned(),
        307 => "Temporary Redirect".to_owned(),
        308 => "Permanent Redirect".to_owned(),
        400 => "Bad Request".to_owned(),
        401 => "Unauthorized".to_owned(),
        402 => "Payment Required".to_owned(),
        403 => "Forbidden".to_owned(),
        404 => "Not Found".to_owned(),
        405 => "Method Not Allowed".to_owned(),
        406 => "Not Acceptable".to_owned(),
        407 => "Proxy Authentication Required".to_owned(),
        408 => "Request Timeout".to_owned(),
        409 => "Conflict".to_owned(),
        410 => "Gone".to_owned(),
        411 => "Length Required".to_owned(),
        412 => "Precondition Failed".to_owned(),
        413 => "Content Too Large".to_owned(),
        414 => "URI Too Long".to_owned(),
        415 => "Unsupported Media Type".to_owned(),
        416 => "Range Not Satisfiable".to_owned(),
        417 => "Expectation Failed".to_owned(),
        418 => "I'm a tea pot".to_owned(),
        421 => "Misdirected Request".to_owned(),
        422 => "Unprocessable Content".to_owned(),
        426 => "Upgrade Required".to_owned(),
        500 => "Internal Server Error".to_owned(),
        501 => "Not Implemented".to_owned(),
        502 => "Bad Gateway".to_owned(),
        503 => "Service Unavailable".to_owned(),
        504 => "Gateway Timeout".to_owned(),
        505 => "HTTP Version Not Supported".to_owned(),
        _ => "Unknown Status Code".to_owned(),
    }
}

/// The six headers the renderer adds after the caller's own: content
/// length, accepted encodings, connection persistence, content type, date,
/// and server name.
pub open spec fn spec_synth_headers(
    user: Seq<(Seq<char>, Seq<char>)>,
    body_len: nat,
    ct: ContentType,
    date: Seq<char>,
) -> Seq<(Seq<char>, Seq<char>)> {
    user + seq![
        ("Content-length"@, dec_chars(body_len)),
        ("Accept-Encoding"@, Seq::<char>::empty()),
        ("Connection"@, "Keep-Alive"@),
        ("Content-Type"@, ct.spec_header_value()),
        ("Date"@, date),
        ("Server"@, "webserv-rs"@),
    ]
}

/// An HTTP response, immutable after construction.
pub struct Response {
    pub version: String,
    pub status: u32,
    pub reason: String,
    pub headers: Vec<(String, String)>,
    pub body: Vec<u8>,
}

fn make_headers(headers: &Vec<(String, String)>, body_len: usize, content_type: ContentType) -> (r:
    Vec<(String, String)>)
    ensures
        exists|date: Seq<char>|
            spec_date_ok(date) && headers_view(r@) == spec_synth_headers(
                headers_view(headers@),
                body_len as nat,
                content_type,
                date,
            ),
{
    let mut retval: Vec<(String, String)> = Vec::new();
    let mut i: usize = 0;
    while i < headers.len()
        invariant
            i <= headers.len(),
            retval@.len() == i,
            forall|j: int|
                0 <= j < i ==> (#[trigger] retval@[j]).0@ == headers@[j].0@ && retval@[j].1@
                    == headers@[j].1@,
        decreases headers.len() - i,
    {
        retval.push((headers[i].0.clone(), headers[i].1.clone()));
        i += 1;
    }
    retval.push(("Content-length".to_owned(), u64_to_string(body_len as u64)));
    retval.push(("Accept-Encoding".to_owned(), "".to_owned()));
    retval.push(("Connection".to_owned(), "Keep-Alive".to_owned()));
    retval.push(("Content-Type".to_owned(), content_type.header_value()));
    let date = get_header_date();
    let ghost date_view = date@;
    retval.push(("Date".to_owned(), date));
    retval.push(("Server".to_owned(), "webserv-rs".to_owned()));
    proof {
        assert(""@ =~= Seq::<char>::empty()) by {
            reveal_strlit("");
        }
        assert(headers_view(retval@) =~= spec_synth_headers(
            headers_view(headers@),
            body_len as nat,
            content_type,
            date_view,
        ));
    }
    retval
}

impl Response {
    /// Builds a response from a status code, body bytes, extra headers, and
    /// a content type.  The version is fixed at HTTP/1.1, the reason phrase
    /// follows the status code, and the six synthesized headers are
    /// appended after the caller's own.
    pub fn new(
        status: u32,
        body: Vec<u8>,
        headers: Vec<(String, String)>,
        content_type: ContentType,
    ) -> (r: Response)
        ensures
            r.version@ == "HTTP/1.1"@,
            r.status == status,
            r.reason@ == spec_reason(status),
            r.body@ == body@,
            exists|date: Seq<char>|
                spec_date_ok(date) && headers_view(r.headers@) == spec_synth_headers(
                    headers_view(headers@),
                    body@.len(),
                    content_type,
                    date,
                ),
    {
        let synth = make_headers(&headers, body.len(), content_type);
        Response {
            version: "HTTP/1.1".to_owned(),
            status,
            reason: reason_phrase(status),
            body,
            headers: synth,
        }
    }

    /// The status line: version, status code in decimal, reason phrase,
    /// CRLF.
    pub fn make_first_line(&self) -> (r: String)
        ensures
            r@ == self.spec_first_line(),
    {
        let mut out = String::new();
        out.append(self.version.as_str());
        out.append(" ");
        let status = u64_to_string(self.status as u64);
        out.append(status.as_str());
        out.append(" ");
        out.append(self.reason.as_str());
        out.append("\r\n");
        proof {
            assert(out@ =~= self.spec_first_line());
        }
        out
    }

    pub open spec fn spec_first_line(&self) -> Seq<char> {
        self.version@ + " "@ + dec_chars(self.status as nat) + " "@ + self.reason@ + "\r\n"@
    }

    /// All header lines, each `key: value` and CRLF.
    pub fn make_headers(&self) -> (r: String)
        ensures
            r@ == render_header_lines(headers_view(self.headers@)),
    {
        let mut out = String::new();
        let ghost hs = headers_view(self.headers@);
        proof {
            assert(hs.take(0) =~= Seq::<(Seq<char>, Seq<char>)>::empty());
            assert(out@ =~= render_header_lines(hs.take(0)));
        }
        let mut i: usize = 0;
        while i < self.headers.len()
            invariant
                i <= self.headers.len(),
                hs == headers_view(self.headers@),
                out@ == render_header_lines(hs.take(i as int)),
            decreases self.headers.len() - i,
        {
            out.append(self.headers[i].0.as_str());
            out.append(": ");
            out.append(self.headers[i].1.as_str());
            out.append("\r\n");
            proof {
                crate::request::lemma_render_header_lines_snoc(hs, i as int);
                assert(out@ =~= render_header_lines(hs.take(i as int + 1)));
            }
            i += 1;
        }
        proof {
            assert(hs.take(i as int) =~= hs);
        }
        out
    }

    /// The full wire form: status line, header lines, a blank line, then
    /// the body bytes.
    pub fn as_bytes(&self) -> (r: Vec<u8>)
        ensures
            r@ == vstd::utf8::encode_utf8(self.spec_head()) + self.body@,
    {
        let mut bytes_str = String::new();
        let first = self.make_first_line();
        bytes_str.append(first.as_str());
        let hdrs = self.make_headers();
        bytes_str.append(hdrs.as_str());
        bytes_str.append("\r\n");
        proof {
            assert(bytes_str@ =~= self.spec_head());
        }
        let mut retval = bytes_str.as_str().as_bytes_vec();
        retval.extend_from_slice(self.body.as_slice());
        retval
    }

    /// The characters of everything before the body: status line, header
    /// lines, blank line.
    pub open spec fn spec_head(&self) -> Seq<char> {
        self.spec_first_line() + render_header_lines(headers_view(self.headers@)) + "\r\n"@
    }

    /// True for responses that end the connection after being sent: every
    /// client- or server-error status.
    pub fn is_error_status(&self) -> (r: bool)
        ensures
            r == (self.status >= 400),
    {
        self.status >= 400
    }
}

/// One of the ten decimal digit characters.
pub open spec fn is_digit_lit(c: char) -> bool {
    ||| c == '0'
    ||| c == '1'
    ||| c == '2'
    ||| c == '3'
    ||| c == '4'
    ||| c == '5'
    ||| c == '6'
    ||| c == '7'
    ||| c == '8'
    ||| c == '9'
}

/// A decimal rendering is non-empty and consists of digit characters only.
pub proof fn lemma_dec_chars_digits(n: nat)
    ensures
        dec_chars(n).len() >= 1,
        forall|i: int| 0 <= i < dec_chars(n).len() ==> is_digit_lit(#[trigger] dec_chars(n)[i]),
    decreases n,
{
    if n >= 10 {
        lemma_dec_chars_digits(n / 10);
        let s = dec_chars(n / 10);
        let d = digit_char(n % 10);
        assert forall|i: int| 0 <= i < s.push(d).len() implies is_digit_lit(
            #[trigger] s.push(d)[i],
        ) by {
            if i < s.len() {
                assert(s.push(d)[i] == s[i]);
            } else {
                assert(s.push(d)[i] == d);
            }
        }
    }
}

/// Round trip: the rendered head of a response re-parses, under the
/// request model's own rules, into the same pieces.  The first token of
/// the status line is the version, the second is the status code in
/// decimal, a third token begins the reason phrase, and the header lines
/// yield exactly the response's header pairs.
pub proof fn lemma_response_round_trip(resp: Response)
    requires
        resp.version@.len() > 0,
        forall|i: int| 0 <= i < resp.version@.len() ==> !is_ws(#[trigger] resp.version@[i]),
        resp.reason@.len() > 0,
        !is_ws(resp.reason@[0]),
        forall|i: int|
            0 <= i < resp.reason@.len() ==> #[trigger] resp.reason@[i] != '\r'
                && resp.reason@[i] != '\n',
        forall|i: int|
            0 <= i < headers_view(resp.headers@).len() ==> crate::request::header_key_wf(
                (#[trigger] headers_view(resp.headers@)[i]).0,
            ) && crate::request::header_value_wf(headers_view(resp.headers@)[i].1),
    ensures
        spec_tokens(resp.spec_head()).len() >= 3,
        spec_tokens(resp.spec_head())[0] == resp.version@,
        spec_tokens(resp.spec_head())[1] == dec_chars(resp.status as nat),
        spec_headers(resp.spec_head()) == headers_view(resp.headers@),
{
    reveal_strlit(" ");
    reveal_strlit("\r\n");
    assert(" "@.len() == 1 && " "@[0] == ' ');
    assert("\r\n"@.len() == 2 && "\r\n"@[0] == '\r' && "\r\n"@[1] == '\n');
    let v = resp.version@;
    let d = dec_chars(resp.status as nat);
    let r = resp.reason@;
    let hs = headers_view(resp.headers@);
    let rh = render_header_lines(hs);
    let head = resp.spec_head();
    lemma_dec_chars_digits(resp.status as nat);
    let full = v + " "@ + d + " "@ + r + "\r\n"@ + (rh + "\r\n"@);
    assert(head =~= full);
    let vl = v.len() as int;
    let dl = d.len() as int;
    let rl = r.len() as int;
    // positions inside the status line
    let pd = vl + 1;
    let pr = pd + dl + 1;
    let e0 = pr + rl + 1;
    let fl_len = e0 + 1;
    assert forall|i: int| 0 <= i < vl implies #[trigger] head[i] == v[i] by {
        assert(full[i] == v[i]);
    }
    assert(head[vl] == ' ') by {
        assert(full[vl] == ' ');
    }
    assert forall|i: int| 0 <= i < dl implies #[trigger] head[pd + i] == d[i] by {
        assert(full[pd + i] == d[i]);
    }
    assert(head[pd + dl] == ' ') by {
        assert(full[pd + dl] == ' ');
    }
    assert forall|i: int| 0 <= i < rl implies #[trigger] head[pr + i] == r[i] by {
        assert(full[pr + i] == r[i]);
    }
    assert(head[pr + rl] == '\r') by {
        assert(full[pr + rl] == '\r');
    }
    assert(head[e0] == '\n') by {
        assert(full[e0] == '\n');
    }
    // digit characters are neither whitespace nor line breaks
    assert forall|i: int| 0 <= i < dl implies !is_ws(#[trigger] d[i]) by {
        assert(is_digit_lit(d[i]));
    }
    // the first newline of the head closes the status line
    assert forall|i: int| 0 <= i < e0 implies #[trigger] head[i] != '\n' by {
        if i < vl {
            assert(head[i] == v[i]);
            assert(!is_ws(v[i]));
        } else if i == vl {
        } else if i < pd + dl {
            assert(head[i] == d[i - pd]);
            assert(is_digit_lit(d[i - pd]));
        } else if i == pd + dl {
        } else if i < pr + rl {
            assert(head[i] == r[i - pr]);
        }
    }
    crate::request::lemma_find_char_value(head, 0, head.len() as int, '\n', e0);
    assert(crate::request::line_end_at(head, 0) == e0);
    // the three tokens of the status line
    assert forall|i: int| 0 <= i < vl implies #[trigger] head[0 + i] == v[i] by {
        assert(head[i] == v[i]);
    }
    crate::request::lemma_tokens_cons(head, 0, e0, v);
    assert(tokens_in(head, vl, e0) == tokens_in(head, vl + 1, e0)) by {
        assert(is_ws(head[vl]));
    }
    assert forall|i: int| 0 <= i < dl implies #[trigger] head[pd + i] == d[i] by {
        assert(head[pd + i] == d[i]);
    }
    crate::request::lemma_tokens_cons(head, pd, e0, d);
    assert(tokens_in(head, pd + dl, e0) == tokens_in(head, pr, e0)) by {
        assert(is_ws(head[pd + dl]));
    }
    assert(!is_ws(head[pr])) by {
        assert(head[pr + 0] == r[0]);
    }
    crate::request::lemma_tokens_nonempty(head, pr, e0);
    let toks = spec_tokens(head);
    assert(toks == seq![v] + (seq![d] + tokens_in(head, pr, e0)));
    assert(toks.len() >= 3);
    assert(toks[0] == v) by {
        assert((seq![v] + (seq![d] + tokens_in(head, pr, e0)))[0] == v);
    }
    assert(toks[1] == d) by {
        assert((seq![v] + (seq![d] + tokens_in(head, pr, e0)))[1] == (seq![d] + tokens_in(
            head,
            pr,
            e0,
        ))[0]);
    }
    // the header lines after the status line parse back to the pairs
    assert forall|i: int| 0 <= i < head.len() - fl_len implies head.skip(fl_len)[i] == (rh
        + "\r\n"@)[i] by {
        assert(head.skip(fl_len)[i] == head[fl_len + i]);
        assert(full[fl_len + i] == (rh + "\r\n"@)[i]);
    }
    assert(head.len() - fl_len == (rh + "\r\n"@).len());
    assert(head.skip(fl_len) =~= rh + "\r\n"@);
    crate::request::lemma_headers_from_render(head, fl_len, hs);
    assert(spec_headers(head) == hs);
}

/// Every reason phrase is a non-empty single line that starts with a
/// printable character.
#[verifier::rlimit(60)]
pub proof fn lemma_spec_reason_wf(status: u32)
    ensures
        spec_reason(status).len() > 0,
        !is_ws(spec_reason(status)[0]),
        forall|i: int|
            0 <= i < spec_reason(status).len() ==> #[trigger] spec_reason(status)[i] != '\r'
                && spec_reason(status)[i] != '\n',
{
    reveal_strlit("Continue");
    reveal_strlit("Switching Protocols");
    reveal_strlit("OK");
    reveal_strlit("Created");
    reveal_strlit("Accepted");
    reveal_strlit("Non-Authoritative Information");
    reveal_strlit("No Content");
    reveal_strlit("Reset Content");
    reveal_strlit("Partial Content");
    reveal_strlit("Multiple Choices");
    reveal_strlit("Moved Permanently");
    reveal_strlit("Found");
    reveal_strlit("See Other");
    reveal_strlit("Not Modified");
    reveal_strlit("Use Proxy");
    reveal_strlit("(Unused)");
    reveal_strlit("Temporary Redirect");
    reveal_strlit("Permanent Redirect");
    reveal_strlit("Bad Request");
    reveal_strlit("Unauthorized");
    reveal_strlit("Payment Required");
    reveal_strlit("Forbidden");
    reveal_strlit("Not Found");
    reveal_strlit("Method Not Allowed");
    reveal_strlit("Not Acceptable");
    reveal_strlit("Proxy Authentication Required");
    reveal_strlit("Request Timeout");
    reveal_strlit("Conflict");
    reveal_strlit("Gone");
    reveal_strlit("Length Required");
    reveal_strlit("Precondition Failed");
    reveal_strlit("Content Too Large");
    reveal_strlit("URI Too Long");
    reveal_strlit("Unsupported Media Type");
    reveal_strlit("Range Not Satisfiable");
    reveal_strlit("Expectation Failed");
    reveal_strlit("I'm a tea pot");
    reveal_strlit("Misdirected Request");
    reveal_strlit("Unprocessable Content");
    reveal_strlit("Upgrade Required");
    reveal_strlit("Internal Server Error");
    reveal_strlit("Not Implemented");
    reveal_strlit("Bad Gateway");
    reveal_strlit("Service Unavailable");
    reveal_strlit("Gateway Timeout");
    reveal_strlit("HTTP Version Not Supported");
    reveal_strlit("Unknown Status Code");
}

/// The keys and fixed values of the synthesized headers round-trip
/// exactly.
proof fn lemma_synth_literals_wf()
    ensures
        crate::request::header_key_wf("Content-length"@),
        crate::request::header_key_wf("Accept-Encoding"@),
        crate::request::header_key_wf("Connection"@),
        crate::request::header_key_wf("Content-Type"@),
        crate::request::header_key_wf("Date"@),
        crate::request::header_key_wf("Server"@),
        crate::request::header_value_wf("Keep-Alive"@),
        crate::request::header_value_wf("webserv-rs"@),
        crate::request::header_value_wf(Seq::<char>::empty()),
{
    reveal_strlit("Content-length");
    reveal_strlit("Accept-Encoding");
    reveal_strlit("Connection");
    reveal_strlit("Content-Type");
    reveal_strlit("Date");
    reveal_strlit("Server");
    reveal_strlit("Keep-Alive");
    reveal_strlit("webserv-rs");
}

/// Round trip for a freshly built response: the rendered head of
/// `Response::new` re-parses into its own pieces — the fixed version as
/// the first token, the status in decimal as the second, and exactly the
/// caller's header pairs followed by the six synthesized ones — provided
/// the caller's pairs, and the content type's rendered value, are fit to
/// stand in header lines.
pub proof fn lemma_new_response_round_trip(
    resp: Response,
    user: Seq<(Seq<char>, Seq<char>)>,
    body_len: nat,
    ct: ContentType,
    date: Seq<char>,
)
    requires
        resp.version@ == "HTTP/1.1"@,
        resp.reason@ == spec_reason(resp.status),
        spec_date_ok(date),
        headers_view(resp.headers@) == spec_synth_headers(user, body_len, ct, date),
        forall|i: int|
            0 <= i < user.len() ==> crate::request::header_key_wf((#[trigger] user[i]).0)
                && crate::request::header_value_wf(user[i].1),
        crate::request::header_value_wf(ct.spec_header_value()),
    ensures
        spec_tokens(resp.spec_head()).len() >= 3,
        spec_tokens(resp.spec_head())[0] == "HTTP/1.1"@,
        spec_tokens(resp.spec_head())[1] == dec_chars(resp.status as nat),
        spec_headers(resp.spec_head()) == headers_view(resp.headers@),
{
    reveal_strlit("HTTP/1.1");
    assert(resp.version@.len() == 8);
    assert forall|i: int| 0 <= i < resp.version@.len() implies !is_ws(
        #[trigger] resp.version@[i],
    ) by {
        assert("HTTP/1.1"@[0] == 'H' && "HTTP/1.1"@[1] == 'T' && "HTTP/1.1"@[2] == 'T'
            && "HTTP/1.1"@[3] == 'P' && "HTTP/1.1"@[4] == '/' && "HTTP/1.1"@[5] == '1'
            && "HTTP/1.1"@[6] == '.' && "HTTP/1.1"@[7] == '1');
    }
    lemma_spec_reason_wf(resp.status);
    lemma_synth_literals_wf();
    lemma_dec_chars_digits(body_len);
    let hs = headers_view(resp.headers@);
    let synth = seq![
        ("Content-length"@, dec_chars(body_len)),
        ("Accept-Encoding"@, Seq::<char>::empty()),
        ("Connection"@, "Keep-Alive"@),
        ("Content-Type"@, ct.spec_header_value()),
        ("Date"@, date),
        ("Server"@, "webserv-rs"@),
    ];
    assert(crate::request::header_value_wf(dec_chars(body_len))) by {
        assert forall|i: int| 0 <= i < dec_chars(body_len).len() implies #[trigger] dec_chars(
            body_len,
        )[i] != '\r' && dec_chars(body_len)[i] != '\n' by {
            assert(is_digit_lit(dec_chars(body_len)[i]));
        }
        assert(is_digit_lit(dec_chars(body_len)[0]));
        assert(is_digit_lit(dec_chars(body_len)[dec_chars(body_len).len() - 1]));
    }
    assert(crate::request::header_value_wf(date));
    assert forall|i: int| 0 <= i < hs.len() implies crate::request::header_key_wf(
        (#[trigger] hs[i]).0,
    ) && crate::request::header_value_wf(hs[i].1) by {
        assert(hs == user + synth);
        if i < user.len() {
            assert(hs[i] == user[i]);
        } else {
            assert(hs[i] == synth[i - user.len()]);
        }
    }
    lemma_response_round_trip(resp);
}

} // verus!
