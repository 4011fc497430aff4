//! Outbound responses: the canned and file responses, and their wire form.
use vstd::prelude::*;

use crate::text::{append_bytes, append_decimal, append_str, decimal_chars, decimal_string, eq_ignore_case, str_eq_ignore_case, utf8};

verus! {

/// Status of a successful response.
pub const OK: u16 = 200;

/// Status of a partial (ranged) file response.
pub const PARTIAL_CONTENT: u16 = 206;

/// Status of a redirect.
pub const FOUND: u16 = 302;

/// Status of a refused request for an unknown host.
pub const FORBIDDEN: u16 = 403;

/// Status where nothing answers the request.
pub const NOT_FOUND: u16 = 404;

/// A response: status, header lines in order, and a buffered body.
#[derive(Debug)]
pub struct Response {
    pub status: u16,
    pub headers: Vec<(String, String)>,
    pub body: Vec<u8>,
}

/// A response as plain values.
pub struct ResponseView {
    pub status: u16,
    pub headers: Seq<(Seq<char>, Seq<char>)>,
    pub body: Seq<u8>,
}

/// The header lines as pairs of character sequences.
pub open spec fn pairs_view(h: Seq<(String, String)>) -> Seq<(Seq<char>, Seq<char>)> {
    h.map_values(|p: (String, String)| (p.0@, p.1@))
}

impl View for Response {
    type V = ResponseView;

    open spec fn view(&self) -> ResponseView {
        ResponseView { status: self.status, headers: pairs_view(self.headers@), body: self.body@ }
    }
}

/// The reason phrase that the `http` crate gives a status code, if any.
pub uninterp spec fn canonical_reason_of(code: u16) -> Option<Seq<char>>;

/// Relies on `http::StatusCode::from_u16` and `StatusCode::canonical_reason`:
/// the standard reason phrase of a status code, `None` for a code outside
/// 100..=999 or without one.
#[verifier::external_body]
fn canonical_reason(code: u16) -> (r: Option<String>)
    ensures
        match r {
            Some(s) => canonical_reason_of(code) == Some(s@),
            None => canonical_reason_of(code) is None,
        },
{
    http::StatusCode::from_u16(code).ok().and_then(|s| s.canonical_reason()).map(|s| s.to_string())
}

/// The MIME type that mime_guess gives a file path, `application/octet-stream`
/// where it knows none.
pub uninterp spec fn mime_type_of(path: Seq<char>) -> Seq<char>;

/// Relies on `mime_guess::from_path` and `MimeGuess::first_or_octet_stream`:
/// the MIME type guessed from the path's extension.
#[verifier::external_body]
fn guess_mime_type(path: &str) -> (r: String)
    ensures
        r@ == mime_type_of(path@),
{
    mime_guess::from_path(path).first_or_octet_stream().to_string()
}

/// The status line: version, code, reason phrase (empty where there is
/// none), line break.
pub open spec fn status_line(code: u16) -> Seq<u8> {
    utf8("HTTP/1.1 "@) + utf8(decimal_chars(code as nat)) + utf8(" "@) + utf8(
        match canonical_reason_of(code) {
            Some(r) => r,
            None => seq![],
        },
    ) + utf8("\r\n"@)
}

/// The header lines, each `name: value` and a line break.
pub open spec fn header_block(hs: Seq<(Seq<char>, Seq<char>)>) -> Seq<u8>
    decreases hs.len(),
{
    if hs.len() == 0 {
        seq![]
    } else {
        header_block(hs.drop_last()) + utf8(hs.last().0) + utf8(": "@) + utf8(hs.last().1)
            + utf8("\r\n"@)
    }
}

/// The head of a response on the wire: status line, headers, blank line.
pub open spec fn wire_head(r: ResponseView) -> Seq<u8> {
    status_line(r.status) + header_block(r.headers) + utf8("\r\n"@)
}

/// Writes the head of a response: status line, headers and the blank line.
pub fn response_head(response: &Response) -> (r: Vec<u8>)
    ensures
        r@ == wire_head(response@),
{
    let mut buf: Vec<u8> = Vec::new();
    append_str(&mut buf, "HTTP/1.1 ");
    let code = decimal_string(response.status as u64);
    append_str(&mut buf, code.as_str());
    append_str(&mut buf, " ");
    match canonical_reason(response.status) {
        Some(reason) => append_str(&mut buf, reason.as_str()),
        None => {
            let empty = String::new();
            append_str(&mut buf, empty.as_str());
        },
    }
    append_str(&mut buf, "\r\n");
    let ghost hv = pairs_view(response.headers@);
    let ghost start = buf@;
    let mut i: usize = 0;
    assert(hv.take(0) =~= seq![]);
    assert(start =~= start + header_block(hv.take(0)));
    while i < response.headers.len()
        invariant
            i <= response.headers.len(),
            hv == pairs_view(response.headers@),
            buf@ == start + header_block(hv.take(i as int)),
        decreases response.headers.len() - i,
    {
        let (name, value) = &response.headers[i];
        append_str(&mut buf, name.as_str());
        append_str(&mut buf, ": ");
        append_str(&mut buf, value.as_str());
        append_str(&mut buf, "\r\n");
        assert(hv.take(i + 1).drop_last() =~= hv.take(i as int));
        assert(hv.take(i + 1).last() == (name@, value@));
        i = i + 1;
        assert(buf@ =~= start + header_block(hv.take(i as int)));
    }
    assert(hv.take(i as int) =~= hv);
    append_str(&mut buf, "\r\n");
    assert(buf@ =~= wire_head(response@));
    buf
}

/// Writes a buffered response: its head followed by its body.
pub fn send_response(response: &Response) -> (r: Vec<u8>)
    ensures
        r@ == wire_head(response@) + response@.body,
{
    let mut buf = response_head(response);
    append_bytes(&mut buf, response.body.as_slice());
    buf
}

/// The text of the canned body of an error status.
pub open spec fn error_message(status: u16) -> Seq<char> {
    if status == 400 {
        "Bad request"@
    } else if status == 403 {
        "Forbidden"@
    } else if status == 404 {
        "Not found"@
    } else if status == 405 {
        "Method not allowed"@
    } else if status == 500 {
        "Internal server error"@
    } else if status == 502 {
        "Bad gateway"@
    } else {
        "Unknown error"@
    }
}

/// A header pair from two strings.
fn header(name: &str, value: String) -> (r: (String, String))
    ensures
        r.0@ == name@,
        r.1@ == value@,
{
    (name.to_string(), value)
}

/// The canned response of an error status: the status, a short message as
/// body, and its length.
pub fn error_response(status: u16) -> (r: Response)
    ensures
        r@.status == status,
        r@.body == utf8(error_message(status)),
        r@.headers == seq![("Content-Length"@, decimal_chars(r@.body.len()))],
{
    let msg = if status == 400 {
        "Bad request"
    } else if status == 403 {
        "Forbidden"
    } else if status == 404 {
        "Not found"
    } else if status == 405 {
        "Method not allowed"
    } else if status == 500 {
        "Internal server error"
    } else if status == 502 {
        "Bad gateway"
    } else {
        "Unknown error"
    };
    let mut body: Vec<u8> = Vec::new();
    append_str(&mut body, msg);
    let mut headers: Vec<(String, String)> = Vec::new();
    headers.push(header("Content-Length", decimal_string(body.len() as u64)));
    let r = Response { status, headers, body };
    assert(r@.headers =~= seq![("Content-Length"@, decimal_chars(r@.body.len()))]);
    r
}

/// A `302 Found` to `location`, with an empty body.
pub fn redirect_response(location: String) -> (r: Response)
    ensures
        r@.status == FOUND,
        r@.body == Seq::<u8>::empty(),
        r@.headers == seq![("Location"@, location@), ("Content-Length"@, decimal_chars(0))],
{
    let mut headers: Vec<(String, String)> = Vec::new();
    headers.push(header("Location", location));
    headers.push(header("Content-Length", decimal_string(0)));
    let r = Response { status: FOUND, headers, body: Vec::new() };
    assert(r@.headers =~= seq![("Location"@, location@), ("Content-Length"@, decimal_chars(0))]);
    r
}

/// The head of a whole-file response: `200 OK`, the file's length and its
/// guessed type; the body is streamed separately.
pub fn file_response(file_path: &str, content_length: u64) -> (r: Response)
    ensures
        r@.status == OK,
        r@.body == Seq::<u8>::empty(),
        r@.headers == seq![
            ("Content-Length"@, decimal_chars(content_length as nat)),
            ("Content-Type"@, mime_type_of(file_path@)),
        ],
{
    let mut headers: Vec<(String, String)> = Vec::new();
    headers.push(header("Content-Length", decimal_string(content_length)));
    headers.push(header("Content-Type", guess_mime_type(file_path)));
    let r = Response { status: OK, headers, body: Vec::new() };
    assert(r@.headers =~= seq![
        ("Content-Length"@, decimal_chars(content_length as nat)),
        ("Content-Type"@, mime_type_of(file_path@)),
    ]);
    r
}

/// The value of a `Content-Range` header: `bytes <start>-<end>/<size>`.
pub open spec fn content_range(start: u64, end: u64, size: u64) -> Seq<char> {
    "bytes "@ + decimal_chars(start as nat) + "-"@ + decimal_chars(end as nat) + "/"@
        + decimal_chars(size as nat)
}

/// The head of a ranged file response: `206 Partial Content`, the length
/// of the range, the range itself and the guessed type.
pub fn ranged_file_response(file_path: &str, file_size: u64, range: (u64, u64)) -> (r: Response)
    requires
        range.0 <= range.1 < file_size,
    ensures
        r@.status == PARTIAL_CONTENT,
        r@.body == Seq::<u8>::empty(),
        r@.headers == seq![
            ("Content-Length"@, decimal_chars((range.1 - range.0 + 1) as nat)),
            ("Content-Range"@, content_range(range.0, range.1, file_size)),
            ("Content-Type"@, mime_type_of(file_path@)),
        ],
{
    let (start, end) = range;
    let content_length = end - start + 1;
    let mut cr = "bytes ".to_string();
    append_decimal(&mut cr, start);
    cr.append("-");
    append_decimal(&mut cr, end);
    cr.append("/");
    append_decimal(&mut cr, file_size);
    assert(cr@ =~= content_range(start, end, file_size));
    let mut headers: Vec<(String, String)> = Vec::new();
    headers.push(header("Content-Length", decimal_string(content_length)));
    headers.push(header("Content-Range", cr));
    headers.push(header("Content-Type", guess_mime_type(file_path)));
    let r = Response { status: PARTIAL_CONTENT, headers, body: Vec::new() };
    assert(r@.headers =~= seq![
        ("Content-Length"@, decimal_chars((range.1 - range.0 + 1) as nat)),
        ("Content-Range"@, content_range(range.0, range.1, file_size)),
        ("Content-Type"@, mime_type_of(file_path@)),
    ]);
    r
}

/// The header lines other than `Content-Length`.
pub open spec fn without_length(hs: Seq<(Seq<char>, Seq<char>)>) -> Seq<(Seq<char>, Seq<char>)>
    decreases hs.len(),
{
    if hs.len() == 0 {
        seq![]
    } else {
        let rest = without_length(hs.drop_last());
        if eq_ignore_case(hs.last().0, "Content-Length"@) {
            rest
        } else {
            rest.push(hs.last())
        }
    }
}

/// The head of a streamed file response: as given, or, for a client that
/// accepts gzip, without its length and announcing a gzip-encoded,
/// chunked body.
pub fn streamed_response(response: Response, gzip: bool) -> (r: Response)
    ensures
        r@.status == response@.status,
        r@.body == response@.body,
        !gzip ==> r@.headers == response@.headers,
        gzip ==> r@.headers == without_length(response@.headers) + seq![
            ("Content-Encoding"@, "gzip"@),
            ("Transfer-Encoding"@, "chunked"@),
        ],
{
    if !gzip {
        return response;
    }
    let ghost hv = pairs_view(response.headers@);
    let mut headers: Vec<(String, String)> = Vec::new();
    let mut i: usize = 0;
    assert(hv.take(0) =~= seq![]);
    while i < response.headers.len()
        invariant
            i <= response.headers.len(),
            hv == pairs_view(response.headers@),
            pairs_view(headers@) == without_length(hv.take(i as int)),
        decreases response.headers.len() - i,
    {
        assert(hv.take(i + 1).drop_last() =~= hv.take(i as int));
        let (name, value) = &response.headers[i];
        assert(hv.take(i + 1).last() == (name@, value@));
        if !str_eq_ignore_case(name.as_str(), "Content-Length") {
            let ghost before = pairs_view(headers@);
            headers.push((name.clone(), value.clone()));
            assert(pairs_view(headers@) =~= before.push((name@, value@)));
        }
        i = i + 1;
    }
    assert(hv.take(i as int) =~= hv);
    let ghost kept = pairs_view(headers@);
    headers.push(header("Content-Encoding", "gzip".to_string()));
    headers.push(header("Transfer-Encoding", "chunked".to_string()));
    assert(pairs_view(headers@) =~= kept + seq![
        ("Content-Encoding"@, "gzip"@),
        ("Transfer-Encoding"@, "chunked"@),
    ]);
    Response { status: response.status, headers, body: response.body }
}

} // verus!
