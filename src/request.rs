//! Inbound requests: the head parser, the request model, header lookup,
//! `Range` parsing and the serialization sent upstream.
use vstd::prelude::*;

use crate::error::{response_error, CbltError};
use crate::text::{
    decimal_chars, is_digit, lemma_decimal_round_trip, lemma_unsigned_bounds, unsigned_digits,
    append_bytes, append_str, bytes_chars, chars_of, chars_of_bytes, contains, contains_str, eq_ignore_case,
    find_from, occurs_at, parse_unsigned, push_char, same_prefix, str_eq_ignore_case,
    unsigned_of, utf8,
};
use crate::uri::{opt_chars, parse_uri, uri_of};

verus! {

/// Size of the buffer a connection starts reading into.
pub const BUF_SIZE: usize = 8192;

/// The most headers a request may carry.
pub const HEADER_BUF_SIZE: usize = 32;

/// Status of a malformed request.
pub const BAD_REQUEST: u16 = 400;

/// Status of a `Range` that the file cannot satisfy.
pub const RANGE_NOT_SATISFIABLE: u16 = 416;

/// One header line: its name and raw value.
#[derive(Debug, Clone)]
pub struct Header {
    pub name: String,
    pub value: Vec<u8>,
}

/// The headers as (name, value) pairs.
pub open spec fn headers_view(h: Seq<Header>) -> Seq<(Seq<char>, Seq<u8>)> {
    h.map_values(|x: Header| (x.name@, x.value@))
}

/// What the head parser read from a complete request head.
#[derive(Debug)]
pub struct RequestHead {
    pub method: Option<String>,
    pub path: Option<String>,
    pub version: Option<u8>,
    pub headers: Vec<Header>,
    /// Length of the head, terminator included.
    pub len: usize,
}

/// Outcome of parsing a request head.
#[derive(Debug)]
pub enum HeadParse {
    Complete(RequestHead),
    Partial,
    Invalid,
}

/// A request head as plain values.
pub struct HeadView {
    pub method: Option<Seq<char>>,
    pub path: Option<Seq<char>>,
    pub version: Option<u8>,
    pub headers: Seq<(Seq<char>, Seq<u8>)>,
    pub len: nat,
}

/// Outcome of parsing a request head, as plain values.
pub enum HeadParseView {
    Complete(HeadView),
    Partial,
    Invalid,
}

impl View for HeadParse {
    type V = HeadParseView;

    open spec fn view(&self) -> HeadParseView {
        match self {
            HeadParse::Complete(h) => HeadParseView::Complete(
                HeadView {
                    method: opt_chars(h.method),
                    path: opt_chars(h.path),
                    version: h.version,
                    headers: headers_view(h.headers@),
                    len: h.len as nat,
                },
            ),
            HeadParse::Partial => HeadParseView::Partial,
            HeadParse::Invalid => HeadParseView::Invalid,
        }
    }
}

/// What httparse reads from the start of a buffer, allowing at most
/// `max_headers` headers.
pub uninterp spec fn request_head_of(buf: Seq<u8>, max_headers: usize) -> HeadParseView;

/// Relies on `httparse::Request::parse`: the method, target, version and
/// headers of a complete head and its length, or that the head is
/// incomplete, or invalid (including more than `max_headers` headers).
#[verifier::external_body]
fn parse_request_head(buf: &[u8], max_headers: usize) -> (r: HeadParse)
    ensures
        r@ == request_head_of(buf@, max_headers),
{
    let mut headers = vec![httparse::EMPTY_HEADER; max_headers];
    let mut req = httparse::Request::new(&mut headers);
    match req.parse(buf) {
        Ok(httparse::Status::Complete(len)) => HeadParse::Complete(RequestHead {
            method: req.method.map(|m| m.to_string()),
            path: req.path.map(|p| p.to_string()),
            version: req.version,
            headers: req.headers.iter().map(|h| Header { name: h.name.to_string(), value: h.value.to_vec() }).collect(),
            len,
        }),
        Ok(httparse::Status::Partial) => HeadParse::Partial,
        Err(_) => HeadParse::Invalid,
    }
}

/// A parsed request.
#[derive(Debug)]
pub struct Request {
    pub method: String,
    /// The path of the request target, without its query.
    pub path: String,
    /// The path and query of the request target, if it has them.
    pub path_and_query: Option<String>,
    /// The minor version of HTTP/1.x.
    pub version: u8,
    pub headers: Vec<Header>,
    pub body: Vec<u8>,
}

/// A request as plain values.
pub struct RequestView {
    pub method: Seq<char>,
    pub path: Seq<char>,
    pub path_and_query: Option<Seq<char>>,
    pub version: u8,
    pub headers: Seq<(Seq<char>, Seq<u8>)>,
    pub body: Seq<u8>,
}

impl View for Request {
    type V = RequestView;

    open spec fn view(&self) -> RequestView {
        RequestView {
            method: self.method@,
            path: self.path@,
            path_and_query: opt_chars(self.path_and_query),
            version: self.version,
            headers: headers_view(self.headers@),
            body: self.body@,
        }
    }
}

/// Whether `c` is whitespace that `str::trim` removes from ASCII text.
pub open spec fn is_ascii_ws(c: char) -> bool {
    c == ' ' || c == '\t' || c == '\n' || c == '\r' || c == '\x0c'
}

/// `s` without leading whitespace.
pub open spec fn trim_start(s: Seq<char>) -> Seq<char>
    decreases s.len(),
{
    if s.len() > 0 && is_ascii_ws(s[0]) {
        trim_start(s.drop_first())
    } else {
        s
    }
}

/// `s` without trailing whitespace.
pub open spec fn trim_end(s: Seq<char>) -> Seq<char>
    decreases s.len(),
{
    if s.len() > 0 && is_ascii_ws(s.last()) {
        trim_end(s.drop_last())
    } else {
        s
    }
}

/// The `Content-Length` that a header list gives: the last such header
/// whose value, trimmed, is a decimal number.
pub open spec fn content_length_of(hs: Seq<(Seq<char>, Seq<u8>)>) -> Option<usize>
    decreases hs.len(),
{
    if hs.len() == 0 {
        None
    } else {
        let (name, value) = hs.last();
        match unsigned_of(trim_end(trim_start(bytes_chars(value))), usize::MAX as int) {
            Some(n) if eq_ignore_case(name, "Content-Length"@) => Some(n as usize),
            _ => content_length_of(hs.drop_last()),
        }
    }
}

/// Reads a header value as a decimal length, ignoring surrounding whitespace.
fn parse_length(value: &Vec<u8>) -> (r: Option<usize>)
    ensures
        match unsigned_of(trim_end(trim_start(bytes_chars(value@))), usize::MAX as int) {
            Some(n) => r == Some(n as usize),
            None => r is None,
        },
{
    let c = chars_of_bytes(value);
    let mut lo: usize = 0;
    assert(c@.subrange(0, c.len() as int) =~= c@);
    while lo < c.len() && (c[lo] == ' ' || c[lo] == '\t' || c[lo] == '\n' || c[lo] == '\r' || c[lo]
        == '\x0c')
        invariant
            lo <= c.len(),
            trim_start(c@.subrange(lo as int, c.len() as int)) == trim_start(c@),
        decreases c.len() - lo,
    {
        assert(c@.subrange(lo + 1, c.len() as int) =~= c@.subrange(lo as int, c.len() as int).drop_first());
        lo = lo + 1;
    }
    let ghost t = c@.subrange(lo as int, c.len() as int);
    assert(trim_start(c@) == t);
    let mut hi: usize = c.len();
    assert(t.subrange(0, (hi - lo) as int) =~= t);
    while hi > lo && (c[hi - 1] == ' ' || c[hi - 1] == '\t' || c[hi - 1] == '\n' || c[hi - 1]
        == '\r' || c[hi - 1] == '\x0c')
        invariant
            lo <= hi <= c.len(),
            t == c@.subrange(lo as int, c.len() as int),
            trim_end(c@.subrange(lo as int, hi as int)) == trim_end(t),
        decreases hi,
    {
        assert(c@.subrange(lo as int, hi - 1) =~= c@.subrange(lo as int, hi as int).drop_last());
        hi = hi - 1;
    }
    assert(trim_end(t) == c@.subrange(lo as int, hi as int));
    assert(usize::MAX as u64 as int == usize::MAX as int);
    let ghost u = unsigned_of(c@.subrange(lo as int, hi as int), usize::MAX as int);
    assert(u == unsigned_of(trim_end(trim_start(bytes_chars(value@))), usize::MAX as int));
    match parse_unsigned(&c, lo, hi, usize::MAX as u64) {
        Some(n) => {
            Some(n as usize)
        },
        None => None,
    }
}

/// Finds the `Content-Length` of a header list.
pub fn content_length(headers: &Vec<Header>) -> (r: Option<usize>)
    ensures
        r == content_length_of(headers_view(headers@)),
{
    let ghost hv = headers_view(headers@);
    let mut i = headers.len();
    assert(hv.take(i as int) =~= hv);
    while i > 0
        invariant
            i <= headers.len(),
            hv == headers_view(headers@),
            content_length_of(hv) == content_length_of(hv.take(i as int)),
        decreases i,
    {
        let h = &headers[i - 1];
        assert(hv.take(i as int).drop_last() =~= hv.take(i - 1));
        assert(hv.take(i as int).last() == (h.name@, h.value@));
        if let Some(n) = parse_length(&h.value) {
            if str_eq_ignore_case(h.name.as_str(), "Content-Length") {
                return Some(n);
            }
        }
        i = i - 1;
    }
    assert(hv.take(0) =~= seq![]);
    None
}

/// The request that a buffer holds: `Ok(None)` while its head is
/// incomplete; refused where httparse refuses the head, where the version
/// is neither HTTP/1.0 nor HTTP/1.1, or where the target is no URI. With a
/// `Content-Length`, the bytes after the head start the body.
pub open spec fn request_parse_of(buf: Seq<u8>) -> Result<Option<(RequestView, Option<usize>)>, ()> {
    match request_head_of(buf, HEADER_BUF_SIZE) {
        HeadParseView::Partial => Ok(None),
        HeadParseView::Invalid => Err(()),
        HeadParseView::Complete(h) => {
            if h.len > buf.len() || h.method is None || h.path is None || !(h.version
                == Some(0u8) || h.version == Some(1u8)) {
                Err(())
            } else {
                match uri_of(h.path->0) {
                    None => Err(()),
                    Some(u) => {
                        let cl = content_length_of(h.headers);
                        Ok(
                            Some(
                                (
                                    RequestView {
                                        method: h.method->0,
                                        path: u.path,
                                        path_and_query: u.path_and_query,
                                        version: h.version->0,
                                        headers: h.headers,
                                        body: if cl is Some {
                                            buf.subrange(h.len as int, buf.len() as int)
                                        } else {
                                            seq![]
                                        },
                                    },
                                    cl,
                                ),
                            ),
                        )
                    },
                }
            }
        },
    }
}

/// A refusal of a malformed request.
fn bad_request() -> (r: CbltError)
    ensures
        r is RequestError && r->RequestError_status_code == BAD_REQUEST,
{
    CbltError::RequestError { details: "Bad request".to_string(), status_code: BAD_REQUEST }
}

/// Parses the request at the start of `buf`: `Ok(None)` while more bytes
/// are needed, the request and its announced body length once the head is
/// complete, or a `400` error for a malformed head. With a
/// `Content-Length`, the body holds the bytes read past the head so far.
pub fn parse_request_headers(buf: &Vec<u8>) -> (r: Result<Option<(Request, Option<usize>)>, CbltError>)
    ensures
        match request_parse_of(buf@) {
            Err(()) => r is Err && r->Err_0 is RequestError && r->Err_0->RequestError_status_code
                == BAD_REQUEST,
            Ok(None) => r is Ok && r->Ok_0 is None,
            Ok(Some((v, cl))) => match r {
                Ok(Some((req, len))) => req@ == v && len == cl,
                _ => false,
            },
        },
{
    let head = match parse_request_head(buf.as_slice(), HEADER_BUF_SIZE) {
        HeadParse::Partial => {
            return Ok(None);
        },
        HeadParse::Invalid => {
            return Err(bad_request());
        },
        HeadParse::Complete(h) => h,
    };
    if head.len > buf.len() {
        return Err(bad_request());
    }
    let method = match head.method {
        Some(m) => m,
        None => {
            return Err(bad_request());
        },
    };
    let target = match head.path {
        Some(p) => p,
        None => {
            return Err(bad_request());
        },
    };
    let version = match head.version {
        Some(v) => v,
        None => {
            return Err(bad_request());
        },
    };
    if version != 0 && version != 1 {
        return Err(bad_request());
    }
    let parts = match parse_uri(target.as_str()) {
        Some(u) => u,
        None => {
            return Err(bad_request());
        },
    };
    let cl = content_length(&head.headers);
    let mut body: Vec<u8> = Vec::new();
    if cl.is_some() {
        let mut i = head.len;
        while i < buf.len()
            invariant
                head.len <= i <= buf.len(),
                body@ =~= buf@.subrange(head.len as int, i as int),
            decreases buf.len() - i,
        {
            body.push(buf[i]);
            i = i + 1;
        }
    }
    let request = Request {
        method,
        path: parts.path,
        path_and_query: parts.path_and_query,
        version,
        headers: head.headers,
        body,
    };
    Ok(Some((request, cl)))
}

/// The value of the first header named `name`, ignoring ASCII case.
pub open spec fn find_header(hs: Seq<(Seq<char>, Seq<u8>)>, name: Seq<char>) -> Option<Seq<u8>>
    decreases hs.len(),
{
    if hs.len() == 0 {
        None
    } else if eq_ignore_case(hs[0].0, name) {
        Some(hs[0].1)
    } else {
        find_header(hs.drop_first(), name)
    }
}

/// The value of the first header named `name`, ignoring ASCII case.
pub fn get_header<'a>(headers: &'a Vec<Header>, name: &str) -> (r: Option<&'a Vec<u8>>)
    ensures
        match find_header(headers_view(headers@), name@) {
            Some(v) => r is Some && r->0@ == v,
            None => r is None,
        },
{
    let ghost hv = headers_view(headers@);
    let mut i: usize = 0;
    assert(hv.skip(0) =~= hv);
    while i < headers.len()
        invariant
            i <= headers.len(),
            hv == headers_view(headers@),
            find_header(hv, name@) == find_header(hv.skip(i as int), name@),
        decreases headers.len() - i,
    {
        assert(hv.skip(i as int)[0] == (headers@[i as int].name@, headers@[i as int].value@));
        assert(hv.skip(i as int).drop_first() =~= hv.skip(i + 1));
        if str_eq_ignore_case(headers[i].name.as_str(), name) {
            return Some(&headers[i].value);
        }
        i = i + 1;
    }
    None
}

/// Whether a byte is visible ASCII or a tab.
pub open spec fn is_visible(b: u8) -> bool {
    (32 <= b && b < 127) || b == 9
}

/// A header value as text: its characters where every byte is visible
/// ASCII, and empty otherwise.
pub open spec fn header_str(v: Seq<u8>) -> Seq<char> {
    if forall|i: int| 0 <= i < v.len() ==> is_visible(#[trigger] v[i]) {
        bytes_chars(v)
    } else {
        seq![]
    }
}

/// A header value as text; empty where it holds other than visible ASCII.
pub fn header_text(v: &Vec<u8>) -> (r: String)
    ensures
        r@ == header_str(v@),
{
    let mut out = String::new();
    let mut i: usize = 0;
    while i < v.len()
        invariant
            i <= v.len(),
            out@ == bytes_chars(v@.take(i as int)),
            forall|j: int| 0 <= j < i ==> is_visible(#[trigger] v@[j]),
        decreases v.len() - i,
    {
        let b = v[i];
        if !((32 <= b && b < 127) || b == 9) {
            assert(!is_visible(v@[i as int]));
            return String::new();
        }
        push_char(&mut out, b as char);
        i = i + 1;
        assert(out@ =~= bytes_chars(v@.take(i as int)));
    }
    assert(v@.take(i as int) =~= v@);
    out
}

/// The text of the first header named `name`; empty where there is none.
pub open spec fn header_text_of(r: RequestView, name: Seq<char>) -> Seq<char> {
    match find_header(r.headers, name) {
        Some(v) => header_str(v),
        None => seq![],
    }
}

impl Request {
    /// The text of the first header named `name`; empty where there is none
    /// or where it is not visible ASCII.
    pub fn header_str(&self, name: &str) -> (r: String)
        ensures
            r@ == header_text_of(self@, name@),
    {
        match get_header(&self.headers, name) {
            Some(v) => header_text(v),
            None => String::new(),
        }
    }
}

/// Whether a cookie header names `name`: some `;`-separated piece of it
/// contains `name`.
pub open spec fn cookie_present(cookies: Seq<char>, name: Seq<char>) -> bool {
    exists|i: int|
        occurs_at(cookies, name, i) && forall|k: int|
            i <= k < i + name.len() ==> cookies[k] != ';'
}

/// Whether the request's `Cookie` header names `name`.
pub fn has_cookie(request: &Request, name: &str) -> (r: bool)
    ensures
        r == cookie_present(header_text_of(request@, "Cookie"@), name@),
{
    let text = request.header_str("Cookie");
    let h = chars_of(text.as_str());
    let n = chars_of(name);
    let mut from: usize = 0;
    loop
        invariant
            h@ == header_text_of(request@, "Cookie"@),
            n@ == name@,
            forall|i: int|
                0 <= i < from ==> !(occurs_at(h@, n@, i) && forall|k: int|
                    i <= k < i + n@.len() ==> h@[k] != ';'),
        decreases h.len() + 1 - from,
    {
        match find_from(&h, &n, from) {
            None => {
                return false;
            },
            Some(i) => {
                let mut k = i;
                let end = i + n.len();
                while k < end && h[k] != ';'
                    invariant
                        i <= k <= end <= h.len(),
                        forall|j: int| i <= j < k ==> h@[j] != ';',
                    decreases end - k,
                {
                    k = k + 1;
                }
                if k == end {
                    return true;
                }
                if i + 1 > h.len() {
                    return false;
                }
                from = i + 1;
            },
        }
    }
}

/// Whether the client accepts gzip: its `Accept-Encoding` header mentions it.
pub open spec fn accepts_gzip(r: RequestView) -> bool {
    contains(header_text_of(r, "Accept-Encoding"@), "gzip"@)
}

/// Whether the client accepts a gzip-encoded body.
pub fn gzip_support_detect(request: &Request) -> (r: bool)
    ensures
        r == accepts_gzip(request@),
{
    let text = request.header_str("Accept-Encoding");
    contains_str(text.as_str(), "gzip")
}

/// The bytes of the header lines, each `name: value` and a line break.
pub open spec fn header_lines(hs: Seq<(Seq<char>, Seq<u8>)>) -> Seq<u8>
    decreases hs.len(),
{
    if hs.len() == 0 {
        seq![]
    } else {
        header_lines(hs.drop_last()) + utf8(hs.last().0) + utf8(": "@) + hs.last().1 + utf8(
            "\r\n"@,
        )
    }
}

/// The request as sent upstream: the request line with the received path
/// and query (`/` where there is none), the headers as received, a blank
/// line and the body.
pub open spec fn wire_request(r: RequestView) -> Seq<u8> {
    utf8(r.method) + utf8(" "@) + utf8(
        match r.path_and_query {
            Some(pq) => pq,
            None => "/"@,
        },
    ) + utf8(" HTTP/1.1\r\n"@) + header_lines(r.headers) + utf8("\r\n"@) + r.body
}

/// Serializes a request for the upstream connection.
pub fn request_to_bytes(request: &Request) -> (r: Vec<u8>)
    ensures
        r@ == wire_request(request@),
{
    let mut buf: Vec<u8> = Vec::new();
    append_str(&mut buf, request.method.as_str());
    append_str(&mut buf, " ");
    match &request.path_and_query {
        Some(pq) => append_str(&mut buf, pq.as_str()),
        None => append_str(&mut buf, "/"),
    }
    append_str(&mut buf, " HTTP/1.1\r\n");
    let ghost hv = headers_view(request.headers@);
    let ghost start = buf@;
    let mut i: usize = 0;
    assert(hv.take(0) =~= seq![]);
    assert(start =~= start + header_lines(hv.take(0)));
    while i < request.headers.len()
        invariant
            i <= request.headers.len(),
            hv == headers_view(request.headers@),
            buf@ == start + header_lines(hv.take(i as int)),
        decreases request.headers.len() - i,
    {
        let h = &request.headers[i];
        append_str(&mut buf, h.name.as_str());
        append_str(&mut buf, ": ");
        append_bytes(&mut buf, h.value.as_slice());
        append_str(&mut buf, "\r\n");
        assert(hv.take(i + 1).drop_last() =~= hv.take(i as int));
        assert(hv.take(i + 1).last() == (h.name@, h.value@));
        i = i + 1;
        assert(buf@ =~= start + header_lines(hv.take(i as int)));
    }
    assert(hv.take(i as int) =~= hv);
    append_str(&mut buf, "\r\n");
    append_bytes(&mut buf, request.body.as_slice());
    assert(buf@ =~= wire_request(request@));
    buf
}

/// How often `c` occurs in `s`.
pub open spec fn count_char(s: Seq<char>, c: char) -> nat
    decreases s.len(),
{
    if s.len() == 0 {
        0
    } else {
        count_char(s.drop_last(), c) + if s.last() == c {
            1nat
        } else {
            0nat
        }
    }
}

/// The first position of `c` in `s`, or `-1`.
pub open spec fn first_index(s: Seq<char>, c: char) -> int
    decreases s.len(),
{
    if s.len() == 0 {
        -1
    } else {
        let p = first_index(s.drop_last(), c);
        if p >= 0 {
            p
        } else if s.last() == c {
            s.len() - 1
        } else {
            -1
        }
    }
}

/// The byte range that a `Range` header selects in a file of `size` bytes,
/// or the status of the refusal: `400` for a header that is not
/// `bytes=<start>-<end>`, `416` for a range the file cannot satisfy. A
/// missing end means the rest of the file; a missing start means the last
/// `end` bytes.
pub open spec fn range_of(h: Seq<char>, size: u64) -> Result<(u64, u64), u16> {
    if !(h.len() >= 6 && h.take(6) == "bytes="@) {
        Err(BAD_REQUEST)
    } else {
        let rest = h.subrange(6, h.len() as int);
        if count_char(rest, '-') != 1 {
            Err(BAD_REQUEST)
        } else {
            let d = first_index(rest, '-');
            let a = unsigned_of(rest.take(d), u64::MAX as int);
            let b = unsigned_of(rest.subrange(d + 1, rest.len() as int), u64::MAX as int);
            match (a, b) {
                (Some(s), Some(e)) => if s <= e && e < size {
                    Ok((s as u64, e as u64))
                } else {
                    Err(RANGE_NOT_SATISFIABLE)
                },
                (Some(s), None) => if s < size {
                    Ok((s as u64, (size - 1) as u64))
                } else {
                    Err(RANGE_NOT_SATISFIABLE)
                },
                (None, Some(e)) => if e != 0 && e <= size {
                    Ok(((size - e) as u64, (size - 1) as u64))
                } else {
                    Err(RANGE_NOT_SATISFIABLE)
                },
                (None, None) => Err(RANGE_NOT_SATISFIABLE),
            }
        }
    }
}

/// Parses a `Range` header against a file of `file_size` bytes into the
/// first and last byte of the range.
pub fn parse_range_header(range_header: &str, file_size: u64) -> (r: Result<(u64, u64), CbltError>)
    ensures
        match range_of(range_header@, file_size) {
            Ok(p) => r == Ok::<(u64, u64), CbltError>(p),
            Err(code) => r is Err && r->Err_0.is_response(code),
        },
{
    let h = chars_of(range_header);
    let prefix = chars_of("bytes=");
    proof {
        reveal_strlit("bytes=");
    }
    if !(h.len() >= 6 && same_prefix(&h, &prefix, 6)) {
        assert(prefix@.take(6) =~= "bytes="@);
        return Err(response_error("Invalid Range header", BAD_REQUEST));
    }
    assert(prefix@.take(6) =~= "bytes="@);
    let ghost rest = h@.subrange(6, h.len() as int);
    let mut count: usize = 0;
    let mut dash: usize = 0;
    let mut i: usize = 6;
    assert(rest.take(0) =~= seq![]);
    while i < h.len()
        invariant
            6 <= i <= h.len(),
            rest == h@.subrange(6, h.len() as int),
            count as nat == count_char(rest.take(i - 6), '-'),
            count <= i - 6,
            count > 0 ==> 6 <= dash < i && dash - 6 == first_index(rest.take(i - 6), '-'),
            count == 0 ==> first_index(rest.take(i - 6), '-') == -1,
        decreases h.len() - i,
    {
        assert(rest.take(i - 5).drop_last() =~= rest.take(i - 6));
        assert(rest.take(i - 5).last() == h@[i as int]);
        if h[i] == '-' {
            if count == 0 {
                dash = i;
            }
            count = count + 1;
        }
        i = i + 1;
    }
    assert(rest.take(i - 6) =~= rest);
    if count != 1 {
        return Err(response_error("Invalid Range header format", BAD_REQUEST));
    }
    assert(rest.take(dash - 6) =~= h@.subrange(6, dash as int));
    assert(rest.subrange(dash - 5, rest.len() as int) =~= h@.subrange(dash + 1, h.len() as int));
    let start = parse_unsigned(&h, 6, dash, u64::MAX);
    let end = parse_unsigned(&h, dash + 1, h.len(), u64::MAX);
    match (start, end) {
        (Some(s), Some(e)) => {
            if s <= e && e < file_size {
                return Ok((s, e));
            }
        },
        (Some(s), None) => {
            if s < file_size {
                return Ok((s, file_size - 1));
            }
        },
        (None, Some(e)) => {
            if e != 0 && e <= file_size {
                return Ok((file_size - e, file_size - 1));
            }
        },
        (None, None) => {},
    }
    Err(response_error("Invalid Range header values", RANGE_NOT_SATISFIABLE))
}

/// Occurrences add up over a concatenation.
proof fn lemma_count_concat(x: Seq<char>, y: Seq<char>, c: char)
    ensures
        count_char(x + y, c) == count_char(x, c) + count_char(y, c),
    decreases y.len(),
{
    if y.len() > 0 {
        assert((x + y).drop_last() =~= x + y.drop_last());
        lemma_count_concat(x, y.drop_last(), c);
    } else {
        assert(x + y =~= x);
    }
}

/// Digits hold no `-`.
proof fn lemma_digits_no_dash(s: Seq<char>)
    requires
        forall|i: int| 0 <= i < s.len() ==> is_digit(#[trigger] s[i]),
    ensures
        count_char(s, '-') == 0,
        first_index(s, '-') == -1,
    decreases s.len(),
{
    if s.len() > 0 {
        assert(forall|i: int| 0 <= i < s.drop_last().len() ==> s.drop_last()[i] == s[i]);
        lemma_digits_no_dash(s.drop_last());
        assert(is_digit(s[s.len() - 1]));
    }
}

/// The first `-` after a run of digits is the one that ends the run.
proof fn lemma_dash_after_digits(a: Seq<char>, b: Seq<char>)
    requires
        forall|i: int| 0 <= i < a.len() ==> is_digit(#[trigger] a[i]),
    ensures
        first_index(a + seq!['-'] + b, '-') == a.len(),
    decreases b.len(),
{
    if b.len() > 0 {
        assert((a + seq!['-'] + b).drop_last() =~= a + seq!['-'] + b.drop_last());
        lemma_dash_after_digits(a, b.drop_last());
    } else {
        assert(a + seq!['-'] + b =~= a.push('-'));
        assert(a.push('-').drop_last() =~= a);
        lemma_digits_no_dash(a);
    }
}

/// A number's digits read back as the number.
proof fn lemma_unsigned_of_decimal(n: u64)
    ensures
        unsigned_of(decimal_chars(n as nat), u64::MAX as int) == Some(n as int),
{
    lemma_decimal_round_trip(n as nat);
    let d = decimal_chars(n as nat);
    assert(is_digit(d[0]));
    assert(unsigned_digits(d) == d);
}

/// A range within the file, written `bytes=<start>-<end>`, selects exactly
/// that range; and any range a header selects lies within the file, so the
/// ranged response states it as `bytes <start>-<end>/<size>` with length
/// `end - start + 1`.
pub proof fn lemma_range_correct(start: u64, end: u64, size: u64, h: Seq<char>)
    requires
        start <= end < size,
    ensures
        range_of("bytes="@ + decimal_chars(start as nat) + "-"@ + decimal_chars(end as nat), size)
            == Ok::<(u64, u64), u16>((start, end)),
        range_of(h, size) matches Ok((s, e)) ==> s <= e < size,
{
    reveal_strlit("bytes=");
    reveal_strlit("-");
    let a = decimal_chars(start as nat);
    let b = decimal_chars(end as nat);
    let w = "bytes="@ + a + "-"@ + b;
    lemma_decimal_round_trip(start as nat);
    lemma_decimal_round_trip(end as nat);
    assert(w.take(6) =~= "bytes="@);
    let rest = w.subrange(6, w.len() as int);
    assert(rest =~= a + seq!['-'] + b);
    lemma_count_concat(a + seq!['-'], b, '-');
    lemma_count_concat(a, seq!['-'], '-');
    lemma_digits_no_dash(a);
    lemma_digits_no_dash(b);
    assert(count_char(seq!['-'], '-') == 1) by {
        assert(seq!['-'].drop_last() =~= Seq::<char>::empty());
        assert(count_char(Seq::<char>::empty(), '-') == 0);
    }
    lemma_dash_after_digits(a, b);
    let d = first_index(rest, '-');
    assert(rest.take(d) =~= a);
    assert(rest.subrange(d + 1, rest.len() as int) =~= b);
    lemma_unsigned_of_decimal(start);
    lemma_unsigned_of_decimal(end);
    if h.len() >= 6 {
        let r = h.subrange(6, h.len() as int);
        let k = first_index(r, '-');
        lemma_unsigned_bounds(r.take(k), u64::MAX as int);
        lemma_unsigned_bounds(r.subrange(k + 1, r.len() as int), u64::MAX as int);
    }
}

} // verus!
