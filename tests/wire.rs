use cblt::chunked::{encode_chunk, last_chunk_bytes};
use cblt::error::CbltError;
use cblt::request::{
    content_length, gzip_support_detect, has_cookie, parse_range_header, parse_request_headers,
    request_to_bytes, Header, Request,
};
use cblt::response::{error_response, ranged_file_response, response_head, send_response, streamed_response, file_response};
use cblt::text::decimal_string;

fn parse(bytes: &[u8]) -> Result<Option<(Request, Option<usize>)>, CbltError> {
    parse_request_headers(&bytes.to_vec())
}

fn request(bytes: &[u8]) -> Request {
    parse(bytes).expect("well formed").expect("complete").0
}

fn text(b: &[u8]) -> String {
    String::from_utf8(b.to_vec()).expect("ascii")
}

fn is_status(e: &CbltError, code: u16) -> bool {
    match e {
        CbltError::ResponseError { status_code, .. } | CbltError::RequestError { status_code, .. } => *status_code == code,
        _ => false,
    }
}

#[test]
fn range_request_headers_and_slice() {
    let file: Vec<u8> = (0u8..100).collect();
    let (start, end) = parse_range_header("bytes=10-19", 100).expect("satisfiable");
    assert_eq!((start, end), (10, 19));
    let head = text(&response_head(&ranged_file_response("www/file.bin", 100, (start, end))));
    assert_eq!(
        head,
        "HTTP/1.1 206 Partial Content\r\nContent-Length: 10\r\nContent-Range: bytes 10-19/100\r\nContent-Type: application/octet-stream\r\n\r\n"
    );
    let body = &file[start as usize..=end as usize];
    assert_eq!(body, &(10u8..20).collect::<Vec<u8>>()[..]);
}

#[test]
fn range_forms() {
    assert_eq!(parse_range_header("bytes=90-", 100).unwrap(), (90, 99));
    assert_eq!(parse_range_header("bytes=-10", 100).unwrap(), (90, 99));
    assert_eq!(parse_range_header("bytes=-100", 100).unwrap(), (0, 99));
    assert_eq!(parse_range_header("bytes=0-0", 1).unwrap(), (0, 0));
}

#[test]
fn unsatisfiable_ranges() {
    for r in ["bytes=-0", "bytes=20-10", "bytes=0-100", "bytes=100-", "bytes=-101", "bytes=-", "bytes=a-b"] {
        let e = parse_range_header(r, 100).unwrap_err();
        assert!(is_status(&e, 416), "{}", r);
    }
    assert!(is_status(&parse_range_header("bytes=0-", 0).unwrap_err(), 416));
}

#[test]
fn malformed_ranges() {
    for r in ["items=0-1", "bytes=1-2-3", "bytes=12", "byte"] {
        let e = parse_range_header(r, 100).unwrap_err();
        assert!(is_status(&e, 400), "{}", r);
    }
}

#[test]
fn request_head_is_parsed() {
    let (req, len) = parse(b"POST /submit?x=1 HTTP/1.1\r\nHost: a.com\r\ncontent-length: 4\r\n\r\nbody").unwrap().unwrap();
    assert_eq!(req.method, "POST");
    assert_eq!(req.path, "/submit");
    assert_eq!(req.path_and_query.as_deref(), Some("/submit?x=1"));
    assert_eq!(req.version, 1);
    assert_eq!(len, Some(4));
    assert_eq!(req.body, b"body".to_vec());
    assert_eq!(req.header_str("HOST"), "a.com");
}

#[test]
fn body_without_length_is_dropped() {
    let (req, len) = parse(b"GET / HTTP/1.0\r\nHost: a\r\n\r\nextra").unwrap().unwrap();
    assert_eq!(len, None);
    assert!(req.body.is_empty());
    assert_eq!(req.version, 0);
}

#[test]
fn incomplete_and_empty_requests_need_more() {
    assert!(parse(b"GET / HTTP/1.1\r\nHost: a").unwrap().is_none());
    assert!(parse(b"").unwrap().is_none());
}

#[test]
fn malformed_request_is_bad_request() {
    let e = parse(b"GET / HTTP/1.1\r\nBad Header\r\n\r\n").unwrap_err();
    assert!(matches!(e, CbltError::RequestError { status_code: 400, .. }));
}

#[test]
fn too_many_headers_is_bad_request() {
    let mut raw = b"GET / HTTP/1.1\r\n".to_vec();
    for i in 0..33 {
        raw.extend_from_slice(format!("X-H{}: v\r\n", i).as_bytes());
    }
    raw.extend_from_slice(b"\r\n");
    assert!(matches!(parse(&raw), Err(CbltError::RequestError { status_code: 400, .. })));
    let mut ok = b"GET / HTTP/1.1\r\n".to_vec();
    for i in 0..32 {
        ok.extend_from_slice(format!("X-H{}: v\r\n", i).as_bytes());
    }
    ok.extend_from_slice(b"\r\n");
    assert!(parse(&ok).unwrap().is_some());
}

#[test]
fn last_valid_content_length_wins() {
    let hs = vec![
        Header { name: "Content-Length".to_string(), value: b" 12 ".to_vec() },
        Header { name: "CONTENT-LENGTH".to_string(), value: b"x".to_vec() },
        Header { name: "Other".to_string(), value: b"7".to_vec() },
    ];
    assert_eq!(content_length(&hs), Some(12));
    assert_eq!(content_length(&vec![]), None);
}

#[test]
fn request_serialization() {
    let req = request(b"GET /a?b=c HTTP/1.1\r\nHost: x\r\nContent-Length: 2\r\n\r\nhi");
    assert_eq!(text(&request_to_bytes(&req)), "GET /a?b=c HTTP/1.1\r\nHost: x\r\nContent-Length: 2\r\n\r\nhi");
}

#[test]
fn cookies_and_gzip() {
    let req = request(b"GET / HTTP/1.1\r\nCookie: a=1; session=2\r\nAccept-Encoding: br, gzip\r\n\r\n");
    assert!(has_cookie(&req, "session"));
    assert!(!has_cookie(&req, "missing"));
    assert!(!has_cookie(&req, "1; session"));
    assert!(gzip_support_detect(&req));
    let plain = request(b"GET / HTTP/1.1\r\n\r\n");
    assert!(!gzip_support_detect(&plain));
    assert!(!has_cookie(&plain, "session"));
    assert!(has_cookie(&plain, ""));
}

#[test]
fn chunks_on_the_wire() {
    let data = vec![b'x'; 26];
    let mut expected = b"1A\r\n".to_vec();
    expected.extend_from_slice(&data);
    expected.extend_from_slice(b"\r\n");
    assert_eq!(encode_chunk(&data), expected);
    assert_eq!(encode_chunk(b"HELLO"), b"5\r\nHELLO\r\n".to_vec());
    assert_eq!(last_chunk_bytes(), b"0\r\n\r\n".to_vec());
    let big = vec![0u8; 8192];
    assert_eq!(&encode_chunk(&big)[..6], b"2000\r\n");
}

#[test]
fn chunked_stream_reads_back() {
    let body = b"HELLO, chunked world".to_vec();
    let mut wire = Vec::new();
    for piece in body.chunks(6) {
        wire.extend_from_slice(&encode_chunk(piece));
    }
    wire.extend_from_slice(&last_chunk_bytes());
    let mut out = Vec::new();
    let mut rest = &wire[..];
    loop {
        let line_end = rest.windows(2).position(|w| w == b"\r\n").unwrap();
        let n = usize::from_str_radix(std::str::from_utf8(&rest[..line_end]).unwrap(), 16).unwrap();
        rest = &rest[line_end + 2..];
        if n == 0 {
            assert_eq!(rest, b"\r\n");
            break;
        }
        out.extend_from_slice(&rest[..n]);
        assert_eq!(&rest[n..n + 2], b"\r\n");
        rest = &rest[n + 2..];
    }
    assert_eq!(out, body);
}

#[test]
fn canned_error_bodies() {
    assert_eq!(text(&send_response(&error_response(400))), "HTTP/1.1 400 Bad Request\r\nContent-Length: 11\r\n\r\nBad request");
    assert_eq!(text(&send_response(&error_response(502))), "HTTP/1.1 502 Bad Gateway\r\nContent-Length: 11\r\n\r\nBad gateway");
    assert_eq!(text(&send_response(&error_response(500))), "HTTP/1.1 500 Internal Server Error\r\nContent-Length: 21\r\n\r\nInternal server error");
    assert_eq!(text(&send_response(&error_response(416))), "HTTP/1.1 416 Range Not Satisfiable\r\nContent-Length: 13\r\n\r\nUnknown error");
    assert_eq!(text(&send_response(&error_response(799))), "HTTP/1.1 799 \r\nContent-Length: 13\r\n\r\nUnknown error");
}

#[test]
fn gzip_head_drops_length() {
    let head = text(&response_head(&streamed_response(file_response("a.css", 10), true)));
    assert_eq!(head, "HTTP/1.1 200 OK\r\nContent-Type: text/css\r\nContent-Encoding: gzip\r\nTransfer-Encoding: chunked\r\n\r\n");
    let plain = text(&response_head(&streamed_response(file_response("a.css", 10), false)));
    assert_eq!(plain, "HTTP/1.1 200 OK\r\nContent-Length: 10\r\nContent-Type: text/css\r\n\r\n");
}

#[test]
fn decimal_numbers() {
    assert_eq!(decimal_string(0), "0");
    assert_eq!(decimal_string(10), "10");
    assert_eq!(decimal_string(u64::MAX), "18446744073709551615");
}
