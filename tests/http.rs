use http_server::error::HttpError;
use http_server::request::{parse_header_line, read_http_request, HttpRequest, HttpRequestMethod};
use http_server::response::{as_msg, error, HttpResponse, HttpResponseBuilder};
use http_server::route::{answer, dispatch, get_response, post_response, route, Action, Data, Handler, Upload, BUFFER_SIZE};
use http_server::scan::parse_until;
use http_server::text::{literal, parse_usize, push_decimal};

fn head(lines: &[&str]) -> HttpRequest {
    let mut q = read_http_request(lines[0].as_bytes()).ok().unwrap();
    for line in &lines[1..] {
        if !q.read_header_line(line.as_bytes()) {
            break;
        }
    }
    q
}

fn with_directory(dir: &str) -> Data {
    let mut d = Data::new();
    d.insert(dir.to_string());
    d
}

fn header_pairs(r: &HttpResponse) -> Vec<(String, String)> {
    r.headers()
        .iter()
        .map(|(k, v)| (String::from_utf8(k.clone()).unwrap(), String::from_utf8(v.clone()).unwrap()))
        .collect()
}

fn sent(a: Action) -> HttpResponse {
    match a {
        Action::Send(r) => r,
        _ => panic!("expected a response to send"),
    }
}

fn wire(r: &HttpResponse) -> Vec<u8> {
    let mut out = Vec::new();
    r.write_to_writer(&mut out).unwrap();
    out
}

#[test]
fn request_line_round_trip() {
    let q = head(&["GET /index.html HTTP/1.1\r\n", "Host: localhost:4221\r\n", "Accept: */*\r\n", "\r\n"]);
    assert_eq!(q.method, HttpRequestMethod::Get);
    assert_eq!(q.path, b"/index.html".to_vec());
    assert_eq!(q.headers.len(), 2);
    assert_eq!(q.header(b"Host").unwrap(), &b"localhost:4221".to_vec());
    assert_eq!(q.header(b"Accept").unwrap(), &b"*/*".to_vec());
    assert!(q.header(b"host").is_none());
}

#[test]
fn post_method_any_case() {
    let q = read_http_request(b"pOsT /files/a HTTP/1.1\r\n").ok().unwrap();
    assert_eq!(q.method, HttpRequestMethod::Post);
    assert_eq!(q.path, b"/files/a".to_vec());
}

#[test]
fn request_line_errors() {
    assert_eq!(read_http_request(b"").err(), Some(HttpError::MalformedRequest));
    assert_eq!(read_http_request(b"  \r\n").err(), Some(HttpError::MalformedRequest));
    assert_eq!(read_http_request(b"PUT / HTTP/1.1\r\n").err(), Some(HttpError::UnsupportedMethod));
    assert_eq!(read_http_request(b"GET\r\n").err(), Some(HttpError::MissingPath));
}

#[test]
fn header_last_one_wins() {
    let q = head(&["GET / HTTP/1.1\r\n", "X: 1\r\n", "X: 2\r\n", "\r\n"]);
    assert_eq!(q.header(b"X").unwrap(), &b"2".to_vec());
}

#[test]
fn header_line_without_separator_ends_head() {
    let mut q = read_http_request(b"GET / HTTP/1.1\r\n").ok().unwrap();
    assert!(q.read_header_line(b"A: b\r\n"));
    assert!(!q.read_header_line(b"junk\r\n"));
    assert_eq!(q.headers.len(), 1);
    assert_eq!(parse_header_line(b"K:: v: w\r\n"), Some((b"K:".to_vec(), b"v: w".to_vec())));
    assert_eq!(parse_header_line(b"\r\n"), None);
    assert_eq!(parse_header_line(b"Empty: \r\n"), None);
}

#[test]
fn echo_returns_suffix() {
    let q = head(&["GET /echo/abc HTTP/1.1\r\n", "\r\n"]);
    let r = sent(route(&q, &Data::new()).ok().unwrap());
    assert_eq!(r.status_code(), 200);
    assert_eq!(*r.body_bytes(), b"abc".to_vec());
    assert_eq!(
        header_pairs(&r),
        vec![
            ("Content-Type".to_string(), "text/plain".to_string()),
            ("Content-Length".to_string(), "3".to_string())
        ]
    );
    assert_eq!(
        wire(&r),
        b"HTTP/1.1 200 OK\r\nContent-Type: text/plain\r\nContent-Length: 3\r\n\r\nabc\r\n".to_vec()
    );
}

#[test]
fn echo_empty_suffix() {
    let q = head(&["GET /echo/ HTTP/1.1\r\n", "\r\n"]);
    let r = sent(route(&q, &Data::new()).ok().unwrap());
    assert_eq!(*r.body_bytes(), Vec::<u8>::new());
    assert_eq!(header_pairs(&r)[1].1, "0");
}

#[test]
fn echo_handler_short_path() {
    let q = head(&["GET /e HTTP/1.1\r\n", "\r\n"]);
    assert_eq!(Handler::Echo.respond(&q).err(), Some(HttpError::InvalidPath));
}

#[test]
fn user_agent_reflected() {
    let q = head(&["GET /user-agent HTTP/1.1\r\n", "User-Agent: foobar/1.2.3\r\n", "\r\n"]);
    let r = sent(route(&q, &Data::new()).ok().unwrap());
    assert_eq!(r.status_code(), 200);
    assert_eq!(*r.body_bytes(), b"foobar/1.2.3".to_vec());
    assert_eq!(header_pairs(&r), vec![("Content-Length".to_string(), "12".to_string())]);
}

#[test]
fn user_agent_absent() {
    let q = head(&["GET /user-agent HTTP/1.1\r\n", "\r\n"]);
    let r = sent(route(&q, &Data::new()).ok().unwrap());
    assert_eq!(r.status_code(), 200);
    assert!(r.body_bytes().is_empty());
}

#[test]
fn root_is_empty_success() {
    let q = head(&["GET / HTTP/1.1\r\n", "\r\n"]);
    let r = sent(route(&q, &Data::new()).ok().unwrap());
    assert_eq!(
        wire(&r),
        b"HTTP/1.1 200 OK\r\nContent-Type: text/plain\r\nContent-Length: 0\r\n\r\n\r\n".to_vec()
    );
}

#[test]
fn unknown_path_not_found() {
    for line in ["GET /nope HTTP/1.1\r\n", "POST /nope HTTP/1.1\r\n", "GET /echo HTTP/1.1\r\n"] {
        let q = head(&[line, "\r\n"]);
        assert_eq!(route(&q, &Data::new()).err(), Some(HttpError::NotFound));
    }
    let r = error();
    assert_eq!(wire(&r), b"HTTP/1.1 404 Not Found\r\nContent-Length: 0\r\n\r\n\r\n".to_vec());
}

#[test]
fn files_without_directory() {
    let q = head(&["GET /files/a HTTP/1.1\r\n", "\r\n"]);
    assert_eq!(route(&q, &Data::new()).err(), Some(HttpError::NoDirectoryConfigured));
}

#[test]
fn files_get_reads_named_file() {
    let q = head(&["GET /files/dir/caf\u{e9}.txt HTTP/1.1\r\n", "\r\n"]);
    match route(&q, &with_directory("/tmp/srv")).ok().unwrap() {
        Action::ReadFile { directory, name } => {
            assert_eq!(directory, "/tmp/srv");
            assert_eq!(name, "dir/caf\u{e9}.txt");
        }
        _ => panic!("expected a file read"),
    }
    let r = get_response(b"\x00\x01hello".to_vec());
    assert_eq!(r.status_code(), 200);
    assert_eq!(*r.body_bytes(), b"\x00\x01hello".to_vec());
    assert_eq!(
        header_pairs(&r),
        vec![
            ("Content-Type".to_string(), "application/octet-stream".to_string()),
            ("Content-Length".to_string(), "7".to_string())
        ]
    );
}

#[test]
fn files_name_not_text() {
    let mut q = head(&["GET /files/x HTTP/1.1\r\n", "\r\n"]);
    q.path = b"/files/\xff\xfe".to_vec();
    assert_eq!(route(&q, &with_directory("/d")).err(), Some(HttpError::InvalidPath));
}

#[test]
fn files_post_plans_write() {
    let q = head(&["POST /files/up HTTP/1.1\r\n", "Content-Length: +5\r\n", "\r\n"]);
    match route(&q, &with_directory("/d")).ok().unwrap() {
        Action::WriteFile { directory, name, length } => {
            assert_eq!(directory, "/d");
            assert_eq!(name, "up");
            assert_eq!(length, 5);
        }
        _ => panic!("expected a file write"),
    }
    let r = post_response();
    assert_eq!(wire(&r), b"HTTP/1.1 201 OK\r\nContent-Length: 0\r\n\r\n\r\n".to_vec());
}

#[test]
fn files_post_length_errors() {
    let q = head(&["POST /files/up HTTP/1.1\r\n", "\r\n"]);
    assert_eq!(route(&q, &with_directory("/d")).err(), Some(HttpError::MissingContentLength));
    let q = head(&["POST /files/up HTTP/1.1\r\n", "Content-Length: -1\r\n", "\r\n"]);
    assert_eq!(route(&q, &with_directory("/d")).err(), Some(HttpError::InvalidContentLength));
    let q = head(&["POST /files/up HTTP/1.1\r\n", "Content-Length: 99999999999999999999999\r\n", "\r\n"]);
    assert_eq!(route(&q, &with_directory("/d")).err(), Some(HttpError::InvalidContentLength));
}

#[test]
fn upload_chunks_add_up() {
    let mut up = Upload::new(2 * BUFFER_SIZE + 10);
    let mut chunks = Vec::new();
    while !up.is_done() {
        chunks.push(up.next_chunk());
        up.advance();
    }
    assert_eq!(chunks, vec![4096, 4096, 10]);
    let up = Upload::new(0);
    assert!(up.is_done());
    assert_eq!(up.next_chunk(), 0);
}

#[test]
fn builder_defaults() {
    let r = HttpResponseBuilder::new().into_http_response();
    assert_eq!(r.status_code(), 200);
    assert!(r.body_bytes().is_empty());
    assert_eq!(header_pairs(&r), vec![("Content-Length".to_string(), "0".to_string())]);
}

#[test]
fn builder_repeated_header_kept_in_order() {
    let r = HttpResponseBuilder::new()
        .header(b"X".to_vec(), b"1".to_vec())
        .status(404)
        .header(b"X".to_vec(), b"2".to_vec())
        .body(b"hi".to_vec())
        .into_http_response();
    assert_eq!(r.status_code(), 404);
    assert_eq!(
        header_pairs(&r),
        vec![
            ("X".to_string(), "1".to_string()),
            ("X".to_string(), "2".to_string()),
            ("Content-Length".to_string(), "2".to_string())
        ]
    );
}

#[test]
fn plain_body_response() {
    let r = HttpResponse::body(b"hello world".to_vec());
    assert_eq!(r.status_code(), 200);
    assert_eq!(header_pairs(&r), vec![("Content-Length".to_string(), "11".to_string())]);
}

#[test]
fn unknown_status_refused() {
    let r = HttpResponseBuilder::new().status(500).into_http_response();
    let mut out = b"keep".to_vec();
    assert_eq!(r.write_to_writer(&mut out), Err(HttpError::UnknownStatus));
    assert_eq!(out, b"keep".to_vec());
    assert_eq!(as_msg(201), Some(b"201 OK".to_vec()));
    assert_eq!(as_msg(404), Some(b"404 Not Found".to_vec()));
    assert_eq!(as_msg(302), None);
}

#[test]
fn dispatch_table() {
    let d = with_directory("/srv");
    assert!(matches!(dispatch(b"/", &d), Ok(Handler::Empty)));
    assert!(matches!(dispatch(b"/user-agent", &d), Ok(Handler::UserAgent)));
    assert!(matches!(dispatch(b"/user-agents", &d), Ok(Handler::NotFound)));
    assert!(matches!(dispatch(b"/echo/x", &d), Ok(Handler::Echo)));
    assert!(matches!(dispatch(b"/files/x", &d), Ok(Handler::Files { .. })));
    assert!(matches!(dispatch(b"/files", &d), Ok(Handler::NotFound)));
}

#[test]
fn data_keeps_first_directory() {
    let mut d = Data::new();
    assert!(d.get().is_none());
    d.insert("a".to_string());
    d.insert("b".to_string());
    assert_eq!(d.get().unwrap(), "a");
}

#[test]
fn parse_until_splits_after_separator() {
    let (h, t) = parse_until(b"key: value", b": ").unwrap();
    assert_eq!(h, "key: ");
    assert_eq!(t, b"value");
    let (h, t) = parse_until(b"abc", b"x").unwrap();
    assert_eq!(h, "abc");
    assert!(t.is_empty());
    let (h, t) = parse_until(b"ab", b"").unwrap();
    assert_eq!(h, "");
    assert_eq!(t, b"ab");
    // A mismatch restarts the match without rescanning: "aab" has no "ab" here.
    let (h, t) = parse_until(b"aabc", b"ab").unwrap();
    assert_eq!(h, "aabc");
    assert!(t.is_empty());
    assert_eq!(parse_until(b"\xff;rest", b";"), Err(HttpError::DecodeError));
}

#[test]
fn numbers_render_and_parse() {
    let mut out = b"n=".to_vec();
    push_decimal(&mut out, 1024);
    assert_eq!(out, b"n=1024".to_vec());
    assert_eq!(parse_usize(b"42"), Some(42));
    assert_eq!(parse_usize(b"+0"), Some(0));
    assert_eq!(parse_usize(b"+"), None);
    assert_eq!(parse_usize(b""), None);
    assert_eq!(parse_usize(b"4a"), None);
    assert_eq!(parse_usize(b"18446744073709551615"), Some(usize::MAX));
    assert_eq!(parse_usize(b"18446744073709551616"), None);
    assert_eq!(literal("Hi"), b"Hi".to_vec());
}

#[test]
fn unicode_whitespace_is_trimmed() {
    assert_eq!(read_http_request("\u{a0}\r\n".as_bytes()).err(), Some(HttpError::MalformedRequest));
    assert_eq!(read_http_request("\u{3000}\u{85}\r\n".as_bytes()).err(), Some(HttpError::MalformedRequest));
    assert_eq!(read_http_request("GET\u{a0}\r\n".as_bytes()).err(), Some(HttpError::MissingPath));
    let q = read_http_request("\u{a0}GET / HTTP/1.1\u{2028}\r\n".as_bytes()).ok().unwrap();
    assert_eq!(q.method, HttpRequestMethod::Get);
    assert_eq!(q.path, b"/".to_vec());
    let q = head(&["GET /user-agent HTTP/1.1\r\n", "\u{2003}User-Agent: x\u{3000}\u{b}\r\n", "\r\n"]);
    let r = sent(route(&q, &Data::new()).ok().unwrap());
    assert_eq!(*r.body_bytes(), b"x".to_vec());
    // Whitespace inside the text is kept.
    assert_eq!(
        parse_header_line("A: b\u{a0}c \r\n".as_bytes()),
        Some((b"A".to_vec(), "b\u{a0}c".as_bytes().to_vec()))
    );
}

#[test]
fn failures_answered_with_404() {
    let q = head(&["POST /missing HTTP/1.1\r\n", "\r\n"]);
    let r = answer(route(&q, &Data::new()).map(sent));
    assert_eq!(wire(&r), b"HTTP/1.1 404 Not Found\r\nContent-Length: 0\r\n\r\n\r\n".to_vec());
    let ok = answer(Ok(HttpResponse::body(b"hi".to_vec())));
    assert_eq!(ok.status_code(), 200);
    assert_eq!(*ok.body_bytes(), b"hi".to_vec());
}
