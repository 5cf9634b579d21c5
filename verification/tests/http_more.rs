use ralavest::http::{html_response, trim, IntoResponse, Method, Protocol, Request, Response};
use ralavest::strmap::StrMap;

fn header(map: &StrMap, key: &str) -> Option<String> {
    map.get(key)
}

#[test]
fn method_names_read_back() {
    let all = [
        Method::get,
        Method::head,
        Method::options,
        Method::trace,
        Method::put,
        Method::delete,
        Method::post,
        Method::patch,
        Method::connect,
    ];
    for m in all {
        assert_eq!(Method::try_from(m.to_string().as_str()).unwrap(), m);
    }
    assert_eq!(Method::get.to_string(), "GET");
    assert_eq!(Method::connect.to_string(), "CONNECT");
}

#[test]
fn method_is_read_in_any_case() {
    assert_eq!(Method::try_from("get").unwrap(), Method::get);
    assert_eq!(Method::try_from("PoSt").unwrap(), Method::post);
    assert_eq!(Method::try_from("oPtIoNs").unwrap(), Method::options);
}

#[test]
fn unknown_method_is_an_error() {
    let e = Method::try_from("foo").unwrap_err();
    assert_eq!(e.0, "failed to parse 'foo' into http::Method");
    assert!(Method::try_from("GETS").is_err());
    assert!(Method::try_from("").is_err());
}

#[test]
fn protocol_names_read_back() {
    for p in [Protocol::HTTP_1_1, Protocol::HTTP_2, Protocol::HTTP_3] {
        assert_eq!(Protocol::try_from(p.to_string().as_str()).unwrap(), p);
    }
    assert_eq!(Protocol::try_from("http/2").unwrap(), Protocol::HTTP_2);
    assert_eq!(Protocol::HTTP_1_1.to_string(), "HTTP/1.1");
}

#[test]
fn unknown_protocol_is_an_error() {
    let e = Protocol::try_from("HTTP/4").unwrap_err();
    assert_eq!(e.0, "invalid parsing &str into HTTP protocol");
}

#[test]
fn trim_removes_both_ends() {
    assert_eq!(trim(b"  ab c  ", b' '), b"ab c".to_vec());
    assert_eq!(trim(b"    ", b' '), Vec::<u8>::new());
    assert_eq!(trim(b"", b' '), Vec::<u8>::new());
    assert_eq!(trim(b"\0\0x\0", 0), b"x".to_vec());
    let once = trim(b"  x y ", b' ');
    assert_eq!(trim(&once, b' '), once);
}

#[test]
fn request_with_bad_protocol_is_an_error() {
    let e = Request::try_from("GET / HTTP/9".as_bytes()).unwrap_err();
    assert_eq!(e.0, "invalid parsing &str into HTTP protocol");
}

#[test]
fn request_with_header_without_colon_is_an_error() {
    let e = Request::try_from("GET / HTTP/1.1\nHost example.com\n\nbody".as_bytes()).unwrap_err();
    assert_eq!(e.0, "invalid header of HTTP message");
}

#[test]
fn lower_case_method_leaves_the_path_unread() {
    // the reader removes "GET " with the method in upper case only, so a
    // lower-case request line keeps its method where the path is looked for
    assert!(Request::head_is_supported("get /x HTTP/1.1".as_bytes()));
    let e = Request::try_from("get /x HTTP/1.1".as_bytes()).unwrap_err();
    assert_eq!(e.0, "invalid parsing &str into HTTP protocol");
}

#[test]
fn unsupported_request_lines_are_recognised() {
    assert!(Request::head_is_supported("GET / HTTP/1.1".as_bytes()));
    assert!(!Request::head_is_supported("FOO / HTTP/1.1".as_bytes()));
    assert!(!Request::head_is_supported("GÉT / HTTP/1.1".as_bytes()));
    assert!(!Request::head_is_supported("GET /é HTTP/1.1".as_bytes()));
    assert!(!Request::head_is_supported("".as_bytes()));
}

#[test]
fn request_line_reads_back() {
    let req = Request::try_from("PUT /a/b HTTP/2\r\nX: 1".as_bytes()).unwrap();
    assert_eq!(req.method, Method::put);
    assert_eq!(req.path, "/a/b");
    assert_eq!(req.protocol, Protocol::HTTP_2);
    assert_eq!(req.get_start_line(), "PUT /a/b HTTP/2");
    assert_eq!(header(&req.headers, "X"), Some("1".to_string()));
    assert!(req.body.is_empty());
}

#[test]
fn body_lines_equal_to_a_header_line_are_dropped() {
    let req = Request::try_from("GET / HTTP/1.1\nA: b\n\nA: b\nxyz\nmore".as_bytes()).unwrap();
    assert_eq!(req.body, b"xyzmore".to_vec());
    assert_eq!(header(&req.headers, "A"), Some("b".to_string()));
}

#[test]
fn lone_carriage_return_swallows_the_next_byte() {
    let req = Request::try_from("GET / HTTP/1.1\r\nX: y\rz\n\nbody".as_bytes()).unwrap();
    assert_eq!(header(&req.headers, "X"), Some("y".to_string()));
    assert_eq!(req.body, b"body".to_vec());
}

#[test]
fn later_header_wins_and_names_are_trimmed() {
    let req = Request::try_from("GET / HTTP/1.1\n  A :  1 \nA: 2:3\n\n".as_bytes()).unwrap();
    assert_eq!(header(&req.headers, "A"), Some("2:3".to_string()));
    assert_eq!(req.headers.len(), 1);
}

#[test]
fn request_new_is_empty() {
    let req = Request::new(Method::delete, "/x".to_string(), Protocol::HTTP_3);
    assert_eq!(req.get_start_line(), "DELETE /x HTTP/3");
    assert_eq!(*req.get_method(), Method::delete);
    assert_eq!(req.get_path(), "/x");
    assert_eq!(*req.get_protocol(), Protocol::HTTP_3);
    assert_eq!(req.get_headers().len(), 0);
    assert!(req.get_body().is_empty());
}

#[test]
fn default_response() {
    let res = Response::new();
    assert_eq!(res.status_code, "200");
    assert_eq!(res.status_text, "OK");
    assert_eq!(res.body, b"<h1>Hello World</h1>".to_vec());
    assert_eq!(header(&res.headers, "Content-Length"), Some("20".to_string()));
    assert_eq!(header(&res.headers, "Content-Type"), Some("text/html".to_string()));
}

#[test]
fn built_response_has_no_defaults() {
    let res = Response::build(Protocol::HTTP_2, 0, "Zero");
    assert_eq!(res.status_code, "0");
    assert_eq!(res.status_text, "Zero");
    assert_eq!(res.headers.len(), 0);
    assert!(res.body.is_empty());
    assert_eq!(res.raw(), b"HTTP/2 0 Zero\n\n".to_vec());
}

#[test]
fn setters_change_one_part() {
    let res = Response::new()
        .set_protocol(Protocol::HTTP_3)
        .set_status_code(4040)
        .set_status_text("Gone")
        .set_header("X-A", "1")
        .set_body(b"abc".to_vec());
    assert_eq!(res.protocol, Protocol::HTTP_3);
    assert_eq!(res.status_code, "4040");
    assert_eq!(res.status_text, "Gone");
    assert_eq!(header(&res.headers, "X-A"), Some("1".to_string()));
    assert_eq!(header(&res.headers, "Content-Length"), Some("3".to_string()));
    assert_eq!(res.body, b"abc".to_vec());
}

#[test]
fn raw_writes_headers_in_order() {
    let res = Response::build(Protocol::HTTP_1_1, 200, "OK")
        .set_header("b", "2")
        .set_header("a", "1")
        .set_header("B", "3");
    assert_eq!(res.raw(), b"HTTP/1.1 200 OK\nB: 3\na: 1\nb: 2\n\n".to_vec());
}

#[test]
fn written_response_reads_back() {
    let res = Response::build(Protocol::HTTP_2, 201, "Created Now")
        .set_header("Location", "http://x/1")
        .set_header("Content-Type", "application/json")
        .set_body(b"{\"id\": 1}".to_vec());
    let back = Response::try_from(res.raw().as_slice()).unwrap();
    assert_eq!(back.protocol, res.protocol);
    assert_eq!(back.status_code, res.status_code);
    assert_eq!(back.status_text, res.status_text);
    assert_eq!(back.headers.entries(), res.headers.entries());
    assert_eq!(back.body, res.body);
}

#[test]
fn response_with_bad_protocol_is_an_error() {
    assert!(Response::head_is_supported("HTTP/7 200 OK".as_bytes()));
    let e = Response::try_from("HTTP/7 200 OK".as_bytes()).unwrap_err();
    assert_eq!(e.0, "invalid parsing &str into HTTP protocol");
    assert!(!Response::head_is_supported("HTTP/1.1 2é0 OK".as_bytes()));
}

#[test]
fn text_becomes_html_response() {
    let res = html_response("<p>hé</p>");
    assert_eq!(res.body, "<p>hé</p>".as_bytes().to_vec());
    assert_eq!(header(&res.headers, "Content-Length"), Some("10".to_string()));
    assert_eq!(header(&res.headers, "Content-Type"), Some("text/html".to_string()));
    let res2 = "hi".into_response();
    assert_eq!(res2.body, b"hi".to_vec());
    let res3 = String::from("yo").into_response();
    assert_eq!(res3.body, b"yo".to_vec());
    let same = Response::build(Protocol::HTTP_2, 1, "x").into_response();
    assert_eq!(same.status_code, "1");
}

#[test]
fn strmap_keeps_last_value_in_key_order() {
    let mut m = StrMap::new();
    m.insert("b".to_string(), "1".to_string());
    m.insert("a".to_string(), "2".to_string());
    m.insert("b".to_string(), "3".to_string());
    assert_eq!(m.len(), 2);
    assert_eq!(m.get("b"), Some("3".to_string()));
    assert_eq!(m.get("c"), None);
    assert_eq!(m.key_at(0), "a");
    assert_eq!(m.value_at(1), "3");
    let c = m.clone();
    assert_eq!(c.entries(), m.entries());
}
