use ralavest::http::{IntoResponse, Method, Request, Response};
use ralavest::route::{
    bad_request_response, get, on_first_read, Answer, Dispatch, FallbackAnswer, FirstRead,
    Router,
};

fn router() -> Router<u32> {
    Router::new().route("/", get(1u32)).route("/users", get(2u32))
}

#[test]
fn default_response_bytes() {
    assert_eq!(
        Response::new().raw(),
        b"HTTP/1.1 200 OK\nContent-Length: 20\nContent-Type: text/html\n\n<h1>Hello World</h1>"
            .to_vec()
    );
}

#[test]
fn bad_request_bytes() {
    let raw = bad_request_response().raw();
    assert!(raw.starts_with(b"HTTP/1.1 400 Bad Request\nContent-Length: 20\nContent-Type: text/html\n\n"));
}

#[test]
fn headers_are_written_in_key_order() {
    let r = Response::build(ralavest::http::Protocol::HTTP_1_1, 201, "Created")
        .set_header("Location", "/u/1")
        .set_header("Content-Type", "application/json")
        .set_header("Accept", "x");
    assert_eq!(
        r.raw(),
        b"HTTP/1.1 201 Created\nAccept: x\nContent-Type: application/json\nLocation: /u/1\n\n".to_vec()
    );
}

#[test]
fn first_read_decisions() {
    assert!(matches!(on_first_read(true, b"GET / HTTP/1.1\0\0"), FirstRead::Continue));
    assert!(matches!(on_first_read(true, &[0xff, 0xfe]), FirstRead::Drop));
    match on_first_read(false, b"") {
        FirstRead::Refuse(r) => {
            assert_eq!(r.status_code, "400");
            assert_eq!(r.headers.get("Content-Type"), Some("application/json".to_string()));
        }
        _ => panic!("expected a refusal"),
    }
}

#[test]
fn answers_of_the_server() {
    let r = router();
    match r.answer(b"GET /users?x=1 HTTP/1.1\r\n\r\n\0\0\0", false) {
        Answer::Serve { request, dispatch, fallback } => {
            assert_eq!(request.path, "/users?x=1");
            assert!(matches!(dispatch, Dispatch::Handler { route: 1, method: 0 }));
            match fallback {
                FallbackAnswer::Page(page) => {
                    assert_eq!(page.status_code, "404");
                    assert_eq!(page.body, b"<h1>Not Found</1>".to_vec());
                }
                FallbackAnswer::Handler => panic!("no fallback was set"),
            }
        }
        _ => panic!("expected a request to serve"),
    }
    match r.answer(b"GET / HTTP/9", false) {
        Answer::BadRequest(resp) => {
            assert_eq!(resp.raw(), bad_request_response().raw());
        }
        _ => panic!("expected a bad request"),
    }
    assert!(matches!(r.answer(b"FETCH / HTTP/1.1", false), Answer::Unreadable));
    let with_fallback = router().fallback(9u32);
    match with_fallback.answer(b"GET /nowhere HTTP/1.1", true) {
        Answer::Serve { dispatch, fallback, .. } => {
            assert!(matches!(dispatch, Dispatch::NotFound));
            assert!(matches!(fallback, FallbackAnswer::Handler));
        }
        _ => panic!("expected a request to serve"),
    }
}

#[test]
fn zero_padding_and_line_ends_read_alike() {
    let plain = b"POST /a HTTP/1.1\nHost: x\n\nbody".to_vec();
    let mut padded = plain.clone();
    padded.extend_from_slice(&[0u8; 7]);
    let crlf = b"POST /a HTTP/1.1\r\nHost: x\r\n\r\nbody".to_vec();
    let a = Request::try_from(plain.as_slice()).unwrap();
    for other in [padded, crlf] {
        let b = Request::try_from(other.as_slice()).unwrap();
        assert_eq!(a.get_start_line(), b.get_start_line());
        assert_eq!(a.headers.entries(), b.headers.entries());
        assert_eq!(a.body, b.body);
    }
}

#[test]
fn request_line_alone_reads_back() {
    let req = Request::new(Method::delete, "/items/7".to_string(), ralavest::http::Protocol::HTTP_2);
    let line = req.get_start_line();
    let back = Request::try_from(line.as_bytes()).unwrap();
    assert_eq!(back.method, Method::delete);
    assert_eq!(back.path, "/items/7");
    assert_eq!(back.headers.len(), 0);
    assert!(back.body.is_empty());
}

#[test]
fn numbers_and_flags_become_html_responses() {
    assert_eq!(42u32.into_response().body, b"42".to_vec());
    assert_eq!((-7i64).into_response().body, b"-7".to_vec());
    assert_eq!(i64::MIN.into_response().body, b"-9223372036854775808".to_vec());
    assert_eq!(true.into_response().body, b"true".to_vec());
    assert_eq!('x'.into_response().headers.get("Content-Length"), Some("1".to_string()));
}
