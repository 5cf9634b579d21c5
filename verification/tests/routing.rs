use ralavest::http::{Method, Protocol, Request};
use ralavest::route::{
    bad_request_response, first_chunk_accepted, get, method_not_allowed, needs_more_input,
    not_found_response, percent_encoding, percent_encoding_in_order, post, read_error_response,
    Dispatch, MethodRouter, Router,
};

fn req(m: Method, path: &str) -> Request {
    Request::new(m, path.to_string(), Protocol::HTTP_1_1)
}

fn router() -> Router<u32> {
    Router::new()
        .route("/", get(1u32).put(2))
        .route("/login", post(3u32))
}

#[test]
fn dispatch_finds_route_and_method() {
    let r = router();
    match r.dispatch(&req(Method::post, "/login?usr=a")) {
        Dispatch::Handler { route, method } => {
            assert_eq!(route, 1);
            assert_eq!(*r.method_router(route).handler_at(method), 3);
        }
        _ => panic!("expected a handler"),
    }
    match r.dispatch(&req(Method::put, "/")) {
        Dispatch::Handler { route, method } => {
            assert_eq!(route, 0);
            assert_eq!(*r.method_router(route).handler_at(method), 2);
        }
        _ => panic!("expected a handler"),
    }
}

#[test]
fn dispatch_refuses_other_methods() {
    let r = router();
    match r.dispatch(&req(Method::delete, "/")) {
        Dispatch::MethodNotAllowed { route, response } => {
            assert_eq!(route, 0);
            assert_eq!(response.status_code, "405");
            assert_eq!(response.status_text, "Method Not Allowed");
            assert_eq!(response.headers.get("Allowed"), Some("GET, PUT".to_string()));
            assert_eq!(response.headers.get("Content-Length"), Some("0".to_string()));
            assert!(response.body.is_empty());
        }
        _ => panic!("expected method not allowed"),
    }
}

#[test]
fn dispatch_falls_back() {
    let r = router();
    assert!(matches!(r.dispatch(&req(Method::get, "/nothing")), Dispatch::NotFound));
    assert!(matches!(r.dispatch(&req(Method::get, "/login/")), Dispatch::NotFound));
}

#[test]
fn routes_are_checked() {
    let r = router();
    assert!(r.accepts_route("/new"));
    assert!(r.accepts_route(""));
    assert!(!r.accepts_route("new"));
    assert!(!r.accepts_route("/login"));
    assert!(r.has_route("/login"));
    assert_eq!(r.len(), 2);
    assert_eq!(r.route_at(1), "/login");
    assert!(r.fallback_handler_ref().is_none());
    let r = r.fallback(9);
    assert_eq!(r.fallback_handler_ref(), Some(&9));
}

#[test]
fn method_router_builds() {
    let mr: MethodRouter<u8> = MethodRouter::with(Method::head, 1).patch(2).on(Method::trace, 3);
    assert_eq!(mr.len(), 3);
    assert!(mr.handles(Method::patch));
    assert!(!mr.handles(Method::get));
    assert_eq!(mr.method_at(2), Method::trace);
    assert_eq!(
        method_not_allowed(&mr).headers.get("Allowed"),
        Some("HEAD, PATCH, TRACE".to_string())
    );
}

#[test]
fn fixed_responses() {
    let nf = not_found_response(false);
    assert_eq!(nf.status_code, "404");
    assert_eq!(nf.body, b"<h1>Not Found</1>".to_vec());
    assert_eq!(nf.headers.get("Content-Length"), Some("17".to_string()));
    let nfd = not_found_response(true);
    assert!(nfd.body.starts_with(b"<h1>fallback</h1>"));
    let br = bad_request_response();
    assert_eq!(br.status_code, "400");
    assert_eq!(br.status_text, "Bad Request");
    assert_eq!(br.body, b"<h1>Hello World</h1>".to_vec());
    let re = read_error_response();
    assert_eq!(re.headers.get("Content-Type"), Some("application/json".to_string()));
    assert_eq!(re.body, b"\"message\": \"invalid encoding request into UTF8\"".to_vec());
}

#[test]
fn reading_decisions() {
    assert!(first_chunk_accepted(b"GET / \0\0"));
    assert!(!first_chunk_accepted(&[0xff, 0]));
    assert!(needs_more_input(b"abc"));
    assert!(!needs_more_input(b"ab\0"));
}

#[test]
fn percent_encoding_order_matters() {
    assert_eq!(percent_encoding_in_order("a:%".to_string(), &vec![18, 0]), "a%3A%25");
    assert_eq!(percent_encoding_in_order("a:%".to_string(), &vec![0, 18]), "a%253A%25");
    assert_eq!(percent_encoding_in_order("x y".to_string(), &vec![19]), "x%20y");
    let r = percent_encoding("a:%".to_string());
    assert!(r == "a%3A%25" || r == "a%253A%25");
    assert_eq!(percent_encoding("plain".to_string()), "plain");
}
