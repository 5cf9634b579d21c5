use std::collections::HashMap;

use ralavest::extractor::{CookieStore, FromRequest, Path, Query};
use ralavest::http::{Method, Protocol, Request};

fn as_map(m: &ralavest::strmap::StrMap) -> HashMap<String, String> {
    m.entries().iter().cloned().collect()
}

fn pairs(ps: &[(&str, &str)]) -> HashMap<String, String> {
    ps.iter().map(|(k, v)| (k.to_string(), v.to_string())).collect()
}

#[test]
fn query_strings() {
    assert_eq!(as_map(&Query::from_path("/p?a=1&b").0), pairs(&[("a", "1"), ("b", "")]));
    assert_eq!(as_map(&Query::from_path("/p?a=").0), pairs(&[]));
    assert_eq!(as_map(&Query::from_path("/p?a=1&").0), pairs(&[("a", "1")]));
    assert_eq!(as_map(&Query::from_path("/p").0), pairs(&[]));
    assert_eq!(as_map(&Query::from_path("/p?x=1#y=2").0), pairs(&[("x", "1")]));
    assert_eq!(as_map(&Query::from_path("/p?k=v=w").0), pairs(&[("k", "vw")]));
    assert_eq!(as_map(&Query::from_path("/p?a=1&a=2").0), pairs(&[("a", "2")]));
}

#[test]
fn cookie_headers() {
    assert_eq!(as_map(&CookieStore::from_header("a=b;c=d").0), pairs(&[("a", "b")]));
    assert_eq!(as_map(&CookieStore::from_header("=x").0), pairs(&[]));
    assert_eq!(as_map(&CookieStore::from_header("a=").0), pairs(&[]));
    assert_eq!(as_map(&CookieStore::from_header("a=b; =c").0), pairs(&[("a", "b")]));
    assert_eq!(as_map(&CookieStore::from_header("a=1; a=2").0), pairs(&[("a", "2")]));
    assert_eq!(
        as_map(&CookieStore::from_header("k=v; x=y=z; t=1").0),
        pairs(&[("k", "v"), ("x", "y=z"), ("t", "1")])
    );
}

#[test]
fn request_without_cookie_header_has_no_cookies() {
    let req = Request::new(Method::get, "/".to_string(), Protocol::HTTP_1_1);
    let cookies = CookieStore::extract(req, (Method::get, String::from("/")));
    assert_eq!(cookies.0.len(), 0);
}

#[test]
fn request_extracts_itself() {
    let req = Request::new(Method::post, "/q".to_string(), Protocol::HTTP_2);
    let same = Request::extract(req, (Method::get, String::from("/")));
    assert_eq!(same.get_start_line(), "POST /q HTTP/2");
}

#[test]
fn path_parameters_from_segments() {
    let client = Some(vec!["users".to_string(), "4%202".to_string()]);
    let route = Some(vec!["users".to_string(), "%7B id %7D".to_string()]);
    let p = Path::from_segments(client, route);
    assert_eq!(as_map(&p.0), pairs(&[("id", "4 2")]));

    let p = Path::from_segments(Some(vec!["a".to_string()]), Some(vec![]));
    assert_eq!(p.0.len(), 0);
    let p = Path::from_segments(None, Some(vec!["%7Bx%7D".to_string()]));
    assert_eq!(p.0.len(), 0);
}

#[test]
fn path_parameters_from_request() {
    let req = Request::new(Method::get, "/users/42".to_string(), Protocol::HTTP_1_1);
    let p = Path::extract(req, (Method::get, String::from("/users/{id}")));
    assert_eq!(as_map(&p.0), pairs(&[("id", "42")]));

    let req = Request::new(Method::get, "/users/42/x".to_string(), Protocol::HTTP_1_1);
    let p = Path::extract(req, (Method::get, String::from("/users/{id}")));
    assert_eq!(p.0.len(), 0);

    let req = Request::new(Method::get, "relative".to_string(), Protocol::HTTP_1_1);
    let p = Path::extract(req, (Method::get, String::from("/{a}")));
    assert_eq!(p.0.len(), 0);
}

#[test]
fn written_query_reads_back() {
    let pairs_in = [("name", "ada"), ("lang", "rust"), ("name", "grace")];
    let text: Vec<String> = pairs_in.iter().map(|(k, v)| format!("{}={}", k, v)).collect();
    let path = format!("/search?{}", text.join("&"));
    assert_eq!(
        as_map(&Query::from_path(&path).0),
        pairs(&[("name", "grace"), ("lang", "rust")])
    );
}

#[test]
fn written_cookies_read_back() {
    let pairs_in = [("session", "abc"), ("theme", "dark"), ("session", "xyz")];
    let text: Vec<String> = pairs_in.iter().map(|(k, v)| format!("{}={}", k, v)).collect();
    let header = text.join("; ");
    assert_eq!(
        as_map(&CookieStore::from_header(&header).0),
        pairs(&[("session", "xyz"), ("theme", "dark")])
    );
}
