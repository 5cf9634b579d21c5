use std::collections::HashMap;

use ralavest::extractor::{CookieStore, FromRequest, Query};
use ralavest::http::{Method, Request};

#[test]
fn parse_cookie() {
    let cookies = CookieStore::extract(
        Request::try_from("GET / HTTP/1.1\r\nCookie: session=hello; msg=world".as_bytes())
            .unwrap(),
        (Method::get, String::from("/")),
    );

    assert_eq!(
        HashMap::from([("session", "hello"), ("msg", "world")])
            .into_iter()
            .map(|(k, v)| (k.to_string(), v.to_string()))
            .collect::<HashMap<String, String>>(),
        cookies.0.entries().iter().cloned().collect::<HashMap<String, String>>()
    );
}

#[test]
fn parse_query() {
    let req = Request::try_from("GET /login?usr=admin&pw=admin1234#end-page HTTP/1.1".as_bytes())
        .unwrap();

    let query = <Query as FromRequest>::extract(req, (Method::get, String::from("/")));

    assert_eq!(
        HashMap::from([("usr", "admin"), ("pw", "admin1234")]),
        query
            .0
            .entries()
            .iter()
            .map(|(k, v)| (k.as_str(), v.as_str()))
            .collect()
    )
}
