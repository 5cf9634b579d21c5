use std::collections::{BTreeMap, HashMap};

use ralavest::http::{trim, Method, Protocol, Request, Response};
use ralavest::strmap::StrMap;

#[test]
fn parse_string_to_request() {
    let msg = "POST /users HTTP/1.1
Host: example.com
Content-Type: application/json
Content-Length: 16

{\"status\": \"OK\"}
";

    let req = Request::try_from(msg.as_bytes()).unwrap();

    assert_eq!("POST /users HTTP/1.1".to_string(), req.get_start_line());

    assert_eq!(Method::post, req.method);

    assert_eq!("/users", req.path);

    assert_eq!("HTTP/1.1", req.protocol.to_string());

    let headers = HashMap::from([
        ("Host", "example.com"),
        ("Content-Type", "application/json"),
        ("Content-Length", "16"),
    ]);

    assert_eq!(
        headers,
        req.headers
            .entries()
            .iter()
            .map(|(k, v)| (k.as_str(), v.as_str()))
            .collect::<HashMap<&str, &str>>()
    );

    assert_eq!("{\"status\": \"OK\"}".as_bytes(), req.body);
}

#[test]
fn parse_string_to_response() {
    let msg = "HTTP/1.1 404 Not Found
Location: http://example.com/users/123
Content-Type: application/json

{
  \"message\": \"New user created\",
  \"user\": {
    \"id\": 123,
    \"firstName\": \"Example\",
    \"lastName\": \"Person\",
    \"email\": \"bsmth@example.com\"
  }
}";

    let res = Response::try_from(msg.as_bytes()).unwrap();

    assert_eq!("HTTP/1.1", res.protocol.to_string());

    assert_eq!("404", res.status_code);

    assert_eq!("Not Found", res.status_text);

    let headers = HashMap::from([
        ("Content-Type", "application/json"),
        ("Location", "http://example.com/users/123"),
    ]);

    assert_eq!(
        headers,
        res.headers
            .entries()
            .iter()
            .map(|(k, v)| (k.as_str(), v.as_str()))
            .collect::<HashMap<&str, &str>>()
    );
}

#[test]
fn parse_response_to_string() {
    let msg = "HTTP/1.1 201 Created
Content-Type: application/json
Location: http://example.com/users/123

{
  \"message\": \"New user created\",
  \"user\": {
    \"id\": 123,
    \"firstName\": \"Example\",
    \"lastName\": \"Person\",
    \"email\": \"bsmth@example.com\"
  }
}
";

    let mut headers = StrMap::new();
    for (k, v) in BTreeMap::from([
        ("Content-Type", "application/json"),
        ("Location", "http://example.com/users/123"),
    ])
    .iter()
    {
        headers.insert(k.to_string(), v.to_string());
    }

    let res = Response {
        protocol: Protocol::HTTP_1_1,
        status_code: "201".to_string(),
        status_text: "Created".to_string(),
        headers,
        body: "{
  \"message\": \"New user created\",
  \"user\": {
    \"id\": 123,
    \"firstName\": \"Example\",
    \"lastName\": \"Person\",
    \"email\": \"bsmth@example.com\"
  }
}"
        .to_string()
        .as_bytes()
        .to_vec(),
    };

    assert_eq!(msg.trim().as_bytes(), trim(&res.raw(), b' '));
}
