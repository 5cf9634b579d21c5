//! Routing: the table of routes and the methods each one answers, and the
//! decision of which handler answers a request, or which response is
//! written in its place. The server loop that reads and writes the
//! connection runs outside this library and asks these functions.

use vstd::prelude::*;
use std::collections::HashMap;
use crate::http::{method_name, request_head_ok, request_parse, Method, Protocol, Request, Response};
use crate::outside::{is_utf8, string_of};
use crate::text::{chars_eq, chars_of, find_char, first_index, push_all, sub_chars};

verus! {

/// The methods of one route and the handler of each.
pub struct MethodRouter<H> {
    methods: Vec<Method>,
    handlers: Vec<H>,
}

/// No method occurs twice in `ms`.
pub open spec fn distinct_methods(ms: Seq<Method>) -> bool {
    forall|i: int, j: int| 0 <= i < ms.len() && 0 <= j < ms.len() && i != j ==> ms[i] != ms[j]
}

impl<H> MethodRouter<H> {
    /// The methods, in the order they were added.
    pub closed spec fn methods(&self) -> Seq<Method> {
        self.methods@
    }

    /// The handlers, in the same order.
    pub closed spec fn handlers(&self) -> Seq<H> {
        self.handlers@
    }

    #[verifier::type_invariant]
    spec fn inv(&self) -> bool {
        &&& self.methods@.len() == self.handlers@.len()
        &&& distinct_methods(self.methods@)
    }

    /// A router that answers `method` with `handler`.
    pub fn with(method: Method, handler: H) -> (r: Self)
        ensures
            r.methods() == seq![method],
            r.handlers() == seq![handler],
    {
        let mut methods = Vec::new();
        methods.push(method);
        let mut handlers = Vec::new();
        handlers.push(handler);
        MethodRouter { methods, handlers }
    }

    /// Whether `method` has a handler.
    pub fn handles(&self, method: Method) -> (r: bool)
        ensures
            r == self.methods().contains(method),
    {
        let mut i: usize = 0;
        while i < self.methods.len()
            invariant
                i <= self.methods@.len(),
                forall|j: int| 0 <= j < i ==> self.methods@[j] != method,
            decreases self.methods@.len() - i,
        {
            if self.methods[i] == method {
                return true;
            }
            i += 1;
        }
        false
    }

    /// Adds `handler` for `method`, which has no handler yet.
    pub fn on(self, method: Method, handler: H) -> (r: Self)
        requires
            !self.methods().contains(method),
        ensures
            distinct_methods(r.methods()),
            r.methods() == self.methods().push(method),
            r.handlers() == self.handlers().push(handler),
    {
        proof {
            use_type_invariant(&self);
        }
        let MethodRouter { mut methods, mut handlers } = self;
        methods.push(method);
        handlers.push(handler);
        MethodRouter { methods, handlers }
    }

    /// The number of methods.
    pub fn len(&self) -> (r: usize)
        ensures
            r == self.methods().len(),
    {
        self.methods.len()
    }

    /// The `i`-th method.
    pub fn method_at(&self, i: usize) -> (r: Method)
        requires
            i < self.methods().len(),
        ensures
            r == self.methods()[i as int],
    {
        self.methods[i]
    }

    /// The handler of the `i`-th method.
    pub fn handler_at(&self, i: usize) -> (r: &H)
        requires
            i < self.methods().len(),
        ensures
            *r == self.handlers()[i as int],
    {
        proof {
            use_type_invariant(self);
        }
        &self.handlers[i]
    }

    pub fn get(self, handler: H) -> (r: Self)
        requires
            !self.methods().contains(Method::get),
        ensures
            r.methods() == self.methods().push(Method::get),
            r.handlers() == self.handlers().push(handler),
    {
        self.on(Method::get, handler)
    }

    pub fn head(self, handler: H) -> (r: Self)
        requires
            !self.methods().contains(Method::head),
        ensures
            r.methods() == self.methods().push(Method::head),
            r.handlers() == self.handlers().push(handler),
    {
        self.on(Method::head, handler)
    }

    pub fn options(self, handler: H) -> (r: Self)
        requires
            !self.methods().contains(Method::options),
        ensures
            r.methods() == self.methods().push(Method::options),
            r.handlers() == self.handlers().push(handler),
    {
        self.on(Method::options, handler)
    }

    pub fn trace(self, handler: H) -> (r: Self)
        requires
            !self.methods().contains(Method::trace),
        ensures
            r.methods() == self.methods().push(Method::trace),
            r.handlers() == self.handlers().push(handler),
    {
        self.on(Method::trace, handler)
    }

    pub fn put(self, handler: H) -> (r: Self)
        requires
            !self.methods().contains(Method::put),
        ensures
            r.methods() == self.methods().push(Method::put),
            r.handlers() == self.handlers().push(handler),
    {
        self.on(Method::put, handler)
    }

    pub fn delete(self, handler: H) -> (r: Self)
        requires
            !self.methods().contains(Method::delete),
        ensures
            r.methods() == self.methods().push(Method::delete),
            r.handlers() == self.handlers().push(handler),
    {
        self.on(Method::delete, handler)
    }

    pub fn post(self, handler: H) -> (r: Self)
        requires
            !self.methods().contains(Method::post),
        ensures
            r.methods() == self.methods().push(Method::post),
            r.handlers() == self.handlers().push(handler),
    {
        self.on(Method::post, handler)
    }

    pub fn patch(self, handler: H) -> (r: Self)
        requires
            !self.methods().contains(Method::patch),
        ensures
            r.methods() == self.methods().push(Method::patch),
            r.handlers() == self.handlers().push(handler),
    {
        self.on(Method::patch, handler)
    }

    pub fn connect(self, handler: H) -> (r: Self)
        requires
            !self.methods().contains(Method::connect),
        ensures
            r.methods() == self.methods().push(Method::connect),
            r.handlers() == self.handlers().push(handler),
    {
        self.on(Method::connect, handler)
    }
}

/// A router that answers GET with `handler`.
pub fn get<H>(handler: H) -> (r: MethodRouter<H>)
    ensures
        r.methods() == seq![Method::get],
        r.handlers() == seq![handler],
{
    MethodRouter::with(Method::get, handler)
}

/// A router that answers HEAD with `handler`.
pub fn head<H>(handler: H) -> (r: MethodRouter<H>)
    ensures
        r.methods() == seq![Method::head],
        r.handlers() == seq![handler],
{
    MethodRouter::with(Method::head, handler)
}

/// A router that answers OPTIONS with `handler`.
pub fn options<H>(handler: H) -> (r: MethodRouter<H>)
    ensures
        r.methods() == seq![Method::options],
        r.handlers() == seq![handler],
{
    MethodRouter::with(Method::options, handler)
}

/// A router that answers TRACE with `handler`.
pub fn trace<H>(handler: H) -> (r: MethodRouter<H>)
    ensures
        r.methods() == seq![Method::trace],
        r.handlers() == seq![handler],
{
    MethodRouter::with(Method::trace, handler)
}

/// A router that answers PUT with `handler`.
pub fn put<H>(handler: H) -> (r: MethodRouter<H>)
    ensures
        r.methods() == seq![Method::put],
        r.handlers() == seq![handler],
{
    MethodRouter::with(Method::put, handler)
}

/// A router that answers DELETE with `handler`.
pub fn delete<H>(handler: H) -> (r: MethodRouter<H>)
    ensures
        r.methods() == seq![Method::delete],
        r.handlers() == seq![handler],
{
    MethodRouter::with(Method::delete, handler)
}

/// A router that answers POST with `handler`.
pub fn post<H>(handler: H) -> (r: MethodRouter<H>)
    ensures
        r.methods() == seq![Method::post],
        r.handlers() == seq![handler],
{
    MethodRouter::with(Method::post, handler)
}

/// A router that answers PATCH with `handler`.
pub fn patch<H>(handler: H) -> (r: MethodRouter<H>)
    ensures
        r.methods() == seq![Method::patch],
        r.handlers() == seq![handler],
{
    MethodRouter::with(Method::patch, handler)
}

/// A router that answers CONNECT with `handler`.
pub fn connect<H>(handler: H) -> (r: MethodRouter<H>)
    ensures
        r.methods() == seq![Method::connect],
        r.handlers() == seq![handler],
{
    MethodRouter::with(Method::connect, handler)
}


/// The routes, each with the methods it answers, and the handler of the
/// requests that no route matches (`None`: the built-in "Not Found" page).
pub struct Router<H> {
    routes: Vec<String>,
    method_routers: Vec<MethodRouter<H>>,
    fallback: Option<H>,
}

/// No route occurs twice in `rs`.
pub open spec fn distinct_routes(rs: Seq<Seq<char>>) -> bool {
    forall|i: int, j: int| 0 <= i < rs.len() && 0 <= j < rs.len() && i != j ==> rs[i] != rs[j]
}

/// A request path matches at most one route: among distinct routes, the
/// route equal to a given path stands at a single position. So the route
/// that `dispatch` picks is the one that `route` added for that path.
pub proof fn lemma_route_unique(rs: Seq<Seq<char>>, key: Seq<char>, i: int, j: int)
    requires
        distinct_routes(rs),
        0 <= i < rs.len(),
        0 <= j < rs.len(),
        rs[i] == key,
        rs[j] == key,
    ensures
        i == j,
{
}

/// A method of a route has at most one handler: among distinct methods,
/// a method stands at a single position.
pub proof fn lemma_method_unique(ms: Seq<Method>, m: Method, i: int, j: int)
    requires
        distinct_methods(ms),
        0 <= i < ms.len(),
        0 <= j < ms.len(),
        ms[i] == m,
        ms[j] == m,
    ensures
        i == j,
{
}

/// A route is empty or starts with `/`.
pub open spec fn valid_route(r: Seq<char>) -> bool {
    r.len() == 0 || r[0] == '/'
}

impl<H> Router<H> {
    /// The routes, in the order they were added.
    pub closed spec fn routes(&self) -> Seq<Seq<char>> {
        self.routes@.map_values(|s: String| s@)
    }

    /// The methods of the `i`-th route.
    pub closed spec fn methods_of(&self, i: int) -> Seq<Method> {
        self.method_routers@[i].methods()
    }

    /// The handlers of the `i`-th route.
    pub closed spec fn handlers_of(&self, i: int) -> Seq<H> {
        self.method_routers@[i].handlers()
    }

    /// The fallback handler, if one was set.
    pub closed spec fn fallback_handler(&self) -> Option<H> {
        self.fallback
    }

    #[verifier::type_invariant]
    spec fn inv(&self) -> bool {
        &&& self.routes@.len() == self.method_routers@.len()
        &&& distinct_routes(self.routes())
    }

    /// A router with no routes and the built-in fallback.
    pub fn new() -> (r: Self)
        ensures
            r.routes() == Seq::<Seq<char>>::empty(),
            r.fallback_handler() is None,
    {
        let r = Router { routes: Vec::new(), method_routers: Vec::new(), fallback: None };
        assert(r.routes() =~= Seq::<Seq<char>>::empty());
        r
    }

    /// Whether `route` has been added.
    pub fn has_route(&self, route: &str) -> (r: bool)
        ensures
            r == self.routes().contains(route@),
    {
        let key = chars_of(route);
        self.find_route(&key) < self.routes.len()
    }

    /// Whether `route` may be added: it is empty or starts with `/`, and it
    /// has not been added yet.
    pub fn accepts_route(&self, route: &str) -> (r: bool)
        ensures
            r == (valid_route(route@) && !self.routes().contains(route@)),
    {
        let key = chars_of(route);
        let valid = key.len() == 0 || key[0] == '/';
        valid && self.find_route(&key) == self.routes.len()
    }

    /// The position of `key` among the routes, or the number of routes.
    fn find_route(&self, key: &Vec<char>) -> (r: usize)
        ensures
            r <= self.routes().len(),
            r < self.routes().len() ==> self.routes()[r as int] == key@,
            forall|j: int| 0 <= j < r ==> self.routes()[j] != key@,
            r == self.routes().len() <==> !self.routes().contains(key@),
    {
        let mut i: usize = 0;
        while i < self.routes.len()
            invariant
                i <= self.routes@.len(),
                forall|j: int| 0 <= j < i ==> self.routes()[j] != key@,
            decreases self.routes@.len() - i,
        {
            let ri = chars_of(self.routes[i].as_str());
            assert(self.routes()[i as int] == ri@);
            if chars_eq(&ri, key) {
                return i;
            }
            i += 1;
        }
        proof {
            if self.routes().contains(key@) {
                let j = choose|j: int| 0 <= j < self.routes().len() && self.routes()[j] == key@;
                assert(self.routes()[j] == key@);
            }
        }
        i
    }

    /// Adds a route, which must be empty or start with `/` and must not
    /// have been added yet.
    pub fn route(self, route: &str, method_router: MethodRouter<H>) -> (r: Self)
        requires
            valid_route(route@),
            !self.routes().contains(route@),
        ensures
            distinct_routes(r.routes()),
            r.routes() == self.routes().push(route@),
            forall|i: int| 0 <= i < self.routes().len() ==> r.methods_of(i) == self.methods_of(i),
            forall|i: int| 0 <= i < self.routes().len() ==> r.handlers_of(i) == self.handlers_of(i),
            r.methods_of(self.routes().len() as int) == method_router.methods(),
            r.handlers_of(self.routes().len() as int) == method_router.handlers(),
            r.fallback_handler() == self.fallback_handler(),
    {
        proof {
            use_type_invariant(&self);
        }
        let ghost old_routes = self.routes();
        let ghost old_mr = self.method_routers@;
        let Router { mut routes, mut method_routers, fallback } = self;
        routes.push(String::from_str(route));
        method_routers.push(method_router);
        assert(routes@.map_values(|s: String| s@) =~= old_routes.push(route@));
        Router { routes, method_routers, fallback }
    }

    /// The same router with `handler` for the requests that no route
    /// matches.
    pub fn fallback(self, handler: H) -> (r: Self)
        ensures
            r.routes() == self.routes(),
            forall|i: int| 0 <= i < self.routes().len() ==> r.methods_of(i) == self.methods_of(i),
            forall|i: int| 0 <= i < self.routes().len() ==> r.handlers_of(i) == self.handlers_of(i),
            r.fallback_handler() == Some(handler),
    {
        proof {
            use_type_invariant(&self);
        }
        let Router { routes, method_routers, fallback: _ } = self;
        Router { routes, method_routers, fallback: Some(handler) }
    }

    /// The fallback handler, if one was set.
    pub fn fallback_handler_ref(&self) -> (r: Option<&H>)
        ensures
            r matches Some(h) ==> self.fallback_handler() == Some(*h),
            r is None ==> self.fallback_handler() is None,
    {
        match &self.fallback {
            Some(h) => Some(h),
            None => None,
        }
    }

    /// The `i`-th route.
    pub fn route_at(&self, i: usize) -> (r: &String)
        requires
            i < self.routes().len(),
        ensures
            r@ == self.routes()[i as int],
    {
        &self.routes[i]
    }

    /// The number of routes.
    pub fn len(&self) -> (r: usize)
        ensures
            r == self.routes().len(),
    {
        self.routes.len()
    }

    /// The methods and handlers of the `i`-th route.
    pub fn method_router(&self, i: usize) -> (r: &MethodRouter<H>)
        requires
            i < self.routes().len(),
        ensures
            r.methods() == self.methods_of(i as int),
            r.handlers() == self.handlers_of(i as int),
    {
        proof {
            use_type_invariant(self);
        }
        &self.method_routers[i]
    }
}


/// The value of the `Allowed` header: the methods' names joined by `", "`.
pub open spec fn allowed_value(ms: Seq<Method>) -> Seq<char>
    decreases ms.len(),
{
    if ms.len() == 0 {
        Seq::empty()
    } else if ms.len() == 1 {
        method_name(ms[0])
    } else {
        allowed_value(ms.drop_last()) + seq![',', ' '] + method_name(ms.last())
    }
}

/// The part of a request path that is matched against the routes: what
/// stands before the first `?`.
pub open spec fn route_key(path: Seq<char>) -> Seq<char> {
    path.take(first_index(path, '?') as int)
}

/// The answer a router gives a request. Whatever the answer, the server
/// then also writes the response of the fallback handler.
pub enum Dispatch {
    /// Call the handler of method `method` of route `route`.
    Handler { route: usize, method: usize },
    /// The path matches route `route` but no method of it matches: write
    /// `response`.
    MethodNotAllowed { route: usize, response: Response },
    /// No route matches.
    NotFound,
}

/// The `405 Method Not Allowed` response for a route with methods `mr`.
pub fn method_not_allowed<H>(mr: &MethodRouter<H>) -> (r: Response)
    ensures
        r.protocol == Protocol::HTTP_1_1,
        r.status_code@ == crate::text::decimal(405),
        r.status_text@ == "Method Not Allowed"@,
        r.headers@ == Map::<Seq<char>, Seq<char>>::empty().insert(
            "Content-Length"@,
            crate::text::decimal(0),
        ).insert("Content-Type"@, "text/html"@).insert("Allowed"@, allowed_value(mr.methods())),
        r.body@ == Seq::<u8>::empty(),
{
    let n = mr.len();
    let mut allowed: Vec<char> = Vec::new();
    let mut i: usize = 0;
    while i < n
        invariant
            n == mr.methods().len(),
            i <= n,
            allowed@ == allowed_value(mr.methods().take(i as int)),
        decreases n - i,
    {
        let ghost ms = mr.methods();
        if i > 0 {
            allowed.push(',');
            allowed.push(' ');
        }
        let m = mr.method_at(i);
        push_all(&mut allowed, &chars_of(m.to_string().as_str()));
        i += 1;
        proof {
            assert(ms.take(i as int).drop_last() == ms.take(i - 1));
            assert(ms.take(i as int).last() == ms[i - 1]);
            if i == 1 {
                assert(ms.take(0) =~= Seq::<Method>::empty());
                assert(allowed@ =~= allowed_value(ms.take(i as int)));
            } else {
                assert(allowed@ =~= allowed_value(ms.take(i as int)));
            }
        }
    }
    assert(mr.methods().take(n as int) == mr.methods());
    let r0 = Response::new().set_protocol(Protocol::HTTP_1_1).set_status_code(405).set_status_text(
        "Method Not Allowed",
    );
    let r1 = r0.set_header("Allowed", string_of(&allowed).as_str());
    let r = r1.set_body(Vec::new());
    proof {
        reveal_strlit("Content-Length");
        reveal_strlit("Content-Type");
        reveal_strlit("Allowed");
        let cl = "Content-Length"@;
        let ct = "Content-Type"@;
        let al = "Allowed"@;
        assert(cl.len() != ct.len() && cl.len() != al.len() && ct.len() != al.len());
        assert(r.headers@ =~= Map::<Seq<char>, Seq<char>>::empty().insert(
            cl,
            crate::text::decimal(0),
        ).insert(ct, "text/html"@).insert(al, allowed_value(mr.methods())));
    }
    r
}

impl<H> Router<H> {
    /// What `dispatch` answers `req` with: the first route equal to the
    /// request's path up to any `?`, and the first of its methods that is the
    /// request's method; the `405` response when the route has no such
    /// method; `NotFound` when no route matches.
    pub open spec fn dispatched(&self, req: Request, d: Dispatch) -> bool {
        match d {
            Dispatch::Handler { route, method } => {
                &&& route < self.routes().len()
                &&& self.routes()[route as int] == route_key(req.path@)
                &&& forall|t: int| 0 <= t < route ==> self.routes()[t] != route_key(req.path@)
                &&& method < self.methods_of(route as int).len()
                &&& self.methods_of(route as int)[method as int] == req.method
                &&& forall|t: int| 0 <= t < method ==> self.methods_of(route as int)[t] != req.method
            },
            Dispatch::MethodNotAllowed { route, response } => {
                &&& route < self.routes().len()
                &&& self.routes()[route as int] == route_key(req.path@)
                &&& forall|t: int| 0 <= t < route ==> self.routes()[t] != route_key(req.path@)
                &&& !self.methods_of(route as int).contains(req.method)
                &&& response.protocol == Protocol::HTTP_1_1
                &&& response.status_code@ == crate::text::decimal(405)
                &&& response.status_text@ == "Method Not Allowed"@
                &&& response.headers@ == Map::<Seq<char>, Seq<char>>::empty().insert(
                    "Content-Length"@,
                    crate::text::decimal(0),
                ).insert("Content-Type"@, "text/html"@).insert(
                    "Allowed"@,
                    allowed_value(self.methods_of(route as int)),
                )
                &&& response.body@ == Seq::<u8>::empty()
            },
            Dispatch::NotFound => !self.routes().contains(route_key(req.path@)),
        }
    }

    /// Decides what answers `req`: the route whose path is the request's
    /// path up to any `?`, and its handler for the request's method.
    pub fn dispatch(&self, req: &Request) -> (r: Dispatch)
        ensures
            self.dispatched(*req, r),
    {
        let path = chars_of(req.path.as_str());
        let q = find_char(&path, '?');
        let key = sub_chars(&path, 0, q);
        assert(key@ == route_key(req.path@));
        let i = self.find_route(&key);
        if i == self.routes.len() {
            return Dispatch::NotFound;
        }
        let mr = self.method_router(i);
        let n = mr.len();
        let mut j: usize = 0;
        while j < n
            invariant
                n == mr.methods().len(),
                i < self.routes().len(),
                self.routes()[i as int] == route_key(req.path@),
                forall|t: int| 0 <= t < i ==> self.routes()[t] != route_key(req.path@),
                mr.methods() == self.methods_of(i as int),
                j <= n,
                forall|t: int| 0 <= t < j ==> mr.methods()[t] != req.method,
            decreases n - j,
        {
            let mj = mr.method_at(j);
            if mj == req.method {
                return Dispatch::Handler { route: i, method: j };
            }
            j += 1;
        }
        Dispatch::MethodNotAllowed { route: i, response: method_not_allowed(mr) }
    }
}

/// The `400 Bad Request` response to a request that cannot be read: the
/// default response with that status line.
pub open spec fn bad_request_reply(r: Response) -> bool {
    &&& r.protocol == Protocol::HTTP_1_1
    &&& r.status_code@ == crate::text::decimal(400)
    &&& r.status_text@ == "Bad Request"@
    &&& r.body@ == vstd::utf8::encode_utf8(crate::http::default_page())
    &&& r.headers@ == Map::<Seq<char>, Seq<char>>::empty().insert(
        "Content-Length"@,
        crate::text::decimal(r.body@.len()),
    ).insert("Content-Type"@, "text/html"@)
    &&& r.headers.entries_view() == seq![
        ("Content-Length"@, crate::text::decimal(r.body@.len())),
        ("Content-Type"@, "text/html"@),
    ]
}

/// The `400 Bad Request` response to a request that cannot be read.
pub fn bad_request_response() -> (r: Response)
    ensures
        bad_request_reply(r),
{
    Response::new().set_protocol(Protocol::HTTP_1_1).set_status_code(400).set_status_text(
        "Bad Request",
    )
}

/// The message of the response to a connection whose first read fails.
pub open spec fn read_error_message() -> Seq<char> {
    "\"message\": \"invalid encoding request into UTF8\""@
}

/// The `400 Bad Request` response to a connection whose first read fails,
/// with a JSON message.
pub open spec fn read_error_reply(r: Response) -> bool {
    &&& r.protocol == Protocol::HTTP_1_1
    &&& r.status_code@ == crate::text::decimal(400)
    &&& r.status_text@ == "Bad Request"@
    &&& r.body@ == vstd::utf8::encode_utf8(read_error_message())
    &&& r.headers@ == Map::<Seq<char>, Seq<char>>::empty().insert(
        "Content-Length"@,
        crate::text::decimal(r.body@.len()),
    ).insert("Content-Type"@, "application/json"@)
}

/// The response to a connection whose first read fails.
pub fn read_error_response() -> (r: Response)
    ensures
        read_error_reply(r),
{
    let msg = String::from_str("\"message\": \"invalid encoding request into UTF8\"");
    let body = vstd::slice::slice_to_vec(msg.as_str().as_bytes());
    let r0 = Response::new().set_protocol(Protocol::HTTP_1_1).set_status_code(400).set_status_text(
        "Bad Request",
    ).set_header("Content-Type", "application/json");
    let r = r0.set_body(body);
    proof {
        reveal_strlit("Content-Length");
        reveal_strlit("Content-Type");
        let cl = "Content-Length"@;
        let ct = "Content-Type"@;
        assert(cl.len() != ct.len());
        assert(r.headers@ =~= Map::<Seq<char>, Seq<char>>::empty().insert(
            cl,
            crate::text::decimal(r.body@.len()),
        ).insert(ct, "application/json"@));
    }
    r
}

/// The page of the built-in fallback in a debug build.
pub open spec fn fallback_debug_page() -> Seq<char> {
    "<h1>fallback</h1><p>this handler is called when no route is match, change this handler using Router::fallback</p>"@
}

/// The page of the built-in fallback in a release build.
pub open spec fn fallback_release_page() -> Seq<char> {
    "<h1>Not Found</1>"@
}

/// The `404 Not Found` response of the built-in fallback; its page depends
/// on whether this is a debug build.
pub open spec fn not_found_reply(r: Response, debug_build: bool) -> bool {
    &&& r.protocol == Protocol::HTTP_1_1
    &&& r.status_code@ == crate::text::decimal(404)
    &&& r.status_text@ == "Not Found"@
    &&& r.body@ == vstd::utf8::encode_utf8(
        if debug_build {
            fallback_debug_page()
        } else {
            fallback_release_page()
        },
    )
    &&& r.headers@ == Map::<Seq<char>, Seq<char>>::empty().insert(
        "Content-Length"@,
        crate::text::decimal(r.body@.len()),
    ).insert("Content-Type"@, "text/html"@)
}

/// The response of the built-in fallback.
pub fn not_found_response(debug_build: bool) -> (r: Response)
    ensures
        not_found_reply(r, debug_build),
{
    let page = if debug_build {
        String::from_str(
            "<h1>fallback</h1><p>this handler is called when no route is match, change this handler using Router::fallback</p>",
        )
    } else {
        String::from_str("<h1>Not Found</1>")
    };
    let body = vstd::slice::slice_to_vec(page.as_str().as_bytes());
    let r0 = Response::new().set_protocol(Protocol::HTTP_1_1).set_status_code(404).set_status_text(
        "Not Found",
    );
    let r = r0.set_body(body);
    proof {
        reveal_strlit("Content-Length");
        reveal_strlit("Content-Type");
        let cl = "Content-Length"@;
        let ct = "Content-Type"@;
        assert(cl.len() != ct.len());
        assert(r.headers@ =~= Map::<Seq<char>, Seq<char>>::empty().insert(
            cl,
            crate::text::decimal(r.body@.len()),
        ).insert(ct, "text/html"@));
    }
    r
}

/// Whether a connection's first chunk of input is accepted: it must be
/// well-formed UTF-8 (padding NUL bytes included).
pub fn first_chunk_accepted(chunk: &[u8]) -> (r: bool)
    ensures
        r == vstd::utf8::valid_utf8(chunk@),
{
    is_utf8(chunk)
}

/// Whether another chunk must be read after `chunk`: a read that filled the
/// whole buffer leaves no NUL byte at its end.
pub fn needs_more_input(chunk: &[u8]) -> (r: bool)
    requires
        chunk.len() > 0,
    ensures
        r == (chunk@.last() != 0),
{
    chunk[chunk.len() - 1] != 0
}


/// What the server does after the first read of a connection.
pub enum FirstRead {
    /// The read failed: write `response`, and nothing more.
    Refuse(Response),
    /// The chunk is not UTF-8: close without a reply.
    Drop,
    /// Go on reading the request.
    Continue,
}

/// Decides what follows the first read of a connection: whether it
/// succeeded (`read_ok`) and the buffer it filled (`chunk`).
pub fn on_first_read(read_ok: bool, chunk: &[u8]) -> (r: FirstRead)
    ensures
        match r {
            FirstRead::Refuse(response) => !read_ok && read_error_reply(response),
            FirstRead::Drop => read_ok && !vstd::utf8::valid_utf8(chunk@),
            FirstRead::Continue => read_ok && vstd::utf8::valid_utf8(chunk@),
        },
{
    if !read_ok {
        FirstRead::Refuse(read_error_response())
    } else if first_chunk_accepted(chunk) {
        FirstRead::Continue
    } else {
        FirstRead::Drop
    }
}

/// What answers a request after the router's own answer: the fallback
/// handler that was set, or the built-in `404 Not Found` page.
pub enum FallbackAnswer {
    /// Call the fallback handler.
    Handler,
    /// Write this page.
    Page(Response),
}

/// What the server does with a request that it has read in full.
pub enum Answer {
    /// The request line's method is not one the reader knows: the
    /// connection's task gives up (it panics).
    Unreadable,
    /// The request cannot be read: write this `400 Bad Request` response.
    BadRequest(Response),
    /// Write the router's answer (`dispatch`: the handler's response, the
    /// `405` response, or nothing), then always the fallback's answer.
    Serve { request: Request, dispatch: Dispatch, fallback: FallbackAnswer },
}

impl<H> Router<H> {
    /// What answers a request that has no route: the fallback handler if
    /// one was set, else the built-in page.
    pub fn fallback_answer(&self, debug_build: bool) -> (r: FallbackAnswer)
        ensures
            r is Handler <==> self.fallback_handler() is Some,
            r matches FallbackAnswer::Page(page) ==> not_found_reply(page, debug_build),
    {
        match &self.fallback {
            Some(_) => FallbackAnswer::Handler,
            None => FallbackAnswer::Page(not_found_response(debug_build)),
        }
    }

    /// Decides what the server writes for the bytes `input` of a request.
    pub fn answer(&self, input: &[u8], debug_build: bool) -> (r: Answer)
        ensures
            match r {
                Answer::Unreadable => !request_head_ok(input@),
                Answer::BadRequest(response) => {
                    &&& request_head_ok(input@)
                    &&& request_parse(input@) is Err
                    &&& bad_request_reply(response)
                },
                Answer::Serve { request, dispatch, fallback } => {
                    &&& request_head_ok(input@)
                    &&& request_parse(input@) == Ok::<_, Seq<char>>(
                        (
                            request.method,
                            request.path@,
                            request.protocol,
                            request.headers@,
                            request.body@,
                        ),
                    )
                    &&& self.dispatched(request, dispatch)
                    &&& (fallback is Handler <==> self.fallback_handler() is Some)
                    &&& (fallback matches FallbackAnswer::Page(page) ==> not_found_reply(
                        page,
                        debug_build,
                    ))
                },
            },
    {
        if !Request::head_is_supported(input) {
            return Answer::Unreadable;
        }
        match Request::try_from(input) {
            Err(_) => Answer::BadRequest(bad_request_response()),
            Ok(request) => {
                let dispatch = self.dispatch(&request);
                let fallback = self.fallback_answer(debug_build);
                Answer::Serve { request, dispatch, fallback }
            },
        }
    }
}

/// The characters that `percent_encoding` encodes, each with its encoding.
pub open spec fn encoding_table() -> Seq<(char, Seq<char>)> {
    seq![
        (':', seq!['%', '3', 'A']),
        ('/', seq!['%', '2', 'F']),
        ('?', seq!['%', '3', 'F']),
        ('#', seq!['%', '2', '3']),
        ('[', seq!['%', '5', 'B']),
        (']', seq!['%', '5', 'D']),
        ('@', seq!['%', '4', '0']),
        ('!', seq!['%', '2', '1']),
        ('$', seq!['%', '2', '4']),
        ('&', seq!['%', '2', '6']),
        ('\'', seq!['%', '2', '7']),
        ('(', seq!['%', '2', '8']),
        (')', seq!['%', '2', '9']),
        ('*', seq!['%', '2', 'A']),
        ('+', seq!['%', '2', 'B']),
        (',', seq!['%', '2', 'C']),
        (';', seq!['%', '3', 'B']),
        ('=', seq!['%', '3', 'D']),
        ('%', seq!['%', '2', '5']),
        (' ', seq!['%', '2', '0']),
    ]
}

/// `s` with the characters of the table replaced one table entry after
/// another, in the order of `order` (positions in the table).
pub open spec fn encode_in_order(s: Seq<char>, order: Seq<usize>) -> Seq<char>
    decreases order.len(),
{
    if order.len() == 0 {
        s
    } else {
        let e = encoding_table()[order.last() as int];
        crate::text::replace_all(encode_in_order(s, order.drop_last()), seq![e.0], e.1)
    }
}

/// Entry `i` of the encoding table.
fn table_entry(i: usize) -> (r: (char, Vec<char>))
    requires
        i < 20,
    ensures
        r.0 == encoding_table()[i as int].0,
        r.1@ == encoding_table()[i as int].1,
{
    let (c, a, b) = if i == 0 {
        (':', '3', 'A')
    } else if i == 1 {
        ('/', '2', 'F')
    } else if i == 2 {
        ('?', '3', 'F')
    } else if i == 3 {
        ('#', '2', '3')
    } else if i == 4 {
        ('[', '5', 'B')
    } else if i == 5 {
        (']', '5', 'D')
    } else if i == 6 {
        ('@', '4', '0')
    } else if i == 7 {
        ('!', '2', '1')
    } else if i == 8 {
        ('$', '2', '4')
    } else if i == 9 {
        ('&', '2', '6')
    } else if i == 10 {
        ('\'', '2', '7')
    } else if i == 11 {
        ('(', '2', '8')
    } else if i == 12 {
        (')', '2', '9')
    } else if i == 13 {
        ('*', '2', 'A')
    } else if i == 14 {
        ('+', '2', 'B')
    } else if i == 15 {
        (',', '2', 'C')
    } else if i == 16 {
        (';', '3', 'B')
    } else if i == 17 {
        ('=', '3', 'D')
    } else if i == 18 {
        ('%', '2', '5')
    } else {
        (' ', '2', '0')
    };
    let mut enc: Vec<char> = Vec::new();
    enc.push('%');
    enc.push(a);
    enc.push(b);
    assert(enc@ =~= encoding_table()[i as int].1);
    (c, enc)
}

/// Applies the encoding table to `string`, entry after entry, in the order
/// given by `order`.
pub fn percent_encoding_in_order(string: String, order: &Vec<usize>) -> (r: String)
    requires
        forall|i: int| 0 <= i < order.len() ==> #[trigger] order@[i] < 20,
    ensures
        r@ == encode_in_order(string@, order@),
{
    let mut s = chars_of(string.as_str());
    let mut i: usize = 0;
    while i < order.len()
        invariant
            i <= order.len(),
            forall|j: int| 0 <= j < order.len() ==> #[trigger] order@[j] < 20,
            s@ == encode_in_order(string@, order@.take(i as int)),
        decreases order.len() - i,
    {
        let (c, enc) = table_entry(order[i]);
        let mut pat: Vec<char> = Vec::new();
        pat.push(c);
        assert(pat@ =~= seq![c]);
        s = crate::text::replace_all_exec(&s, &pat, &enc);
        i += 1;
        assert(order@.take(i as int).drop_last() == order@.take(i - 1));
        assert(order@.take(i as int).last() == order@[i - 1]);
    }
    assert(order@.take(i as int) == order@);
    string_of(&s)
}

/// The keys `0..n` in the order in which a `std::collections::HashMap`
/// holding them yields them. The order is not stated: a map's hasher is
/// seeded at random, so it differs from map to map. What every walk gives
/// is each key exactly once.
fn hash_map_walk(n: usize) -> (r: Vec<usize>)
    ensures
        r@.len() == n,
        forall|i: int| 0 <= i < n ==> #[trigger] r@[i] < n,
        forall|i: int, j: int| 0 <= i < n && 0 <= j < n && i != j ==> r@[i] != r@[j],
{
    broadcast use vstd::std_specs::hash::group_hash_axioms;

    let mut m: HashMap<usize, ()> = HashMap::new();
    let mut i: usize = 0;
    while i < n
        invariant
            i <= n,
            forall|k: usize| #[trigger] m@.contains_key(k) <==> k < i,
            m@.dom().len() == i,
        decreases n - i,
    {
        proof {
            assert(!m@.dom().contains(i));
            assert(m@.dom().finite());
        }
        m.insert(i, ());
        i += 1;
    }
    let mut r: Vec<usize> = Vec::new();
    let ghost keys = m@.dom();
    for k in it: m.keys()
        invariant
            keys == m@.dom(),
            r@ == it.seq().take(it.index() as int).unref(),
    {
        r.push(*k);
    }
    proof {
        let s = vstd::std_specs::iter::IteratorSpec::remaining(&vstd::std_specs::hash::spec_keys_iter(&m));
        assert(r@ == s.unref());
        assert(s.unref().to_set() == keys);
        assert(s.unref().len() == n);
        assert forall|a: int| 0 <= a < n implies #[trigger] r@[a] < n by {
            assert(s.unref().to_set().contains(r@[a]));
        }
        assert forall|a: int, b: int| 0 <= a < n && 0 <= b < n && a != b implies r@[a] != r@[b] by {
            assert(s.no_duplicates());
            assert(s[a] != s[b]);
            assert(r@[a] == *s[a]);
            assert(r@[b] == *s[b]);
        }
    }
    r
}

/// A walk of the whole encoding table: each of its 20 positions once.
pub open spec fn table_walk(order: Seq<usize>) -> bool {
    &&& order.len() == 20
    &&& forall|i: int| 0 <= i < 20 ==> #[trigger] order[i] < 20
    &&& forall|i: int, j: int| 0 <= i < 20 && 0 <= j < 20 && i != j ==> order[i] != order[j]
}

/// Percent-encodes the reserved characters of `string` by replacing them
/// one table entry after another, in the order in which a hash map walks
/// the table. The order is not fixed, and the result depends on it: when
/// `%` is replaced after another character, the `%` of that character's
/// encoding is encoded again.
pub fn percent_encoding(string: String) -> (r: String)
    ensures
        exists|order: Seq<usize>| table_walk(order) && r@ == encode_in_order(string@, order),
{
    let order = hash_map_walk(20);
    let r = percent_encoding_in_order(string, &order);
    assert(table_walk(order@));
    r
}

} // verus!
