//! Extractors: values that a handler takes, read out of the request that it
//! answers. The query string, the parameters of a route's path, and the
//! cookies each come as a map from names to values.

use vstd::prelude::*;
use crate::http::{Method, Request};
use crate::outside::{
    file_url_outcome, file_url_segments, lossy_chars, percent_decode_bytes, percent_decoded,
    lossy_text, regex_capture, regex_first_capture, string_of,
};
use crate::strmap::StrMap;
use crate::text::{chars_of, find_char, first_index, lemma_first_index, sub_chars, trim_ws, trim_ws_exec};

use crate::text::{lemma_first_index_after, lemma_first_index_unique};

verus! {

/// A value that can be built from a request. `req` is the request from the
/// client and `matched` the route that it matched: its method and path.
pub trait FromRequest: Sized {
    fn extract(req: Request, matched: (Method, String)) -> Self;
}

impl FromRequest for Request {
    fn extract(req: Request, _matched: (Method, String)) -> (r: Self)
        ensures
            r == req,
    {
        req
    }
}

/// The parameters of the query string.
pub struct Query(pub StrMap);

/// The state of reading a query string: whether the value is being read,
/// the name so far, the value so far, and the parameters read.
pub type QueryState = (bool, Seq<char>, Seq<char>, Map<Seq<char>, Seq<char>>);

/// One character of a query string. `=` switches to the value; `&` stores
/// the parameter and starts the next; any other character extends the name
/// or the value, and the last character of the string also stores the
/// parameter. A name or value that ends the string with `=` or `&`
/// pending is not stored by the last character.
pub open spec fn query_step(st: QueryState, c: char, last: bool) -> QueryState {
    if c == '=' {
        (true, st.1, st.2, st.3)
    } else if c == '&' {
        (false, Seq::empty(), Seq::empty(), st.3.insert(st.1, st.2))
    } else {
        let k = if st.0 {
            st.1
        } else {
            st.1.push(c)
        };
        let v = if st.0 {
            st.2.push(c)
        } else {
            st.2
        };
        if last {
            (st.0, Seq::empty(), Seq::empty(), st.3.insert(k, v))
        } else {
            (st.0, k, v, st.3)
        }
    }
}

/// Reads the characters of `s` from state `st`.
pub open spec fn query_run(s: Seq<char>, st: QueryState) -> QueryState
    decreases s.len(),
{
    if s.len() == 0 {
        st
    } else {
        query_run(s.drop_first(), query_step(st, s[0], s.len() == 1))
    }
}

/// The query string of a path: what follows the first `?`, up to the first
/// `#` after it; `None` when the path has no `?`.
pub open spec fn query_string(path: Seq<char>) -> Option<Seq<char>> {
    let q = first_index(path, '?');
    if q == path.len() {
        None
    } else {
        let after = path.skip(q + 1int);
        Some(after.take(first_index(after, '#') as int))
    }
}

/// The query parameters of a path.
pub open spec fn query_map(path: Seq<char>) -> Map<Seq<char>, Seq<char>> {
    match query_string(path) {
        None => Map::empty(),
        Some(q) => query_run(q, (false, Seq::empty(), Seq::empty(), Map::empty())).3,
    }
}

impl Query {
    /// The query parameters of `path`.
    pub fn from_path(path: &str) -> (r: Query)
        ensures
            r.0@ == query_map(path@),
    {
        let p = chars_of(path);
        let q = find_char(&p, '?');
        if q == p.len() {
            return Query(StrMap::new());
        }
        let after = sub_chars(&p, q + 1, p.len());
        let h = find_char(&after, '#');
        let s = sub_chars(&after, 0, h);
        proof {
            assert(after@ == p@.skip(q + 1));
            assert(s@ == after@.take(h as int));
        }
        let ghost init: QueryState = (false, Seq::empty(), Seq::empty(), Map::empty());
        let mut v_area = false;
        let mut k: Vec<char> = Vec::new();
        let mut v: Vec<char> = Vec::new();
        let mut map = StrMap::new();
        let mut i: usize = 0;
        assert(s@.skip(0) == s@);
        while i < s.len()
            invariant
                i <= s.len(),
                query_run(s@, init) == query_run(s@.skip(i as int), (v_area, k@, v@, map@)),
            decreases s.len() - i,
        {
            let ghost rest = s@.skip(i as int);
            let ghost st: QueryState = (v_area, k@, v@, map@);
            let c = s[i];
            let last = i + 1 == s.len();
            assert(rest[0] == c);
            assert(rest.drop_first() == s@.skip(i + 1));
            if c == '=' {
                v_area = true;
            } else if c == '&' {
                v_area = false;
                map.insert(string_of(&k), string_of(&v));
                k = Vec::new();
                v = Vec::new();
            } else {
                if v_area {
                    v.push(c);
                } else {
                    k.push(c);
                }
                if last {
                    map.insert(string_of(&k), string_of(&v));
                    k = Vec::new();
                    v = Vec::new();
                }
            }
            assert((v_area, k@, v@, map@) == query_step(st, c, rest.len() == 1));
            i += 1;
        }
        Query(map)
    }
}

impl FromRequest for Query {
    fn extract(req: Request, _matched: (Method, String)) -> (r: Self)
        ensures
            r.0@ == query_map(req.path@),
    {
        Query::from_path(req.path.as_str())
    }
}


/// The cookies of the request, from its `Cookie` header.
pub struct CookieStore(pub StrMap);

/// One `name=value` pair at the start of `s`: the name runs up to the first
/// `=` and is not empty, the value runs from there up to the first `;` (or
/// the end) and is not empty. The result gives both and the number of
/// characters read.
pub open spec fn cookie_pair(s: Seq<char>) -> Option<(Seq<char>, Seq<char>, nat)> {
    let ki = first_index(s, '=');
    if ki == 0 || ki >= s.len() {
        None
    } else {
        let rest = s.skip(ki + 1int);
        let vi = first_index(rest, ';');
        if vi == 0 {
            None
        } else {
            Some((s.take(ki as int), rest.take(vi as int), ki + 1 + vi))
        }
    }
}

pub proof fn lemma_cookie_pair(s: Seq<char>)
    ensures
        cookie_pair(s) matches Some((k, v, n)) ==> 2 <= n <= s.len(),
{
    lemma_first_index(s, '=');
    let ki = first_index(s, '=');
    if ki > 0 && ki < s.len() {
        lemma_first_index(s.skip(ki + 1int), ';');
    }
}

/// The pairs that follow, each after a `"; "` separator, up to the first
/// separator that is not followed by a pair.
pub open spec fn more_cookie_pairs(s: Seq<char>) -> Seq<(Seq<char>, Seq<char>)>
    decreases s.len(),
{
    if s.len() >= 2 && s[0] == ';' && s[1] == ' ' {
        match cookie_pair(s.skip(2)) {
            Some((k, v, n)) => {
                proof {
                    lemma_cookie_pair(s.skip(2));
                }
                seq![(k, v)] + more_cookie_pairs(s.skip(2 + n as int))
            },
            None => Seq::empty(),
        }
    } else {
        Seq::empty()
    }
}

/// The pairs of a cookie header: a first pair, then the pairs that follow
/// it; none when the header does not start with a pair.
pub open spec fn cookie_pairs(s: Seq<char>) -> Seq<(Seq<char>, Seq<char>)> {
    match cookie_pair(s) {
        Some((k, v, n)) => seq![(k, v)] + more_cookie_pairs(s.skip(n as int)),
        None => Seq::empty(),
    }
}

/// `m` with the pairs of `ps` stored in order, a later pair replacing an
/// earlier one with the same name.
pub open spec fn insert_all(m: Map<Seq<char>, Seq<char>>, ps: Seq<(Seq<char>, Seq<char>)>) -> Map<
    Seq<char>,
    Seq<char>,
>
    decreases ps.len(),
{
    if ps.len() == 0 {
        m
    } else {
        insert_all(m.insert(ps[0].0, ps[0].1), ps.drop_first())
    }
}

/// The cookies that a `Cookie` header value sets.
pub open spec fn cookie_map(s: Seq<char>) -> Map<Seq<char>, Seq<char>> {
    insert_all(Map::empty(), cookie_pairs(s))
}

/// The cookies that a request sets: none without a `Cookie` header.
pub open spec fn request_cookies(headers: Map<Seq<char>, Seq<char>>) -> Map<Seq<char>, Seq<char>> {
    if headers.contains_key("Cookie"@) {
        cookie_map(headers["Cookie"@])
    } else {
        Map::empty()
    }
}

/// Reads a pair at position `i` of `s`.
fn cookie_pair_at(s: &Vec<char>, i: usize) -> (r: Option<(Vec<char>, Vec<char>, usize)>)
    requires
        i <= s.len(),
    ensures
        match (r, cookie_pair(s@.skip(i as int))) {
            (Some((k, v, n)), Some((ks, vs, ns))) => k@ == ks && v@ == vs && n == ns,
            (None, None) => true,
            _ => false,
        },
{
    let t = sub_chars(s, i, s.len());
    assert(t@ == s@.skip(i as int));
    let ki = find_char(&t, '=');
    if ki == 0 || ki >= t.len() {
        return None;
    }
    let rest = sub_chars(&t, ki + 1, t.len());
    assert(rest@ == t@.skip(ki + 1int));
    let vi = find_char(&rest, ';');
    if vi == 0 {
        return None;
    }
    let k = sub_chars(&t, 0, ki);
    let v = sub_chars(&rest, 0, vi);
    assert(k@ == t@.take(ki as int));
    assert(v@ == rest@.take(vi as int));
    Some((k, v, ki + 1 + vi))
}

/// Stores the pairs that follow position `start` of `s` in `map`.
fn insert_more_pairs(s: &Vec<char>, start: usize, map: &mut StrMap)
    requires
        start <= s.len(),
    ensures
        final(map)@ == insert_all(old(map)@, more_cookie_pairs(s@.skip(start as int))),
{
    let mut i = start;
    loop
        invariant
            start <= i <= s.len(),
            insert_all(old(map)@, more_cookie_pairs(s@.skip(start as int))) == insert_all(
                map@,
                more_cookie_pairs(s@.skip(i as int)),
            ),
        decreases s.len() - i,
    {
        let ghost rest = s@.skip(i as int);
        if i < s.len() && s.len() - i >= 2 && s[i] == ';' && s[i + 1] == ' ' {
            assert(rest[0] == ';' && rest[1] == ' ');
            assert(rest.skip(2) == s@.skip(i + 2));
            match cookie_pair_at(s, i + 2) {
                Some((k, v, n)) => {
                    let ghost old_map = map@;
                    proof {
                        lemma_cookie_pair(s@.skip(i + 2));
                        assert(rest.skip(2 + n) == s@.skip(i + 2 + n));
                        let ps = more_cookie_pairs(rest);
                        assert(ps == seq![(k@, v@)] + more_cookie_pairs(s@.skip(i + 2 + n)));
                        assert(ps[0] == (k@, v@));
                        assert(ps.drop_first() == more_cookie_pairs(s@.skip(i + 2 + n)));
                    }
                    map.insert(string_of(&k), string_of(&v));
                    i = i + 2 + n;
                },
                None => {
                    assert(more_cookie_pairs(rest) =~= Seq::<(Seq<char>, Seq<char>)>::empty());
                    return;
                },
            }
        } else {
            if i < s.len() && s.len() - i >= 2 {
                assert(rest[0] == s@[i as int] && rest[1] == s@[i + 1]);
            }
            assert(more_cookie_pairs(rest) =~= Seq::<(Seq<char>, Seq<char>)>::empty());
            return;
        }
    }
}

impl CookieStore {
    /// The cookies that a `Cookie` header value sets.
    pub fn from_header(value: &str) -> (r: CookieStore)
        ensures
            r.0@ == cookie_map(value@),
    {
        let s = chars_of(value);
        let mut map = StrMap::new();
        assert(s@.skip(0) == s@);
        match cookie_pair_at(&s, 0) {
            None => {
                assert(map@ =~= cookie_map(value@));
            },
            Some((k, v, n)) => {
                proof {
                    lemma_cookie_pair(s@);
                    let ps = cookie_pairs(s@);
                    assert(ps[0] == (k@, v@));
                    assert(ps.drop_first() == more_cookie_pairs(s@.skip(n as int)));
                }
                map.insert(string_of(&k), string_of(&v));
                insert_more_pairs(&s, n, &mut map);
            },
        }
        CookieStore(map)
    }
}

impl FromRequest for CookieStore {
    fn extract(req: Request, _matched: (Method, String)) -> (r: Self)
        ensures
            r.0@ == request_cookies(req.headers@),
    {
        match req.headers.get("Cookie") {
            Some(value) => CookieStore::from_header(value.as_str()),
            None => CookieStore(StrMap::new()),
        }
    }
}


/// The parameters of a route's path: for a route segment such as `{id}`,
/// the value that the request's path holds at that place.
pub struct Path(pub StrMap);

/// The regular expression that finds a parameter's name in a route segment
/// (`{` and `}` are percent-encoded in URL path segments).
pub open spec fn segment_pattern() -> Seq<char> {
    "(%7B)(.*+)(%7D)"@
}

/// The value that a request path segment gives: percent-decoded, then
/// decoded as UTF-8 with invalid sequences replaced.
pub open spec fn segment_value(seg: Seq<char>) -> Seq<char> {
    lossy_text(percent_decoded(vstd::utf8::encode_utf8(seg)))
}

/// The parameters that segments `cs` of a request path give for the
/// segments `ms` of a route (as many of each), a later one replacing an
/// earlier one with the same name.
pub open spec fn path_params(cs: Seq<Seq<char>>, ms: Seq<Seq<char>>) -> Map<Seq<char>, Seq<char>>
    decreases ms.len(),
{
    if ms.len() == 0 {
        Map::empty()
    } else {
        let prev = path_params(cs.drop_last(), ms.drop_last());
        match regex_capture(segment_pattern(), ms.last(), 2) {
            Some(name) => prev.insert(trim_ws(name), segment_value(cs.last())),
            None => prev,
        }
    }
}

/// The segment lists of two URLs, when there are two.
pub open spec fn segment_seqs(o: Option<Vec<String>>) -> Option<Seq<Seq<char>>> {
    match o {
        Some(v) => Some(v@.map_values(|s: String| s@)),
        None => None,
    }
}

/// The parameters: none unless both lists are there and have the same
/// length.
pub open spec fn path_map(cs: Option<Seq<Seq<char>>>, ms: Option<Seq<Seq<char>>>) -> Map<
    Seq<char>,
    Seq<char>,
> {
    match (cs, ms) {
        (Some(c), Some(m)) => if c.len() == m.len() {
            path_params(c, m)
        } else {
            Map::empty()
        },
        _ => Map::empty(),
    }
}

/// The name that a route segment declares (`{id}`, percent-encoded as the
/// URL gives it), trimmed; `None` for a segment that declares none.
pub open spec fn segment_name(m: Seq<char>) -> Option<Seq<char>> {
    match regex_capture(segment_pattern(), m, 2) {
        Some(n) => Some(trim_ws(n)),
        None => None,
    }
}

/// The parameters of a route: a name is among them exactly when some
/// route segment declares it, and its value is the request's segment at
/// the last place that declares it, decoded. So every parameter is kept,
/// not only the last one read.
pub proof fn lemma_path_params_at(cs: Seq<Seq<char>>, ms: Seq<Seq<char>>, k: Seq<char>)
    requires
        cs.len() == ms.len(),
    ensures
        path_params(cs, ms).contains_key(k) <==> exists|i: int|
            0 <= i < ms.len() && #[trigger] segment_name(ms[i]) == Some(k),
        forall|i: int|
            0 <= i < ms.len() && #[trigger] segment_name(ms[i]) == Some(k) && (forall|j: int|
                i < j < ms.len() ==> segment_name(ms[j]) != Some(k)) ==> path_params(cs, ms)[k]
                == segment_value(cs[i]),
    decreases ms.len(),
{
    if ms.len() > 0 {
        let n = ms.len() - 1;
        let cp = cs.drop_last();
        let mp = ms.drop_last();
        lemma_path_params_at(cp, mp, k);
        assert forall|i: int| 0 <= i < n implies #[trigger] mp[i] == ms[i] by {}
        if segment_name(ms[n]) == Some(k) {
            assert(segment_name(ms[n]) == Some(k));
            assert forall|i: int|
                0 <= i < ms.len() && #[trigger] segment_name(ms[i]) == Some(k) && (forall|j: int|
                    i < j < ms.len() ==> segment_name(ms[j]) != Some(k)) implies path_params(cs, ms)[k]
                == segment_value(cs[i]) by {
                if i < n {
                    assert(segment_name(ms[n]) != Some(k));
                }
            }
        } else {
            assert(path_params(cs, ms).contains_key(k) == path_params(cp, mp).contains_key(k));
            assert(path_params(cs, ms).contains_key(k) ==> path_params(cs, ms)[k] == path_params(
                cp,
                mp,
            )[k]);
            if path_params(cs, ms).contains_key(k) {
                let i = choose|i: int| 0 <= i < mp.len() && #[trigger] segment_name(mp[i]) == Some(k);
                assert(segment_name(ms[i]) == Some(k));
            }
            if exists|i: int| 0 <= i < ms.len() && #[trigger] segment_name(ms[i]) == Some(k) {
                let i = choose|i: int| 0 <= i < ms.len() && #[trigger] segment_name(ms[i]) == Some(k);
                assert(i < n);
                assert(segment_name(mp[i]) == Some(k));
            }
            assert forall|i: int|
                0 <= i < ms.len() && #[trigger] segment_name(ms[i]) == Some(k) && (forall|j: int|
                    i < j < ms.len() ==> segment_name(ms[j]) != Some(k)) implies path_params(cs, ms)[k]
                == segment_value(cs[i]) by {
                assert(i < n);
                assert(segment_name(mp[i]) == Some(k));
                assert forall|j: int| i < j < mp.len() implies segment_name(mp[j]) != Some(k) by {
                    assert(mp[j] == ms[j]);
                }
                assert(cp[i] == cs[i]);
            }
        }
    }
}

impl Path {
    /// The parameters from the path segments of the request (`client`) and
    /// of the route (`matched`), as `url` splits them.
    pub fn from_segments(client: Option<Vec<String>>, matched: Option<Vec<String>>) -> (r: Path)
        ensures
            r.0@ == path_map(segment_seqs(client), segment_seqs(matched)),
    {
        let mut map = StrMap::new();
        match (client, matched) {
            (Some(c), Some(m)) => {
                if c.len() != m.len() {
                    return Path(map);
                }
                let ghost cs = c@.map_values(|s: String| s@);
                let ghost ms = m@.map_values(|s: String| s@);
                let mut i: usize = 0;
                while i < m.len()
                    invariant
                        i <= m.len() == c.len(),
                        cs == c@.map_values(|s: String| s@),
                        ms == m@.map_values(|s: String| s@),
                        map@ == path_params(cs.take(i as int), ms.take(i as int)),
                    decreases m.len() - i,
                {
                    proof {
                        assert(cs.take(i + 1).drop_last() == cs.take(i as int));
                        assert(ms.take(i + 1).drop_last() == ms.take(i as int));
                        assert(cs.take(i + 1).last() == c@[i as int]@);
                        assert(ms.take(i + 1).last() == m@[i as int]@);
                    }
                    match regex_first_capture("(%7B)(.*+)(%7D)", m[i].as_str(), 2) {
                        Some(name) => {
                            let key = trim_ws_exec(&chars_of(name.as_str()));
                            let value = lossy_chars(
                                percent_decode_bytes(c[i].as_str().as_bytes()).as_slice(),
                            );
                            map.insert(string_of(&key), string_of(&value));
                        },
                        None => {},
                    }
                    i += 1;
                }
                assert(cs.take(i as int) == cs);
                assert(ms.take(i as int) == ms);
                Path(map)
            },
            _ => Path(map),
        }
    }
}

/// The request path as the path extractor reads it, decoded as a segment's
/// value is: percent-decoded, then decoded as UTF-8 with invalid sequences
/// replaced.
pub open spec fn decoded_path(path: Seq<char>) -> Seq<char> {
    segment_value(path)
}

impl FromRequest for Path {
    fn extract(req: Request, matched: (Method, String)) -> (r: Self)
        ensures
            exists|cs: Option<Seq<Seq<char>>>, ms: Option<Seq<Seq<char>>>|
                {
                    &&& file_url_outcome(decoded_path(req.path@), cs)
                    &&& file_url_outcome(matched.1@, ms)
                    &&& r.0@ == path_map(cs, ms)
                },
    {
        let decoded = lossy_chars(percent_decode_bytes(req.path.as_str().as_bytes()).as_slice());
        let client = file_url_segments(string_of(&decoded).as_str());
        let route = file_url_segments(matched.1.as_str());
        let ghost cs = segment_seqs(client);
        let ghost ms = segment_seqs(route);
        let r = Path::from_segments(client, route);
        assert(file_url_outcome(decoded_path(req.path@), cs));
        r
    }
}


/// A name or value that a query string carries as it is: no `=`, `&` or
/// `#` in it.
pub open spec fn query_plain(s: Seq<char>) -> bool {
    forall|i: int| 0 <= i < s.len() ==> #[trigger] s[i] != '=' && s[i] != '&' && s[i] != '#'
}

/// The query string that writes the pairs `ps`: `name=value`, joined by
/// `&`.
pub open spec fn query_text(ps: Seq<(Seq<char>, Seq<char>)>) -> Seq<char>
    decreases ps.len(),
{
    if ps.len() == 0 {
        Seq::empty()
    } else if ps.len() == 1 {
        ps[0].0 + seq!['='] + ps[0].1
    } else {
        ps[0].0 + seq!['='] + ps[0].1 + seq!['&'] + query_text(ps.drop_first())
    }
}

proof fn lemma_query_chunk(s: Seq<char>, t: Seq<char>, st: QueryState)
    requires
        query_plain(s),
        t.len() > 0,
    ensures
        query_run(s + t, st) == query_run(
            t,
            (
                st.0,
                if st.0 {
                    st.1
                } else {
                    st.1 + s
                },
                if st.0 {
                    st.2 + s
                } else {
                    st.2
                },
                st.3,
            ),
        ),
    decreases s.len(),
{
    if s.len() == 0 {
        assert(s + t == t);
        assert(st.1 + s == st.1 && st.2 + s == st.2);
    } else {
        let x = s + t;
        assert(x[0] == s[0]);
        assert(s[0] != '=' && s[0] != '&');
        assert(x.drop_first() == s.drop_first() + t);
        assert(query_plain(s.drop_first())) by {
            assert forall|i: int| 0 <= i < s.drop_first().len() implies #[trigger] s.drop_first()[i]
                != '=' && s.drop_first()[i] != '&' && s.drop_first()[i] != '#' by {
                assert(s.drop_first()[i] == s[i + 1]);
            }
        }
        let st1 = query_step(st, s[0], false);
        lemma_query_chunk(s.drop_first(), t, st1);
        assert(st.1.push(s[0]) + s.drop_first() == st.1 + s);
        assert(st.2.push(s[0]) + s.drop_first() == st.2 + s);
    }
}

proof fn lemma_query_last_chunk(s: Seq<char>, st: QueryState)
    requires
        query_plain(s),
        s.len() > 0,
    ensures
        query_run(s, st).3 == st.3.insert(
            if st.0 {
                st.1
            } else {
                st.1 + s
            },
            if st.0 {
                st.2 + s
            } else {
                st.2
            },
        ),
    decreases s.len(),
{
    assert(s[0] != '=' && s[0] != '&');
    if s.len() == 1 {
        assert(s.drop_first().len() == 0);
        let st1 = query_step(st, s[0], true);
        assert(query_run(s.drop_first(), st1) == st1);
        assert(query_run(s, st) == query_run(s.drop_first(), st1));
        assert(st.1.push(s[0]) == st.1 + s);
        assert(st.2.push(s[0]) == st.2 + s);
    } else {
        assert(query_plain(s.drop_first())) by {
            assert forall|i: int| 0 <= i < s.drop_first().len() implies #[trigger] s.drop_first()[i]
                != '=' && s.drop_first()[i] != '&' && s.drop_first()[i] != '#' by {
                assert(s.drop_first()[i] == s[i + 1]);
            }
        }
        let st1 = query_step(st, s[0], false);
        lemma_query_last_chunk(s.drop_first(), st1);
        assert(st.1.push(s[0]) + s.drop_first() == st.1 + s);
        assert(st.2.push(s[0]) + s.drop_first() == st.2 + s);
    }
}

#[verifier::spinoff_prover]
#[verifier::rlimit(40)]
proof fn lemma_query_run_pairs(ps: Seq<(Seq<char>, Seq<char>)>, m: Map<Seq<char>, Seq<char>>)
    requires
        ps.len() > 0,
        forall|i: int| 0 <= i < ps.len() ==> query_plain(#[trigger] ps[i].0) && query_plain(
            ps[i].1,
        ),
        ps.last().1.len() > 0,
    ensures
        query_run(query_text(ps), (false, Seq::empty(), Seq::empty(), m)).3 == insert_all(m, ps),
    decreases ps.len(),
{
    let k = ps[0].0;
    let v = ps[0].1;
    assert(query_plain(k) && query_plain(v));
    let e = Seq::<char>::empty();
    if ps.len() == 1 {
        let x = k + seq!['='] + v;
        assert(query_text(ps) == x);
        assert(v.len() > 0);
        lemma_query_chunk(k, seq!['='] + v, (false, e, e, m));
        assert(x == k + (seq!['='] + v));
        assert(e + k == k);
        let y = seq!['='] + v;
        assert(y[0] == '=' && y.drop_first() == v);
        assert(query_run(y, (false, k, e, m)) == query_run(v, (true, k, e, m)));
        lemma_query_last_chunk(v, (true, k, e, m));
        assert(e + v == v);
        assert(ps.drop_first().len() == 0);
        assert(insert_all(m, ps) == insert_all(m.insert(k, v), ps.drop_first()));
    } else {
        let rest = query_text(ps.drop_first());
        assert(ps.drop_first().len() > 0);
        assert(query_text(ps.drop_first()).len() > 0) by {
            let q = ps.drop_first();
            if q.len() == 1 {
                assert(query_text(q) == q[0].0 + seq!['='] + q[0].1);
            } else {
                assert(query_text(q) == q[0].0 + seq!['='] + q[0].1 + seq!['&'] + query_text(
                    q.drop_first(),
                ));
            }
        }
        let x = k + seq!['='] + v + seq!['&'] + rest;
        assert(query_text(ps) == x);
        let t1 = seq!['='] + v + seq!['&'] + rest;
        assert(x == k + t1);
        lemma_query_chunk(k, t1, (false, e, e, m));
        assert(e + k == k);
        assert(t1[0] == '=' && t1.drop_first() == v + (seq!['&'] + rest));
        lemma_query_chunk(v, seq!['&'] + rest, (true, k, e, m));
        assert(e + v == v);
        assert(query_run(t1, (false, k, e, m)) == query_run(v + (seq!['&'] + rest), (true, k, e, m)));
        let t2 = seq!['&'] + rest;
        assert(t2[0] == '&' && t2.drop_first() == rest);
        assert(query_run(t2, (true, k, v, m)) == query_run(rest, (false, e, e, m.insert(k, v))));
        assert(insert_all(m, ps) == insert_all(m.insert(k, v), ps.drop_first()));
        let q = ps.drop_first();
        assert forall|i: int| 0 <= i < q.len() implies query_plain(#[trigger] q[i].0) && query_plain(
            q[i].1,
        ) by {
            assert(q[i] == ps[i + 1]);
        }
        assert(q.last() == ps.last());
        lemma_query_run_pairs(q, m.insert(k, v));
    }
}

/// Reading more of a query string never drops a parameter already stored.
proof fn lemma_query_run_keeps(s: Seq<char>, st: QueryState, k: Seq<char>)
    requires
        st.3.contains_key(k),
    ensures
        query_run(s, st).3.contains_key(k),
    decreases s.len(),
{
    if s.len() > 0 {
        let st1 = query_step(st, s[0], s.len() == 1);
        assert(st1.3.contains_key(k));
        lemma_query_run_keeps(s.drop_first(), st1, k);
    }
}

/// A name in a query string that `&` ends is stored even when no `=`
/// comes with it (then with an empty value): `/p?debug&q=1` sets `debug`.
/// Later parameters may change its value but never drop it.
pub proof fn lemma_query_name_kept(path: Seq<char>, k: Seq<char>, rest: Seq<char>)
    requires
        forall|i: int| 0 <= i < path.len() ==> #[trigger] path[i] != '?',
        query_plain(k),
        k.len() > 0,
    ensures
        query_map(path + seq!['?'] + k + seq!['&'] + rest).contains_key(k),
        query_map(path + seq!['?'] + k + seq!['&']) == Map::<Seq<char>, Seq<char>>::empty().insert(
            k,
            Seq::empty(),
        ),
{
    lemma_query_name_then(path, k, rest);
    lemma_query_name_then(path, k, Seq::empty());
    let e = Seq::<char>::empty();
    assert(path + seq!['?'] + k + seq!['&'] + e == path + seq!['?'] + k + seq!['&']);
}

proof fn lemma_query_name_then(path: Seq<char>, k: Seq<char>, rest: Seq<char>)
    requires
        forall|i: int| 0 <= i < path.len() ==> #[trigger] path[i] != '?',
        query_plain(k),
        k.len() > 0,
    ensures
        query_map(path + seq!['?'] + k + seq!['&'] + rest).contains_key(k),
        rest.len() == 0 ==> query_map(path + seq!['?'] + k + seq!['&'] + rest)
            == Map::<Seq<char>, Seq<char>>::empty().insert(k, Seq::empty()),
{
    let e = Seq::<char>::empty();
    let after = k + seq!['&'] + rest;
    let full = path + seq!['?'] + after;
    assert(full == path + seq!['?'] + k + seq!['&'] + rest);
    lemma_first_index_after(path, '?', after);
    assert(full.skip(path.len() + 1int) == after);
    lemma_first_index(after, '#');
    let h = first_index(after, '#');
    assert(after[k.len() as int] == '&');
    assert forall|i: int| 0 <= i <= k.len() implies #[trigger] after[i] != '#' by {
        if i < k.len() {
            assert(after[i] == k[i]);
        }
    }
    assert(h > k.len()) by {
        if h <= k.len() {
            assert(after[h as int] != '#');
        }
    }
    let r2 = rest.take(h - k.len() - 1);
    let q = after.take(h as int);
    assert(q == k + (seq!['&'] + r2));
    let init: QueryState = (false, e, e, Map::empty());
    lemma_query_chunk(k, seq!['&'] + r2, init);
    assert(e + k == k);
    let t = seq!['&'] + r2;
    assert(t[0] == '&' && t.drop_first() == r2);
    let st2: QueryState = (false, e, e, Map::<Seq<char>, Seq<char>>::empty().insert(k, e));
    assert(query_run(t, (false, k, e, Map::empty())) == query_run(r2, st2));
    lemma_query_run_keeps(r2, st2, k);
    if rest.len() == 0 {
        assert(r2.len() == 0);
    }
}

/// Reading a query string gives back the pairs that wrote it, a later pair
/// replacing an earlier one with the same name, when names and values hold
/// no `=`, `&` or `#`, the path before the `?` holds no `?`, and the last
/// value is not empty (a trailing `=` is not stored).
pub proof fn lemma_query_roundtrip(path: Seq<char>, ps: Seq<(Seq<char>, Seq<char>)>)
    requires
        forall|i: int| 0 <= i < path.len() ==> #[trigger] path[i] != '?',
        ps.len() > 0,
        forall|i: int| 0 <= i < ps.len() ==> query_plain(#[trigger] ps[i].0) && query_plain(
            ps[i].1,
        ),
        ps.last().1.len() > 0,
    ensures
        query_map(path + seq!['?'] + query_text(ps)) == insert_all(Map::empty(), ps),
{
    let q = query_text(ps);
    let full = path + seq!['?'] + q;
    lemma_first_index_after(path, '?', q);
    assert(full.skip(path.len() + 1int) == q);
    lemma_query_text_plain(ps);
    lemma_first_index_unique(q, '#', q.len() as int);
    assert(q.take(q.len() as int) == q);
    lemma_query_run_pairs(ps, Map::empty());
}

proof fn lemma_query_text_plain(ps: Seq<(Seq<char>, Seq<char>)>)
    requires
        forall|i: int| 0 <= i < ps.len() ==> query_plain(#[trigger] ps[i].0) && query_plain(
            ps[i].1,
        ),
    ensures
        forall|i: int| 0 <= i < query_text(ps).len() ==> #[trigger] query_text(ps)[i] != '#',
    decreases ps.len(),
{
    if ps.len() > 0 {
        let k = ps[0].0;
        let v = ps[0].1;
        assert(query_plain(k) && query_plain(v));
        let q = ps.drop_first();
        assert forall|i: int| 0 <= i < q.len() implies query_plain(#[trigger] q[i].0) && query_plain(
            q[i].1,
        ) by {
            assert(q[i] == ps[i + 1]);
        }
        lemma_query_text_plain(q);
        let x = query_text(ps);
        assert forall|i: int| 0 <= i < x.len() implies #[trigger] x[i] != '#' by {
            if i < k.len() {
                assert(x[i] == k[i]);
            } else if i == k.len() {
            } else if i < k.len() + 1 + v.len() {
                assert(x[i] == v[i - k.len() - 1]);
            } else if i == k.len() + 1 + v.len() {
            } else {
                assert(x[i] == query_text(q)[i - k.len() - 2 - v.len()]);
            }
        }
    }
}


/// A cookie that a header carries as it is: a name that is not empty and
/// holds no `=`, and a value that is not empty and holds no `;`.
pub open spec fn cookie_ok(p: (Seq<char>, Seq<char>)) -> bool {
    &&& p.0.len() > 0
    &&& forall|i: int| 0 <= i < p.0.len() ==> #[trigger] p.0[i] != '='
    &&& p.1.len() > 0
    &&& forall|i: int| 0 <= i < p.1.len() ==> #[trigger] p.1[i] != ';'
}

/// The `Cookie` header value that writes the cookies `ps`: `name=value`,
/// joined by `"; "`.
pub open spec fn cookie_text(ps: Seq<(Seq<char>, Seq<char>)>) -> Seq<char>
    decreases ps.len(),
{
    if ps.len() == 0 {
        Seq::empty()
    } else if ps.len() == 1 {
        ps[0].0 + seq!['='] + ps[0].1
    } else {
        ps[0].0 + seq!['='] + ps[0].1 + seq![';', ' '] + cookie_text(ps.drop_first())
    }
}

proof fn lemma_cookie_pair_of(k: Seq<char>, v: Seq<char>, tail: Seq<char>)
    requires
        cookie_ok((k, v)),
        tail.len() == 0 || tail[0] == ';',
    ensures
        cookie_pair(k + seq!['='] + v + tail) == Some((k, v, k.len() + 1 + v.len())),
{
    let s = k + seq!['='] + v + tail;
    assert(s == k + seq!['='] + (v + tail));
    lemma_first_index_after(k, '=', v + tail);
    assert(s.skip(k.len() + 1int) == v + tail);
    if tail.len() == 0 {
        assert(v + tail == v);
        lemma_first_index_unique(v, ';', v.len() as int);
    } else {
        assert(v + tail == v + seq![';'] + tail.drop_first());
        lemma_first_index_after(v, ';', tail.drop_first());
    }
    assert(s.take(k.len() as int) == k);
    assert((v + tail).take(v.len() as int) == v);
}

proof fn lemma_cookie_step(k: Seq<char>, v: Seq<char>, tail: Seq<char>)
    requires
        cookie_ok((k, v)),
        tail.len() == 0 || tail[0] == ';',
    ensures
        cookie_pairs(k + seq!['='] + v + tail) == seq![(k, v)] + more_cookie_pairs(tail),
        more_cookie_pairs(seq![';', ' '] + (k + seq!['='] + v + tail)) == seq![(k, v)]
            + more_cookie_pairs(tail),
{
    let text = k + seq!['='] + v + tail;
    let n = k.len() + 1 + v.len();
    lemma_cookie_pair_of(k, v, tail);
    assert(text.skip(n as int) =~= tail);
    let s = seq![';', ' '] + text;
    assert(s[0] == ';' && s[1] == ' ');
    assert(s.skip(2) =~= text);
    assert(s.skip(2 + n as int) =~= tail);
}

#[verifier::spinoff_prover]
proof fn lemma_more_cookie_pairs(ps: Seq<(Seq<char>, Seq<char>)>)
    requires
        ps.len() > 0,
        forall|i: int| 0 <= i < ps.len() ==> cookie_ok(#[trigger] ps[i]),
    ensures
        more_cookie_pairs(seq![';', ' '] + cookie_text(ps)) == ps,
        cookie_pairs(cookie_text(ps)) == ps,
    decreases ps.len(),
{
    let k = ps[0].0;
    let v = ps[0].1;
    assert(cookie_ok(ps[0]));
    if ps.len() == 1 {
        let e = Seq::<char>::empty();
        assert(cookie_text(ps) =~= k + seq!['='] + v + e);
        lemma_cookie_step(k, v, e);
        assert(more_cookie_pairs(e) == Seq::<(Seq<char>, Seq<char>)>::empty());
        assert(ps =~= seq![(k, v)]);
    } else {
        let q = ps.drop_first();
        assert forall|i: int| 0 <= i < q.len() implies cookie_ok(#[trigger] q[i]) by {
            assert(q[i] == ps[i + 1]);
        }
        let tail = seq![';', ' '] + cookie_text(q);
        assert(cookie_text(ps) == k + seq!['='] + v + tail);
        lemma_cookie_step(k, v, tail);
        lemma_more_cookie_pairs(q);
        assert(ps =~= seq![(k, v)] + q);
    }
}

/// Reading a `Cookie` header gives back the cookies that wrote it, a later
/// cookie replacing an earlier one with the same name, when every name and
/// value keeps to `cookie_ok`.
pub proof fn lemma_cookie_roundtrip(ps: Seq<(Seq<char>, Seq<char>)>)
    requires
        ps.len() > 0,
        forall|i: int| 0 <= i < ps.len() ==> cookie_ok(#[trigger] ps[i]),
    ensures
        cookie_map(cookie_text(ps)) == insert_all(Map::empty(), ps),
{
    lemma_more_cookie_pairs(ps);
}

} // verus!
