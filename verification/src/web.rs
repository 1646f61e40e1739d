//! Request routing for the graph viewer: which page or API call a request
//! line names, with its query parameters decoded.
use crate::split::{first_index, index_from, split_chars, split_on};
use crate::strs::{chars_of, is_ascii_digit, str_eq, string_from_chars, string_from_range};
use vstd::prelude::*;
use vstd::string::*;
use vstd::utf8::encode_utf8;

verus! {

/// Value of one hexadecimal digit byte (either case).
pub open spec fn hex_digit(b: u8) -> Option<u8> {
    if 48 <= b <= 57 {
        Some((b - 48) as u8)
    } else if 97 <= b <= 102 {
        Some((b - 87) as u8)
    } else if 65 <= b <= 70 {
        Some((b - 55) as u8)
    } else {
        None
    }
}

/// The byte that the two characters after a `%` stand for, read as a base-16
/// number the way `u8::from_str_radix` reads it: two hex digits, or a `+` sign
/// and one digit.
pub open spec fn pair_value(hi: u8, lo: u8) -> Option<u8> {
    match (hex_digit(hi), hex_digit(lo)) {
        (Some(h), Some(l)) => Some((h * 16 + l) as u8),
        (None, Some(l)) => if hi == 43 {
            Some(l)
        } else {
            None
        },
        _ => None,
    }
}

/// Query-string decoding of bytes: `+` is a space, `%` with two digits is the
/// byte they name, any other byte stands for itself as a char. A `%` whose
/// two following bytes do not form a number stays, and those two bytes are
/// dropped; a `%` near the end drops what follows it.
pub open spec fn decode_bytes(b: Seq<u8>) -> Seq<char>
    decreases b.len(),
{
    if b.len() == 0 {
        Seq::empty()
    } else if b[0] == 43 {
        seq![' '] + decode_bytes(b.skip(1))
    } else if b[0] == 37 {
        if b.len() < 3 {
            seq!['%']
        } else {
            match pair_value(b[1], b[2]) {
                Some(v) => seq![v as char] + decode_bytes(b.skip(3)),
                None => seq!['%'] + decode_bytes(b.skip(3)),
            }
        }
    } else {
        seq![b[0] as char] + decode_bytes(b.skip(1))
    }
}

fn hex_digit_exec(b: u8) -> (r: Option<u8>)
    ensures
        r == hex_digit(b),
{
    if 48 <= b && b <= 57 {
        Some(b - 48)
    } else if 97 <= b && b <= 102 {
        Some(b - 87)
    } else if 65 <= b && b <= 70 {
        Some(b - 55)
    } else {
        None
    }
}

fn pair_value_exec(hi: u8, lo: u8) -> (r: Option<u8>)
    ensures
        r == pair_value(hi, lo),
{
    match (hex_digit_exec(hi), hex_digit_exec(lo)) {
        (Some(h), Some(l)) => Some(h * 16 + l),
        (None, Some(l)) => if hi == 43 {
            Some(l)
        } else {
            None
        },
        _ => None,
    }
}

/// One query-string key or value decoded.
pub fn decode(value: &str) -> (r: String)
    ensures
        r@ == decode_bytes(value.spec_bytes()),
{
    let bytes = value.as_bytes();
    let n = bytes.len();
    let ghost b = bytes@;
    let mut out: Vec<char> = Vec::new();
    let mut k: usize = 0;
    assert(b.skip(0) =~= b);
    while k < n
        invariant
            n == b.len(),
            b == bytes@,
            b == value.spec_bytes(),
            k <= n,
            decode_bytes(b) == out@ + decode_bytes(b.skip(k as int)),
        decreases n - k,
    {
        let c = bytes[k];
        let ghost before = out@;
        let ghost t = b.skip(k as int);
        if c == 43 {
            assert(t.skip(1) =~= b.skip(k + 1));
            out.push(' ');
            k = k + 1;
        } else if c == 37 {
            if n - k < 3 {
                out.push('%');
                k = n;
                assert(b.skip(n as int) =~= Seq::<u8>::empty());
            } else {
                assert(t.skip(3) =~= b.skip(k + 3));
                match pair_value_exec(bytes[k + 1], bytes[k + 2]) {
                    Some(v) => out.push(v as char),
                    None => out.push('%'),
                }
                k = k + 3;
            }
        } else {
            assert(t.skip(1) =~= b.skip(k + 1));
            out.push(c as char);
            k = k + 1;
        }
        assert(decode_bytes(b) == out@ + decode_bytes(b.skip(k as int))) by {
            assert(decode_bytes(t) == (out@.subrange(before.len() as int, out@.len() as int)
                + decode_bytes(b.skip(k as int))));
            assert(out@ =~= before + out@.subrange(before.len() as int, out@.len() as int));
        }
    }
    assert(b.skip(n as int) =~= Seq::<u8>::empty());
    assert(out@ =~= out@ + Seq::<char>::empty());
    string_from_chars(&out)
}

/// The decoded value that `part` (`key=value`) gives for `key`, if its key,
/// decoded, is `key`; a part without `=` gives nothing.
pub open spec fn part_hit(part: Seq<char>, key: Seq<char>) -> Option<Seq<char>> {
    let i = index_from(part, 0, '=');
    if i < part.len() && decode_bytes(encode_utf8(part.take(i))) == key {
        Some(decode_bytes(encode_utf8(part.skip(i + 1))))
    } else {
        None
    }
}

/// The value for `key` among `parts`, the last one that names it winning (as
/// when the pairs are collected into a map in order).
pub open spec fn lookup_parts(parts: Seq<Seq<char>>, key: Seq<char>) -> Option<Seq<char>>
    decreases parts.len(),
{
    if parts.len() == 0 {
        None
    } else {
        match part_hit(parts.last(), key) {
            Some(v) => Some(v),
            None => lookup_parts(parts.drop_last(), key),
        }
    }
}

/// The decoded value of `key` in the query string `query`.
pub open spec fn query_param(query: Seq<char>, key: Seq<char>) -> Option<Seq<char>> {
    lookup_parts(split_on(query, '&'), key)
}

fn part_value(part: &Vec<char>, key: &str) -> (r: Option<String>)
    ensures
        match r {
            Some(v) => part_hit(part@, key@) == Some(v@),
            None => part_hit(part@, key@) is None,
        },
{
    let i = first_index(part, '=');
    if i < part.len() {
        let k = string_from_range(part, 0, i);
        let v = string_from_range(part, i + 1, part.len());
        assert(k@ =~= part@.take(i as int));
        assert(v@ =~= part@.skip(i + 1));
        let dk = decode(k.as_str());
        if str_eq(dk.as_str(), key) {
            Some(decode(v.as_str()))
        } else {
            None
        }
    } else {
        None
    }
}

/// The decoded value of `key` in the query string `query` (the text after
/// `?`): its pieces between `&` that hold a `=` are key and value, and the
/// last piece whose key is `key` gives the value.
pub fn query_value(query: &Vec<char>, key: &str) -> (r: Option<String>)
    ensures
        match r {
            Some(v) => query_param(query@, key@) == Some(v@),
            None => query_param(query@, key@) is None,
        },
{
    let parts = split_chars(query, '&');
    let ghost ps = split_on(query@, '&');
    let mut found: Option<String> = None;
    let mut i: usize = 0;
    while i < parts.len()
        invariant
            i <= parts.len(),
            parts@.map_values(|p: Vec<char>| p@) == ps,
            match found {
                Some(v) => lookup_parts(ps.take(i as int), key@) == Some(v@),
                None => lookup_parts(ps.take(i as int), key@) is None,
            },
        decreases parts.len() - i,
    {
        assert(ps.take(i + 1).drop_last() =~= ps.take(i as int));
        assert(ps[i as int] == parts[i as int]@);
        match part_value(&parts[i], key) {
            Some(v) => {
                found = Some(v);
            },
            None => {},
        }
        i = i + 1;
    }
    assert(ps.take(parts.len() as int) =~= ps);
    found
}

/// Decimal value of a run of ASCII digits.
pub open spec fn digits_value(s: Seq<char>) -> nat
    decreases s.len(),
{
    if s.len() == 0 {
        0
    } else {
        digits_value(s.drop_last()) * 10 + ((s.last() as int) - 48) as nat
    }
}

/// Every character an ASCII digit.
pub open spec fn all_digits(d: Seq<char>) -> bool {
    forall|i: int| 0 <= i < d.len() ==> is_ascii_digit(#[trigger] d[i])
}

/// The text after an optional leading `+`.
pub open spec fn unsigned_part(s: Seq<char>) -> Seq<char> {
    if s.len() > 0 && s[0] == '+' {
        s.skip(1)
    } else {
        s
    }
}

/// What `str::parse::<usize>` gives: an optional `+`, then one or more ASCII
/// digits whose value fits in `usize`; anything else is no number.
pub open spec fn parse_usize_spec(s: Seq<char>) -> Option<usize> {
    let d = unsigned_part(s);
    if d.len() > 0 && all_digits(d) && digits_value(d) <= usize::MAX {
        Some(digits_value(d) as usize)
    } else {
        None
    }
}

/// A number written in decimal, read as `str::parse::<usize>` reads it.
pub fn parse_usize(s: &str) -> (r: Option<usize>)
    ensures
        r == parse_usize_spec(s@),
{
    let v = chars_of(s);
    let start: usize = if v.len() > 0 && v[0] == '+' {
        1
    } else {
        0
    };
    let ghost d = v@.skip(start as int);
    assert(d =~= unsigned_part(s@));
    let mut all: bool = true;
    let mut val: Option<usize> = Some(0);
    let mut k: usize = start;
    assert(d.take(0) =~= Seq::<char>::empty());
    while k < v.len()
        invariant
            start <= k <= v.len(),
            d == v@.skip(start as int),
            all == (forall|i: int| 0 <= i < k - start ==> is_ascii_digit(#[trigger] d[i])),
            all ==> val == (if digits_value(d.take(k - start)) <= usize::MAX {
                Some(digits_value(d.take(k - start)) as usize)
            } else {
                None::<usize>
            }),
        decreases v.len() - k,
    {
        let c = v[k];
        let ghost p = d.take(k - start);
        let ghost q = d.take(k + 1 - start);
        assert(q.drop_last() =~= p);
        assert(q.last() == c);
        if '0' <= c && c <= '9' {
            let digit: usize = (c as u32 - 48) as usize;
            val = match val {
                Some(x) => match x.checked_mul(10) {
                    Some(y) => y.checked_add(digit),
                    None => None,
                },
                None => None,
            };
        } else {
            all = false;
        }
        k = k + 1;
    }
    assert(d.take(v.len() - start) =~= d);
    assert(d.len() == v.len() - start);
    assert(unsigned_part(s@) == d);
    assert(all == all_digits(d));
    assert(all ==> val == (if digits_value(d) <= usize::MAX {
        Some(digits_value(d) as usize)
    } else {
        None::<usize>
    }));
    if all && v.len() > start {
        val
    } else {
        None
    }
}

/// A file of the viewer's page.
#[derive(Clone, Copy, PartialEq, Eq, Structural, Debug)]
pub enum Asset {
    Page,
    BaseCss,
    LayoutCss,
    ComponentsCss,
    GraphCss,
    CoreJs,
    UtilsJs,
    ApiJs,
    GraphLayoutJs,
    GraphRenderJs,
    GraphInteractJs,
    SidebarJs,
    DetailsJs,
    ToolbarJs,
    MainJs,
}

/// What a request asks the viewer for.
pub enum Route {
    /// Neither `GET` nor `POST` (answered 405).
    MethodNotAllowed,
    /// No such path (answered 404).
    NotFound,
    Asset(Asset),
    Status,
    Graph,
    Reindex,
    Search { q: String, limit: usize },
    Symbol { name: String },
    /// Callees (`outbound`) or callers of `name` over call edges.
    Walk { name: String, outbound: bool, depth: usize, limit: usize },
    Impact { name: String, depth: usize, limit: usize },
}

/// [`Route`] with its texts as character sequences.
pub enum RouteView {
    MethodNotAllowed,
    NotFound,
    Asset(Asset),
    Status,
    Graph,
    Reindex,
    Search { q: Seq<char>, limit: nat },
    Symbol { name: Seq<char> },
    Walk { name: Seq<char>, outbound: bool, depth: nat, limit: nat },
    Impact { name: Seq<char>, depth: nat, limit: nat },
}

impl Route {
    pub open spec fn view(&self) -> RouteView {
        match self {
            Route::MethodNotAllowed => RouteView::MethodNotAllowed,
            Route::NotFound => RouteView::NotFound,
            Route::Asset(a) => RouteView::Asset(*a),
            Route::Status => RouteView::Status,
            Route::Graph => RouteView::Graph,
            Route::Reindex => RouteView::Reindex,
            Route::Search { q, limit } => RouteView::Search { q: q@, limit: *limit as nat },
            Route::Symbol { name } => RouteView::Symbol { name: name@ },
            Route::Walk { name, outbound, depth, limit } => RouteView::Walk {
                name: name@,
                outbound: *outbound,
                depth: *depth as nat,
                limit: *limit as nat,
            },
            Route::Impact { name, depth, limit } => RouteView::Impact {
                name: name@,
                depth: *depth as nat,
                limit: *limit as nat,
            },
        }
    }
}

/// A text parameter: its decoded value, or empty when absent.
pub open spec fn text_param(query: Seq<char>, key: Seq<char>) -> Seq<char> {
    match query_param(query, key) {
        Some(v) => v,
        None => Seq::empty(),
    }
}

/// A number parameter: its value when present and a number, else `default`.
pub open spec fn number_param(query: Seq<char>, key: Seq<char>, default: nat) -> nat {
    match query_param(query, key) {
        Some(v) => match parse_usize_spec(v) {
            Some(n) => n as nat,
            None => default,
        },
        None => default,
    }
}

/// The asset served at `path`, if any.
pub open spec fn asset_at(path: Seq<char>) -> Option<Asset> {
    if path == "/"@ {
        Some(Asset::Page)
    } else if path == "/styles/base.css"@ {
        Some(Asset::BaseCss)
    } else if path == "/styles/layout.css"@ {
        Some(Asset::LayoutCss)
    } else if path == "/styles/components.css"@ {
        Some(Asset::ComponentsCss)
    } else if path == "/styles/graph.css"@ {
        Some(Asset::GraphCss)
    } else if path == "/src/core.js"@ {
        Some(Asset::CoreJs)
    } else if path == "/src/utils.js"@ {
        Some(Asset::UtilsJs)
    } else if path == "/src/api.js"@ {
        Some(Asset::ApiJs)
    } else if path == "/src/graph-layout.js"@ {
        Some(Asset::GraphLayoutJs)
    } else if path == "/src/graph-render.js"@ {
        Some(Asset::GraphRenderJs)
    } else if path == "/src/graph-interact.js"@ {
        Some(Asset::GraphInteractJs)
    } else if path == "/src/sidebar.js"@ {
        Some(Asset::SidebarJs)
    } else if path == "/src/details.js"@ {
        Some(Asset::DetailsJs)
    } else if path == "/src/toolbar.js"@ {
        Some(Asset::ToolbarJs)
    } else if path == "/src/main.js"@ {
        Some(Asset::MainJs)
    } else {
        None
    }
}

/// The route of a request whose method is `method` and whose target (path and
/// query string, split at the first `?`) is `target`.
pub open spec fn route_spec(method: Seq<char>, target: Seq<char>) -> RouteView {
    let q = index_from(target, 0, '?');
    let path = target.take(q);
    let query = if q < target.len() {
        target.skip(q + 1)
    } else {
        Seq::empty()
    };
    if method != "GET"@ && method != "POST"@ {
        RouteView::MethodNotAllowed
    } else if path == "/api/status"@ {
        RouteView::Status
    } else if path == "/api/graph"@ {
        RouteView::Graph
    } else if path == "/api/search"@ {
        RouteView::Search { q: text_param(query, "q"@), limit: number_param(query, "limit"@, 50) }
    } else if path == "/api/symbol"@ {
        RouteView::Symbol { name: text_param(query, "name"@) }
    } else if path == "/api/callees"@ || path == "/api/callers"@ {
        RouteView::Walk {
            name: text_param(query, "name"@),
            outbound: path == "/api/callees"@,
            depth: number_param(query, "depth"@, 2),
            limit: number_param(query, "limit"@, 100),
        }
    } else if path == "/api/impact"@ {
        RouteView::Impact {
            name: text_param(query, "name"@),
            depth: number_param(query, "depth"@, 2),
            limit: number_param(query, "limit"@, 100),
        }
    } else if path == "/api/reindex"@ {
        RouteView::Reindex
    } else {
        match asset_at(path) {
            Some(a) => RouteView::Asset(a),
            None => RouteView::NotFound,
        }
    }
}

fn text_value(query: &Vec<char>, key: &str) -> (r: String)
    ensures
        r@ == text_param(query@, key@),
{
    match query_value(query, key) {
        Some(v) => v,
        None => String::new(),
    }
}

fn number_value(query: &Vec<char>, key: &str, default: usize) -> (r: usize)
    ensures
        r as nat == number_param(query@, key@, default as nat),
{
    match query_value(query, key) {
        Some(v) => match parse_usize(v.as_str()) {
            Some(n) => n,
            None => default,
        },
        None => default,
    }
}

fn asset_exec(path: &str) -> (r: Option<Asset>)
    ensures
        r == asset_at(path@),
{
    if str_eq(path, "/") {
        Some(Asset::Page)
    } else if str_eq(path, "/styles/base.css") {
        Some(Asset::BaseCss)
    } else if str_eq(path, "/styles/layout.css") {
        Some(Asset::LayoutCss)
    } else if str_eq(path, "/styles/components.css") {
        Some(Asset::ComponentsCss)
    } else if str_eq(path, "/styles/graph.css") {
        Some(Asset::GraphCss)
    } else if str_eq(path, "/src/core.js") {
        Some(Asset::CoreJs)
    } else if str_eq(path, "/src/utils.js") {
        Some(Asset::UtilsJs)
    } else if str_eq(path, "/src/api.js") {
        Some(Asset::ApiJs)
    } else if str_eq(path, "/src/graph-layout.js") {
        Some(Asset::GraphLayoutJs)
    } else if str_eq(path, "/src/graph-render.js") {
        Some(Asset::GraphRenderJs)
    } else if str_eq(path, "/src/graph-interact.js") {
        Some(Asset::GraphInteractJs)
    } else if str_eq(path, "/src/sidebar.js") {
        Some(Asset::SidebarJs)
    } else if str_eq(path, "/src/details.js") {
        Some(Asset::DetailsJs)
    } else if str_eq(path, "/src/toolbar.js") {
        Some(Asset::ToolbarJs)
    } else if str_eq(path, "/src/main.js") {
        Some(Asset::MainJs)
    } else {
        None
    }
}

/// What a request for `target` with method `method` asks for.
pub fn route(method: &str, target: &str) -> (r: Route)
    ensures
        r@ == route_spec(method@, target@),
{
    let t = chars_of(target);
    let q = first_index(&t, '?');
    let path = string_from_range(&t, 0, q);
    let query: Vec<char> = if q < t.len() {
        let s = string_from_range(&t, q + 1, t.len());
        chars_of(s.as_str())
    } else {
        Vec::new()
    };
    assert(path@ =~= target@.take(q as int));
    assert(query@ =~= (if q < target@.len() {
        target@.skip(q + 1)
    } else {
        Seq::<char>::empty()
    }));
    let p = path.as_str();
    if !str_eq(method, "GET") && !str_eq(method, "POST") {
        Route::MethodNotAllowed
    } else if str_eq(p, "/api/status") {
        Route::Status
    } else if str_eq(p, "/api/graph") {
        Route::Graph
    } else if str_eq(p, "/api/search") {
        Route::Search { q: text_value(&query, "q"), limit: number_value(&query, "limit", 50) }
    } else if str_eq(p, "/api/symbol") {
        Route::Symbol { name: text_value(&query, "name") }
    } else if str_eq(p, "/api/callees") || str_eq(p, "/api/callers") {
        Route::Walk {
            name: text_value(&query, "name"),
            outbound: str_eq(p, "/api/callees"),
            depth: number_value(&query, "depth", 2),
            limit: number_value(&query, "limit", 100),
        }
    } else if str_eq(p, "/api/impact") {
        Route::Impact {
            name: text_value(&query, "name"),
            depth: number_value(&query, "depth", 2),
            limit: number_value(&query, "limit", 100),
        }
    } else if str_eq(p, "/api/reindex") {
        Route::Reindex
    } else {
        match asset_exec(p) {
            Some(a) => Route::Asset(a),
            None => Route::NotFound,
        }
    }
}

} // verus!
