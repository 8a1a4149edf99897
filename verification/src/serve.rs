//! The web viewer's requests: which page or query a URL asks for.

use crate::lsp::{hex_value, parse_number, parsed_number};
use crate::text::{
    chars_of, find_chars, find_from, lemma_find_from, opt_view, same, split_on, str_split,
    string_range, views,
};
use vstd::prelude::*;
use vstd::utf8::*;

verus! {

/// Calls `String::from_utf8`: the text that bytes encode, where they are UTF-8.
#[verifier::external_body]
pub(crate) fn utf8_text(bytes: Vec<u8>) -> (r: Option<String>)
    ensures
        match r {
            Some(s) => valid_utf8(bytes@) && s@ == decode_utf8(bytes@),
            None => !valid_utf8(bytes@),
        },
{
    String::from_utf8(bytes).ok()
}

/// The value of a hexadecimal digit.
pub open spec fn hex_char_value(c: char) -> Option<int> {
    if c <= '\u{7f}' {
        hex_value(c as u8)
    } else {
        None
    }
}

/// The bytes that a query value stands for, from `i` on: `%` with two digits is
/// a byte, `+` a space, and any other character its own encoding. There are none where a `%` has no two digits behind it.
pub open spec fn value_bytes(s: Seq<char>, i: int) -> Option<Seq<u8>>
    decreases s.len() - i,
{
    if i >= s.len() {
        Some(Seq::empty())
    } else if s[i] == '%' {
        if i + 2 < s.len() && hex_char_value(s[i + 1]) is Some && hex_char_value(s[i + 2]) is Some {
            match value_bytes(s, i + 3) {
                Some(rest) => Some(
                    seq![
                        (16 * hex_char_value(s[i + 1]).unwrap() + hex_char_value(
                            s[i + 2],
                        ).unwrap()) as u8,
                    ] + rest,
                ),
                None => None,
            }
        } else {
            None
        }
    } else {
        match value_bytes(s, i + 1) {
            Some(rest) => Some(
                (if s[i] == '+' {
                    seq![32u8]
                } else {
                    encode_utf8(seq![s[i]])
                }) + rest,
            ),
            None => None,
        }
    }
}

/// The text that a query value stands for, where it stands for any.
pub open spec fn value_text(s: Seq<char>) -> Option<Seq<char>> {
    match value_bytes(s, 0) {
        Some(bytes) if valid_utf8(bytes) => Some(decode_utf8(bytes)),
        _ => None,
    }
}

fn hex_char(c: char) -> (r: Option<u8>)
    ensures
        match r {
            Some(v) => hex_char_value(c) == Some(v as int) && v < 16,
            None => hex_char_value(c) is None,
        },
{
    if '0' <= c && c <= '9' {
        Some((c as u8) - 48)
    } else if 'a' <= c && c <= 'f' {
        Some((c as u8) - 97 + 10)
    } else if 'A' <= c && c <= 'F' {
        Some((c as u8) - 65 + 10)
    } else {
        None
    }
}

fn push_char(out: &mut Vec<u8>, c: char)
    ensures
        final(out)@ == old(out)@ + encode_utf8(seq![c]),
{
    let mut text = String::new();
    text.push(c);
    assert(text@ =~= seq![c]);
    let bytes = text.as_str().as_bytes();
    let ghost before = out@;
    let mut i: usize = 0;
    assert(before + bytes@.take(0) =~= before);
    while i < bytes.len()
        invariant
            i <= bytes@.len(),
            out@ == before + bytes@.take(i as int),
        decreases bytes.len() - i,
    {
        out.push(bytes[i]);
        i += 1;
        assert(out@ =~= before + bytes@.take(i as int));
    }
    assert(bytes@.take(i as int) =~= bytes@);
}

/// The text that a query value stands for.
pub fn urlencoding_decode(input: &str) -> (r: Option<String>)
    ensures
        opt_view(r) == value_text(input@),
{
    let v = chars_of(input);
    let n: usize = v.len();
    let mut bytes: Vec<u8> = Vec::new();
    let mut i: usize = 0;
    while i < n
        invariant
            i <= n,
            n == v@.len(),
            v@ == input@,
            match value_bytes(input@, i as int) {
                Some(rest) => value_bytes(input@, 0) == Some(bytes@ + rest),
                None => value_bytes(input@, 0) is None,
            },
        decreases n - i,
    {
        let c = v[i];
        let ghost before = bytes@;
        let ghost at = i as int;
        if c == '%' {
            if n - i <= 2 {
                return None;
            }
            match (hex_char(v[i + 1]), hex_char(v[i + 2])) {
                (Some(a), Some(b)) => {
                    bytes.push(16 * a + b);
                    i += 3;
                },
                _ => {
                    return None;
                },
            }
        } else if c == '+' {
            bytes.push(32);
            i += 1;
        } else {
            push_char(&mut bytes, c);
            i += 1;
        }
        proof {
            let new = bytes@.skip(before.len() as int);
            assert(bytes@ =~= before + new);
            assert(c == '%' || c == '+' ==> new =~= seq![bytes@.last()]);
            assert(c != '%' && c != '+' ==> new =~= encode_utf8(seq![c]));
            match value_bytes(input@, i as int) {
                Some(rest) => {
                    assert(before + (new + rest) =~= bytes@ + rest);
                },
                None => {},
            }
        }
    }
    assert(bytes@ + Seq::<u8>::empty() =~= bytes@);
    utf8_text(bytes)
}

/// The value of the first parameter with this name, from the `i`th on; none
/// where it cannot be decoded.
pub open spec fn param_from(pairs: Seq<Seq<char>>, key: Seq<char>, i: int) -> Option<Seq<char>>
    decreases pairs.len() - i,
{
    if i >= pairs.len() {
        None
    } else {
        match find_from(pairs[i], seq!['='], 0) {
            Some(k) if pairs[i].take(k) == key => value_text(pairs[i].skip(k + 1)),
            _ => param_from(pairs, key, i + 1),
        }
    }
}

/// The value of a parameter of a query.
pub open spec fn param_of(query: Seq<char>, key: Seq<char>) -> Option<Seq<char>> {
    param_from(split_on(query, '&'), key, 0)
}

/// The value of a parameter of a query.
pub fn extract_param(query: &str, key: &str) -> (r: Option<String>)
    ensures
        opt_view(r) == param_of(query@, key@),
{
    let pairs = str_split(query, '&');
    let ghost all = views(pairs@);
    let equals: Vec<char> = vec!['='];
    assert(equals@ =~= seq!['=']);
    let mut i: usize = 0;
    while i < pairs.len()
        invariant
            i <= pairs@.len(),
            all == views(pairs@),
            all == split_on(query@, '&'),
            equals@ == seq!['='],
            param_from(all, key@, i as int) == param_of(query@, key@),
        decreases pairs.len() - i,
    {
        assert(all[i as int] == pairs@[i as int]@);
        let p = chars_of(pairs[i].as_str());
        let n: usize = p.len();
        proof {
            lemma_find_from(p@, equals@, 0);
        }
        if let Some(k) = find_chars(&p, &equals, 0) {
            let name = string_range(&p, 0, k);
            assert(name@ =~= all[i as int].take(k as int));
            if same(name.as_str(), key) {
                let value = string_range(&p, k + 1, n);
                assert(value@ =~= all[i as int].skip(k + 1));
                return urlencoding_decode(value.as_str());
            }
        }
        i += 1;
    }
    None
}

/// What a URL asks for.
#[derive(Debug)]
pub enum Route {
    Viewer,
    Graph,
    Stats,
    Backlinks { title: String },
    Note { title: String },
    Search { query: String, limit: usize },
    NotFound,
}

/// What a `Route` says.
pub enum RouteModel {
    Viewer,
    Graph,
    Stats,
    Backlinks { title: Seq<char> },
    Note { title: Seq<char> },
    Search { query: Seq<char>, limit: usize },
    NotFound,
}

impl View for Route {
    type V = RouteModel;

    open spec fn view(&self) -> RouteModel {
        match *self {
            Route::Viewer => RouteModel::Viewer,
            Route::Graph => RouteModel::Graph,
            Route::Stats => RouteModel::Stats,
            Route::Backlinks { title } => RouteModel::Backlinks { title: title@ },
            Route::Note { title } => RouteModel::Note { title: title@ },
            Route::Search { query, limit } => RouteModel::Search { query: query@, limit },
            Route::NotFound => RouteModel::NotFound,
        }
    }
}

/// The path and the query of a URL: what stands before and behind the first
/// question mark.
pub open spec fn url_parts(url: Seq<char>) -> (Seq<char>, Seq<char>) {
    match find_from(url, seq!['?'], 0) {
        Some(k) => (url.take(k), url.skip(k + 1)),
        None => (url, Seq::empty()),
    }
}

/// The value of a parameter, or nothing.
pub open spec fn param_or_empty(query: Seq<char>, key: Seq<char>) -> Seq<char> {
    match param_of(query, key) {
        Some(v) => v,
        None => Seq::empty(),
    }
}

/// How many hits a search asks for: twenty unless it says otherwise.
pub open spec fn limit_of(query: Seq<char>) -> usize {
    match param_of(query, "limit"@) {
        Some(v) => match parsed_number(v) {
            Some(n) => n as usize,
            None => 20,
        },
        None => 20,
    }
}

/// What a URL asks for.
pub open spec fn route_of(url: Seq<char>) -> RouteModel {
    let (path, query) = url_parts(url);
    if path == "/"@ || path == "/index.html"@ {
        RouteModel::Viewer
    } else if path == "/api/graph"@ {
        RouteModel::Graph
    } else if path == "/api/stats"@ {
        RouteModel::Stats
    } else if path == "/api/backlinks"@ {
        RouteModel::Backlinks { title: param_or_empty(query, "title"@) }
    } else if path == "/api/note"@ {
        RouteModel::Note { title: param_or_empty(query, "title"@) }
    } else if path == "/api/search"@ {
        RouteModel::Search { query: param_or_empty(query, "q"@), limit: limit_of(query) }
    } else {
        RouteModel::NotFound
    }
}

fn get_param(query: &str, key: &str) -> (r: String)
    ensures
        r@ == param_or_empty(query@, key@),
{
    match extract_param(query, key) {
        Some(v) => v,
        None => String::new(),
    }
}

/// What a URL asks for.
pub fn route(url: &str) -> (r: Route)
    ensures
        r@ == route_of(url@),
{
    let v = chars_of(url);
    let n: usize = v.len();
    let mark: Vec<char> = vec!['?'];
    assert(mark@ =~= seq!['?']);
    proof {
        lemma_find_from(v@, mark@, 0);
    }
    let (path, query) = match find_chars(&v, &mark, 0) {
        Some(k) => {
            let p = string_range(&v, 0, k);
            let q = string_range(&v, k + 1, n);
            assert(p@ =~= url@.take(k as int));
            assert(q@ =~= url@.skip(k + 1));
            (p, q)
        },
        None => (url.to_owned(), String::new()),
    };
    assert((path@, query@) == url_parts(url@));
    let p = path.as_str();
    if same(p, "/") || same(p, "/index.html") {
        Route::Viewer
    } else if same(p, "/api/graph") {
        Route::Graph
    } else if same(p, "/api/stats") {
        Route::Stats
    } else if same(p, "/api/backlinks") {
        Route::Backlinks { title: get_param(query.as_str(), "title") }
    } else if same(p, "/api/note") {
        Route::Note { title: get_param(query.as_str(), "title") }
    } else if same(p, "/api/search") {
        let limit: usize = match extract_param(query.as_str(), "limit") {
            Some(s) => match parse_number(s.as_str()) {
                Some(n) => n,
                None => 20,
            },
            None => 20,
        };
        Route::Search { query: get_param(query.as_str(), "q"), limit }
    } else {
        Route::NotFound
    }
}

// ---------------------------------------------------------------------------
// What holds of requests
// ---------------------------------------------------------------------------

proof fn lemma_first_mark(a: Seq<char>, c: char, b: Seq<char>, i: int)
    requires
        !a.contains(c),
        0 <= i <= a.len(),
    ensures
        find_from(a + seq![c] + b, seq![c], i) == Some(a.len() as int),
    decreases a.len() - i,
{
    let s = a + seq![c] + b;
    if i == a.len() {
        assert(s.subrange(i, i + 1) =~= seq![c]);
    } else {
        assert(s.subrange(i, i + 1)[0] == a[i]);
        assert(a[i] != c);
        lemma_first_mark(a, c, b, i + 1);
    }
}

proof fn lemma_no_mark(a: Seq<char>, c: char, i: int)
    requires
        !a.contains(c),
        0 <= i <= a.len(),
    ensures
        find_from(a, seq![c], i) is None,
    decreases a.len() - i,
{
    if i < a.len() {
        assert(a.subrange(i, i + 1)[0] == a[i]);
        lemma_no_mark(a, c, i + 1);
    }
}

/// A URL asks for what its path says: what stands before the first question mark. What
/// stands behind it are the parameters. A search gives up to twenty hits unless it says
/// how many.
pub proof fn path_says_what_is_asked_for(path: Seq<char>, query: Seq<char>)
    requires
        !path.contains('?'),
    ensures
        route_of(path) == route_of(path + seq!['?']),
        ({
            let r = route_of(path + seq!['?'] + query);
            &&& path == "/"@ || path == "/index.html"@ ==> r == RouteModel::Viewer
            &&& path == "/api/graph"@ ==> r == RouteModel::Graph
            &&& path == "/api/stats"@ ==> r == RouteModel::Stats
            &&& path == "/api/backlinks"@ && param_of(query, "title"@) is Some ==> r
                == (RouteModel::Backlinks { title: param_of(query, "title"@)->0 })
            &&& path == "/api/note"@ && param_of(query, "title"@) is Some ==> r
                == (RouteModel::Note { title: param_of(query, "title"@)->0 })
            &&& path == "/api/search"@ && param_of(query, "q"@) is Some && param_of(
                query,
                "limit"@,
            ) is None ==> r == (RouteModel::Search {
                query: param_of(query, "q"@)->0,
                limit: 20,
            })
            &&& path == "/api/search"@ && param_of(query, "q"@) is Some && (param_of(
                query,
                "limit"@,
            ) matches Some(v) && parsed_number(v) is Some) ==> r == (RouteModel::Search {
                query: param_of(query, "q"@)->0,
                limit: parsed_number(param_of(query, "limit"@)->0)->0 as usize,
            })
            &&& path != "/"@ && path != "/index.html"@ && path != "/api/graph"@ && path
                != "/api/stats"@ && path != "/api/backlinks"@ && path != "/api/note"@ && path
                != "/api/search"@ ==> r == RouteModel::NotFound
        }),
{
    lemma_first_mark(path, '?', query, 0);
    lemma_first_mark(path, '?', Seq::empty(), 0);
    lemma_no_mark(path, '?', 0);
    let url = path + seq!['?'] + query;
    let bare = path + seq!['?'];
    assert(bare + Seq::<char>::empty() =~= bare);
    assert(url.take(path.len() as int) =~= path);
    assert(url.skip(path.len() as int + 1) =~= query);
    assert(bare.take(path.len() as int) =~= path);
    assert(bare.skip(path.len() as int + 1) =~= Seq::<char>::empty());
    reveal_strlit("/");
    reveal_strlit("/index.html");
    reveal_strlit("/api/graph");
    reveal_strlit("/api/stats");
    reveal_strlit("/api/backlinks");
    reveal_strlit("/api/note");
    reveal_strlit("/api/search");
    assert("/"@.len() == 1);
    assert("/index.html"@.len() == 11);
    assert("/api/graph"@.len() == 10);
    assert("/api/stats"@.len() == 10);
    assert("/api/backlinks"@.len() == 14);
    assert("/api/note"@.len() == 9);
    assert("/api/search"@.len() == 11);
    assert("/api/graph"@[5] == 'g' && "/api/stats"@[5] == 's');
    assert("/index.html"@[1] == 'i' && "/api/search"@[1] == 'a');
}

proof fn lemma_params_parted(a: Seq<char>, b: Seq<char>)
    ensures
        split_on(a + seq!['&'] + b, '&') == split_on(a, '&') + split_on(b, '&'),
    decreases b.len(),
{
    let s = a + seq!['&'];
    if b.len() == 0 {
        assert(s + b =~= s);
        assert(s.drop_last() =~= a);
        assert(split_on(s, '&') =~= split_on(a, '&') + split_on(b, '&'));
    } else {
        lemma_params_parted(a, b.drop_last());
        crate::text::split_on_nonempty(b.drop_last(), '&');
        assert((s + b).drop_last() =~= s + b.drop_last());
        assert((s + b).last() == b.last());
        let before = split_on(b.drop_last(), '&');
        let first = split_on(a, '&');
        assert((first + before).last() == before.last());
        assert((first + before).drop_last() =~= first + before.drop_last());
        assert(split_on(s + b, '&') =~= first + split_on(b, '&'));
    }
}

proof fn lemma_one_param(a: Seq<char>)
    requires
        !a.contains('&'),
    ensures
        split_on(a, '&') == seq![a],
    decreases a.len(),
{
    if a.len() > 0 {
        assert(!a.drop_last().contains('&')) by {
            if a.drop_last().contains('&') {
                let k = choose|k: int| 0 <= k < a.drop_last().len() && a.drop_last()[k] == '&';
                assert(a[k] == '&');
            }
        }
        lemma_one_param(a.drop_last());
        assert(a[a.len() - 1] != '&');
        assert(a.drop_last().push(a.last()) =~= a);
    } else {
        assert(a =~= Seq::<char>::empty());
    }
    assert(split_on(a, '&') =~= seq![a]);
}

proof fn lemma_later_params(first: Seq<char>, pairs: Seq<Seq<char>>, key: Seq<char>, i: int)
    requires
        0 <= i,
    ensures
        param_from(seq![first] + pairs, key, i + 1) == param_from(pairs, key, i),
    decreases pairs.len() - i,
{
    if i < pairs.len() {
        assert((seq![first] + pairs)[i + 1] == pairs[i]);
        lemma_later_params(first, pairs, key, i + 1);
    }
}

/// A parameter has the value that stands behind its name; one that stands before it under
/// another name does not matter, and one that stands behind it under the same name does
/// not either.
pub proof fn first_parameter_of_a_name_counts(
    name: Seq<char>,
    value: Seq<char>,
    rest: Seq<char>,
    key: Seq<char>,
)
    requires
        !name.contains('='),
        !name.contains('&'),
        !value.contains('&'),
    ensures
        key == name ==> param_of(name + seq!['='] + value + seq!['&'] + rest, key) == value_text(
            value,
        ),
        key != name ==> param_of(name + seq!['='] + value + seq!['&'] + rest, key) == param_of(
            rest,
            key,
        ),
        key == name ==> param_of(name + seq!['='] + value, key) == value_text(value),
        key != name ==> param_of(name + seq!['='] + value, key) is None,
{
    let pair = name + seq!['='] + value;
    assert(!pair.contains('&')) by {
        if pair.contains('&') {
            let k = choose|k: int| 0 <= k < pair.len() && pair[k] == '&';
            if k < name.len() {
                assert(name[k] == '&');
            } else if k > name.len() {
                assert(value[k - name.len() - 1] == '&');
            }
        }
    }
    lemma_one_param(pair);
    lemma_params_parted(pair, rest);
    lemma_first_mark(name, '=', value, 0);
    assert(pair.take(name.len() as int) =~= name);
    assert(pair.skip(name.len() as int + 1) =~= value);
    let pairs = split_on(rest, '&');
    assert((seq![pair] + pairs)[0] == pair);
    lemma_later_params(pair, pairs, key, 0);
    assert(seq![pair][0] == pair);
    assert(param_from(seq![pair], key, 1) is None);
}

/// In a value a plus stands for a space, a percent sign with two hexadecimal digits for a
/// byte, and every other character for itself. A percent sign without two digits spoils
/// the value.
pub proof fn values_are_decoded_by_character(s: Seq<char>, i: int)
    requires
        0 <= i < s.len(),
    ensures
        s[i] == '+' ==> value_bytes(s, i) == (match value_bytes(s, i + 1) {
            Some(rest) => Some(seq![32u8] + rest),
            None => None,
        }),
        s[i] != '+' && s[i] != '%' ==> value_bytes(s, i) == (match value_bytes(s, i + 1) {
            Some(rest) => Some(encode_utf8(seq![s[i]]) + rest),
            None => None,
        }),
        s[i] == '%' && i + 2 >= s.len() ==> value_bytes(s, i) is None,
        s[i] == '%' && i + 2 < s.len() && '0' <= s[i + 1] <= '9' && '0' <= s[i + 2] <= '9'
            ==> value_bytes(s, i) == (match value_bytes(s, i + 3) {
            Some(rest) => Some(
                seq![(16 * (s[i + 1] as int - 48) + (s[i + 2] as int - 48)) as u8] + rest,
            ),
            None => None,
        }),
        value_bytes(s, s.len() as int) == Some(Seq::<u8>::empty()),
{
}

} // verus!
