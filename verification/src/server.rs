//! Request handling of the JSON API: splitting a request URL into its path
//! and the values of its `since` parameters, and choosing the endpoint.

use vstd::prelude::*;
use crate::text::{chars_of, chars_eq, str_eq, string_from_chars};
use crate::packet_store::strings_view;

verus! {

/// The position of the first `c` in `s`, or -1 when there is none.
pub open spec fn first_index_of(s: Seq<char>, c: char) -> int
    decreases s.len(),
{
    if s.len() == 0 {
        -1
    } else if s[0] == c {
        0
    } else {
        let r = first_index_of(s.drop_first(), c);
        if r < 0 {
            -1
        } else {
            r + 1
        }
    }
}

/// `first_index_of` is -1 or a position of `c` with no `c` before it.
pub proof fn lemma_first_index_of(s: Seq<char>, c: char)
    ensures
        -1 <= first_index_of(s, c) < s.len(),
        first_index_of(s, c) >= 0 ==> s[first_index_of(s, c)] == c,
        forall|j: int| 0 <= j < s.len() && (first_index_of(s, c) < 0 || j < first_index_of(s, c)) ==> s[j] != c,
    decreases s.len(),
{
    if s.len() > 0 && s[0] != c {
        lemma_first_index_of(s.drop_first(), c);
        assert forall|j: int| 0 <= j < s.len() && (first_index_of(s, c) < 0 || j < first_index_of(s, c)) implies s[j] != c by {
            if j > 0 {
                assert(s[j] == s.drop_first()[j - 1]);
            }
        }
    }
}

/// A position `k` before which there is no `c`, and at which `c` stands
/// (or the end), is `first_index_of`.
pub proof fn lemma_first_index_is(s: Seq<char>, c: char, k: int)
    requires
        0 <= k <= s.len(),
        forall|j: int| 0 <= j < k ==> s[j] != c,
        k < s.len() ==> s[k] == c,
    ensures
        first_index_of(s, c) == (if k < s.len() { k } else { -1 }),
    decreases s.len(),
{
    if s.len() > 0 && k > 0 {
        assert forall|j: int| 0 <= j < k - 1 implies s.drop_first()[j] != c by {
            assert(s.drop_first()[j] == s[j + 1]);
        }
        lemma_first_index_is(s.drop_first(), c, k - 1);
    }
}

/// The word `since`.
pub open spec fn since_word() -> Seq<char> {
    seq!['s', 'i', 'n', 'c', 'e']
}

/// The value of a `key=value` parameter whose key is `since` (the key ends
/// at the first `=`), or `None` for any other parameter.
pub open spec fn param_since_value(p: Seq<char>) -> Option<Seq<char>> {
    let i = first_index_of(p, '=');
    if i < 0 {
        None
    } else if p.take(i) == since_word() {
        Some(p.skip(i + 1))
    } else {
        None
    }
}

/// The values of the `since` parameters of a query string, in order; the
/// parameters are separated by `&`.
pub open spec fn since_values_in(q: Seq<char>) -> Seq<Seq<char>>
    decreases q.len(),
{
    let i = first_index_of(q, '&');
    let piece = if i < 0 { q } else { q.take(i) };
    let head = match param_since_value(piece) {
        Some(v) => seq![v],
        None => Seq::empty(),
    };
    if i < 0 {
        head
    } else {
        proof {
            lemma_first_index_of(q, '&');
        }
        head + since_values_in(q.skip(i + 1))
    }
}

/// The path of a request URL: everything before the first `?`.
pub open spec fn target_path(url: Seq<char>) -> Seq<char> {
    let i = first_index_of(url, '?');
    if i < 0 {
        url
    } else {
        url.take(i)
    }
}

/// The `since` values of a request URL: those of the query after the first
/// `?`, none when there is no `?`.
pub open spec fn target_since_values(url: Seq<char>) -> Seq<Seq<char>> {
    let i = first_index_of(url, '?');
    if i < 0 {
        Seq::empty()
    } else {
        since_values_in(url.skip(i + 1))
    }
}

/// A URL without a query is all path, with no `since` value; the path of
/// any URL holds no `?`.
pub proof fn lemma_path_without_query(url: Seq<char>)
    ensures
        !url.contains('?') ==> target_path(url) == url && target_since_values(url).len() == 0,
        !target_path(url).contains('?'),
{
    lemma_first_index_of(url, '?');
    let i = first_index_of(url, '?');
    if !url.contains('?') {
        if i >= 0 {
            assert(url[i] == '?');
            assert(false);
        }
    }
    if i >= 0 {
        assert forall|j: int| 0 <= j < url.take(i).len() implies url.take(i)[j] != '?' by {
            assert(url.take(i)[j] == url[j]);
        }
    } else {
        assert forall|j: int| 0 <= j < url.len() implies url[j] != '?' by {}
    }
}

/// A request URL split into its path and the values of its `since`
/// parameters (the first that is a number is the one that counts).
pub struct RequestTarget {
    pub path: String,
    pub since_values: Vec<String>,
}

fn find_char(v: &Vec<char>, lo: usize, hi: usize, c: char) -> (r: usize)
    requires
        lo <= hi <= v@.len(),
    ensures
        lo <= r <= hi,
        first_index_of(v@.subrange(lo as int, hi as int), c) == (if r < hi { r - lo } else { -1 }),
{
    let mut k = lo;
    while k < hi
        invariant
            lo <= k <= hi,
            hi <= v@.len(),
            forall|j: int| lo <= j < k ==> v@[j] != c,
        ensures
            lo <= k <= hi,
            forall|j: int| lo <= j < k ==> v@[j] != c,
            k < hi ==> v@[k as int] == c,
        decreases hi - k,
    {
        if v[k] == c {
            break;
        }
        k = k + 1;
    }
    proof {
        lemma_first_index_is(v@.subrange(lo as int, hi as int), c, k - lo);
    }
    k
}

fn collect_range(v: &Vec<char>, lo: usize, hi: usize) -> (r: Vec<char>)
    requires
        lo <= hi <= v@.len(),
    ensures
        r@ == v@.subrange(lo as int, hi as int),
{
    let mut r: Vec<char> = Vec::new();
    let mut k = lo;
    while k < hi
        invariant
            lo <= k <= hi,
            hi <= v@.len(),
            r@ == v@.subrange(lo as int, k as int),
        decreases hi - k,
    {
        r.push(v[k]);
        k = k + 1;
        proof {
            assert(r@ =~= v@.subrange(lo as int, k as int));
        }
    }
    r
}

fn param_value(v: &Vec<char>, lo: usize, hi: usize, word: &Vec<char>) -> (r: Option<String>)
    requires
        lo <= hi <= v@.len(),
        word@ == since_word(),
    ensures
        match r {
            Some(s) => param_since_value(v@.subrange(lo as int, hi as int)) == Some(s@),
            None => param_since_value(v@.subrange(lo as int, hi as int)) is None,
        },
{
    let ghost p = v@.subrange(lo as int, hi as int);
    let eq = find_char(v, lo, hi, '=');
    if eq == hi {
        return None;
    }
    let key = collect_range(v, lo, eq);
    proof {
        assert(key@ =~= p.take(eq - lo));
    }
    if !chars_eq(&key, word) {
        return None;
    }
    let value = collect_range(v, eq + 1, hi);
    proof {
        assert(value@ =~= p.skip(eq - lo + 1));
    }
    Some(string_from_chars(&value))
}

/// Splits a request URL into its path (before the first `?`) and the values
/// of the `since` parameters of its query, in order.
pub fn split_request_url(url: &str) -> (r: RequestTarget)
    ensures
        r.path@ == target_path(url@),
        strings_view(r.since_values@) == target_since_values(url@),
{
    let v = chars_of(url);
    let n = v.len();
    let word = chars_of("since");
    proof {
        reveal_strlit("since");
        assert(word@ =~= since_word());
    }
    let q = find_char(&v, 0, n, '?');
    proof {
        assert(v@.subrange(0, n as int) =~= url@);
    }
    let path_chars = collect_range(&v, 0, q);
    let path = string_from_chars(&path_chars);
    let mut values: Vec<String> = Vec::new();
    if q == n {
        proof {
            assert(path_chars@ =~= url@);
            assert(strings_view(values@) =~= Seq::<Seq<char>>::empty());
        }
        return RequestTarget { path, since_values: values };
    }
    proof {
        assert(path_chars@ =~= url@.take(q as int));
        assert(url@.skip(q + 1) =~= v@.subrange(q + 1, n as int));
        assert(strings_view(values@) =~= Seq::<Seq<char>>::empty());
    }
    let ghost target = since_values_in(v@.subrange(q + 1, n as int));
    let mut pos = q + 1;
    loop
        invariant_except_break
            strings_view(values@) + since_values_in(v@.subrange(pos as int, n as int)) == target,
        invariant
            q + 1 <= pos <= n,
            n == v@.len(),
            word@ == since_word(),
        ensures
            strings_view(values@) == target,
        decreases n - pos,
    {
        let ghost rest = v@.subrange(pos as int, n as int);
        let j = find_char(&v, pos, n, '&');
        let ghost before = strings_view(values@);
        let val = param_value(&v, pos, j, &word);
        proof {
            lemma_first_index_of(rest, '&');
            if j < n {
                assert(rest.take(j - pos) =~= v@.subrange(pos as int, j as int));
                assert(rest.skip(j - pos + 1) =~= v@.subrange(j + 1, n as int));
            } else {
                assert(rest =~= v@.subrange(pos as int, j as int));
            }
        }
        match val {
            Some(x) => {
                values.push(x);
                proof {
                    assert(strings_view(values@) =~= before.push(x@));
                }
            },
            None => {},
        }
        if j == n {
            proof {
                assert(strings_view(values@) =~= target);
            }
            break;
        }
        proof {
            assert(strings_view(values@) + since_values_in(v@.subrange(j + 1, n as int)) =~= target);
        }
        pos = j + 1;
    }
    RequestTarget { path, since_values: values }
}

/// The endpoints of the API, and the dashboard page.
#[derive(Clone, Copy, Debug, PartialEq, Eq, Structural)]
pub enum Route {
    Dashboard,
    Topology,
    Events,
    Stats,
    NotFound,
}

/// The endpoint a request path names.
pub open spec fn route_of(path: Seq<char>) -> Route {
    if path == "/"@ {
        Route::Dashboard
    } else if path == "/api/topology"@ {
        Route::Topology
    } else if path == "/api/events"@ {
        Route::Events
    } else if path == "/api/stats"@ {
        Route::Stats
    } else {
        Route::NotFound
    }
}

/// Chooses the endpoint for a request path (see [`route_of`]).
pub fn route(path: &str) -> (r: Route)
    ensures
        r == route_of(path@),
{
    if str_eq(path, "/") {
        Route::Dashboard
    } else if str_eq(path, "/api/topology") {
        Route::Topology
    } else if str_eq(path, "/api/events") {
        Route::Events
    } else if str_eq(path, "/api/stats") {
        Route::Stats
    } else {
        Route::NotFound
    }
}

} // verus!
