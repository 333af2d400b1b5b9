//! The parts of a URL that the desktop looks at: scheme, host, port and what follows.

use crate::text::{
    concat4, cut, decimal, decimal_of, find, find_any_from, find_from, index_of, index_of_any,
    is_digit, last_index_of, law_decimal_parses_back, lemma_decimal_value, lemma_find_any_from,
    lemma_find_from, lemma_rfind_from, matches_at, number_digits, parse_u16, parsed, port_num, rcut,
    rfind, rsplit_once, skip, split_once, starts, starts_with, take,
};
use vstd::prelude::*;
use vstd::string::*;

verus! {

/// A URL cut into the scheme with its `://`, the host, and everything behind host and port.
#[verifier::ext_equal]
pub struct UrlParts {
    pub scheme: Seq<char>,
    pub host: Seq<char>,
    pub tail: Seq<char>,
}

/// The length of the authority that a text starts with: up to the first `/`, `?` or `#`.
pub open spec fn authority_len(rest: Seq<char>) -> int {
    match find_any_from(rest, "/?#"@, true, 0) {
        Some(e) => e,
        None => rest.len() as int,
    }
}

/// The length of the host in an authority: through the closing bracket of an IPv6 address,
/// else up to the last colon. A bracket that is never closed leaves no host.
pub open spec fn host_len(authority: Seq<char>) -> Option<int> {
    if starts(authority, "["@) {
        match find(authority, "]"@) {
            Some(k) => Some(k + 1),
            None => None,
        }
    } else {
        match rfind(authority, ":"@) {
            Some(k) => Some(k),
            None => Some(authority.len() as int),
        }
    }
}

/// The parts of a URL that names a host.
pub open spec fn url_parts(url: Seq<char>) -> Option<UrlParts> {
    match find(url, "://"@) {
        None => None,
        Some(k) => {
            let rest = url.skip(k + 3);
            let end = authority_len(rest);
            match host_len(rest.take(end)) {
                None => None,
                Some(h) => if h == 0 {
                    None
                } else {
                    Some(
                        UrlParts {
                            scheme: url.take(k + 3),
                            host: rest.take(end).take(h),
                            tail: rest.skip(end),
                        },
                    )
                },
            }
        },
    }
}

/// The URL with its port set; a text that names no host stays as it is.
pub open spec fn with_url_port(url: Seq<char>, port: nat) -> Seq<char> {
    match url_parts(url) {
        None => url,
        Some(p) => p.scheme + p.host + ":"@ + decimal(port) + p.tail,
    }
}

/// Sets the port of a URL, whether it had one or not.
pub fn replace_url_port(url: &str, port: u16) -> (r: String)
    ensures
        r@ == with_url_port(url@, port as nat),
{
    proof {
        reveal_strlit("://");
    }
    let n: usize = url.unicode_len();
    let scheme_end: usize = match index_of(url, "://") {
        Some(k) => k,
        None => {
            return url.to_owned();
        },
    };
    let authority_start: usize = scheme_end + 3;
    let remainder = skip(url, authority_start);
    let authority_end: usize = match index_of_any(remainder, "/?#", true) {
        Some(e) => e,
        None => remainder.unicode_len(),
    };
    let authority = take(remainder, authority_end);
    let host_end: usize = if starts_with(authority, "[") {
        proof {
            reveal_strlit("]");
        }
        match index_of(authority, "]") {
            Some(k) => k + 1,
            None => {
                return url.to_owned();
            },
        }
    } else {
        match last_index_of(authority, ":") {
            Some(k) => k,
            None => authority.unicode_len(),
        }
    };
    if host_end == 0 {
        return url.to_owned();
    }
    let host = take(authority, host_end);
    let mut r = concat4(
        take(url, authority_start),
        host,
        ":",
        decimal_of(port as u64).as_str(),
    );
    r.append(skip(remainder, authority_end));
    r
}

/// The port that a URL names behind its host, where it names one.
pub open spec fn url_port(url: Seq<char>) -> Option<int> {
    match cut(url, "://"@) {
        None => None,
        Some(p) => {
            let host_port = before_slash(before_scheme(p.1));
            let port = match rcut(host_port, ":"@) {
                Some(q) => q.1,
                None => host_port,
            };
            parsed(port, 65535)
        },
    }
}

/// Reads the port of a URL.
pub fn extract_url_port(url: &str) -> (r: Option<u16>)
    ensures
        port_num(r) == url_port(url@),
{
    match split_once(url, "://") {
        None => None,
        Some(p) => {
            let rest = match split_once(p.1, "://") {
                Some(q) => q.0,
                None => p.1,
            };
            let host_port = match split_once(rest, "/") {
                Some(q) => q.0,
                None => rest,
            };
            let port = match rsplit_once(host_port, ":") {
                Some(q) => q.1,
                None => host_port,
            };
            parse_u16(port)
        },
    }
}

/// The parts of a URL put together again in front of any authority that keeps the host.
proof fn lemma_parts_shape(url: Seq<char>)
    requires
        url_parts(url) is Some,
    ensures
        ({
            let p = url_parts(url)->0;
            &&& find(url, "://"@) == Some(p.scheme.len() - 3)
            &&& p.scheme.len() >= 3
            &&& p.host.len() > 0
            &&& forall|j: int|
                0 <= j < p.host.len() ==> !("/?#"@.contains(#[trigger] p.host[j]))
            &&& p.tail.len() > 0 ==> "/?#"@.contains(p.tail[0])
            &&& p.host[0] == '[' ==> find(p.host, "]"@) == Some(p.host.len() - 1)
        }),
{
    reveal_strlit("://");
    reveal_strlit("]");
    reveal_strlit("[");
    reveal_strlit(":");
    let p = url_parts(url)->0;
    let k = find(url, "://"@)->0;
    lemma_find_from(url, "://"@, 0);
    let rest = url.skip(k + 3);
    lemma_find_any_from(rest, "/?#"@, true, 0);
    let end = authority_len(rest);
    let authority = rest.take(end);
    lemma_find_from(authority, "]"@, 0);
    lemma_rfind_from(authority, ":"@, authority.len() - 1);
    assert forall|j: int| 0 <= j < p.host.len() implies !("/?#"@.contains(#[trigger] p.host[j])) by {
        assert(p.host[j] == rest[j]);
    }
    if p.host[0] == '[' {
        assert(authority[0] == '[');
        assert(authority.subrange(0, 1) == "["@);
        let c = find(authority, "]"@)->0;
        assert(p.host == authority.take(c + 1));
        assert(authority.subrange(c, c + 1) == "]"@);
        assert(p.host.subrange(c, c + 1) == authority.subrange(c, c + 1));
        lemma_find_from(p.host, "]"@, 0);
        assert forall|j: int| 0 <= j < c implies !matches_at(p.host, "]"@, j) by {
            assert(!matches_at(authority, "]"@, j));
            assert(p.host.subrange(j, j + 1) == authority.subrange(j, j + 1));
        }
        assert(matches_at(p.host, "]"@, c));
    }
}

/// Setting a port keeps scheme, host and tail of the URL.
pub proof fn law_port_keeps_parts(url: Seq<char>, port: nat)
    requires
        url_parts(url) is Some,
    ensures
        url_parts(with_url_port(url, port)) == url_parts(url),
{
    reveal_strlit("://");
    reveal_strlit("]");
    reveal_strlit("[");
    reveal_strlit(":");
    reveal_strlit("/?#");
    lemma_parts_shape(url);
    lemma_decimal_value(port);
    let p = url_parts(url)->0;
    let out = with_url_port(url, port);
    let k = p.scheme.len() - 3;
    lemma_find_from(url, "://"@, 0);
    lemma_find_from(out, "://"@, 0);
    assert(p.scheme == url.take(k + 3));
    assert forall|j: int| 0 <= j < k implies !matches_at(out, "://"@, j) by {
        assert(!matches_at(url, "://"@, j));
        assert(out.subrange(j, j + 3) == url.subrange(j, j + 3));
    }
    assert(out.subrange(k, k + 3) == url.subrange(k, k + 3));
    assert(matches_at(out, "://"@, k));
    assert(find(out, "://"@) == Some(k as int));
    let rest = out.skip(k + 3);
    let authority = p.host + ":"@ + decimal(port);
    assert(rest == authority + p.tail);
    lemma_find_any_from(rest, "/?#"@, true, 0);
    assert forall|j: int| 0 <= j < authority.len() implies !("/?#"@.contains(#[trigger] rest[j])) by {
        if j < p.host.len() {
            assert(rest[j] == p.host[j]);
        } else if j == p.host.len() {
            assert(rest[j] == ':');
        } else {
            assert(rest[j] == decimal(port)[j - p.host.len() - 1]);
            assert(is_digit(rest[j]));
        }
    }
    if p.tail.len() > 0 {
        assert(rest[authority.len() as int] == p.tail[0]);
    }
    assert(authority_len(rest) == authority.len());
    assert(rest.take(authority.len() as int) == authority);
    assert(rest.skip(authority.len() as int) == p.tail);
    let n = p.host.len() as int;
    if p.host[0] == '[' {
        assert(authority.subrange(0, 1) == "["@);
        lemma_find_from(p.host, "]"@, 0);
        lemma_find_from(authority, "]"@, 0);
        assert forall|j: int| 0 <= j < n - 1 implies !matches_at(authority, "]"@, j) by {
            assert(!matches_at(p.host, "]"@, j));
            assert(authority.subrange(j, j + 1) == p.host.subrange(j, j + 1));
        }
        assert(authority.subrange(n - 1, n) == p.host.subrange(n - 1, n));
        assert(matches_at(authority, "]"@, n - 1));
        assert(host_len(authority) == Some(n));
    } else {
        assert(!starts(authority, "["@)) by {
            if starts(authority, "["@) {
                assert(authority.subrange(0, 1)[0] == '[');
            }
        }
        lemma_rfind_from(authority, ":"@, authority.len() - 1);
        assert(authority.subrange(n, n + 1) == ":"@);
        assert(matches_at(authority, ":"@, n));
        assert forall|j: int| n < j < authority.len() implies !matches_at(authority, ":"@, j) by {
            if matches_at(authority, ":"@, j) {
                assert(authority.subrange(j, j + 1)[0] == authority[j]);
                assert(authority[j] == decimal(port)[j - n - 1]);
                assert(is_digit(authority[j]));
            }
        }
        assert(host_len(authority) == Some(n));
    }
    assert(authority.take(n) == p.host);
    assert(out.take(k + 3) == p.scheme);
}

/// The last port set on a URL is the one that stays.
pub proof fn law_last_port_wins(url: Seq<char>, first: nat, second: nat)
    ensures
        with_url_port(with_url_port(url, first), second) == with_url_port(url, second),
{
    if url_parts(url) is Some {
        law_port_keeps_parts(url, first);
    }
}

/// In an authority with a port, the port stands behind the last colon.
proof fn lemma_authority_port(host: Seq<char>, port: nat)
    requires
        forall|j: int| 0 <= j < host.len() ==> #[trigger] host[j] != '/',
    ensures
        ({
            let a = host + ":"@ + decimal(port);
            &&& forall|j: int| 0 <= j < a.len() ==> #[trigger] a[j] != '/'
            &&& is_digit(a.last())
            &&& a.len() > host.len() + 1
            &&& rfind(a, ":"@) == Some(host.len() as int)
            &&& a.skip(host.len() as int + 1) == decimal(port)
        }),
{
    reveal_strlit(":");
    lemma_decimal_value(port);
    let a = host + ":"@ + decimal(port);
    let n = host.len() as int;
    let m = a.len() as int;
    assert forall|j: int| 0 <= j < m implies #[trigger] a[j] != '/' by {
        if j < n {
            assert(a[j] == host[j]);
        } else if j > n {
            assert(a[j] == decimal(port)[j - n - 1]);
            assert(is_digit(a[j]));
        }
    }
    assert(a.last() == decimal(port).last());
    assert(is_digit(decimal(port)[decimal(port).len() - 1]));
    lemma_rfind_from(a, ":"@, m - 1);
    assert(a.subrange(n, n + 1) == ":"@);
    assert(matches_at(a, ":"@, n));
    assert forall|j: int| n < j < m implies !matches_at(a, ":"@, j) by {
        if matches_at(a, ":"@, j) {
            assert(a.subrange(j, j + 1)[0] == a[j]);
            assert(a[j] == decimal(port)[j - n - 1]);
            assert(is_digit(a[j]));
        }
    }
    assert(a.skip(n + 1) == decimal(port));
}

/// The text before the next `://`, if there is one.
pub open spec fn before_scheme(rest: Seq<char>) -> Seq<char> {
    match cut(rest, "://"@) {
        Some(q) => q.0,
        None => rest,
    }
}

/// The text before the first slash, if there is one.
pub open spec fn before_slash(rest: Seq<char>) -> Seq<char> {
    match cut(rest, "/"@) {
        Some(q) => q.0,
        None => rest,
    }
}

/// An authority without slashes is what stands before the first slash.
proof fn lemma_authority_before_slash(a: Seq<char>, tail: Seq<char>)
    requires
        a.len() > 0,
        forall|j: int| 0 <= j < a.len() ==> #[trigger] a[j] != '/',
        a.last() != ':',
        tail.len() == 0 || tail[0] == '/',
    ensures
        before_slash(before_scheme(a + tail)) == a,
{
    reveal_strlit("://");
    reveal_strlit("/");
    let rest = a + tail;
    let m = a.len() as int;
    lemma_find_from(rest, "://"@, 0);
    assert forall|j: int| 0 <= j < m implies !matches_at(rest, "://"@, j) by {
        if matches_at(rest, "://"@, j) {
            assert(rest.subrange(j, j + 3)[0] == rest[j]);
            assert(rest.subrange(j, j + 3)[1] == rest[j + 1]);
            assert(rest[j] == a[j]);
            if j + 1 < m {
                assert(rest[j + 1] == a[j + 1]);
            }
        }
    }
    let head = before_scheme(rest);
    assert(head.len() >= m);
    assert(head.take(m) == a);
    lemma_find_from(head, "/"@, 0);
    assert forall|j: int| 0 <= j < m implies !matches_at(head, "/"@, j) by {
        if matches_at(head, "/"@, j) {
            assert(head.subrange(j, j + 1)[0] == head[j]);
            assert(head[j] == a[j]);
        }
    }
    if head.len() > m {
        assert(head[m] == tail[0]);
        assert(head.subrange(m, m + 1) == "/"@);
        assert(matches_at(head, "/"@, m));
    }
}

/// A port set on a URL is read back from it, where the URL goes on with a path or ends.
pub proof fn law_set_port_is_read_back(url: Seq<char>, port: nat)
    requires
        port <= 65535,
        url_parts(url) is Some,
        url_parts(url)->0.tail.len() == 0 || url_parts(url)->0.tail[0] == '/',
    ensures
        url_port(with_url_port(url, port)) == Some(port as int),
{
    reveal_strlit("://");
    reveal_strlit(":");
    let p = url_parts(url)->0;
    let out = with_url_port(url, port);
    let a = p.host + ":"@ + decimal(port);
    assert(forall|j: int| 0 <= j < p.host.len() ==> #[trigger] p.host[j] != '/') by {
        lemma_parts_shape(url);
        reveal_strlit("/?#");
        assert("/?#"@[0] == '/');
        assert("/?#"@.contains('/'));
    }
    law_port_keeps_parts(url, port);
    lemma_authority_port(p.host, port);
    lemma_authority_before_slash(a, p.tail);
    assert(find(out, "://"@) == Some(p.scheme.len() - 3)) by {
        lemma_parts_shape(out);
    }
    assert(out.skip(p.scheme.len() as int) == a + p.tail) by {
        lemma_parts_shape(url);
    }
    law_decimal_parses_back(port, 65535);
}

/// The position of a text of which no occurrence starts within `a`, looked for from its end on.
proof fn lemma_find_behind(a: Seq<char>, b: Seq<char>, pat: Seq<char>, i: int)
    requires
        0 <= i <= b.len(),
        pat.len() > 0,
    ensures
        find_from(a + b, pat, a.len() + i) == (match find_from(b, pat, i) {
            Some(k) => Some(a.len() + k),
            None => None,
        }),
    decreases b.len() - i,
{
    let s = a + b;
    let n = a.len() as int;
    if i + pat.len() <= b.len() {
        assert(s.subrange(n + i, n + i + pat.len()) == b.subrange(i, i + pat.len()));
    }
    assert(matches_at(s, pat, n + i) == matches_at(b, pat, i));
    if i < b.len() && !matches_at(b, pat, i) {
        lemma_find_behind(a, b, pat, i + 1);
    }
}

/// What no occurrence starts before is found where it is found behind that.
proof fn lemma_find_passes(s: Seq<char>, pat: Seq<char>, i: int, n: int)
    requires
        0 <= i <= n <= s.len(),
        forall|j: int| i <= j < n ==> !matches_at(s, pat, j),
    ensures
        find_from(s, pat, i) == find_from(s, pat, n),
    decreases n - i,
{
    if i < n {
        lemma_find_passes(s, pat, i + 1, n);
    }
}

/// Whether a text holds none of the characters that end an authority.
spec fn is_authority(a: Seq<char>) -> bool {
    forall|j: int| 0 <= j < a.len() ==> #[trigger] a[j] != '/' && a[j] != '?' && a[j] != '#'
}

/// What is read as a port where a query or a fragment follows the authority.
spec fn port_in_query(tail: Seq<char>) -> Option<int> {
    match rcut(before_slash(before_scheme(tail)), ":"@) {
        Some(q) => parsed(q.1, 65535),
        None => None,
    }
}

/// Where a query or a fragment follows the authority, what is read as a port is in there.
proof fn lemma_port_in_query(a: Seq<char>, tail: Seq<char>)
    requires
        is_authority(a),
        tail.len() > 0,
        tail[0] == '?' || tail[0] == '#',
    ensures
        ({
            let host_port = before_slash(before_scheme(a + tail));
            let port = match rcut(host_port, ":"@) {
                Some(q) => q.1,
                None => host_port,
            };
            parsed(port, 65535) == port_in_query(tail)
        }),
{
    reveal_strlit("://");
    reveal_strlit("/");
    reveal_strlit(":");
    let s = a + tail;
    let n = a.len() as int;
    assert forall|j: int| 0 <= j < n implies !matches_at(s, "://"@, j) by {
        if matches_at(s, "://"@, j) {
            assert(s.subrange(j, j + 3)[0] == s[j]);
            assert(s.subrange(j, j + 3)[1] == s[j + 1]);
            if j + 1 < n {
                assert(s[j + 1] == a[j + 1]);
            } else {
                assert(s[j + 1] == tail[0]);
            }
        }
    }
    lemma_find_passes(s, "://"@, 0, n);
    lemma_find_behind(a, tail, "://"@, 0);
    let t = before_scheme(tail);
    lemma_find_from(tail, "://"@, 0);
    assert(before_scheme(s) == a + t);
    assert(t.len() > 0 && t[0] == tail[0]) by {
        if find(tail, "://"@) == Some(0int) {
            assert(tail.subrange(0, 3)[0] == tail[0]);
        }
    }
    let u = a + t;
    assert forall|j: int| 0 <= j < n implies !matches_at(u, "/"@, j) by {
        if matches_at(u, "/"@, j) {
            assert(u.subrange(j, j + 1)[0] == u[j]);
            assert(u[j] == a[j]);
        }
    }
    lemma_find_passes(u, "/"@, 0, n);
    lemma_find_behind(a, t, "/"@, 0);
    let h = before_slash(t);
    lemma_find_from(t, "/"@, 0);
    assert(before_slash(u) == a + h);
    assert(h.len() > 0 && h[0] == tail[0]) by {
        if find(t, "/"@) == Some(0int) {
            assert(t.subrange(0, 1)[0] == t[0]);
        }
    }
    let w = a + h;
    lemma_rfind_from(w, ":"@, w.len() - 1);
    lemma_rfind_from(h, ":"@, h.len() - 1);
    match rfind(h, ":"@) {
        Some(k) => {
            assert(w.subrange(n + k, n + k + 1) == h.subrange(k, k + 1));
            assert(matches_at(w, ":"@, n + k));
            assert forall|j: int| n + k < j < w.len() implies !matches_at(w, ":"@, j) by {
                if matches_at(w, ":"@, j) {
                    assert(w.subrange(j, j + 1) == h.subrange(j - n, j - n + 1));
                    assert(matches_at(h, ":"@, j - n));
                }
            }
            assert(rfind(w, ":"@) == Some(n + k));
            assert(w.skip(n + k + 1) == h.skip(k + 1));
        },
        None => {
            let port = match rcut(w, ":"@) {
                Some(q) => q.1,
                None => w,
            };
            let from = match rfind(w, ":"@) {
                Some(k) => k + 1,
                None => 0,
            };
            if rfind(w, ":"@) is Some {
                let k = rfind(w, ":"@)->0;
                if k >= n {
                    assert(w.subrange(k, k + 1) == h.subrange(k - n, k - n + 1));
                    assert(matches_at(h, ":"@, k - n));
                }
            }
            assert(from <= n);
            assert(w.skip(0) == w);
            assert(port == w.skip(from));
            assert(port[n - from] == w[n]);
            assert(w[n] == tail[0]);
            lemma_not_a_number(port, n - from);
        },
    }
}

proof fn lemma_not_a_number(s: Seq<char>, k: int)
    requires
        0 <= k < s.len(),
        s[k] == '?' || s[k] == '#',
    ensures
        parsed(s, 65535) is None,
{
    let d = number_digits(s);
    if s[0] == '+' {
        assert(d == s.skip(1));
        assert(d[k - 1] == s[k]);
    } else {
        assert(d[k] == s[k]);
    }
}

/// What is read as a port of a URL whose authority a query or a fragment follows is in there,
/// and stays whatever port is set.
pub proof fn law_ports_in_queries_stay(url: Seq<char>, port: nat)
    requires
        url_parts(url) is Some,
        url_parts(url)->0.tail.len() > 0,
        url_parts(url)->0.tail[0] != '/',
    ensures
        url_port(with_url_port(url, port)) == url_port(url),
{
    reveal_strlit("://");
    reveal_strlit(":");
    reveal_strlit("/?#");
    let p = url_parts(url)->0;
    let out = with_url_port(url, port);
    lemma_parts_shape(url);
    law_port_keeps_parts(url, port);
    lemma_parts_shape(out);
    lemma_find_from(url, "://"@, 0);
    let k = find(url, "://"@)->0;
    let rest = url.skip(k + 3);
    lemma_find_any_from(rest, "/?#"@, true, 0);
    let a = rest.take(authority_len(rest));
    let end = "/?#"@;
    assert(end[0] == '/' && end[1] == '?' && end[2] == '#');
    assert forall|j: int| 0 <= j < a.len() implies #[trigger] a[j] != '/' && a[j] != '?' && a[j]
        != '#' by {
        assert(a[j] == rest[j]);
        assert(!end.contains(rest[j]));
    }
    assert(rest == a + p.tail);
    lemma_port_in_query(a, p.tail);
    let b = p.host + ":"@ + decimal(port);
    lemma_decimal_value(port);
    assert forall|j: int| 0 <= j < b.len() implies #[trigger] b[j] != '/' && b[j] != '?' && b[j]
        != '#' by {
        if j < p.host.len() {
            assert(b[j] == p.host[j]);
            assert(!end.contains(p.host[j]));
        } else if j > p.host.len() {
            assert(b[j] == decimal(port)[j - p.host.len() - 1]);
            assert(is_digit(b[j]));
        }
    }
    assert(out.skip(k + 3) == b + p.tail);
    lemma_port_in_query(b, p.tail);
}

} // verus!
