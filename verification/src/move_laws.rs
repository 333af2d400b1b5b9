//! Laws of moved ports: which addresses follow them, and what is reported of them.

use crate::models::{ChangeModel, EnvModel};
use crate::port_laws::{
    law_foreign_values_stay, lemma_aligned_keeps_port, lemma_entry_port_range,
    lemma_letter_is_no_port, lemma_loopback_starts_with_h, lemma_next_offer, lemma_offer_is_port,
    lemma_rebased_keeps_port, lemma_resolved_frame,
};
use crate::ports::{
    aligned, assigned_from, best_match, conflicts, entry_port, extends_host, host_port_from,
    host_port_replaced, is_localhost_url, is_loopback_url, is_service_port_key, moved_on_loopback, moved_twice,
    next_offer, phoenix_from, rebased, rebased_from, rebased_once, resolution, resolved_from,
    stands_alone, Taken,
};
use crate::text::{
    bytes, decimal, find, find_from, holds, is_digit, lemma_decimal_value, lemma_find_any_from,
    lemma_find_from, lemma_rfind_from, matches_at, starts, strip_all_end, upper,
};
use crate::urls::{
    authority_len, host_len, law_set_port_is_read_back, url_parts, url_port, with_url_port,
    UrlParts,
};
use crate::vault_laws::{
    is_own_host, is_web_scheme, law_addresses_of_this_machine, lemma_authority_is,
    lemma_behind_scheme, lemma_hosts,
};
use vstd::prelude::*;
use vstd::string::*;

verus! {

// ---------------------------------------------------------------------------
// One host and port
// ---------------------------------------------------------------------------

/// Whether a text is nothing or a path.
pub open spec fn is_path(p: Seq<char>) -> bool {
    p.len() > 0 ==> p[0] == '/'
}

/// Whether a text has no colon.
pub open spec fn has_no_colon(p: Seq<char>) -> bool {
    forall|i: int| 0 <= i < p.len() ==> #[trigger] p[i] != ':'
}

/// The web address of a host, a port and a path.
pub open spec fn address(scheme: Seq<char>, host: Seq<char>, port: nat, path: Seq<char>) -> Seq<
    char,
> {
    scheme + host + ":"@ + decimal(port) + path
}

/// Where nothing matches up to a place, what is before it stays.
proof fn lemma_skip_ahead(s: Seq<char>, needle: Seq<char>, to: Seq<char>, i: int, m: int)
    requires
        0 <= i <= m <= s.len(),
        needle.len() > 0,
        forall|k: int| i <= k <= m ==> !(#[trigger] matches_at(s, needle, k)),
    ensures
        host_port_from(s, needle, to, i) == s.subrange(i, m) + host_port_from(s, needle, to, m),
{
    lemma_find_from(s, needle, i);
    lemma_find_from(s, needle, m);
    match find_from(s, needle, i) {
        None => {
            assert(find_from(s, needle, m) is None) by {
                if let Some(k) = find_from(s, needle, m) {
                    assert(matches_at(s, needle, k));
                }
            }
            assert(s.skip(i) == s.subrange(i, m) + s.skip(m));
        },
        Some(k) => {
            assert(k > m);
            assert(find_from(s, needle, m) == Some(k)) by {
                if find_from(s, needle, m) is None {
                    assert(!matches_at(s, needle, k));
                } else {
                    let l = find_from(s, needle, m)->0;
                    if l < k {
                        assert(!matches_at(s, needle, l));
                    } else if l > k {
                        assert(!matches_at(s, needle, k));
                    }
                }
            }
            assert(s.subrange(i, k) == s.subrange(i, m) + s.subrange(m, k));
            let rest = host_port_from(s, needle, to, k + needle.len());
            let mid = if stands_alone(s, needle, i, k) {
                to
            } else {
                needle
            };
            assert(s.subrange(i, k) + mid + rest == s.subrange(i, m) + (s.subrange(m, k) + mid
                + rest));
        },
    }
}

/// What is left of a path is a path, and is all of it where it has no colon.
proof fn lemma_path_left(s: Seq<char>, needle: Seq<char>, to: Seq<char>, m: int)
    requires
        0 <= m <= s.len(),
        needle.len() > 0,
        needle[0] != '/',
        needle.contains(':'),
        m < s.len() ==> s[m] == '/',
    ensures
        is_path(host_port_from(s, needle, to, m)),
        has_no_colon(s.skip(m)) ==> host_port_from(s, needle, to, m) == s.skip(m),
{
    lemma_find_from(s, needle, m);
    match find_from(s, needle, m) {
        None => {
            if m < s.len() {
                assert(s.skip(m)[0] == s[m]);
            }
        },
        Some(k) => {
            assert(s.subrange(k, k + needle.len())[0] == s[k]);
            assert(k > m);
            assert(s.subrange(m, k)[0] == s[m]);
            let c = choose|c: int| 0 <= c < needle.len() && needle[c] == ':';
            assert(s.subrange(k, k + needle.len())[c] == s[k + c]);
            assert(s.skip(m)[k + c - m] == ':');
        },
    }
}

/// Two numbers with the same notation are the same.
proof fn lemma_decimal_injective(a: nat, b: nat)
    requires
        decimal(a) == decimal(b),
    ensures
        a == b,
{
    lemma_decimal_value(a);
    lemma_decimal_value(b);
}

/// The hosts of this machine end differently, hold no slash, and do not start with one.
proof fn lemma_own_hosts(g: Seq<char>, h: Seq<char>)
    requires
        is_own_host(g),
        is_own_host(h),
    ensures
        g.len() > 0,
        g.last() == h.last() ==> g == h,
        forall|i: int| 0 <= i < g.len() ==> #[trigger] g[i] != '/',
        !(g.last() == ':'),
        forall|i: int| 0 <= i < g.len() - 1 && #[trigger] g[i] == ':' ==> g[i + 1] == ':' || g[i
            - 1] == ':',
{
    reveal_strlit("127.0.0.1");
    reveal_strlit("localhost");
    reveal_strlit("0.0.0.0");
    reveal_strlit("[::1]");
}

/// In an address of this machine, a host of this machine with a port stands before the path only
/// where the host of the address is.
proof fn lemma_only_at_host(
    scheme: Seq<char>,
    h: Seq<char>,
    x: nat,
    path: Seq<char>,
    g: Seq<char>,
    p: nat,
    k: int,
)
    requires
        is_web_scheme(scheme),
        is_own_host(h),
        is_own_host(g),
        is_path(path),
        0 <= k <= scheme.len() + h.len() + 1 + decimal(x).len(),
        matches_at(address(scheme, h, x, path), g + ":"@ + decimal(p), k),
    ensures
        g == h,
        k == scheme.len(),
        k + (g + ":"@ + decimal(p)).len() <= scheme.len() + h.len() + 1 + decimal(x).len(),
{
    reveal_strlit(":");
    reveal_strlit("http://");
    reveal_strlit("https://");
    lemma_own_hosts(g, h);
    lemma_own_hosts(h, g);
    lemma_decimal_value(x);
    lemma_decimal_value(p);
    let needle = g + ":"@ + decimal(p);
    let s = address(scheme, h, x, path);
    let n = scheme.len() as int;
    let c = n + h.len();
    let m = c + 1 + decimal(x).len();
    let w = s.subrange(k, k + needle.len());
    assert(w == needle);
    assert forall|i: int| 0 <= i < needle.len() implies #[trigger] needle[i] == s[k + i]
        && needle[i] != '/' by {
        assert(w[i] == s[k + i]);
        if i < g.len() {
            assert(needle[i] == g[i]);
        } else if i > g.len() {
            assert(needle[i] == decimal(p)[i - g.len() - 1]);
            assert(is_digit(decimal(p)[i - g.len() - 1]));
        }
    }
    if k + needle.len() > m {
        assert(s[m] == path[0]);
        assert(needle[m - k] == s[m]);
    }
    let e = k + g.len();
    assert(needle[g.len() as int] == ':');
    assert(s[e] == ':');
    assert(needle[g.len() as int + 1] == decimal(p)[0]);
    assert(is_digit(decimal(p)[0]));
    assert(is_digit(s[e + 1]));
    assert(needle[g.len() - 1] == g.last());
    assert(s[e - 1] == g.last());
    assert(e == c) by {
        if e > c {
            assert(s[e] == decimal(x)[e - c - 1]);
            assert(is_digit(decimal(x)[e - c - 1]));
        } else if e < n {
            assert(s[e] == scheme[e]);
            assert(s[e + 1] == scheme[e + 1]);
        } else if e < c {
            assert(s[e] == h[e - n]);
            reveal_strlit("127.0.0.1");
            reveal_strlit("localhost");
            reveal_strlit("0.0.0.0");
            reveal_strlit("[::1]");
            assert(h == "[::1]"@);
            assert(e - n == 1 || e - n == 2);
            if e - n == 1 {
                assert(s[e + 1] == h[2]);
            } else {
                assert(s[e - 1] == h[1]);
            }
        }
    }
    assert(s[c - 1] == h.last());
}

/// A host with a port that stands in an address of this machine is the host of the address, and
/// its port, or the beginning of its port.
proof fn lemma_host_found(
    scheme: Seq<char>,
    h: Seq<char>,
    x: nat,
    path: Seq<char>,
    p: nat,
    q: nat,
)
    requires
        is_web_scheme(scheme),
        is_own_host(h),
        is_path(path),
        matches_at(address(scheme, h, x, path), h + ":"@ + decimal(p), scheme.len() as int),
    ensures
        ({
            let s = address(scheme, h, x, path);
            let needle = h + ":"@ + decimal(p);
            let to = h + ":"@ + decimal(q);
            let m = scheme.len() + h.len() + 1 + decimal(x).len();
            let left = host_port_from(s, needle, to, m as int);
            host_port_from(s, needle, to, 0) == (if x == p {
                scheme + to + left
            } else {
                s.take(m as int) + left
            })
        }),
{
    reveal_strlit(":");
    reveal_strlit("http://");
    reveal_strlit("https://");
    lemma_decimal_value(x);
    lemma_decimal_value(p);
    let needle = h + ":"@ + decimal(p);
    let to = h + ":"@ + decimal(q);
    let s = address(scheme, h, x, path);
    let n = scheme.len() as int;
    let m = n + h.len() + 1 + decimal(x).len();
    let left = host_port_from(s, needle, to, m);
    lemma_only_at_host(scheme, h, x, path, h, p, n);
    lemma_find_from(s, needle, 0);
    assert(find_from(s, needle, 0) == Some(n)) by {
        if let Some(k) = find_from(s, needle, 0) {
            lemma_only_at_host(scheme, h, x, path, h, p, k);
        }
    }
    let e = n + needle.len();
    assert forall|k: int| e <= k <= m implies !(#[trigger] matches_at(s, needle, k)) by {
        if matches_at(s, needle, k) {
            lemma_only_at_host(scheme, h, x, path, h, p, k);
        }
    }
    lemma_skip_ahead(s, needle, to, e, m);
    assert(s[n - 1] == scheme[n - 1]);
    assert(!extends_host('/'));
    assert(s.subrange(0, n) == scheme);
    assert(s.subrange(n, e) == needle);
    if x == p {
        assert(e == m);
        assert(s.subrange(m, m) == Seq::<char>::empty());
        if m < s.len() {
            assert(s[m] == path[0]);
        }
        assert(stands_alone(s, needle, 0, n));
    } else {
        assert(e < m) by {
            if e == m {
                lemma_same_port(scheme, h, x, path, p);
            }
        }
        assert(s[e] == decimal(x)[e - n - h.len() - 1]);
        assert(is_digit(s[e]));
        assert(!stands_alone(s, needle, 0, n));
        assert(s.take(m) == s.subrange(0, n) + s.subrange(n, e) + s.subrange(e, m));
        assert(scheme + needle + (s.subrange(e, m) + left) == scheme + needle + s.subrange(e, m)
            + left);
    }
}

proof fn lemma_same_port(scheme: Seq<char>, h: Seq<char>, x: nat, path: Seq<char>, p: nat)
    requires
        matches_at(address(scheme, h, x, path), h + ":"@ + decimal(p), scheme.len() as int),
        decimal(p).len() == decimal(x).len(),
    ensures
        p == x,
{
    reveal_strlit(":");
    let s = address(scheme, h, x, path);
    let needle = h + ":"@ + decimal(p);
    let n = scheme.len() as int;
    let w = s.subrange(n, n + needle.len());
    assert forall|i: int| 0 <= i < decimal(p).len() implies decimal(p)[i] == decimal(x)[i] by {
        let j = h.len() + 1 + i;
        assert(needle[j] == decimal(p)[i]);
        assert(w[j] == s[n + j]);
        assert(s[n + j] == decimal(x)[i]);
    }
    assert(decimal(p) == decimal(x));
    lemma_decimal_injective(p, x);
}

/// Moving a port behind one host moves that of an address on the host, if it is the port, and
/// leaves all others.
proof fn lemma_one_host(
    scheme: Seq<char>,
    h: Seq<char>,
    x: nat,
    path: Seq<char>,
    g: Seq<char>,
    p: nat,
    q: nat,
) -> (left: Seq<char>)
    requires
        is_web_scheme(scheme),
        is_own_host(h),
        is_own_host(g),
        is_path(path),
    ensures
        is_path(left),
        has_no_colon(path) ==> left == path,
        host_port_replaced(address(scheme, h, x, path), g, p, q) == address(
            scheme,
            h,
            if g == h && x == p {
                q
            } else {
                x
            },
            left,
        ),
{
    reveal_strlit(":");
    lemma_own_hosts(g, h);
    let needle = g + ":"@ + decimal(p);
    let to = g + ":"@ + decimal(q);
    let s = address(scheme, h, x, path);
    let n = scheme.len() as int;
    let m = n + h.len() + 1 + decimal(x).len();
    let left = host_port_from(s, needle, to, m);
    assert(needle[g.len() as int] == ':');
    assert(needle[0] == g[0]);
    assert(s.skip(m) == path);
    if m < s.len() {
        assert(s[m] == path[0]);
    }
    lemma_path_left(s, needle, to, m);
    assert(s.take(m) == scheme + h + ":"@ + decimal(x));
    if matches_at(s, needle, n) {
        lemma_only_at_host(scheme, h, x, path, g, p, n);
        lemma_host_found(scheme, h, x, path, p, q);
        assert(scheme + (h + ":"@ + decimal(q)) + left == address(scheme, h, q, left));
    } else {
        assert(!(g == h && x == p)) by {
            if g == h && x == p {
                assert(s.subrange(n, n + needle.len()) == needle);
            }
        }
        assert forall|k: int| 0 <= k <= m implies !(#[trigger] matches_at(s, needle, k)) by {
            if matches_at(s, needle, k) {
                lemma_only_at_host(scheme, h, x, path, g, p, k);
            }
        }
        lemma_skip_ahead(s, needle, to, 0, m);
        assert(s.subrange(0, m) == s.take(m));
    }
    left
}

/// Moving a port on this machine moves that of an address on this machine, if it is the port.
proof fn lemma_all_hosts(
    scheme: Seq<char>,
    h: Seq<char>,
    x: nat,
    path: Seq<char>,
    p: nat,
    q: nat,
) -> (left: Seq<char>)
    requires
        is_web_scheme(scheme),
        is_own_host(h),
        is_path(path),
    ensures
        is_path(left),
        has_no_colon(path) ==> left == path,
        moved_on_loopback(address(scheme, h, x, path), p, q) == address(
            scheme,
            h,
            if x == p {
                q
            } else {
                x
            },
            left,
        ),
{
    let now = |g: Seq<char>, y: nat| if g == h && y == p {
        q
    } else {
        y
    };
    reveal_strlit("127.0.0.1");
    reveal_strlit("localhost");
    reveal_strlit("0.0.0.0");
    reveal_strlit("[::1]");
    let a = lemma_one_host(scheme, h, x, path, "127.0.0.1"@, p, q);
    let x1 = now("127.0.0.1"@, x);
    let b = lemma_one_host(scheme, h, x1, a, "localhost"@, p, q);
    let x2 = now("localhost"@, x1);
    let c = lemma_one_host(scheme, h, x2, b, "0.0.0.0"@, p, q);
    let x3 = now("0.0.0.0"@, x2);
    lemma_one_host(scheme, h, x3, c, "[::1]"@, p, q)
}

// ---------------------------------------------------------------------------
// An address after all changes
// ---------------------------------------------------------------------------

pub proof fn lemma_address_is_here(scheme: Seq<char>, h: Seq<char>, x: nat, path: Seq<char>)
    requires
        is_web_scheme(scheme),
        is_own_host(h),
    ensures
        is_loopback_url(address(scheme, h, x, path)),
        address(scheme, h, x, path).len() > 0,
        address(scheme, h, x, path)[0] == 'h',
{
    reveal_strlit("http://");
    reveal_strlit("https://");
    let value = address(scheme, h, x, path);
    let rest = ":"@ + decimal(x) + path;
    assert(value == scheme + h + rest);
    law_addresses_of_this_machine(value);
    assert(value[0] == scheme[0]);
}

/// An address on this machine moves with the one change of its port, and stays without one.
proof fn lemma_rebased_address(
    e: EnvModel,
    changes: Seq<ChangeModel>,
    i: int,
    c: int,
    scheme: Seq<char>,
    h: Seq<char>,
    x: nat,
    path: Seq<char>,
) -> (left: Seq<char>)
    requires
        0 <= i,
        is_web_scheme(scheme),
        is_own_host(h),
        is_path(path),
        e.value == address(scheme, h, x, path),
        holds(upper(e.key), "URL"@) || holds(upper(e.key), "ENDPOINT"@),
        forall|d: int|
            i <= d < changes.len() && d != c ==> (#[trigger] changes[d]).old_port != x,
        c >= i ==> c < changes.len() && changes[c].old_port == x && !moved_twice(
            changes,
            changes[c].old_port,
        ) && forall|d: int|
            i <= d < changes.len() && d != c ==> (#[trigger] changes[d]).old_port
                != changes[c].new_port,
    ensures
        ({
            let out = rebased_from(e, changes, i);
            let y = if c >= i {
                changes[c].new_port as nat
            } else {
                x
            };
            &&& is_path(left)
            &&& has_no_colon(path) ==> left == path
            &&& out.value == address(scheme, h, y, left)
            &&& out.key == e.key && out.comment == e.comment && out.source == e.source
            &&& e.modified || y != x ==> out.modified
            &&& has_no_colon(path) && y == x ==> out == e
        }),
    decreases changes.len() - i,
{
    if i >= changes.len() {
        path
    } else {
        let change = changes[i];
        let twice = moved_twice(changes, change.old_port);
        let next = rebased_once(e, change, twice);
        lemma_address_is_here(scheme, h, x, path);
        let moved = lemma_all_hosts(
            scheme,
            h,
            x,
            path,
            change.old_port as nat,
            change.new_port as nat,
        );
        if i == c {
            let y = change.new_port as nat;
            assert(next.value == address(scheme, h, y, moved));
            if y != x {
                assert(next.value != e.value) by {
                    if address(scheme, h, y, moved) == address(scheme, h, x, path) {
                        lemma_same_address(scheme, h, y, moved, x, path);
                    }
                }
            }
            lemma_rebased_address(next, changes, i + 1, c, scheme, h, y, moved)
        } else if next == e {
            lemma_rebased_address(e, changes, i + 1, c, scheme, h, x, path)
        } else {
            lemma_rebased_address(next, changes, i + 1, c, scheme, h, x, moved)
        }
    }
}

/// Addresses with different ports are different.
proof fn lemma_same_address(
    scheme: Seq<char>,
    h: Seq<char>,
    x: nat,
    path: Seq<char>,
    y: nat,
    other: Seq<char>,
)
    requires
        is_path(path),
        is_path(other),
        address(scheme, h, x, path) == address(scheme, h, y, other),
    ensures
        x == y,
{
    reveal_strlit(":");
    lemma_decimal_value(x);
    lemma_decimal_value(y);
    let a = address(scheme, h, x, path);
    let b = address(scheme, h, y, other);
    let n = (scheme.len() + h.len() + 1) as int;
    let dx = decimal(x);
    let dy = decimal(y);
    if dx.len() < dy.len() {
        assert(is_digit(dy[dx.len() as int]));
        assert(b[n + dx.len()] == dy[dx.len() as int]);
        assert(a[n + dx.len()] == path[0]);
    } else if dy.len() < dx.len() {
        assert(is_digit(dx[dy.len() as int]));
        assert(a[n + dy.len()] == dx[dy.len() as int]);
        assert(b[n + dy.len()] == other[0]);
    } else {
        assert forall|i: int| 0 <= i < dx.len() implies dx[i] == dy[i] by {
            assert(a[n + i] == dx[i]);
            assert(b[n + i] == dy[i]);
        }
        assert(dx == dy);
        lemma_decimal_injective(x, y);
    }
}

// ---------------------------------------------------------------------------
// The parts of an address
// ---------------------------------------------------------------------------

proof fn lemma_own_host_len(h: Seq<char>, x: nat)
    requires
        is_own_host(h),
    ensures
        host_len(h + ":"@ + decimal(x)) == Some(h.len() as int),
{
    reveal_strlit("127.0.0.1");
    reveal_strlit("localhost");
    reveal_strlit("0.0.0.0");
    reveal_strlit("[::1]");
    reveal_strlit(":");
    reveal_strlit("[");
    reveal_strlit("]");
    lemma_decimal_value(x);
    let a = h + ":"@ + decimal(x);
    let n = h.len() as int;
    if h == "[::1]"@ {
        assert(a.subrange(0, 1) == "["@);
        lemma_find_from(a, "]"@, 0);
        assert(a.subrange(4, 5) == "]"@);
        assert(matches_at(a, "]"@, 4));
        assert forall|j: int| 0 <= j < 4 implies !matches_at(a, "]"@, j) by {
            if matches_at(a, "]"@, j) {
                assert(a.subrange(j, j + 1)[0] == a[j]);
                assert(a[j] == h[j]);
            }
        }
    } else {
        assert(!starts(a, "["@)) by {
            if starts(a, "["@) {
                assert(a.subrange(0, 1)[0] == a[0]);
                assert(a[0] == h[0]);
            }
        }
        lemma_rfind_from(a, ":"@, a.len() - 1);
        assert(a.subrange(n, n + 1) == ":"@);
        assert(matches_at(a, ":"@, n));
        assert forall|j: int| n < j implies !matches_at(a, ":"@, j) by {
            if matches_at(a, ":"@, j) {
                assert(a.subrange(j, j + 1)[0] == a[j]);
                assert(a[j] == decimal(x)[j - n - 1]);
                assert(is_digit(decimal(x)[j - n - 1]));
            }
        }
    }
}

/// An address on this machine is cut into scheme, host and path, and its port is read.
pub proof fn lemma_address_parts(scheme: Seq<char>, h: Seq<char>, x: nat, path: Seq<char>)
    requires
        is_web_scheme(scheme),
        is_own_host(h),
        is_path(path),
    ensures
        url_parts(address(scheme, h, x, path)) == Some(UrlParts { scheme, host: h, tail: path }),
        x <= 65535 ==> url_port(address(scheme, h, x, path)) == Some(x as int),
        forall|y: nat| #[trigger]
            with_url_port(address(scheme, h, x, path), y) == address(scheme, h, y, path),
{
    reveal_strlit(":");
    reveal_strlit("://");
    let url = address(scheme, h, x, path);
    let a = h + ":"@ + decimal(x);
    let rest = a + path;
    assert(url == scheme + rest);
    lemma_behind_scheme(scheme, rest);
    lemma_find_from(url, "://"@, 0);
    let k = find(url, "://"@)->0;
    assert(url.skip(k + 3) == rest);
    assert(k + 3 == scheme.len()) by {
        assert(url.skip(k + 3).len() == rest.len());
    }
    assert(url.take(k + 3) == scheme);
    lemma_own_hosts(h, h);
    lemma_decimal_value(x);
    reveal_strlit("127.0.0.1");
    reveal_strlit("localhost");
    reveal_strlit("0.0.0.0");
    reveal_strlit("[::1]");
    assert forall|j: int| 0 <= j < a.len() implies (#[trigger] a[j]) != '/' && a[j] != '?' && a[j]
        != '#' by {
        if j < h.len() {
            assert(a[j] == h[j]);
        } else if j > h.len() {
            assert(a[j] == decimal(x)[j - h.len() - 1]);
            assert(is_digit(decimal(x)[j - h.len() - 1]));
        }
    }
    assert(rest.take(a.len() as int) == a);
    if path.len() > 0 {
        assert(rest[a.len() as int] == path[0]);
    }
    lemma_authority_is(a, rest);
    lemma_find_any_from(rest, "/?#"@, true, 0);
    let end = authority_len(rest);
    assert(rest.take(end) == a);
    assert(end == a.len());
    assert(rest.skip(end) == path);
    lemma_own_host_len(h, x);
    assert(a.take(h.len() as int) == h);
    assert(url_parts(url) == Some(UrlParts { scheme, host: h, tail: path }));
    assert forall|y: nat| #[trigger] with_url_port(url, y) == address(scheme, h, y, path) by {}
    if x <= 65535 {
        law_set_port_is_read_back(url, x);
        assert(with_url_port(url, x) == url);
    }
}

// ---------------------------------------------------------------------------
// Addresses that follow
// ---------------------------------------------------------------------------

proof fn lemma_no_best_match(env: Seq<EnvModel>, key: Seq<char>, i: int)
    requires
        0 <= i,
        forall|m: int|
            0 <= m < env.len() && is_service_port_key((#[trigger] env[m]).key) ==> !holds(
                key,
                strip_all_end(env[m].key, "_PORT"@),
            ),
    ensures
        forall|t: int|
            0 <= t < assigned_from(env, i).len() ==> !holds(
                key,
                (#[trigger] assigned_from(env, i)[t]).0,
            ),
    decreases env.len() - i,
{
    if i < env.len() {
        lemma_no_best_match(env, key, i + 1);
        let all = assigned_from(env, i);
        let rest = assigned_from(env, i + 1);
        assert forall|t: int| 0 <= t < all.len() implies !holds(key, (#[trigger] all[t]).0) by {
            if all.len() == rest.len() {
                assert(all[t] == rest[t]);
            } else if t > 0 {
                assert(all[t] == rest[t - 1]);
            }
        }
    }
}

pub proof fn lemma_best_match_none(ports: Seq<(Seq<char>, int)>, key: Seq<char>)
    requires
        forall|t: int| 0 <= t < ports.len() ==> !holds(key, (#[trigger] ports[t]).0),
    ensures
        best_match(ports, key) is None,
    decreases ports.len(),
{
    if ports.len() > 0 {
        assert(ports.last() == ports[ports.len() - 1]);
        lemma_best_match_none(ports.drop_last(), key);
    }
}

proof fn lemma_no_phoenix(env: Seq<EnvModel>, i: int)
    requires
        0 <= i,
        forall|m: int|
            0 <= m < env.len() && is_service_port_key((#[trigger] env[m]).key) ==> strip_all_end(
                env[m].key,
                "_PORT"@,
            ) != "PHOENIX"@,
    ensures
        forall|t: int|
            0 <= t < assigned_from(env, i).len() ==> (#[trigger] assigned_from(env, i)[t]).0
                != "PHOENIX"@,
    decreases env.len() - i,
{
    if i < env.len() {
        lemma_no_phoenix(env, i + 1);
        let all = assigned_from(env, i);
        let rest = assigned_from(env, i + 1);
        assert forall|t: int| 0 <= t < all.len() implies (#[trigger] all[t]).0 != "PHOENIX"@ by {
            if all.len() == rest.len() {
                assert(all[t] == rest[t]);
            } else if t > 0 {
                assert(all[t] == rest[t - 1]);
            }
        }
    }
}

pub proof fn lemma_phoenix_none(ports: Seq<(Seq<char>, int)>, i: int)
    requires
        0 <= i,
        forall|t: int| 0 <= t < ports.len() ==> (#[trigger] ports[t]).0 != "PHOENIX"@,
    ensures
        phoenix_from(ports, i) is None,
    decreases ports.len() - i,
{
    if i < ports.len() {
        lemma_phoenix_none(ports, i + 1);
    }
}

/// The keys of the entries stay while ports move and addresses follow.
proof fn lemma_keys_stay(env: Seq<EnvModel>, taken: Taken, offers: Seq<u16>)
    ensures
        ({
            let r = resolved_from(env, Seq::empty(), 0, taken, offers, 0);
            let mid = rebased(r.env, r.changes);
            &&& r.env.len() == env.len() && mid.len() == env.len()
            &&& forall|m: int| 0 <= m < env.len() ==> (#[trigger] mid[m]).key == env[m].key
            &&& forall|m: int|
                0 <= m < env.len() ==> entry_port(#[trigger] mid[m]) == entry_port(r.env[m])
        }),
{
    let r = resolved_from(env, Seq::empty(), 0, taken, offers, 0);
    let mid = rebased(r.env, r.changes);
    if env.len() > 0 {
        lemma_resolved_frame(env, Seq::empty(), 0, taken, offers, 0, 0);
    } else {
        assert(r.env == env);
    }
    assert forall|m: int| 0 <= m < env.len() implies (#[trigger] mid[m]).key == env[m].key
        && entry_port(mid[m]) == entry_port(r.env[m]) by {
        lemma_resolved_frame(env, Seq::empty(), 0, taken, offers, 0, m);
        lemma_rebased_keeps_port(r.env[m], r.changes, 0);
    }
}

/// Every moved port is carried into the addresses that name it. Take a change from one port to
/// another, where no other change is from either, and an address on this machine with the old
/// port, under a variable for a URL, or for an endpoint where no port is that of Phoenix, that
/// names no port variable: it comes out with the new port, and marked as modified, unless the
/// port moved to itself.
/// Scheme, host and, where it has no colon, the path stay, and so do key, comment and source.
pub proof fn law_addresses_follow_moved_ports(
    env: Seq<EnvModel>,
    reserved: Set<u16>,
    own: Set<u16>,
    busy: Set<u16>,
    offers: Seq<u16>,
    c: int,
    j: int,
    scheme: Seq<char>,
    host: Seq<char>,
    path: Seq<char>,
)
    requires
        ({
            let r = resolution(env, reserved, own, busy, offers);
            let name = upper(env[j].key);
            &&& r.complete
            &&& 0 <= c < r.changes.len()
            &&& 0 <= j < env.len()
            &&& forall|d: int|
                0 <= d < r.changes.len() && d != c ==> (#[trigger] r.changes[d]).old_port
                    != r.changes[c].old_port && r.changes[d].old_port != r.changes[c].new_port
            &&& is_web_scheme(scheme) && is_own_host(host) && is_path(path)
            &&& env[j].value == address(scheme, host, r.changes[c].old_port as nat, path)
            &&& holds(name, "URL"@) || (holds(name, "ENDPOINT"@) && forall|m: int|
                0 <= m < env.len() && is_service_port_key((#[trigger] env[m]).key)
                    ==> strip_all_end(env[m].key, "_PORT"@) != "PHOENIX"@)
            &&& forall|m: int|
                0 <= m < env.len() && is_service_port_key((#[trigger] env[m]).key) ==> !holds(
                    name,
                    strip_all_end(env[m].key, "_PORT"@),
                )
        }),
    ensures
        ({
            let r = resolution(env, reserved, own, busy, offers);
            let out = r.env[j];
            let to = r.changes[c].new_port;
            &&& r.env.len() == env.len()
            &&& exists|left: Seq<char>|
                out.value == #[trigger] address(scheme, host, to as nat, left) && is_path(left) && (
                has_no_colon(path) ==> left == path)
            &&& url_port(out.value) == Some(to as int)
            &&& to != r.changes[c].old_port ==> out.modified
            &&& out.key == env[j].key && out.comment == env[j].comment && out.source
                == env[j].source
        }),
{
    let taken = Taken { selected: Set::empty(), reserved, own, busy };
    let r = resolved_from(env, Seq::empty(), 0, taken, offers, 0);
    let x = r.changes[c].old_port as nat;
    let y = r.changes[c].new_port as nat;
    lemma_keys_stay(env, taken, offers);
    lemma_address_is_here(scheme, host, x, path);
    lemma_letter_is_no_port(env[j].value);
    lemma_resolved_frame(env, Seq::empty(), 0, taken, offers, 0, j);
    assert(r.env[j] == env[j]);
    assert(!moved_twice(r.changes, r.changes[c].old_port));
    let left = lemma_rebased_address(env[j], r.changes, 0, c, scheme, host, x, path);
    let mid = rebased(r.env, r.changes);
    let ports = assigned_from(mid, 0);
    let name = upper(env[j].key);
    assert(mid[j] == rebased_from(r.env[j], r.changes, 0));
    assert forall|m: int| 0 <= m < mid.len() && is_service_port_key(
        (#[trigger] mid[m]).key,
    ) implies !holds(name, strip_all_end(mid[m].key, "_PORT"@)) by {
        assert(env[m].key == mid[m].key);
    }
    lemma_no_best_match(mid, name, 0);
    lemma_best_match_none(ports, name);
    if !holds(name, "URL"@) {
        assert forall|m: int| 0 <= m < mid.len() && is_service_port_key(
            (#[trigger] mid[m]).key,
        ) implies strip_all_end(mid[m].key, "_PORT"@) != "PHOENIX"@ by {
            assert(env[m].key == mid[m].key);
        }
        lemma_no_phoenix(mid, 0);
        lemma_phoenix_none(ports, 0);
    }
    assert(aligned(mid[j], ports) == mid[j]);
    lemma_address_parts(scheme, host, y, left);
}

/// An address on this machine whose port does not move, and that names no port variable, comes out
/// as it went in.
pub proof fn law_other_addresses_stay(
    env: Seq<EnvModel>,
    reserved: Set<u16>,
    own: Set<u16>,
    busy: Set<u16>,
    offers: Seq<u16>,
    j: int,
    scheme: Seq<char>,
    host: Seq<char>,
    port: nat,
    path: Seq<char>,
)
    requires
        ({
            let r = resolution(env, reserved, own, busy, offers);
            let name = upper(env[j].key);
            &&& r.complete
            &&& 0 <= j < env.len()
            &&& forall|d: int|
                0 <= d < r.changes.len() ==> (#[trigger] r.changes[d]).old_port != port
            &&& is_web_scheme(scheme) && is_own_host(host) && is_path(path) && has_no_colon(path)
            &&& env[j].value == address(scheme, host, port, path)
            &&& holds(name, "URL"@)
            &&& forall|m: int|
                0 <= m < env.len() && is_service_port_key((#[trigger] env[m]).key) ==> !holds(
                    name,
                    strip_all_end(env[m].key, "_PORT"@),
                )
        }),
    ensures
        resolution(env, reserved, own, busy, offers).env[j] == env[j],
{
    let taken = Taken { selected: Set::empty(), reserved, own, busy };
    let r = resolved_from(env, Seq::empty(), 0, taken, offers, 0);
    lemma_keys_stay(env, taken, offers);
    lemma_address_is_here(scheme, host, port, path);
    lemma_letter_is_no_port(env[j].value);
    lemma_resolved_frame(env, Seq::empty(), 0, taken, offers, 0, j);
    let changes = resolution(env, reserved, own, busy, offers).changes;
    assert forall|d: int| 0 <= d < r.changes.len() implies (#[trigger] r.changes[d]).old_port
        != port by {
        assert(changes[d].old_port != port);
    }
    lemma_rebased_address(env[j], r.changes, 0, -1, scheme, host, port, path);
    let mid = rebased(r.env, r.changes);
    let name = upper(env[j].key);
    assert(mid[j] == rebased_from(r.env[j], r.changes, 0));
    assert forall|m: int| 0 <= m < mid.len() && is_service_port_key(
        (#[trigger] mid[m]).key,
    ) implies !holds(name, strip_all_end(mid[m].key, "_PORT"@)) by {
        assert(env[m].key == mid[m].key);
    }
    lemma_no_best_match(mid, name, 0);
    lemma_best_match_none(assigned_from(mid, 0), name);
}

// ---------------------------------------------------------------------------
// Addresses that name a port variable
// ---------------------------------------------------------------------------

/// The name and the port of a port variable.
spec fn named_port(e: EnvModel) -> (Seq<char>, int) {
    (strip_all_end(e.key, "_PORT"@), entry_port(e)->0)
}

/// Whether a port is that of a variable from `i` on other than `m`, and of a later one if it has
/// to be.
spec fn is_of_another(
    env: Seq<EnvModel>,
    i: int,
    m: int,
    port: (Seq<char>, int),
    later: bool,
) -> bool {
    exists|k: int|
        i <= k < env.len() && k != m && (later ==> k > m) && entry_port(#[trigger] env[k]) is Some
            && port == named_port(env[k])
}

/// Where the port of a variable stands among the assigned ones; all others are those of other
/// variables, and those behind it of later ones.
proof fn lemma_assigned_at(env: Seq<EnvModel>, i: int, m: int) -> (b: int)
    requires
        0 <= i <= m < env.len(),
        entry_port(env[m]) is Some,
    ensures
        ({
            let all = assigned_from(env, i);
            &&& 0 <= b < all.len()
            &&& all[b] == named_port(env[m])
            &&& forall|t: int|
                0 <= t < all.len() && t != b ==> is_of_another(env, i, m, #[trigger] all[t], t > b)
        }),
    decreases m - i,
{
    let all = assigned_from(env, i);
    let rest = assigned_from(env, i + 1);
    if i == m {
        assert forall|t: int| 0 <= t < all.len() && t != 0 implies is_of_another(
            env,
            i,
            m,
            #[trigger] all[t],
            t > 0,
        ) by {
            assert(all[t] == rest[t - 1]);
            let k = lemma_assigned_origin(env, i + 1, t - 1);
            assert(entry_port(env[k]) is Some);
        }
        0
    } else {
        let b = lemma_assigned_at(env, i + 1, m);
        if entry_port(env[i]) is Some {
            assert(all == seq![named_port(env[i])] + rest);
            assert forall|t: int| 0 <= t < all.len() && t != b + 1 implies is_of_another(
                env,
                i,
                m,
                #[trigger] all[t],
                t > b + 1,
            ) by {
                if t == 0 {
                    assert(entry_port(env[i]) is Some && all[t] == named_port(env[i]));
                } else {
                    assert(all[t] == rest[t - 1]);
                    assert(is_of_another(env, i + 1, m, rest[t - 1], t - 1 > b));
                }
            }
            b + 1
        } else {
            assert(all == rest);
            assert forall|t: int| 0 <= t < all.len() && t != b implies is_of_another(
                env,
                i,
                m,
                #[trigger] all[t],
                t > b,
            ) by {
                assert(is_of_another(env, i + 1, m, rest[t], t > b));
            }
            b
        }
    }
}

proof fn lemma_assigned_origin(env: Seq<EnvModel>, i: int, t: int) -> (k: int)
    requires
        0 <= i,
        0 <= t < assigned_from(env, i).len(),
    ensures
        i <= k < env.len(),
        entry_port(env[k]) is Some,
        assigned_from(env, i)[t] == named_port(env[k]),
    decreases env.len() - i,
{
    if entry_port(env[i]) is Some {
        if t == 0 {
            i
        } else {
            lemma_assigned_origin(env, i + 1, t - 1)
        }
    } else {
        lemma_assigned_origin(env, i + 1, t)
    }
}

pub proof fn lemma_best_match_at(ports: Seq<(Seq<char>, int)>, key: Seq<char>, b: int)
    requires
        0 <= b < ports.len(),
        holds(key, ports[b].0),
        forall|t: int|
            0 <= t < ports.len() && t != b && holds(key, (#[trigger] ports[t]).0) ==> bytes(
                ports[t].0,
            ) <= bytes(ports[b].0) && (t > b ==> bytes(ports[t].0) < bytes(ports[b].0)),
    ensures
        best_match(ports, key) == Some(ports[b]),
    decreases ports.len(),
{
    let n = ports.len() - 1;
    let rest = ports.drop_last();
    if b < n {
        lemma_best_match_at(rest, key, b);
        assert(ports.last() == ports[n]);
    } else {
        lemma_best_is_there(rest, key);
        if let Some(p) = best_match(rest, key) {
            let t = choose|t: int| 0 <= t < rest.len() && #[trigger] rest[t] == p;
            assert(ports[t] == p);
        }
    }
}

proof fn lemma_best_is_there(ports: Seq<(Seq<char>, int)>, key: Seq<char>)
    ensures
        best_match(ports, key) matches Some(p) ==> holds(key, p.0) && exists|t: int|
            0 <= t < ports.len() && #[trigger] ports[t] == p,
    decreases ports.len(),
{
    if ports.len() > 0 {
        let rest = ports.drop_last();
        lemma_best_is_there(rest, key);
        assert(ports.last() == ports[ports.len() - 1]);
        if let Some(p) = best_match(rest, key) {
            let t = choose|t: int| 0 <= t < rest.len() && #[trigger] rest[t] == p;
            assert(ports[t] == p);
        }
    }
}

/// An address on this machine stays one on the same host, whatever moves.
proof fn lemma_rebased_stays_address(
    e: EnvModel,
    changes: Seq<ChangeModel>,
    i: int,
    scheme: Seq<char>,
    h: Seq<char>,
    x: nat,
    path: Seq<char>,
) -> (r: (nat, Seq<char>))
    requires
        0 <= i,
        is_web_scheme(scheme),
        is_own_host(h),
        is_path(path),
        e.value == address(scheme, h, x, path),
    ensures
        is_path(r.1),
        has_no_colon(path) ==> r.1 == path,
        rebased_from(e, changes, i).value == address(scheme, h, r.0, r.1),
        rebased_from(e, changes, i).key == e.key,
    decreases changes.len() - i,
{
    if i >= changes.len() {
        (x, path)
    } else {
        let change = changes[i];
        let next = rebased_once(e, change, moved_twice(changes, change.old_port));
        let from = change.old_port as nat;
        let to = change.new_port as nat;
        let moved = lemma_all_hosts(scheme, h, x, path, from, to);
        if next.value == e.value {
            lemma_rebased_stays_address(next, changes, i + 1, scheme, h, x, path)
        } else {
            let y = if x == from {
                to
            } else {
                x
            };
            lemma_rebased_stays_address(next, changes, i + 1, scheme, h, y, moved)
        }
    }
}

/// The longest name that a variable contains, and of equally long ones the last, is the best.
proof fn lemma_best_of(env: Seq<EnvModel>, name: Seq<char>, m: int)
    requires
        0 <= m < env.len(),
        entry_port(env[m]) is Some,
        holds(name, named_port(env[m]).0),
        forall|k: int|
            0 <= k < env.len() && k != m && entry_port(#[trigger] env[k]) is Some && holds(
                name,
                named_port(env[k]).0,
            ) ==> bytes(named_port(env[k]).0) <= bytes(named_port(env[m]).0) && (k > m ==> bytes(
                named_port(env[k]).0,
            ) < bytes(named_port(env[m]).0)),
    ensures
        best_match(assigned_from(env, 0), name) == Some(named_port(env[m])),
{
    let ports = assigned_from(env, 0);
    let b = lemma_assigned_at(env, 0, m);
    assert forall|t: int| 0 <= t < ports.len() && t != b && holds(
        name,
        (#[trigger] ports[t]).0,
    ) implies bytes(ports[t].0) <= bytes(ports[b].0) && (t > b ==> bytes(ports[t].0) < bytes(
        ports[b].0,
    )) by {
        assert(is_of_another(env, 0, m, ports[t], t > b));
        let k = choose|k: int|
            0 <= k < env.len() && k != m && (t > b ==> k > m) && entry_port(#[trigger] env[k]) is Some
                && ports[t] == named_port(env[k]);
        assert(entry_port(env[k]) is Some);
    }
    lemma_best_match_at(ports, name, b);
}

/// An aligned address has the port of the best match.
proof fn lemma_aligned_address(
    e: EnvModel,
    ports: Seq<(Seq<char>, int)>,
    best: (Seq<char>, int),
    scheme: Seq<char>,
    host: Seq<char>,
    x: nat,
    left: Seq<char>,
)
    requires
        is_web_scheme(scheme),
        is_own_host(host),
        is_path(left),
        0 <= best.1 <= 65535,
        e.value == address(scheme, host, x, left),
        holds(upper(e.key), "URL"@) || (holds(upper(e.key), "ENDPOINT"@) && (host == "127.0.0.1"@
            || host == "localhost"@)),
        best_match(ports, upper(e.key)) == Some(best),
    ensures
        aligned(e, ports).value == address(scheme, host, best.1 as nat, left),
        url_port(aligned(e, ports).value) == Some(best.1),
{
    lemma_address_parts(scheme, host, x, left);
    lemma_address_parts(scheme, host, best.1 as nat, left);
    lemma_address_is_here(scheme, host, x, left);
    if !holds(upper(e.key), "URL"@) {
        lemma_localhost_address(scheme, host, x, left);
    }
    assert(with_url_port(e.value, best.1 as nat) == address(scheme, host, best.1 as nat, left));
}

/// An address on this machine has the port of the variable that it names: where its own variable,
/// for a URL, or for an endpoint on 127.0.0.1 or localhost, contains the name of a port variable,
/// the longest such name, and of equally long ones the last, it comes out with the port that this
/// variable comes out with.
pub proof fn law_addresses_have_the_port_they_name(
    env: Seq<EnvModel>,
    reserved: Set<u16>,
    own: Set<u16>,
    busy: Set<u16>,
    offers: Seq<u16>,
    j: int,
    m: int,
    scheme: Seq<char>,
    host: Seq<char>,
    port: nat,
    path: Seq<char>,
)
    requires
        ({
            let name = upper(env[j].key);
            let called = |k: int| strip_all_end(env[k].key, "_PORT"@);
            &&& resolution(env, reserved, own, busy, offers).complete
            &&& 0 <= j < env.len()
            &&& 0 <= m < env.len()
            &&& is_web_scheme(scheme) && is_own_host(host) && is_path(path)
            &&& env[j].value == address(scheme, host, port, path)
            &&& holds(name, "URL"@) || (holds(name, "ENDPOINT"@) && (host == "127.0.0.1"@ || host
                == "localhost"@))
            &&& entry_port(env[m]) is Some && holds(name, called(m))
            &&& forall|k: int|
                0 <= k < env.len() && k != m && entry_port(#[trigger] env[k]) is Some && holds(
                    name,
                    called(k),
                ) ==> bytes(called(k)) <= bytes(called(m)) && (k > m ==> bytes(called(k)) < bytes(
                    called(m),
                ))
        }),
    ensures
        ({
            let out = resolution(env, reserved, own, busy, offers).env;
            &&& entry_port(out[m]) is Some
            &&& url_port(out[j].value) == entry_port(out[m])
            &&& exists|left: Seq<char>|
                out[j].value == #[trigger] address(
                    scheme,
                    host,
                    entry_port(out[m])->0 as nat,
                    left,
                ) && is_path(left) && (has_no_colon(path) ==> left == path)
        }),
{
    let taken = Taken { selected: Set::empty(), reserved, own, busy };
    let r = resolved_from(env, Seq::empty(), 0, taken, offers, 0);
    let name = upper(env[j].key);
    lemma_keys_stay(env, taken, offers);
    lemma_address_is_here(scheme, host, port, path);
    lemma_letter_is_no_port(env[j].value);
    lemma_resolved_frame(env, Seq::empty(), 0, taken, offers, 0, j);
    let mid = rebased(r.env, r.changes);
    let ports = assigned_from(mid, 0);
    assert(mid[j] == rebased_from(r.env[j], r.changes, 0));
    let (x, left) = lemma_rebased_stays_address(
        env[j],
        r.changes,
        0,
        scheme,
        host,
        port,
        path,
    );
    assert forall|k: int| 0 <= k < env.len() implies (entry_port(#[trigger] mid[k]) is Some
        <==> entry_port(env[k]) is Some) && named_port(mid[k]).0 == strip_all_end(
        env[k].key,
        "_PORT"@,
    ) by {
        lemma_stays_a_port(env, Seq::empty(), 0, taken, offers, 0, k);
    }
    assert forall|k: int| 0 <= k < mid.len() && k != m && entry_port(#[trigger] mid[k]) is Some
        && holds(name, named_port(mid[k]).0) implies bytes(named_port(mid[k]).0) <= bytes(
        named_port(mid[m]).0,
    ) && (k > m ==> bytes(named_port(mid[k]).0) < bytes(named_port(mid[m]).0)) by {
        assert(entry_port(env[k]) is Some);
    }
    assert(entry_port(mid[m]) is Some);
    lemma_best_of(mid, name, m);
    let p = entry_port(mid[m])->0;
    lemma_entry_port_range(mid[m]);
    lemma_aligned_address(mid[j], ports, named_port(mid[m]), scheme, host, x, left);
    lemma_aligned_keeps_port(mid[m], ports);
    let out = resolution(env, reserved, own, busy, offers).env;
    assert(out[j] == aligned(mid[j], ports));
    assert(out[m] == aligned(mid[m], ports));
}

pub proof fn lemma_localhost_address(scheme: Seq<char>, h: Seq<char>, x: nat, path: Seq<char>)
    requires
        is_web_scheme(scheme),
        h == "127.0.0.1"@ || h == "localhost"@,
    ensures
        is_localhost_url(address(scheme, h, x, path)),
{
    lemma_hosts();
    let value = address(scheme, h, x, path);
    assert(value.subrange(0, (scheme + h).len() as int) == scheme + h);
    assert(starts(value, scheme + h));
}

/// An entry assigns a port after ports moved exactly if it did before.
proof fn lemma_stays_a_port(
    env: Seq<EnvModel>,
    changes: Seq<ChangeModel>,
    i: int,
    taken: Taken,
    offers: Seq<u16>,
    used: int,
    j: int,
)
    requires
        0 <= i,
        0 <= j < env.len(),
    ensures
        entry_port(resolved_from(env, changes, i, taken, offers, used).env[j]) is Some
            <==> entry_port(env[j]) is Some,
    decreases env.len() - i,
{
    if i < env.len() {
        match entry_port(env[i]) {
            None => {
                lemma_stays_a_port(env, changes, i + 1, taken, offers, used, j);
            },
            Some(p) => {
                let port = p as u16;
                if !conflicts(port, taken) {
                    let next = Taken { selected: taken.selected.insert(port), ..taken };
                    lemma_stays_a_port(env, changes, i + 1, next, offers, used, j);
                } else {
                    match next_offer(offers, used, taken) {
                        None => {},
                        Some(k) => {
                            let e = EnvModel {
                                value: decimal(offers[k] as nat),
                                modified: true,
                                ..env[i]
                            };
                            lemma_offer_is_port(e, offers[k]);
                            lemma_stays_a_port(
                                env.update(i, e),
                                changes.push(
                                    ChangeModel {
                                        key: env[i].key,
                                        old_port: port,
                                        new_port: offers[k],
                                    },
                                ),
                                i + 1,
                                Taken { selected: taken.selected.insert(offers[k]), ..taken },
                                offers,
                                k + 1,
                                j,
                            );
                        },
                    }
                }
            },
        }
    }
}

// ---------------------------------------------------------------------------
// Which ports move
// ---------------------------------------------------------------------------

/// Whether the chosen ports are those of the entries before `i`.
spec fn chosen_are(env: Seq<EnvModel>, i: int, selected: Set<u16>) -> bool {
    forall|q: u16| #[trigger]
        selected.contains(q) <==> exists|k: int|
            0 <= k < i && entry_port(#[trigger] env[k]) == Some(q as int)
}

/// Whether an entry has moved to an offered port, as a change says.
spec fn moved_as(before: EnvModel, after: EnvModel, change: ChangeModel, offers: Seq<u16>) -> bool {
    &&& change.key == before.key
    &&& entry_port(before) == Some(change.old_port as int)
    &&& offers.contains(change.new_port)
    &&& after == EnvModel { value: decimal(change.new_port as nat), modified: true, ..before }
}

/// Going through the entries from `i` on: an entry keeps its port unless it conflicts with the
/// ports of entries before it or with those that are taken, and else moves as a change says.
proof fn lemma_moves(
    env: Seq<EnvModel>,
    changes: Seq<ChangeModel>,
    i: int,
    taken: Taken,
    offers: Seq<u16>,
    used: int,
)
    requires
        0 <= i <= env.len(),
        0 <= used,
        chosen_are(env, i, taken.selected),
        resolved_from(env, changes, i, taken, offers, used).complete,
    ensures
        ({
            let r = resolved_from(env, changes, i, taken, offers, used);
            &&& r.env.len() == env.len()
            &&& r.changes.len() >= changes.len()
            &&& forall|d: int| 0 <= d < changes.len() ==> #[trigger] r.changes[d] == changes[d]
            &&& forall|j: int|
                i <= j < env.len() && entry_port(#[trigger] env[j]) is Some ==> ({
                    let p = entry_port(env[j])->0 as u16;
                    if p == 0 || taken.reserved.contains(p) || (!taken.own.contains(p)
                        && taken.busy.contains(p)) || exists|k: int|
                        0 <= k < j && entry_port(#[trigger] r.env[k]) == Some(p as int) {
                        exists|d: int|
                            changes.len() <= d < r.changes.len() && moved_as(
                                env[j],
                                r.env[j],
                                #[trigger] r.changes[d],
                                offers,
                            )
                    } else {
                        r.env[j] == env[j]
                    }
                })
            &&& forall|d: int|
                changes.len() <= d < r.changes.len() ==> exists|j: int|
                    i <= j < env.len() && moved_as(
                        #[trigger] env[j],
                        r.env[j],
                        #[trigger] r.changes[d],
                        offers,
                    )
        }),
    decreases env.len() - i,
{
    let r = resolved_from(env, changes, i, taken, offers, used);
    if i < env.len() {
        match entry_port(env[i]) {
            None => {
                assert(chosen_are(env, i + 1, taken.selected)) by {
                    assert forall|q: u16| #[trigger] taken.selected.contains(q) <==> exists|k: int|
                        0 <= k < i + 1 && entry_port(#[trigger] env[k]) == Some(q as int) by {
                        if taken.selected.contains(q) {
                            let k = choose|k: int|
                                0 <= k < i && entry_port(#[trigger] env[k]) == Some(q as int);
                            assert(entry_port(env[k]) == Some(q as int));
                        }
                    }
                }
                lemma_moves(env, changes, i + 1, taken, offers, used);
            },
            Some(p) => {
                lemma_entry_port_range(env[i]);
                let port = p as u16;
                lemma_before_stays(env, changes, i, taken, offers, used);
                if !conflicts(port, taken) {
                    let next = Taken { selected: taken.selected.insert(port), ..taken };
                    lemma_chosen_grow(env, i, taken.selected, port);
                    lemma_moves(env, changes, i + 1, next, offers, used);
                    lemma_resolved_frame(env, changes, i + 1, next, offers, used, i);
                    assert(r.env[i] == env[i]);
                    assert(!(exists|k: int|
                        0 <= k < i && entry_port(#[trigger] r.env[k]) == Some(port as int))) by {
                        if exists|k: int|
                            0 <= k < i && entry_port(#[trigger] r.env[k]) == Some(port as int) {
                            let k = choose|k: int|
                                0 <= k < i && entry_port(#[trigger] r.env[k]) == Some(port as int);
                            assert(entry_port(env[k]) == Some(port as int));
                            assert(taken.selected.contains(port));
                        }
                    }
                } else {
                    let k0 = next_offer(offers, used, taken)->0;
                    lemma_next_offer(offers, used, taken);
                    let e = EnvModel { value: decimal(offers[k0] as nat), modified: true, ..env[i] };
                    let change = ChangeModel {
                        key: env[i].key,
                        old_port: port,
                        new_port: offers[k0],
                    };
                    let env2 = env.update(i, e);
                    let changes2 = changes.push(change);
                    let next = Taken { selected: taken.selected.insert(offers[k0]), ..taken };
                    lemma_offer_is_port(e, offers[k0]);
                    assert(chosen_are(env2, i, taken.selected)) by {
                        assert forall|q: u16| #[trigger]
                            taken.selected.contains(q) <==> exists|k: int|
                                0 <= k < i && entry_port(#[trigger] env2[k]) == Some(q as int) by {
                            if taken.selected.contains(q) {
                                let k = choose|k: int|
                                    0 <= k < i && entry_port(#[trigger] env[k]) == Some(q as int);
                                assert(env2[k] == env[k]);
                            }
                            if exists|k: int|
                                0 <= k < i && entry_port(#[trigger] env2[k]) == Some(q as int) {
                                let k = choose|k: int|
                                    0 <= k < i && entry_port(#[trigger] env2[k]) == Some(q as int);
                                assert(env2[k] == env[k]);
                                assert(entry_port(env[k]) == Some(q as int));
                            }
                        }
                    }
                    lemma_chosen_grow(env2, i, taken.selected, offers[k0]);
                    lemma_moves(env2, changes2, i + 1, next, offers, k0 + 1);
                    lemma_resolved_frame(env2, changes2, i + 1, next, offers, k0 + 1, i);
                    let n = changes.len() as int;
                    assert(r.env[i] == e);
                    assert(r.changes[n] == change) by {
                        assert(r.changes[n] == changes2[n]);
                    }
                    assert(offers.contains(offers[k0]));
                    assert(moved_as(env[i], r.env[i], r.changes[n], offers));
                    assert forall|d: int| 0 <= d < changes.len() implies #[trigger] r.changes[d]
                        == changes[d] by {
                        assert(changes2[d] == changes[d]);
                    }
                    assert forall|j: int| i < j < env.len() implies #[trigger] env2[j] == env[j] by {}
                    assert(conflicts(port, taken) && taken.selected.contains(port) ==> exists|k: int|
                        0 <= k < i && entry_port(#[trigger] r.env[k]) == Some(port as int)) by {
                        if taken.selected.contains(port) {
                            let k = choose|k: int|
                                0 <= k < i && entry_port(#[trigger] env[k]) == Some(port as int);
                            assert(r.env[k] == env[k]);
                        }
                    }
                    assert forall|j: int| i <= j < env.len() && entry_port(
                        #[trigger] env[j],
                    ) is Some implies ({
                        let p = entry_port(env[j])->0 as u16;
                        if p == 0 || taken.reserved.contains(p) || (!taken.own.contains(p)
                            && taken.busy.contains(p)) || exists|k: int|
                            0 <= k < j && entry_port(#[trigger] r.env[k]) == Some(p as int) {
                            exists|d: int|
                                changes.len() <= d < r.changes.len() && moved_as(
                                    env[j],
                                    r.env[j],
                                    #[trigger] r.changes[d],
                                    offers,
                                )
                        } else {
                            r.env[j] == env[j]
                        }
                    }) by {
                        if j > i {
                            assert(env2[j] == env[j]);
                        }
                    }
                    assert forall|d: int| changes.len() <= d < r.changes.len() implies exists|j: int|
                        i <= j < env.len() && moved_as(
                            #[trigger] env[j],
                            r.env[j],
                            #[trigger] r.changes[d],
                            offers,
                        ) by {
                        if d > n {
                            let j = choose|j: int|
                                i + 1 <= j < env2.len() && moved_as(
                                    #[trigger] env2[j],
                                    r.env[j],
                                    r.changes[d],
                                    offers,
                                );
                            assert(env2[j] == env[j]);
                        }
                    }
                }
            },
        }
    }
}

proof fn lemma_before_stays(
    env: Seq<EnvModel>,
    changes: Seq<ChangeModel>,
    i: int,
    taken: Taken,
    offers: Seq<u16>,
    used: int,
)
    requires
        0 <= i <= env.len(),
    ensures
        forall|k: int|
            0 <= k < i ==> #[trigger] resolved_from(env, changes, i, taken, offers, used).env[k]
                == env[k],
{
    assert forall|k: int| 0 <= k < i implies #[trigger] resolved_from(
        env,
        changes,
        i,
        taken,
        offers,
        used,
    ).env[k] == env[k] by {
        lemma_resolved_frame(env, changes, i, taken, offers, used, k);
    }
}

proof fn lemma_chosen_grow(env: Seq<EnvModel>, i: int, selected: Set<u16>, port: u16)
    requires
        0 <= i < env.len(),
        chosen_are(env, i, selected),
        entry_port(env[i]) == Some(port as int),
    ensures
        chosen_are(env, i + 1, selected.insert(port)),
{
    let grown = selected.insert(port);
    assert forall|q: u16| #[trigger] grown.contains(q) <==> exists|k: int|
        0 <= k < i + 1 && entry_port(#[trigger] env[k]) == Some(q as int) by {
        if q != port && selected.contains(q) {
            let k = choose|k: int| 0 <= k < i && entry_port(#[trigger] env[k]) == Some(q as int);
            assert(entry_port(env[k]) == Some(q as int));
        }
        if exists|k: int| 0 <= k < i + 1 && entry_port(#[trigger] env[k]) == Some(q as int) {
            let k = choose|k: int| 0 <= k < i + 1 && entry_port(#[trigger] env[k]) == Some(q as int);
            if k < i {
                assert(entry_port(env[k]) == Some(q as int));
                assert(selected.contains(q));
            }
        }
    }
}

/// Whether a change says of an entry what happened to it: its key, the port that it had, and an
/// offered port that it has now, in decimal notation and marked as modified.
pub open spec fn tells_of(
    change: ChangeModel,
    before: EnvModel,
    after: EnvModel,
    offers: Seq<u16>,
) -> bool {
    &&& change.key == before.key && before.key == after.key
    &&& entry_port(before) == Some(change.old_port as int)
    &&& offers.contains(change.new_port)
    &&& after.value == decimal(change.new_port as nat)
    &&& after.modified
    &&& after.comment == before.comment && after.source == before.source
}

/// Addresses that follow change no entry that assigns a port, and make none.
proof fn lemma_ports_are_final(
    env: Seq<EnvModel>,
    reserved: Set<u16>,
    own: Set<u16>,
    busy: Set<u16>,
    offers: Seq<u16>,
)
    requires
        resolution(env, reserved, own, busy, offers).complete,
    ensures
        ({
            let taken = Taken { selected: Set::empty(), reserved, own, busy };
            let first = resolved_from(env, Seq::empty(), 0, taken, offers, 0);
            let r = resolution(env, reserved, own, busy, offers);
            &&& r.env.len() == env.len() && first.env.len() == env.len()
            &&& forall|k: int|
                0 <= k < env.len() ==> entry_port(#[trigger] r.env[k]) == entry_port(first.env[k])
            &&& forall|k: int|
                0 <= k < env.len() && entry_port(env[k]) is Some ==> #[trigger] r.env[k]
                    == first.env[k]
        }),
{
    let taken = Taken { selected: Set::empty(), reserved, own, busy };
    let first = resolved_from(env, Seq::empty(), 0, taken, offers, 0);
    let r = resolution(env, reserved, own, busy, offers);
    lemma_keys_stay(env, taken, offers);
    let mid = rebased(first.env, first.changes);
    assert forall|k: int| 0 <= k < env.len() implies entry_port(#[trigger] r.env[k]) == entry_port(
        first.env[k],
    ) by {
        lemma_aligned_keeps_port(mid[k], assigned_from(mid, 0));
        assert(entry_port(mid[k]) == entry_port(first.env[k]));
    }
    assert forall|k: int| 0 <= k < env.len() && entry_port(env[k]) is Some implies #[trigger] r.env[k]
        == first.env[k] by {
        lemma_stays_a_port(env, Seq::empty(), 0, taken, offers, 0, k);
        lemma_port_entry_stays(first.env, first.changes, k);
    }
}

/// What becomes of one entry that assigns a port.
proof fn lemma_entry_outcome(env: Seq<EnvModel>, taken: Taken, offers: Seq<u16>, j: int)
    requires
        taken.selected == Set::<u16>::empty(),
        resolved_from(env, Seq::empty(), 0, taken, offers, 0).complete,
        0 <= j < env.len(),
        entry_port(env[j]) is Some,
    ensures
        ({
            let r = resolved_from(env, Seq::empty(), 0, taken, offers, 0);
            let p = entry_port(env[j])->0 as u16;
            if p == 0 || taken.reserved.contains(p) || (!taken.own.contains(p)
                && taken.busy.contains(p)) || exists|k: int|
                0 <= k < j && entry_port(#[trigger] r.env[k]) == Some(p as int) {
                exists|c: int|
                    0 <= c < r.changes.len() && tells_of(
                        #[trigger] r.changes[c],
                        env[j],
                        r.env[j],
                        offers,
                    )
            } else {
                r.env[j] == env[j]
            }
        }),
{
    assert(chosen_are(env, 0, taken.selected));
    lemma_moves(env, Seq::empty(), 0, taken, offers, 0);
    let r = resolved_from(env, Seq::empty(), 0, taken, offers, 0);
    if exists|c: int|
        0 <= c < r.changes.len() && moved_as(env[j], r.env[j], #[trigger] r.changes[c], offers) {
        let c = choose|c: int|
            0 <= c < r.changes.len() && moved_as(env[j], r.env[j], #[trigger] r.changes[c], offers);
        assert(tells_of(r.changes[c], env[j], r.env[j], offers));
    }
}

/// The entry that a change tells of.
proof fn lemma_change_origin(env: Seq<EnvModel>, taken: Taken, offers: Seq<u16>, d: int) -> (k: int)
    requires
        taken.selected == Set::<u16>::empty(),
        resolved_from(env, Seq::empty(), 0, taken, offers, 0).complete,
        0 <= d < resolved_from(env, Seq::empty(), 0, taken, offers, 0).changes.len(),
    ensures
        ({
            let r = resolved_from(env, Seq::empty(), 0, taken, offers, 0);
            0 <= k < env.len() && tells_of(r.changes[d], env[k], r.env[k], offers)
        }),
{
    assert(chosen_are(env, 0, taken.selected));
    lemma_moves(env, Seq::empty(), 0, taken, offers, 0);
    let r = resolved_from(env, Seq::empty(), 0, taken, offers, 0);
    let k = choose|k: int|
        0 <= k < env.len() && moved_as(#[trigger] env[k], r.env[k], r.changes[d], offers);
    k
}

/// A port moves exactly if it is zero, belongs to another instance, is in use on the host and
/// not by the instance itself, or is that of an entry before it. Then it moves to an offered
/// port, and a change says so; else the entry stays as it is. And every change tells of an entry
/// that moved.
pub proof fn law_only_conflicting_ports_move(
    env: Seq<EnvModel>,
    reserved: Set<u16>,
    own: Set<u16>,
    busy: Set<u16>,
    offers: Seq<u16>,
    j: int,
    d: int,
)
    requires
        resolution(env, reserved, own, busy, offers).complete,
        0 <= j < env.len(),
        entry_port(env[j]) is Some,
    ensures
        ({
            let r = resolution(env, reserved, own, busy, offers);
            let p = entry_port(env[j])->0 as u16;
            let in_the_way = p == 0 || reserved.contains(p) || (busy.contains(p) && !own.contains(p))
                || exists|k: int| 0 <= k < j && entry_port(#[trigger] r.env[k]) == Some(p as int);
            &&& r.env.len() == env.len()
            &&& in_the_way ==> exists|c: int|
                0 <= c < r.changes.len() && tells_of(
                    #[trigger] r.changes[c],
                    env[j],
                    r.env[j],
                    offers,
                )
            &&& !in_the_way ==> r.env[j] == env[j]
            &&& 0 <= d < r.changes.len() ==> exists|k: int|
                0 <= k < env.len() && tells_of(r.changes[d], #[trigger] env[k], r.env[k], offers)
        }),
{
    let taken = Taken { selected: Set::empty(), reserved, own, busy };
    let first = resolved_from(env, Seq::empty(), 0, taken, offers, 0);
    let r = resolution(env, reserved, own, busy, offers);
    lemma_ports_are_final(env, reserved, own, busy, offers);
    lemma_entry_outcome(env, taken, offers, j);
    assert(r.env[j] == first.env[j]);
    let p = entry_port(env[j])->0 as u16;
    assert((exists|k: int| 0 <= k < j && entry_port(#[trigger] r.env[k]) == Some(p as int)) <==> (
    exists|k: int| 0 <= k < j && entry_port(#[trigger] first.env[k]) == Some(p as int))) by {
        if exists|k: int| 0 <= k < j && entry_port(#[trigger] r.env[k]) == Some(p as int) {
            let k = choose|k: int| 0 <= k < j && entry_port(#[trigger] r.env[k]) == Some(p as int);
            assert(entry_port(first.env[k]) == Some(p as int));
        }
        if exists|k: int| 0 <= k < j && entry_port(#[trigger] first.env[k]) == Some(p as int) {
            let k = choose|k: int|
                0 <= k < j && entry_port(#[trigger] first.env[k]) == Some(p as int);
            assert(entry_port(r.env[k]) == Some(p as int));
        }
    }
    if 0 <= d < r.changes.len() {
        let k = lemma_change_origin(env, taken, offers, d);
        assert(r.env[k] == first.env[k]);
        assert(tells_of(r.changes[d], env[k], r.env[k], offers));
    }
}

/// An entry that assigns a port is no address, and so follows nothing.
proof fn lemma_port_entry_stays(env: Seq<EnvModel>, changes: Seq<ChangeModel>, k: int)
    requires
        0 <= k < env.len(),
        entry_port(env[k]) is Some,
    ensures
        aligned(rebased(env, changes)[k], assigned_from(rebased(env, changes), 0)) == env[k],
{
    if is_loopback_url(env[k].value) {
        lemma_loopback_starts_with_h(env[k].value);
        lemma_letter_is_no_port(env[k].value);
    }
    law_foreign_values_stay(env[k], changes, 0, assigned_from(rebased(env, changes), 0));
}

// ---------------------------------------------------------------------------
// Enough offers
// ---------------------------------------------------------------------------

/// Whether every chosen port is one that an entry has or an offer before `used`.
spec fn chosen_within(env: Seq<EnvModel>, offers: Seq<u16>, used: int, selected: Set<u16>) -> bool {
    forall|q: u16| #[trigger]
        selected.contains(q) ==> (exists|k: int|
            0 <= k < env.len() && entry_port(#[trigger] env[k]) == Some(q as int)) || exists|u: int|
            0 <= u < used && #[trigger] offers[u] == q
}

proof fn lemma_enough(
    start: Seq<EnvModel>,
    env: Seq<EnvModel>,
    changes: Seq<ChangeModel>,
    i: int,
    taken: Taken,
    offers: Seq<u16>,
    used: int,
)
    requires
        0 <= i <= env.len(),
        0 <= used <= i,
        env.len() == start.len(),
        env.len() <= offers.len(),
        forall|j: int| i <= j < env.len() ==> #[trigger] env[j] == start[j],
        chosen_within(start, offers, used, taken.selected),
        forall|u: int, v: int|
            0 <= u < v < offers.len() ==> #[trigger] offers[u] != #[trigger] offers[v],
        forall|u: int|
            0 <= u < offers.len() ==> !taken.reserved.contains(#[trigger] offers[u]) && forall|k: int|
                0 <= k < start.len() ==> entry_port(#[trigger] start[k]) != Some(offers[u] as int),
    ensures
        resolved_from(env, changes, i, taken, offers, used).complete,
    decreases env.len() - i,
{
    if i < env.len() {
        assert(env[i] == start[i]);
        match entry_port(env[i]) {
            None => {
                lemma_enough(start, env, changes, i + 1, taken, offers, used);
            },
            Some(p) => {
                lemma_entry_port_range(env[i]);
                let port = p as u16;
                if !conflicts(port, taken) {
                    let next = Taken { selected: taken.selected.insert(port), ..taken };
                    assert(entry_port(start[i]) == Some(port as int));
                    lemma_enough(start, env, changes, i + 1, next, offers, used);
                } else {
                    assert(!taken.selected.contains(offers[used])) by {
                        if taken.selected.contains(offers[used]) {
                            if exists|u: int| 0 <= u < used && #[trigger] offers[u] == offers[used] {
                                let u = choose|u: int|
                                    0 <= u < used && #[trigger] offers[u] == offers[used];
                                assert(offers[u] != offers[used]);
                            }
                        }
                    }
                    assert(next_offer(offers, used, taken) == Some(used));
                    let next = Taken { selected: taken.selected.insert(offers[used]), ..taken };
                    assert(chosen_within(start, offers, used + 1, next.selected)) by {
                        assert(offers[used] == offers[used]);
                        assert forall|q: u16| #[trigger] next.selected.contains(q) implies (exists|
                            k: int,
                        |
                            0 <= k < start.len() && entry_port(#[trigger] start[k]) == Some(
                                q as int,
                            )) || exists|u: int| 0 <= u < used + 1 && #[trigger] offers[u] == q by {
                            if q != offers[used] {
                                assert(taken.selected.contains(q));
                                if exists|u: int| 0 <= u < used && #[trigger] offers[u] == q {
                                    let u = choose|u: int| 0 <= u < used && #[trigger] offers[u] == q;
                                    assert(offers[u] == q);
                                }
                            }
                        }
                    }
                    let e = EnvModel {
                        value: decimal(offers[used] as nat),
                        modified: true,
                        ..env[i]
                    };
                    lemma_enough(
                        start,
                        env.update(i, e),
                        changes.push(
                            ChangeModel {
                                key: env[i].key,
                                old_port: port,
                                new_port: offers[used],
                            },
                        ),
                        i + 1,
                        next,
                        offers,
                        used + 1,
                    );
                }
            },
        }
    }
}

/// The resolution completes where the host offers as many ports as there are entries, all
/// different, none of another instance, and none that an entry has.
pub proof fn law_enough_offers_complete(
    env: Seq<EnvModel>,
    reserved: Set<u16>,
    own: Set<u16>,
    busy: Set<u16>,
    offers: Seq<u16>,
)
    requires
        env.len() <= offers.len(),
        forall|u: int, v: int|
            0 <= u < v < offers.len() ==> #[trigger] offers[u] != #[trigger] offers[v],
        forall|u: int|
            0 <= u < offers.len() ==> !reserved.contains(#[trigger] offers[u]) && forall|k: int|
                0 <= k < env.len() ==> entry_port(#[trigger] env[k]) != Some(offers[u] as int),
    ensures
        resolution(env, reserved, own, busy, offers).complete,
{
    let taken = Taken { selected: Set::empty(), reserved, own, busy };
    lemma_enough(env, env, Seq::empty(), 0, taken, offers, 0);
}

} // verus!
