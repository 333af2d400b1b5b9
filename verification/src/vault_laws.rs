//! Laws of merging a file with the vault: which values the vault fills in.

use crate::environment::{host_of, is_container_url, last_entry, merged, merged_entry};
use crate::models::EnvModel;
use crate::ports::{is_loopback_url, is_service_port_key};
use crate::text::{
    cut, find, find_any_from, holds, is_digit, lemma_find_any_from, lemma_find_from, lemma_holds,
    lemma_rfind_from, matches_at, rcut, rfind, starts, trimmed, upper,
};
use crate::urls::before_scheme;
use vstd::prelude::*;
use vstd::string::*;

verus! {

// ---------------------------------------------------------------------------
// Ports and addresses
// ---------------------------------------------------------------------------

/// A variable is a service port exactly if its name, in any case, is `PORT` or something with
/// `_PORT` behind it, and names none of the databases.
pub proof fn law_service_port_keys(key: Seq<char>)
    ensures
        is_service_port_key(key) <==> (upper(key) == "PORT"@ || exists|name: Seq<char>|
            upper(key) == #[trigger] (name + "_PORT"@)) && (forall|i: int|
            !(#[trigger] matches_at(upper(key), "MYSQL"@, i))) && (forall|i: int|
            !(#[trigger] matches_at(upper(key), "SEEKDB"@, i))) && (forall|i: int|
            !(#[trigger] matches_at(upper(key), "OCEANBASE"@, i))),
{
    let u = upper(key);
    lemma_holds(u, "MYSQL"@);
    lemma_holds(u, "SEEKDB"@);
    lemma_holds(u, "OCEANBASE"@);
    let p = "_PORT"@;
    reveal_strlit("_PORT");
    if matches_at(u, p, u.len() - p.len()) {
        assert(u == u.take(u.len() - p.len()) + p);
    }
    assert forall|name: Seq<char>| u == #[trigger] (name + p) implies matches_at(
        u,
        p,
        u.len() - p.len(),
    ) by {
        assert(u.subrange(u.len() - p.len(), u.len() as int) == p);
    }
}

/// Whether a text is the beginning of a web address.
pub open spec fn is_web_scheme(s: Seq<char>) -> bool {
    s == "http://"@ || s == "https://"@
}

/// Whether a host is this machine.
pub open spec fn is_own_host(h: Seq<char>) -> bool {
    h == "127.0.0.1"@ || h == "localhost"@ || h == "0.0.0.0"@ || h == "[::1]"@
}

proof fn lemma_starts_with_both(s: Seq<char>, h: Seq<char>, both: Seq<char>, value: Seq<char>)
    requires
        both == s + h,
    ensures
        starts(value, both) <==> exists|rest: Seq<char>| value == #[trigger] (s + h + rest),
{
    if starts(value, both) {
        assert(value == s + h + value.skip(both.len() as int));
    }
    assert forall|rest: Seq<char>| value == #[trigger] (s + h + rest) implies starts(
        value,
        both,
    ) by {
        assert(value.subrange(0, both.len() as int) == both);
    }
}

pub proof fn lemma_hosts()
    ensures
        "http://127.0.0.1"@ == "http://"@ + "127.0.0.1"@,
        "https://127.0.0.1"@ == "https://"@ + "127.0.0.1"@,
        "http://localhost"@ == "http://"@ + "localhost"@,
        "https://localhost"@ == "https://"@ + "localhost"@,
        "http://0.0.0.0"@ == "http://"@ + "0.0.0.0"@,
        "https://0.0.0.0"@ == "https://"@ + "0.0.0.0"@,
        "http://[::1]"@ == "http://"@ + "[::1]"@,
        "https://[::1]"@ == "https://"@ + "[::1]"@,
{
    reveal_strlit("http://127.0.0.1");
    reveal_strlit("https://127.0.0.1");
    reveal_strlit("http://localhost");
    reveal_strlit("https://localhost");
    reveal_strlit("http://0.0.0.0");
    reveal_strlit("https://0.0.0.0");
    reveal_strlit("http://[::1]");
    reveal_strlit("https://[::1]");
    reveal_strlit("http://");
    reveal_strlit("https://");
    reveal_strlit("127.0.0.1");
    reveal_strlit("localhost");
    reveal_strlit("0.0.0.0");
    reveal_strlit("[::1]");
    assert("http://127.0.0.1"@ =~= "http://"@ + "127.0.0.1"@);
    assert("https://127.0.0.1"@ =~= "https://"@ + "127.0.0.1"@);
    assert("http://localhost"@ =~= "http://"@ + "localhost"@);
    assert("https://localhost"@ =~= "https://"@ + "localhost"@);
    assert("http://0.0.0.0"@ =~= "http://"@ + "0.0.0.0"@);
    assert("https://0.0.0.0"@ =~= "https://"@ + "0.0.0.0"@);
    assert("http://[::1]"@ =~= "http://"@ + "[::1]"@);
    assert("https://[::1]"@ =~= "https://"@ + "[::1]"@);
}

/// A value is on this machine exactly if it is a web address that starts with one of the
/// machine's own hosts.
pub proof fn law_addresses_of_this_machine(value: Seq<char>)
    ensures
        is_loopback_url(value) <==> exists|s: Seq<char>, h: Seq<char>, rest: Seq<char>|
            is_web_scheme(s) && is_own_host(h) && value == #[trigger] (s + h + rest),
{
    lemma_hosts();
    lemma_starts_with_both("http://"@, "127.0.0.1"@, "http://127.0.0.1"@, value);
    lemma_starts_with_both("https://"@, "127.0.0.1"@, "https://127.0.0.1"@, value);
    lemma_starts_with_both("http://"@, "localhost"@, "http://localhost"@, value);
    lemma_starts_with_both("https://"@, "localhost"@, "https://localhost"@, value);
    lemma_starts_with_both("http://"@, "0.0.0.0"@, "http://0.0.0.0"@, value);
    lemma_starts_with_both("https://"@, "0.0.0.0"@, "https://0.0.0.0"@, value);
    lemma_starts_with_both("http://"@, "[::1]"@, "http://[::1]"@, value);
    lemma_starts_with_both("https://"@, "[::1]"@, "https://[::1]"@, value);
}

// ---------------------------------------------------------------------------
// Hosts
// ---------------------------------------------------------------------------

/// Whether a text has none of the characters that end or split a host.
pub open spec fn is_plain_host(h: Seq<char>) -> bool {
    &&& h.len() > 0
    &&& forall|i: int|
        0 <= i < h.len() ==> (#[trigger] h[i]) != ':' && h[i] != '/' && h[i] != '?' && h[i] != '#'
            && h[i] != '['
}

/// Whether a text is nothing, or a colon and a port.
pub open spec fn is_port_part(p: Seq<char>) -> bool {
    p.len() == 0 || (p.len() > 1 && p[0] == ':' && forall|i: int|
        1 <= i < p.len() ==> is_digit(#[trigger] p[i]))
}

/// Whether a text is nothing, or goes on behind a host.
pub open spec fn is_tail(t: Seq<char>) -> bool {
    t.len() > 0 ==> t[0] == '/' || t[0] == '?' || t[0] == '#'
}

/// What stands behind the scheme of a web address.
pub proof fn lemma_behind_scheme(scheme: Seq<char>, rest: Seq<char>)
    requires
        is_web_scheme(scheme),
    ensures
        cut(scheme + rest, "://"@) matches Some(p) && p.1 == rest,
{
    reveal_strlit("://");
    reveal_strlit("http://");
    reveal_strlit("https://");
    let url = scheme + rest;
    let n = scheme.len() as int;
    lemma_find_from(url, "://"@, 0);
    assert(url.subrange(n - 3, n) == "://"@);
    assert(matches_at(url, "://"@, n - 3));
    assert forall|j: int| 0 <= j < n - 3 implies !matches_at(url, "://"@, j) by {
        if matches_at(url, "://"@, j) {
            assert(url.subrange(j, j + 3)[0] == url[j]);
            assert(url[j] == scheme[j]);
        }
    }
    assert(find(url, "://"@) == Some(n - 3));
    assert(url.skip(n) == rest);
}

/// A host with its port, and what goes on behind it, has no other scheme within the host.
proof fn lemma_before_scheme(a: Seq<char>, tail: Seq<char>)
    requires
        a.len() > 0,
        a.last() != ':',
        forall|j: int| 0 <= j < a.len() ==> #[trigger] a[j] != '/',
    ensures
        before_scheme(a + tail).len() >= a.len(),
        before_scheme(a + tail).take(a.len() as int) == a,
        before_scheme(a + tail).len() > a.len() ==> before_scheme(a + tail)[a.len() as int]
            == tail[0],
{
    reveal_strlit("://");
    let rest = a + tail;
    let m = a.len() as int;
    lemma_find_from(rest, "://"@, 0);
    match find(rest, "://"@) {
        None => {
            assert(rest.take(m) == a);
        },
        Some(k) => {
            assert(rest.subrange(k, k + 3)[1] == rest[k + 1]);
            assert(rest.subrange(k, k + 3)[0] == rest[k]);
            if k + 1 < m {
                assert(rest[k + 1] == a[k + 1]);
            } else if k < m {
                assert(rest[k] == a.last());
            }
            assert(rest.take(k).take(m) == a);
        },
    }
}

/// The authority is cut off where something goes on behind it.
pub proof fn lemma_authority_is(a: Seq<char>, short: Seq<char>)
    requires
        short.len() >= a.len(),
        short.take(a.len() as int) == a,
        forall|j: int| 0 <= j < a.len() ==> (#[trigger] a[j]) != '/' && a[j] != '?' && a[j] != '#',
        short.len() > a.len() ==> short[a.len() as int] == '/' || short[a.len() as int] == '?'
            || short[a.len() as int] == '#',
    ensures
        (match find_any_from(short, "/?#"@, true, 0) {
            Some(k) => short.take(k),
            None => short,
        }) == a,
{
    reveal_strlit("/?#");
    let m = a.len() as int;
    lemma_find_any_from(short, "/?#"@, true, 0);
    assert("/?#"@[0] == '/' && "/?#"@[1] == '?' && "/?#"@[2] == '#');
    assert forall|j: int| 0 <= j < m implies !"/?#"@.contains(#[trigger] short[j]) by {
        assert(short[j] == a[j]);
    }
    if short.len() > m {
        assert("/?#"@.contains(short[m]));
    } else {
        assert(short.take(m) == short);
    }
}

/// In an authority the host stands before the port.
proof fn lemma_host_of_authority(host: Seq<char>, port: Seq<char>)
    requires
        is_plain_host(host),
        is_port_part(port),
    ensures
        !starts(host + port, "["@),
        (match rcut(host + port, ":"@) {
            Some(q) => q.0,
            None => host + port,
        }) == host,
{
    reveal_strlit("[");
    reveal_strlit(":");
    let a = host + port;
    let h = host.len() as int;
    if starts(a, "["@) {
        assert(a.subrange(0, 1)[0] == a[0]);
        assert(a[0] == host[0]);
    }
    lemma_rfind_from(a, ":"@, a.len() - 1);
    assert forall|j: int| 0 <= j < a.len() && j != h implies !matches_at(a, ":"@, j) by {
        if matches_at(a, ":"@, j) {
            assert(a.subrange(j, j + 1)[0] == a[j]);
            if j < h {
                assert(a[j] == host[j]);
            } else {
                assert(a[j] == port[j - h]);
                assert(is_digit(port[j - h]));
            }
        }
    }
    if port.len() > 0 {
        assert(a[h] == port[0]);
        assert(a.subrange(h, h + 1) == ":"@);
        assert(matches_at(a, ":"@, h));
        assert(rfind(a, ":"@) == Some(h));
        assert(a.take(h) == host);
    } else {
        assert(a == host);
        assert(rfind(a, ":"@) is None);
    }
}

pub proof fn lemma_dotted(host: Seq<char>)
    ensures
        holds(host, "."@) <==> !(forall|i: int| 0 <= i < host.len() ==> #[trigger] host[i] != '.'),
{
    reveal_strlit(".");
    lemma_holds(host, "."@);
    if holds(host, "."@) {
        let i = choose|i: int| matches_at(host, "."@, i);
        assert(host.subrange(i, i + 1)[0] == host[i]);
    }
    assert forall|i: int| 0 <= i < host.len() && #[trigger] host[i] == '.' implies matches_at(
        host,
        "."@,
        i,
    ) by {
        assert(host.subrange(i, i + 1) == "."@);
    }
}

/// The host of a web address is what stands between the scheme and the port, path, query or
/// fragment; a text without a scheme names no host. One that is not this machine and has no dot
/// is the host of a container, and no other is.
pub proof fn law_hosts_are_read(
    scheme: Seq<char>,
    host: Seq<char>,
    port: Seq<char>,
    tail: Seq<char>,
    other: Seq<char>,
)
    requires
        is_web_scheme(scheme),
        is_plain_host(host),
        is_port_part(port),
        is_tail(tail),
        forall|i: int| !(#[trigger] matches_at(other, "://"@, i)),
    ensures
        host_of(scheme + host + port + tail) == Some(host),
        host_of(other) is None,
        is_container_url(scheme + host + port + tail) <==> !is_loopback_url(
            scheme + host + port + tail,
        ) && forall|i: int| 0 <= i < host.len() ==> #[trigger] host[i] != '.',
        !is_container_url(other),
{
    lemma_find_from(other, "://"@, 0);
    let a = host + port;
    let rest = a + tail;
    assert(scheme + host + port + tail == scheme + rest);
    lemma_behind_scheme(scheme, rest);
    assert forall|j: int| 0 <= j < a.len() implies (#[trigger] a[j]) != '/' && a[j] != '?' && a[j]
        != '#' && (j == a.len() - 1 ==> a[j] != ':') by {
        if j < host.len() {
            assert(a[j] == host[j]);
        } else {
            assert(a[j] == port[j - host.len()]);
            if j > host.len() {
                assert(is_digit(port[j - host.len()]));
            }
        }
    }
    assert(a.last() == a[a.len() - 1]);
    lemma_before_scheme(a, tail);
    let short = before_scheme(rest);
    assert(short.len() <= rest.len()) by {
        lemma_find_from(rest, "://"@, 0);
    }
    lemma_authority_is(a, short);
    lemma_host_of_authority(host, port);
    assert(host_of(scheme + rest) == Some(host));
    lemma_dotted(host);
}

// ---------------------------------------------------------------------------
// Merging
// ---------------------------------------------------------------------------

proof fn lemma_last_entry(vault: Seq<EnvModel>, key: Seq<char>, k: int)
    requires
        k < vault.len(),
        k >= 0 ==> vault[k].key == key,
        forall|j: int| 0 <= j < vault.len() && j > k ==> (#[trigger] vault[j]).key != key,
    ensures
        last_entry(vault, key) == (if k >= 0 {
            Some(vault[k])
        } else {
            None
        }),
    decreases vault.len(),
{
    if vault.len() > 0 && vault.last().key != key {
        lemma_last_entry(vault.drop_last(), key, k);
    }
}

/// The vault fills in every variable that it has a value for, secrets as any other: the merged
/// entry has the value of the vault's last entry under the key, and says that it is from the
/// vault. Only a blank value, a port of the instance, and the address of a container where the
/// file names this machine leave value and source as they are. A comment is filled in where the
/// file has none. Entries that the vault does not know stay, and all keep their places.
pub proof fn law_the_vault_fills_in(source: Seq<EnvModel>, vault: Seq<EnvModel>, i: int, k: int)
    requires
        0 <= i < source.len(),
        -1 <= k < vault.len(),
        k >= 0 ==> vault[k].key == source[i].key,
        forall|j: int| k < j < vault.len() ==> (#[trigger] vault[j]).key != source[i].key,
    ensures
        ({
            let e = source[i];
            let out = merged(source, vault)[i];
            let saved = vault[k];
            let address = holds(upper(e.key), "URL"@) || holds(upper(e.key), "ENDPOINT"@);
            let kept = trimmed(saved.value).len() == 0 || is_service_port_key(e.key) || (
            is_loopback_url(e.value) && address && is_container_url(saved.value));
            &&& merged(source, vault).len() == source.len()
            &&& k < 0 ==> out == e
            &&& out.key == e.key && out.modified == e.modified
            &&& k >= 0 && !kept ==> out.value == saved.value && out.source == "vault"@
            &&& k >= 0 && kept ==> out.value == e.value && out.source == e.source
            &&& k >= 0 && e.comment.len() == 0 ==> out.comment == saved.comment
            &&& e.comment.len() > 0 ==> out.comment == e.comment
        }),
{
    lemma_last_entry(vault, source[i].key, k);
    assert(merged(source, vault)[i] == merged_entry(source[i], vault));
}

} // verus!
