//! What holds of moved ports as a whole.

use crate::models::{ChangeModel, EnvModel};
use crate::ports::{
    aligned, assigned_from, best_match, conflicts, entry_port, host_port_from, host_port_replaced,
    is_loopback_url, is_service_port_key, moved_on_localhost, moved_on_loopback, moved_twice,
    next_offer, phoenix_from, rebased, rebased_from, rebased_once, resolution, resolved_from, Taken,
};
use crate::text::{
    all_digits, decimal, find_from, is_digit, is_space, law_decimal_parses_back,
    lemma_decimal_value, lemma_digits_value_monotonic, lemma_find_from, matches_at, number_digits,
    parsed, starts, trimmed, trimmed_end, upper,
};
use crate::urls::{url_parts, with_url_port};
use vstd::prelude::*;

verus! {

/// A port that goes on with more digits is another port: a value in which every occurrence
/// of host and port is followed by a digit stays as it is.
pub proof fn law_longer_ports_are_left_alone(
    value: Seq<char>,
    host: Seq<char>,
    old_port: nat,
    new_port: nat,
)
    requires
        forall|k: int|
            #![trigger matches_at(value, host + ":"@ + decimal(old_port), k)]
            matches_at(value, host + ":"@ + decimal(old_port), k) ==> ({
                let end = k + (host + ":"@ + decimal(old_port)).len();
                end < value.len() && is_digit(value[end])
            }),
    ensures
        host_port_replaced(value, host, old_port, new_port) == value,
{
    reveal_strlit(":");
    let needle = host + ":"@ + decimal(old_port);
    lemma_unchanged_from(value, needle, host + ":"@ + decimal(new_port), 0);
    assert(value.skip(0) == value);
}

proof fn lemma_unchanged_from(s: Seq<char>, needle: Seq<char>, to: Seq<char>, i: int)
    requires
        0 <= i <= s.len(),
        needle.len() > 0,
        forall|k: int| #[trigger]
            matches_at(s, needle, k) ==> k + needle.len() < s.len() && is_digit(
                s[k + needle.len()],
            ),
    ensures
        host_port_from(s, needle, to, i) == s.skip(i),
    decreases s.len() - i,
{
    lemma_find_from(s, needle, i);
    match find_from(s, needle, i) {
        None => {},
        Some(k) => {
            lemma_unchanged_from(s, needle, to, k + needle.len());
            assert(s.subrange(i, k) + s.subrange(k, k + needle.len()) + s.skip(k + needle.len())
                == s.skip(i));
        },
    }
}

/// A value that is not a URL on this machine follows no moved port and is aligned with none:
/// endpoints inside a container network keep their ports.
pub proof fn law_foreign_values_stay(
    e: EnvModel,
    changes: Seq<ChangeModel>,
    i: int,
    ports: Seq<(Seq<char>, int)>,
)
    requires
        !is_loopback_url(e.value),
    ensures
        rebased_from(e, changes, i) == e,
        aligned(e, ports) == e,
    decreases changes.len() - i,
{
    if 0 <= i < changes.len() {
        law_foreign_values_stay(e, changes, i + 1, ports);
    }
}

/// Going through the entries changes none that assigns no service port, and keeps all keys.
pub proof fn lemma_resolved_frame(
    env: Seq<EnvModel>,
    changes: Seq<ChangeModel>,
    i: int,
    taken: Taken,
    offers: Seq<u16>,
    used: int,
    j: int,
)
    requires
        0 <= i,
        0 <= j < env.len(),
    ensures
        ({
            let r = resolved_from(env, changes, i, taken, offers, used);
            &&& r.env.len() == env.len()
            &&& r.env[j].key == env[j].key
            &&& j < i || entry_port(env[j]) is None ==> r.env[j] == env[j]
        }),
    decreases env.len() - i,
{
    if i < env.len() {
        match entry_port(env[i]) {
            None => {
                lemma_resolved_frame(env, changes, i + 1, taken, offers, used, j);
            },
            Some(p) => {
                let port = p as u16;
                if !conflicts(port, taken) {
                    lemma_resolved_frame(
                        env,
                        changes,
                        i + 1,
                        Taken { selected: taken.selected.insert(port), ..taken },
                        offers,
                        used,
                        j,
                    );
                } else {
                    match next_offer(offers, used, taken) {
                        None => {},
                        Some(k) => {
                            lemma_resolved_frame(
                                env.update(
                                    i,
                                    EnvModel {
                                        value: decimal(offers[k] as nat),
                                        modified: true,
                                        ..env[i]
                                    },
                                ),
                                changes.push(
                                    ChangeModel {
                                        key: env[i].key,
                                        old_port: port,
                                        new_port: offers[k],
                                    },
                                ),
                                i + 1,
                                Taken { selected: taken.selected.insert(offers[k]), ..taken },
                                offers,
                                k + 1,
                                j,
                            );
                        },
                    }
                }
            },
        }
    }
}

/// An entry that assigns no service port, and whose value is no URL on this machine, comes
/// out of the resolution as it went in; database ports are such entries.
pub proof fn law_resolution_leaves_other_entries(
    env: Seq<EnvModel>,
    reserved: Set<u16>,
    own: Set<u16>,
    busy: Set<u16>,
    offers: Seq<u16>,
    j: int,
)
    requires
        0 <= j < env.len(),
        entry_port(env[j]) is None,
        !is_loopback_url(env[j].value),
    ensures
        resolution(env, reserved, own, busy, offers).env.len() == env.len(),
        resolution(env, reserved, own, busy, offers).env[j] == env[j],
{
    let taken = Taken { selected: Set::empty(), reserved, own, busy };
    lemma_resolved_frame(env, Seq::empty(), 0, taken, offers, 0, j);
    let r = resolved_from(env, Seq::empty(), 0, taken, offers, 0);
    law_foreign_values_stay(
        env[j],
        r.changes,
        0,
        assigned_from(rebased(r.env, r.changes), 0),
    );
}

// ---------------------------------------------------------------------------
// Distinct ports
// ---------------------------------------------------------------------------

pub proof fn lemma_trimmed_same(s: Seq<char>)
    requires
        s.len() > 0,
        !is_space(s[0]),
        !is_space(s.last()),
    ensures
        trimmed(s) == s,
{
}

proof fn lemma_trimmed_end_first(s: Seq<char>)
    requires
        s.len() > 0,
        !is_space(s[0]),
    ensures
        trimmed_end(s).len() > 0,
        trimmed_end(s)[0] == s[0],
    decreases s.len(),
{
    if is_space(s.last()) {
        lemma_trimmed_end_first(s.drop_last());
    }
}

/// A text that starts with the letter h is not a number.
pub proof fn lemma_letter_is_no_port(s: Seq<char>)
    requires
        s.len() > 0,
        s[0] == 'h',
    ensures
        parsed(trimmed(s), 65535) is None,
{
    lemma_trimmed_end_first(s);
    let t = trimmed(s);
    assert(number_digits(t) == t);
    assert(!is_digit(t[0]));
}

pub proof fn lemma_loopback_starts_with_h(s: Seq<char>)
    requires
        is_loopback_url(s),
    ensures
        s.len() > 0,
        s[0] == 'h',
        starts(s, "http"@),
{
    reveal_strlit("http");
    reveal_strlit("http://127.0.0.1");
    reveal_strlit("https://127.0.0.1");
    reveal_strlit("http://localhost");
    reveal_strlit("https://localhost");
    reveal_strlit("http://0.0.0.0");
    reveal_strlit("https://0.0.0.0");
    reveal_strlit("http://[::1]");
    reveal_strlit("https://[::1]");
    lemma_prefix_of_prefix(s, "http://127.0.0.1"@);
    lemma_prefix_of_prefix(s, "https://127.0.0.1"@);
    lemma_prefix_of_prefix(s, "http://localhost"@);
    lemma_prefix_of_prefix(s, "https://localhost"@);
    lemma_prefix_of_prefix(s, "http://0.0.0.0"@);
    lemma_prefix_of_prefix(s, "https://0.0.0.0"@);
    lemma_prefix_of_prefix(s, "http://[::1]"@);
    lemma_prefix_of_prefix(s, "https://[::1]"@);
}

proof fn lemma_prefix_of_prefix(s: Seq<char>, p: Seq<char>)
    requires
        p.len() >= 4,
        p[0] == 'h',
        p[1] == 't',
        p[2] == 't',
        p[3] == 'p',
    ensures
        starts(s, p) ==> s.len() >= 4 && s[0] == 'h' && starts(s, "http"@),
{
    reveal_strlit("http");
    if starts(s, p) {
        let t = s.subrange(0, p.len() as int);
        assert(t[0] == s[0] && t[1] == s[1] && t[2] == s[2] && t[3] == s[3]);
        assert(s.subrange(0, 4) == "http"@);
    }
}

/// Exchanging ports behind a host leaves the first letter of a URL.
proof fn lemma_replaced_starts_with_h(s: Seq<char>, host: Seq<char>, from: nat, to: nat)
    requires
        s.len() > 0,
        s[0] == 'h',
        host.len() > 0,
        host[0] != 'h',
    ensures
        host_port_replaced(s, host, from, to).len() > 0,
        host_port_replaced(s, host, from, to)[0] == 'h',
{
    reveal_strlit(":");
    let needle = host + ":"@ + decimal(from);
    lemma_find_from(s, needle, 0);
    match find_from(s, needle, 0) {
        None => {},
        Some(k) => {
            assert(needle[0] == host[0]);
            if k == 0 {
                assert(s.subrange(0, needle.len() as int)[0] == s[0]);
            }
            assert(s.subrange(0, k)[0] == 'h');
        },
    }
}

proof fn lemma_moved_starts_with_h(s: Seq<char>, from: nat, to: nat)
    requires
        s.len() > 0,
        s[0] == 'h',
    ensures
        moved_on_localhost(s, from, to).len() > 0,
        moved_on_localhost(s, from, to)[0] == 'h',
        moved_on_loopback(s, from, to).len() > 0,
        moved_on_loopback(s, from, to)[0] == 'h',
{
    reveal_strlit("127.0.0.1");
    reveal_strlit("localhost");
    reveal_strlit("0.0.0.0");
    reveal_strlit("[::1]");
    let a = host_port_replaced(s, "127.0.0.1"@, from, to);
    lemma_replaced_starts_with_h(s, "127.0.0.1"@, from, to);
    let b = host_port_replaced(a, "localhost"@, from, to);
    lemma_replaced_starts_with_h(a, "localhost"@, from, to);
    let c = host_port_replaced(b, "0.0.0.0"@, from, to);
    lemma_replaced_starts_with_h(b, "0.0.0.0"@, from, to);
    lemma_replaced_starts_with_h(c, "[::1]"@, from, to);
}

/// An entry assigns the same port, or none, after the changes from `i` on.
pub proof fn lemma_rebased_keeps_port(e: EnvModel, changes: Seq<ChangeModel>, i: int)
    ensures
        rebased_from(e, changes, i).key == e.key,
        entry_port(rebased_from(e, changes, i)) == entry_port(e),
        e.value.len() > 0 && e.value[0] == 'h' ==> rebased_from(e, changes, i).value.len() > 0
            && rebased_from(e, changes, i).value[0] == 'h',
    decreases changes.len() - i,
{
    if 0 <= i < changes.len() {
        let c = changes[i];
        let next = rebased_once(e, c, moved_twice(changes, c.old_port));
        if next != e {
            lemma_loopback_starts_with_h(e.value);
            lemma_moved_starts_with_h(e.value, c.old_port as nat, c.new_port as nat);
            lemma_letter_is_no_port(e.value);
            lemma_letter_is_no_port(next.value);
        }
        lemma_rebased_keeps_port(next, changes, i + 1);
    }
}

proof fn lemma_with_port_starts_with_h(url: Seq<char>, port: nat)
    requires
        url.len() > 0,
        url[0] == 'h',
    ensures
        with_url_port(url, port).len() > 0,
        with_url_port(url, port)[0] == 'h',
{
    reveal_strlit("://");
    match url_parts(url) {
        None => {},
        Some(p) => {
            lemma_find_from(url, "://"@, 0);
            assert(p.scheme[0] == url[0]);
        },
    }
}

pub proof fn lemma_aligned_keeps_port(e: EnvModel, ports: Seq<(Seq<char>, int)>)
    ensures
        aligned(e, ports).key == e.key,
        entry_port(aligned(e, ports)) == entry_port(e),
{
    let out = aligned(e, ports);
    if out != e {
        lemma_loopback_starts_with_h(e.value);
        match best_match(ports, upper(e.key)) {
            Some(p) => {
                lemma_with_port_starts_with_h(e.value, p.1 as nat);
            },
            None => {
                lemma_with_port_starts_with_h(e.value, phoenix_from(ports, 0)->0 as nat);
            },
        }
        lemma_letter_is_no_port(e.value);
        lemma_letter_is_no_port(out.value);
    }
}

/// Whether the entries before `i` have ports that differ from each other, are chosen, not
/// reserved, and either usable where they are or among the offers.
spec fn settled(env: Seq<EnvModel>, i: int, taken: Taken, offers: Seq<u16>) -> bool {
    &&& forall|j: int|
        0 <= j < i && entry_port(#[trigger] env[j]) is Some ==> ({
            let port = entry_port(env[j])->0 as u16;
            &&& taken.selected.contains(port)
            &&& !taken.reserved.contains(port)
            &&& taken.own.contains(port) || !taken.busy.contains(port) || offers.contains(port)
        })
    &&& forall|j: int, k: int|
        0 <= j < k < i && entry_port(#[trigger] env[j]) is Some && entry_port(
            #[trigger] env[k],
        ) is Some ==> entry_port(env[j]) != entry_port(env[k])
}

pub proof fn lemma_next_offer(offers: Seq<u16>, used: int, taken: Taken)
    requires
        0 <= used,
    ensures
        next_offer(offers, used, taken) matches Some(k) ==> used <= k < offers.len()
            && !taken.selected.contains(offers[k]) && !taken.reserved.contains(offers[k]),
    decreases offers.len() - used,
{
    if used < offers.len() {
        lemma_next_offer(offers, used + 1, taken);
    }
}

pub proof fn lemma_offer_is_port(e: EnvModel, port: u16)
    requires
        is_service_port_key(e.key),
        e.value == decimal(port as nat),
    ensures
        entry_port(e) == Some(port as int),
{
    lemma_decimal_value(port as nat);
    law_decimal_parses_back(port as nat, 65535);
    let d = decimal(port as nat);
    assert(is_digit(d[0]));
    assert(is_digit(d[d.len() - 1]));
    lemma_trimmed_same(d);
}

proof fn lemma_resolved_settles(
    env: Seq<EnvModel>,
    changes: Seq<ChangeModel>,
    i: int,
    taken: Taken,
    offers: Seq<u16>,
    used: int,
) -> (last: Taken)
    requires
        0 <= i <= env.len(),
        0 <= used,
        settled(env, i, taken, offers),
        resolved_from(env, changes, i, taken, offers, used).complete,
    ensures
        ({
            let r = resolved_from(env, changes, i, taken, offers, used);
            &&& r.env.len() == env.len()
            &&& last.reserved == taken.reserved && last.own == taken.own && last.busy == taken.busy
            &&& settled(r.env, env.len() as int, last, offers)
        }),
    decreases env.len() - i,
{
    if i >= env.len() {
        taken
    } else {
        match entry_port(env[i]) {
            None => { lemma_resolved_settles(env, changes, i + 1, taken, offers, used) },
            Some(p) => {
                let port = p as u16;
                if !conflicts(port, taken) {
                    let next = Taken { selected: taken.selected.insert(port), ..taken };
                    assert(settled(env, i + 1, next, offers)) by {
                        assert forall|j: int, k: int|
                            0 <= j < k < i + 1 && entry_port(#[trigger] env[j]) is Some
                                && entry_port(#[trigger] env[k]) is Some implies entry_port(env[j])
                            != entry_port(env[k]) by {
                            if k == i {
                                assert(taken.selected.contains(entry_port(env[j])->0 as u16));
                            }
                        }
                    }
                    lemma_resolved_settles(env, changes, i + 1, next, offers, used)
                } else {
                    lemma_next_offer(offers, used, taken);
                    let k0 = next_offer(offers, used, taken)->0;
                    let e = EnvModel { value: decimal(offers[k0] as nat), modified: true, ..env[i] };
                    let env2 = env.update(i, e);
                    let change = ChangeModel {
                        key: env[i].key,
                        old_port: port,
                        new_port: offers[k0],
                    };
                    let next = Taken { selected: taken.selected.insert(offers[k0]), ..taken };
                    lemma_offer_is_port(e, offers[k0]);
                    assert(settled(env2, i + 1, next, offers)) by {
                        assert(offers.contains(offers[k0]));
                        assert forall|j: int|
                            0 <= j < i + 1 && entry_port(#[trigger] env2[j]) is Some implies ({
                            let port = entry_port(env2[j])->0 as u16;
                            &&& next.selected.contains(port)
                            &&& !next.reserved.contains(port)
                            &&& next.own.contains(port) || !next.busy.contains(port)
                                || offers.contains(port)
                        }) by {
                            if j < i {
                                assert(env2[j] == env[j]);
                            }
                        }
                        assert forall|j: int, k: int|
                            0 <= j < k < i + 1 && entry_port(#[trigger] env2[j]) is Some
                                && entry_port(#[trigger] env2[k]) is Some implies entry_port(
                            env2[j],
                        ) != entry_port(env2[k]) by {
                            assert(env2[j] == env[j]);
                            if k == i {
                                assert(taken.selected.contains(entry_port(env[j])->0 as u16));
                            } else {
                                assert(env2[k] == env[k]);
                            }
                        }
                    }
                    lemma_resolved_settles(
                        env2,
                        changes.push(change),
                        i + 1,
                        next,
                        offers,
                        k0 + 1,
                    )
                }
            },
        }
    }
}

/// Where the offers were enough, no two entries assign the same service port, none assigns a
/// port of another instance, and each port in use on the host is one of the instance's own
/// or one that was offered.
pub proof fn law_resolved_ports_are_free_and_distinct(
    env: Seq<EnvModel>,
    reserved: Set<u16>,
    own: Set<u16>,
    busy: Set<u16>,
    offers: Seq<u16>,
    j: int,
    k: int,
)
    requires
        resolution(env, reserved, own, busy, offers).complete,
        0 <= j < env.len(),
        0 <= k < env.len(),
        entry_port(resolution(env, reserved, own, busy, offers).env[j]) is Some,
    ensures
        ({
            let out = resolution(env, reserved, own, busy, offers).env;
            let port = entry_port(out[j])->0 as u16;
            &&& out.len() == env.len()
            &&& !reserved.contains(port)
            &&& own.contains(port) || !busy.contains(port) || offers.contains(port)
            &&& j != k ==> entry_port(out[k]) != entry_port(out[j])
        }),
{
    let taken = Taken { selected: Set::empty(), reserved, own, busy };
    let last = lemma_resolved_settles(env, Seq::empty(), 0, taken, offers, 0);
    let r = resolved_from(env, Seq::empty(), 0, taken, offers, 0);
    let mid = rebased(r.env, r.changes);
    let ports = assigned_from(mid, 0);
    lemma_rebased_keeps_port(r.env[j], r.changes, 0);
    lemma_rebased_keeps_port(r.env[k], r.changes, 0);
    lemma_aligned_keeps_port(mid[j], ports);
    lemma_aligned_keeps_port(mid[k], ports);
    let out = resolution(env, reserved, own, busy, offers).env;
    assert(entry_port(out[j]) == entry_port(r.env[j]));
    assert(entry_port(out[k]) == entry_port(r.env[k]));
}

/// An entry keeps a port that is free for it.
proof fn lemma_free_port_is_kept(
    env: Seq<EnvModel>,
    changes: Seq<ChangeModel>,
    i: int,
    taken: Taken,
    offers: Seq<u16>,
    used: int,
    j: int,
)
    requires
        0 <= i <= j < env.len(),
        0 <= used,
        entry_port(env[j]) is Some,
        !conflicts(entry_port(env[j])->0 as u16, taken),
        !offers.contains(entry_port(env[j])->0 as u16),
        forall|m: int| i <= m < j ==> entry_port(#[trigger] env[m]) != entry_port(env[j]),
    ensures
        resolved_from(env, changes, i, taken, offers, used).env[j] == env[j],
    decreases env.len() - i,
{
    let p = entry_port(env[j])->0 as u16;
    lemma_entry_port_range(env[j]);
    match entry_port(env[i]) {
        None => {
            lemma_free_port_is_kept(env, changes, i + 1, taken, offers, used, j);
        },
        Some(q) => {
            let port = q as u16;
            lemma_entry_port_range(env[i]);
            if !conflicts(port, taken) {
                let next = Taken { selected: taken.selected.insert(port), ..taken };
                if i == j {
                    lemma_resolved_frame(env, changes, i + 1, next, offers, used, j);
                } else {
                    assert(entry_port(env[i]) != entry_port(env[j]));
                    lemma_free_port_is_kept(env, changes, i + 1, next, offers, used, j);
                }
            } else {
                assert(i != j);
                match next_offer(offers, used, taken) {
                    None => {},
                    Some(k) => {
                        lemma_next_offer(offers, used, taken);
                        assert(offers[k] != p);
                        let e = EnvModel {
                            value: decimal(offers[k] as nat),
                            modified: true,
                            ..env[i]
                        };
                        let moved = env.update(i, e);
                        assert forall|m: int| i + 1 <= m < j implies entry_port(
                            #[trigger] moved[m],
                        ) != entry_port(moved[j]) by {
                            assert(moved[m] == env[m]);
                        }
                        lemma_free_port_is_kept(
                            moved,
                            changes.push(
                                ChangeModel {
                                    key: env[i].key,
                                    old_port: port,
                                    new_port: offers[k],
                                },
                            ),
                            i + 1,
                            Taken { selected: taken.selected.insert(offers[k]), ..taken },
                            offers,
                            k + 1,
                            j,
                        );
                    },
                }
            }
        },
    }
}

pub proof fn lemma_entry_port_range(e: EnvModel)
    ensures
        entry_port(e) matches Some(p) ==> 0 <= p <= 65535,
{
    let d = number_digits(trimmed(e.value));
    if all_digits(d) {
        lemma_digits_value_monotonic(d, d.len() as int);
        assert(d.take(d.len() as int) == d);
    }
}

/// An entry keeps its port where nothing is in the way: no entry before it has the port, no
/// other instance does, and it is free on the host or belongs to the instance itself, as the
/// ports of its running services do. Left out are ports that the host offers for others.
pub proof fn law_free_ports_are_kept(
    env: Seq<EnvModel>,
    reserved: Set<u16>,
    own: Set<u16>,
    busy: Set<u16>,
    offers: Seq<u16>,
    j: int,
)
    requires
        0 <= j < env.len(),
        entry_port(env[j]) is Some,
        entry_port(env[j])->0 != 0,
        !reserved.contains(entry_port(env[j])->0 as u16),
        own.contains(entry_port(env[j])->0 as u16) || !busy.contains(
            entry_port(env[j])->0 as u16,
        ),
        !offers.contains(entry_port(env[j])->0 as u16),
        forall|m: int| 0 <= m < j ==> entry_port(#[trigger] env[m]) != entry_port(env[j]),
    ensures
        resolution(env, reserved, own, busy, offers).env[j] == env[j],
{
    let taken = Taken { selected: Set::empty(), reserved, own, busy };
    lemma_entry_port_range(env[j]);
    lemma_free_port_is_kept(env, Seq::empty(), 0, taken, offers, 0, j);
    lemma_resolved_frame(env, Seq::empty(), 0, taken, offers, 0, j);
    let r = resolved_from(env, Seq::empty(), 0, taken, offers, 0);
    if is_loopback_url(env[j].value) {
        lemma_loopback_starts_with_h(env[j].value);
        lemma_letter_is_no_port(env[j].value);
    }
    law_foreign_values_stay(
        env[j],
        r.changes,
        0,
        assigned_from(rebased(r.env, r.changes), 0),
    );
}

} // verus!
