//! Laws of port mappings in compose files: what a mapping becomes, and that its defaults give
//! the file back.

use crate::compose::{
    has_key, is_section, line_change, mapped_line, mapped_lines, mapped_ports, mapping_change,
    mapping_text, section_name, service_before, with_last,
};
use crate::compose_laws::{law_only_mappings_change, lemma_mapping_text};
use crate::env_laws::{lemma_trim_stays, lemma_trimmed};
use crate::models::EnvModel;
use crate::text::{
    all_digits, ends, holds, indentation, is_digit, is_space, lemma_holds, lemma_rfind_from, lines,
    matches_at, rcut, rfind, starts, strip_all_end, strip_all_start, strip_set, strip_set_end,
    strip_set_start, trimmed, upper,
};
use vstd::prelude::*;
use vstd::string::*;

verus! {

/// The last colon of a text stands before the digits that end it.
proof fn lemma_cut_at_digits(a: Seq<char>, digits: Seq<char>)
    requires
        all_digits(digits),
    ensures
        rcut(a + ":"@ + digits, ":"@) == Some((a, digits)),
{
    reveal_strlit(":");
    let s = a + ":"@ + digits;
    let n = a.len() as int;
    lemma_rfind_from(s, ":"@, s.len() - 1);
    assert(s.subrange(n, n + 1) == ":"@);
    assert(matches_at(s, ":"@, n));
    assert forall|j: int| n < j implies !matches_at(s, ":"@, j) by {
        if matches_at(s, ":"@, j) {
            assert(s.subrange(j, j + 1)[0] == s[j]);
            assert(s[j] == digits[j - n - 1]);
            assert(is_digit(digits[j - n - 1]));
        }
    }
    assert(s.take(n) == a);
    assert(s.skip(n + 1) == digits);
}

proof fn lemma_no_colon(digits: Seq<char>)
    requires
        all_digits(digits),
    ensures
        rcut(digits, ":"@) is None,
{
    reveal_strlit(":");
    lemma_rfind_from(digits, ":"@, digits.len() - 1);
    if let Some(k) = rfind(digits, ":"@) {
        assert(digits.subrange(k, k + 1)[0] == digits[k]);
        assert(is_digit(digits[k]));
    }
}

proof fn lemma_rcut_parts(s: Seq<char>)
    ensures
        rcut(s, ":"@) matches Some(p) ==> s == p.0 + ":"@ + p.1,
{
    reveal_strlit(":");
    lemma_rfind_from(s, ":"@, s.len() - 1);
    if let Some(k) = rfind(s, ":"@) {
        assert(s.subrange(k, k + 1) == ":"@);
        assert(s == s.take(k) + ":"@ + s.skip(k + 1));
    }
}

/// Whether a text is nothing, or an address with the colon behind it.
pub open spec fn is_address_part(a: Seq<char>) -> bool {
    a.len() == 0 || a.last() == ':'
}

/// A mapping of a host port to a container port, with or without an address before them, gets
/// the variable in the place of the host port, which becomes its default: address and container
/// port stay. Whatever changes is such a mapping.
pub proof fn law_host_ports_become_defaults(
    address: Seq<char>,
    host_port: Seq<char>,
    container_port: Seq<char>,
    key: Seq<char>,
    other: Seq<char>,
)
    requires
        is_address_part(address),
        all_digits(host_port),
        all_digits(container_port),
    ensures
        mapping_change(address + host_port + ":"@ + container_port, key) == (if holds(
            address + host_port + ":"@ + container_port,
            "${"@,
        ) {
            None
        } else {
            Some(address + "${"@ + key + ":-"@ + host_port + "}:"@ + container_port)
        }),
        mapping_change(other, key) matches Some(new) ==> !holds(other, "${"@) && exists|
            a: Seq<char>,
            h: Seq<char>,
            c: Seq<char>,
        |
            is_address_part(a) && all_digits(h) && all_digits(c) && other == #[trigger] (a + h
                + ":"@ + c) && new == a + "${"@ + key + ":-"@ + h + "}:"@ + c,
{
    reveal_strlit(":");
    reveal_strlit("${");
    reveal_strlit(":${");
    reveal_strlit(":-");
    reveal_strlit("}:");
    let m = address + host_port + ":"@ + container_port;
    lemma_cut_at_digits(address + host_port, container_port);
    assert(m == (address + host_port) + ":"@ + container_port);
    if address.len() > 0 {
        let a = address.drop_last();
        assert(address == a + ":"@);
        lemma_cut_at_digits(a, host_port);
        assert(address + host_port == a + ":"@ + host_port);
        assert(a + (":${"@ + key + ":-"@ + host_port + "}:"@) + container_port == address + "${"@
            + key + ":-"@ + host_port + "}:"@ + container_port);
    } else {
        assert(address + host_port == host_port);
        lemma_no_colon(host_port);
        assert("${"@ + key + ":-"@ + host_port + "}:"@ + container_port == address + "${"@ + key
            + ":-"@ + host_port + "}:"@ + container_port);
    }
    if let Some(new) = mapping_change(other, key) {
        lemma_rcut_parts(other);
        let p = rcut(other, ":"@)->0;
        lemma_rcut_parts(p.0);
        match rcut(p.0, ":"@) {
            Some(q) => {
                let a = q.0 + ":"@;
                assert(other == a + q.1 + ":"@ + p.1);
                assert(new == a + "${"@ + key + ":-"@ + q.1 + "}:"@ + p.1);
            },
            None => {
                let a = Seq::<char>::empty();
                assert(other == a + p.0 + ":"@ + p.1);
                assert(new == a + "${"@ + key + ":-"@ + p.0 + "}:"@ + p.1);
            },
        }
    }
}

/// What a changed line is made of: key, what stands before the host port, the host port, and what
/// stands behind it and its colon.
proof fn lemma_changed_line(line: Seq<char>, open: Option<Seq<char>>, env: Seq<EnvModel>) -> (r: (
    Seq<char>,
    Seq<char>,
    Seq<char>,
    Seq<char>,
))
    requires
        line_change(line, open, env) is Some,
    ensures
        has_key(env, r.0),
        all_digits(r.2),
        line == r.1 + r.2 + ":"@ + r.3,
        with_last(line, mapping_text(line), line_change(line, open, env)->0) == r.1 + "${"@ + r.0
            + ":-"@ + r.2 + "}:"@ + r.3,
{
    let new = line_change(line, open, env)->0;
    let key = upper(open->0) + "_PORT"@;
    let mapping = mapping_text(line);
    law_host_ports_become_defaults(Seq::empty(), Seq::empty(), Seq::empty(), key, mapping);
    let (a, h, c) = choose|a: Seq<char>, h: Seq<char>, c: Seq<char>|
        is_address_part(a) && all_digits(h) && all_digits(c) && mapping == #[trigger] (a + h + ":"@
            + c) && new == a + "${"@ + key + ":-"@ + h + "}:"@ + c;
    let r = lemma_mapping_text(line);
    lemma_rfind_from(line, mapping, line.len() - mapping.len());
    assert(matches_at(line, mapping, r.0));
    let k = rfind(line, mapping)->0;
    let head = line.take(k);
    let tail = line.skip(k + mapping.len());
    assert(line == head + mapping + tail) by {
        assert(line.subrange(k, k + mapping.len()) == mapping);
    }
    lemma_parts_regroup(head, a, h, ":"@, c, tail);
    lemma_parts_gather(head, a, "${"@ + key + ":-"@ + h + "}:"@, c, tail);
    let before = head + a;
    let behind = c + tail;
    assert(new == a + ("${"@ + key + ":-"@ + h + "}:"@) + c);
    assert(before + "${"@ + key + ":-"@ + h + "}:"@ + behind == before + ("${"@ + key + ":-"@ + h
        + "}:"@) + behind);
    (key, before, h, behind)
}

proof fn lemma_parts_regroup(
    head: Seq<char>,
    a: Seq<char>,
    h: Seq<char>,
    colon: Seq<char>,
    c: Seq<char>,
    tail: Seq<char>,
)
    ensures
        head + (a + h + colon + c) + tail == (head + a) + h + colon + (c + tail),
{
}

proof fn lemma_parts_gather(
    head: Seq<char>,
    a: Seq<char>,
    v: Seq<char>,
    c: Seq<char>,
    tail: Seq<char>,
)
    ensures
        head + (a + v + c) + tail == (head + a) + v + (c + tail),
{
}

/// Each line of the file comes out as it was, or with a host port behind a variable of the
/// environment that defaults to it: putting the default back in the place of the variable gives
/// the old line.
pub proof fn law_defaults_give_the_lines_back(content: Seq<char>, env: Seq<EnvModel>, i: int)
    requires
        0 <= i < lines(content).len(),
    ensures
        ({
            let line = lines(content)[i];
            let out = lines(mapped_ports(content, env))[i];
            &&& lines(mapped_ports(content, env)).len() == lines(content).len()
            &&& out == line || exists|
                key: Seq<char>,
                before: Seq<char>,
                port: Seq<char>,
                behind: Seq<char>,
            |
                (exists|e: int| 0 <= e < env.len() && upper((#[trigger] env[e]).key) == key)
                    && all_digits(port) && out == #[trigger] (before + "${"@ + key + ":-"@ + port
                    + "}:"@ + behind) && line == before + port + ":"@ + behind
        }),
{
    law_only_mappings_change(content, env);
    let ls = lines(content);
    assert(mapped_lines(ls, env)[i] == mapped_line(ls, env, i));
    let open = service_before(ls, i + 1);
    if line_change(ls[i], open, env) is Some {
        let (key, before, port, behind) = lemma_changed_line(ls[i], open, env);
        let e = choose|e: int| 0 <= e < env.len() && upper(#[trigger] env[e].key) == key;
        assert(upper(env[e].key) == key);
    }
}

// ---------------------------------------------------------------------------
// Lines that have to change
// ---------------------------------------------------------------------------

/// What stands between white space is what is left without it.
pub proof fn lemma_trimmed_core(pad: Seq<char>, core: Seq<char>, end: Seq<char>)
    requires
        forall|i: int| 0 <= i < pad.len() ==> is_space(#[trigger] pad[i]),
        forall|i: int| 0 <= i < end.len() ==> is_space(#[trigger] end[i]),
        core.len() > 0,
        !is_space(core[0]),
        !is_space(core.last()),
    ensures
        trimmed(pad + core + end) == core,
{
    let s = pad + core + end;
    let r = lemma_trimmed(s);
    let n = pad.len() as int;
    let m = n + core.len();
    assert(s[n] == core[0]);
    assert(s[m - 1] == core.last());
    assert(r.0 <= n && m <= r.1);
    if r.0 < n {
        assert(trimmed(s)[0] == s[r.0]);
        assert(s[r.0] == pad[r.0]);
    }
    if m < r.1 {
        assert(trimmed(s).last() == s[r.1 - 1]);
        assert(s[r.1 - 1] == end[r.1 - 1 - m]);
    }
    assert(s.subrange(n, m) == core);
}

proof fn lemma_quotes_off(q: Seq<char>, m: Seq<char>)
    requires
        q.len() == 0 || q == "\""@,
        m.len() > 0,
        m[0] != '"',
        m.last() != '"',
    ensures
        strip_set(q + m + q, "\""@) == m,
{
    reveal_strlit("\"");
    reveal_with_fuel(strip_set_start, 3);
    reveal_with_fuel(strip_set_end, 3);
    let set = "\""@;
    assert(set[0] == '"');
    assert(set.contains('"'));
    assert(!set.contains(m[0]) && !set.contains(m.last()));
    if q.len() == 0 {
        assert(q + m + q == m);
    } else {
        let s = q + m + q;
        assert(s[0] == '"');
        assert(s.skip(1) == m + q);
        assert((m + q)[0] == m[0]);
        assert(strip_set_start(s, set) == m + q);
        assert((m + q).last() == '"');
        assert((m + q).drop_last() == m);
    }
}

/// The mapping of a list item, plain or in double quotes.
proof fn lemma_item_mapping(
    pad: Seq<char>,
    q: Seq<char>,
    m: Seq<char>,
    end: Seq<char>,
)
    requires
        forall|i: int| 0 <= i < pad.len() ==> is_space(#[trigger] pad[i]),
        forall|i: int| 0 <= i < end.len() ==> is_space(#[trigger] end[i]),
        q.len() == 0 || q == "\""@,
        m.len() > 0,
        m[0] != '"' && m[0] != '-' && !is_space(m[0]),
        is_digit(m.last()),
    ensures
        trimmed(pad + "- "@ + q + m + q + end) == "- "@ + q + m + q,
        mapping_text(pad + "- "@ + q + m + q + end) == m,
{
    reveal_strlit("\"");
    reveal_strlit("- ");
    let line = pad + "- "@ + q + m + q + end;
    let item = q + m + q;
    let core = "- "@ + item;
    assert(line == pad + core + end);
    assert(core == "- "@ + q + m + q);
    assert(item.len() > 0);
    assert(item[0] == '"' || item[0] == m[0]);
    assert(item.last() == '"' || item.last() == m.last());
    assert(core[0] == '-');
    assert(core.last() == item.last());
    lemma_trimmed_core(pad, core, end);
    assert(starts(core, "- "@)) by {
        assert(core.subrange(0, 2) == "- "@);
    }
    assert(core.skip(2) == item);
    assert(!starts(item, "- "@)) by {
        if starts(item, "- "@) {
            assert(item.subrange(0, 2)[0] == item[0]);
        }
    }
    reveal_with_fuel(strip_all_start, 2);
    assert(strip_all_start(core, "- "@) == item);
    lemma_trim_stays(item);
    lemma_quotes_off(q, m);
}

/// A list item with a colon in its text is looked at.
proof fn lemma_item_is_mapping(q: Seq<char>, m: Seq<char>)
    requires
        exists|i: int| 0 <= i < m.len() && #[trigger] m[i] == ':',
    ensures
        starts("- "@ + q + m + q, "- "@),
        holds("- "@ + q + m + q, ":"@),
{
    reveal_strlit(":");
    reveal_strlit("- ");
    let t = "- "@ + q + m + q;
    assert(t.subrange(0, 2) == "- "@);
    let i = choose|i: int| 0 <= i < m.len() && #[trigger] m[i] == ':';
    let c = 2 + q.len() + i;
    assert(t[c] == m[i]);
    assert(t.subrange(c, c + 1) == ":"@);
    assert(matches_at(t, ":"@, c));
    lemma_holds(t, ":"@);
}

/// Exchanging the mapping of a list item keeps what stands around it.
proof fn lemma_item_exchanged(
    pad: Seq<char>,
    q: Seq<char>,
    m: Seq<char>,
    end: Seq<char>,
    new: Seq<char>,
)
    requires
        forall|i: int| 0 <= i < end.len() ==> is_space(#[trigger] end[i]),
        q.len() == 0 || q == "\""@,
        m.len() > 0,
        is_digit(m.last()),
    ensures
        with_last(pad + "- "@ + q + m + q + end, m, new) == pad + "- "@ + q + new + q + end,
{
    reveal_strlit("- ");
    reveal_strlit("\"");
    let line = pad + "- "@ + q + m + q + end;
    let n = (pad.len() + 2 + q.len()) as int;
    assert(line.subrange(n, n + m.len()) == m);
    assert(matches_at(line, m, n));
    lemma_rfind_from(line, m, line.len() - m.len());
    let k = rfind(line, m)->0;
    if k > n {
        let z = k + m.len() - 1;
        assert(line.subrange(k, k + m.len()).last() == line[z]);
        if z < n + m.len() + q.len() {
            assert(line[z] == q[z - n - m.len()]);
        } else {
            assert(line[z] == end[z - n - m.len() - q.len()]);
        }
    }
    assert(k == n);
    assert(line.take(n) == pad + "- "@ + q);
    assert(line.skip(n + m.len()) == q + end);
    assert(with_last(line, m, new) == pad + "- "@ + q + new + q + end);
}

/// The service that a line opened is open until another line at its depth.
proof fn lemma_service_stays_open(ls: Seq<Seq<char>>, service: Seq<char>, o: int, k: int)
    requires
        0 <= o < k <= ls.len(),
        indentation(ls[o]) == 2,
        trimmed(ls[o]) == service + ":"@,
        service.len() > 0,
        service[0] != '-',
        service.last() != ':',
        service != "services"@,
        forall|j: int| o < j < k ==> indentation(#[trigger] ls[j]) != 2,
    ensures
        service_before(ls, k) == Some(service),
    decreases k,
{
    if k == o + 1 {
        reveal_strlit(":");
        reveal_strlit("-");
        let t = service + ":"@;
        let n = service.len() as int;
        assert(t.subrange(n, n + 1) == ":"@);
        assert(ends(t, ":"@));
        assert(!starts(t, "-"@)) by {
            if starts(t, "-"@) {
                assert(t.subrange(0, 1)[0] == t[0]);
            }
        }
        assert(t.take(n) == service);
        assert(!ends(service, ":"@)) by {
            if ends(service, ":"@) {
                assert(service.subrange(n - 1, n)[0] == service.last());
            }
        }
        reveal_with_fuel(strip_all_end, 2);
        assert(strip_all_end(t, ":"@) == service);
        assert(is_section(ls[o]) && section_name(ls[o]) == service);
    } else {
        lemma_service_stays_open(ls, service, o, k - 1);
        assert(indentation(ls[k - 1]) != 2);
    }
}

/// A port mapping in the list of a service gets the variable of the service where the environment
/// has one, whether the mapping stands in quotes or not, and with an address or without; where
/// the environment has none, the line stays.
pub proof fn law_mappings_follow_their_service(
    content: Seq<char>,
    env: Seq<EnvModel>,
    service: Seq<char>,
    o: int,
    i: int,
    pad: Seq<char>,
    q: Seq<char>,
    address: Seq<char>,
    host_port: Seq<char>,
    container_port: Seq<char>,
    end: Seq<char>,
)
    requires
        ({
            let ls = lines(content);
            let m = address + host_port + ":"@ + container_port;
            &&& 0 <= o < i < ls.len()
            &&& indentation(ls[o]) == 2 && trimmed(ls[o]) == service + ":"@
            &&& service.len() > 0 && service[0] != '-' && service.last() != ':' && service
                != "services"@
            &&& forall|j: int| o < j <= i ==> indentation(#[trigger] ls[j]) != 2
            &&& ls[i] == pad + "- "@ + q + m + q + end
            &&& forall|j: int| 0 <= j < pad.len() ==> is_space(#[trigger] pad[j])
            &&& forall|j: int| 0 <= j < end.len() ==> is_space(#[trigger] end[j])
            &&& q.len() == 0 || q == "\""@
            &&& is_address_part(address)
            &&& m[0] != '"' && m[0] != '-' && !is_space(m[0])
            &&& host_port.len() > 0 && all_digits(host_port)
            &&& container_port.len() > 0 && all_digits(container_port)
            &&& !holds(m, "${"@)
        }),
    ensures
        ({
            let key = upper(service) + "_PORT"@;
            let out = lines(mapped_ports(content, env))[i];
            &&& (exists|e: int| 0 <= e < env.len() && upper((#[trigger] env[e]).key) == key) ==> out
                == pad + "- "@ + q + (address + "${"@ + key + ":-"@ + host_port + "}:"@
                + container_port) + q + end
            &&& (forall|e: int| 0 <= e < env.len() ==> upper((#[trigger] env[e]).key) != key) ==> out
                == lines(content)[i]
        }),
{
    reveal_strlit(":");
    let ls = lines(content);
    let key = upper(service) + "_PORT"@;
    let m = address + host_port + ":"@ + container_port;
    let new = address + "${"@ + key + ":-"@ + host_port + "}:"@ + container_port;
    let line = ls[i];
    law_only_mappings_change(content, env);
    lemma_service_stays_open(ls, service, o, i + 1);
    assert(m.last() == container_port.last());
    assert(is_digit(container_port[container_port.len() - 1]));
    assert(m[(address.len() + host_port.len()) as int] == ':');
    lemma_item_mapping(pad, q, m, end);
    law_host_ports_become_defaults(address, host_port, container_port, key, m);
    lemma_item_is_mapping(q, m);
    lemma_item_exchanged(pad, q, m, end, new);
    assert(mapped_lines(ls, env)[i] == mapped_line(ls, env, i));
    if exists|e: int| 0 <= e < env.len() && upper((#[trigger] env[e]).key) == key {
        assert(has_key(env, key));
        assert(line_change(line, Some(service), env) == Some(new));
    }
}

} // verus!
