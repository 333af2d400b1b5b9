//! Laws of process commands: where a port is put, how one is exchanged, and whose it is.

use crate::models::EnvModel;
use crate::process_ports::{
    array_port_changed, command_change, digit_run, digits_after_flag, first_named, first_value,
    npm_migrated, process_port, quoted_after_comma, quoted_from, takes_port, text_port_changed,
    tokens_of,
};
use crate::text::{
    cut, decimal, find, holds, is_digit, is_space, law_decimal_parses_back, lemma_decimal_value,
    lemma_find_from, lemma_replaced_absent, lemma_rfind_from, lower, matches_at, parsed,
    replaced_from, rfind, trimmed, trimmed_start, upper, words,
};
use vstd::prelude::*;
use vstd::string::*;

verus! {

/// Whether a text has none of a character.
pub open spec fn lacks(s: Seq<char>, c: char) -> bool {
    forall|i: int| 0 <= i < s.len() ==> #[trigger] s[i] != c
}

/// Whether the words of a command are those of a tool that takes a port: `npm run`, vite,
/// langgraph or uvicorn, in whatever case the latter are written and however they are called.
pub open spec fn is_served(tokens: Seq<Seq<char>>) -> bool {
    (tokens.len() >= 2 && tokens[0] == "npm"@ && tokens[1] == "run"@) || exists|i: int|
        0 <= i < tokens.len() && (lower(#[trigger] tokens[i]) == "vite"@ || holds(
            lower(tokens[i]),
            "langgraph"@,
        ) || holds(lower(tokens[i]), "uvicorn"@))
}

/// The last place of a character that does not occur behind it.
pub proof fn lemma_last_at(a: Seq<char>, c: char, b: Seq<char>)
    requires
        lacks(b, c),
    ensures
        rfind(a + seq![c] + b, seq![c]) == Some(a.len() as int),
{
    let s = a + seq![c] + b;
    let n = a.len() as int;
    lemma_rfind_from(s, seq![c], s.len() - 1);
    assert(s.subrange(n, n + 1) == seq![c]);
    assert(matches_at(s, seq![c], n));
    assert forall|j: int| n < j implies !matches_at(s, seq![c], j) by {
        if matches_at(s, seq![c], j) {
            assert(s.subrange(j, j + 1)[0] == s[j]);
            assert(s[j] == b[j - n - 1]);
        }
    }
}

proof fn lemma_nowhere(s: Seq<char>, c: char)
    requires
        lacks(s, c),
    ensures
        rfind(s, seq![c]) is None,
        find(s, seq![c]) is None,
{
    lemma_rfind_from(s, seq![c], s.len() - 1);
    lemma_find_from(s, seq![c], 0);
    if let Some(j) = rfind(s, seq![c]) {
        assert(s.subrange(j, j + 1)[0] == s[j]);
    }
    if let Some(j) = find(s, seq![c]) {
        assert(s.subrange(j, j + 1)[0] == s[j]);
    }
}

/// A command in an array that takes a port and has none gets it as its last elements, `npm run`
/// behind `--`; one that a shell runs gets it at the end of its last string.
pub proof fn law_arrays_get_a_port(
    head: Seq<char>,
    tail: Seq<char>,
    inner: Seq<char>,
    rest: Seq<char>,
    port: nat,
)
    requires
        lacks(tail, ']'),
        lacks(rest, '"'),
        is_served(tokens_of(head + "]"@ + tail)),
        !holds(head + "]"@ + tail, "--port"@),
    ensures
        ({
            let line = head + "]"@ + tail;
            let tokens = tokens_of(line);
            let out = command_change(line, Some(port as int));
            let npm = tokens.len() >= 2 && tokens[0] == "npm"@ && tokens[1] == "run"@;
            let shell = tokens.len() >= 3 && tokens[0] == "sh"@;
            &&& npm ==> out == Some(head + ", \"--\", \"--port\", \""@ + decimal(port) + "\"]"@)
            &&& !npm && !shell ==> out == Some(
                head + ", \"--port\", \""@ + decimal(port) + "\"]"@,
            )
            &&& !npm && shell && head == inner + "\""@ + rest ==> out == Some(
                inner + " --port "@ + decimal(port) + "\""@ + rest + "]"@ + tail,
            )
        }),
{
    reveal_strlit("]");
    reveal_strlit("\"");
    reveal_strlit("\"]");
    let line = head + "]"@ + tail;
    let tokens = tokens_of(line);
    let n = decimal(port);
    assert("]"@ == seq![']']);
    assert("\""@ == seq!['"']);
    lemma_last_at(head, ']', tail);
    lemma_served(tokens);
    lemma_find_from(line, "--port"@, 0);
    assert(npm_migrated(line, port) is None);
    assert(line.take(head.len() as int) == head);
    assert("\"]"@ == "\""@ + "]"@);
    assert(head + (", \"--\", \"--port\", \""@ + n + "\""@) + "]"@ == head
        + ", \"--\", \"--port\", \""@ + n + "\"]"@);
    assert(head + (", \"--port\", \""@ + n + "\""@) + "]"@ == head + ", \"--port\", \""@ + n
        + "\"]"@);
    if head == inner + "\""@ + rest {
        lemma_last_at(inner, '"', rest);
        let k = inner.len() as int;
        assert(line.take(k) == inner);
        assert(line.skip(k) == "\""@ + rest + "]"@ + tail);
        assert(inner + (" --port "@ + n) + ("\""@ + rest + "]"@ + tail) == inner + " --port "@ + n
            + "\""@ + rest + "]"@ + tail);
        lemma_shell_is_not_npm();
    }
}

proof fn lemma_shell_is_not_npm()
    ensures
        "sh"@ != "npm"@,
{
    reveal_strlit("sh");
    reveal_strlit("npm");
    assert("sh"@.len() == 2 && "npm"@.len() == 3);
}

proof fn lemma_served(tokens: Seq<Seq<char>>)
    ensures
        takes_port(tokens) <==> is_served(tokens),
{
}

/// A command in a string that takes a port and has none gets it at the end of the string; one
/// that takes none, and one whose process has none, stays.
pub proof fn law_strings_get_a_port(a: Seq<char>, b: Seq<char>, port: nat, other: Seq<char>)
    requires
        lacks(a, ']'),
        lacks(b, ']'),
        lacks(b, '"'),
        is_served(tokens_of(a + "\""@ + b)),
        !holds(a + "\""@ + b, "--port"@),
        !is_served(tokens_of(other)),
        !holds(other, "--port"@),
    ensures
        command_change(a + "\""@ + b, Some(port as int)) == Some(
            a + " --port "@ + decimal(port) + "\""@ + b,
        ),
        command_change(a + "\""@ + b, None) is None,
        command_change(other, Some(port as int)) is None,
        command_change(other, None) is None,
{
    reveal_strlit("]");
    reveal_strlit("\"");
    let line = a + "\""@ + b;
    assert("]"@ == seq![']']);
    assert("\""@ == seq!['"']);
    lemma_served(tokens_of(line));
    lemma_served(tokens_of(other));
    assert(lacks(line, ']')) by {
        assert forall|i: int| 0 <= i < line.len() implies #[trigger] line[i] != ']' by {
            if i < a.len() {
                assert(line[i] == a[i]);
            } else if i > a.len() {
                assert(line[i] == b[i - a.len() - 1]);
            }
        }
    }
    lemma_nowhere(line, ']');
    lemma_last_at(a, '"', b);
    lemma_find_from(line, "--port"@, 0);
    assert(line.take(a.len() as int) == a);
    assert(line.skip(a.len() as int) == "\""@ + b);
    assert(a + (" --port "@ + decimal(port)) + ("\""@ + b) == a + " --port "@ + decimal(port)
        + "\""@ + b);
}

// ---------------------------------------------------------------------------
// Exchanging a port
// ---------------------------------------------------------------------------

/// Exchanging the one occurrence of a text.
proof fn lemma_exchange(a: Seq<char>, from: Seq<char>, to: Seq<char>, b: Seq<char>, i: int)
    requires
        0 <= i <= a.len(),
        from.len() > 0,
        forall|j: int| j != a.len() ==> !(#[trigger] matches_at(a + from + b, from, j)),
    ensures
        replaced_from(a + from + b, from, to, i) == a.skip(i) + to + b,
    decreases a.len() - i,
{
    let s = a + from + b;
    if i < a.len() {
        lemma_exchange(a, from, to, b, i + 1);
        assert(s[i] == a[i]);
        assert(seq![s[i]] + (a.skip(i + 1) + to + b) == a.skip(i) + to + b);
    } else {
        let n = a.len() as int;
        assert(s.subrange(n, n + from.len()) == from);
        assert(matches_at(s, from, n));
        let e = n + from.len();
        assert forall|j: int| e <= j implies !matches_at(s, from, j) by {}
        lemma_replaced_absent(s, from, to, e);
        assert(s.skip(e) == b);
        assert(a.skip(n) == Seq::<char>::empty());
        assert(to + b == Seq::<char>::empty() + to + b);
    }
}

/// Where a flag stands only once, so does the flag with a port.
proof fn lemma_flag_once(a: Seq<char>, x: Seq<char>, b: Seq<char>)
    requires
        x.len() >= 6,
        x.take(6) == "--port"@,
        forall|j: int| j != a.len() ==> !(#[trigger] matches_at(a + x + b, "--port"@, j)),
    ensures
        forall|j: int| j != a.len() ==> !(#[trigger] matches_at(a + x + b, x, j)),
        find(a + x + b, "--port"@) == Some(a.len() as int),
        (a + x + b).skip(a.len() as int) == x + b,
{
    reveal_strlit("--port");
    let s = a + x + b;
    let n = a.len() as int;
    assert forall|j: int| j != n implies !(#[trigger] matches_at(s, x, j)) by {
        if matches_at(s, x, j) {
            assert(s.subrange(j, j + 6) == s.subrange(j, j + x.len()).take(6));
            assert(matches_at(s, "--port"@, j));
        }
    }
    assert(s.subrange(n, n + 6) == x.take(6));
    assert(matches_at(s, "--port"@, n));
    lemma_find_from(s, "--port"@, 0);
    assert(s.skip(n) == x + b);
}

proof fn lemma_first_at(a: Seq<char>, c: char, b: Seq<char>)
    requires
        lacks(a, c),
    ensures
        find(a + seq![c] + b, seq![c]) == Some(a.len() as int),
        cut(a + seq![c] + b, seq![c]) == Some((a, b)),
{
    let s = a + seq![c] + b;
    let n = a.len() as int;
    lemma_find_from(s, seq![c], 0);
    assert(s.subrange(n, n + 1) == seq![c]);
    assert(matches_at(s, seq![c], n));
    assert forall|j: int| 0 <= j < n implies !matches_at(s, seq![c], j) by {
        if matches_at(s, seq![c], j) {
            assert(s.subrange(j, j + 1)[0] == s[j]);
            assert(s[j] == a[j]);
        }
    }
    assert(s.take(n) == a);
    assert(s.skip(n + 1) == b);
}

proof fn lemma_digits_are_plain(n: nat)
    ensures
        lacks(decimal(n), '"'),
        lacks(decimal(n), ','),
{
    lemma_decimal_value(n);
    assert forall|i: int| 0 <= i < decimal(n).len() implies (#[trigger] decimal(n)[i]) != '"'
        && decimal(n)[i] != ',' by {
        assert(is_digit(decimal(n)[i]));
    }
}

/// A port that a command has, as elements of its array, gives way to that of its process; all
/// else stays. Left out are `npm run` commands, whose flag may move behind `--`.
pub proof fn law_ports_in_arrays_are_exchanged(
    a: Seq<char>,
    b: Seq<char>,
    current: nat,
    port: nat,
)
    requires
        current <= 65535,
        ({
            let line = a + ("--port\", \""@ + decimal(current) + "\""@) + b;
            let tokens = tokens_of(line);
            &&& is_served(tokens)
            &&& !(tokens.len() >= 2 && tokens[0] == "npm"@ && tokens[1] == "run"@)
            &&& forall|j: int| j != a.len() ==> !(#[trigger] matches_at(line, "--port"@, j))
        }),
        current != port,
    ensures
        command_change(
            a + ("--port\", \""@ + decimal(current) + "\""@) + b,
            Some(port as int),
        ) == Some(a + ("--port\", \""@ + decimal(port) + "\""@) + b),
{
    reveal_strlit("--port");
    reveal_strlit("--port\", \"");
    reveal_strlit("\"");
    reveal_strlit(",");
    let x = "--port\", \""@ + decimal(current) + "\""@;
    let y = "--port\", \""@ + decimal(port) + "\""@;
    let line = a + x + b;
    lemma_served(tokens_of(line));
    assert(x.take(6) == "--port"@);
    lemma_flag_once(a, x, b);
    let flag = x + b;
    assert("\""@ == seq!['"'] && ","@ == seq![',']);
    let head = "--port\""@;
    reveal_strlit("--port\"");
    let d = decimal(current);
    let rest = seq![' '] + seq!['"'] + (d + seq!['"'] + b);
    assert(flag == head + seq![','] + rest);
    lemma_first_at(head, ',', rest);
    let comma = flag.skip(head.len() as int);
    assert(comma == seq![',', ' '] + seq!['"'] + (d + seq!['"'] + b));
    lemma_first_at(seq![',', ' '], '"', d + seq!['"'] + b);
    lemma_digits_are_plain(current);
    lemma_first_at(d, '"', b);
    assert(quoted_after_comma(flag) == Some(d));
    law_decimal_parses_back(current, 65535);
    lemma_exchange(a, x, y, b, 0);
    assert(a.skip(0) == a);
    assert(array_port_changed(line, flag, port as int) == Some(a + y + b));
}

proof fn lemma_digit_run(d: Seq<char>, b: Seq<char>, i: int)
    requires
        0 <= i <= d.len(),
        forall|j: int| 0 <= j < d.len() ==> is_digit(#[trigger] d[j]),
        b.len() > 0 ==> !is_digit(b[0]),
    ensures
        digit_run(d + b, i) == d.len(),
    decreases d.len() - i,
{
    let s = d + b;
    if i < d.len() {
        assert(s[i] == d[i]);
        lemma_digit_run(d, b, i + 1);
    } else if b.len() > 0 {
        assert(s[i] == b[0]);
    }
}

/// A port that a command has within a string gives way to that of its process; all else stays.
/// Left out are `npm run` commands, and lines with a comma behind the port.
pub proof fn law_ports_in_strings_are_exchanged(
    a: Seq<char>,
    b: Seq<char>,
    current: nat,
    port: nat,
)
    requires
        current <= 65535,
        lacks(b, ','),
        b.len() > 0 ==> !is_digit(b[0]),
        ({
            let line = a + ("--port "@ + decimal(current)) + b;
            let tokens = tokens_of(line);
            &&& is_served(tokens)
            &&& !(tokens.len() >= 2 && tokens[0] == "npm"@ && tokens[1] == "run"@)
            &&& forall|j: int| j != a.len() ==> !(#[trigger] matches_at(line, "--port"@, j))
        }),
        current != port,
    ensures
        command_change(a + ("--port "@ + decimal(current)) + b, Some(port as int)) == Some(
            a + ("--port "@ + decimal(port)) + b,
        ),
{
    reveal_strlit("--port");
    reveal_strlit("--port ");
    reveal_strlit("\"");
    reveal_strlit(",");
    let x = "--port "@ + decimal(current);
    let y = "--port "@ + decimal(port);
    let line = a + x + b;
    let d = decimal(current);
    lemma_served(tokens_of(line));
    lemma_decimal_value(current);
    lemma_digits_are_plain(current);
    assert(x.take(6) == "--port"@);
    lemma_flag_once(a, x, b);
    let flag = x + b;
    assert("\""@ == seq!['"'] && ","@ == seq![',']);
    assert(lacks(flag, ',')) by {
        assert forall|i: int| 0 <= i < flag.len() implies #[trigger] flag[i] != ',' by {
            if 7 <= i < 7 + d.len() {
                assert(flag[i] == d[i - 7]);
            } else if i >= 7 + d.len() {
                assert(flag[i] == b[i - 7 - d.len()]);
            }
        }
    }
    lemma_nowhere(flag, ',');
    let nothing = flag.skip(flag.len() as int);
    assert(nothing == Seq::<char>::empty());
    lemma_nowhere(nothing, '"');
    assert(quoted_after_comma(flag) is None);
    assert(flag.subrange(0, 6) == "--port"@);
    let rest = flag.skip(6);
    assert(rest[0] == ' ' && is_space(' '));
    assert(rest.skip(1) == d + b);
    assert((d + b)[0] == d[0]);
    assert(is_digit(d[0]));
    reveal_with_fuel(trimmed_start, 2);
    assert(trimmed_start(rest) == d + b);
    lemma_digit_run(d, b, 0);
    assert((d + b).take(d.len() as int) == d);
    assert(digits_after_flag(flag) == d);
    law_decimal_parses_back(current, 65535);
    lemma_exchange(a, x, y, b, 0);
    assert(a.skip(0) == a);
    assert(text_port_changed(line, flag, port as int) == Some(a + y + b));
}

// ---------------------------------------------------------------------------
// Words of a command
// ---------------------------------------------------------------------------

proof fn lemma_quoted_shift(s: Seq<char>, k: int, i: int, open: Option<int>)
    requires
        0 <= k <= i,
        k <= s.len(),
        open matches Some(o) ==> k <= o <= i,
    ensures
        quoted_from(s, i, open) == quoted_from(
            s.skip(k),
            i - k,
            match open {
                Some(o) => Some(o - k),
                None => None,
            },
        ),
    decreases s.len() - i,
{
    let t = s.skip(k);
    if i < s.len() {
        assert(t[i - k] == s[i]);
        if s[i] == '"' {
            lemma_quoted_shift(s, k, i + 1, None);
            lemma_quoted_shift(s, k, i + 1, Some(i + 1));
            if let Some(o) = open {
                assert(s.subrange(o, i) == t.subrange(o - k, i - k));
            }
        } else {
            lemma_quoted_shift(s, k, i + 1, open);
        }
    }
}

proof fn lemma_quoted_skip(s: Seq<char>, i: int, e: int, open: Option<int>)
    requires
        0 <= i <= e <= s.len(),
        forall|j: int| i <= j < e ==> #[trigger] s[j] != '"',
    ensures
        quoted_from(s, i, open) == quoted_from(s, e, open),
    decreases e - i,
{
    if i < e {
        lemma_quoted_skip(s, i + 1, e, open);
    }
}

/// The quoted parts of a text are read from left to right: what stands before the first quote
/// counts for nothing, what stands up to the next is the first part, and what follows is read in
/// the same way. A text without quotes, or with one that is never closed, has none.
pub proof fn law_quoted_parts_are_read(a: Seq<char>, part: Seq<char>, rest: Seq<char>)
    requires
        lacks(a, '"'),
        lacks(part, '"'),
    ensures
        quoted_from(a + seq!['"'] + part + seq!['"'] + rest, 0, None) == seq![part] + quoted_from(
            rest,
            0,
            None,
        ),
        quoted_from(a, 0, None) == Seq::<Seq<char>>::empty(),
        quoted_from(a + seq!['"'] + part, 0, None) == Seq::<Seq<char>>::empty(),
{
    let s = a + seq!['"'] + part + seq!['"'] + rest;
    let n = a.len() as int;
    let e = n + 1 + part.len();
    assert forall|j: int| 0 <= j < n implies #[trigger] s[j] != '"' by {
        assert(s[j] == a[j]);
    }
    assert(s[n] == '"' && s[e] == '"');
    assert forall|j: int| n + 1 <= j < e implies #[trigger] s[j] != '"' by {
        assert(s[j] == part[j - n - 1]);
    }
    lemma_quoted_skip(s, 0, n, None);
    lemma_quoted_skip(s, n + 1, e, Some(n + 1));
    assert(s.subrange(n + 1, e) == part);
    lemma_quoted_shift(s, e + 1, e + 1, None);
    assert(s.skip(e + 1) == rest);
    lemma_quoted_skip(a, 0, n, None);
    let t = a + seq!['"'] + part;
    assert forall|j: int| 0 <= j < n implies #[trigger] t[j] != '"' by {
        assert(t[j] == a[j]);
    }
    assert forall|j: int| n + 1 <= j < e implies #[trigger] t[j] != '"' by {
        assert(t[j] == part[j - n - 1]);
    }
    assert(t[n] == '"');
    lemma_quoted_skip(t, 0, n, None);
    lemma_quoted_skip(t, n + 1, e, Some(n + 1));
}

/// The words of a command are the quoted parts behind the equals sign, or, where there is only
/// one, the words within it.
pub proof fn law_words_of_commands(left: Seq<char>, right: Seq<char>)
    requires
        lacks(left, '='),
    ensures
        ({
            let quoted = quoted_from(right, 0, None);
            tokens_of(left + "="@ + right) == (if quoted.len() == 1 {
                words(quoted[0])
            } else {
                quoted
            })
        }),
{
    reveal_strlit("=");
    assert("="@ == seq!['=']);
    lemma_first_at(left, '=', right);
}

// ---------------------------------------------------------------------------
// The port of a process
// ---------------------------------------------------------------------------

pub proof fn lemma_first_value(env: Seq<EnvModel>, key: Seq<char>, i: int, k: int)
    requires
        0 <= i <= k <= env.len(),
        k < env.len() ==> upper(env[k].key) == key,
        forall|j: int| i <= j < k ==> upper((#[trigger] env[j]).key) != key,
    ensures
        first_value(env, key, i) == (if k < env.len() {
            Some(env[k].value)
        } else {
            None
        }),
    decreases k - i,
{
    if i < k {
        lemma_first_value(env, key, i + 1, k);
    }
}

pub proof fn lemma_first_named(ports: Seq<(Seq<char>, int)>, name: Seq<char>, i: int, k: int)
    requires
        0 <= i <= k <= ports.len(),
        k < ports.len() ==> ports[k].0 == name,
        forall|j: int| i <= j < k ==> (#[trigger] ports[j]).0 != name,
    ensures
        first_named(ports, name, i) == (if k < ports.len() {
            Some(ports[k].1)
        } else {
            None
        }),
    decreases k - i,
{
    if i < k {
        lemma_first_named(ports, name, i + 1, k);
    }
}

/// The port of a process is the one that the first variable of its name gives, in any case; where
/// there is none, or it is no port, the first port of a service of its name; else there is none.
pub proof fn law_processes_take_their_ports(
    process: Seq<char>,
    env: Seq<EnvModel>,
    ports: Seq<(Seq<char>, int)>,
    k: int,
    m: int,
)
    requires
        0 <= k <= env.len(),
        k < env.len() ==> upper(env[k].key) == upper(process) + "_PORT"@,
        forall|j: int|
            0 <= j < k ==> upper((#[trigger] env[j]).key) != upper(process) + "_PORT"@,
        0 <= m <= ports.len(),
        m < ports.len() ==> ports[m].0 == upper(process),
        forall|j: int| 0 <= j < m ==> (#[trigger] ports[j]).0 != upper(process),
    ensures
        ({
            let own = parsed(trimmed(env[k].value), 65535);
            let port = process_port(process, env, ports);
            &&& k < env.len() && own is Some ==> port == own
            &&& (k == env.len() || own is None) && m < ports.len() ==> port == Some(ports[m].1)
            &&& (k == env.len() || own is None) && m == ports.len() ==> port is None
        }),
{
    lemma_first_value(env, upper(process) + "_PORT"@, 0, k);
    lemma_first_named(ports, upper(process), 0, m);
}

} // verus!
