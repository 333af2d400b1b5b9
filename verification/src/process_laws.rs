//! Laws of the commands of processes: which lines of a manifest stay, and that taking a flag out
//! undoes putting it in.

use crate::env_laws::{is_one_line, lemma_lines_are_lines, lemma_trimmed};
use crate::models::EnvModel;
use crate::process_ports::{
    array_flag, close_at, command_change, digit_run, digits_after_flag, insert_at, is_npm_run,
    is_process_command, npm_flag, process_before, process_port, quoted_after_comma, service_ports,
    synced_commands, synced_line, synced_lines, text_flag, tokens_of, with_port_flag, without,
    without_port_flag,
};
use crate::rewrite::{ends_with_return, law_exchanged_lines_are_read_back};
use crate::text::{
    after_prefix, all_digits, decimal, ends, find, holds, is_digit, is_space,
    law_decimal_parses_back, lemma_decimal_value, lemma_find_from, lemma_holds,
    lemma_replaced_absent, lemma_rfind_from, lines, matches_at, parsed, replaced, replaced_from,
    rfind, starts, trimmed, trimmed_start,
};
use vstd::prelude::*;
use vstd::string::*;

verus! {

// ---------------------------------------------------------------------------
// Replacing within a line
// ---------------------------------------------------------------------------

/// What stands before the first occurrence is left alone.
proof fn lemma_replaced_keeps_head(s: Seq<char>, p: Seq<char>, q: Seq<char>, i: int, n: int)
    requires
        0 <= i <= n <= s.len(),
        p.len() > 0,
        forall|j: int| i <= j < n ==> !matches_at(s, p, j),
    ensures
        replaced_from(s, p, q, i) == s.subrange(i, n) + replaced_from(s, p, q, n),
    decreases n - i,
{
    if i < n {
        lemma_replaced_keeps_head(s, p, q, i + 1, n);
        assert(s.subrange(i, n) == seq![s[i]] + s.subrange(i + 1, n));
    } else {
        assert(s.subrange(i, n) == Seq::<char>::empty());
    }
}

/// A single occurrence is exchanged where it stands.
proof fn lemma_replaced_single(s: Seq<char>, p: Seq<char>, q: Seq<char>, k: int)
    requires
        p.len() > 0,
        matches_at(s, p, k),
        forall|j: int| matches_at(s, p, j) ==> j == k,
    ensures
        replaced(s, p, q) == s.take(k) + q + s.skip(k + p.len()),
{
    lemma_replaced_keeps_head(s, p, q, 0, k);
    lemma_replaced_absent(s, p, q, k + p.len());
    assert(s.subrange(0, k) == s.take(k));
}

/// Replacing within one line by texts of one line gives one line.
proof fn lemma_replaced_is_one_line(s: Seq<char>, p: Seq<char>, q: Seq<char>, i: int)
    requires
        p.len() > 0,
        is_one_line(s),
        is_one_line(q),
        0 <= i <= s.len(),
    ensures
        is_one_line(replaced_from(s, p, q, i)),
    decreases s.len() - i,
{
    if i < s.len() {
        let out = replaced_from(s, p, q, i);
        let (first, next) = if matches_at(s, p, i) {
            (q, i + p.len())
        } else {
            (seq![s[i]], i + 1)
        };
        lemma_replaced_is_one_line(s, p, q, next);
        let rest = replaced_from(s, p, q, next);
        assert(out == first + rest);
        lemma_one_line_joins(first, rest);
    }
}

proof fn lemma_one_line_joins(a: Seq<char>, b: Seq<char>)
    requires
        is_one_line(a),
        is_one_line(b),
    ensures
        is_one_line(a + b),
{
    let s = a + b;
    assert forall|i: int| 0 <= i < s.len() implies #[trigger] s[i] != '\n' by {
        if i < a.len() {
            assert(s[i] == a[i]);
        } else {
            assert(s[i] == b[i - a.len()]);
        }
    }
}

proof fn lemma_one_line_parts(s: Seq<char>, k: int)
    requires
        is_one_line(s),
        0 <= k <= s.len(),
    ensures
        is_one_line(s.take(k)),
        is_one_line(s.skip(k)),
{
    assert forall|i: int| 0 <= i < s.take(k).len() implies #[trigger] s.take(k)[i] != '\n' by {
        assert(s.take(k)[i] == s[i]);
    }
    assert forall|i: int| 0 <= i < s.skip(k).len() implies #[trigger] s.skip(k)[i] != '\n' by {
        assert(s.skip(k)[i] == s[k + i]);
    }
}

proof fn lemma_decimal_is_one_line(n: nat)
    ensures
        is_one_line(decimal(n)),
{
    lemma_decimal_value(n);
    assert forall|i: int| 0 <= i < decimal(n).len() implies #[trigger] decimal(n)[i] != '\n' by {
        assert(is_digit(decimal(n)[i]));
    }
}

// ---------------------------------------------------------------------------
// Lines that give a command
// ---------------------------------------------------------------------------

/// Whether the first character of a line that is no white space is the letter c, at `k`.
spec fn starts_with_c(s: Seq<char>, k: int) -> bool {
    &&& 0 <= k < s.len()
    &&& s[k] == 'c'
    &&& forall|j: int| 0 <= j < k ==> is_space(#[trigger] s[j])
}

proof fn lemma_command_starts_with_c(line: Seq<char>) -> (k: int)
    requires
        starts(trimmed(line), "command"@),
    ensures
        starts_with_c(line, k),
{
    reveal_strlit("command");
    let t = trimmed(line);
    let r = lemma_trimmed(line);
    assert(t.subrange(0, 7)[0] == t[0]);
    assert(t[0] == line[r.0]);
    r.0
}

/// A text that starts with a comma or a dash, or with a space and a dash, and holds none of the
/// line's beginning is replaced behind that.
proof fn lemma_replaced_keeps_start(s: Seq<char>, p: Seq<char>, q: Seq<char>, k: int)
    requires
        starts_with_c(s, k),
        is_one_line(s),
        is_one_line(q),
        p.len() > 1,
        p[0] == ',' || p[0] == '-' || (p[0] == ' ' && p[1] == '-'),
    ensures
        starts_with_c(replaced(s, p, q), k),
        is_one_line(replaced(s, p, q)),
{
    assert forall|j: int| 0 <= j < k + 1 implies !matches_at(s, p, j) by {
        if matches_at(s, p, j) {
            assert(s.subrange(j, j + p.len())[0] == s[j]);
            assert(s.subrange(j, j + p.len())[1] == s[j + 1]);
            if j < k {
                assert(is_space(s[j]));
                if j + 1 < k {
                    assert(is_space(s[j + 1]));
                }
            }
        }
    }
    lemma_replaced_keeps_head(s, p, q, 0, k + 1);
    lemma_replaced_is_one_line(s, p, q, 0);
    let out = replaced(s, p, q);
    assert forall|j: int| 0 <= j < k + 1 implies #[trigger] out[j] == s[j] by {
        assert(out[j] == s.subrange(0, k + 1)[j]);
    }
}

/// Taking the flag out of a command keeps its beginning.
proof fn lemma_without_flag_keeps_start(line: Seq<char>, k: int)
    requires
        starts_with_c(line, k),
        is_one_line(line),
    ensures
        without_port_flag(line) matches Some(to) ==> starts_with_c(to, k) && is_one_line(to),
{
    reveal_strlit("");
    reveal_strlit(", \"--\", \"--port\", \"");
    reveal_strlit(", \"--port\", \"");
    reveal_strlit(" --port ");
    if let Some(n) = find(line, "--port"@) {
        let flag = line.skip(n);
        let number = digits_after_flag(flag);
        if let Some(quoted) = quoted_after_comma(flag) {
            lemma_replaced_keeps_start(line, npm_flag(quoted), ""@, k);
            lemma_replaced_keeps_start(line, array_flag(quoted), ""@, k);
        }
        lemma_replaced_keeps_start(line, text_flag(number), ""@, k);
    }
}

/// Putting the flag into a command keeps its beginning.
proof fn lemma_with_flag_keeps_start(line: Seq<char>, port: nat, k: int)
    requires
        starts_with_c(line, k),
        is_one_line(line),
    ensures
        with_port_flag(line, port) matches Some(to) ==> starts_with_c(to, k) && is_one_line(to),
{
    reveal_strlit("]");
    reveal_strlit("\"");
    reveal_strlit(", \"--\", \"--port\", \"");
    reveal_strlit(", \"--port\", \"");
    reveal_strlit(" --port ");
    let n = decimal(port);
    lemma_decimal_is_one_line(port);
    lemma_one_line_joins(", \"--\", \"--port\", \""@, n);
    lemma_one_line_joins(", \"--\", \"--port\", \""@ + n, "\""@);
    lemma_one_line_joins(", \"--port\", \""@, n);
    lemma_one_line_joins(", \"--port\", \""@ + n, "\""@);
    lemma_one_line_joins(" --port "@, n);
    lemma_rfind_from(line, "]"@, line.len() - 1);
    lemma_rfind_from(line, "\""@, line.len() - 1);
    match rfind(line, "]"@) {
        Some(b) => {
            lemma_cut_keeps_start(line, "]"@, b, k);
            lemma_put_in_keeps_start(line, b, npm_flag(n), "]"@, k);
            lemma_put_in_keeps_start(line, b, array_flag(n), "]"@, k);
            let head = line.take(b);
            lemma_rfind_from(head, "\""@, head.len() - 1);
            if let Some(q) = rfind(head, "\""@) {
                assert(head.subrange(q, q + 1) == line.subrange(q, q + 1));
                assert(matches_at(line, "\""@, q));
                lemma_cut_keeps_start(line, "\""@, q, k);
                lemma_one_line_parts(line, q);
                lemma_put_in_keeps_start(line, q, text_flag(n), line.skip(q), k);
            }
        },
        None => {
            if let Some(q) = rfind(line, "\""@) {
                lemma_cut_keeps_start(line, "\""@, q, k);
                lemma_one_line_parts(line, q);
                lemma_put_in_keeps_start(line, q, text_flag(n), line.skip(q), k);
            }
        },
    }
}

proof fn lemma_cut_keeps_start(line: Seq<char>, mark: Seq<char>, b: int, k: int)
    requires
        starts_with_c(line, k),
        mark.len() == 1,
        mark[0] == ']' || mark[0] == '"',
        matches_at(line, mark, b),
    ensures
        k < b,
{
    assert(line.subrange(b, b + 1)[0] == line[b]);
    if b < k {
        assert(is_space(line[b]));
    }
}

proof fn lemma_put_in_keeps_start(
    line: Seq<char>,
    b: int,
    extra: Seq<char>,
    tail: Seq<char>,
    k: int,
)
    requires
        starts_with_c(line, k),
        is_one_line(line),
        is_one_line(extra),
        is_one_line(tail),
        k < b <= line.len(),
    ensures
        starts_with_c(line.take(b) + extra + tail, k),
        is_one_line(line.take(b) + extra + tail),
{
    let out = line.take(b) + extra + tail;
    lemma_one_line_parts(line, b);
    lemma_one_line_joins(line.take(b), extra);
    lemma_one_line_joins(line.take(b) + extra, tail);
    assert forall|j: int| 0 <= j < k + 1 implies #[trigger] out[j] == line[j] by {}
}

/// What a command line becomes is one line and not empty.
proof fn lemma_command_change(line: Seq<char>, port: Option<int>)
    requires
        is_one_line(line),
        starts(trimmed(line), "command"@),
    ensures
        command_change(line, port) matches Some(to) ==> is_one_line(to) && to.len() > 0,
{
    let k = lemma_command_starts_with_c(line);
    lemma_without_flag_keeps_start(line, k);
    if let Some(p) = port {
        lemma_with_flag_keeps_start(line, p as nat, k);
        if let Some(cleaned) = without_port_flag(line) {
            lemma_with_flag_keeps_start(cleaned, p as nat, k);
        }
        if let Some(n) = find(line, "--port"@) {
            let flag = line.skip(n);
            reveal_strlit("--port\", \"");
            reveal_strlit("--port ");
            reveal_strlit("\"");
            lemma_decimal_is_one_line(p as nat);
            lemma_one_line_joins("--port\", \""@, decimal(p as nat));
            lemma_one_line_joins("--port\", \""@ + decimal(p as nat), "\""@);
            lemma_one_line_joins("--port "@, decimal(p as nat));
            if let Some(q) = quoted_after_comma(flag) {
                if let Some(current) = parsed(q, 65535) {
                    lemma_replaced_keeps_start(
                        line,
                        "--port\", \""@ + decimal(current as nat) + "\""@,
                        "--port\", \""@ + decimal(p as nat) + "\""@,
                        k,
                    );
                }
            }
            if let Some(current) = parsed(digits_after_flag(flag), 65535) {
                lemma_replaced_keeps_start(
                    line,
                    "--port "@ + decimal(current as nat),
                    "--port "@ + decimal(p as nat),
                    k,
                );
            }
        }
    }
}

/// Of a manifest only the commands of processes change: there are as many lines as before, each
/// that gives no such command is as it was, and each that does is what its change gives. The
/// port of a process does not get into a task.
pub proof fn law_only_process_commands_change(content: Seq<char>, env: Seq<EnvModel>)
    ensures
        ({
            let ls = lines(content);
            let after = lines(synced_commands(content, env));
            let ports = service_ports(content);
            &&& after.len() == ls.len()
            &&& forall|i: int|
                0 <= i < ls.len() && !is_process_command(ls, i) ==> (#[trigger] after[i]) == ls[i]
            &&& forall|i: int|
                0 <= i < ls.len() && !ends_with_return(synced_line(ls, env, ports, i)) ==> (
                #[trigger] after[i]) == synced_line(ls, env, ports, i)
        }),
{
    let ls = lines(content);
    let ports = service_ports(content);
    let out = synced_lines(ls, env, ports);
    lemma_lines_are_lines(content);
    assert forall|i: int| 0 <= i < out.len() implies is_one_line(#[trigger] out[i]) && (
    ls[i].len() > 0 ==> out[i].len() > 0) by {
        assert(is_one_line(ls[i]));
        if is_process_command(ls, i) {
            lemma_command_change(
                ls[i],
                process_port(process_before(ls, i)->0, env, ports),
            );
        }
    }
    law_exchanged_lines_are_read_back(content, out);
}

// ---------------------------------------------------------------------------
// Putting a flag in and taking it out
// ---------------------------------------------------------------------------

/// Where the flag stands in a line that it was put into: nowhere but within what was put in,
/// `off` behind its start.
proof fn lemma_flag_stands_once(a: Seq<char>, m: Seq<char>, b: Seq<char>, off: int)
    requires
        !holds(a + b, "--port"@),
        0 <= off,
        off + 6 <= m.len(),
        m[0] == ',' || m[0] == ' ',
        forall|t: int|
            0 <= t < m.len() && t != off ==> #[trigger] m[t] != '-' || (t + 2 < m.len() && m[t + 2]
                != 'p'),
        m.subrange(off, off + 6) == "--port"@,
    ensures
        matches_at(a + m + b, "--port"@, a.len() + off),
        forall|j: int| matches_at(a + m + b, "--port"@, j) ==> j == a.len() + off,
{
    reveal_strlit("--port");
    let s = a + m + b;
    let line = a + b;
    let n = a.len() as int;
    lemma_holds(line, "--port"@);
    assert(s.subrange(n + off, n + off + 6) == m.subrange(off, off + 6));
    assert forall|j: int| matches_at(s, "--port"@, j) implies j == n + off by {
        let x = s.subrange(j, j + 6);
        assert(x == "--port"@);
        assert(x[0] == '-' && x[1] == '-' && x[2] == 'p' && x[3] == 'o' && x[4] == 'r' && x[5]
            == 't');
        if j + 6 <= n {
            assert(line.subrange(j, j + 6) == x);
            assert(matches_at(line, "--port"@, j));
        } else if j >= n + m.len() {
            assert(line.subrange(j - m.len(), j - m.len() + 6) == x);
            assert(matches_at(line, "--port"@, j - m.len()));
        } else if j < n {
            assert(x[n - j] == s[n]);
            assert(s[n] == m[0]);
        } else {
            let t = j - n;
            assert(s[j] == m[t]);
            if t != off {
                assert(m[t] == '-');
                assert(s[j + 2] == m[t + 2]);
            }
        }
    }
}

/// A text that holds the flag is found where the flag is.
proof fn lemma_found_with_flag(s: Seq<char>, p: Seq<char>, off: int, k: int)
    requires
        0 <= off,
        off + 6 <= p.len(),
        p.subrange(off, off + 6) == "--port"@,
        forall|j: int| matches_at(s, "--port"@, j) ==> j == k,
    ensures
        forall|j: int| matches_at(s, p, j) ==> j == k - off,
{
    reveal_strlit("--port");
    assert forall|j: int| matches_at(s, p, j) implies j == k - off by {
        assert(s.subrange(j, j + p.len()) == p);
        assert(s.subrange(j, j + p.len()).subrange(off, off + 6) == s.subrange(
            j + off,
            j + off + 6,
        ));
        assert(matches_at(s, "--port"@, j + off));
    }
}

/// The first occurrence of a character is found where it is.
proof fn lemma_find_char(s: Seq<char>, pat: Seq<char>, k: int)
    requires
        pat.len() == 1,
        0 <= k < s.len(),
        s[k] == pat[0],
        forall|j: int| 0 <= j < k ==> #[trigger] s[j] != pat[0],
    ensures
        find(s, pat) == Some(k),
{
    lemma_find_from(s, pat, 0);
    assert(s.subrange(k, k + 1) == pat);
    assert(matches_at(s, pat, k));
    if let Some(j) = find(s, pat) {
        assert(s.subrange(j, j + 1)[0] == s[j]);
    }
}

proof fn lemma_find_no_char(s: Seq<char>, pat: Seq<char>)
    requires
        pat.len() == 1,
        forall|j: int| 0 <= j < s.len() ==> #[trigger] s[j] != pat[0],
    ensures
        find(s, pat) is None,
{
    lemma_find_from(s, pat, 0);
    if let Some(j) = find(s, pat) {
        assert(s.subrange(j, j + 1)[0] == s[j]);
    }
}

/// The port is read behind the flag where both are elements of an array.
proof fn lemma_port_in_array(n: Seq<char>, tail: Seq<char>)
    requires
        all_digits(n),
    ensures
        quoted_after_comma("--port"@ + "\", \""@ + n + "\""@ + tail) == Some(n),
{
    reveal_strlit("--port");
    reveal_strlit("\", \"");
    reveal_strlit("\"");
    reveal_strlit(",");
    let flag = "--port"@ + "\", \""@ + n + "\""@ + tail;
    assert forall|j: int| 0 <= j < 7 implies #[trigger] flag[j] != ',' by {
        assert(flag[j] == ("--port"@ + "\", \""@)[j]);
    }
    assert(flag[7] == ',');
    lemma_find_char(flag, ","@, 7);
    let rest = flag.skip(7);
    assert(rest[0] == ',' && rest[1] == ' ' && rest[2] == '"');
    lemma_find_char(rest, "\""@, 2);
    let behind = rest.skip(3);
    assert(behind == n + "\""@ + tail);
    assert forall|j: int| 0 <= j < n.len() implies #[trigger] behind[j] != '"' by {
        assert(behind[j] == n[j]);
        assert(is_digit(n[j]));
    }
    assert(behind[n.len() as int] == '"');
    lemma_find_char(behind, "\""@, n.len() as int);
    assert(behind.take(n.len() as int) == n);
}

proof fn lemma_digit_run(s: Seq<char>, i: int, n: int)
    requires
        0 <= i <= n < s.len(),
        forall|j: int| i <= j < n ==> is_digit(#[trigger] s[j]),
        !is_digit(s[n]),
    ensures
        digit_run(s, i) == n,
    decreases n - i,
{
    if i < n {
        lemma_digit_run(s, i + 1, n);
    }
}

/// The port is read behind the flag where both stand at the end of a quoted text.
proof fn lemma_port_in_text(n: Seq<char>, tail: Seq<char>)
    requires
        all_digits(n),
        n.len() > 0,
        tail.len() > 0,
        tail[0] == '"',
        forall|j: int| 0 < j < tail.len() ==> #[trigger] tail[j] != '"',
    ensures
        quoted_after_comma("--port "@ + n + tail) is None,
        digits_after_flag("--port "@ + n + tail) == n,
{
    reveal_strlit("--port ");
    reveal_strlit("--port");
    reveal_strlit("\"");
    reveal_strlit(",");
    let flag = "--port "@ + n + tail;
    let m = n.len() as int;
    assert forall|j: int| 0 <= j < 7 + m implies #[trigger] flag[j] != ',' && flag[j] != '"' by {
        if j >= 7 {
            assert(flag[j] == n[j - 7]);
            assert(is_digit(n[j - 7]));
        } else {
            assert(flag[j] == "--port "@[j]);
        }
    }
    assert forall|j: int| 7 + m < j < flag.len() implies #[trigger] flag[j] != '"' by {
        assert(flag[j] == tail[j - 7 - m]);
    }
    assert(flag[7 + m] == '"');
    lemma_find_from(flag, ","@, 0);
    let rest = match find(flag, ","@) {
        Some(k) => flag.skip(k),
        None => flag.skip(flag.len() as int),
    };
    if let Some(k) = find(flag, ","@) {
        assert(flag.subrange(k, k + 1)[0] == flag[k]);
        assert forall|j: int| 0 <= j < rest.len() implies #[trigger] rest[j] != '"' by {
            assert(rest[j] == flag[k + j]);
        }
    }
    lemma_find_no_char(rest, "\""@);
    assert(flag.subrange(0, 6) == "--port"@);
    let behind = flag.skip(6);
    assert(after_prefix(flag, "--port"@) == Some(behind));
    assert(behind[0] == ' ');
    let x = behind.skip(1);
    assert(x == n + tail);
    assert(x[0] == n[0]);
    assert(is_digit(n[0]));
    assert(trimmed_start(x) == x);
    assert(trimmed_start(behind) == x);
    assert forall|j: int| 0 <= j < m implies is_digit(#[trigger] x[j]) by {
        assert(x[j] == n[j]);
    }
    assert(x[m] == '"');
    lemma_digit_run(x, 0, m);
    assert(x.take(m) == n);
}

/// A flag that was put in as elements of an array, at `a`, is taken out again.
proof fn lemma_array_flag_undone(a: Seq<char>, port: nat, npm: bool)
    requires
        port <= 65535,
        !holds(a + "]"@, "--port"@),
        !npm ==> !ends(a, ", \"--\""@),
    ensures
        without_port_flag(
            a + (if npm {
                npm_flag(decimal(port))
            } else {
                array_flag(decimal(port))
            }) + "]"@,
        ) == Some(a + "]"@),
{
    reveal_strlit("--port");
    reveal_strlit("]");
    reveal_strlit("");
    reveal_strlit("\"");
    reveal_strlit("\", \"");
    reveal_strlit(", \"--\"");
    reveal_strlit(", \"--\", \"--port\", \"");
    reveal_strlit(", \"--port\", \"");
    let n = decimal(port);
    lemma_decimal_value(port);
    law_decimal_parses_back(port, 65535);
    let m = if npm {
        npm_flag(n)
    } else {
        array_flag(n)
    };
    let off: int = if npm {
        9
    } else {
        3
    };
    let head = if npm {
        ", \"--\", \"--port\", \""@
    } else {
        ", \"--port\", \""@
    };
    let h = head.len() as int;
    let s = a + m + "]"@;
    assert forall|t: int| 0 <= t < m.len() && t != off implies #[trigger] m[t] != '-' || (t + 2
        < m.len() && m[t + 2] != 'p') by {
        if t < h {
            assert(m[t] == head[t]);
            if t + 2 < h {
                assert(m[t + 2] == head[t + 2]);
            }
        } else if t < h + n.len() {
            assert(m[t] == n[t - h]);
            assert(is_digit(n[t - h]));
        }
    }
    assert(m.subrange(off, off + 6) == "--port"@);
    lemma_flag_stands_once(a, m, "]"@, off);
    let k = a.len() + off;
    lemma_find_from(s, "--port"@, 0);
    assert(find(s, "--port"@) == Some(k as int));
    let flag = s.skip(k as int);
    assert(flag == "--port"@ + "\", \""@ + n + "\""@ + "]"@);
    lemma_port_in_array(n, "]"@);
    let p = npm_flag(n);
    assert(p.subrange(9, 15) == "--port"@);
    lemma_found_with_flag(s, p, 9, k as int);
    lemma_found_with_flag(s, m, off, k as int);
    assert(s.subrange(a.len() as int, (a.len() + m.len()) as int) == m);
    assert(matches_at(s, m, a.len() as int));
    lemma_replaced_single(s, m, ""@, a.len() as int);
    assert(s.take(a.len() as int) == a);
    assert(s.skip((a.len() + m.len()) as int) == "]"@);
    assert(a + ""@ + "]"@ == a + "]"@);
    assert(replaced(s, m, ""@) == a + "]"@);
    assert((a + "]"@).len() < s.len());
    assert(without(s, m) == Some(a + "]"@));
    if !npm {
        assert forall|j: int| 0 <= j implies !matches_at(s, p, j) by {
            if matches_at(s, p, j) {
                assert(j == a.len() - 6);
                assert(s.subrange(j, j + p.len()) == p);
                assert(p.take(6) == ", \"--\""@);
                assert(s.subrange(j, j + p.len()).take(6) == a.subrange(j, j + 6));
                assert(ends(a, ", \"--\""@));
            }
        }
        lemma_replaced_absent(s, p, ""@, 0);
        assert(s.skip(0) == s);
        assert(without(s, p) is None);
    }
}

/// A flag that was put in at the end of a quoted text is taken out again.
proof fn lemma_text_flag_undone(a: Seq<char>, b: Seq<char>, port: nat)
    requires
        port <= 65535,
        !holds(a + b, "--port"@),
        b.len() > 0,
        b[0] == '"',
        forall|j: int| 0 < j < b.len() ==> #[trigger] b[j] != '"',
    ensures
        without_port_flag(a + text_flag(decimal(port)) + b) == Some(a + b),
{
    reveal_strlit("--port");
    reveal_strlit("--port ");
    reveal_strlit("");
    reveal_strlit(" --port ");
    let n = decimal(port);
    lemma_decimal_value(port);
    law_decimal_parses_back(port, 65535);
    let m = text_flag(n);
    let s = a + m + b;
    assert forall|t: int| 0 <= t < m.len() && t != 1 implies #[trigger] m[t] != '-' || (t + 2
        < m.len() && m[t + 2] != 'p') by {
        if t < 8 {
            assert(m[t] == " --port "@[t]);
            if t + 2 < 8 {
                assert(m[t + 2] == " --port "@[t + 2]);
            }
        } else {
            assert(m[t] == n[t - 8]);
            assert(is_digit(n[t - 8]));
        }
    }
    assert(m.subrange(1, 7) == "--port"@);
    lemma_flag_stands_once(a, m, b, 1);
    let k = a.len() + 1;
    lemma_find_from(s, "--port"@, 0);
    assert(find(s, "--port"@) == Some(k as int));
    let flag = s.skip(k as int);
    assert(flag == "--port "@ + n + b);
    lemma_port_in_text(n, b);
    lemma_found_with_flag(s, m, 1, k as int);
    assert(s.subrange(a.len() as int, (a.len() + m.len()) as int) == m);
    assert(matches_at(s, m, a.len() as int));
    lemma_replaced_single(s, m, ""@, a.len() as int);
    assert(s.take(a.len() as int) == a);
    assert(s.skip((a.len() + m.len()) as int) == b);
    assert(a + ""@ + b == a + b);
    assert((a + b).len() < s.len());
    assert(without(s, m) == Some(a + b));
}

/// Whether the flag is put into a line as two elements of an array of its own.
pub open spec fn gets_array_flag(line: Seq<char>) -> bool {
    let tokens = tokens_of(line);
    match rfind(line, "]"@) {
        Some(bracket) => !is_npm_run(tokens) && !(tokens.len() >= 3 && tokens[0] == "sh"@ && rfind(
            line.take(bracket),
            "\""@,
        ) is Some),
        None => false,
    }
}

/// Taking the flag out undoes putting it in, in whichever form, and where there is none nothing
/// is taken out. Left out are lines with more behind the bracket that closes their array, which
/// is dropped when the flag is put in, and arrays that end with `"--"`, which goes with the flag
/// when that is taken out.
pub proof fn law_taking_out_undoes_putting_in(line: Seq<char>, port: nat)
    requires
        port <= 65535,
        !holds(line, "--port"@),
        holds(line, "]"@) ==> line.last() == ']',
        gets_array_flag(line) ==> !ends(line.drop_last(), ", \"--\""@),
    ensures
        with_port_flag(line, port) matches Some(to) ==> without_port_flag(to) == Some(line),
        without_port_flag(line) is None,
{
    lemma_holds(line, "--port"@);
    lemma_find_from(line, "--port"@, 0);
    if rfind(line, "]"@) is Some {
        lemma_undone_in_array(line, port);
    } else {
        lemma_undone_in_text(line, port);
    }
}

proof fn lemma_undone_in_array(line: Seq<char>, port: nat)
    requires
        port <= 65535,
        !holds(line, "--port"@),
        holds(line, "]"@) ==> line.last() == ']',
        gets_array_flag(line) ==> !ends(line.drop_last(), ", \"--\""@),
        rfind(line, "]"@) is Some,
    ensures
        with_port_flag(line, port) matches Some(to) ==> without_port_flag(to) == Some(line),
{
    let b = line.len() - 1;
    let head = line.take(b);
    assert(b >= 0 && line[b] == ']' && rfind(line, "]"@) == Some(b) && head == line.drop_last()
        && head + "]"@ == line) by {
        reveal_strlit("]");
        lemma_holds(line, "]"@);
        lemma_rfind_from(line, "]"@, b);
        assert(line.subrange(b, line.len() as int) == "]"@);
        assert(matches_at(line, "]"@, b));
    }
    let n = decimal(port);
    let tokens = tokens_of(line);
    let quote = rfind(head, "\""@);
    if is_npm_run(tokens) {
        lemma_array_flag_undone(head, port, true);
        assert(with_port_flag(line, port) == Some(close_at(line, b, npm_flag(n))));
    } else if tokens.len() >= 3 && tokens[0] == "sh"@ && quote is Some {
        let q = quote->0;
        assert(with_port_flag(line, port) == Some(insert_at(line, q, text_flag(n))));
        assert(0 <= q < b && line[q] == '"' && forall|j: int|
            q < j < line.len() ==> #[trigger] line[j] != '"') by {
            reveal_strlit("\"");
            lemma_rfind_from(head, "\""@, head.len() - 1);
            assert(head.subrange(q, q + 1)[0] == head[q]);
            assert forall|j: int| q < j < line.len() implies #[trigger] line[j] != '"' by {
                if j < b && line[j] == '"' {
                    assert(head.subrange(j, j + 1) == "\""@);
                    assert(matches_at(head, "\""@, j));
                }
            }
        }
        lemma_text_at(line, q, port);
    } else {
        assert(gets_array_flag(line));
        lemma_array_flag_undone(head, port, false);
        assert(with_port_flag(line, port) == Some(close_at(line, b, array_flag(n))));
    }
}

proof fn lemma_undone_in_text(line: Seq<char>, port: nat)
    requires
        port <= 65535,
        !holds(line, "--port"@),
        rfind(line, "]"@) is None,
    ensures
        with_port_flag(line, port) matches Some(to) ==> without_port_flag(to) == Some(line),
{
    if let Some(q) = rfind(line, "\""@) {
        assert(0 <= q < line.len() && line[q] == '"' && forall|j: int|
            q < j < line.len() ==> #[trigger] line[j] != '"') by {
            reveal_strlit("\"");
            lemma_rfind_from(line, "\""@, line.len() - 1);
            assert(line.subrange(q, q + 1)[0] == line[q]);
            assert forall|j: int| q < j < line.len() implies #[trigger] line[j] != '"' by {
                if line[j] == '"' {
                    assert(line.subrange(j, j + 1) == "\""@);
                    assert(matches_at(line, "\""@, j));
                }
            }
        }
        lemma_text_at(line, q, port);
    }
}

/// The flag put in before the last quote of a line is taken out again.
proof fn lemma_text_at(line: Seq<char>, q: int, port: nat)
    requires
        port <= 65535,
        !holds(line, "--port"@),
        0 <= q < line.len(),
        line[q] == '"',
        forall|j: int| q < j < line.len() ==> #[trigger] line[j] != '"',
    ensures
        without_port_flag(insert_at(line, q, text_flag(decimal(port)))) == Some(line),
{
    let a = line.take(q);
    let b = line.skip(q);
    assert(a + b == line);
    assert forall|j: int| 0 < j < b.len() implies #[trigger] b[j] != '"' by {
        assert(b[j] == line[q + j]);
    }
    lemma_text_flag_undone(a, b, port);
}

} // verus!
