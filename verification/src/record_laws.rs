//! Laws of records: what a spool tells, which instances are repaired, and where commands stand.

use crate::command_laws::{lacks, lemma_last_at};
use crate::logging::{
    compacted, exception_summary, failed_call, field_value, records_from, without_ansi,
};
use crate::mapping_laws::lemma_trimmed_core;
use crate::models::{EnvModel, InstanceModel, LogModel};
use crate::process_ports::{command_change, process_before, process_port, synced_lines};
use crate::run_laws::lemma_cut_at;
use crate::state::{deployed_from, repaired, was_deployed};
use crate::templates::{path_from, title_words_from, unicode_upper};
use crate::text::{
    bytes, cut, ends, find, holds, is_space, lemma_find_from, matches_at, rcut, starts, strip_set,
    strip_set_end, trimmed, words_from,
};
use vstd::prelude::*;
use vstd::string::*;

verus! {

// ---------------------------------------------------------------------------
// Failures
// ---------------------------------------------------------------------------

pub proof fn lemma_last_cut(a: Seq<char>, c: char, b: Seq<char>)
    requires
        lacks(b, c),
    ensures
        rcut(a + seq![c] + b, seq![c]) == Some((a, b)),
{
    let s = a + seq![c] + b;
    let n = a.len() as int;
    lemma_last_at(a, c, b);
    assert(s.take(n) == a);
    assert(s.skip(n + 1) == b);
}

pub proof fn lemma_first_cut(a: Seq<char>, c: char, b: Seq<char>)
    requires
        lacks(a, c),
    ensures
        cut(a + seq![c] + b, seq![c]) == Some((a, b)),
{
    let s = a + seq![c] + b;
    assert forall|j: int| 0 <= j < a.len() implies !(#[trigger] matches_at(s, seq![c], j)) by {
        if matches_at(s, seq![c], j) {
            assert(s.subrange(j, j + 1)[0] == s[j]);
            assert(s[j] == a[j]);
        }
    }
    lemma_cut_at(a, seq![c], b);
}

/// The last line of a traceback names the kind of the exception, behind the package it comes
/// from, and behind a colon the reason. Both are told, without the package; a timeout is told
/// without the reason.
pub proof fn law_exceptions_are_told(package: Seq<char>, kind: Seq<char>, reason: Seq<char>)
    requires
        lacks(package, ':'),
        lacks(kind, ':') && lacks(kind, '.'),
        package.len() > 0,
        !is_space(package[0]),
        kind.len() > 0,
        ends(kind, "Error"@) || ends(kind, "Exception"@) || kind == "KeyboardInterrupt"@,
        reason.len() > 0,
        !is_space(reason[0]) && !is_space(reason.last()),
    ensures
        ({
            let line = package + "."@ + kind + ":"@ + reason;
            exception_summary(line) == Some(
                if kind == "TimeoutError"@ {
                    "Failure reason: TimeoutError (request timeout)"@
                } else {
                    "Failure reason: "@ + kind + ": "@ + reason
                },
            )
        }),
{
    reveal_strlit(".");
    reveal_strlit(":");
    assert("."@ == seq!['.']);
    assert(":"@ == seq![':']);
    let line = package + "."@ + kind + ":"@ + reason;
    let full = package + "."@ + kind;
    assert(line == full + ":"@ + reason);
    assert(line[0] == package[0] && line.last() == reason.last());
    let nothing = Seq::<char>::empty();
    lemma_trimmed_core(nothing, line, nothing);
    assert(nothing + line + nothing == line);
    lemma_trimmed_core(nothing, reason, nothing);
    assert(nothing + reason + nothing == reason);
    assert(lacks(full, ':')) by {
        assert forall|i: int| 0 <= i < full.len() implies #[trigger] full[i] != ':' by {
            if i < package.len() {
                assert(full[i] == package[i]);
            } else if i > package.len() {
                assert(full[i] == kind[i - package.len() - 1]);
            }
        }
    }
    lemma_first_cut(full, ':', reason);
    lemma_last_cut(package, '.', kind);
}

/// While a traceback is left out, the line that ends it is told as the reason of the failure;
/// blank lines and nested tracebacks are left out. Otherwise every line is told as it is, but for
/// a failed call of a tool, after which a traceback is left out.
pub proof fn law_tracebacks_are_left_out(
    value: Seq<char>,
    clean: Seq<char>,
    lowered: Seq<char>,
    suppress: bool,
)
    ensures
        ({
            let failed = holds(lowered, "tool.call.error"@);
            let again = holds(lowered, "traceback (most recent call last)"@) || trimmed(
                clean,
            ).len() == 0;
            let out = compacted(value, clean, lowered, suppress);
            &&& failed ==> out == (Some(failed_call(clean)), true)
            &&& !failed && !suppress ==> out == (Some(value), false)
            &&& !failed && suppress && again ==> out == (None::<Seq<char>>, true)
            &&& !failed && suppress && !again && exception_summary(without_ansi(clean)) is Some
                ==> out == (exception_summary(without_ansi(clean)), false)
            &&& out.0 is Some ==> out.0->0 == value || out.0->0 == failed_call(clean) || out.0
                == exception_summary(without_ansi(clean))
            &&& out.0 is None ==> suppress && out.1
        }),
{
}

proof fn lemma_one_word(s: Seq<char>, b: int, i: int)
    requires
        0 <= i <= b <= s.len(),
        0 < b,
        forall|k: int| 0 <= k < b ==> !is_space(#[trigger] s[k]),
        b < s.len() ==> is_space(s[b]),
    ensures
        words_from(s, 0, i).len() > 0,
        words_from(s, 0, i)[0] == s.take(b),
    decreases b - i,
{
    if i < b {
        lemma_one_word(s, b, i + 1);
    } else if b == s.len() {
        assert(s.skip(0) == s.take(b));
    } else {
        assert(s.subrange(0, b) == s.take(b));
    }
}

/// The value of a field is the word behind its name, without the punctuation around it.
pub proof fn law_fields_are_read(
    a: Seq<char>,
    field: Seq<char>,
    word: Seq<char>,
    rest: Seq<char>,
)
    requires
        forall|j: int|
            0 <= j < a.len() ==> !(#[trigger] matches_at(a + field + (word + rest), field, j)),
        word.len() > 0,
        forall|i: int| 0 <= i < word.len() ==> !is_space(#[trigger] word[i]),
        rest.len() > 0 ==> is_space(rest[0]),
        strip_set(word, ",}'\""@).len() > 0,
    ensures
        field_value(a + field + (word + rest), field) == Some(strip_set(word, ",}'\""@)),
{
    let s = a + field + (word + rest);
    lemma_cut_at(a, field, word + rest);
    let t = word + rest;
    let b = word.len() as int;
    assert forall|k: int| 0 <= k < b implies !is_space(#[trigger] t[k]) by {
        assert(t[k] == word[k]);
    }
    if b < t.len() {
        assert(t[b] == rest[0]);
    }
    lemma_one_word(t, b, 0);
    assert(t.take(b) == word);
    lemma_find_from(s, field, 0);
    let k = find(s, field)->0;
    assert(s.skip(k + field.len()) == t);
}

proof fn lemma_records_shift(
    first: Seq<char>,
    ls: Seq<Seq<char>>,
    i: int,
    position: int,
    partial: bool,
)
    requires
        0 <= i,
    ensures
        records_from(seq![first] + ls, i + 1, position, partial) == records_from(
            ls,
            i,
            position,
            partial,
        ),
    decreases ls.len() - i,
{
    if i < ls.len() {
        assert((seq![first] + ls)[i + 1] == ls[i]);
        let next = if position + bytes(ls[i]) <= u64::MAX {
            position + bytes(ls[i])
        } else {
            u64::MAX as int
        };
        lemma_records_shift(first, ls, i + 1, next, partial);
    }
}

/// A spool is read line by line: each is a record without its line ending, and the place behind
/// it is as far on as the line has bytes. A last line that has no ending yet is read only where
/// that is asked for.
pub proof fn law_spools_are_read_by_lines(
    body: Seq<char>,
    ending: Seq<char>,
    rest: Seq<Seq<char>>,
    position: int,
    partial: bool,
)
    requires
        ending == "\n"@ || ending == "\r\n"@,
        body.len() > 0,
        body.last() != '\r' && body.last() != '\n',
        position + bytes(body + ending) <= u64::MAX,
    ensures
        records_from(seq![body + ending] + rest, 0, position, partial) == seq![
            (body, position + bytes(body + ending)),
        ] + records_from(rest, 0, position + bytes(body + ending), partial),
        position + bytes(body) <= u64::MAX ==> records_from(seq![body], 0, position, partial) == (
        if partial {
            seq![(body, position + bytes(body))]
        } else {
            Seq::empty()
        }),
{
    reveal_strlit("\n");
    reveal_strlit("\r\n");
    let line = body + ending;
    let set = "\r\n"@;
    assert(set[0] == '\r' && set[1] == '\n');
    assert(set.contains('\r') && set.contains('\n'));
    assert(!set.contains(body.last()));
    assert(strip_set_end(body, set) == body);
    assert(strip_set_end(line, set) == body) by {
        if ending == "\n"@ {
            assert(line.last() == '\n');
            assert(line.drop_last() == body);
        } else {
            let shorter = line.drop_last();
            assert(line.last() == '\n');
            assert(shorter.last() == '\r');
            assert(shorter.drop_last() == body);
            assert(strip_set_end(shorter, set) == body);
        }
    }
    assert(line.subrange(line.len() - 1, line.len() as int) == "\n"@);
    let all = seq![line] + rest;
    assert(all[0] == line);
    lemma_records_shift(line, rest, 0, position + bytes(line), partial);
    assert(!ends(body, "\n"@)) by {
        if ends(body, "\n"@) {
            assert(body.subrange(body.len() - 1, body.len() as int)[0] == body.last());
        }
    }
    let next = position + bytes(body);
    assert(records_from(seq![body], 1, next, partial) == Seq::<(Seq<char>, int)>::empty());
    assert(seq![(body, next)] + Seq::<(Seq<char>, int)>::empty() == seq![(body, next)]);
}

// ---------------------------------------------------------------------------
// Repairs
// ---------------------------------------------------------------------------

proof fn lemma_deployed(logs: Seq<LogModel>, id: Seq<char>, i: int)
    requires
        0 <= i,
    ensures
        deployed_from(logs, id, i) <==> exists|k: int|
            i <= k < logs.len() && (#[trigger] logs[k]).category == "install"@ && logs[k].level
                == "success"@ && logs[k].message == "Instance deployment completed"@
                && logs[k].instance_id == Some(id),
    decreases logs.len() - i,
{
    if i < logs.len() {
        lemma_deployed(logs, id, i + 1);
    }
}

/// An instance that waits for a restart though it never ran goes back to where it was: it has no
/// process and no entry of the log tells that its deployment was completed. It is ready to be
/// installed where it has an environment file, and to be configured where not. Any other instance
/// stays as it is.
pub proof fn law_stranded_instances_are_repaired(
    instance: InstanceModel,
    logs: Seq<LogModel>,
    now: u64,
)
    ensures
        ({
            let was_completed = exists|k: int|
                0 <= k < logs.len() && (#[trigger] logs[k]).category == "install"@ && logs[k].level
                    == "success"@ && logs[k].message == "Instance deployment completed"@
                    && logs[k].instance_id == Some(instance.id);
            let is_stranded = instance.status == "needs-restart"@ && instance.pid is None
                && !was_completed;
            let out = repaired(instance, was_deployed(instance, logs), now);
            &&& !is_stranded ==> out == instance
            &&& is_stranded && instance.env_path is Some ==> out == (InstanceModel {
                status: "ready-to-install"@,
                needs_doctor: false,
                updated_at: now,
                ..instance
            })
            &&& is_stranded && instance.env_path is None ==> out == (InstanceModel {
                status: "configuring"@,
                needs_doctor: false,
                updated_at: now,
                ..instance
            })
        }),
{
    lemma_deployed(logs, instance.id, 0);
}

// ---------------------------------------------------------------------------
// Commands
// ---------------------------------------------------------------------------

proof fn lemma_process_open(ls: Seq<Seq<char>>, o: int, k: int, name: Seq<char>)
    requires
        0 <= o < k <= ls.len(),
        trimmed(ls[o]) == "[processes."@ + name + "]"@,
        forall|j: int| o < j < k ==> !starts(trimmed(#[trigger] ls[j]), "["@),
    ensures
        process_before(ls, k) == Some(name),
    decreases k - o,
{
    reveal_strlit("[processes.");
    reveal_strlit("[");
    reveal_strlit("]");
    if k == o + 1 {
        let line = trimmed(ls[o]);
        assert(line.subrange(0, 11) == "[processes."@);
        assert(line.subrange(0, 1) == "["@);
        let tail = line.skip(11);
        assert(tail == name + "]"@);
        assert(tail.subrange(tail.len() - 1, tail.len() as int) == "]"@);
        assert(tail.take(tail.len() - 1) == name);
    } else {
        lemma_process_open(ls, o, k - 1, name);
        assert(!starts(trimmed(ls[k - 1]), "["@));
    }
}

/// A line with a command belongs to the process whose section is open: the last one in brackets
/// before it. It is changed for the port of that process and no other.
pub proof fn law_commands_follow_their_process(
    ls: Seq<Seq<char>>,
    env: Seq<EnvModel>,
    ports: Seq<(Seq<char>, int)>,
    o: int,
    i: int,
    name: Seq<char>,
)
    requires
        0 <= o < i < ls.len(),
        trimmed(ls[o]) == "[processes."@ + name + "]"@,
        forall|j: int| o < j < i ==> !starts(trimmed(#[trigger] ls[j]), "["@),
        starts(trimmed(ls[i]), "command"@),
    ensures
        synced_lines(ls, env, ports)[i] == (match command_change(
            ls[i],
            process_port(name, env, ports),
        ) {
            Some(to) => to,
            None => ls[i],
        }),
{
    lemma_process_open(ls, o, i, name);
}

// ---------------------------------------------------------------------------
// Templates
// ---------------------------------------------------------------------------

proof fn lemma_title_skip(s: Seq<char>, start: int, i: int, e: int)
    requires
        0 <= start <= i <= e <= s.len(),
        forall|j: int| i <= j < e ==> #[trigger] s[j] != '-' && s[j] != '_',
    ensures
        title_words_from(s, start, i) == title_words_from(s, start, e),
    decreases e - i,
{
    if i < e {
        lemma_title_skip(s, start, i + 1, e);
    }
}

proof fn lemma_title_shift(s: Seq<char>, k: int, start: int, i: int)
    requires
        0 <= k <= start <= i <= s.len(),
    ensures
        title_words_from(s, start, i) == title_words_from(s.skip(k), start - k, i - k),
    decreases s.len() - i,
{
    let t = s.skip(k);
    if i < s.len() {
        assert(t[i - k] == s[i]);
        if start < i {
            assert(t.subrange(start - k, i - k) == s.subrange(start, i));
            assert(t[start - k] == s[start]);
        }
        if s[i] == '-' || s[i] == '_' {
            lemma_title_shift(s, k, i + 1, i + 1);
        } else {
            lemma_title_shift(s, k, start, i + 1);
        }
    } else if start < s.len() {
        assert(t.skip(start - k) == s.skip(start));
        assert(t[start - k] == s[start]);
    }
}

/// The title of a template has the words of its name, which hyphens and underscores part, each
/// with its first letter in upper case and the others as they are.
pub proof fn law_titles_have_the_words(word: Seq<char>, parting: char, rest: Seq<char>)
    requires
        word.len() > 0,
        lacks(word, '-') && lacks(word, '_'),
        parting == '-' || parting == '_',
    ensures
        title_words_from(word + seq![parting] + rest, 0, 0) == seq![
            unicode_upper(word[0]) + word.skip(1),
        ] + title_words_from(rest, 0, 0),
        title_words_from(word, 0, 0) == seq![unicode_upper(word[0]) + word.skip(1)],
{
    let s = word + seq![parting] + rest;
    let n = word.len() as int;
    assert forall|j: int| 0 <= j < n implies #[trigger] s[j] != '-' && s[j] != '_' by {
        assert(s[j] == word[j]);
    }
    lemma_title_skip(s, 0, 0, n);
    assert(s[n] == parting);
    assert(s.subrange(0, n) == word);
    assert(s[0] == word[0]);
    lemma_title_shift(s, n + 1, n + 1, n + 1);
    assert(s.skip(n + 1) == rest);
    lemma_title_skip(word, 0, 0, n);
    assert(word.skip(0) == word);
}

proof fn lemma_path_shift(first: Seq<char>, ls: Seq<Seq<char>>, i: int)
    requires
        0 <= i,
    ensures
        path_from(seq![first] + ls, i + 1) == path_from(ls, i),
    decreases ls.len() - i,
{
    if i < ls.len() {
        lemma_path_shift(first, ls, i + 1);
        assert((seq![first] + ls)[i + 1] == ls[i]);
    }
}

/// The path of a template is what follows `Path: ` on the first line that starts with it.
pub proof fn law_the_first_path_is_read(first: Seq<char>, rest: Seq<Seq<char>>, path: Seq<char>)
    ensures
        trimmed(first) == "Path: "@ + path ==> path_from(seq![first] + rest, 0) == Some(path),
        !starts(trimmed(first), "Path: "@) ==> path_from(seq![first] + rest, 0) == path_from(
            rest,
            0,
        ),
{
    lemma_path_shift(first, rest, 0);
    assert((seq![first] + rest)[0] == first);
    let line = trimmed(first);
    let mark = "Path: "@;
    if line == mark + path {
        assert(line.subrange(0, mark.len() as int) == mark);
        assert(line.skip(mark.len() as int) == path);
    }
}

} // verus!
