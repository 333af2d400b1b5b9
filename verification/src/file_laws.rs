//! Laws of environment files: how lines are read, what is secret, and how files fit together.

use crate::config_sync::{
    frontend_entries, last_named, other_manifests_from, ports_added_from, saved_only_from,
};
use crate::environment::{
    assignment, comment_text, entries_of, followed, hash_from, is_secret, names_word,
    value_and_comment,
};
use crate::instance::joined_path;
use crate::mapping_laws::lemma_trimmed_core;
use crate::models::{ChangeModel, EnvModel, InstanceModel};
use crate::prepare::{
    after_port, change_under, example_has, has_value, lemma_url_port_range, place_of,
};
use crate::run_laws::lemma_cut_at;
use crate::text::{
    decimal, ends, holds, is_space, joined, lemma_holds, matches_at, starts, strip_set_start,
    trimmed, trimmed_start, upper,
};
use crate::urls::url_port;
use vstd::prelude::*;
use vstd::string::*;

verus! {

// ---------------------------------------------------------------------------
// Lines
// ---------------------------------------------------------------------------

/// Whether a text is white space only.
pub open spec fn is_blank(s: Seq<char>) -> bool {
    forall|i: int| 0 <= i < s.len() ==> is_space(#[trigger] s[i])
}

/// Whether a text has none of the characters that quote, escape or begin a comment.
pub open spec fn is_plain(s: Seq<char>) -> bool {
    forall|i: int|
        0 <= i < s.len() ==> #[trigger] s[i] != '#' && s[i] != '"' && s[i] != '\'' && s[i] != '\\'
}

/// Whether a text can be the name of a variable at the start of a line.
pub open spec fn is_name(s: Seq<char>) -> bool {
    &&& s.len() > 0
    &&& forall|i: int| 0 <= i < s.len() ==> !is_space(#[trigger] s[i]) && s[i] != '='
    &&& s[0] != '#'
}

/// Whether a text is not empty and neither starts nor ends with white space.
pub open spec fn is_core(s: Seq<char>) -> bool {
    s.len() > 0 && !is_space(s[0]) && !is_space(s.last())
}

proof fn lemma_name_is_cut(key: Seq<char>, gap: Seq<char>, right: Seq<char>)
    requires
        is_name(key),
        key != "export"@,
        is_blank(gap),
    ensures
        assignment(key + gap + "="@ + right) == Some((key, trimmed(right))),
        assignment("export "@ + (key + gap + "="@ + right)) == Some((key, trimmed(right))),
{
    reveal_strlit("=");
    reveal_strlit("export ");
    reveal_strlit("export");
    let line = key + gap + "="@ + right;
    let left = key + gap;
    let word = "export "@;
    assert(is_space(' '));
    assert(!is_space('='));
    assert(forall|i: int| 0 <= i < 6 ==> !is_space(#[trigger] word[i]) && word[i] != '=');
    assert(!starts(line, word)) by {
        if starts(line, word) {
            assert forall|i: int| 0 <= i < 7 implies #[trigger] line[i] == word[i] by {
                assert(line.subrange(0, 7)[i] == line[i]);
            }
            let n = key.len() as int;
            if n > 6 {
                assert(line[6] == key[6]);
            } else if n == 6 {
                assert forall|i: int| 0 <= i < 6 implies key[i] == "export"@[i] by {
                    assert(line[i] == key[i] && line[i] == word[i]);
                }
                assert(key == "export"@);
            } else {
                assert(line[n] == word[n]);
                if gap.len() > 0 {
                    assert(line[n] == gap[0]);
                } else {
                    assert(line[n] == '=');
                }
            }
        }
    }
    assert forall|j: int| 0 <= j < left.len() implies !(#[trigger] matches_at(line, "="@, j)) by {
        if matches_at(line, "="@, j) {
            assert(line.subrange(j, j + 1)[0] == line[j]);
            if j < key.len() {
                assert(line[j] == key[j]);
            } else {
                assert(line[j] == gap[j - key.len()]);
            }
        }
    }
    lemma_cut_at(left, "="@, right);
    let nothing = Seq::<char>::empty();
    assert(nothing + key + gap == left);
    lemma_trimmed_core(nothing, key, gap);
    let exported = word + line;
    assert(exported.subrange(0, 7) == word);
    assert(exported.skip(7) == line);
}

proof fn lemma_no_hash(raw: Seq<char>, i: int, n: int)
    requires
        0 <= i <= n <= raw.len(),
        forall|k: int|
            i <= k < n ==> #[trigger] raw[k] != '#' && raw[k] != '"' && raw[k] != '\'' && raw[k]
                != '\\',
    ensures
        hash_from(raw, i, None, false) == hash_from(raw, n, None, false),
    decreases n - i,
{
    if i < n {
        lemma_no_hash(raw, i + 1, n);
    }
}

/// What stands behind a plain value after a blank and a hash is a comment, and not of the value.
proof fn lemma_value_is_read(value: Seq<char>, gap: Seq<char>, note: Seq<char>)
    requires
        is_plain(value),
        is_core(value),
        is_blank(gap),
        gap.len() > 0,
        is_core(note),
    ensures
        value_and_comment(value) == (value, None::<Seq<char>>),
        value_and_comment(value + gap + "# "@ + note) == (value, Some(note)),
{
    reveal_strlit("# ");
    lemma_no_hash(value, 0, value.len() as int);
    let raw = value + gap + "# "@ + note;
    let n = (value.len() + gap.len()) as int;
    assert(is_space(' ') && !is_space('#') && !is_space('"') && !is_space('\'') && !is_space('\\'));
    assert forall|k: int| 0 <= k < n implies #[trigger] raw[k] != '#' && raw[k] != '"' && raw[k]
        != '\'' && raw[k] != '\\' by {
        if k < value.len() {
            assert(raw[k] == value[k]);
        } else {
            assert(raw[k] == gap[k - value.len()]);
        }
    }
    lemma_no_hash(raw, 0, n);
    assert(raw[n] == '#');
    assert(raw[n - 1] == gap[gap.len() - 1]);
    assert(hash_from(raw, n, None, false) == Some(n));
    let nothing = Seq::<char>::empty();
    assert(raw.skip(n + 1) == seq![' '] + note + nothing);
    lemma_trimmed_core(seq![' '], note, nothing);
    assert(raw.take(n) == nothing + value + gap);
    lemma_trimmed_core(nothing, value, gap);
    assert(trimmed_start(value + gap) == value + gap);
    assert(nothing + value + gap == value + gap);
}

/// The lines of a file are read one after the other. A line that starts with a hash is a comment
/// on the variable that follows. A line with a name and, behind `=`, a plain value is that
/// variable, with or without `export`, whatever blanks stand around; what follows the value after
/// a blank and a hash is one more line of its comment.
pub proof fn law_lines_are_read(
    line: Seq<char>,
    rest: Seq<Seq<char>>,
    above: Seq<Seq<char>>,
    key: Seq<char>,
    gap: Seq<char>,
    space: Seq<char>,
    value: Seq<char>,
    before_note: Seq<char>,
    note: Seq<char>,
)
    requires
        is_name(key),
        key != "export"@,
        is_blank(gap) && is_blank(space) && is_blank(before_note),
        before_note.len() > 0,
        is_plain(value) && is_core(value),
        is_core(note),
        note[0] != '#',
    ensures
        ({
            let plain = key + gap + "="@ + (space + value);
            let noted = key + gap + "="@ + (space + (value + before_note + "# "@ + note));
            let read = |comment: Seq<char>| EnvModel {
                key,
                value,
                comment,
                source: "template"@,
                modified: false,
            };
            let others = entries_of(rest, Seq::empty());
            &&& trimmed(line) == plain || trimmed(line) == "export "@ + plain ==> entries_of(
                seq![line] + rest,
                above,
            ) == seq![read(trimmed(joined(above, "\n"@)))] + others
            &&& trimmed(line) == noted || trimmed(line) == "export "@ + noted ==> entries_of(
                seq![line] + rest,
                above,
            ) == seq![read(trimmed(joined(above.push(note), "\n"@)))] + others
            &&& trimmed(line) == "# "@ + note ==> entries_of(seq![line] + rest, above)
                == entries_of(rest, above.push(note))
            &&& trimmed(line).len() == 0 && above.len() == 0 ==> entries_of(
                seq![line] + rest,
                above,
            ) == entries_of(rest, above)
        }),
{
    reveal_strlit("=");
    reveal_strlit("export ");
    reveal_strlit("#");
    reveal_strlit("# ");
    let nothing = Seq::<char>::empty();
    let full = value + before_note + "# "@ + note;
    let plain = key + gap + "="@ + (space + value);
    let noted = key + gap + "="@ + (space + full);
    lemma_name_is_cut(key, gap, space + value);
    lemma_name_is_cut(key, gap, space + full);
    lemma_trimmed_core(space, value, nothing);
    assert(space + value + nothing == space + value);
    assert(full[0] == value[0] && full.last() == note.last());
    lemma_trimmed_core(space, full, nothing);
    assert(space + full + nothing == space + full);
    lemma_value_is_read(value, before_note, note);
    let all = seq![line] + rest;
    assert(all.drop_first() == rest);
    assert(all[0] == line);
    let t = trimmed(line);
    if t == plain || t == noted {
        assert(t[0] == key[0]);
        assert(t.subrange(0, 1)[0] == t[0]);
    }
    if t == "export "@ + plain || t == "export "@ + noted {
        assert(t[0] == 'e');
        assert(t.subrange(0, 1)[0] == t[0]);
    }
    if t == "# "@ + note {
        assert(t.subrange(0, 1) == "#"@);
        assert(t.skip(1)[0] == ' ');
        assert("#"@.contains('#')) by {
            assert("#"@[0] == '#');
        }
        assert(!"#"@.contains(' '));
        assert(t.skip(1) == seq![' '] + note + nothing);
        assert(is_space(' '));
        lemma_trimmed_core(seq![' '], note, nothing);
        assert(strip_set_start(t.skip(1), "#"@) == t.skip(1));
        assert(strip_set_start(t, "#"@) == t.skip(1));
        assert(comment_text(t) == note);
    }
    if t.len() == 0 {
        assert(!starts(t, "#"@));
    }
}

// ---------------------------------------------------------------------------
// Secrets
// ---------------------------------------------------------------------------

/// Whether a name has a word in it that stands between underscores or at an end.
pub open spec fn has_word(name: Seq<char>, word: Seq<char>) -> bool {
    exists|a: Seq<char>, b: Seq<char>| #[trigger]
        is_parted(name, a, word, b)
}

/// Whether a name is a word with something before it, up to an underscore, and after it.
pub open spec fn is_parted(name: Seq<char>, a: Seq<char>, word: Seq<char>, b: Seq<char>) -> bool {
    &&& name == a + word + b
    &&& a.len() == 0 || a.last() == '_'
    &&& b.len() == 0 || b[0] == '_'
}

proof fn lemma_word_at_start(name: Seq<char>, word: Seq<char>)
    requires
        starts(name, word + seq!['_']),
    ensures
        has_word(name, word),
{
    let n = word.len() as int;
    let first = name.subrange(0, n + 1);
    assert(first[n] == '_');
    assert(name[n] == first[n]);
    assert forall|i: int| 0 <= i < n implies #[trigger] name[i] == word[i] by {
        assert(first[i] == name[i]);
        assert((word + seq!['_'])[i] == word[i]);
    }
    let nothing = Seq::<char>::empty();
    let b = name.skip(n);
    assert(name == nothing + word + b);
    assert(b[0] == name[n]);
    assert(is_parted(name, nothing, word, b));
}

proof fn lemma_word_at_end(name: Seq<char>, word: Seq<char>)
    requires
        ends(name, seq!['_'] + word),
    ensures
        has_word(name, word),
{
    let k = name.len() - word.len() - 1;
    let end = name.subrange(k, name.len() as int);
    assert(end == seq!['_'] + word);
    assert(name[k] == end[0]);
    assert forall|i: int| 0 <= i < word.len() implies #[trigger] word[i] == name[k + 1 + i] by {
        assert((seq!['_'] + word)[i + 1] == word[i]);
        assert(end[i + 1] == name[k + 1 + i]);
    }
    let nothing = Seq::<char>::empty();
    let a = name.take(k + 1);
    assert(name == a + word + nothing);
    assert(a.last() == '_');
    assert(is_parted(name, a, word, nothing));
}

proof fn lemma_word_within(name: Seq<char>, word: Seq<char>, i: int)
    requires
        matches_at(name, seq!['_'] + word + seq!['_'], i),
    ensures
        has_word(name, word),
{
    let mid = seq!['_'] + word + seq!['_'];
    let n = word.len() as int;
    let part = name.subrange(i, i + mid.len());
    assert(part[0] == '_' && part[n + 1] == '_');
    assert(part[0] == name[i] && part[n + 1] == name[i + n + 1]);
    assert forall|j: int| 0 <= j < n implies #[trigger] word[j] == name[i + 1 + j] by {
        assert(mid[j + 1] == word[j]);
        assert(part[j + 1] == name[i + 1 + j]);
    }
    let a = name.take(i + 1);
    let b = name.skip(i + 1 + n);
    assert(name == a + word + b);
    assert(a.last() == '_');
    assert(b[0] == name[i + 1 + n]);
    assert(is_parted(name, a, word, b));
}

proof fn lemma_parted_is_named(name: Seq<char>, a: Seq<char>, word: Seq<char>, b: Seq<char>)
    requires
        is_parted(name, a, word, b),
    ensures
        ({
            let u = seq!['_'];
            name == word || starts(name, word + u) || ends(name, u + word) || exists|i: int|
                matches_at(name, u + word + u, i)
        }),
{
    let u = seq!['_'];
    let mid = u + word + u;
    if a.len() == 0 && b.len() == 0 {
        assert(name == word);
    } else if a.len() == 0 {
        assert(name.subrange(0, (word + u).len() as int) == word + u);
    } else if b.len() == 0 {
        assert(name.subrange(name.len() - word.len() - 1, name.len() as int) == u + word);
    } else {
        let i = a.len() - 1;
        assert(name.subrange(i, i + mid.len()) == mid);
        assert(matches_at(name, mid, i));
    }
}

proof fn lemma_has_word(name: Seq<char>, word: Seq<char>)
    ensures
        names_word(name, word) <==> has_word(name, word),
{
    reveal_strlit("_");
    let u = seq!['_'];
    assert("_"@ == u);
    let nothing = Seq::<char>::empty();
    lemma_holds(name, u + word + u);
    if name == word {
        assert(name == nothing + word + nothing);
        assert(is_parted(name, nothing, word, nothing));
    } else if starts(name, word + u) {
        lemma_word_at_start(name, word);
    } else if ends(name, u + word) {
        lemma_word_at_end(name, word);
    } else if holds(name, u + word + u) {
        lemma_word_within(name, word, choose|i: int| matches_at(name, u + word + u, i));
    } else if has_word(name, word) {
        let (a, b) = choose|a: Seq<char>, b: Seq<char>| #[trigger] is_parted(name, a, word, b);
        lemma_parted_is_named(name, a, word, b);
    }
}

/// A variable is secret exactly if its name, in any case, has one of the words key, token,
/// secret, password and credential in it, between underscores or at an end.
pub proof fn law_secret_names(key: Seq<char>)
    ensures
        is_secret(key) <==> has_word(upper(key), "KEY"@) || has_word(upper(key), "TOKEN"@)
            || has_word(upper(key), "SECRET"@) || has_word(upper(key), "PASSWORD"@) || has_word(
            upper(key),
            "CREDENTIAL"@,
        ),
{
    let name = upper(key);
    lemma_has_word(name, "KEY"@);
    lemma_has_word(name, "TOKEN"@);
    lemma_has_word(name, "SECRET"@);
    lemma_has_word(name, "PASSWORD"@);
    lemma_has_word(name, "CREDENTIAL"@);
}

// ---------------------------------------------------------------------------
// Files beside each other
// ---------------------------------------------------------------------------

proof fn lemma_last_named(env: Seq<EnvModel>, key: Seq<char>, k: int)
    requires
        -1 <= k < env.len(),
        k >= 0 ==> upper(env[k].key) == key,
        forall|j: int| k < j < env.len() ==> upper((#[trigger] env[j]).key) != key,
    ensures
        last_named(env, key) == (if k >= 0 {
            Some(env[k])
        } else {
            None
        }),
    decreases env.len(),
{
    if env.len() > 0 && k < env.len() - 1 {
        assert(upper(env[env.len() - 1].key) != key);
        let shorter = env.drop_last();
        assert forall|j: int| k < j < shorter.len() implies upper((#[trigger] shorter[j]).key)
            != key by {
            assert(shorter[j] == env[j]);
        }
        lemma_last_named(shorter, key, k);
    }
}

/// The frontend's file has the variables of its example, in order, each with the value that was
/// saved last under its name, in whatever case, and with the comment saved there, if any; then
/// the root's environment is followed.
pub proof fn law_saved_frontend_values_are_kept(
    example: Seq<EnvModel>,
    saved: Seq<EnvModel>,
    root: Seq<EnvModel>,
    i: int,
    k: int,
)
    requires
        0 <= i < example.len(),
        -1 <= k < saved.len(),
        k >= 0 ==> upper(saved[k].key) == upper(example[i].key),
        forall|j: int|
            k < j < saved.len() ==> upper((#[trigger] saved[j]).key) != upper(example[i].key),
    ensures
        ({
            let file = frontend_entries(example, saved, root);
            let kept = EnvModel {
                value: if k >= 0 {
                    saved[k].value
                } else {
                    example[i].value
                },
                comment: if k >= 0 && trimmed(saved[k].comment).len() > 0 {
                    saved[k].comment
                } else {
                    example[i].comment
                },
                ..example[i]
            };
            &&& file.len() >= example.len()
            &&& file[i] == followed(kept, root)
        }),
{
    lemma_last_named(saved, upper(example[i].key), k);
}

proof fn lemma_saved_only(example: Seq<EnvModel>, saved: Seq<EnvModel>, i: int, k: int)
    requires
        0 <= i <= k < saved.len(),
        forall|j: int|
            0 <= j < example.len() ==> upper((#[trigger] example[j]).key) != upper(saved[k].key),
    ensures
        saved_only_from(example, saved, i).contains(saved[k]),
    decreases k - i,
{
    lemma_last_named(example, upper(saved[k].key), -1);
    let more = saved_only_from(example, saved, i + 1);
    if i == k {
        assert((seq![saved[k]] + more)[0] == saved[k]);
    } else {
        lemma_saved_only(example, saved, i + 1, k);
        let m = choose|m: int| 0 <= m < more.len() && more[m] == saved[k];
        assert((seq![saved[i]] + more)[m + 1] == saved[k]);
    }
}

/// A variable that was saved for the frontend and is not in its example stays in the file.
pub proof fn law_saved_frontend_variables_stay(
    example: Seq<EnvModel>,
    saved: Seq<EnvModel>,
    root: Seq<EnvModel>,
    k: int,
)
    requires
        0 <= k < saved.len(),
        forall|j: int|
            0 <= j < example.len() ==> upper((#[trigger] example[j]).key) != upper(saved[k].key),
    ensures
        frontend_entries(example, saved, root).contains(followed(saved[k], root)),
{
    lemma_saved_only(example, saved, 0, k);
    let only = saved_only_from(example, saved, 0);
    let m = choose|m: int| 0 <= m < only.len() && only[m] == saved[k];
    let file = frontend_entries(example, saved, root);
    assert(file[example.len() + m] == followed(saved[k], root));
}

/// The ports that other manifests hold are those of the addresses of their services, but for
/// zero: these and no others are added.
pub proof fn law_ports_of_services_are_added(
    ports: Set<u16>,
    services: Seq<(Seq<char>, Seq<char>)>,
    i: int,
    p: u16,
)
    requires
        0 <= i,
    ensures
        ports_added_from(ports, services, i).contains(p) <==> ports.contains(p) || (p > 0
            && exists|k: int|
            i <= k < services.len() && url_port((#[trigger] services[k]).1) == Some(p as int)),
    decreases services.len() - i,
{
    if i < services.len() {
        let here = url_port(services[i].1);
        let next = match here {
            Some(q) => if q > 0 {
                ports.insert(q as u16)
            } else {
                ports
            },
            None => ports,
        };
        lemma_url_port_range(services[i].1);
        law_ports_of_services_are_added(next, services, i + 1, p);
        if p > 0 && here == Some(p as int) {
            assert(url_port(services[i].1) == Some(p as int));
        }
    }
}

/// The manifests of all instances are looked at but that of the instance in question.
pub proof fn law_other_manifests_are_looked_at(
    instances: Seq<InstanceModel>,
    exclude: Option<Seq<char>>,
    windows: bool,
    i: int,
    k: int,
)
    requires
        0 <= i <= k < instances.len(),
        exclude != Some(instances[k].id),
    ensures
        other_manifests_from(instances, exclude, windows, i).contains(
            joined_path(windows, instances[k].work_dir, ".agentseek/lifecycle.toml"@),
        ),
    decreases k - i,
{
    let path = joined_path(windows, instances[k].work_dir, ".agentseek/lifecycle.toml"@);
    let more = other_manifests_from(instances, exclude, windows, i + 1);
    if i == k {
        assert((seq![path] + more)[0] == path);
    } else {
        law_other_manifests_are_looked_at(instances, exclude, windows, i + 1, k);
        let m = choose|m: int| 0 <= m < more.len() && more[m] == path;
        let first = joined_path(windows, instances[i].work_dir, ".agentseek/lifecycle.toml"@);
        assert((seq![first] + more)[m + 1] == path);
    }
}

// ---------------------------------------------------------------------------
// Ports of a new instance
// ---------------------------------------------------------------------------

proof fn lemma_place_of(env: Seq<EnvModel>, key: Seq<char>, i: int, k: int)
    requires
        0 <= i <= k < env.len(),
        upper(env[k].key) == key,
        forall|j: int| i <= j < k ==> upper((#[trigger] env[j]).key) != key,
    ensures
        place_of(env, key, i) == k,
    decreases k - i,
{
    if i < k {
        lemma_place_of(env, key, i + 1, k);
    }
}

proof fn lemma_change_under(changes: Seq<ChangeModel>, key: Seq<char>, i: int)
    requires
        0 <= i,
        forall|j: int| i <= j < changes.len() ==> (#[trigger] changes[j]).key != key,
    ensures
        change_under(changes, key, i) is None,
    decreases changes.len() - i,
{
    if i < changes.len() {
        lemma_change_under(changes, key, i + 1);
    }
}

/// A port that is settled for a variable of the example is written to the first entry of that
/// name, in whatever case, which is then modified; all other entries stay.
pub proof fn law_settled_ports_are_written(
    env: Seq<EnvModel>,
    example: Seq<EnvModel>,
    changes: Seq<ChangeModel>,
    key: Seq<char>,
    port: u16,
    m: int,
    k: int,
)
    requires
        0 <= m < example.len(),
        upper(example[m].key) == key,
        0 <= k < env.len(),
        upper(env[k].key) == key,
        forall|j: int| 0 <= j < k ==> upper((#[trigger] env[j]).key) != key,
    ensures
        ({
            let out = after_port(env, example, changes, (key, port as int));
            &&& out.len() == env.len()
            &&& forall|j: int| 0 <= j < env.len() && j != k ==> #[trigger] out[j] == env[j]
            &&& out[k].key == env[k].key && out[k].comment == env[k].comment && out[k].source
                == env[k].source
            &&& out[k].value == decimal(port as nat)
            &&& out[k].modified == (env[k].modified || env[k].value != decimal(port as nat))
        }),
{
    assert(example_has(example, key));
    lemma_place_of(env, key, 0, k);
}

/// A port for which neither the example has a variable nor another variable has the value, and
/// which did not move, becomes a variable of its own at the end.
pub proof fn law_new_ports_are_added(
    env: Seq<EnvModel>,
    example: Seq<EnvModel>,
    changes: Seq<ChangeModel>,
    key: Seq<char>,
    port: u16,
)
    requires
        forall|j: int| 0 <= j < example.len() ==> upper((#[trigger] example[j]).key) != key,
        forall|j: int|
            0 <= j < env.len() && upper((#[trigger] env[j]).key) != key ==> trimmed(env[j].value)
                != decimal(port as nat),
        forall|j: int| 0 <= j < changes.len() ==> (#[trigger] changes[j]).key != key,
    ensures
        ({
            let out = after_port(env, example, changes, (key, port as int));
            &&& out.len() == env.len() + 1
            &&& out.drop_last() == env
            &&& out.last().key == key
            &&& out.last().value == decimal(port as nat)
            &&& out.last().modified
        }),
{
    assert(!example_has(example, key));
    assert(!has_value(env, key, decimal(port as nat)));
    lemma_change_under(changes, key, 0);
    let out = after_port(env, example, changes, (key, port as int));
    assert(out.drop_last() == env);
}

} // verus!
