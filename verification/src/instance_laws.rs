//! Laws of the tasks that a deployment runs.

use crate::compose_laws::{lemma_lines_of_one, lemma_lines_of_two, without_return};
use crate::env_laws::is_one_line;
use crate::instance::install_tasks_from;
use crate::text::{ends, is_space, lines, starts, words, words_from};
use vstd::prelude::*;

verus! {

/// Whether a text is white space on one line.
pub open spec fn is_blank_line(s: Seq<char>) -> bool {
    forall|i: int| 0 <= i < s.len() ==> is_space(#[trigger] s[i]) && s[i] != '\n'
}

proof fn lemma_blank_start(s: Seq<char>, n: int, i: int)
    requires
        0 <= i <= n <= s.len(),
        forall|k: int| 0 <= k < n ==> is_space(#[trigger] s[k]),
    ensures
        words_from(s, i, i) == words_from(s, n, n),
    decreases n - i,
{
    if i < n {
        lemma_blank_start(s, n, i + 1);
        assert(words_from(s, i, i) == words_from(s, i + 1, i + 1));
    }
}

proof fn lemma_word_start(s: Seq<char>, a: int, b: int, i: int)
    requires
        0 <= a <= i <= b <= s.len(),
        a < b,
        forall|k: int| a <= k < b ==> !is_space(#[trigger] s[k]),
        b < s.len() ==> is_space(s[b]),
    ensures
        words_from(s, a, i).len() > 0,
        words_from(s, a, i)[0] == s.subrange(a, b),
    decreases b - i,
{
    if i < b {
        lemma_word_start(s, a, b, i + 1);
    } else if b == s.len() {
        assert(s.skip(a) == s.subrange(a, b));
    }
}

proof fn lemma_first_word(pad: Seq<char>, name: Seq<char>, tail: Seq<char>)
    requires
        is_blank_line(pad),
        name.len() > 0,
        forall|i: int| 0 <= i < name.len() ==> !is_space(#[trigger] name[i]),
        tail.len() > 0 ==> is_space(tail[0]),
    ensures
        words(pad + name + tail).len() > 0,
        words(pad + name + tail)[0] == name,
{
    let s = pad + name + tail;
    let n = pad.len() as int;
    let m = n + name.len();
    assert forall|k: int| 0 <= k < n implies is_space(#[trigger] s[k]) by {
        assert(s[k] == pad[k]);
    }
    assert forall|k: int| n <= k < m implies !is_space(#[trigger] s[k]) by {
        assert(s[k] == name[k - n]);
    }
    if m < s.len() {
        assert(s[m] == tail[0]);
    }
    lemma_blank_start(s, n, 0);
    lemma_word_start(s, n, m, n);
    assert(s.subrange(n, m) == name);
}

proof fn lemma_no_word(s: Seq<char>)
    requires
        is_blank_line(s),
    ensures
        words(s).len() == 0,
{
    lemma_blank_start(s, s.len() as int, 0);
}

proof fn lemma_tasks_shift(ls: Seq<Seq<char>>, first: Seq<char>, i: int)
    requires
        0 <= i,
    ensures
        install_tasks_from(seq![first] + ls, i + 1) == install_tasks_from(ls, i),
    decreases ls.len() - i,
{
    if i < ls.len() {
        lemma_tasks_shift(ls, first, i + 1);
        assert((seq![first] + ls)[i + 1] == ls[i]);
    }
}

/// A listing is read line by line: the first word of a line that is not blank is a task, whatever
/// follows it, unless it starts with `ingest`, is `relay-export`, or ends with `-stop` or
/// `_stop`. Blank lines list nothing.
pub proof fn law_tasks_are_first_words(
    pad: Seq<char>,
    name: Seq<char>,
    tail: Seq<char>,
    rest: Seq<char>,
)
    requires
        is_blank_line(pad),
        name.len() > 0,
        forall|i: int| 0 <= i < name.len() ==> !is_space(#[trigger] name[i]),
        tail.len() > 0 ==> is_space(tail[0]),
        is_one_line(tail),
    ensures
        ({
            let tasks = |listing: Seq<char>| install_tasks_from(lines(listing), 0);
            let runs = !(starts(name, "ingest"@) || name == "relay-export"@ || ends(name, "-stop"@)
                || ends(name, "_stop"@));
            let listed = if runs {
                seq![name]
            } else {
                Seq::empty()
            };
            &&& tasks(pad + name + tail + "\n"@ + rest) == listed + tasks(rest)
            &&& tasks(pad + name + tail) == listed
            &&& tasks(pad + "\n"@ + rest) == tasks(rest)
            &&& tasks(pad) == Seq::<Seq<char>>::empty()
        }),
{
    let line = pad + name + tail;
    assert(is_space('\n') && is_space('\r'));
    assert(is_one_line(pad));
    assert(is_one_line(line)) by {
        assert forall|i: int| 0 <= i < line.len() implies #[trigger] line[i] != '\n' by {
            if i < pad.len() {
                assert(line[i] == pad[i]);
            } else if i < pad.len() + name.len() {
                assert(line[i] == name[i - pad.len()]);
            } else {
                assert(line[i] == tail[i - pad.len() - name.len()]);
            }
        }
    }
    lemma_first_word(pad, name, tail);
    let short = without_return(line);
    if short != line {
        if tail.len() == 0 {
            assert(line.last() == name[name.len() - 1]);
        } else {
            assert(line.last() == tail.last());
        }
        assert(tail.len() > 0);
        assert(short == pad + name + tail.drop_last());
        lemma_first_word(pad, name, tail.drop_last());
    }
    assert(words(short).len() > 0 && words(short)[0] == name);
    lemma_lines_of_two(line, rest);
    lemma_tasks_shift(lines(rest), short, 0);
    lemma_lines_of_one(line);
    assert(install_tasks_from(seq![line], 1) == Seq::<Seq<char>>::empty());
    let blank = without_return(pad);
    lemma_no_word(pad);
    lemma_no_word(blank);
    lemma_lines_of_two(pad, rest);
    lemma_tasks_shift(lines(rest), blank, 0);
    lemma_lines_of_one(pad);
    if pad.len() > 0 {
        assert(install_tasks_from(seq![pad], 1) == Seq::<Seq<char>>::empty());
    }
}

} // verus!
