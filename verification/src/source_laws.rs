//! Laws of ports in source files: where a number is exchanged.

use crate::sources::{
    announces_port, ends_in_port_key, ends_in_port_word, is_whole_number, last_word,
    last_word_start, port_moved, port_moved_from, without_quote,
};
use crate::text::{
    decimal, ends, find_from, is_digit, is_space, lemma_decimal_value, lemma_find_from, lower,
    matches_at, strip_set, trimmed_end, upper,
};
use vstd::prelude::*;
use vstd::string::*;

verus! {

proof fn lemma_moved_shift(s: Seq<char>, old: Seq<char>, new: Seq<char>, k: int, i: int)
    requires
        0 <= k <= i <= s.len(),
        old.len() > 0,
    ensures
        port_moved_from(s, old, new, i) == port_moved_from(s.skip(k), old, new, i - k),
    decreases s.len() - i,
{
    let t = s.skip(k);
    lemma_find_from(s, old, i);
    lemma_find_from(t, old, i - k);
    assert forall|j: int| i <= j implies (#[trigger] matches_at(s, old, j) <==> matches_at(
        t,
        old,
        j - k,
    )) by {
        if j + old.len() <= s.len() {
            assert(s.subrange(j, j + old.len()) == t.subrange(j - k, j - k + old.len()));
        }
    }
    match find_from(s, old, i) {
        None => {
            assert(find_from(t, old, i - k) is None) by {
                if let Some(m) = find_from(t, old, i - k) {
                    assert(matches_at(s, old, m + k));
                }
            }
            assert(t.skip(i - k) == s.skip(i));
        },
        Some(m) => {
            assert(matches_at(s, old, m));
            assert(find_from(t, old, i - k) == Some(m - k)) by {
                match find_from(t, old, i - k) {
                    None => {
                        assert(!matches_at(t, old, m - k));
                    },
                    Some(l) => {
                        assert(matches_at(s, old, l + k));
                        if l + k < m {
                            assert(!matches_at(s, old, l + k));
                        } else if l + k > m {
                            assert(!matches_at(t, old, m - k));
                        }
                    },
                }
            }
            assert(s.subrange(i, m) == t.subrange(i - k, m - k));
            if m > i {
                assert(s[m - 1] == t[m - 1 - k]);
            }
            if m + old.len() < s.len() {
                assert(s[m + old.len()] == t[m + old.len() - k]);
            }
            assert(is_whole_number(s, i, m, old) == is_whole_number(t, i - k, m - k, old));
            lemma_moved_shift(s, old, new, k, m + old.len());
        },
    }
}

/// The first number that is the port, and whole, is exchanged exactly if what stands before it
/// announces a port; what follows is gone through in the same way.
proof fn lemma_first_number(before: Seq<char>, behind: Seq<char>, old_port: nat, new_port: nat)
    requires
        forall|j: int|
            0 <= j < before.len() ==> !(#[trigger] matches_at(
                before + decimal(old_port) + behind,
                decimal(old_port),
                j,
            )),
        before.len() > 0 ==> !is_digit(before.last()),
        behind.len() > 0 ==> !is_digit(behind[0]),
    ensures
        port_moved(before + decimal(old_port) + behind, old_port, new_port) == before + (
        if announces_port(before) {
            decimal(new_port)
        } else {
            decimal(old_port)
        }) + port_moved(behind, old_port, new_port),
{
    lemma_decimal_value(old_port);
    lemma_first_occurrence(before, decimal(old_port), decimal(new_port), behind);
}

proof fn lemma_first_occurrence(
    before: Seq<char>,
    old: Seq<char>,
    new: Seq<char>,
    behind: Seq<char>,
)
    requires
        old.len() > 0,
        forall|j: int|
            0 <= j < before.len() ==> !(#[trigger] matches_at(before + old + behind, old, j)),
        before.len() > 0 ==> !is_digit(before.last()),
        behind.len() > 0 ==> !is_digit(behind[0]),
    ensures
        port_moved_from(before + old + behind, old, new, 0) == before + (if announces_port(before) {
            new
        } else {
            old
        }) + port_moved_from(behind, old, new, 0),
{
    let s = before + old + behind;
    let n = before.len() as int;
    assert(find_from(s, old, 0) == Some(n)) by {
        assert(s.subrange(n, n + old.len()) == old);
        assert(matches_at(s, old, n));
        lemma_find_from(s, old, 0);
    }
    assert(s.subrange(0, n) == before);
    assert(is_whole_number(s, 0, n, old)) by {
        if n > 0 {
            assert(s[n - 1] == before.last());
        }
        if n + old.len() < s.len() {
            assert(s[n + old.len()] == behind[0]);
        }
    }
    let rest = port_moved_from(s, old, new, n + old.len());
    assert(rest == port_moved_from(behind, old, new, 0)) by {
        lemma_moved_shift(s, old, new, n + old.len(), n + old.len());
        assert(s.skip(n + old.len()) == behind);
    }
}

proof fn lemma_trimmed_end_of(a: Seq<char>, blank: Seq<char>)
    requires
        a.len() > 0,
        !is_space(a.last()),
        forall|i: int| 0 <= i < blank.len() ==> is_space(#[trigger] blank[i]),
    ensures
        trimmed_end(a + blank) == a,
    decreases blank.len(),
{
    if blank.len() > 0 {
        let s = a + blank;
        assert(s.last() == blank[blank.len() - 1]);
        assert(s.drop_last() == a + blank.drop_last());
        lemma_trimmed_end_of(a, blank.drop_last());
    } else {
        assert(a + blank == a);
    }
}

proof fn lemma_last_word_start(s: Seq<char>, i: int, k: int)
    requires
        0 <= k <= i <= s.len(),
        k > 0 ==> is_space(s[k - 1]),
        forall|j: int| k <= j < i ==> !is_space(#[trigger] s[j]),
    ensures
        last_word_start(s, i) == k,
    decreases i - k,
{
    if i > k {
        lemma_last_word_start(s, i - 1, k);
    }
}

/// Whether a text is a variable's name without white space and quotes around it.
pub open spec fn is_plain_key(key: Seq<char>) -> bool {
    &&& key.len() > 0
    &&& forall|i: int|
        0 <= i < key.len() ==> !is_space(#[trigger] key[i]) && key[i] != '"' && key[i] != '\''
}

proof fn lemma_key_announces(w: Seq<char>, key: Seq<char>)
    requires
        w.len() > 0 ==> is_space(w.last()),
        is_plain_key(key),
        ends(upper(key), "_PORT"@) || key == "port"@ || key == "PORT"@,
    ensures
        ends_in_port_key(w + key + "="@),
{
    reveal_strlit("=");
    reveal_strlit("\"'");
    reveal_strlit("port");
    reveal_strlit("PORT");
    let s = w + key + "="@;
    let n = s.len() as int;
    assert(s.subrange(n - 1, n) == "="@);
    let t = s.drop_last();
    assert(t == w + key);
    let k = w.len() as int;
    assert forall|j: int| k <= j < t.len() implies !is_space(#[trigger] t[j]) by {
        assert(t[j] == key[j - k]);
    }
    if k > 0 {
        assert(t[k - 1] == w.last());
    }
    lemma_last_word_start(t, t.len() as int, k);
    assert(last_word(t) == key) by {
        assert(t.skip(k) == key);
    }
    let set = "\"'"@;
    assert(set.len() == 2 && set[0] == '"' && set[1] == '\'');
    assert(key[0] != '"' && key[0] != '\'');
    assert(key.last() == key[key.len() - 1]);
    assert(!set.contains(key[0]) && !set.contains(key.last()));
    assert(strip_set(key, set) == key);
    if key == "port"@ || key == "PORT"@ {
        assert(key.subrange(0, key.len() as int) == key);
    }
}

proof fn lemma_word_announces(w: Seq<char>, word: Seq<char>)
    requires
        w.len() > 0 ==> is_space(w.last()) || w.last() == '"' || w.last() == '\'',
        lower(word) == "port"@,
    ensures
        ends_in_port_word(w + word),
{
    reveal_strlit("port");
    reveal_strlit("\"");
    reveal_strlit("'");
    let s = w + word;
    let n = s.len() as int;
    let m = w.len() as int;
    assert(word.len() == 4) by {
        assert(lower(word).len() == word.len());
    }
    assert(s.last() == word[3]);
    assert(lower(word)[3] == 't');
    assert(word[3] != '"' && word[3] != '\'');
    assert(!ends(s, "\""@)) by {
        if ends(s, "\""@) {
            assert(s.subrange(n - 1, n)[0] == s[n - 1]);
        }
    }
    assert(!ends(s, "'"@)) by {
        if ends(s, "'"@) {
            assert(s.subrange(n - 1, n)[0] == s[n - 1]);
        }
    }
    assert(without_quote(s) == s);
    assert(lower(s).subrange(m, n) == lower(word));
    assert(ends(lower(s), "port"@));
    if m > 0 {
        assert(s[n - 5] == w.last());
    }
}

/// A port is exchanged where it stands as one: behind a colon, behind an assignment to a variable
/// that is called `port` or `PORT`, or whose name ends in `_PORT` in any case, or behind the word
/// `port`; white space between does not matter. All before it stays, and what follows is gone
/// through in the same way.
pub proof fn law_announced_ports_are_exchanged(
    w: Seq<char>,
    key: Seq<char>,
    word: Seq<char>,
    blank: Seq<char>,
    behind: Seq<char>,
    old_port: nat,
    new_port: nat,
)
    requires
        is_plain_key(key) && (ends(upper(key), "_PORT"@) || key == "port"@ || key == "PORT"@),
        lower(word) == "port"@,
        forall|i: int| 0 <= i < blank.len() ==> is_space(#[trigger] blank[i]),
        behind.len() > 0 ==> !is_digit(behind[0]),
    ensures
        ({
            let first = |before: Seq<char>|
                forall|j: int|
                    0 <= j < before.len() ==> !(#[trigger] matches_at(
                        before + decimal(old_port) + behind,
                        decimal(old_port),
                        j,
                    ));
            let exchanged = |before: Seq<char>|
                port_moved(before + decimal(old_port) + behind, old_port, new_port) == before
                    + decimal(new_port) + port_moved(behind, old_port, new_port);
            &&& first(w + ":"@ + blank) ==> exchanged(w + ":"@ + blank)
            &&& first(w + key + "="@ + blank) && (w.len() > 0 ==> is_space(w.last())) ==> exchanged(
                w + key + "="@ + blank,
            )
            &&& first(w + word + blank) && blank.len() > 0 && (w.len() > 0 ==> is_space(w.last())
                || w.last() == '"' || w.last() == '\'') ==> exchanged(w + word + blank)
        }),
{
    reveal_strlit(":");
    reveal_strlit("=");
    reveal_strlit("port");
    assert(!is_space(':') && !is_space('='));
    let colon = w + ":"@;
    let n = colon.len() as int;
    assert(colon.subrange(n - 1, n) == ":"@);
    lemma_trimmed_end_of(colon, blank);
    lemma_last_is_no_digit(colon, blank);
    let assigned = w + key + "="@;
    lemma_trimmed_end_of(assigned, blank);
    lemma_last_is_no_digit(assigned, blank);
    let called = w + word;
    assert(word.len() == 4) by {
        assert(lower(word).len() == word.len());
    }
    assert(lower(word)[3] == 't');
    assert(called.last() == word[3]);
    assert(!is_space(word[3]) && !is_digit(word[3]));
    lemma_trimmed_end_of(called, blank);
    lemma_last_is_no_digit(called, blank);
    let old = decimal(old_port);
    if forall|j: int|
        0 <= j < (colon + blank).len() ==> !(#[trigger] matches_at(
            colon + blank + old + behind,
            old,
            j,
        )) {
        lemma_first_number(colon + blank, behind, old_port, new_port);
    }
    if (w.len() > 0 ==> is_space(w.last())) {
        lemma_key_announces(w, key);
        if forall|j: int|
            0 <= j < (assigned + blank).len() ==> !(#[trigger] matches_at(
                assigned + blank + old + behind,
                old,
                j,
            )) {
            lemma_first_number(assigned + blank, behind, old_port, new_port);
        }
    }
    if (w.len() > 0 ==> is_space(w.last()) || w.last() == '"' || w.last() == '\'') {
        lemma_word_announces(w, word);
        if forall|j: int|
            0 <= j < (called + blank).len() ==> !(#[trigger] matches_at(
                called + blank + old + behind,
                old,
                j,
            )) {
            lemma_first_number(called + blank, behind, old_port, new_port);
        }
    }
}

proof fn lemma_last_is_no_digit(a: Seq<char>, blank: Seq<char>)
    requires
        a.len() > 0,
        !is_digit(a.last()),
        forall|i: int| 0 <= i < blank.len() ==> is_space(#[trigger] blank[i]),
    ensures
        !is_digit((a + blank).last()),
{
    if blank.len() > 0 {
        assert((a + blank).last() == blank[blank.len() - 1]);
    } else {
        assert(a + blank == a);
    }
}

} // verus!
