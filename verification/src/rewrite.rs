//! Texts rewritten line by line: each line keeps what ends it, and its place.

use crate::env_laws::{is_one_line, lemma_chunks_shift, lemma_first_chunk, lemma_joined_first};
use crate::text::{
    chunks, chunks_from, find_from, join, joined, joined_from, lemma_find_from, line_body,
    line_content, lines, matches_at, skip, split_inclusive, texts,
};
use vstd::prelude::*;
use vstd::string::*;

verus! {

/// What ends a line: the line feed, with a carriage return before it, or nothing.
pub open spec fn line_end(chunk: Seq<char>) -> Seq<char> {
    chunk.skip(line_body(chunk).len() as int)
}

/// The given lines, each with what ends the line of the text at its place.
pub open spec fn ended_lines(s: Seq<char>, ls: Seq<Seq<char>>) -> Seq<Seq<char>> {
    chunks(s).map(|i: int, chunk: Seq<char>| ls[i] + line_end(chunk))
}

/// A text with its lines exchanged for others, one for one.
pub open spec fn with_lines(s: Seq<char>, ls: Seq<Seq<char>>) -> Seq<char> {
    joined(ended_lines(s, ls), ""@)
}

/// Exchanges the lines of a text for others, one for one.
pub fn exchange_lines(content: &str, ls: &Vec<String>) -> (r: String)
    requires
        ls@.len() == lines(content@).len(),
    ensures
        r@ == with_lines(content@, texts(ls@)),
{
    let parts = split_inclusive(content);
    let ghost cs = chunks(content@);
    let ghost ts = texts(ls@);
    let ghost whole = ended_lines(content@, ts);
    let mut out: Vec<String> = Vec::new();
    let mut i: usize = 0;
    while i < parts.len()
        invariant
            i <= parts@.len(),
            cs == texts(parts@),
            ts == texts(ls@),
            ts.len() == cs.len(),
            texts(out@) == whole.take(i as int),
            whole == ended_lines(content@, ts),
            cs == chunks(content@),
        decreases parts@.len() - i,
    {
        assert(cs[i as int] == parts@[i as int]@);
        assert(ts[i as int] == ls@[i as int]@);
        let chunk = parts[i].as_str();
        let mut line = ls[i].clone();
        line.append(skip(chunk, line_content(chunk).unicode_len()));
        let ghost model = line@;
        assert(model == whole[i as int]);
        out.push(line);
        assert(texts(out@) == whole.take(i as int).push(model));
        i = i + 1;
    }
    assert(whole.take(whole.len() as int) == whole);
    join(&out, "")
}

// ---------------------------------------------------------------------------
// Lines and their ends
// ---------------------------------------------------------------------------

/// Whether a text is one line: a line feed stands at most at its end.
pub open spec fn is_chunk(s: Seq<char>) -> bool {
    s.len() > 0 && forall|j: int| 0 <= j < s.len() - 1 ==> #[trigger] s[j] != '\n'
}

/// Whether texts are the lines of a text, with what ends them: all but the last have an end.
pub open spec fn are_chunks(ps: Seq<Seq<char>>) -> bool {
    &&& forall|k: int| 0 <= k < ps.len() ==> is_chunk(#[trigger] ps[k])
    &&& forall|k: int| 0 <= k < ps.len() - 1 ==> (#[trigger] ps[k]).last() == '\n'
}

/// The first line of a text that is not empty, with its line feed where it has one, and those
/// behind it.
pub proof fn lemma_chunks_split(s: Seq<char>) -> (n: int)
    requires
        s.len() > 0,
    ensures
        0 < n <= s.len(),
        chunks(s) == seq![s.take(n)] + chunks(s.skip(n)),
        forall|j: int| 0 <= j < n - 1 ==> #[trigger] s[j] != '\n',
        n < s.len() ==> s[n - 1] == '\n',
{
    let k = find_from(s, "\n"@, 0);
    reveal_strlit("\n");
    lemma_find_from(s, "\n"@, 0);
    if k is Some {
        let n = k->0;
        assert(s.subrange(n, n + 1)[0] == s[n]);
        assert forall|j: int| 0 <= j < n implies #[trigger] s[j] != '\n' by {
            if s[j] == '\n' {
                assert(s.subrange(j, j + 1) == "\n"@);
                assert(matches_at(s, "\n"@, j));
            }
        }
        lemma_first_chunk(s, n, 0);
        lemma_chunks_shift(s, n + 1, n + 1, n + 1);
        assert(s.subrange(0, n + 1) == s.take(n + 1));
        n + 1
    } else {
        assert forall|j: int| 0 <= j < s.len() implies #[trigger] s[j] != '\n' by {
            if s[j] == '\n' {
                assert(s.subrange(j, j + 1) == "\n"@);
                assert(matches_at(s, "\n"@, j));
            }
        }
        lemma_one_chunk(s, 0);
        let n = s.len() as int;
        assert(s.skip(n) == Seq::<char>::empty());
        assert(s.skip(0) == s);
        assert(s.take(n) == s);
        n
    }
}

proof fn lemma_one_chunk(s: Seq<char>, i: int)
    requires
        0 <= i <= s.len(),
        s.len() > 0,
        forall|j: int| 0 <= j < s.len() ==> #[trigger] s[j] != '\n',
    ensures
        chunks_from(s, 0, i) == seq![s.skip(0)],
    decreases s.len() - i,
{
    if i < s.len() {
        lemma_one_chunk(s, i + 1);
    }
}

/// Texts put together, the first of them apart.
proof fn lemma_put_together(a: Seq<char>, ps: Seq<Seq<char>>)
    ensures
        joined(seq![a] + ps, ""@) == a + joined(ps, ""@),
{
    reveal_strlit("");
    let all = seq![a] + ps;
    if ps.len() > 0 {
        lemma_joined_first(a, ps, ""@);
        assert(a + ""@ == a);
    } else {
        assert(all == seq![a]);
        assert(joined_from(all, ""@, 1) == Seq::<char>::empty());
        assert(joined_from(all, ""@, 0) == a);
    }
}

/// The lines of a text, with what ends them, make it up.
pub proof fn lemma_chunks_make_up(s: Seq<char>)
    ensures
        are_chunks(chunks(s)),
        joined(chunks(s), ""@) == s,
    decreases s.len(),
{
    if s.len() > 0 {
        let n = lemma_chunks_split(s);
        let first = s.take(n);
        let rest = s.skip(n);
        lemma_chunks_make_up(rest);
        lemma_put_together(first, chunks(rest));
        assert(first + rest == s);
        let cs = chunks(s);
        assert(is_chunk(first));
        assert forall|k: int| 0 <= k < cs.len() implies is_chunk(#[trigger] cs[k]) by {
            if k > 0 {
                assert(cs[k] == chunks(rest)[k - 1]);
            }
        }
        assert forall|k: int| 0 <= k < cs.len() - 1 implies (#[trigger] cs[k]).last() == '\n' by {
            if k > 0 {
                assert(cs[k] == chunks(rest)[k - 1]);
            } else if n == s.len() {
                assert(rest == Seq::<char>::empty());
                assert(chunks(rest) == Seq::<Seq<char>>::empty());
            }
        }
    } else {
        assert(chunks(s) == Seq::<Seq<char>>::empty());
        assert(s == Seq::<char>::empty());
    }
}

/// Lines put together are the lines of what they make up.
pub proof fn lemma_chunks_of_joined(ps: Seq<Seq<char>>)
    requires
        are_chunks(ps),
    ensures
        chunks(joined(ps, ""@)) == ps,
    decreases ps.len(),
{
    if ps.len() == 0 {
        assert(joined(ps, ""@) == Seq::<char>::empty());
        assert(chunks(Seq::<char>::empty()) == Seq::<Seq<char>>::empty());
    } else {
        let a = ps[0];
        let others = ps.skip(1);
        assert(ps == seq![a] + others);
        assert forall|k: int| 0 <= k < others.len() implies is_chunk(#[trigger] others[k]) by {
            assert(others[k] == ps[k + 1]);
        }
        assert forall|k: int| 0 <= k < others.len() - 1 implies (#[trigger] others[k]).last()
            == '\n' by {
            assert(others[k] == ps[k + 1]);
        }
        lemma_chunks_of_joined(others);
        lemma_put_together(a, others);
        let rest = joined(others, ""@);
        let s = a + rest;
        assert(is_chunk(a));
        let n = lemma_chunks_split(s);
        let m = a.len() as int;
        if n < m {
            assert(s[n - 1] == a[n - 1]);
        }
        if others.len() == 0 {
            assert(rest == Seq::<char>::empty());
        } else {
            assert(a.last() == '\n');
            assert(s[m - 1] == a[m - 1]);
        }
        assert(n == m);
        assert(s.take(m) == a);
        assert(s.skip(m) == rest);
    }
}

/// A text with its own lines is itself.
pub proof fn lemma_same_lines(s: Seq<char>)
    ensures
        with_lines(s, lines(s)) == s,
{
    lemma_chunks_make_up(s);
    let cs = chunks(s);
    let all = ended_lines(s, lines(s));
    assert forall|i: int| 0 <= i < cs.len() implies #[trigger] all[i] == cs[i] by {
        lemma_body_and_end(cs[i]);
        assert(lines(s)[i] == line_body(cs[i]));
    }
    assert(all == cs);
}

proof fn lemma_body_and_end(chunk: Seq<char>)
    ensures
        chunk == line_body(chunk) + line_end(chunk),
        line_end(chunk) == Seq::<char>::empty() || line_end(chunk) == seq!['\n'] || line_end(chunk)
            == seq!['\r', '\n'],
        chunk.len() > 0 && chunk.last() == '\n' ==> line_end(chunk).len() > 0,
        line_end(chunk).len() > 0 ==> chunk.len() > 0 && chunk.last() == '\n',
        line_end(chunk) == seq!['\n'] && line_body(chunk).len() > 0 ==> line_body(chunk).last()
            != '\r',
{
    let b = line_body(chunk);
    let e = line_end(chunk);
    assert(chunk.take(b.len() as int) == b);
    assert(chunk == b + e);
    if chunk.len() > 0 && chunk.last() == '\n' {
        if b.len() == chunk.len() - 1 {
            assert(e == seq!['\n']);
        } else {
            assert(e == seq!['\r', '\n']);
        }
    } else {
        assert(e == Seq::<char>::empty());
    }
}

/// Whether a text ends with a carriage return.
pub open spec fn ends_with_return(s: Seq<char>) -> bool {
    s.len() > 0 && s.last() == '\r'
}

/// A text whose lines are exchanged has as many lines as before, and they are the given ones.
/// Left out are given texts of several lines or of none where there was one; one that newly
/// ends with a carriage return may lose that to the end of its line.
pub proof fn law_exchanged_lines_are_read_back(s: Seq<char>, ls: Seq<Seq<char>>)
    requires
        ls.len() == lines(s).len(),
        forall|i: int| 0 <= i < ls.len() ==> is_one_line(#[trigger] ls[i]),
        forall|i: int| 0 <= i < ls.len() && lines(s)[i].len() > 0 ==> (#[trigger] ls[i]).len() > 0,
    ensures
        lines(with_lines(s, ls)).len() == ls.len(),
        forall|i: int|
            0 <= i < ls.len() && (ends_with_return(ls[i]) ==> ends_with_return(lines(s)[i]))
                ==> #[trigger] lines(with_lines(s, ls))[i] == ls[i],
{
    lemma_chunks_make_up(s);
    let cs = chunks(s);
    let ps = ended_lines(s, ls);
    assert forall|k: int| 0 <= k < ps.len() implies is_chunk(#[trigger] ps[k]) by {
        lemma_body_and_end(cs[k]);
        let e = line_end(cs[k]);
        assert(lines(s)[k] == line_body(cs[k]));
        assert(is_one_line(ls[k]));
        assert(ps[k] == ls[k] + e);
        assert(is_chunk(cs[k]));
        assert forall|j: int| 0 <= j < ps[k].len() - 1 implies #[trigger] ps[k][j] != '\n' by {
            if j < ls[k].len() {
                assert(ps[k][j] == ls[k][j]);
            } else {
                assert(ps[k][j] == e[j - ls[k].len()]);
            }
        }
    }
    assert forall|k: int| 0 <= k < ps.len() - 1 implies (#[trigger] ps[k]).last() == '\n' by {
        lemma_body_and_end(cs[k]);
        assert(cs[k].last() == '\n');
        assert(ps[k] == ls[k] + line_end(cs[k]));
    }
    lemma_chunks_of_joined(ps);
    assert forall|i: int|
        0 <= i < ls.len() && (ends_with_return(ls[i]) ==> ends_with_return(
            lines(s)[i],
        )) implies #[trigger] lines(with_lines(s, ls))[i] == ls[i] by {
        lemma_body_and_end(cs[i]);
        let e = line_end(cs[i]);
        assert(lines(s)[i] == line_body(cs[i]));
        assert(ps[i] == ls[i] + e);
        assert(is_one_line(ls[i]));
        if e == Seq::<char>::empty() {
            assert(ps[i] == ls[i]);
            if ls[i].len() > 0 {
                assert(ls[i][ls[i].len() - 1] != '\n');
            }
        } else if e == seq!['\n'] {
            assert(ps[i].drop_last() == ls[i]);
        } else {
            assert(ps[i].drop_last() == ls[i].push('\r'));
            assert(ps[i].drop_last().drop_last() == ls[i]);
        }
    }
}

} // verus!
