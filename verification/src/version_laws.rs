//! Laws of versions: how they are read, compared and ordered.

use crate::cli::{
    at_least, at_least_from, by_version, comes_before, higher_from, highest_of, longer, major, part,
};
use crate::models::{
    digits_end, first_digit_from, lemma_digits_end, version_from, version_numbers,
};
use crate::text::{decimal, is_digit, law_decimal_parses_back, lemma_decimal_value};
use vstd::prelude::*;

verus! {

proof fn lemma_decided(a: Seq<u64>, b: Seq<u64>, i: int, n: int, k: int)
    requires
        0 <= i <= k < n,
        forall|j: int| i <= j < k ==> #[trigger] part(a, j) == part(b, j),
        part(a, k) != part(b, k),
    ensures
        at_least_from(a, b, i, n) <==> part(a, k) > part(b, k),
    decreases k - i,
{
    if i < k {
        assert(part(a, i) == part(b, i));
        lemma_decided(a, b, i + 1, n, k);
    }
}

proof fn lemma_even(a: Seq<u64>, b: Seq<u64>, i: int, n: int)
    requires
        0 <= i,
        forall|j: int| i <= j < n ==> #[trigger] part(a, j) == part(b, j),
    ensures
        at_least_from(a, b, i, n),
    decreases n - i,
{
    if i < n {
        assert(part(a, i) == part(b, i));
        lemma_even(a, b, i + 1, n);
    }
}

/// A number of a version; zero behind its end.
pub open spec fn component(version: Seq<u64>, i: int) -> int {
    if i < version.len() {
        version[i] as int
    } else {
        0
    }
}

/// The first component in which two versions differ decides, missing ones counting as zero: the
/// version with the greater number is at least the other, and the other is not at least it.
/// Versions without a difference are each at least the other.
pub proof fn law_the_first_difference_decides(a: Seq<u64>, b: Seq<u64>, k: int)
    requires
        0 <= k,
        forall|j: int| 0 <= j < k ==> #[trigger] component(a, j) == component(b, j),
    ensures
        component(a, k) > component(b, k) ==> at_least(a, b) && !at_least(b, a),
        k >= a.len() && k >= b.len() ==> at_least(a, b) && at_least(b, a),
{
    assert forall|j: int| 0 <= j < k implies #[trigger] part(a, j) == part(b, j) by {
        assert(component(a, j) == component(b, j));
    }
    let n = longer(a, b);
    if k >= a.len() && k >= b.len() {
        lemma_even(a, b, 0, n);
        lemma_even(b, a, 0, n);
    } else if part(a, k) > part(b, k) {
        lemma_decided(a, b, 0, n, k);
        lemma_decided(b, a, 0, n, k);
    }
}

// ---------------------------------------------------------------------------
// Reading versions
// ---------------------------------------------------------------------------

proof fn lemma_first_digit(s: Seq<char>, i: int, k: int)
    requires
        0 <= i <= k < s.len(),
        is_digit(s[k]),
        forall|j: int| i <= j < k ==> !is_digit(#[trigger] s[j]),
    ensures
        first_digit_from(s, i) == k,
    decreases k - i,
{
    if i < k {
        lemma_first_digit(s, i + 1, k);
    }
}

proof fn lemma_run_ends(s: Seq<char>, i: int, e: int)
    requires
        0 <= i <= e <= s.len(),
        forall|j: int| i <= j < e ==> is_digit(#[trigger] s[j]),
        e < s.len() ==> !is_digit(s[e]),
    ensures
        digits_end(s, i) == e,
    decreases e - i,
{
    if i < e {
        lemma_run_ends(s, i + 1, e);
    }
}

proof fn lemma_version_shift(s: Seq<char>, k: int, i: int)
    requires
        0 <= k <= i,
        k <= s.len(),
    ensures
        version_from(s, i) == version_from(s.skip(k), i - k),
    decreases s.len() + 1 - i,
{
    let t = s.skip(k);
    if i < s.len() {
        assert(t[i - k] == s[i]);
        if is_digit(s[i]) {
            lemma_digits_end(s, i);
            lemma_digits_end(t, i - k);
            let e = digits_end(s, i);
            assert forall|j: int| i - k <= j < e - k implies is_digit(#[trigger] t[j]) by {
                assert(t[j] == s[j + k]);
            }
            if e < s.len() {
                assert(t[e - k] == s[e]);
            }
            lemma_run_ends(t, i - k, e - k);
            assert(t.subrange(i - k, e - k) == s.subrange(i, e));
            lemma_version_shift(s, k, e + 1);
        }
    }
}

/// A version is read as its numbers: behind what has no digit stands the first number; where one
/// character and another digit follow, the rest is read in the same way, and else nothing more.
pub proof fn law_versions_are_read(before: Seq<char>, n: nat, mark: char, rest: Seq<char>)
    requires
        forall|i: int| 0 <= i < before.len() ==> !is_digit(#[trigger] before[i]),
        n <= u64::MAX,
        !is_digit(mark),
    ensures
        version_numbers(before + decimal(n)) == seq![n as u64],
        version_numbers(before + decimal(n) + seq![mark] + rest) == seq![n as u64] + (if rest.len()
            > 0 && is_digit(rest[0]) {
            version_numbers(rest)
        } else {
            Seq::empty()
        }),
        version_numbers(before) == Seq::<u64>::empty(),
{
    lemma_decimal_value(n);
    law_decimal_parses_back(n, u64::MAX as int);
    let d = decimal(n);
    let k = before.len() as int;
    let e = k + d.len();
    let short = before + d;
    assert(is_digit(d[0]));
    assert(short[k] == d[0]);
    assert forall|j: int| 0 <= j < k implies !is_digit(#[trigger] short[j]) by {
        assert(short[j] == before[j]);
    }
    lemma_first_digit(short, 0, k);
    assert forall|j: int| k <= j < e implies is_digit(#[trigger] short[j]) by {
        assert(short[j] == d[j - k]);
        assert(is_digit(d[j - k]));
    }
    lemma_run_ends(short, k, e);
    assert(short.subrange(k, e) == d);
    assert(version_from(short, e + 1) == Seq::<u64>::empty());
    assert(version_from(short, k) == seq![n as u64] + Seq::<u64>::empty());
    let s = before + d + seq![mark] + rest;
    assert forall|j: int| 0 <= j < e implies #[trigger] s[j] == short[j] by {}
    assert(s[e] == mark);
    assert(s[k] == d[0]);
    assert forall|j: int| 0 <= j < k implies !is_digit(#[trigger] s[j]) by {
        assert(s[j] == short[j]);
        assert(!is_digit(short[j]));
    }
    lemma_first_digit(s, 0, k);
    assert forall|j: int| k <= j < e implies is_digit(#[trigger] s[j]) by {
        assert(is_digit(short[j]));
    }
    lemma_run_ends(s, k, e);
    assert(s.subrange(k, e) == d);
    lemma_version_shift(s, e + 1, e + 1);
    assert(s.skip(e + 1) == rest);
    if rest.len() > 0 && is_digit(rest[0]) {
        lemma_first_digit(rest, 0, 0);
    }
    assert(seq![n as u64] + Seq::<u64>::empty() == seq![n as u64]);
    lemma_no_digit(before, 0);
}

proof fn lemma_no_digit(s: Seq<char>, i: int)
    requires
        0 <= i <= s.len(),
        forall|j: int| 0 <= j < s.len() ==> !is_digit(#[trigger] s[j]),
    ensures
        version_from(s, first_digit_from(s, i)) == Seq::<u64>::empty(),
    decreases s.len() - i,
{
    if i < s.len() {
        lemma_no_digit(s, i + 1);
    }
}

// ---------------------------------------------------------------------------
// Ordering versions
// ---------------------------------------------------------------------------

/// Whether two lists of numbers agree up to a place, and there the first has the smaller number,
/// or ends where the other goes on.
pub open spec fn is_smaller_at(a: Seq<u64>, b: Seq<u64>, k: int) -> bool {
    &&& 0 <= k <= a.len()
    &&& k < b.len()
    &&& forall|j: int| 0 <= j < k ==> #[trigger] a[j] == b[j]
    &&& k == a.len() || a[k] < b[k]
}

/// A list of numbers comes before another exactly if there is a place up to which they agree, and
/// at which it has the smaller number, or ends where the other goes on.
pub proof fn law_smaller_versions_come_before(a: Seq<u64>, b: Seq<u64>)
    ensures
        comes_before(a, b, 0) <==> exists|k: int| #[trigger] is_smaller_at(a, b, k),
{
    lemma_comes_before(a, b, 0);
}

proof fn lemma_comes_before(a: Seq<u64>, b: Seq<u64>, i: int)
    requires
        0 <= i <= a.len(),
        i <= b.len(),
        forall|j: int| 0 <= j < i ==> #[trigger] a[j] == b[j],
    ensures
        comes_before(a, b, i) <==> exists|k: int| #[trigger] is_smaller_at(a, b, k),
    decreases a.len() - i,
{
    if i < a.len() && i < b.len() && a[i] == b[i] {
        lemma_comes_before(a, b, i + 1);
    } else {
        if comes_before(a, b, i) {
            assert(is_smaller_at(a, b, i));
        }
        if exists|k: int| #[trigger] is_smaller_at(a, b, k) {
            let k = choose|k: int| #[trigger] is_smaller_at(a, b, k);
            if k > i {
                assert(a[i] == b[i]);
            } else if k < i {
                assert(a[k] == b[k]);
            }
        }
    }
}

/// Of three lists, what comes before the second does not come behind what the second is not
/// before of.
proof fn lemma_before_transitive(a: Seq<u64>, b: Seq<u64>, c: Seq<u64>, i: int)
    requires
        0 <= i,
        !comes_before(a, b, i),
        !comes_before(b, c, i),
    ensures
        !comes_before(a, c, i),
    decreases a.len() + b.len() + c.len() - 3 * i,
{
    if i < a.len() && i < b.len() && i < c.len() && a[i] == b[i] && b[i] == c[i] {
        lemma_before_transitive(a, b, c, i + 1);
    }
}

proof fn lemma_before_one_way(a: Seq<u64>, b: Seq<u64>, i: int)
    requires
        0 <= i,
        comes_before(a, b, i),
    ensures
        !comes_before(b, a, i),
    decreases a.len() - i,
{
    if i < a.len() && i < b.len() && a[i] == b[i] {
        lemma_before_one_way(a, b, i + 1);
    }
}

/// Whether names stand with the highest version first.
pub open spec fn is_descending(names: Seq<Seq<char>>) -> bool {
    forall|i: int, j: int|
        0 <= i < j < names.len() ==> !comes_before(
            version_numbers(#[trigger] names[i]),
            version_numbers(#[trigger] names[j]),
            0,
        )
}

proof fn lemma_higher_place(sorted: Seq<Seq<char>>, name: Seq<char>, i: int)
    requires
        0 <= i <= sorted.len(),
    ensures
        ({
            let k = higher_from(sorted, name, i);
            &&& i <= k <= sorted.len()
            &&& forall|j: int|
                i <= j < k ==> comes_before(
                    version_numbers(name),
                    version_numbers(#[trigger] sorted[j]),
                    0,
                )
            &&& k < sorted.len() ==> !comes_before(
                version_numbers(name),
                version_numbers(sorted[k]),
                0,
            )
        }),
    decreases sorted.len() - i,
{
    if i < sorted.len() && comes_before(version_numbers(name), version_numbers(sorted[i]), 0) {
        lemma_higher_place(sorted, name, i + 1);
    }
}

/// Ordering names by version keeps all of them, each as often, and puts no version before a
/// higher one.
pub proof fn law_highest_versions_come_first(names: Seq<Seq<char>>)
    ensures
        by_version(names).to_multiset() == names.to_multiset(),
        is_descending(by_version(names)),
    decreases names.len(),
{
    broadcast use vstd::seq_lib::group_to_multiset_ensures;

    if names.len() > 0 {
        let rest = names.drop_last();
        let name = names.last();
        let sorted = by_version(rest);
        law_highest_versions_come_first(rest);
        lemma_higher_place(sorted, name, 0);
        let k = higher_from(sorted, name, 0);
        let out = sorted.insert(k, name);
        assert(names == rest.push(name));
        assert forall|i: int, j: int| 0 <= i < j < out.len() implies !comes_before(
            version_numbers(#[trigger] out[i]),
            version_numbers(#[trigger] out[j]),
            0,
        ) by {
            if j < k {
                assert(out[i] == sorted[i] && out[j] == sorted[j]);
            } else if i > k {
                assert(out[i] == sorted[i - 1] && out[j] == sorted[j - 1]);
            } else if i < k && j > k {
                assert(out[i] == sorted[i] && out[j] == sorted[j - 1]);
            } else if j == k {
                assert(out[i] == sorted[i]);
                lemma_before_one_way(version_numbers(name), version_numbers(sorted[i]), 0);
            } else {
                assert(i == k && out[j] == sorted[j - 1]);
                let x = version_numbers(name);
                let y = version_numbers(sorted[k]);
                let z = version_numbers(sorted[j - 1]);
                if j - 1 > k {
                    assert(!comes_before(y, z, 0));
                    lemma_before_transitive(x, y, z, 0);
                }
            }
        }
    } else {
        assert(by_version(names) == names);
    }
}

/// The highest of the names with the first number of a version is one of them, has that number,
/// and no other such name has a higher version; where there is none, none has the number.
pub proof fn law_the_highest_is_picked(names: Seq<Seq<char>>, version: Seq<char>)
    ensures
        match highest_of(names, version) {
            Some(best) => names.contains(best) && major(best) == major(version) && forall|i: int|
                0 <= i < names.len() && major(#[trigger] names[i]) == major(version)
                    ==> !comes_before(version_numbers(best), version_numbers(names[i]), 0),
            None => forall|i: int|
                0 <= i < names.len() ==> major(#[trigger] names[i]) != major(version),
        },
    decreases names.len(),
{
    if names.len() > 0 {
        let rest = names.drop_last();
        let last = names.last();
        let n = names.len() - 1;
        law_the_highest_is_picked(rest, version);
        assert(names[n] == last);
        assert forall|i: int| 0 <= i < n implies #[trigger] names[i] == rest[i] by {}
        match highest_of(rest, version) {
            Some(before) => {
                let w = choose|w: int| 0 <= w < rest.len() && rest[w] == before;
                assert(names[w] == before);
                let x = version_numbers(last);
                let y = version_numbers(before);
                if major(last) == major(version) && !comes_before(x, y, 0) {
                    assert forall|i: int| 0 <= i < names.len() && major(#[trigger] names[i])
                        == major(version) implies !comes_before(x, version_numbers(names[i]), 0) by {
                        if i < n {
                            assert(names[i] == rest[i]);
                            lemma_before_transitive(x, y, version_numbers(names[i]), 0);
                        } else {
                            lemma_not_before_itself(x, 0);
                        }
                    }
                } else {
                    assert forall|i: int| 0 <= i < names.len() && major(#[trigger] names[i])
                        == major(version) implies !comes_before(y, version_numbers(names[i]), 0) by {
                        if i < n {
                            assert(names[i] == rest[i]);
                        } else {
                            lemma_before_one_way(x, y, 0);
                        }
                    }
                }
            },
            None => {
                lemma_not_before_itself(version_numbers(last), 0);
                assert forall|i: int| 0 <= i < names.len() && i != n implies major(
                    #[trigger] names[i],
                ) != major(version) by {
                    assert(names[i] == rest[i]);
                }
            },
        }
    }
}

proof fn lemma_not_before_itself(a: Seq<u64>, i: int)
    requires
        0 <= i,
    ensures
        !comes_before(a, a, i),
    decreases a.len() - i,
{
    if i < a.len() {
        lemma_not_before_itself(a, i + 1);
    }
}

} // verus!
