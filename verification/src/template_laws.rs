//! Laws of templates: which addresses name a repository, and what is answered to a variable.

use crate::command_laws::{lacks, lemma_first_named};
use crate::env_laws::lemma_trim_stays;
use crate::json::JsonModel;
use crate::process_ports::first_named;
use crate::templates::{
    answer_for, bare_url, hidden_port_set, is_hidden_port, is_repository_url, releases_api,
    repo_address, sets_hidden_port, with_hidden_ports, RepoAddress,
};
use crate::text::{
    after_prefix, cut, decimal, ends, fields, fields_from, is_space, lemma_find_from, matches_at,
    starts, strip_all_end, trimmed, upper,
};
use vstd::prelude::*;
use vstd::string::*;

verus! {

/// Whether a text can be the name of an organisation or of a repository, as they stand in an
/// address: without slash, dot and white space.
pub open spec fn is_plain_name(s: Seq<char>) -> bool {
    &&& s.len() > 0
    &&& forall|i: int|
        0 <= i < s.len() ==> (#[trigger] s[i]) != '/' && s[i] != '.' && !is_space(s[i])
}

/// The address of a repository.
pub open spec fn repository(org: Seq<char>, name: Seq<char>) -> Seq<char> {
    "https://github.com/"@ + org + "/"@ + name
}

proof fn lemma_field_skip(s: Seq<char>, sep: char, start: int, i: int, e: int)
    requires
        0 <= start <= i <= e <= s.len(),
        forall|j: int| i <= j < e ==> #[trigger] s[j] != sep,
    ensures
        fields_from(s, sep, start, i) == fields_from(s, sep, start, e),
    decreases e - i,
{
    if i < e {
        lemma_field_skip(s, sep, start, i + 1, e);
    }
}

proof fn lemma_two_fields(org: Seq<char>, name: Seq<char>)
    requires
        is_plain_name(org),
        is_plain_name(name),
    ensures
        fields(org + "/"@ + name, '/') == seq![org, name],
{
    reveal_strlit("/");
    let s = org + "/"@ + name;
    let n = org.len() as int;
    let e = s.len() as int;
    assert forall|j: int| 0 <= j < n implies #[trigger] s[j] != '/' by {
        assert(s[j] == org[j]);
    }
    assert forall|j: int| n + 1 <= j < e implies #[trigger] s[j] != '/' by {
        assert(s[j] == name[j - n - 1]);
    }
    assert(s[n] == '/');
    lemma_field_skip(s, '/', 0, 0, n);
    lemma_field_skip(s, '/', n + 1, n + 1, e);
    assert(s.subrange(0, n) == org);
    assert(s.skip(n + 1) == name);
    assert(fields(s, '/') == seq![org, name]);
}

proof fn lemma_bare_stays(org: Seq<char>, name: Seq<char>)
    requires
        is_plain_name(org),
        is_plain_name(name),
    ensures
        bare_url(repository(org, name)) == repository(org, name),
        bare_url(repository(org, name) + ".git"@) == repository(org, name),
        after_prefix(repository(org, name), "https://github.com/"@) == Some(org + "/"@ + name),
{
    reveal_strlit("/");
    reveal_strlit(".git");
    reveal_strlit("https://github.com/");
    let url = repository(org, name);
    let n = url.len() as int;
    assert(url.last() == name.last());
    assert(name.last() == name[name.len() - 1]);
    assert(!ends(url, "/"@)) by {
        if ends(url, "/"@) {
            assert(url.subrange(n - 1, n)[0] == url[n - 1]);
        }
    }
    assert(!ends(url, ".git"@)) by {
        if ends(url, ".git"@) {
            assert(url.subrange(n - 4, n)[0] == url[n - 4]);
            assert(url.subrange(n - 4, n)[1] == url[n - 3]);
            assert(url.subrange(n - 4, n)[2] == url[n - 2]);
            let k = n - name.len();
            assert(url[k - 1] == '/');
            if n - 4 >= k {
                assert(url[n - 4] == name[n - 4 - k]);
            }
        }
    }
    let git = url + ".git"@;
    let m = git.len() as int;
    assert(git.subrange(n, m) == ".git"@);
    assert(git.last() == 't');
    assert(!ends(git, "/"@)) by {
        if ends(git, "/"@) {
            assert(git.subrange(m - 1, m)[0] == git[m - 1]);
        }
    }
    assert(git.take(n) == url);
    reveal_with_fuel(strip_all_end, 2);
    let p = "https://github.com/"@;
    assert(url.subrange(0, p.len() as int) == p);
    assert(url.skip(p.len() as int) == org + "/"@ + name);
}

proof fn lemma_is_repository(org: Seq<char>, name: Seq<char>)
    requires
        is_plain_name(org),
        is_plain_name(name),
    ensures
        is_repository_url(repository(org, name)),
{
    lemma_bare_stays(org, name);
    lemma_two_fields(org, name);
}

/// Two texts that agree, each with a word before its first slash, have the same word.
proof fn lemma_same_segment(word: Seq<char>, more: Seq<char>, v: Seq<char>, k: int)
    requires
        lacks(word, '/'),
        lacks(v, '/'),
        0 <= k,
        k == v.len() + 1,
        k <= (word + "/"@ + more).len(),
        (word + "/"@ + more).take(k) == v + "/"@,
    ensures
        word == v,
{
    reveal_strlit("/");
    let s = word + "/"@ + more;
    let t = s.take(k);
    let n = word.len() as int;
    let m = v.len() as int;
    assert(t[m] == '/');
    if n < m {
        assert(t[n] == s[n] && s[n] == '/');
        assert(t[n] == v[n]);
    } else if n > m {
        assert(t[m] == s[m] && s[m] == word[m]);
    } else {
        assert forall|i: int| 0 <= i < n implies word[i] == v[i] by {
            assert(t[i] == s[i] && s[i] == word[i] && t[i] == v[i]);
        }
        assert(word == v);
    }
}

/// Whether a name is not that of a page of a repository.
pub open spec fn is_no_page(name: Seq<char>) -> bool {
    name != "tree"@ && name != "releases"@
}

proof fn lemma_found_behind(
    org: Seq<char>,
    name: Seq<char>,
    v: Seq<char>,
    tail: Seq<char>,
    rest: Seq<char>,
)
    requires
        is_plain_name(org) && is_no_page(org),
        is_plain_name(name) && is_no_page(name),
        v == "tree"@ || v == "releases"@,
    ensures
        ({
            let mark = "/"@ + v + "/"@ + tail;
            cut(repository(org, name) + mark + rest, mark) == Some((repository(org, name), rest))
        }),
{
    let mark = "/"@ + v + "/"@ + tail;
    let url = repository(org, name);
    let s = url + mark + rest;
    let n = url.len() as int;
    lemma_find_from(s, mark, 0);
    assert(s.subrange(n, n + mark.len()) == mark);
    assert(matches_at(s, mark, n));
    assert forall|j: int| 0 <= j < n implies !matches_at(s, mark, j) by {
        lemma_not_earlier(org, name, v, tail, rest, j);
    }
    assert(s.take(n) == url);
    assert(s.skip(n + mark.len()) == rest);
}

proof fn lemma_not_earlier(
    org: Seq<char>,
    name: Seq<char>,
    v: Seq<char>,
    tail: Seq<char>,
    rest: Seq<char>,
    j: int,
)
    requires
        is_plain_name(org) && is_no_page(org),
        is_plain_name(name) && is_no_page(name),
        v == "tree"@ || v == "releases"@,
        0 <= j < repository(org, name).len(),
    ensures
        !matches_at(
            repository(org, name) + ("/"@ + v + "/"@ + tail) + rest,
            "/"@ + v + "/"@ + tail,
            j,
        ),
{
    let mark = "/"@ + v + "/"@ + tail;
    let more = mark + rest;
    let s = repository(org, name) + more;
    assert(repository(org, name) + mark + rest == s);
    lemma_page_names(v);
    lemma_address_chars(org, name, more);
    assert(name + more == name + "/"@ + (v + "/"@ + tail + rest));
    lemma_not_at(s, org, name + more, v, tail, 18, j);
    lemma_not_at(s, name, v + "/"@ + tail + rest, v, tail, 19 + org.len() as int, j);
    if matches_at(s, mark, j) {
        lemma_first_two(s, v, tail, j);
    }
}

proof fn lemma_first_two(s: Seq<char>, v: Seq<char>, tail: Seq<char>, j: int)
    requires
        v.len() > 0,
        matches_at(s, "/"@ + v + "/"@ + tail, j),
    ensures
        s[j] == '/',
        s[j + 1] == v[0],
{
    reveal_strlit("/");
    let mark = "/"@ + v + "/"@ + tail;
    let w = s.subrange(j, j + mark.len());
    assert(w[0] == s[j] && w[1] == s[j + 1]);
    assert(mark[0] == '/' && mark[1] == v[0]);
}

/// A page does not start where another name does.
proof fn lemma_not_at(
    s: Seq<char>,
    word: Seq<char>,
    more: Seq<char>,
    v: Seq<char>,
    tail: Seq<char>,
    at: int,
    j: int,
)
    requires
        lacks(word, '/'),
        lacks(v, '/'),
        word != v,
        0 <= at < s.len(),
        s.skip(at + 1) == word + "/"@ + more,
    ensures
        j == at ==> !matches_at(s, "/"@ + v + "/"@ + tail, j),
{
    let mark = "/"@ + v + "/"@ + tail;
    if j == at && matches_at(s, mark, j) {
        lemma_segment_of(s, mark, v, tail, j);
        lemma_same_segment(word, more, v, v.len() as int + 1);
    }
}

proof fn lemma_page_names(v: Seq<char>)
    requires
        v == "tree"@ || v == "releases"@,
    ensures
        lacks(v, '/'),
        v.len() > 0,
        v[0] == 't' || v[0] == 'r',
{
    reveal_strlit("tree");
    reveal_strlit("releases");
}

/// Where the slashes of an address are, and what stands behind them.
proof fn lemma_address_chars(org: Seq<char>, name: Seq<char>, more: Seq<char>)
    requires
        is_plain_name(org),
        is_plain_name(name),
    ensures
        ({
            let s = repository(org, name) + more;
            let o = 19 + org.len() as int;
            &&& lacks(org, '/') && lacks(name, '/')
            &&& s.len() > o + 1
            &&& s.skip(19) == org + "/"@ + (name + more)
            &&& s.skip(o + 1) == name + more
            &&& forall|j: int|
                0 <= j < repository(org, name).len() && #[trigger] s[j] == '/' ==> j == 18 || j == o
                    || (j < 18 && s[j + 1] != 't' && s[j + 1] != 'r')
        }),
{
    reveal_strlit("/");
    reveal_strlit("https://github.com/");
    let s = repository(org, name) + more;
    let o = 19 + org.len() as int;
    assert(s.skip(19) == org + "/"@ + (name + more));
    assert(s.skip(o + 1) == name + more);
    assert forall|j: int| 0 <= j < repository(org, name).len() && #[trigger] s[j] == '/' implies j
        == 18 || j == o || (j < 18 && s[j + 1] != 't' && s[j + 1] != 'r') by {
        if j < 18 {
            assert(s[j] == "https://github.com/"@[j]);
            assert(s[j + 1] == "https://github.com/"@[j + 1]);
        } else if 18 < j < o {
            assert(s[j] == org[j - 19]);
        } else if j > o {
            assert(s[j] == name[j - o - 1]);
        }
    }
}

proof fn lemma_segment_of(s: Seq<char>, mark: Seq<char>, v: Seq<char>, tail: Seq<char>, j: int)
    requires
        mark == "/"@ + v + "/"@ + tail,
        matches_at(s, mark, j),
    ensures
        s.skip(j + 1).len() >= v.len() + 1,
        s.skip(j + 1).take(v.len() as int + 1) == v + "/"@,
{
    reveal_strlit("/");
    let k = v.len() as int + 1;
    let w = s.subrange(j, j + mark.len());
    assert(mark.subrange(1, k + 1) == v + "/"@);
    assert(s.skip(j + 1).take(k) == w.subrange(1, k + 1));
}

/// No page stands in the bare address of a repository.
proof fn lemma_not_in_bare(org: Seq<char>, name: Seq<char>, v: Seq<char>, tail: Seq<char>)
    requires
        is_plain_name(org) && is_no_page(org),
        is_plain_name(name) && is_no_page(name),
        v == "tree"@ || v == "releases"@,
    ensures
        cut(repository(org, name), "/"@ + v + "/"@ + tail) is None,
        !ends(repository(org, name), "/"@ + v),
{
    reveal_strlit("/");
    reveal_strlit("tree");
    reveal_strlit("releases");
    reveal_strlit("https://github.com/");
    let mark = "/"@ + v + "/"@ + tail;
    let s = repository(org, name);
    let n = s.len() as int;
    let o = 19 + org.len() as int;
    let k = v.len() as int + 1;
    assert(lacks(org, '/') && lacks(name, '/') && lacks(v, '/'));
    lemma_find_from(s, mark, 0);
    assert forall|j: int| !matches_at(s, mark, j) by {
        if matches_at(s, mark, j) {
            let w = s.subrange(j, j + mark.len());
            assert(w[0] == s[j]);
            assert(w[1] == s[j + 1]);
            assert(w[k] == s[j + k]);
            assert(mark[0] == '/' && mark[1] == v[0] && mark[k] == '/');
            assert(mark.subrange(1, k + 1) == v + "/"@);
            assert(s.subrange(j + 1, j + 1 + k) == w.subrange(1, k + 1));
            if j < 18 {
                assert(s[j] == "https://github.com/"@[j]);
                assert(s[j + 1] == "https://github.com/"@[j + 1]);
            } else if j == 18 {
                assert(s.skip(19) == org + "/"@ + name);
                assert(s.skip(19).take(k) == s.subrange(19, 19 + k));
                lemma_same_segment(org, name, v, k);
            } else if j < o {
                assert(s[j] == org[j - 19]);
            } else if j == o {
                assert(s[j + k] == name[j + k - o - 1]);
            } else {
                assert(s[j] == name[j - o - 1]);
            }
        }
    }
    let page = "/"@ + v;
    if ends(s, page) {
        let j = n - page.len();
        let w = s.subrange(j, n);
        assert(w[0] == s[j]);
        assert(w == page);
        if j > o {
            assert(s[j] == name[j - o - 1]);
        } else if j == o {
            assert(s.subrange(o + 1, n) == name);
            assert(w.subrange(1, page.len() as int) == v);
            assert(s.subrange(o + 1, n) == w.subrange(1, page.len() as int));
        } else {
            assert(w[o - j] == s[o]);
            assert(s[o] == '/');
            assert(page[o - j] == v[o - j - 1]);
        }
    }
}

proof fn lemma_no_latest(org: Seq<char>, name: Seq<char>)
    requires
        is_plain_name(org) && is_no_page(org),
        is_plain_name(name),
    ensures
        !ends(repository(org, name), "/releases/latest"@),
{
    reveal_strlit("/");
    reveal_strlit("releases");
    reveal_strlit("/releases/latest");
    reveal_strlit("https://github.com/");
    let s = repository(org, name);
    let page = "/releases/latest"@;
    let n = s.len() as int;
    let o = 19 + org.len() as int;
    if ends(s, page) {
        let j = n - 16;
        let w = s.subrange(j, n);
        assert(w == page);
        assert(w[0] == s[j] && w[9] == s[j + 9]);
        assert(s[o] == '/' && s[18] == '/');
        if j + 9 > o {
            assert(s[j + 9] == name[j + 9 - o - 1]);
        } else if j + 9 < o {
            assert(w[o - j] == s[o]);
        }
        if j > 18 {
            assert(s[j] == org[j - 19]);
        } else if j < 18 {
            assert(w[18 - j] == s[18]);
        } else {
            assert(org == "releases"@) by {
                assert forall|i: int| 0 <= i < 8 implies org[i] == "releases"@[i] by {
                    assert(w[i + 1] == s[19 + i]);
                    assert(s[19 + i] == org[i]);
                    assert(page[i + 1] == "releases"@[i]);
                }
            }
        }
    }
}

proof fn lemma_accepted_start(url: Seq<char>)
    requires
        url.len() >= 19,
        url.take(19) == "https://github.com/"@,
        !is_space(url.last()),
    ensures
        trimmed(url) == url,
        starts(url, "https://"@),
{
    reveal_strlit("https://");
    reveal_strlit("https://github.com/");
    assert(url[0] == url.take(19)[0]);
    lemma_trim_stays(url);
    assert(url.subrange(0, 8) == url.take(19).subrange(0, 8));
    assert(url.subrange(0, 8) == "https://"@);
}

/// The address of a repository is accepted as it is; behind the page of a release it gives the
/// tag to check out, and behind that of a branch the branch. Left out are organisations and
/// repositories that are called like those pages, and branches that name a page of releases.
pub proof fn law_repository_addresses_are_read(
    org: Seq<char>,
    name: Seq<char>,
    checkout: Seq<char>,
)
    requires
        is_plain_name(org) && is_no_page(org),
        is_plain_name(name) && is_no_page(name),
        checkout.len() > 0 && !is_space(checkout.last()) && checkout.last() != '/',
    ensures
        ({
            let url = repository(org, name);
            let plain = RepoAddress::Repo { url, checkout: Seq::empty() };
            &&& repo_address(url) == plain
            &&& repo_address(url + "/releases/tag/"@ + checkout) == RepoAddress::Repo {
                url,
                checkout,
            }
            &&& !ends(
                url + "/tree/"@ + checkout,
                "/releases"@,
            ) && !ends(url + "/tree/"@ + checkout, "/releases/latest"@) && cut(
                url + "/tree/"@ + checkout,
                "/releases/tag/"@,
            ) is None ==> repo_address(url + "/tree/"@ + checkout) == RepoAddress::Repo {
                url,
                checkout,
            }
        }),
{
    reveal_strlit("https://");
    reveal_strlit("https://github.com/");
    reveal_strlit("/");
    reveal_strlit("/tree/");
    reveal_strlit("tree");
    reveal_strlit("releases");
    reveal_strlit("tag/");
    reveal_strlit("/releases");
    reveal_strlit("/releases/tag/");
    reveal_strlit("/releases/latest");
    reveal_strlit("latest");
    let url = repository(org, name);
    lemma_is_repository(org, name);
    assert("/releases/tag/"@ == "/"@ + "releases"@ + "/"@ + "tag/"@);
    assert("/releases/latest"@ == "/"@ + "releases"@ + "/"@ + "latest"@);
    assert("/tree/"@ == "/"@ + "tree"@ + "/"@ + Seq::<char>::empty());
    assert("/releases"@ == "/"@ + "releases"@);
    lemma_not_in_bare(org, name, "releases"@, "tag/"@);
    lemma_not_in_bare(org, name, "releases"@, "latest"@);
    lemma_not_in_bare(org, name, "tree"@, Seq::empty());
    lemma_found_behind(org, name, "releases"@, "tag/"@, checkout);
    lemma_found_behind(org, name, "tree"@, Seq::empty(), checkout);
    assert(name.last() == name[name.len() - 1]);
    assert(url.last() == name.last());
    assert(url.take(19) == "https://github.com/"@);
    lemma_accepted_start(url);
    lemma_no_latest(org, name);
    let tagged = url + "/releases/tag/"@ + checkout;
    assert(tagged.last() == checkout.last());
    assert(tagged.take(19) == "https://github.com/"@);
    lemma_accepted_start(tagged);
    let n = checkout.len() as int;
    assert(!ends(checkout, "/"@)) by {
        if ends(checkout, "/"@) {
            assert(checkout.subrange(n - 1, n)[0] == checkout.last());
        }
    }
    assert(strip_all_end(checkout, "/"@) == checkout);
    let branch = url + "/tree/"@ + checkout;
    assert(branch.last() == checkout.last());
    assert(branch.take(19) == "https://github.com/"@);
    lemma_accepted_start(branch);
}

/// The latest release of a repository on GitHub is asked for under organisation and name, whether
/// the address ends in `.git` or not.
pub proof fn law_releases_are_asked_for(org: Seq<char>, name: Seq<char>)
    requires
        is_plain_name(org) && is_plain_name(name),
    ensures
        ({
            let api = "https://api.github.com/repos/"@ + org + "/"@ + name + "/releases/latest"@;
            &&& releases_api(repository(org, name)) == Some(api)
            &&& releases_api(repository(org, name) + ".git"@) == Some(api)
        }),
{
    lemma_bare_stays(org, name);
    lemma_two_fields(org, name);
}

/// The variables of a template are answered: the project's name and its slug are given, the author
/// is the desktop, a port gets the first resolved port of its name, and all else the default.
pub proof fn law_variables_are_answered(
    variable: Seq<char>,
    name: Seq<char>,
    lowered: Seq<char>,
    ports: Seq<(Seq<char>, int)>,
    k: int,
)
    requires
        0 <= k <= ports.len(),
        k < ports.len() ==> ports[k].0 == upper(variable),
        forall|j: int| 0 <= j < k ==> (#[trigger] ports[j]).0 != upper(variable),
    ensures
        ({
            let answer = answer_for(variable, name, lowered, ports);
            &&& variable == "project_name"@ ==> answer == name
            &&& variable == "author"@ ==> answer == "AgentSeek Desktop"@
            &&& variable == "project_slug"@ ==> answer.len() == lowered.len() && forall|i: int|
                0 <= i < lowered.len() ==> #[trigger] answer[i] == (if lowered[i] == ' '
                    || lowered[i] == '-' {
                    '_'
                } else {
                    lowered[i]
                })
            &&& ends(variable, "_port"@) && k < ports.len() ==> answer == decimal(
                ports[k].1 as nat,
            )
            &&& ends(variable, "_port"@) && k == ports.len() ==> answer.len() == 0
            &&& !ends(variable, "_port"@) && variable != "project_name"@ && variable
                != "project_slug"@ && variable != "author"@ ==> answer.len() == 0
        }),
{
    reveal_strlit("project_name");
    reveal_strlit("project_slug");
    reveal_strlit("author");
    reveal_strlit("_port");
    assert("project_name"@.len() == 12 && "project_slug"@.len() == 12 && "author"@.len() == 6);
    assert("project_name"@[8] != "project_slug"@[8]);
    if ends(variable, "_port"@) {
        let n = variable.len() as int;
        assert(variable.subrange(n - 5, n)[4] == variable[n - 1]);
        assert("project_name"@[11] == 'e' && "project_slug"@[11] == 'g' && "author"@[5] == 'r');
        assert(variable.subrange(n - 5, n)[0] == variable[n - 5]);
        assert("author"@[1] == 'u');
    }
    lemma_first_named(ports, upper(variable), 0, k);
}

/// In the variables of a template, each port that is not asked for and has a resolved port gets
/// that; all else stays, in its place. Where there is none, nothing changes.
pub proof fn law_hidden_ports_are_set(
    members: Seq<(Seq<char>, JsonModel)>,
    ports: Seq<(Seq<char>, int)>,
    i: int,
    k: int,
)
    requires
        0 <= i < members.len(),
        0 <= k <= ports.len(),
        k < ports.len() ==> ports[k].0 == upper(members[i].0),
        forall|j: int| 0 <= j < k ==> (#[trigger] ports[j]).0 != upper(members[i].0),
    ensures
        ({
            let hidden = starts(members[i].0, "_"@) && ends(members[i].0, "_port"@) && k
                < ports.len();
            match with_hidden_ports(JsonModel::Object(members), ports) {
                Some(JsonModel::Object(out)) => out.len() == members.len() && out[i].0
                    == members[i].0 && out[i].1 == (if hidden {
                    JsonModel::Natural(ports[k].1 as u64)
                } else {
                    members[i].1
                }),
                Some(_) => false,
                None => !hidden,
            }
        }),
{
    lemma_first_named(ports, upper(members[i].0), 0, k);
    lemma_some_hidden(members, ports, 0, i);
    if let Some(JsonModel::Object(out)) = with_hidden_ports(JsonModel::Object(members), ports) {
        assert(out[i] == hidden_port_set(members[i], ports));
    }
}

proof fn lemma_some_hidden(
    members: Seq<(Seq<char>, JsonModel)>,
    ports: Seq<(Seq<char>, int)>,
    i: int,
    k: int,
)
    requires
        0 <= i <= k < members.len(),
    ensures
        is_hidden_port(members[k].0) && first_named(ports, upper(members[k].0), 0) is Some
            ==> sets_hidden_port(members, ports, i),
    decreases k - i,
{
    if i < k {
        lemma_some_hidden(members, ports, i + 1, k);
    }
}

} // verus!
