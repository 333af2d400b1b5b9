//! Templates: where they come from, what they are called, and the answers that create an
//! instance from one.

use crate::compose_laws::lemma_joined_lines;
use crate::env_laws::is_one_line;
use crate::json::{
    Json, JsonModel, get_text, json_pretty, json_read, json_read_bytes, json_read_texts,
    lemma_object_view, member_text, members_view, opt_json, read_json, read_json_bytes,
    read_json_texts, write_json_pretty,
};
use crate::process_ports::{find_named, first_named, named_ports};
use crate::text::{
    after_prefix, before_suffix, byte_len, bytes, chars_of, concat2, concat3, concat5, cut, decimal,
    decimal_of, ends, ends_with, fields, is_digit, join, joined, lemma_decimal_value, lines,
    lines_of, opt_str, opt_view, same, skip, split, split_once, starts, starts_with, strip_all_end,
    strip_prefix, strip_suffix, take, texts, to_upper, trim, trim_end_text, trimmed, unicode_lower,
    upper,
};
use vstd::prelude::*;
use vstd::string::*;

verus! {

// ---------------------------------------------------------------------------
// Settings
// ---------------------------------------------------------------------------

/// Where templates come from: the repository, what of it to check out (empty for the latest
/// release), and a catalog of its own, if any.
#[derive(Clone, Debug)]
pub struct TemplateConfig {
    pub repo_url: String,
    pub checkout: String,
    pub catalog_url: String,
}

/// The repository of the official templates.
pub const DEFAULT_TEMPLATE_REPO: &'static str = "https://github.com/agentseek-ai/agentseek-templates.git";

impl Default for TemplateConfig {
    fn default() -> (r: Self)
        ensures
            r.repo_url@ == DEFAULT_TEMPLATE_REPO@,
            r.checkout@.len() == 0,
            r.catalog_url@.len() == 0,
    {
        TemplateConfig {
            repo_url: DEFAULT_TEMPLATE_REPO.to_owned(),
            checkout: String::new(),
            catalog_url: String::new(),
        }
    }
}

/// A stored setting that is not empty, or else another text.
pub open spec fn setting_or(stored: Option<Seq<char>>, otherwise: Seq<char>) -> Seq<char> {
    match stored {
        Some(v) => if v.len() > 0 {
            v
        } else {
            otherwise
        },
        None => otherwise,
    }
}

fn stored_or(stored: Option<String>, otherwise: &str) -> (r: String)
    ensures
        r@ == setting_or(opt_view(stored), otherwise@),
{
    match stored {
        Some(v) => if v.as_str().is_empty() {
            otherwise.to_owned()
        } else {
            v
        },
        None => otherwise.to_owned(),
    }
}

/// The settings from what is stored of them: the official repository where none is given.
pub fn read_template_config(
    repo_url: Option<String>,
    checkout: Option<String>,
    catalog_url: Option<String>,
) -> (r: TemplateConfig)
    ensures
        r.repo_url@ == setting_or(opt_view(repo_url), DEFAULT_TEMPLATE_REPO@),
        r.repo_url@.len() > 0,
        r.checkout@ == setting_or(opt_view(checkout), Seq::empty()),
        r.catalog_url@ == setting_or(opt_view(catalog_url), Seq::empty()),
{
    proof {
        reveal_strlit("");
        reveal_strlit("https://github.com/agentseek-ai/agentseek-templates.git");
        assert(""@ == Seq::<char>::empty());
    }
    TemplateConfig {
        repo_url: stored_or(repo_url, DEFAULT_TEMPLATE_REPO),
        checkout: stored_or(checkout, ""),
        catalog_url: stored_or(catalog_url, ""),
    }
}

/// The settings as they are shown: the URL as it was entered, where that is stored.
pub fn shown_template_config(
    raw_url: Option<String>,
    repo_url: Option<String>,
    catalog_url: Option<String>,
) -> (r: TemplateConfig)
    ensures
        r.repo_url@ == setting_or(
            opt_view(raw_url),
            setting_or(opt_view(repo_url), DEFAULT_TEMPLATE_REPO@),
        ),
        r.repo_url@.len() > 0,
        r.checkout@.len() == 0,
        r.catalog_url@ == setting_or(opt_view(catalog_url), Seq::empty()),
{
    proof {
        reveal_strlit("");
        reveal_strlit("https://github.com/agentseek-ai/agentseek-templates.git");
        assert(""@ == Seq::<char>::empty());
    }
    let repo = stored_or(repo_url, DEFAULT_TEMPLATE_REPO);
    TemplateConfig {
        repo_url: stored_or(raw_url, repo.as_str()),
        checkout: String::new(),
        catalog_url: stored_or(catalog_url, ""),
    }
}

/// The flags that make the command line tool use the cached repository, at the commit that
/// is checked out, where that is known.
pub fn template_repo_flags(repo_url: &str, commit: Option<String>) -> (r: Vec<String>)
    ensures
        texts(r@) == (match opt_view(commit) {
            Some(sha) => seq!["--template-repo"@, repo_url@, "--checkout"@, sha],
            None => seq!["--template-repo"@, repo_url@],
        }),
{
    let mut flags: Vec<String> = vec!["--template-repo".to_owned(), repo_url.to_owned()];
    let ghost shown = opt_view(commit);
    if let Some(sha) = commit {
        flags.push("--checkout".to_owned());
        flags.push(sha);
    }
    assert(texts(flags@) == (match shown {
        Some(sha) => seq!["--template-repo"@, repo_url@, "--checkout"@, sha],
        None => seq!["--template-repo"@, repo_url@],
    }));
    flags
}

// ---------------------------------------------------------------------------
// Repository addresses
// ---------------------------------------------------------------------------

/// A URL without slashes at its end and then without `.git` there.
pub open spec fn bare_url(url: Seq<char>) -> Seq<char> {
    strip_all_end(strip_all_end(url, "/"@), ".git"@)
}

fn to_bare_url(url: &str) -> (r: &str)
    ensures
        r@ == bare_url(url@),
{
    proof {
        reveal_strlit("/");
        reveal_strlit(".git");
    }
    trim_end_text(trim_end_text(url, "/"), ".git")
}

/// The number of parts that are not empty, from `i` on.
pub open spec fn filled_from(parts: Seq<Seq<char>>, i: int) -> int
    decreases parts.len() - i,
{
    if i < 0 || i >= parts.len() {
        0
    } else if parts[i].len() > 0 {
        1 + filled_from(parts, i + 1)
    } else {
        filled_from(parts, i + 1)
    }
}

fn count_filled(parts: &Vec<String>) -> (r: usize)
    ensures
        r == filled_from(texts(parts@), 0),
{
    let ghost ps = texts(parts@);
    let mut n: usize = 0;
    let mut i: usize = 0;
    while i < parts.len()
        invariant
            i <= parts@.len(),
            n <= i,
            ps == texts(parts@),
            n + filled_from(ps, i as int) == filled_from(ps, 0),
        decreases parts@.len() - i,
    {
        assert(ps[i as int] == parts@[i as int]@);
        if !parts[i].as_str().is_empty() {
            n = n + 1;
        }
        i = i + 1;
    }
    n
}

/// Whether a path starts with the name of an owner and that of a repository.
pub open spec fn names_repository(path: Seq<char>) -> bool {
    let parts = fields(path, '/');
    parts.len() >= 2 && parts[0].len() > 0 && parts[1].len() > 0
}

/// Whether a URL has the form of a repository's: on GitHub and GitLab owner and repository
/// follow the host; on other hosts the path has at least two parts.
pub open spec fn is_repository_url(url: Seq<char>) -> bool {
    let bare = bare_url(url);
    match after_prefix(bare, "https://github.com/"@) {
        Some(rest) => names_repository(rest),
        None => match after_prefix(bare, "https://gitlab.com/"@) {
            Some(rest) => names_repository(rest),
            None => {
                let path = bare_url(bare);
                let after_scheme = match after_prefix(path, "https://"@) {
                    Some(rest) => rest,
                    None => path,
                };
                match cut(after_scheme, "/"@) {
                    Some(p) => filled_from(fields(p.1, '/'), 0) >= 2,
                    None => false,
                }
            },
        },
    }
}

fn path_names_repository(path: &str) -> (r: bool)
    ensures
        r == names_repository(path@),
{
    let parts = split(path, '/');
    if parts.len() < 2 {
        return false;
    }
    assert(texts(parts@)[0] == parts@[0]@ && texts(parts@)[1] == parts@[1]@);
    !parts[0].as_str().is_empty() && !parts[1].as_str().is_empty()
}

/// Accepts URLs that have the form of a repository's.
pub fn validate_repo_url_structure(url: &str) -> (r: Result<(), String>)
    ensures
        r is Ok <==> is_repository_url(url@),
        r matches Err(message) ==> message@ == "URL does not appear to be a git repository: "@
            + bare_url(url@),
{
    let bare = to_bare_url(url);
    let valid: bool = match strip_prefix(bare, "https://github.com/") {
        Some(rest) => path_names_repository(rest),
        None => match strip_prefix(bare, "https://gitlab.com/") {
            Some(rest) => path_names_repository(rest),
            None => {
                let path = to_bare_url(bare);
                let after_scheme = match strip_prefix(path, "https://") {
                    Some(rest) => rest,
                    None => path,
                };
                match split_once(after_scheme, "/") {
                    Some(p) => count_filled(&split(p.1, '/')) >= 2,
                    None => false,
                }
            },
        },
    };
    if valid {
        Ok(())
    } else {
        Err(concat2("URL does not appear to be a git repository: ", bare))
    }
}

/// What a repository address gives: what to clone and what to check out, or what is wrong.
pub enum RepoAddress {
    Repo { url: Seq<char>, checkout: Seq<char> },
    Fault(Seq<char>),
}

/// A repository and what to check out of it, if the URL has the form of a repository's.
pub open spec fn checked_repo(url: Seq<char>, checkout: Seq<char>) -> RepoAddress {
    if is_repository_url(url) {
        RepoAddress::Repo { url, checkout }
    } else {
        RepoAddress::Fault("URL does not appear to be a git repository: "@ + bare_url(url))
    }
}

/// What an address that was entered gives: a tag behind `/releases/tag/`, a branch behind
/// `/tree/`, and else the latest release.
pub open spec fn repo_address(entered: Seq<char>) -> RepoAddress {
    let url = trimmed(entered);
    if url.len() == 0 {
        RepoAddress::Fault("Template repository URL cannot be empty"@)
    } else if !starts(url, "https://"@) {
        RepoAddress::Fault("Template repository URL must use HTTPS"@)
    } else {
        match cut(url, "/releases/tag/"@) {
            Some(p) => {
                let tag = strip_all_end(p.1, "/"@);
                if tag.len() == 0 {
                    RepoAddress::Fault("Release tag is empty"@)
                } else {
                    checked_repo(p.0, tag)
                }
            },
            None => match before_suffix(url, "/releases"@) {
                Some(repo) => checked_repo(repo, Seq::empty()),
                None => match before_suffix(url, "/releases/latest"@) {
                    Some(repo) => checked_repo(repo, Seq::empty()),
                    None => match cut(url, "/tree/"@) {
                        Some(p) => {
                            let branch = strip_all_end(p.1, "/"@);
                            if branch.len() == 0 {
                                RepoAddress::Fault("Branch name is empty"@)
                            } else {
                                checked_repo(p.0, branch)
                            }
                        },
                        None => checked_repo(url, Seq::empty()),
                    },
                },
            },
        }
    }
}

/// What an address that was read, or the error, stands for.
pub open spec fn address_view(r: Result<(String, String), String>) -> RepoAddress {
    match r {
        Ok(p) => RepoAddress::Repo { url: p.0@, checkout: p.1@ },
        Err(e) => RepoAddress::Fault(e@),
    }
}

fn check_repo(url: &str, checkout: &str) -> (r: Result<(String, String), String>)
    ensures
        address_view(r) == checked_repo(url@, checkout@),
{
    match validate_repo_url_structure(url) {
        Ok(_) => Ok((url.to_owned(), checkout.to_owned())),
        Err(e) => Err(e),
    }
}

/// Reads the address of a template repository: what to clone and what to check out; empty
/// for the latest release.
pub fn parse_template_repo_url(url: &str) -> (r: Result<(String, String), String>)
    ensures
        address_view(r) == repo_address(url@),
{
    proof {
        reveal_strlit("/");
        reveal_strlit("");
        reveal_strlit("https://github.com/agentseek-ai/agentseek-templates.git");
        assert(""@ == Seq::<char>::empty());
    }
    let url = trim(url);
    if url.is_empty() {
        return Err("Template repository URL cannot be empty".to_owned());
    }
    if !starts_with(url, "https://") {
        return Err("Template repository URL must use HTTPS".to_owned());
    }
    if let Some(p) = split_once(url, "/releases/tag/") {
        let tag = trim_end_text(p.1, "/");
        if tag.is_empty() {
            return Err("Release tag is empty".to_owned());
        }
        return check_repo(p.0, tag);
    }
    if let Some(repo) = strip_suffix(url, "/releases") {
        return check_repo(repo, "");
    }
    if let Some(repo) = strip_suffix(url, "/releases/latest") {
        return check_repo(repo, "");
    }
    if let Some(p) = split_once(url, "/tree/") {
        let branch = trim_end_text(p.1, "/");
        if branch.is_empty() {
            return Err("Branch name is empty".to_owned());
        }
        return check_repo(p.0, branch);
    }
    check_repo(url, "")
}

/// What is accepted as an address has the form of a repository's URL.
pub proof fn law_accepted_addresses_are_repositories(entered: Seq<char>)
    ensures
        repo_address(entered) matches RepoAddress::Repo { url, .. } ==> is_repository_url(url),
{
}

/// Where GitHub tells the latest release of a repository, if the URL is one of GitHub's.
pub open spec fn releases_api(repo_url: Seq<char>) -> Option<Seq<char>> {
    let bare = bare_url(repo_url);
    let path = match after_prefix(bare, "https://github.com/"@) {
        Some(rest) => Some(rest),
        None => match after_prefix(bare, "http://github.com/"@) {
            Some(rest) => Some(rest),
            None => after_prefix(bare, "git@github.com:"@),
        },
    };
    match path {
        None => None,
        Some(p) => {
            let parts = fields(p, '/');
            if parts.len() < 2 {
                None
            } else {
                Some(
                    "https://api.github.com/repos/"@ + parts[0] + "/"@ + parts[1]
                        + "/releases/latest"@,
                )
            }
        },
    }
}

pub fn github_releases_api(repo_url: &str) -> (r: Option<String>)
    ensures
        opt_view(r) == releases_api(repo_url@),
{
    let bare = to_bare_url(repo_url);
    let path = match strip_prefix(bare, "https://github.com/") {
        Some(rest) => rest,
        None => match strip_prefix(bare, "http://github.com/") {
            Some(rest) => rest,
            None => match strip_prefix(bare, "git@github.com:") {
                Some(rest) => rest,
                None => {
                    return None;
                },
            },
        },
    };
    let parts = split(path, '/');
    if parts.len() < 2 {
        return None;
    }
    assert(texts(parts@)[0] == parts@[0]@ && texts(parts@)[1] == parts@[1]@);
    Some(
        concat5(
            "https://api.github.com/repos/",
            parts[0].as_str(),
            "/",
            parts[1].as_str(),
            "/releases/latest",
        ),
    )
}

// ---------------------------------------------------------------------------
// Releases and commits
// ---------------------------------------------------------------------------

/// A text without white space around it, if anything is left.
pub open spec fn filled(s: Seq<char>) -> Option<Seq<char>> {
    if trimmed(s).len() > 0 {
        Some(trimmed(s))
    } else {
        None
    }
}

fn to_filled(s: &str) -> (r: Option<String>)
    ensures
        opt_view(r) == filled(s@),
{
    let t = trim(s);
    if t.is_empty() {
        None
    } else {
        Some(t.to_owned())
    }
}

/// The tag of a release, from the description of the release.
pub open spec fn release_tag(release: JsonModel) -> Option<Seq<char>> {
    match member_text(release, "tag_name"@) {
        Some(tag) => filled(tag),
        None => None,
    }
}

pub fn tag_of_release(release: &Json) -> (r: Option<String>)
    ensures
        opt_view(r) == release_tag(release@),
{
    match get_text(release, "tag_name") {
        Some(tag) => to_filled(tag),
        None => None,
    }
}

/// Reads the tag of the latest release from the answer of GitHub, if the request succeeded.
pub fn latest_template_release_tag(success: bool, body: &[u8]) -> (r: Option<String>)
    ensures
        opt_view(r) == (if success {
            match json_read_bytes(body@) {
                Ok(release) => release_tag(release),
                Err(_) => None,
            }
        } else {
            None
        }),
{
    if !success {
        return None;
    }
    match read_json_bytes(body) {
        Ok(release) => tag_of_release(&release),
        Err(_) => None,
    }
}

/// The tag that is checked out, from the answer of git, if it succeeded.
pub fn current_template_version(success: bool, stdout: &str) -> (r: Option<String>)
    ensures
        opt_view(r) == (if success {
            filled(stdout@)
        } else {
            None
        }),
{
    if success {
        to_filled(stdout)
    } else {
        None
    }
}

/// The commit that is checked out in a directory, from the answer of git: a full hash.
pub fn template_cache_commit_sha_in(success: bool, stdout: &str) -> (r: Option<String>)
    ensures
        opt_view(r) == (if success && bytes(trimmed(stdout@)) == 40 {
            Some(trimmed(stdout@))
        } else {
            None
        }),
{
    let sha = trim(stdout);
    if success && byte_len(sha) == 40 {
        Some(sha.to_owned())
    } else {
        None
    }
}

/// The commit that is checked out in the cache, if there is a cache.
pub fn template_cache_commit_sha(cached: bool, success: bool, stdout: &str) -> (r: Option<String>)
    ensures
        opt_view(r) == (if cached && success && bytes(trimmed(stdout@)) == 40 {
            Some(trimmed(stdout@))
        } else {
            None
        }),
{
    if cached {
        template_cache_commit_sha_in(success, stdout)
    } else {
        None
    }
}

/// What to check out: what is configured, else the latest release, else `main`.
pub fn effective_checkout(checkout: &str, latest: Option<String>) -> (r: String)
    ensures
        r@ == (if checkout@.len() > 0 {
            checkout@
        } else {
            match opt_view(latest) {
                Some(tag) => tag,
                None => "main"@,
            }
        }),
{
    if !checkout.is_empty() {
        return checkout.to_owned();
    }
    match latest {
        Some(tag) => tag,
        None => "main".to_owned(),
    }
}

/// The mark that a cache carries: the repository and, where known, the commit.
pub fn cache_marker(repo_url: &str, commit: Option<String>) -> (r: String)
    ensures
        r@ == (match opt_view(commit) {
            Some(sha) => repo_url@ + "|"@ + sha,
            None => repo_url@,
        }),
{
    match commit {
        Some(sha) => concat3(repo_url, "|", sha.as_str()),
        None => repo_url.to_owned(),
    }
}

/// Whether the cache has to be fetched: not if its mark names the repository.
pub fn ensure_template_cache(marker: Option<&str>, repo_url: &str) -> (fetch: bool)
    ensures
        fetch == !(match opt_str(marker) {
            Some(stored) => starts(trimmed(stored), repo_url@),
            None => false,
        }),
{
    match marker {
        Some(stored) => !starts_with(trim(stored), repo_url),
        None => true,
    }
}

/// Whether a newer release than the one checked out exists.
pub fn has_template_update(current: &str, latest: &str) -> (r: bool)
    ensures
        r == (latest@.len() > 0 && current@.len() > 0 && current@ != latest@),
{
    !latest.is_empty() && !current.is_empty() && !same(current, latest)
}

// ---------------------------------------------------------------------------
// The list of templates
// ---------------------------------------------------------------------------

#[derive(Clone, Debug)]
pub struct TemplateInfo {
    pub id: String,
    pub name: String,
    pub description: String,
    pub framework: String,
}

/// What a [`TemplateInfo`] stands for.
#[verifier::ext_equal]
pub struct TemplateModel {
    pub id: Seq<char>,
    pub name: Seq<char>,
    pub description: Seq<char>,
    pub framework: Seq<char>,
}

impl View for TemplateInfo {
    type V = TemplateModel;

    open spec fn view(&self) -> TemplateModel {
        TemplateModel {
            id: self.id@,
            name: self.name@,
            description: self.description@,
            framework: self.framework@,
        }
    }
}

/// What a list of templates stands for.
pub open spec fn templates_view(v: Seq<TemplateInfo>) -> Seq<TemplateModel> {
    v.map_values(|t: TemplateInfo| t@)
}

/// A character in upper case by the rules of Unicode, which may take several characters.
pub uninterp spec fn unicode_upper(c: char) -> Seq<char>;

/// `char::to_uppercase`: the character in upper case by the rules of Unicode, a function of
/// the character alone. Which character becomes which is left unsaid.
#[verifier::external_body]
fn char_to_uppercase(c: char) -> (r: String)
    ensures
        r@ == unicode_upper(c),
{
    c.to_uppercase().to_string()
}

/// Whether a character parts the words of a template's name.
pub open spec fn parts_words(c: char) -> bool {
    c == '-' || c == '_'
}

/// A word that starts with the given text in place of its first character.
pub open spec fn capitalized(word: Seq<char>, first: Seq<char>) -> Seq<char> {
    first + word.skip(1)
}

/// The words of a name from `start` on, each with its first letter in upper case; `i` is the
/// next position to look at.
pub open spec fn title_words_from(s: Seq<char>, start: int, i: int) -> Seq<Seq<char>>
    decreases s.len() - i,
{
    if i < 0 || i >= s.len() {
        if start < s.len() {
            seq![capitalized(s.skip(start), unicode_upper(s[start]))]
        } else {
            Seq::empty()
        }
    } else if parts_words(s[i]) {
        (if start < i {
            seq![capitalized(s.subrange(start, i), unicode_upper(s[start]))]
        } else {
            Seq::empty()
        }) + title_words_from(s, i + 1, i + 1)
    } else {
        title_words_from(s, start, i + 1)
    }
}

/// The name that a template is shown under: the last part of its id, word by word.
pub open spec fn title_of(template_id: Seq<char>) -> Seq<char> {
    joined(title_words_from(fields(template_id, '/').last(), 0, 0), " "@)
}

/// A word with the given text in place of its first character.
pub fn capitalize_with(word: &str, first: &str) -> (r: String)
    requires
        word@.len() > 0,
    ensures
        r@ == capitalized(word@, first@),
{
    concat2(first, skip(word, 1))
}

fn title_word(word: &str) -> (r: String)
    requires
        word@.len() > 0,
    ensures
        r@ == capitalized(word@, unicode_upper(word@[0])),
{
    let first = char_to_uppercase(word.get_char(0));
    capitalize_with(word, first.as_str())
}

pub fn display_name(template_id: &str) -> (r: String)
    ensures
        r@ == title_of(template_id@),
{
    let parts = split(template_id, '/');
    let last = parts[parts.len() - 1].as_str();
    assert(last@ == fields(template_id@, '/').last());
    let v = chars_of(last);
    let mut out: Vec<String> = Vec::new();
    let mut start: usize = 0;
    let mut i: usize = 0;
    while i < v.len()
        invariant
            start <= i <= v@.len(),
            texts(out@) + title_words_from(v@, start as int, i as int) == title_words_from(
                v@,
                0,
                0,
            ),
        decreases v@.len() - i,
    {
        if v[i] == '-' || v[i] == '_' {
            let ghost before = texts(out@);
            let ghost rest = title_words_from(v@, i + 1, i + 1);
            if start < i {
                let word = title_word(last.substring_char(start, i));
                let ghost model = word@;
                out.push(word);
                assert(texts(out@) == before.push(model));
                assert(before.push(model) + rest == before + (seq![model] + rest));
            } else {
                assert(Seq::<Seq<char>>::empty() + rest == rest);
            }
            start = i + 1;
        }
        i = i + 1;
    }
    if start < v.len() {
        let ghost before = texts(out@);
        let word = title_word(skip(last, start));
        let ghost model = word@;
        out.push(word);
        assert(texts(out@) == before.push(model));
        assert(before.push(model) == before + seq![model]);
    } else {
        assert(texts(out@) + Seq::<Seq<char>>::empty() == texts(out@));
    }
    join(&out, " ")
}

/// The template that an entry of the index describes.
pub open spec fn template_of(entry: (Seq<char>, Seq<char>)) -> TemplateModel {
    TemplateModel {
        id: entry.0,
        name: title_of(entry.0),
        description: entry.1,
        framework: fields(entry.0, '/')[0],
    }
}

/// The templates that the entries of an index describe.
pub fn templates_of(index: &Vec<(String, String)>) -> (r: Vec<TemplateInfo>)
    ensures
        templates_view(r@) == index@.map_values(|p: (String, String)| template_of((p.0@, p.1@))),
{
    let mut r: Vec<TemplateInfo> = Vec::new();
    let mut i: usize = 0;
    while i < index.len()
        invariant
            i <= index@.len(),
            r@.len() == i,
            forall|j: int|
                0 <= j < i ==> (#[trigger] r@[j])@ == template_of((index@[j].0@, index@[j].1@)),
        decreases index@.len() - i,
    {
        let id = index[i].0.as_str();
        let parts = split(id, '/');
        assert(texts(parts@)[0] == parts@[0]@);
        r.push(
            TemplateInfo {
                id: id.to_owned(),
                name: display_name(id),
                description: index[i].1.clone(),
                framework: parts[0].clone(),
            },
        );
        i = i + 1;
    }
    r
}

/// Reads the index of templates: an object of descriptions by id.
pub fn read_template_index(raw: &str) -> (r: Result<Vec<TemplateInfo>, String>)
    ensures
        match json_read_texts(raw@) {
            Ok(index) => r matches Ok(list) && templates_view(list@) == index.map_values(
                |e: (Seq<char>, Seq<char>)| template_of(e),
            ),
            Err(e) => r matches Err(message) && message@ == "Invalid templates/index.json: "@ + e,
        },
{
    match read_json_texts(raw) {
        Ok(index) => {
            let list = templates_of(&index);
            assert(templates_view(list@) == index@.map_values(
                |p: (String, String)| (p.0@, p.1@),
            ).map_values(|e: (Seq<char>, Seq<char>)| template_of(e)));
            Ok(list)
        },
        Err(e) => Err(concat2("Invalid templates/index.json: ", e.as_str())),
    }
}

// ---------------------------------------------------------------------------
// Describing and creating
// ---------------------------------------------------------------------------

/// Whether a line ends the list of variables.
pub open spec fn ends_variables(line: Seq<char>) -> bool {
    line.len() == 0 || starts(line, "──"@) || starts(line, "--"@)
}

/// The variable that a line `name: value` lists, if it is one that is asked for.
pub open spec fn listed_variable(line: Seq<char>) -> Option<Seq<char>> {
    match cut(line, ":"@) {
        Some(p) => if trimmed(p.0).len() > 0 && !starts(trimmed(p.0), "_"@) {
            Some(trimmed(p.0))
        } else {
            None
        },
        None => None,
    }
}

/// The variables that a description lists from line `i` on; `inside` says that the list is
/// open there.
pub open spec fn variables_from(ls: Seq<Seq<char>>, i: int, inside: bool) -> Seq<Seq<char>>
    decreases ls.len() - i,
{
    if i < 0 || i >= ls.len() {
        Seq::empty()
    } else {
        let line = trimmed(ls[i]);
        if starts(line, "Cookiecutter variables"@) {
            variables_from(ls, i + 1, true)
        } else if !inside {
            variables_from(ls, i + 1, false)
        } else if ends_variables(line) {
            Seq::empty()
        } else {
            match listed_variable(line) {
                Some(name) => seq![name] + variables_from(ls, i + 1, true),
                None => variables_from(ls, i + 1, true),
            }
        }
    }
}

/// Reads the variables that are asked for when an instance is created; names that start with
/// an underscore are not.
pub fn parse_describe_variables(describe_output: &str) -> (r: Vec<String>)
    ensures
        texts(r@) == variables_from(lines(describe_output@), 0, false),
{
    let ls = lines_of(describe_output);
    let ghost cs = lines(describe_output@);
    let ghost whole = variables_from(cs, 0, false);
    let mut r: Vec<String> = Vec::new();
    let mut inside: bool = false;
    let mut i: usize = 0;
    while i < ls.len()
        invariant
            i <= ls@.len(),
            texts(ls@) == cs,
            texts(r@) + variables_from(cs, i as int, inside) == whole,
        decreases ls@.len() - i,
    {
        assert(cs[i as int] == ls@[i as int]@);
        let line = trim(ls[i].as_str());
        if starts_with(line, "Cookiecutter variables") {
            inside = true;
        } else if inside {
            if line.is_empty() || starts_with(line, "──") || starts_with(line, "--") {
                assert(texts(r@) + Seq::<Seq<char>>::empty() == texts(r@));
                return r;
            }
            if let Some(p) = split_once(line, ":") {
                let name = trim(p.0);
                if !name.is_empty() && !starts_with(name, "_") {
                    let ghost before = texts(r@);
                    let ghost rest = variables_from(cs, i + 1, true);
                    let copy = name.to_owned();
                    let ghost model = copy@;
                    r.push(copy);
                    assert(texts(r@) == before.push(model));
                    assert(before.push(model) + rest == before + (seq![model] + rest));
                }
            }
        }
        i = i + 1;
    }
    assert(texts(r@) + Seq::<Seq<char>>::empty() == texts(r@));
    r
}

/// A lower-case name as an identifier: blanks and dashes become underscores.
pub open spec fn slug_of(lowered: Seq<char>) -> Seq<char> {
    lowered.map_values(
        |c: char|
            if c == ' ' || c == '-' {
                '_'
            } else {
                c
            },
    )
}

pub fn slugify(lowered: &str) -> (r: String)
    ensures
        r@ == slug_of(lowered@),
{
    let v = chars_of(lowered);
    let mut r = String::new();
    let mut i: usize = 0;
    while i < v.len()
        invariant
            i <= v@.len(),
            r@ == slug_of(v@).take(i as int),
        decreases v@.len() - i,
    {
        if v[i] == ' ' || v[i] == '-' {
            r.push('_');
        } else {
            r.push(v[i]);
        }
        i = i + 1;
    }
    assert(slug_of(v@).take(v@.len() as int) == slug_of(v@));
    r
}

/// The answer for a variable: the name, the identifier made of the lower-case name, the
/// author, a resolved port, or nothing for the default.
pub open spec fn answer_for(
    variable: Seq<char>,
    name: Seq<char>,
    lowered: Seq<char>,
    ports: Seq<(Seq<char>, int)>,
) -> Seq<char> {
    if variable == "project_name"@ {
        name
    } else if variable == "project_slug"@ {
        slug_of(lowered)
    } else if variable == "author"@ {
        "AgentSeek Desktop"@
    } else if ends(variable, "_port"@) {
        match first_named(ports, upper(variable), 0) {
            Some(p) => decimal(p as nat),
            None => Seq::empty(),
        }
    } else {
        Seq::empty()
    }
}

/// No variable that is asked for has a blank name or one that starts with an underscore.
pub proof fn law_listed_variables_are_asked_for(
    ls: Seq<Seq<char>>,
    i: int,
    inside: bool,
    k: int,
)
    requires
        0 <= i,
        0 <= k < variables_from(ls, i, inside).len(),
    ensures
        variables_from(ls, i, inside)[k].len() > 0,
        !starts(variables_from(ls, i, inside)[k], "_"@),
    decreases ls.len() - i,
{
    let line = trimmed(ls[i]);
    if starts(line, "Cookiecutter variables"@) {
        law_listed_variables_are_asked_for(ls, i + 1, true, k);
    } else if !inside {
        law_listed_variables_are_asked_for(ls, i + 1, false, k);
    } else if listed_variable(line) is None {
        law_listed_variables_are_asked_for(ls, i + 1, true, k);
    } else if k > 0 {
        law_listed_variables_are_asked_for(ls, i + 1, true, k - 1);
    }
}

/// The answers for the variables, each on a line of its own.
pub open spec fn answers_for(
    variables: Seq<Seq<char>>,
    name: Seq<char>,
    lowered: Seq<char>,
    ports: Seq<(Seq<char>, int)>,
) -> Seq<char> {
    joined(
        variables.map_values(|v: Seq<char>| answer_for(v, name, lowered, ports)),
        "\n"@,
    ) + "\n"@
}

/// There is one line to each variable, in their order, with its answer. Left out are names of
/// several lines, or with a carriage return at their end.
pub proof fn law_one_answer_to_a_variable(
    variables: Seq<Seq<char>>,
    name: Seq<char>,
    lowered: Seq<char>,
    ports: Seq<(Seq<char>, int)>,
)
    requires
        variables.len() > 0,
        is_one_line(name),
        is_one_line(lowered),
        name.len() > 0 ==> name.last() != '\r',
        lowered.len() > 0 ==> lowered.last() != '\r',
    ensures
        lines(answers_for(variables, name, lowered, ports)) == variables.map_values(
            |v: Seq<char>| answer_for(v, name, lowered, ports),
        ),
{
    reveal_strlit("AgentSeek Desktop");
    let answers = variables.map_values(|v: Seq<char>| answer_for(v, name, lowered, ports));
    assert forall|k: int| 0 <= k < answers.len() implies is_one_line(#[trigger] answers[k]) && (
    answers[k].len() > 0 ==> answers[k].last() != '\r') by {
        let slug = slug_of(lowered);
        assert forall|i: int| 0 <= i < slug.len() implies #[trigger] slug[i] != '\n' by {
            assert(slug[i] == lowered[i] || slug[i] == '_');
        }
        if slug.len() > 0 {
            assert(slug[slug.len() - 1] == lowered[slug.len() - 1] || slug[slug.len() - 1] == '_');
        }
        let v = variables[k];
        if let Some(p) = first_named(ports, upper(v), 0) {
            lemma_decimal_value(p as nat);
            let d = decimal(p as nat);
            assert forall|i: int| 0 <= i < d.len() implies #[trigger] d[i] != '\n' by {
                assert(is_digit(d[i]));
            }
            assert(is_digit(d[d.len() - 1]));
        }
    }
    lemma_joined_lines(answers, true);
}

/// Builds the answers that create an instance, given its name also in lower case.
pub fn create_answers(
    variables: &Vec<String>,
    instance_name: &str,
    lowered: &str,
    resolved_ports: &Vec<(String, u16)>,
) -> (r: String)
    ensures
        r@ == answers_for(
            texts(variables@),
            instance_name@,
            lowered@,
            named_ports(resolved_ports@),
        ),
{
    let ghost vs = texts(variables@);
    let ghost ports = named_ports(resolved_ports@);
    let ghost answers = vs.map_values(
        |v: Seq<char>| answer_for(v, instance_name@, lowered@, ports),
    );
    let slug = slugify(lowered);
    let mut out: Vec<String> = Vec::new();
    let mut i: usize = 0;
    while i < variables.len()
        invariant
            i <= variables@.len(),
            vs == texts(variables@),
            ports == named_ports(resolved_ports@),
            texts(out@) == answers.take(i as int),
        decreases variables@.len() - i,
    {
        assert(vs[i as int] == variables@[i as int]@);
        let variable = variables[i].as_str();
        let value = if same(variable, "project_name") {
            instance_name.to_owned()
        } else if same(variable, "project_slug") {
            slug.clone()
        } else if same(variable, "author") {
            "AgentSeek Desktop".to_owned()
        } else if ends_with(variable, "_port") {
            match find_named(resolved_ports, to_upper(variable).as_str()) {
                Some(port) => decimal_of(port as u64),
                None => String::new(),
            }
        } else {
            String::new()
        };
        let ghost before = texts(out@);
        let ghost model = value@;
        out.push(value);
        assert(texts(out@) == before.push(model));
        i = i + 1;
    }
    assert(answers.take(answers.len() as int) == answers);
    let mut r = join(&out, "\n");
    r.append("\n");
    r
}

/// Builds the answers that create an instance, one line to a variable.
pub fn build_create_answers(
    variables: &Vec<String>,
    instance_name: &str,
    resolved_ports: &Vec<(String, u16)>,
) -> (r: String)
    ensures
        r@ == answers_for(
            texts(variables@),
            instance_name@,
            unicode_lower(instance_name@),
            named_ports(resolved_ports@),
        ),
{
    let lowered = instance_name.to_lowercase();
    create_answers(variables, instance_name, lowered.as_str(), resolved_ports)
}

// ---------------------------------------------------------------------------
// Ports that are not asked for
// ---------------------------------------------------------------------------

/// Whether some port belongs to a variable that is not asked for.
pub fn has_hidden_ports(resolved_ports: &Vec<(String, u16)>) -> (r: bool)
    ensures
        r == exists|i: int|
            0 <= i < resolved_ports@.len() && starts(#[trigger] resolved_ports@[i].0@, "_"@),
{
    let mut i: usize = 0;
    while i < resolved_ports.len()
        invariant
            i <= resolved_ports@.len(),
            forall|j: int|
                0 <= j < i ==> !starts(#[trigger] resolved_ports@[j].0@, "_"@),
        decreases resolved_ports@.len() - i,
    {
        if starts_with(resolved_ports[i].0.as_str(), "_") {
            return true;
        }
        i = i + 1;
    }
    false
}

/// The directory that a description names on its first line `Path: ...`, from `i` on.
pub open spec fn path_from(ls: Seq<Seq<char>>, i: int) -> Option<Seq<char>>
    decreases ls.len() - i,
{
    if i < 0 || i >= ls.len() {
        None
    } else {
        match after_prefix(trimmed(ls[i]), "Path: "@) {
            Some(path) => Some(path),
            None => path_from(ls, i + 1),
        }
    }
}

/// Finds the directory of the template in its description.
pub fn described_template_path(describe_output: &str) -> (r: Result<String, String>)
    ensures
        match path_from(lines(describe_output@), 0) {
            Some(path) => r matches Ok(p) && p@ == path,
            None => r matches Err(message) && message@
                == "Failed to locate template path in describe output"@,
        },
{
    let ls = lines_of(describe_output);
    let ghost cs = lines(describe_output@);
    let mut i: usize = 0;
    while i < ls.len()
        invariant
            i <= ls@.len(),
            texts(ls@) == cs,
            path_from(cs, 0) == path_from(cs, i as int),
        decreases ls@.len() - i,
    {
        assert(cs[i as int] == ls@[i as int]@);
        if let Some(path) = strip_prefix(trim(ls[i].as_str()), "Path: ") {
            return Ok(path.to_owned());
        }
        i = i + 1;
    }
    Err("Failed to locate template path in describe output".to_owned())
}

/// Whether a variable of a template is a port that is not asked for.
pub open spec fn is_hidden_port(key: Seq<char>) -> bool {
    starts(key, "_"@) && ends(key, "_port"@)
}

/// A member with its resolved port, if it is a port that is not asked for and has one.
pub open spec fn hidden_port_set(
    member: (Seq<char>, JsonModel),
    ports: Seq<(Seq<char>, int)>,
) -> (Seq<char>, JsonModel) {
    if is_hidden_port(member.0) && first_named(ports, upper(member.0), 0) is Some {
        (
            member.0,
            JsonModel::Natural(first_named(ports, upper(member.0), 0)->0 as u64),
        )
    } else {
        member
    }
}

/// Whether some member from `i` on is a port that is not asked for and has a resolved port.
pub open spec fn sets_hidden_port(
    members: Seq<(Seq<char>, JsonModel)>,
    ports: Seq<(Seq<char>, int)>,
    i: int,
) -> bool
    decreases members.len() - i,
{
    if i < 0 || i >= members.len() {
        false
    } else {
        (is_hidden_port(members[i].0) && first_named(ports, upper(members[i].0), 0) is Some)
            || sets_hidden_port(members, ports, i + 1)
    }
}

/// The variables of a template with the resolved ports that are not asked for, where there
/// are any.
pub open spec fn with_hidden_ports(doc: JsonModel, ports: Seq<(Seq<char>, int)>) -> Option<
    JsonModel,
> {
    match doc {
        JsonModel::Object(members) => if sets_hidden_port(members, ports, 0) {
            Some(
                JsonModel::Object(
                    members.map_values(
                        |m: (Seq<char>, JsonModel)| hidden_port_set(m, ports),
                    ),
                ),
            )
        } else {
            None
        },
        _ => None,
    }
}

/// Sets the ports that are not asked for in the variables of a template.
pub fn set_hidden_ports(doc: Json, resolved_ports: &Vec<(String, u16)>) -> (r: Option<Json>)
    ensures
        opt_json(r) == with_hidden_ports(doc@, named_ports(resolved_ports@)),
{
    let ghost ports = named_ports(resolved_ports@);
    match doc {
        Json::Object(mut members) => {
            proof {
                lemma_object_view(members);
            }
            let ghost start = members_view(members@);
            let mut patched: bool = false;
            let mut i: usize = 0;
            while i < members.len()
                invariant
                    i <= members@.len(),
                    members@.len() == start.len(),
                    ports == named_ports(resolved_ports@),
                    sets_hidden_port(start, ports, 0) == (patched || sets_hidden_port(
                        start,
                        ports,
                        i as int,
                    )),
                    forall|j: int|
                        0 <= j < i ==> members_view(members@)[j] == hidden_port_set(
                            #[trigger] start[j],
                            ports,
                        ),
                    forall|j: int|
                        i <= j < start.len() ==> members_view(members@)[j] == #[trigger] start[j],
                decreases members@.len() - i,
            {
                let ghost before = members_view(members@);
                assert(before[i as int] == (members@[i as int].0@, members@[i as int].1@));
                assert(before[i as int] == start[i as int]);
                let key = members[i].0.clone();
                if starts_with(key.as_str(), "_") && ends_with(key.as_str(), "_port") {
                    if let Some(port) = find_named(
                        resolved_ports,
                        to_upper(key.as_str()).as_str(),
                    ) {
                        let value = Json::Natural(port as u64);
                        let ghost model = (key@, value@);
                        members.set(i, (key, value));
                        assert(members_view(members@) == before.update(i as int, model));
                        patched = true;
                    }
                }
                i = i + 1;
            }
            if !patched {
                return None;
            }
            proof {
                lemma_object_view(members);
            }
            assert(members_view(members@) == start.map_values(
                |m: (Seq<char>, JsonModel)| hidden_port_set(m, ports),
            ));
            Some(Json::Object(members))
        },
        _ => None,
    }
}

/// Sets the ports that are not asked for in the file of a template's variables; gives the new
/// text where there is something to set.
pub fn patch_cookiecutter_json_for_underscore_ports(
    content: &str,
    resolved_ports: &Vec<(String, u16)>,
) -> (r: Result<Option<String>, String>)
    ensures
        match json_read(content@) {
            Ok(doc) => r matches Ok(text) && opt_view(text) == match with_hidden_ports(
                doc,
                named_ports(resolved_ports@),
            ) {
                Some(patched) => Some(json_pretty(patched)),
                None => None,
            },
            Err(e) => r matches Err(message) && message@
                == "Failed to parse cookiecutter.json: "@ + e,
        },
{
    match read_json(content) {
        Ok(doc) => match set_hidden_ports(doc, resolved_ports) {
            Some(patched) => Ok(Some(write_json_pretty(&patched))),
            None => Ok(None),
        },
        Err(e) => Err(concat2("Failed to parse cookiecutter.json: ", e.as_str())),
    }
}

} // verus!
