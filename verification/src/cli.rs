//! The tools that the desktop runs: their versions, whether these suffice, and how to get
//! them.

use crate::instance::{join_path, joined_path, push_all, signed_decimal, signed_decimal_of};
use crate::json::{
    Json, JsonModel, get_member, get_text, json_read_bytes, member, member_text, read_json_bytes,
};
use crate::models::{
    is_version, numeric_version, version_numbers, RuntimeRequirements, NVM_INSTALL_MIRROR,
};
use crate::text::{
    after_prefix, char_is_alnum, chars_of, concat2, concat3, concat4, concat5, concat6, decimal,
    decimal_of, is_alnum, lines, lines_of, lower, opt_str, opt_view, replace, replaced, same,
    split_whitespace, starts, starts_with, strip_all_start, strip_prefix, strip_set, texts,
    to_lower, trim, trim_chars, trim_start_text, trimmed, unicode_lower, words,
};
use vstd::prelude::*;
use vstd::string::*;

verus! {

// ---------------------------------------------------------------------------
// Comparing versions
// ---------------------------------------------------------------------------

/// A component of a version; those that are missing count as zero.
pub open spec fn part(version: Seq<u64>, i: int) -> u64 {
    if 0 <= i < version.len() {
        version[i]
    } else {
        0
    }
}

/// Whether a version is at least another in the components from `i` up to `n`: in the first
/// that differs it is the greater.
pub open spec fn at_least_from(current: Seq<u64>, minimum: Seq<u64>, i: int, n: int) -> bool
    decreases n - i,
{
    if i < 0 || i >= n {
        true
    } else if part(current, i) != part(minimum, i) {
        part(current, i) > part(minimum, i)
    } else {
        at_least_from(current, minimum, i + 1, n)
    }
}

/// The larger of two lengths.
pub open spec fn longer(a: Seq<u64>, b: Seq<u64>) -> int {
    if a.len() >= b.len() {
        a.len() as int
    } else {
        b.len() as int
    }
}

/// Whether a version is at least another.
pub open spec fn at_least(current: Seq<u64>, minimum: Seq<u64>) -> bool {
    at_least_from(current, minimum, 0, longer(current, minimum))
}

/// Whether a text gives a version, and one that is at least the minimum.
pub open spec fn version_reaches(value: Seq<char>, minimum: Seq<u64>) -> bool {
    is_version(value) && at_least(version_numbers(value), minimum)
}

pub fn version_at_least(value: &str, minimum: &[u64]) -> (r: bool)
    ensures
        r == version_reaches(value@, minimum@),
{
    let current = numeric_version(value);
    if current.len() == 0 {
        return false;
    }
    let n: usize = if current.len() >= minimum.len() {
        current.len()
    } else {
        minimum.len()
    };
    let mut i: usize = 0;
    while i < n
        invariant
            i <= n,
            n == longer(current@, minimum@),
            at_least(current@, minimum@) == at_least_from(current@, minimum@, i as int, n as int),
        decreases n - i,
    {
        let have: u64 = if i < current.len() {
            current[i]
        } else {
            0
        };
        let need: u64 = if i < minimum.len() {
            minimum[i]
        } else {
            0
        };
        if have != need {
            return have > need;
        }
        i = i + 1;
    }
    true
}

pub fn meets_requirement(value: &str, minimum: &str) -> (r: bool)
    ensures
        r == version_reaches(value@, version_numbers(minimum@)),
{
    let numbers = numeric_version(minimum);
    version_at_least(value, numbers.as_slice())
}

/// Whether a newer version than the installed one exists; not where none is installed or the
/// latest is not known.
pub fn agentseek_update_available(installed: &str, latest: Option<&str>, available: bool) -> (r:
    bool)
    ensures
        r == (available && match opt_str(latest) {
            Some(v) => !version_reaches(installed@, version_numbers(v)),
            None => false,
        }),
{
    available && match latest {
        Some(v) => !meets_requirement(installed, v),
        None => false,
    }
}

proof fn lemma_at_least_reflexive(v: Seq<u64>, i: int, n: int)
    ensures
        at_least_from(v, v, i, n),
    decreases n - i,
{
    if 0 <= i < n {
        lemma_at_least_reflexive(v, i + 1, n);
    }
}

proof fn lemma_at_least_total(a: Seq<u64>, b: Seq<u64>, i: int, n: int)
    ensures
        at_least_from(a, b, i, n) || at_least_from(b, a, i, n),
    decreases n - i,
{
    if 0 <= i < n {
        lemma_at_least_total(a, b, i + 1, n);
    }
}

proof fn lemma_at_least_transitive(a: Seq<u64>, b: Seq<u64>, c: Seq<u64>, i: int, n: int)
    requires
        at_least_from(a, b, i, n),
        at_least_from(b, c, i, n),
    ensures
        at_least_from(a, c, i, n),
    decreases n - i,
{
    if 0 <= i < n && part(a, i) == part(b, i) && part(b, i) == part(c, i) {
        lemma_at_least_transitive(a, b, c, i + 1, n);
    }
}

/// Components beyond the ends of both versions decide nothing.
proof fn lemma_at_least_padding(a: Seq<u64>, b: Seq<u64>, i: int, n: int, m: int)
    requires
        0 <= i,
        longer(a, b) <= n <= m,
    ensures
        at_least_from(a, b, i, n) == at_least_from(a, b, i, m),
    decreases m - i,
{
    if i < m {
        lemma_at_least_padding(a, b, i + 1, n, m);
    }
}

/// Versions are ordered: each is at least itself, of two one is at least the other, and what
/// is at least a version is at least all that this is at least.
pub proof fn law_versions_are_ordered(a: Seq<u64>, b: Seq<u64>, c: Seq<u64>)
    ensures
        at_least(a, a),
        at_least(a, b) || at_least(b, a),
        at_least(a, b) && at_least(b, c) ==> at_least(a, c),
{
    lemma_at_least_reflexive(a, 0, longer(a, a));
    lemma_at_least_total(a, b, 0, longer(a, b));
    let n = longer(a, b) + longer(b, c);
    lemma_at_least_padding(a, b, 0, longer(a, b), n);
    lemma_at_least_padding(b, c, 0, longer(b, c), n);
    lemma_at_least_padding(a, c, 0, longer(a, c), n);
    if at_least(a, b) && at_least(b, c) {
        lemma_at_least_transitive(a, b, c, 0, n);
    }
}

/// Whether a list of numbers comes before another: at the first place where they differ it
/// has the smaller number, or it ends there.
pub open spec fn comes_before(a: Seq<u64>, b: Seq<u64>, i: int) -> bool
    decreases a.len() - i,
{
    if i < 0 || i >= a.len() {
        i < b.len()
    } else if i >= b.len() {
        false
    } else if a[i] != b[i] {
        a[i] < b[i]
    } else {
        comes_before(a, b, i + 1)
    }
}

fn version_comes_before(a: &Vec<u64>, b: &Vec<u64>) -> (r: bool)
    ensures
        r == comes_before(a@, b@, 0),
{
    let mut i: usize = 0;
    while i < a.len()
        invariant
            i <= a@.len(),
            i <= b@.len(),
            comes_before(a@, b@, 0) == comes_before(a@, b@, i as int),
        decreases a@.len() - i,
    {
        if i >= b.len() {
            return false;
        }
        if a[i] != b[i] {
            return a[i] < b[i];
        }
        i = i + 1;
    }
    i < b.len()
}

/// The place of a name among others from `i` on, the highest version first: before those
/// that are not higher.
pub open spec fn higher_from(sorted: Seq<Seq<char>>, name: Seq<char>, i: int) -> int
    decreases sorted.len() - i,
{
    if 0 <= i < sorted.len() && comes_before(version_numbers(name), version_numbers(sorted[i]), 0) {
        higher_from(sorted, name, i + 1)
    } else {
        i
    }
}

/// Names by the versions in them, the highest first; of equal ones the later first.
pub open spec fn by_version(names: Seq<Seq<char>>) -> Seq<Seq<char>>
    decreases names.len(),
{
    if names.len() == 0 {
        Seq::empty()
    } else {
        let sorted = by_version(names.drop_last());
        sorted.insert(higher_from(sorted, names.last(), 0), names.last())
    }
}

/// Orders names by the versions in them, the highest first.
pub fn highest_versions_first(names: &Vec<String>) -> (r: Vec<String>)
    ensures
        texts(r@) == by_version(texts(names@)),
{
    let ghost ns = texts(names@);
    let mut r: Vec<String> = Vec::new();
    let mut i: usize = 0;
    assert(texts(r@) == by_version(ns.take(0)));
    while i < names.len()
        invariant
            i <= names@.len(),
            ns == texts(names@),
            texts(r@) == by_version(ns.take(i as int)),
        decreases names@.len() - i,
    {
        assert(ns.take(i + 1).drop_last() == ns.take(i as int));
        assert(ns.take(i + 1).last() == names@[i as int]@);
        let ghost sorted = texts(r@);
        let numbers = numeric_version(names[i].as_str());
        let mut k: usize = 0;
        while k < r.len() && version_comes_before(&numbers, &numeric_version(r[k].as_str()))
            invariant
                k <= r@.len(),
                sorted == texts(r@),
                higher_from(sorted, names@[i as int]@, 0) == higher_from(
                    sorted,
                    names@[i as int]@,
                    k as int,
                ),
            decreases r@.len() - k,
        {
            assert(sorted[k as int] == r@[k as int]@);
            k = k + 1;
        }
        if k < r.len() {
            assert(sorted[k as int] == r@[k as int]@);
        }
        let copy = names[i].clone();
        let ghost model = copy@;
        r.insert(k, copy);
        assert(texts(r@) == sorted.insert(k as int, model));
        i = i + 1;
    }
    assert(ns.take(ns.len() as int) == ns);
    r
}

// ---------------------------------------------------------------------------
// What commands answer
// ---------------------------------------------------------------------------

/// The first line from `i` on that is not blank, without white space around it.
pub open spec fn first_line_from(ls: Seq<Seq<char>>, i: int) -> Option<Seq<char>>
    decreases ls.len() - i,
{
    if i < 0 || i >= ls.len() {
        None
    } else if trimmed(ls[i]).len() > 0 {
        Some(trimmed(ls[i]))
    } else {
        first_line_from(ls, i + 1)
    }
}

/// The version that a command answers with, if it succeeded: its first line that is not blank.
pub fn command_version(success: bool, stdout: &str, stderr: &str) -> (r: Option<String>)
    ensures
        opt_view(r) == (if success {
            first_line_from(lines(stdout@ + stderr@), 0)
        } else {
            None
        }),
{
    if !success {
        return None;
    }
    let both = concat2(stdout, stderr);
    let ls = lines_of(both.as_str());
    let ghost cs = lines(both@);
    let mut i: usize = 0;
    while i < ls.len()
        invariant
            i <= ls@.len(),
            texts(ls@) == cs,
            first_line_from(cs, 0) == first_line_from(cs, i as int),
        decreases ls@.len() - i,
    {
        assert(cs[i as int] == ls@[i as int]@);
        let t = trim(ls[i].as_str());
        if !t.is_empty() {
            return Some(t.to_owned());
        }
        i = i + 1;
    }
    None
}

/// The version of a tool in a line `name vX.Y.Z`.
pub open spec fn listed_version(line: Seq<char>, tool: Seq<char>) -> Option<Seq<char>> {
    let ws = words(line);
    if ws.len() >= 2 && ws[0] == tool && starts(ws[1], "v"@) {
        Some(tool + " "@ + strip_all_start(ws[1], "v"@))
    } else {
        None
    }
}

/// The version of a tool on the first line from `i` on that lists it.
pub open spec fn listed_version_from(ls: Seq<Seq<char>>, tool: Seq<char>, i: int) -> Option<
    Seq<char>,
>
    decreases ls.len() - i,
{
    if i < 0 || i >= ls.len() {
        None
    } else if listed_version(ls[i], tool) is Some {
        listed_version(ls[i], tool)
    } else {
        listed_version_from(ls, tool, i + 1)
    }
}

/// Reads the version of a tool from a list with lines `name vX.Y.Z`.
pub fn parse_uv_tool_version(content: &str, tool_name: &str) -> (r: Option<String>)
    ensures
        opt_view(r) == listed_version_from(lines(content@), tool_name@, 0),
{
    proof {
        reveal_strlit("v");
    }
    let ls = lines_of(content);
    let ghost cs = lines(content@);
    let mut i: usize = 0;
    while i < ls.len()
        invariant
            i <= ls@.len(),
            texts(ls@) == cs,
            listed_version_from(cs, tool_name@, 0) == listed_version_from(
                cs,
                tool_name@,
                i as int,
            ),
        decreases ls@.len() - i,
    {
        assert(cs[i as int] == ls@[i as int]@);
        let ws = split_whitespace(ls[i].as_str());
        if ws.len() >= 2 {
            assert(texts(ws@)[0] == ws@[0]@ && texts(ws@)[1] == ws@[1]@);
            if same(ws[0].as_str(), tool_name) && starts_with(ws[1].as_str(), "v") {
                return Some(concat3(tool_name, " ", trim_start_text(ws[1].as_str(), "v")));
            }
        }
        i = i + 1;
    }
    None
}

/// The first line from `i` on that starts with `agentseek v`, in any case, and gives a version.
pub open spec fn banner_version_from(ls: Seq<Seq<char>>, i: int) -> Option<Seq<char>>
    decreases ls.len() - i,
{
    if i < 0 || i >= ls.len() {
        None
    } else if starts(lower(trimmed(ls[i])), "agentseek v"@) && is_version(trimmed(ls[i])) {
        Some(trimmed(ls[i]))
    } else {
        banner_version_from(ls, i + 1)
    }
}

/// Reads the version line below a banner.
pub fn parse_agentseek_version(content: &str) -> (r: Option<String>)
    ensures
        opt_view(r) == banner_version_from(lines(content@), 0),
{
    let ls = lines_of(content);
    let ghost cs = lines(content@);
    let mut i: usize = 0;
    while i < ls.len()
        invariant
            i <= ls@.len(),
            texts(ls@) == cs,
            banner_version_from(cs, 0) == banner_version_from(cs, i as int),
        decreases ls@.len() - i,
    {
        assert(cs[i as int] == ls@[i as int]@);
        let t = trim(ls[i].as_str());
        if starts_with(to_lower(t).as_str(), "agentseek v") && numeric_version(t).len() > 0 {
            return Some(t.to_owned());
        }
        i = i + 1;
    }
    None
}

/// The version that the command line tool answers with, if it succeeded.
pub fn agentseek_command_version(success: bool, stdout: &str, stderr: &str) -> (r: Option<String>)
    ensures
        opt_view(r) == (if success {
            banner_version_from(lines(stdout@ + stderr@), 0)
        } else {
            None
        }),
{
    if !success {
        return None;
    }
    parse_agentseek_version(concat2(stdout, stderr).as_str())
}

/// The version of a tool in the list of installed tools, if that could be had.
pub fn uv_tool_version(success: bool, stdout: &str, stderr: &str, tool_name: &str) -> (r: Option<
    String,
>)
    ensures
        opt_view(r) == (if success {
            listed_version_from(lines(stdout@ + stderr@), tool_name@, 0)
        } else {
            None
        }),
{
    if !success {
        return None;
    }
    parse_uv_tool_version(concat2(stdout, stderr).as_str(), tool_name)
}

/// The version in the description of a package, white space around it aside; empty where
/// there is none.
pub open spec fn package_version(metadata: JsonModel) -> Seq<char> {
    match member(metadata, "info"@) {
        Some(info) => match member_text(info, "version"@) {
            Some(v) => trimmed(v),
            None => Seq::empty(),
        },
        None => Seq::empty(),
    }
}

/// Picks the version out of the description of a package.
pub fn version_in_metadata(metadata: &Json) -> (r: Result<String, String>)
    ensures
        r is Ok <==> is_version(package_version(metadata@)),
        r matches Ok(v) ==> v@ == package_version(metadata@),
        r matches Err(message) ==> message@
            == "AgentSeek package metadata has no valid latest version"@,
{
    let version: String = match get_member(metadata, "info") {
        Some(info) => match get_text(info, "version") {
            Some(v) => trim(v).to_owned(),
            None => String::new(),
        },
        None => String::new(),
    };
    assert(version@ == package_version(metadata@));
    if numeric_version(version.as_str()).len() == 0 {
        Err("AgentSeek package metadata has no valid latest version".to_owned())
    } else {
        Ok(version)
    }
}

/// What the description of a package, as it came from the index, gives as its version.
pub open spec fn metadata_version(content: Seq<u8>) -> Result<Seq<char>, Seq<char>> {
    match json_read_bytes(content) {
        Ok(metadata) => if is_version(package_version(metadata)) {
            Ok(package_version(metadata))
        } else {
            Err("AgentSeek package metadata has no valid latest version"@)
        },
        Err(e) => Err("AgentSeek package metadata format error: "@ + e),
    }
}

/// What a result of texts stands for.
pub open spec fn result_view(r: Result<String, String>) -> Result<Seq<char>, Seq<char>> {
    match r {
        Ok(v) => Ok(v@),
        Err(e) => Err(e@),
    }
}

/// Reads the latest version from the description of the package.
pub fn parse_agentseek_package_version(content: &[u8]) -> (r: Result<String, String>)
    ensures
        result_view(r) == metadata_version(content@),
{
    match read_json_bytes(content) {
        Ok(metadata) => version_in_metadata(&metadata),
        Err(e) => Err(concat2("AgentSeek package metadata format error: ", e.as_str())),
    }
}

/// How a download ended.
pub enum Download {
    NotStarted(String),
    Finished { success: bool, code: Option<i32>, body: Vec<u8>, stderr: String },
}

/// The latest version, from a version set by hand, if that is one, else from the index of
/// packages.
pub open spec fn latest_version(chosen: Option<Seq<char>>, download: Download) -> Result<
    Seq<char>,
    Seq<char>,
> {
    if chosen is Some && is_version(chosen->0) {
        Ok(chosen->0)
    } else {
        match download {
            Download::NotStarted(error) => Err(
                "Failed to query AgentSeek latest version: "@ + error@,
            ),
            Download::Finished { success, code, body, stderr } => if success {
                metadata_version(body@)
            } else {
                let status = match code {
                    Some(c) => signed_decimal(c as int),
                    None => "terminated by system"@,
                };
                let message = "Failed to query AgentSeek latest version (curl exit status: "@
                    + status + ")"@;
                if trimmed(stderr@).len() == 0 {
                    Err(message)
                } else {
                    Err(message + ": "@ + trimmed(stderr@))
                }
            },
        }
    }
}

pub fn latest_agentseek_version(chosen: Option<String>, download: &Download) -> (r: Result<
    String,
    String,
>)
    ensures
        result_view(r) == latest_version(opt_view(chosen), *download),
{
    if let Some(version) = chosen {
        if numeric_version(version.as_str()).len() > 0 {
            return Ok(version);
        }
    }
    match download {
        Download::NotStarted(error) => Err(
            concat2("Failed to query AgentSeek latest version: ", error.as_str()),
        ),
        Download::Finished { success, code, body, stderr } => {
            if *success {
                return parse_agentseek_package_version(body.as_slice());
            }
            let status = match code {
                Some(c) => signed_decimal_of(*c),
                None => "terminated by system".to_owned(),
            };
            let message = concat3(
                "Failed to query AgentSeek latest version (curl exit status: ",
                status.as_str(),
                ")",
            );
            let detail = trim(stderr.as_str());
            if detail.is_empty() {
                Err(message)
            } else {
                Err(concat3(message.as_str(), ": ", detail))
            }
        },
    }
}

// ---------------------------------------------------------------------------
// Where programs are
// ---------------------------------------------------------------------------

/// The program that downloads files.
pub fn curl_program(on_macos: bool) -> (r: &'static str)
    ensures
        r@ == (if on_macos {
            "/usr/bin/curl"@
        } else {
            "curl"@
        }),
{
    if on_macos {
        "/usr/bin/curl"
    } else {
        "curl"
    }
}

/// The directory of the private Node.js below the runtime directory, as names from there down.
/// On Windows it follows from version and processor. Elsewhere it is that of the version, if
/// it is installed, else of the highest installed version with the same first number, else
/// again that of the version.
pub open spec fn node_bin(
    version: Seq<char>,
    windows: bool,
    arm: bool,
    exact_installed: bool,
    installed: Seq<Seq<char>>,
) -> Seq<Seq<char>> {
    if windows {
        seq![
            "node-v"@ + version + "-"@ + (if arm {
                "win-arm64"@
            } else {
                "win-x64"@
            }),
        ]
    } else {
        let exact = "v"@ + version;
        let best = highest_of(installed, version);
        let dir = if exact_installed || best is None {
            exact
        } else {
            best->0
        };
        seq!["nvm"@, "versions"@, "node"@, dir, "bin"@]
    }
}

/// The first number of a version, if it has one.
pub open spec fn major(version: Seq<char>) -> Option<u64> {
    if is_version(version) {
        Some(version_numbers(version)[0])
    } else {
        None
    }
}

/// The highest of the names with the same first number as a version, the last of equal ones.
pub open spec fn highest_of(names: Seq<Seq<char>>, version: Seq<char>) -> Option<Seq<char>>
    decreases names.len(),
{
    if names.len() == 0 {
        None
    } else {
        let before = highest_of(names.drop_last(), version);
        let last = names.last();
        if major(last) == major(version) && (before is None || !comes_before(
            version_numbers(last),
            version_numbers(before->0),
            0,
        )) {
            Some(last)
        } else {
            before
        }
    }
}

fn same_major(a: &Vec<u64>, b: &Vec<u64>) -> (r: bool)
    ensures
        r == ((if a@.len() > 0 {
            Some(a@[0])
        } else {
            None
        }) == (if b@.len() > 0 {
            Some(b@[0])
        } else {
            None::<u64>
        })),
{
    if a.len() > 0 && b.len() > 0 {
        a[0] == b[0]
    } else {
        a.len() == 0 && b.len() == 0
    }
}

fn find_highest(names: &Vec<String>, version: &str) -> (r: Option<usize>)
    ensures
        match r {
            Some(k) => k < names@.len() && highest_of(texts(names@), version@) == Some(
                names@[k as int]@,
            ),
            None => highest_of(texts(names@), version@) is None,
        },
{
    let ghost ns = texts(names@);
    let wanted = numeric_version(version);
    let mut best: Option<usize> = None;
    let mut i: usize = 0;
    while i < names.len()
        invariant
            i <= names@.len(),
            ns == texts(names@),
            match best {
                Some(k) => k < i && highest_of(ns.take(i as int), version@) == Some(
                    names@[k as int]@,
                ),
                None => highest_of(ns.take(i as int), version@) is None,
            },
        decreases names@.len() - i,
    {
        assert(ns.take(i + 1).drop_last() == ns.take(i as int));
        assert(ns.take(i + 1).last() == names@[i as int]@);
        let numbers = numeric_version(names[i].as_str());
        if same_major(&numbers, &wanted) {
            let higher: bool = match best {
                Some(k) => !version_comes_before(&numbers, &numeric_version(names[k].as_str())),
                None => true,
            };
            if higher {
                best = Some(i);
            }
        }
        i = i + 1;
    }
    assert(ns.take(names@.len() as int) == ns);
    best
}

pub fn managed_node_bin(
    node_version: &str,
    windows: bool,
    arm: bool,
    exact_installed: bool,
    installed: &Vec<String>,
) -> (r: Vec<String>)
    ensures
        texts(r@) == node_bin(node_version@, windows, arm, exact_installed, texts(installed@)),
{
    if windows {
        let r: Vec<String> = vec![
            concat4(
                "node-v",
                node_version,
                "-",
                if arm {
                    "win-arm64"
                } else {
                    "win-x64"
                },
            ),
        ];
        assert(texts(r@) == node_bin(node_version@, windows, arm, exact_installed, texts(installed@)));
        return r;
    }
    let dir: String = if exact_installed {
        concat2("v", node_version)
    } else {
        match find_highest(installed, node_version) {
            Some(k) => installed[k].clone(),
            None => concat2("v", node_version),
        }
    };
    let r: Vec<String> = vec![
        "nvm".to_owned(),
        "versions".to_owned(),
        "node".to_owned(),
        dir,
        "bin".to_owned(),
    ];
    assert(texts(r@) == node_bin(node_version@, windows, arm, exact_installed, texts(installed@)));
    r
}

/// Whether a name can be looked up by a shell: letters, digits, dashes, underscores and dots
/// only.
pub open spec fn is_program_name(name: Seq<char>) -> bool {
    name.len() > 0 && forall|i: int|
        0 <= i < name.len() ==> (is_alnum(#[trigger] name[i]) || name[i] == '-' || name[i] == '_'
            || name[i] == '.')
}

pub fn is_plain_program_name(name: &str) -> (r: bool)
    ensures
        r == is_program_name(name@),
{
    let v = chars_of(name);
    if v.len() == 0 {
        return false;
    }
    let mut i: usize = 0;
    while i < v.len()
        invariant
            i <= v@.len(),
            forall|j: int|
                0 <= j < i ==> (is_alnum(#[trigger] v@[j]) || v@[j] == '-' || v@[j] == '_' || v@[j]
                    == '.'),
        decreases v@.len() - i,
    {
        if !(char_is_alnum(v[i]) || v[i] == '-' || v[i] == '_' || v[i] == '.') {
            return false;
        }
        i = i + 1;
    }
    true
}

/// The lines before `i` that are not blank, the last first.
pub open spec fn reversed_lines(ls: Seq<Seq<char>>, i: int) -> Seq<Seq<char>>
    decreases i,
{
    if i <= 0 || i > ls.len() {
        Seq::empty()
    } else if trimmed(ls[i - 1]).len() > 0 {
        seq![trimmed(ls[i - 1])] + reversed_lines(ls, i - 1)
    } else {
        reversed_lines(ls, i - 1)
    }
}

/// The lines of a shell's answer in which a program may be named, the last first.
pub fn located_lines(stdout: &str) -> (r: Vec<String>)
    ensures
        texts(r@) == reversed_lines(lines(stdout@), lines(stdout@).len() as int),
{
    let ls = lines_of(stdout);
    let ghost cs = lines(stdout@);
    let mut r: Vec<String> = Vec::new();
    let mut i: usize = ls.len();
    while i > 0
        invariant
            i <= ls@.len(),
            texts(ls@) == cs,
            texts(r@) + reversed_lines(cs, i as int) == reversed_lines(cs, cs.len() as int),
        decreases i,
    {
        assert(cs[i - 1] == ls@[i - 1]@);
        let t = trim(ls[i - 1].as_str());
        if !t.is_empty() {
            let ghost before = texts(r@);
            let ghost rest = reversed_lines(cs, i - 1);
            let copy = t.to_owned();
            let ghost model = copy@;
            r.push(copy);
            assert(texts(r@) == before.push(model));
            assert(before.push(model) + rest == before + (seq![model] + rest));
        }
        i = i - 1;
    }
    assert(texts(r@) + Seq::<Seq<char>>::empty() == texts(r@));
    r
}

/// The program to run under a name: the name itself where that works, else where the shell
/// finds it, if it works there.
pub fn resolved_program(program: &str, works: bool, located: Option<String>, located_works: bool) -> (r:
    Option<String>)
    ensures
        opt_view(r) == (if works {
            Some(program@)
        } else if located is Some && located_works {
            opt_view(located)
        } else {
            None
        }),
{
    if works {
        return Some(program.to_owned());
    }
    if located_works {
        located
    } else {
        None
    }
}

/// Where uv may be, the first choice first.
pub fn uv_program(home: Option<&str>, windows: bool) -> (r: Vec<String>)
    ensures
        texts(r@) == (match opt_str(home) {
            Some(h) => seq![
                joined_path(windows, h, ".local/bin/uv"@),
                joined_path(windows, h, ".cargo/bin/uv"@),
                joined_path(windows, h, ".pyenv/shims/uv"@),
            ],
            None => Seq::empty(),
        }) + seq![
            "/opt/homebrew/bin/uv"@,
            "/usr/local/bin/uv"@,
            "/Library/Frameworks/Python.framework/Versions/3.9/bin/uv"@,
        ],
{
    let mut r: Vec<String> = Vec::new();
    if let Some(h) = home {
        r.push(join_path(windows, h, ".local/bin/uv"));
        r.push(join_path(windows, h, ".cargo/bin/uv"));
        r.push(join_path(windows, h, ".pyenv/shims/uv"));
    }
    let ghost head = match opt_str(home) {
        Some(h) => seq![
            joined_path(windows, h, ".local/bin/uv"@),
            joined_path(windows, h, ".cargo/bin/uv"@),
            joined_path(windows, h, ".pyenv/shims/uv"@),
        ],
        None => Seq::empty(),
    };
    assert(texts(r@) == head);
    r.push("/opt/homebrew/bin/uv".to_owned());
    r.push("/usr/local/bin/uv".to_owned());
    r.push("/Library/Frameworks/Python.framework/Versions/3.9/bin/uv".to_owned());
    assert(texts(r@) == head + seq![
        "/opt/homebrew/bin/uv"@,
        "/usr/local/bin/uv"@,
        "/Library/Frameworks/Python.framework/Versions/3.9/bin/uv"@,
    ]);
    r
}

/// The command line tool to run: the one chosen by hand, else the one that uv installed, else
/// one that is found, else its bare name.
pub fn agentseek_program(
    chosen: Option<String>,
    installed: Option<String>,
    resolved: Option<String>,
) -> (r: String)
    ensures
        r@ == (if chosen is Some {
            chosen->0@
        } else if installed is Some {
            installed->0@
        } else if resolved is Some {
            resolved->0@
        } else {
            "agentseek"@
        }),
{
    match chosen {
        Some(program) => program,
        None => match installed {
            Some(program) => program,
            None => match resolved {
                Some(program) => program,
                None => "agentseek".to_owned(),
            },
        },
    }
}

/// The program and the fixed arguments of the command line tool: none.
pub fn cli_parts(program: String) -> (r: (String, Vec<String>))
    ensures
        r.0@ == program@,
        r.1@.len() == 0,
{
    (program, Vec::new())
}

// ---------------------------------------------------------------------------
// Platforms and installation commands
// ---------------------------------------------------------------------------

/// The operating system that the desktop runs on.
#[derive(Clone, Copy, Debug, PartialEq, Eq, Structural)]
pub enum System {
    MacOs,
    Windows,
    Linux,
    Other,
}

/// The distribution that the lines from `i` on of the file that describes it name, without
/// quotes around it.
pub open spec fn distribution_from(ls: Seq<Seq<char>>, i: int) -> Option<Seq<char>>
    decreases ls.len() - i,
{
    if i < 0 || i >= ls.len() {
        None
    } else {
        match after_prefix(ls[i], "ID="@) {
            Some(value) => Some(strip_set(value, "\"'"@)),
            None => distribution_from(ls, i + 1),
        }
    }
}

/// The family of a distribution, given in lower case.
pub open spec fn family_of(distribution: Seq<char>) -> Seq<char> {
    if distribution == "ubuntu"@ || distribution == "debian"@ || distribution == "linuxmint"@
        || distribution == "pop"@ {
        "debian"@
    } else if distribution == "centos"@ || distribution == "rhel"@ || distribution == "fedora"@
        || distribution == "rocky"@ || distribution == "almalinux"@ || distribution == "ol"@ {
        "rhel"@
    } else {
        "linux"@
    }
}

/// Finds the family of a distribution, given in lower case.
pub fn distribution_family(distribution: &str) -> (r: String)
    ensures
        r@ == family_of(distribution@),
{
    if same(distribution, "ubuntu") || same(distribution, "debian") || same(
        distribution,
        "linuxmint",
    ) || same(distribution, "pop") {
        "debian".to_owned()
    } else if same(distribution, "centos") || same(distribution, "rhel") || same(
        distribution,
        "fedora",
    ) || same(distribution, "rocky") || same(distribution, "almalinux") || same(distribution, "ol") {
        "rhel".to_owned()
    } else {
        "linux".to_owned()
    }
}

fn distribution_name(os_release: &str) -> (r: Option<String>)
    ensures
        opt_view(r) == distribution_from(lines(os_release@), 0),
{
    let ls = lines_of(os_release);
    let ghost cs = lines(os_release@);
    let mut i: usize = 0;
    while i < ls.len()
        invariant
            i <= ls@.len(),
            texts(ls@) == cs,
            distribution_from(cs, 0) == distribution_from(cs, i as int),
        decreases ls@.len() - i,
    {
        assert(cs[i as int] == ls@[i as int]@);
        if let Some(value) = strip_prefix(ls[i].as_str(), "ID=") {
            return Some(trim_chars(value, "\"'").to_owned());
        }
        i = i + 1;
    }
    None
}

/// The name of the platform: on Linux the family of the distribution that `os_release`, where
/// it could be read, names.
pub fn platform_id(system: System, os_release: Option<&str>) -> (r: String)
    ensures
        r@ == (match system {
            System::MacOs => "macos"@,
            System::Windows => "windows"@,
            System::Linux => match opt_str(os_release) {
                Some(text) => match distribution_from(lines(text), 0) {
                    Some(name) => family_of(unicode_lower(name)),
                    None => "linux"@,
                },
                None => "linux"@,
            },
            System::Other => "unknown"@,
        }),
{
    match system {
        System::MacOs => "macos".to_owned(),
        System::Windows => "windows".to_owned(),
        System::Linux => match os_release {
            Some(text) => match distribution_name(text) {
                Some(name) => {
                    let lowered = name.as_str().to_lowercase();
                    distribution_family(lowered.as_str())
                },
                None => "linux".to_owned(),
            },
            None => "linux".to_owned(),
        },
        System::Other => "unknown".to_owned(),
    }
}

/// Whether a platform has a Unix shell.
pub open spec fn is_unix(platform: Seq<char>) -> bool {
    platform == "macos"@ || platform == "debian"@ || platform == "rhel"@ || platform == "linux"@
}

/// The command that installs Node.js below the given runtime directory.
pub open spec fn node_command(r: RuntimeRequirements, platform: Seq<char>, root: Seq<char>) -> Seq<
    char,
> {
    let version = r.versions.node.managed@;
    let nvm = joined_path(false, root, "nvm"@);
    let installer = replaced(
        r.sources.nvm_installer_template@,
        "{version}"@,
        r.versions.nvm.managed@,
    );
    let first = match major(version) {
        Some(n) => n as nat,
        None => 0,
    };
    if is_unix(platform) {
        ("unset npm_config_prefix && export NVM_DIR=\""@ + nvm
            + "\" PROFILE=/dev/null NVM_SOURCE="@ + NVM_INSTALL_MIRROR@ + ".git && curl -o- "@
            + installer) + (" | bash && . \""@ + nvm + "/nvm.sh\" && nvm install "@ + decimal(first)
            + " && node --version && npm --version"@)
    } else if platform == "windows"@ {
        "Downloading Node.js "@ + version + " official ZIP to "@ + root
            + " (for AgentSeek Desktop only)"@
    } else {
        "Installing Node.js "@ + version + " to AgentSeek Desktop private runtime directory "@
            + root
    }
}

/// The command that installs git.
pub open spec fn git_command(platform: Seq<char>, available: bool) -> Seq<char> {
    if platform == "macos"@ {
        if available {
            "brew upgrade git"@
        } else {
            "brew install git"@
        }
    } else if platform == "debian"@ {
        "sudo apt-get update && sudo apt-get install -y git"@
    } else if platform == "rhel"@ {
        "sudo dnf install -y git"@
    } else if platform == "windows"@ {
        "winget install --id Git.Git"@
    } else {
        "Please install the required Git version using your system package manager"@
    }
}

/// The commands that install the tools, by tool.
pub open spec fn install_commands(
    r: RuntimeRequirements,
    platform: Seq<char>,
    root: Option<Seq<char>>,
    uv_available: bool,
    git_available: bool,
) -> Seq<(Seq<char>, Seq<char>)> {
    let node = node_command(
        r,
        platform,
        match root {
            Some(path) => path,
            None => "<AgentSeek data>/runtime"@,
        },
    );
    seq![
        (
            "uv"@,
            if uv_available {
                "uv self update"@
            } else {
                "curl -LsSf "@ + r.sources.uv_installer@ + " | sh"@
            },
        ),
        ("node"@, node),
        ("npm"@, node),
        ("git"@, git_command(platform, git_available)),
        ("agentseek"@, "uv tool install --upgrade agentseek"@),
    ]
}

/// What a list of named texts stands for.
pub open spec fn named_texts(v: Seq<(String, String)>) -> Seq<(Seq<char>, Seq<char>)> {
    v.map_values(|p: (String, String)| (p.0@, p.1@))
}

fn node_install_command(requirements: &RuntimeRequirements, platform: &str, root: &str) -> (r:
    String)
    ensures
        r@ == node_command(*requirements, platform@, root@),
{
    proof {
        reveal_strlit("{version}");
    }
    let version = requirements.versions.node.managed.as_str();
    let numbers = numeric_version(version);
    let first: u64 = if numbers.len() > 0 {
        numbers[0]
    } else {
        0
    };
    let nvm = join_path(false, root, "nvm");
    let installer = replace(
        requirements.sources.nvm_installer_template.as_str(),
        "{version}",
        requirements.versions.nvm.managed.as_str(),
    );
    if same(platform, "macos") || same(platform, "debian") || same(platform, "rhel") || same(
        platform,
        "linux",
    ) {
        let head = concat6(
            "unset npm_config_prefix && export NVM_DIR=\"",
            nvm.as_str(),
            "\" PROFILE=/dev/null NVM_SOURCE=",
            NVM_INSTALL_MIRROR,
            ".git && curl -o- ",
            installer.as_str(),
        );
        let tail = concat5(
            " | bash && . \"",
            nvm.as_str(),
            "/nvm.sh\" && nvm install ",
            decimal_of(first).as_str(),
            " && node --version && npm --version",
        );
        concat2(head.as_str(), tail.as_str())
    } else if same(platform, "windows") {
        concat5(
            "Downloading Node.js ",
            version,
            " official ZIP to ",
            root,
            " (for AgentSeek Desktop only)",
        )
    } else {
        concat4(
            "Installing Node.js ",
            version,
            " to AgentSeek Desktop private runtime directory ",
            root,
        )
    }
}

/// The commands that a user can run to install the tools.
pub fn dependency_commands(
    requirements: &RuntimeRequirements,
    platform: &str,
    managed_runtime_root: Option<&str>,
    uv_available: bool,
    git_available: bool,
) -> (r: Vec<(String, String)>)
    ensures
        named_texts(r@) == install_commands(
            *requirements,
            platform@,
            opt_str(managed_runtime_root),
            uv_available,
            git_available,
        ),
{
    let uv = if uv_available {
        "uv self update".to_owned()
    } else {
        concat3("curl -LsSf ", requirements.sources.uv_installer.as_str(), " | sh")
    };
    let root = match managed_runtime_root {
        Some(path) => path,
        None => "<AgentSeek data>/runtime",
    };
    let node = node_install_command(requirements, platform, root);
    let git = if same(platform, "macos") {
        if git_available {
            "brew upgrade git"
        } else {
            "brew install git"
        }
    } else if same(platform, "debian") {
        "sudo apt-get update && sudo apt-get install -y git"
    } else if same(platform, "rhel") {
        "sudo dnf install -y git"
    } else if same(platform, "windows") {
        "winget install --id Git.Git"
    } else {
        "Please install the required Git version using your system package manager"
    };
    let r: Vec<(String, String)> = vec![
        ("uv".to_owned(), uv),
        ("node".to_owned(), node.clone()),
        ("npm".to_owned(), node),
        ("git".to_owned(), git.to_owned()),
        ("agentseek".to_owned(), "uv tool install --upgrade agentseek".to_owned()),
    ];
    assert(named_texts(r@) == install_commands(
        *requirements,
        platform@,
        opt_str(managed_runtime_root),
        uv_available,
        git_available,
    ));
    r
}

// ---------------------------------------------------------------------------
// The state of the tools
// ---------------------------------------------------------------------------

/// What was found out about the tools; a version is empty where there is none.
pub struct ToolFacts {
    pub platform: String,
    pub runtime_root: Option<String>,
    pub node_managed: bool,
    pub uv_path: String,
    pub uv_version: String,
    pub cli_version: String,
    pub cli_available: bool,
    pub latest_version: Option<String>,
    pub node_version: String,
    pub npm_version: String,
    pub git_version: String,
}

/// The state of the tools as it is shown.
#[derive(Clone, Debug, Default)]
pub struct CliStatus {
    pub platform: String,
    pub dependency_commands: Vec<(String, String)>,
    pub minimum_versions: Vec<(String, String)>,
    pub node_managed: bool,
    pub uv_available: bool,
    pub uv_path: String,
    pub cli_available: bool,
    pub cli_compatible: bool,
    pub cli_update_available: bool,
    pub cli_latest_version: String,
    pub cli_latest_version_checked: bool,
    pub uv_version: String,
    pub cli_version: String,
    pub node_available: bool,
    pub node_compatible: bool,
    pub node_version: String,
    pub npm_available: bool,
    pub npm_compatible: bool,
    pub npm_version: String,
    pub git_available: bool,
    pub git_compatible: bool,
    pub git_version: String,
    pub uv_compatible: bool,
    pub prerequisites_ready: bool,
    pub install_command: String,
}

/// Whether a version suffices for a requirement.
pub open spec fn suffices(version: Seq<char>, minimum: Seq<char>) -> bool {
    version_reaches(version, version_numbers(minimum))
}

/// The smallest versions that suffice, by tool.
pub open spec fn minimums(r: RuntimeRequirements) -> Seq<(Seq<char>, Seq<char>)> {
    seq![
        ("uv"@, r.versions.uv.minimum@),
        ("node"@, r.versions.node.minimum@),
        ("npm"@, r.versions.npm.minimum@),
        ("git"@, r.versions.git.minimum@),
        ("agentseek"@, r.versions.agentseek.minimum@),
    ]
}

/// Judges the tools by the requirements. Git is judged but not needed to be ready.
pub fn current_cli_status(requirements: &RuntimeRequirements, facts: &ToolFacts) -> (r: CliStatus)
    ensures
        r.platform@ == facts.platform@,
        named_texts(r.dependency_commands@) == install_commands(
            *requirements,
            facts.platform@,
            opt_view(facts.runtime_root),
            facts.uv_version@.len() > 0,
            facts.git_version@.len() > 0,
        ),
        named_texts(r.minimum_versions@) == minimums(*requirements),
        r.node_managed == facts.node_managed,
        r.uv_available == (facts.uv_version@.len() > 0),
        r.uv_path@ == facts.uv_path@,
        r.cli_available == facts.cli_available,
        r.cli_compatible == suffices(facts.cli_version@, requirements.versions.agentseek.minimum@),
        r.cli_update_available == (facts.cli_available && facts.latest_version is Some
            && !suffices(facts.cli_version@, facts.latest_version->0@)),
        r.cli_latest_version@ == (match opt_view(facts.latest_version) {
            Some(v) => v,
            None => Seq::empty(),
        }),
        r.cli_latest_version_checked == (facts.latest_version is Some),
        r.uv_version@ == facts.uv_version@,
        r.cli_version@ == facts.cli_version@,
        r.node_available == (facts.node_version@.len() > 0),
        r.node_compatible == suffices(facts.node_version@, requirements.versions.node.minimum@),
        r.node_version@ == facts.node_version@,
        r.npm_available == (facts.npm_version@.len() > 0),
        r.npm_compatible == suffices(facts.npm_version@, requirements.versions.npm.minimum@),
        r.npm_version@ == facts.npm_version@,
        r.git_available == (facts.git_version@.len() > 0),
        r.git_compatible == suffices(facts.git_version@, requirements.versions.git.minimum@),
        r.git_version@ == facts.git_version@,
        r.uv_compatible == suffices(facts.uv_version@, requirements.versions.uv.minimum@),
        r.prerequisites_ready == (r.uv_compatible && r.node_compatible && r.npm_compatible
            && r.cli_compatible),
        r.install_command@ == "uv tool install agentseek"@,
{
    let v = &requirements.versions;
    let uv_compatible: bool = meets_requirement(
        facts.uv_version.as_str(),
        v.uv.minimum.as_str(),
    );
    let node_compatible: bool = meets_requirement(
        facts.node_version.as_str(),
        v.node.minimum.as_str(),
    );
    let npm_compatible: bool = meets_requirement(
        facts.npm_version.as_str(),
        v.npm.minimum.as_str(),
    );
    let git_compatible: bool = meets_requirement(
        facts.git_version.as_str(),
        v.git.minimum.as_str(),
    );
    let cli_compatible: bool = meets_requirement(
        facts.cli_version.as_str(),
        v.agentseek.minimum.as_str(),
    );
    let latest: Option<&str> = match facts.latest_version.as_ref() {
        Some(s) => Some(s.as_str()),
        None => None,
    };
    let root: Option<&str> = match facts.runtime_root.as_ref() {
        Some(s) => Some(s.as_str()),
        None => None,
    };
    let minimum_versions: Vec<(String, String)> = vec![
        ("uv".to_owned(), v.uv.minimum.clone()),
        ("node".to_owned(), v.node.minimum.clone()),
        ("npm".to_owned(), v.npm.minimum.clone()),
        ("git".to_owned(), v.git.minimum.clone()),
        ("agentseek".to_owned(), v.agentseek.minimum.clone()),
    ];
    assert(named_texts(minimum_versions@) == minimums(*requirements));
    let uv_available: bool = !facts.uv_version.as_str().is_empty();
    let git_available: bool = !facts.git_version.as_str().is_empty();
    CliStatus {
        platform: facts.platform.clone(),
        dependency_commands: dependency_commands(
            requirements,
            facts.platform.as_str(),
            root,
            uv_available,
            git_available,
        ),
        minimum_versions,
        node_managed: facts.node_managed,
        uv_available,
        uv_path: facts.uv_path.clone(),
        cli_available: facts.cli_available,
        cli_compatible,
        cli_update_available: agentseek_update_available(
            facts.cli_version.as_str(),
            latest,
            facts.cli_available,
        ),
        cli_latest_version: match latest {
            Some(s) => s.to_owned(),
            None => String::new(),
        },
        cli_latest_version_checked: latest.is_some(),
        uv_version: facts.uv_version.clone(),
        cli_version: facts.cli_version.clone(),
        node_available: !facts.node_version.as_str().is_empty(),
        node_compatible,
        node_version: facts.node_version.clone(),
        npm_available: !facts.npm_version.as_str().is_empty(),
        npm_compatible,
        npm_version: facts.npm_version.clone(),
        git_available,
        git_compatible,
        git_version: facts.git_version.clone(),
        uv_compatible,
        prerequisites_ready: uv_compatible && node_compatible && npm_compatible && cli_compatible,
        install_command: "uv tool install agentseek".to_owned(),
    }
}

// ---------------------------------------------------------------------------
// Where programs are looked for
// ---------------------------------------------------------------------------

/// The directories of the programs of managed versions of Node.js, the highest version first.
pub open spec fn managed_bins(root: Seq<char>, versions: Seq<Seq<char>>, windows: bool) -> Seq<
    Seq<char>,
> {
    by_version(versions).map_values(
        |v: Seq<char>|
            joined_path(
                windows,
                joined_path(windows, joined_path(windows, root, "nvm/versions/node"@), v),
                "bin"@,
            ),
    )
}

/// The directories in which programs are looked for, the first choice first.
pub open spec fn search_path(
    root: Option<Seq<char>>,
    versions: Seq<Seq<char>>,
    node_bin: Option<Seq<char>>,
    home: Option<Seq<char>>,
    existing: Seq<Seq<char>>,
    windows: bool,
) -> Seq<Seq<char>> {
    (match root {
        Some(r) => managed_bins(r, versions, windows),
        None => Seq::empty(),
    }) + (match node_bin {
        Some(n) => seq![n],
        None => Seq::empty(),
    }) + (match home {
        Some(h) => seq![
            joined_path(windows, h, ".local/bin"@),
            joined_path(windows, h, ".cargo/bin"@),
            joined_path(windows, h, ".pyenv/shims"@),
            joined_path(windows, h, ".pyenv/bin"@),
        ],
        None => Seq::empty(),
    }) + seq![
        "/opt/homebrew/bin"@,
        "/usr/local/bin"@,
        "/usr/bin"@,
        "/bin"@,
        "/Library/Frameworks/Python.framework/Versions/3.9/bin"@,
    ] + existing
}

fn add_path(paths: &mut Vec<String>, path: String)
    ensures
        texts(final(paths)@) == texts(old(paths)@) + seq![path@],
{
    let ghost before = texts(paths@);
    let ghost model = path@;
    paths.push(path);
    assert(texts(paths@) == before + seq![model]);
}

fn add_managed_bins(
    paths: &mut Vec<String>,
    root: &str,
    versions: &Vec<String>,
    windows: bool,
)
    ensures
        texts(final(paths)@) == texts(old(paths)@) + managed_bins(root@, texts(versions@), windows),
{
    let sorted = highest_versions_first(versions);
    let parent = join_path(windows, root, "nvm/versions/node");
    let ghost before = texts(paths@);
    let ghost bins = managed_bins(root@, texts(versions@), windows);
    let mut i: usize = 0;
    assert(before + bins.take(0) == before);
    while i < sorted.len()
        invariant
            i <= sorted@.len(),
            texts(sorted@) == by_version(texts(versions@)),
            bins == managed_bins(root@, texts(versions@), windows),
            parent@ == joined_path(windows, root@, "nvm/versions/node"@),
            texts(paths@) == before + bins.take(i as int),
        decreases sorted@.len() - i,
    {
        assert(texts(sorted@)[i as int] == sorted@[i as int]@);
        let version_dir = join_path(windows, parent.as_str(), sorted[i].as_str());
        add_path(paths, join_path(windows, version_dir.as_str(), "bin"));
        assert(bins.take(i + 1) == bins.take(i as int) + seq![bins[i as int]]);
        i = i + 1;
    }
    assert(bins.take(bins.len() as int) == bins);
}

/// Lists the directories in which programs are looked for. `versions` are the managed versions
/// of Node.js below `runtime_root`.
pub fn runtime_path(
    runtime_root: Option<&str>,
    versions: &Vec<String>,
    node_bin: Option<&str>,
    home: Option<&str>,
    existing: &Vec<String>,
    windows: bool,
) -> (r: Vec<String>)
    ensures
        texts(r@) == search_path(
            opt_str(runtime_root),
            texts(versions@),
            opt_str(node_bin),
            opt_str(home),
            texts(existing@),
            windows,
        ),
{
    let mut paths: Vec<String> = Vec::new();
    assert(texts(paths@) == Seq::<Seq<char>>::empty());
    if let Some(root) = runtime_root {
        add_managed_bins(&mut paths, root, versions, windows);
    }
    if let Some(bin) = node_bin {
        add_path(&mut paths, bin.to_owned());
    }
    if let Some(home) = home {
        add_path(&mut paths, join_path(windows, home, ".local/bin"));
        add_path(&mut paths, join_path(windows, home, ".cargo/bin"));
        add_path(&mut paths, join_path(windows, home, ".pyenv/shims"));
        add_path(&mut paths, join_path(windows, home, ".pyenv/bin"));
    }
    add_path(&mut paths, "/opt/homebrew/bin".to_owned());
    add_path(&mut paths, "/usr/local/bin".to_owned());
    add_path(&mut paths, "/usr/bin".to_owned());
    add_path(&mut paths, "/bin".to_owned());
    add_path(&mut paths, "/Library/Frameworks/Python.framework/Versions/3.9/bin".to_owned());
    push_all(&mut paths, existing);
    assert(texts(paths@) == search_path(
        opt_str(runtime_root),
        texts(versions@),
        opt_str(node_bin),
        opt_str(home),
        texts(existing@),
        windows,
    ));
    paths
}

/// How long a command of the tool may take.
pub const COMMAND_TIMEOUT_SECONDS: u64 = 600;

/// What is told of a command of the tool that took too long.
pub fn timeout_message(command: &str) -> (r: String)
    ensures
        r@ == "Command timed out after 600 seconds: "@ + command@,
{
    concat2("Command timed out after 600 seconds: ", command)
}

} // verus!
