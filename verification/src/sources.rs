//! Changes to the files of a freshly created instance.

use crate::models::{
    changes_view, ChangeModel, PortChange, APT_MIRROR, PYPI_MIRROR,
};
use crate::text::{
    before_suffix, char_is_alnum, char_is_digit, char_is_space, chars_of, concat3, contains, cut,
    decimal, decimal_of, ends, ends_with, find, find_from, holds, index_from, index_of, is_alnum,
    is_digit, is_space, lemma_decimal_value, lemma_find_from, lemma_holds, lower, matches_at,
    opt_view, replace_once, replaced_once, same, skip, starts, starts_with, strip_set, strip_suffix,
    take, texts, to_lower, to_upper, trim_chars, trim_end, trimmed_end, upper,
};
use vstd::prelude::*;
use vstd::string::*;

verus! {

// ---------------------------------------------------------------------------
// Files of a directory tree
// ---------------------------------------------------------------------------

/// What a directory lists: files by name, and directories with what they list.
pub enum DirEntry {
    File(String),
    Dir(String, Vec<DirEntry>),
}

/// The path, as names from the root down, of the first file of the given name among the
/// entries from `i` on, a directory searched before the entries behind it, no deeper than
/// `depth` directories.
pub open spec fn found_from(entries: Seq<DirEntry>, i: int, name: Seq<char>, depth: nat) -> Option<
    Seq<Seq<char>>,
>
    decreases depth, entries.len() - i,
{
    if depth == 0 || i < 0 || i >= entries.len() {
        None
    } else {
        match entries[i] {
            DirEntry::File(file) => if file@ == name {
                Some(seq![name])
            } else {
                found_from(entries, i + 1, name, depth)
            },
            DirEntry::Dir(dir, inner) => match found_from(inner@, 0, name, (depth - 1) as nat) {
                Some(path) => Some(seq![dir@] + path),
                None => found_from(entries, i + 1, name, depth),
            },
        }
    }
}

/// What a path given as names stands for.
pub open spec fn path_view(r: Option<Vec<String>>) -> Option<Seq<Seq<char>>> {
    match r {
        Some(p) => Some(texts(p@)),
        None => None,
    }
}

/// Searches a directory tree for a file by name, up to `max_depth` levels deep.
pub fn find_file_recursive(root: &Vec<DirEntry>, filename: &str, max_depth: usize) -> (r: Option<
    Vec<String>,
>)
    ensures
        path_view(r) == found_from(root@, 0, filename@, max_depth as nat),
    decreases max_depth,
{
    if max_depth == 0 {
        return None;
    }
    let mut i: usize = 0;
    while i < root.len()
        invariant
            i <= root@.len(),
            max_depth > 0,
            found_from(root@, 0, filename@, max_depth as nat) == found_from(
                root@,
                i as int,
                filename@,
                max_depth as nat,
            ),
        decreases root@.len() - i,
    {
        match &root[i] {
            DirEntry::File(file) => {
                if same(file.as_str(), filename) {
                    let path: Vec<String> = vec![filename.to_owned()];
                    assert(texts(path@) == seq![filename@]);
                    return Some(path);
                }
            },
            DirEntry::Dir(dir, inner) => {
                if let Some(rest) = find_file_recursive(inner, filename, max_depth - 1) {
                    let ghost below = texts(rest@);
                    let mut path = rest;
                    path.insert(0, dir.clone());
                    assert(texts(path@) == seq![dir@] + below);
                    return Some(path);
                }
            },
        }
        i = i + 1;
    }
    None
}

/// Whether a directory lists a file of the given name itself.
pub open spec fn lists_file(entries: Seq<DirEntry>, name: Seq<char>) -> bool {
    exists|i: int|
        0 <= i < entries.len() && (#[trigger] entries[i]) is File && entries[i]->File_0@ == name
}

fn has_file(entries: &Vec<DirEntry>, name: &str) -> (r: bool)
    ensures
        r == lists_file(entries@, name@),
{
    let mut i: usize = 0;
    while i < entries.len()
        invariant
            i <= entries@.len(),
            forall|j: int|
                0 <= j < i ==> !((#[trigger] entries@[j]) is File && entries@[j]->File_0@ == name@),
        decreases entries@.len() - i,
    {
        if let DirEntry::File(file) = &entries[i] {
            if same(file.as_str(), name) {
                assert(entries@[i as int] is File);
                return true;
            }
        }
        i = i + 1;
    }
    false
}

/// The first directory from `i` on that lists an example environment.
pub open spec fn example_dir_from(entries: Seq<DirEntry>, i: int) -> Option<Seq<Seq<char>>>
    decreases entries.len() - i,
{
    if i < 0 || i >= entries.len() {
        None
    } else {
        match entries[i] {
            DirEntry::Dir(dir, inner) => if lists_file(inner@, ".env.example"@) {
                Some(seq![dir@, ".env.example"@])
            } else {
                example_dir_from(entries, i + 1)
            },
            DirEntry::File(_) => example_dir_from(entries, i + 1),
        }
    }
}

/// Where a directory has its example environment: in itself, else in the first directory
/// right below it that has one.
pub open spec fn env_example(entries: Seq<DirEntry>) -> Option<Seq<Seq<char>>> {
    if lists_file(entries, ".env.example"@) {
        Some(seq![".env.example"@])
    } else {
        example_dir_from(entries, 0)
    }
}

/// Finds the example environment of an instance.
pub fn find_env_example(root: &Vec<DirEntry>) -> (r: Option<Vec<String>>)
    ensures
        path_view(r) == env_example(root@),
{
    if has_file(root, ".env.example") {
        let path: Vec<String> = vec![".env.example".to_owned()];
        assert(texts(path@) == seq![".env.example"@]);
        return Some(path);
    }
    let mut i: usize = 0;
    while i < root.len()
        invariant
            i <= root@.len(),
            example_dir_from(root@, 0) == example_dir_from(root@, i as int),
        decreases root@.len() - i,
    {
        if let DirEntry::Dir(dir, inner) = &root[i] {
            if has_file(inner, ".env.example") {
                let path: Vec<String> = vec![dir.clone(), ".env.example".to_owned()];
                assert(texts(path@) == seq![dir@, ".env.example"@]);
                return Some(path);
            }
        }
        i = i + 1;
    }
    None
}

// ---------------------------------------------------------------------------
// Ports in source files
// ---------------------------------------------------------------------------

/// Where the text behind the last white space starts, looking back from `i`.
pub open spec fn last_word_start(s: Seq<char>, i: int) -> int
    decreases i,
{
    if i <= 0 {
        0
    } else if is_space(s[i - 1]) {
        i
    } else {
        last_word_start(s, i - 1)
    }
}

/// The text behind the last white space.
pub open spec fn last_word(s: Seq<char>) -> Seq<char> {
    s.skip(last_word_start(s, s.len() as int))
}

/// Whether a character may stand in a name.
pub open spec fn is_name_char(c: char) -> bool {
    is_alnum(c) || c == '_'
}

/// Whether a text ends in the given name, with no other character of a name before it.
pub open spec fn ends_in_name(s: Seq<char>, name: Seq<char>) -> bool {
    ends(s, name) && (s.len() == name.len() || !is_name_char(s[s.len() - name.len() - 1]))
}

/// Whether a text ends in an assignment to a port: to a variable whose name ends in `_PORT`, in
/// any case, or to one that is called `port` or `PORT`.
pub open spec fn ends_in_port_key(s: Seq<char>) -> bool {
    let key = strip_set(last_word(s.drop_last()), "\"'"@);
    ends(s, "="@) && (ends(upper(key), "_PORT"@) || ends_in_name(key, "port"@) || ends_in_name(
        key,
        "PORT"@,
    ))
}

/// A text without one closing quote.
pub open spec fn without_quote(s: Seq<char>) -> Seq<char> {
    match before_suffix(s, "\""@) {
        Some(t) => t,
        None => match before_suffix(s, "'"@) {
            Some(t) => t,
            None => s,
        },
    }
}

/// Whether a text ends in the word `port`, at its start or behind white space or a quote.
pub open spec fn ends_in_port_word(s: Seq<char>) -> bool {
    let word = without_quote(s);
    ends(lower(word), "port"@) && (word.len() == 4 || {
        let c = word[word.len() - 5];
        c == '"' || c == '\'' || is_space(c)
    })
}

/// Whether what stands before a number makes it a port: a colon, an assignment to a port or the
/// word `port`, white space aside.
pub open spec fn announces_port(before: Seq<char>) -> bool {
    let t = trimmed_end(before);
    ends(t, ":"@) || ends_in_port_key(t) || ends_in_port_word(t)
}

/// Whether the digits at `k`, in what is left of a text from `i` on, are a number of their own.
pub open spec fn is_whole_number(s: Seq<char>, i: int, k: int, digits: Seq<char>) -> bool {
    &&& k == i || !is_digit(s[k - 1])
    &&& k + digits.len() >= s.len() || !is_digit(s[k + digits.len()])
}

/// What a text becomes from `i` on when a number that is announced as a port gives way.
pub open spec fn port_moved_from(s: Seq<char>, old: Seq<char>, new: Seq<char>, i: int) -> Seq<char>
    decreases s.len() - i,
    when 0 <= i <= s.len() && old.len() > 0
    via port_moved_decreases
{
    match find_from(s, old, i) {
        None => s.skip(i),
        Some(k) => s.subrange(i, k) + (if is_whole_number(s, i, k, old) && announces_port(
            s.subrange(i, k),
        ) {
            new
        } else {
            old
        }) + port_moved_from(s, old, new, k + old.len()),
    }
}

#[via_fn]
proof fn port_moved_decreases(s: Seq<char>, old: Seq<char>, new: Seq<char>, i: int) {
    lemma_find_from(s, old, i);
}

/// A text with a port exchanged where it stands as a port.
pub open spec fn port_moved(content: Seq<char>, old_port: nat, new_port: nat) -> Seq<char> {
    port_moved_from(content, decimal(old_port), decimal(new_port), 0)
}

/// A text in which the number nowhere stands alone behind what announces a port stays as it is:
/// the same digits in other numbers, in identifiers or in prose are left alone.
pub proof fn law_unannounced_numbers_stay(content: Seq<char>, old_port: nat, new_port: nat)
    requires
        forall|i: int, k: int|
            0 <= i <= k && #[trigger] announces_port(content.subrange(i, k)) && matches_at(
                content,
                decimal(old_port),
                k,
            ) ==> !is_whole_number(content, i, k, decimal(old_port)),
    ensures
        port_moved(content, old_port, new_port) == content,
{
    lemma_decimal_value(old_port);
    lemma_unannounced_from(content, decimal(old_port), decimal(new_port), 0);
    assert(content.skip(0) == content);
}

proof fn lemma_unannounced_from(s: Seq<char>, old: Seq<char>, new: Seq<char>, i: int)
    requires
        0 <= i <= s.len(),
        old.len() > 0,
        forall|i: int, k: int|
            0 <= i <= k && #[trigger] announces_port(s.subrange(i, k)) && matches_at(s, old, k)
                ==> !is_whole_number(s, i, k, old),
    ensures
        port_moved_from(s, old, new, i) == s.skip(i),
    decreases s.len() - i,
{
    lemma_find_from(s, old, i);
    if let Some(k) = find_from(s, old, i) {
        lemma_unannounced_from(s, old, new, k + old.len());
        assert(s.subrange(k, k + old.len()) == old);
        assert(s.subrange(i, k) + old + s.skip(k + old.len()) == s.skip(i));
    }
}

fn is_port_key_end(s: &str) -> (r: bool)
    ensures
        r == ends_in_port_key(s@),
{
    proof {
        reveal_strlit("=");
    }
    if !ends_with(s, "=") {
        return false;
    }
    let body = take(s, s.unicode_len() - 1);
    assert(body@ == s@.drop_last());
    let v = chars_of(body);
    let mut i: usize = v.len();
    while i > 0 && !char_is_space(v[i - 1])
        invariant
            i <= v@.len(),
            last_word_start(v@, v@.len() as int) == last_word_start(v@, i as int),
        decreases i,
    {
        i = i - 1;
    }
    let key = trim_chars(skip(body, i), "\"'");
    ends_with(to_upper(key).as_str(), "_PORT") || is_name_end(key, "port") || is_name_end(
        key,
        "PORT",
    )
}

fn is_name_end(s: &str, name: &str) -> (r: bool)
    ensures
        r == ends_in_name(s@, name@),
{
    if !ends_with(s, name) {
        return false;
    }
    let v = chars_of(s);
    let start: usize = v.len() - name.unicode_len();
    start == 0 || !(char_is_alnum(v[start - 1]) || v[start - 1] == '_')
}

fn is_port_word_end(s: &str) -> (r: bool)
    ensures
        r == ends_in_port_word(s@),
{
    proof {
        reveal_strlit("port");
    }
    let word = match strip_suffix(s, "\"") {
        Some(t) => t,
        None => match strip_suffix(s, "'") {
            Some(t) => t,
            None => s,
        },
    };
    if !ends_with(to_lower(word).as_str(), "port") {
        return false;
    }
    let v = chars_of(word);
    if v.len() == 4 {
        return true;
    }
    let c = v[v.len() - 5];
    c == '"' || c == '\'' || char_is_space(c)
}

/// Exchanges a port in a source file, but only where the number stands as one: behind a
/// colon, `port=`, `PORT=`, another `*_PORT=` assignment, or the word `port`.
pub fn replace_port_in_context(content: &str, old_port: u16, new_port: u16) -> (r: String)
    ensures
        r@ == port_moved(content@, old_port as nat, new_port as nat),
{
    proof {
        lemma_decimal_value(old_port as nat);
    }
    let old = decimal_of(old_port as u64);
    let new = decimal_of(new_port as u64);
    let v = chars_of(content);
    let count: usize = old.as_str().unicode_len();
    let total: usize = v.len();
    let mut result = String::new();
    let mut i: usize = 0;
    let ghost whole = port_moved_from(v@, old@, new@, 0);
    assert(result@ + whole == whole);
    loop
        invariant
            i <= v@.len(),
            count == old@.len(),
            count > 0,
            result@ + port_moved_from(v@, old@, new@, i as int) == whole,
        decreases v@.len() - i,
    {
        let ghost before = result@;
        match index_from(content, old.as_str(), i) {
            None => {
                result.append(skip(content, i));
                return result;
            },
            Some(k) => {
                let after: usize = k + count;
                let alone: bool = (k == i || !char_is_digit(v[k - 1])) && (after >= total
                    || !char_is_digit(v[after]));
                let head = content.substring_char(i, k);
                let t = trim_end(head);
                let announced: bool = ends_with(t, ":") || is_port_key_end(t) || is_port_word_end(t);
                result.append(head);
                if alone && announced {
                    result.append(new.as_str());
                } else {
                    result.append(old.as_str());
                }
                let ghost rest = port_moved_from(v@, old@, new@, after as int);
                let ghost middle = if is_whole_number(v@, i as int, k as int, old@)
                    && announces_port(v@.subrange(i as int, k as int)) {
                    new@
                } else {
                    old@
                };
                assert(result@ == before + head@ + middle);
                assert(before + (head@ + middle + rest) == result@ + rest);
                i = after;
            },
        }
    }
}

/// A text after the changes from `i` on.
pub open spec fn ports_moved_from(content: Seq<char>, changes: Seq<ChangeModel>, i: int) -> Seq<char>
    decreases changes.len() - i,
{
    if i < 0 || i >= changes.len() {
        content
    } else {
        ports_moved_from(
            port_moved(content, changes[i].old_port as nat, changes[i].new_port as nat),
            changes,
            i + 1,
        )
    }
}

/// Carries moved ports into a source file; gives the new text where it changes.
pub fn patch_source_ports_for_conflicts(content: &str, port_changes: &Vec<PortChange>) -> (r: Option<
    String,
>)
    ensures
        match r {
            Some(t) => t@ == ports_moved_from(content@, changes_view(port_changes@), 0) && t@
                != content@,
            None => ports_moved_from(content@, changes_view(port_changes@), 0) == content@,
        },
{
    let ghost cs = changes_view(port_changes@);
    let mut updated = content.to_owned();
    let mut i: usize = 0;
    while i < port_changes.len()
        invariant
            i <= port_changes@.len(),
            cs == changes_view(port_changes@),
            ports_moved_from(content@, cs, 0) == ports_moved_from(updated@, cs, i as int),
        decreases port_changes@.len() - i,
    {
        assert(cs[i as int] == port_changes@[i as int]@);
        updated =
        replace_port_in_context(
            updated.as_str(),
            port_changes[i].old_port,
            port_changes[i].new_port,
        );
        i = i + 1;
    }
    if same(updated.as_str(), content) {
        None
    } else {
        Some(updated)
    }
}

/// Whether the directories of an instance in which sources are looked for leave one out.
pub open spec fn is_skipped_dir(name: Seq<char>) -> bool {
    starts(name, "."@) || name == "node_modules"@
}

pub fn skips_source_dir(name: &str) -> (r: bool)
    ensures
        r == is_skipped_dir(name@),
{
    starts_with(name, ".") || same(name, "node_modules")
}

/// Whether files of the given extension are sources in which ports are exchanged.
pub open spec fn is_source_extension(extension: Seq<char>) -> bool {
    extension == "py"@ || extension == "ts"@ || extension == "js"@ || extension == "json"@
}

pub fn patches_extension(extension: &str) -> (r: bool)
    ensures
        r == is_source_extension(extension@),
{
    same(extension, "py") || same(extension, "ts") || same(extension, "js") || same(
        extension,
        "json",
    )
}

// ---------------------------------------------------------------------------
// Template patches
// ---------------------------------------------------------------------------

/// The text of a file that may be missing.
pub open spec fn file_text(file: Option<&str>) -> Option<Seq<char>> {
    match file {
        Some(t) => Some(t@),
        None => None,
    }
}

/// The conversion script with its first exporter call exchanged, if it has one.
pub open spec fn convert_models_patched(content: Seq<char>) -> Option<Seq<char>> {
    let old = "sys.executable, \"-m\", \"optimum.exporters.openvino\","@;
    if holds(content, old) {
        Some(replaced_once(content, old, "\"optimum-cli\", \"export\", \"openvino\","@))
    } else {
        None
    }
}

/// Makes a conversion script call `optimum-cli export openvino`; gives the new text where
/// there is a script to change.
pub fn patch_convert_models_if_needed(file: Option<&str>) -> (r: Option<String>)
    ensures
        opt_view(r) == match file_text(file) {
            Some(content) => convert_models_patched(content),
            None => None,
        },
{
    let content = match file {
        Some(content) => content,
        None => {
            return None;
        },
    };
    let old = "sys.executable, \"-m\", \"optimum.exporters.openvino\",";
    if !contains(content, old) {
        return None;
    }
    Some(replace_once(content, old, "\"optimum-cli\", \"export\", \"openvino\","))
}

/// The beginning of the shim, up to the name that marks it.
pub const ASYNC_SHIM_HEAD: &'static str = "\n# --- Async compatibility shim for HuggingFacePipeline ---\n# ChatHuggingFace._astream doesn't check for HuggingFacePipeline and tries\n# to access async_client (which only exists on HuggingFaceEndpoint).\n# Route async calls through asyncio.to_thread to the sync _generate method.\nimport asyncio\nfrom langchain_core.messages import AIMessageChunk\nfrom langchain_core.outputs import ChatGenerationChunk as _ChatGenChunk\ntry:\n    from langchain_huggingface.chat_models.huggingface import ChatHuggingFace\n    from langchain_huggingface.chat_models.huggingface import HuggingFacePipeline\nexcept ImportError:\n    try:\n        from langchain_community.chat_models.huggingface import ChatHuggingFace\n        from langchain_community.llms.huggingface_pipeline import HuggingFacePipeline\n    except ImportError:\n        ChatHuggingFace = None\n        HuggingFacePipeline = None\n\nif ChatHuggingFace is not None:\n    _orig_agenerate = ChatHuggingFace._agenerate\n    _orig_astream = ChatHuggingFace._astream\n\n    async def ";

/// The name by which a file that has the shim is known.
pub const ASYNC_SHIM_MARK: &'static str = "_patched_agenerate";

/// The rest of the shim.
pub const ASYNC_SHIM_TAIL: &'static str = "(self, messages, stop=None, run_manager=None, stream=None, **kwargs):\n        if isinstance(self.llm, HuggingFacePipeline):\n            return await asyncio.to_thread(self._generate, messages, stop, run_manager, **kwargs)\n        return await _orig_agenerate(self, messages, stop, run_manager, stream, **kwargs)\n\n    async def _patched_astream(self, messages, stop=None, run_manager=None, *, stream_usage=None, **kwargs):\n        if isinstance(self.llm, HuggingFacePipeline):\n            result = await asyncio.to_thread(self._generate, messages, stop, run_manager, **kwargs)\n            for gen in result.generations:\n                yield _ChatGenChunk(message=AIMessageChunk(content=gen.text), generation_info=gen.generation_info)\n            return\n        async for chunk in _orig_astream(self, messages, stop, run_manager, stream_usage=stream_usage, **kwargs):\n            yield chunk\n\n    ChatHuggingFace._agenerate = _patched_agenerate\n    ChatHuggingFace._astream = _patched_astream\n";

/// The import before which the shim is put.
pub const ASYNC_SHIM_PLACE: &'static str = "from langchain_oceanbase.vectorstores import OceanbaseVectorStore";

/// Code that routes asynchronous calls of a HuggingFace pipeline through a thread.
pub open spec fn async_shim() -> Seq<char> {
    ASYNC_SHIM_HEAD@ + ASYNC_SHIM_MARK@ + ASYNC_SHIM_TAIL@
}

/// An agent with the shim: before the import of the vector store, else at the top. An agent
/// that has it, or whose project does not depend on HuggingFace, gets none.
pub open spec fn agent_patched(content: Seq<char>, project: Option<Seq<char>>) -> Option<Seq<char>> {
    if holds(content, ASYNC_SHIM_MARK@) || project is None || !holds(
        project->0,
        "langchain-huggingface"@,
    ) {
        None
    } else if holds(content, ASYNC_SHIM_PLACE@) {
        Some(
            replaced_once(
                content,
                ASYNC_SHIM_PLACE@,
                async_shim() + "\n"@ + ASYNC_SHIM_PLACE@,
            ),
        )
    } else {
        Some(async_shim() + "\n"@ + content)
    }
}

/// Adds an asynchronous compatibility shim to `agent.py`; `project` is the project's
/// `pyproject.toml`, where there is one.
pub fn patch_agent_async_if_needed(file: Option<&str>, project: Option<&str>) -> (r: Option<String>)
    ensures
        opt_view(r) == match file_text(file) {
            Some(content) => agent_patched(content, file_text(project)),
            None => None,
        },
{
    let content = match file {
        Some(content) => content,
        None => {
            return None;
        },
    };
    if contains(content, ASYNC_SHIM_MARK) {
        return None;
    }
    let uses_pipeline: bool = match project {
        Some(text) => contains(text, "langchain-huggingface"),
        None => false,
    };
    if !uses_pipeline {
        return None;
    }
    let shim = concat3(ASYNC_SHIM_HEAD, ASYNC_SHIM_MARK, ASYNC_SHIM_TAIL);
    if contains(content, ASYNC_SHIM_PLACE) {
        let to = concat3(shim.as_str(), "\n", ASYNC_SHIM_PLACE);
        Some(replace_once(content, ASYNC_SHIM_PLACE, to.as_str()))
    } else {
        Some(concat3(shim.as_str(), "\n", content))
    }
}

/// A command that updates the package lists within a time limit, else from the mirror.
pub open spec fn apt_fallback() -> Seq<char> {
    "(timeout 60 apt-get update -o Acquire::http::Timeout=10 -o Acquire::https::Timeout=10 -o Acquire::Retries=1 && [ -n \"$(find /var/lib/apt/lists -name '*Packages*' 2>/dev/null)\" ] || (sed -i 's|deb.debian.org|"@
        + APT_MIRROR@ + "|g; s|security.debian.org|"@ + APT_MIRROR@
        + "|g' /etc/apt/sources.list.d/debian.sources 2>/dev/null; sed -i 's|deb.debian.org|"@
        + APT_MIRROR@ + "|g; s|security.debian.org|"@ + APT_MIRROR@
        + "|g' /etc/apt/sources.list 2>/dev/null; apt-get update))"@
}

/// A Dockerfile whose first update of the package lists falls back to the mirror.
pub open spec fn apt_patched(content: Seq<char>) -> Option<Seq<char>> {
    if holds(content, APT_MIRROR@) || !holds(content, "apt-get update"@) {
        None
    } else {
        Some(replaced_once(content, "apt-get update"@, apt_fallback()))
    }
}

/// Lets a Dockerfile fall back to the package mirror; gives the new text where it changes.
pub fn patch_dockerfile_apt_mirror_if_needed(file: Option<&str>) -> (r: Option<String>)
    ensures
        opt_view(r) == match file_text(file) {
            Some(content) => apt_patched(content),
            None => None,
        },
{
    let content = match file {
        Some(content) => content,
        None => {
            return None;
        },
    };
    if contains(content, APT_MIRROR) || !contains(content, "apt-get update") {
        return None;
    }
    let mut to = concat3(
        "(timeout 60 apt-get update -o Acquire::http::Timeout=10 -o Acquire::https::Timeout=10 -o Acquire::Retries=1 && [ -n \"$(find /var/lib/apt/lists -name '*Packages*' 2>/dev/null)\" ] || (sed -i 's|deb.debian.org|",
        APT_MIRROR,
        "|g; s|security.debian.org|",
    );
    to.append(APT_MIRROR);
    to.append(
        "|g' /etc/apt/sources.list.d/debian.sources 2>/dev/null; sed -i 's|deb.debian.org|",
    );
    to.append(APT_MIRROR);
    to.append("|g; s|security.debian.org|");
    to.append(APT_MIRROR);
    to.append("|g' /etc/apt/sources.list 2>/dev/null; apt-get update))");
    Some(replace_once(content, "apt-get update", to.as_str()))
}

/// The smaller of a length and the place of a marker.
pub open spec fn cut_at(rest: Seq<char>, marker: Seq<char>, end: int) -> int {
    match find(rest, marker) {
        Some(k) => if k < end {
            k
        } else {
            end
        },
        None => end,
    }
}

/// Where the block that chooses the package index ends.
pub open spec fn index_block_end(rest: Seq<char>) -> int {
    cut_at(
        rest,
        "UV_LINK_MODE"@,
        cut_at(rest, "if [ -n \"${UV_INSECURE_HOST"@, rest.len() as int),
    )
}

/// A block that chooses the package index by what is set, else by how fast the official
/// index answers.
pub open spec fn index_block() -> Seq<char> {
    "if [ -n \"${UV_DEFAULT_INDEX:-}\" ]; then export UV_DEFAULT_INDEX; \\\n    elif [ -n \"${UV_INDEX_URL:-}\" ]; then export UV_INDEX_URL; \\\n    elif ! timeout 15 python -c \"import urllib.request,time; start=time.time(); resp=urllib.request.urlopen('https://pypi.org/simple/pip/',timeout=5); resp.read(200000); assert time.time()-start<=3\" >/dev/null 2>&1; then \\\n        export UV_INDEX_URL="@
        + PYPI_MIRROR@ + "; \\\n    fi; \\\n    "@
}

/// A Dockerfile whose package installs fall back to the mirror of the package index.
pub open spec fn mirrors_patched(content: Seq<char>) -> Option<Seq<char>> {
    if holds(content, "mirrors.aliyun.com/pypi/simple/"@) || !holds(content, "uv sync"@) {
        None
    } else {
        match find(content, "if [ -n \"${UV_DEFAULT_INDEX:-}\""@) {
            None => None,
            Some(k) => {
                let rest = content.skip(k);
                Some(content.take(k) + index_block() + rest.skip(index_block_end(rest)))
            },
        }
    }
}

fn earlier_marker(rest: &str, marker: &str, end: usize) -> (r: usize)
    requires
        end <= rest@.len(),
    ensures
        r == cut_at(rest@, marker@, end as int),
        r <= rest@.len(),
{
    match index_of(rest, marker) {
        Some(k) => if k < end {
            k
        } else {
            end
        },
        None => end,
    }
}

/// Lets a Dockerfile fall back to the mirror of the package index; gives the new text where
/// it changes.
pub fn patch_dockerfile_mirrors_if_needed(file: Option<&str>) -> (r: Option<String>)
    ensures
        opt_view(r) == match file_text(file) {
            Some(content) => mirrors_patched(content),
            None => None,
        },
{
    let content = match file {
        Some(content) => content,
        None => {
            return None;
        },
    };
    if contains(content, "mirrors.aliyun.com/pypi/simple/") || !contains(content, "uv sync") {
        return None;
    }
    let k: usize = match index_of(content, "if [ -n \"${UV_DEFAULT_INDEX:-}\"") {
        Some(k) => k,
        None => {
            return None;
        },
    };
    let rest = skip(content, k);
    let end: usize = earlier_marker(rest, "if [ -n \"${UV_INSECURE_HOST", rest.unicode_len());
    let end: usize = earlier_marker(rest, "UV_LINK_MODE", end);
    let block = concat3(
        "if [ -n \"${UV_DEFAULT_INDEX:-}\" ]; then export UV_DEFAULT_INDEX; \\\n    elif [ -n \"${UV_INDEX_URL:-}\" ]; then export UV_INDEX_URL; \\\n    elif ! timeout 15 python -c \"import urllib.request,time; start=time.time(); resp=urllib.request.urlopen('https://pypi.org/simple/pip/',timeout=5); resp.read(200000); assert time.time()-start<=3\" >/dev/null 2>&1; then \\\n        export UV_INDEX_URL=",
        PYPI_MIRROR,
        "; \\\n    fi; \\\n    ",
    );
    Some(concat3(take(content, k), block.as_str(), skip(rest, end)))
}

// ---------------------------------------------------------------------------
// Laws
// ---------------------------------------------------------------------------

/// What a part of a text contains, the text contains.
pub proof fn lemma_holds_within(a: Seq<char>, b: Seq<char>, c: Seq<char>, pat: Seq<char>)
    requires
        holds(b, pat),
    ensures
        holds(a + b + c, pat),
{
    lemma_holds(b, pat);
    lemma_holds(a + b + c, pat);
    let i = choose|i: int| matches_at(b, pat, i);
    let s = a + b + c;
    assert(s.subrange(a.len() + i, a.len() + i + pat.len()) == b.subrange(i, i + pat.len()));
    assert(matches_at(s, pat, a.len() + i));
}

/// A text contains itself.
pub proof fn lemma_holds_itself(s: Seq<char>)
    ensures
        holds(s, s),
{
    lemma_holds(s, s);
    assert(s.subrange(0, s.len() as int) == s);
    assert(matches_at(s, s, 0));
}

/// A Dockerfile with the fallback to the package mirror is not patched again.
pub proof fn law_apt_patch_is_idempotent(content: Seq<char>)
    ensures
        apt_patched(content) matches Some(patched) ==> apt_patched(patched) is None,
{
    if apt_patched(content) is Some {
        let p = cut(content, "apt-get update"@)->0;
        let head = "(timeout 60 apt-get update -o Acquire::http::Timeout=10 -o Acquire::https::Timeout=10 -o Acquire::Retries=1 && [ -n \"$(find /var/lib/apt/lists -name '*Packages*' 2>/dev/null)\" ] || (sed -i 's|deb.debian.org|"@;
        let tail = "|g; s|security.debian.org|"@ + APT_MIRROR@
            + "|g' /etc/apt/sources.list.d/debian.sources 2>/dev/null; sed -i 's|deb.debian.org|"@
            + APT_MIRROR@ + "|g; s|security.debian.org|"@ + APT_MIRROR@
            + "|g' /etc/apt/sources.list 2>/dev/null; apt-get update))"@;
        lemma_holds_itself(APT_MIRROR@);
        lemma_holds_within(head, APT_MIRROR@, tail, APT_MIRROR@);
        assert(apt_fallback() == head + APT_MIRROR@ + tail);
        lemma_holds_within(p.0, apt_fallback(), p.1, APT_MIRROR@);
    }
}

/// A Dockerfile with the fallback to the mirror of the package index is not patched again.
pub proof fn law_mirrors_patch_is_idempotent(content: Seq<char>)
    ensures
        mirrors_patched(content) matches Some(patched) ==> mirrors_patched(patched) is None,
{
    if mirrors_patched(content) is Some {
        let k = find(content, "if [ -n \"${UV_DEFAULT_INDEX:-}\""@)->0;
        let rest = content.skip(k);
        let mark = "mirrors.aliyun.com/pypi/simple/"@;
        reveal_strlit("mirrors.aliyun.com/pypi/simple/");
        reveal_strlit("https://mirrors.aliyun.com/pypi/simple/");
        assert(PYPI_MIRROR@.subrange(8, 8 + mark.len() as int) == mark);
        assert(matches_at(PYPI_MIRROR@, mark, 8));
        lemma_holds(PYPI_MIRROR@, mark);
        let head = "if [ -n \"${UV_DEFAULT_INDEX:-}\" ]; then export UV_DEFAULT_INDEX; \\\n    elif [ -n \"${UV_INDEX_URL:-}\" ]; then export UV_INDEX_URL; \\\n    elif ! timeout 15 python -c \"import urllib.request,time; start=time.time(); resp=urllib.request.urlopen('https://pypi.org/simple/pip/',timeout=5); resp.read(200000); assert time.time()-start<=3\" >/dev/null 2>&1; then \\\n        export UV_INDEX_URL="@;
        lemma_holds_within(head, PYPI_MIRROR@, "; \\\n    fi; \\\n    "@, mark);
        lemma_holds_within(
            content.take(k),
            index_block(),
            rest.skip(index_block_end(rest)),
            mark,
        );
    }
}

/// An agent with the shim is not patched again.
pub proof fn law_agent_patch_is_idempotent(content: Seq<char>, project: Option<Seq<char>>)
    ensures
        agent_patched(content, project) matches Some(patched) ==> agent_patched(
            patched,
            project,
        ) is None,
{
    if agent_patched(content, project) is Some {
        lemma_holds_itself(ASYNC_SHIM_MARK@);
        lemma_holds_within(ASYNC_SHIM_HEAD@, ASYNC_SHIM_MARK@, ASYNC_SHIM_TAIL@, ASYNC_SHIM_MARK@);
        if holds(content, ASYNC_SHIM_PLACE@) {
            let p = cut(content, ASYNC_SHIM_PLACE@)->0;
            let to = async_shim() + "\n"@ + ASYNC_SHIM_PLACE@;
            lemma_holds_within(
                Seq::empty(),
                async_shim(),
                "\n"@ + ASYNC_SHIM_PLACE@,
                ASYNC_SHIM_MARK@,
            );
            assert(Seq::empty() + async_shim() + ("\n"@ + ASYNC_SHIM_PLACE@) == to);
            lemma_holds_within(p.0, to, p.1, ASYNC_SHIM_MARK@);
        } else {
            lemma_holds_within(Seq::empty(), async_shim(), "\n"@ + content, ASYNC_SHIM_MARK@);
            assert(Seq::empty() + async_shim() + ("\n"@ + content) == async_shim() + "\n"@ + content);
        }
    }
}

} // verus!
