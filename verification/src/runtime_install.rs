//! Installation of the tools that the desktop needs: the scripts that a terminal runs, the plan
//! that leads to them, and how their outcome is judged.

use crate::cli::{meets_requirement, suffices, CliStatus};
use crate::instance::{join_path, joined_path, signed_decimal, signed_decimal_of};
use crate::json::{get_text, json_read, member_text, read_json, Json, JsonModel};
use crate::models::{
    numeric_version, version_numbers, RuntimeRequirements, NVM_INSTALL_MIRROR, NVM_NODEJS_MIRROR,
};
use crate::text::{
    all_digits, before_suffix, concat2, concat3, concat4, concat5, decimal, decimal_of, fields,
    join, joined, matches_at, only_digits, opt_str, opt_view, replace, replaced, replaced_from,
    same, split, strip_all_end, strip_suffix, texts, trim, trim_end_text, trimmed,
};
use vstd::prelude::*;
use vstd::slice::slice_subrange;
use vstd::string::*;

verus! {

// ---------------------------------------------------------------------------
// Commands
// ---------------------------------------------------------------------------

/// What running a command came to: its output, or why it failed.
pub open spec fn dependency_outcome(
    success: bool,
    code: Option<i32>,
    output: Seq<char>,
    printable: Seq<char>,
) -> Result<Seq<char>, Seq<char>> {
    if success {
        Ok(output)
    } else if output.len() == 0 {
        let status = match code {
            Some(c) => signed_decimal(c as int),
            None => "terminated by system"@,
        };
        Err("Command execution failed: "@ + printable + " (exit status: "@ + status + ")"@)
    } else {
        Err(output)
    }
}

/// Judges a command that was run by how it ended and what it printed.
pub fn run_dependency_command(
    success: bool,
    code: Option<i32>,
    stdout: &str,
    stderr: &str,
    printable: &str,
) -> (r: Result<String, String>)
    ensures
        match dependency_outcome(success, code, trimmed(stdout@ + stderr@), printable@) {
            Ok(output) => r matches Ok(o) && o@ == output,
            Err(message) => r matches Err(e) && e@ == message,
        },
{
    let both = concat2(stdout, stderr);
    let combined = trim(both.as_str());
    if success {
        Ok(combined.to_owned())
    } else if combined.is_empty() {
        let status = match code {
            Some(c) => signed_decimal_of(c),
            None => "terminated by system".to_owned(),
        };
        Err(
            concat5(
                "Command execution failed: ",
                printable,
                " (exit status: ",
                status.as_str(),
                ")",
            ),
        )
    } else {
        Err(combined.to_owned())
    }
}

// ---------------------------------------------------------------------------
// Quoting
// ---------------------------------------------------------------------------

/// A value as one word for a POSIX shell.
pub open spec fn shell_quoted(value: Seq<char>) -> Seq<char> {
    "'"@ + replaced(value, "'"@, "'\"'\"'"@) + "'"@
}

/// Quotes a value for a POSIX shell.
pub fn shell_quote(value: &str) -> (r: String)
    ensures
        r@ == shell_quoted(value@),
{
    proof {
        reveal_strlit("'");
    }
    concat3("'", replace(value, "'", "'\"'\"'").as_str(), "'")
}

/// A value as one string for PowerShell.
pub open spec fn powershell_quoted(value: Seq<char>) -> Seq<char> {
    "'"@ + replaced(value, "'"@, "''"@) + "'"@
}

/// Quotes a value for PowerShell.
pub fn powershell_quote(value: &str) -> (r: String)
    ensures
        r@ == powershell_quoted(value@),
{
    proof {
        reveal_strlit("'");
    }
    concat3("'", replace(value, "'", "''").as_str(), "'")
}

/// What a POSIX shell takes a word of quoted pieces for, if it is one. `open` is the quote that
/// stands open. Within single quotes all characters stand for themselves; within double quotes
/// those that a shell expands are not read here.
pub open spec fn shell_word(s: Seq<char>, open: Option<char>) -> Option<Seq<char>>
    decreases s.len(),
{
    if s.len() == 0 {
        if open is None {
            Some(Seq::empty())
        } else {
            None
        }
    } else {
        let c = s[0];
        match open {
            None => if c == '\'' || c == '"' {
                shell_word(s.skip(1), Some(c))
            } else {
                None
            },
            Some(q) => if c == q {
                shell_word(s.skip(1), None)
            } else if q == '"' && (c == '$' || c == '`' || c == '\\' || c == '!') {
                None
            } else {
                match shell_word(s.skip(1), open) {
                    Some(rest) => Some(seq![c] + rest),
                    None => None,
                }
            },
        }
    }
}

/// What PowerShell takes the rest of a single-quoted string for, if it ends where the text
/// does: two quotes stand for one.
pub open spec fn powershell_rest(s: Seq<char>) -> Option<Seq<char>>
    decreases s.len(),
{
    if s.len() == 0 {
        None
    } else if s[0] == '\'' {
        if s.len() == 1 {
            Some(Seq::empty())
        } else if s[1] == '\'' {
            match powershell_rest(s.skip(2)) {
                Some(rest) => Some(seq!['\''] + rest),
                None => None,
            }
        } else {
            None
        }
    } else {
        match powershell_rest(s.skip(1)) {
            Some(rest) => Some(seq![s[0]] + rest),
            None => None,
        }
    }
}

/// What PowerShell takes a single-quoted string for, if it is one.
pub open spec fn powershell_word(s: Seq<char>) -> Option<Seq<char>> {
    if s.len() > 0 && s[0] == '\'' {
        powershell_rest(s.skip(1))
    } else {
        None
    }
}

proof fn lemma_shell_escape(rest: Seq<char>)
    ensures
        shell_word("'\"'\"'"@ + rest, Some('\'')) == (match shell_word(rest, Some('\'')) {
            Some(r) => Some(seq!['\''] + r),
            None => None,
        }),
{
    reveal_strlit("'\"'\"'");
    let s0 = "'\"'\"'"@ + rest;
    let s1 = s0.skip(1);
    let s2 = s1.skip(1);
    let s3 = s2.skip(1);
    let s4 = s3.skip(1);
    let s5 = s4.skip(1);
    assert(s5 == rest);
    assert(s0[0] == '\'' && s1[0] == '"' && s2[0] == '\'' && s3[0] == '"' && s4[0] == '\'');
    assert(shell_word(s4, None) == shell_word(s5, Some('\'')));
    assert(shell_word(s3, Some('"')) == shell_word(s4, None));
    assert(shell_word(s1, None) == shell_word(s2, Some('"')));
    assert(shell_word(s0, Some('\'')) == shell_word(s1, None));
}

proof fn lemma_shell_quoted_from(value: Seq<char>, i: int)
    requires
        0 <= i <= value.len(),
    ensures
        shell_word(replaced_from(value, "'"@, "'\"'\"'"@, i) + "'"@, Some('\'')) == Some(
            value.skip(i),
        ),
    decreases value.len() - i,
{
    reveal_strlit("'");
    let end = "'"@;
    if i == value.len() {
        assert(replaced_from(value, "'"@, "'\"'\"'"@, i) + end == end);
        assert(end.skip(1).len() == 0);
        assert(shell_word(end.skip(1), None) == Some(Seq::<char>::empty()));
        assert(value.skip(i) == Seq::<char>::empty());
    } else {
        lemma_shell_quoted_from(value, i + 1);
        let rest = replaced_from(value, "'"@, "'\"'\"'"@, i + 1) + end;
        assert(value.skip(i) == seq![value[i]] + value.skip(i + 1));
        assert(value.subrange(i, i + 1)[0] == value[i]);
        if value[i] == '\'' {
            assert(value.subrange(i, i + 1) == "'"@);
            assert(replaced_from(value, "'"@, "'\"'\"'"@, i) + end == "'\"'\"'"@ + rest);
            lemma_shell_escape(rest);
        } else {
            assert(!matches_at(value, "'"@, i));
            let all = replaced_from(value, "'"@, "'\"'\"'"@, i) + end;
            assert(all == seq![value[i]] + rest);
            assert(all.skip(1) == rest);
        }
    }
}

/// A shell takes a quoted value for the value, whatever it holds.
pub proof fn law_shell_reads_quoted_back(value: Seq<char>)
    ensures
        shell_word(shell_quoted(value), None) == Some(value),
{
    reveal_strlit("'");
    lemma_shell_quoted_from(value, 0);
    let s = shell_quoted(value);
    assert(s.skip(1) == replaced(value, "'"@, "'\"'\"'"@) + "'"@);
    assert(value.skip(0) == value);
}

proof fn lemma_powershell_quoted_from(value: Seq<char>, i: int)
    requires
        0 <= i <= value.len(),
    ensures
        powershell_rest(replaced_from(value, "'"@, "''"@, i) + "'"@) == Some(value.skip(i)),
    decreases value.len() - i,
{
    reveal_strlit("'");
    reveal_strlit("''");
    let end = "'"@;
    let all = replaced_from(value, "'"@, "''"@, i) + end;
    if i == value.len() {
        assert(all == end);
        assert(value.skip(i) == Seq::<char>::empty());
    } else {
        lemma_powershell_quoted_from(value, i + 1);
        let rest = replaced_from(value, "'"@, "''"@, i + 1) + end;
        assert(value.skip(i) == seq![value[i]] + value.skip(i + 1));
        assert(value.subrange(i, i + 1)[0] == value[i]);
        if value[i] == '\'' {
            assert(value.subrange(i, i + 1) == "'"@);
            assert(all == "''"@ + rest);
            assert(all.skip(2) == rest);
        } else {
            assert(!matches_at(value, "'"@, i));
            assert(all == seq![value[i]] + rest);
            assert(all.skip(1) == rest);
        }
    }
}

/// PowerShell takes a quoted value for the value, whatever it holds.
pub proof fn law_powershell_reads_quoted_back(value: Seq<char>)
    ensures
        powershell_word(powershell_quoted(value)) == Some(value),
{
    reveal_strlit("'");
    lemma_powershell_quoted_from(value, 0);
    let s = powershell_quoted(value);
    assert(s.skip(1) == replaced(value, "'"@, "''"@) + "'"@);
    assert(value.skip(0) == value);
}

// ---------------------------------------------------------------------------
// What has to be installed
// ---------------------------------------------------------------------------

/// Whether Node.js or npm has to be installed.
pub open spec fn wants_node(status: CliStatus) -> bool {
    !status.node_compatible || !status.npm_compatible
}

/// Whether the command line tool has to be installed or upgraded.
pub open spec fn wants_cli(status: CliStatus) -> bool {
    !status.cli_compatible || status.cli_update_available
}

/// A list of one text where a condition holds, else of none.
pub open spec fn only_if(condition: bool, text: Seq<char>) -> Seq<Seq<char>> {
    if condition {
        seq![text]
    } else {
        Seq::empty()
    }
}

/// The tools that have to be installed.
pub open spec fn wanted(status: CliStatus) -> Seq<Seq<char>> {
    only_if(!status.uv_compatible, "uv"@) + only_if(wants_node(status), "node/npm"@) + only_if(
        wants_cli(status),
        "agentseek"@,
    )
}

pub fn required_runtime_dependencies(status: &CliStatus) -> (r: Vec<String>)
    ensures
        texts(r@) == wanted(*status),
{
    let mut r: Vec<String> = Vec::new();
    if !status.uv_compatible {
        r.push("uv".to_owned());
    }
    assert(texts(r@) == only_if(!status.uv_compatible, "uv"@));
    if !status.node_compatible || !status.npm_compatible {
        r.push("node/npm".to_owned());
    }
    assert(texts(r@) == only_if(!status.uv_compatible, "uv"@) + only_if(
        wants_node(*status),
        "node/npm"@,
    ));
    if !status.cli_compatible || status.cli_update_available {
        r.push("agentseek".to_owned());
    }
    assert(texts(r@) == wanted(*status));
    r
}

/// The installer of uv for Windows: the one that is named, or the one beside the shell script.
pub open spec fn uv_installer_for_windows(r: RuntimeRequirements) -> Seq<char> {
    match r.sources.uv_installer_windows {
        Some(address) => address@,
        None => match before_suffix(r.sources.uv_installer@, ".sh"@) {
            Some(base) => base + ".ps1"@,
            None => r.sources.uv_installer@,
        },
    }
}

pub fn windows_uv_installer(requirements: &RuntimeRequirements) -> (r: String)
    ensures
        r@ == uv_installer_for_windows(*requirements),
{
    match requirements.sources.uv_installer_windows.as_ref() {
        Some(address) => address.clone(),
        None => match strip_suffix(requirements.sources.uv_installer.as_str(), ".sh") {
            Some(base) => concat2(base, ".ps1"),
            None => requirements.sources.uv_installer.clone(),
        },
    }
}

// ---------------------------------------------------------------------------
// Scripts
// ---------------------------------------------------------------------------

/// Adds a line to a script.
fn add_line(script: &mut Vec<String>, line: String)
    ensures
        texts(final(script)@) == texts(old(script)@) + seq![line@],
{
    let ghost before = texts(script@);
    let ghost model = line@;
    script.push(line);
    assert(texts(script@) == before + seq![model]);
}

/// Adds the lines of a block to a script.
fn add_block(script: &mut Vec<String>, block: &str)
    ensures
        texts(final(script)@) == texts(old(script)@) + fields(block@, '\n'),
{
    let ghost before = texts(script@);
    let parts = split(block, '\n');
    let ghost ps = texts(parts@);
    let mut i: usize = 0;
    assert(before + ps.take(0) == before);
    while i < parts.len()
        invariant
            i <= parts@.len(),
            ps == texts(parts@),
            texts(script@) == before + ps.take(i as int),
        decreases parts@.len() - i,
    {
        let ghost sofar = texts(script@);
        script.push(parts[i].clone());
        assert(ps[i as int] == parts@[i as int]@);
        assert(texts(script@) == sofar.push(ps[i as int]));
        assert(before + ps.take(i + 1) == (before + ps.take(i as int)).push(ps[i as int]));
        i = i + 1;
    }
    assert(ps.take(ps.len() as int) == ps);
}

/// How the script for a POSIX shell starts.
pub const POSIX_START: &'static str = r#"#!/usr/bin/env bash
set -eo pipefail"#;

/// Reporting of the state, and the download of an installer.
pub const POSIX_HELPERS: &'static str = r#"mkdir -p "$(dirname "$STATUS_FILE")"
: > "$LOG_FILE"
STAGE=starting
printf '%s\n' '{"status":"running","stage":"starting"}' > "$STATUS_FILE"
exec > >(tee -a "$LOG_FILE") 2>&1
on_exit() {
  code=$?
  if [ "$code" -ne 0 ]; then
    printf '{"status":"failed","stage":"%s","code":%s}\n' "$STAGE" "$code" > "$STATUS_FILE"
    printf '\nInstallation failed. Press Enter to close this terminal.\n'
    read -r _ || true
  fi
}
trap on_exit EXIT
export PATH="$HOME/.local/bin:$HOME/.cargo/bin:/opt/homebrew/bin:/usr/local/bin:/usr/bin:/bin:$PATH"
run_shell_installer() {
  url=$1
  label=$2
  installer_file="$TASK_DIR/${label}-installer.sh"
  attempt=1
  while [ "$attempt" -le 3 ]; do
    echo "Installing $label (attempt $attempt/3)"
    rm -f "$installer_file" "$installer_file.tmp"
    if command -v curl >/dev/null 2>&1; then
      curl -fL --silent --show-error --connect-timeout 10 --max-time 60 --retry 1 --retry-all-errors --retry-delay 2 --output "$installer_file.tmp" "$url" || true
    elif command -v wget >/dev/null 2>&1; then
      wget -qO "$installer_file.tmp" --timeout=30 --tries=3 --waitretry=2 "$url" || true
    else
      echo "Neither curl nor wget is available; cannot install $label." >&2; return 1
    fi
    if [ -s "$installer_file.tmp" ] && [ "$(wc -c < "$installer_file.tmp")" -ge 1024 ] && bash -n "$installer_file.tmp"; then
      mv "$installer_file.tmp" "$installer_file"
      if bash "$installer_file"; then return 0; fi
    else
      echo "Downloaded $label installer is incomplete or invalid; it will not be executed." >&2
    fi
    rm -f "$installer_file" "$installer_file.tmp"
    if [ "$attempt" -lt 3 ]; then echo "$label download failed. Retrying in 3 seconds."; sleep 3; fi
    attempt=$((attempt + 1))
  done
  return 1
}
echo 'AgentSeek Desktop runtime installation'
echo '================================='"#;

/// The stage that installs uv.
pub const POSIX_UV_STAGE: &'static str = r#"STAGE=uv
printf '%s\n' '{"status":"running","stage":"uv"}' > "$STATUS_FILE"
echo '[1/3] Install or upgrade uv'"#;

/// The stage that installs Node.js.
pub const POSIX_NODE_STAGE: &'static str = r#"STAGE=node
printf '%s\n' '{"status":"running","stage":"node"}' > "$STATUS_FILE"
echo '[2/3] Install AgentSeek Desktop private Node.js / npm'
unset npm_config_prefix"#;

/// Keeps the installer of nvm away from the profile of the user.
pub const POSIX_NODE_PROFILE: &'static str = r#"export PROFILE=/dev/null
mkdir -p "$NVM_DIR""#;

/// The stage that installs the command line tool.
pub const POSIX_CLI_STAGE: &'static str = r#"STAGE=agentseek
printf '%s\n' '{"status":"running","stage":"agentseek"}' > "$STATUS_FILE"
echo '[3/3] Install or upgrade AgentSeek CLI'
if [ ! -x "${UV_BIN:-}" ]; then UV_BIN="$(command -v uv)"; fi
"$UV_BIN" tool install --upgrade agentseek
"$UV_BIN" tool update-shell
AGENTSEEK_BIN="$HOME/.local/bin/agentseek"
if [ ! -x "$AGENTSEEK_BIN" ]; then AGENTSEEK_BIN="$(command -v agentseek)"; fi
"$AGENTSEEK_BIN" version"#;

/// How the script for a POSIX shell ends.
pub const POSIX_END: &'static str = r#"STAGE=complete
printf '%s\n' '{"status":"success","stage":"complete","code":0}' > "$STATUS_FILE"
trap - EXIT
kill 0
"#;

/// The lines that set up the script for a POSIX shell.
pub open spec fn posix_opening(task_dir: Seq<char>) -> Seq<Seq<char>> {
    fields(POSIX_START@, '\n') + seq![
        "STATUS_FILE="@ + shell_quoted(joined_path(false, task_dir, "status.json"@)),
        "LOG_FILE="@ + shell_quoted(joined_path(false, task_dir, "install.log"@)),
        "TASK_DIR="@ + shell_quoted(task_dir),
    ] + fields(POSIX_HELPERS@, '\n')
}

/// The lines that install uv, or tell where it is.
pub open spec fn posix_uv(r: RuntimeRequirements, status: CliStatus) -> Seq<Seq<char>> {
    if !status.uv_compatible {
        fields(POSIX_UV_STAGE@, '\n') + seq![
            "run_shell_installer "@ + shell_quoted(r.sources.uv_installer@) + " uv"@,
            "UV_BIN=\"$HOME/.local/bin/uv\""@,
        ]
    } else {
        seq![
            "UV_BIN="@ + shell_quoted(status.uv_path@),
            "echo '[1/3] uv already meets the requirement; skipping'"@,
        ]
    }
}

/// The first number of the version of Node.js that is installed.
pub open spec fn node_major(r: RuntimeRequirements) -> u64 {
    let numbers = version_numbers(r.versions.node.managed@);
    if numbers.len() > 0 {
        numbers[0]
    } else {
        0
    }
}

/// The line that gets nvm, from its own address or from the mirror.
pub open spec fn posix_nvm_line(r: RuntimeRequirements) -> Seq<char> {
    let version = r.versions.nvm.managed@;
    let primary = replaced(r.sources.nvm_installer_template@, "{version}"@, version);
    let mirror = NVM_INSTALL_MIRROR@ + "/raw/v"@ + version + "/install.sh"@;
    "if [ ! -s \"$NVM_DIR/nvm.sh\" ]; then run_shell_installer "@ + shell_quoted(primary)
        + " nvm || run_shell_installer "@ + shell_quoted(mirror) + " nvm; fi"@
}

/// The line that takes Node.js from the mirror where that can be reached.
pub open spec fn posix_mirror_line() -> Seq<char> {
    "if curl -fsI --connect-timeout 2 --max-time 3 \""@ + NVM_NODEJS_MIRROR@
        + "/v24.18.0/SHASUMS256.txt\" > /dev/null 2>&1; then export NVM_NODEJS_ORG_MIRROR="@
        + NVM_NODEJS_MIRROR@ + "; fi"@
}

/// The lines that install Node.js for the desktop alone.
pub open spec fn posix_node(
    r: RuntimeRequirements,
    status: CliStatus,
    runtime_root: Seq<char>,
) -> Seq<Seq<char>> {
    if wants_node(status) {
        fields(POSIX_NODE_STAGE@, '\n') + seq![
            "export NVM_DIR="@ + shell_quoted(joined_path(false, runtime_root, "nvm"@)),
        ] + fields(POSIX_NODE_PROFILE@, '\n') + seq![
            "export NVM_SOURCE="@ + shell_quoted(NVM_INSTALL_MIRROR@) + ".git"@,
            posix_nvm_line(r),
            ". \"$NVM_DIR/nvm.sh\""@,
            posix_mirror_line(),
            "nvm install "@ + decimal(node_major(r) as nat),
            "node --version"@,
            "npm --version"@,
        ]
    } else {
        seq!["echo '[2/3] Node.js / npm already meet the requirements; skipping'"@]
    }
}

/// The lines that install the command line tool.
pub open spec fn posix_cli(status: CliStatus) -> Seq<Seq<char>> {
    if wants_cli(status) {
        fields(POSIX_CLI_STAGE@, '\n')
    } else {
        seq!["echo '[3/3] AgentSeek CLI already meets the requirement; skipping'"@]
    }
}

/// The lines of the script for a POSIX shell.
pub open spec fn posix_script(
    r: RuntimeRequirements,
    status: CliStatus,
    task_dir: Seq<char>,
    runtime_root: Seq<char>,
) -> Seq<Seq<char>> {
    posix_opening(task_dir) + posix_uv(r, status) + posix_node(r, status, runtime_root) + posix_cli(
        status,
    ) + fields(POSIX_END@, '\n')
}

fn add_posix_opening(script: &mut Vec<String>, task_dir: &str)
    ensures
        texts(final(script)@) == texts(old(script)@) + posix_opening(task_dir@),
{
    let ghost before = texts(script@);
    add_block(script, POSIX_START);
    add_line(
        script,
        concat2(
            "STATUS_FILE=",
            shell_quote(join_path(false, task_dir, "status.json").as_str()).as_str(),
        ),
    );
    add_line(
        script,
        concat2(
            "LOG_FILE=",
            shell_quote(join_path(false, task_dir, "install.log").as_str()).as_str(),
        ),
    );
    add_line(script, concat2("TASK_DIR=", shell_quote(task_dir).as_str()));
    add_block(script, POSIX_HELPERS);
    assert(texts(script@) == before + posix_opening(task_dir@));
}

fn add_posix_uv(script: &mut Vec<String>, requirements: &RuntimeRequirements, status: &CliStatus)
    ensures
        texts(final(script)@) == texts(old(script)@) + posix_uv(*requirements, *status),
{
    let ghost before = texts(script@);
    if !status.uv_compatible {
        add_block(script, POSIX_UV_STAGE);
        add_line(
            script,
            concat3(
                "run_shell_installer ",
                shell_quote(requirements.sources.uv_installer.as_str()).as_str(),
                " uv",
            ),
        );
        add_line(script, "UV_BIN=\"$HOME/.local/bin/uv\"".to_owned());
    } else {
        add_line(script, concat2("UV_BIN=", shell_quote(status.uv_path.as_str()).as_str()));
        add_line(script, "echo '[1/3] uv already meets the requirement; skipping'".to_owned());
    }
    assert(texts(script@) == before + posix_uv(*requirements, *status));
}

fn nvm_line(requirements: &RuntimeRequirements) -> (r: String)
    ensures
        r@ == posix_nvm_line(*requirements),
{
    proof {
        reveal_strlit("{version}");
    }
    let version = requirements.versions.nvm.managed.as_str();
    let primary = replace(
        requirements.sources.nvm_installer_template.as_str(),
        "{version}",
        version,
    );
    let mirror = concat4(NVM_INSTALL_MIRROR, "/raw/v", version, "/install.sh");
    concat5(
        "if [ ! -s \"$NVM_DIR/nvm.sh\" ]; then run_shell_installer ",
        shell_quote(primary.as_str()).as_str(),
        " nvm || run_shell_installer ",
        shell_quote(mirror.as_str()).as_str(),
        " nvm; fi",
    )
}

fn add_posix_node(
    script: &mut Vec<String>,
    requirements: &RuntimeRequirements,
    status: &CliStatus,
    runtime_root: &str,
)
    ensures
        texts(final(script)@) == texts(old(script)@) + posix_node(
            *requirements,
            *status,
            runtime_root@,
        ),
{
    let ghost before = texts(script@);
    if !status.node_compatible || !status.npm_compatible {
        let numbers = numeric_version(requirements.versions.node.managed.as_str());
        let major: u64 = if numbers.len() > 0 {
            numbers[0]
        } else {
            0
        };
        add_block(script, POSIX_NODE_STAGE);
        add_line(
            script,
            concat2(
                "export NVM_DIR=",
                shell_quote(join_path(false, runtime_root, "nvm").as_str()).as_str(),
            ),
        );
        add_block(script, POSIX_NODE_PROFILE);
        add_line(
            script,
            concat3("export NVM_SOURCE=", shell_quote(NVM_INSTALL_MIRROR).as_str(), ".git"),
        );
        add_line(script, nvm_line(requirements));
        add_line(script, ". \"$NVM_DIR/nvm.sh\"".to_owned());
        add_line(
            script,
            concat5(
                "if curl -fsI --connect-timeout 2 --max-time 3 \"",
                NVM_NODEJS_MIRROR,
                "/v24.18.0/SHASUMS256.txt\" > /dev/null 2>&1; then export NVM_NODEJS_ORG_MIRROR=",
                NVM_NODEJS_MIRROR,
                "; fi",
            ),
        );
        add_line(script, concat2("nvm install ", decimal_of(major).as_str()));
        add_line(script, "node --version".to_owned());
        add_line(script, "npm --version".to_owned());
    } else {
        add_line(
            script,
            "echo '[2/3] Node.js / npm already meet the requirements; skipping'".to_owned(),
        );
    }
    assert(texts(script@) == before + posix_node(*requirements, *status, runtime_root@));
}

/// The script that installs what is missing, for a POSIX shell.
pub fn posix_runtime_install_script(
    requirements: &RuntimeRequirements,
    status: &CliStatus,
    task_dir: &str,
    runtime_root: &str,
) -> (r: String)
    ensures
        r@ == joined(posix_script(*requirements, *status, task_dir@, runtime_root@), "\n"@),
{
    let mut script: Vec<String> = Vec::new();
    assert(texts(script@) == Seq::<Seq<char>>::empty());
    add_posix_opening(&mut script, task_dir);
    add_posix_uv(&mut script, requirements, status);
    add_posix_node(&mut script, requirements, status, runtime_root);
    if !status.cli_compatible || status.cli_update_available {
        add_block(&mut script, POSIX_CLI_STAGE);
    } else {
        add_line(
            &mut script,
            "echo '[3/3] AgentSeek CLI already meets the requirement; skipping'".to_owned(),
        );
    }
    add_block(&mut script, POSIX_END);
    assert(texts(script@) == posix_script(*requirements, *status, task_dir@, runtime_root@));
    join(&script, "\n")
}

/// Reporting of the state, and downloads with retries.
pub const WINDOWS_HELPERS: &'static str = r#"New-Item -ItemType Directory -Force -Path (Split-Path $StatusFile) | Out-Null
$Stage = 'starting'
'{"status":"running","stage":"starting"}' | Set-Content -Encoding UTF8 $StatusFile
Start-Transcript -Path $LogFile -Force
function Invoke-DownloadWithRetry {
  param([string]$Uri, [string]$OutFile, [string]$Label)
  for ($Attempt = 1; $Attempt -le 6; $Attempt++) {
    try {
      Write-Host "Downloading $Label (attempt $Attempt/6)"
      Invoke-WebRequest -UseBasicParsing -Uri $Uri -OutFile $OutFile
      return
    } catch {
      if ($Attempt -eq 6) { throw }
      Write-Host 'Download failed. If security software prompts, allow the download. Retrying in 10 seconds.'
      Start-Sleep -Seconds 10
    }
  }
}
try {
  Write-Host 'AgentSeek Desktop runtime installation'"#;

/// Where the archive of Node.js is put.
pub const WINDOWS_NODE_PATHS: &'static str = r#"  $Archive = Join-Path $env:TEMP $ArchiveName
  $Checksums = Join-Path $env:TEMP 'agentseek-node-SHASUMS256.txt'
  $ExtractDir = Join-Path $env:TEMP ('agentseek-node-' + [guid]::NewGuid())"#;

/// Checks the archive of Node.js and unpacks it.
pub const WINDOWS_NODE_CHECK: &'static str = r#"  $Line = Get-Content $Checksums | Where-Object { $_ -match ('\s+' + [regex]::Escape($ArchiveName) + '$') } | Select-Object -First 1
  if (-not $Line) { throw 'Node.js SHA-256 entry was not found' }
  $Expected = ($Line.Trim() -split '\s+')[0].ToLowerInvariant()
  $Actual = (Get-FileHash -Algorithm SHA256 $Archive).Hash.ToLowerInvariant()
  if ($Expected -ne $Actual) { throw 'Node.js SHA-256 verification failed' }
  Expand-Archive -Path $Archive -DestinationPath $ExtractDir -Force"#;

/// Puts Node.js into its place.
pub const WINDOWS_NODE_MOVE: &'static str = r#"  if (Test-Path $NodeRoot) { Remove-Item -Recurse -Force $NodeRoot }
  New-Item -ItemType Directory -Force -Path (Split-Path $NodeRoot) | Out-Null
  Move-Item (Join-Path $ExtractDir ($ArchiveName -replace '\.zip$','')) $NodeRoot"#;

/// Cleans up after Node.js.
pub const WINDOWS_NODE_CLEAN: &'static str = r#"  if ($LASTEXITCODE -ne 0) { throw "npm installation failed with exit code $LASTEXITCODE" }
  Remove-Item -Force $Archive,$Checksums
  Remove-Item -Recurse -Force $ExtractDir"#;

/// The stage that installs the command line tool.
pub const WINDOWS_CLI_STAGE: &'static str = r#"  $Stage = 'agentseek'; ('{"status":"running","stage":"agentseek"}') | Set-Content -Encoding UTF8 $StatusFile
  if (-not (Test-Path $UvBin)) { $UvBin = (Get-Command uv).Source }
  & $UvBin tool install --upgrade agentseek
  if ($LASTEXITCODE -ne 0) { throw "AgentSeek CLI installation failed with exit code $LASTEXITCODE" }
  & $UvBin tool update-shell
  if ($LASTEXITCODE -ne 0) { throw "uv tool update-shell failed with exit code $LASTEXITCODE" }"#;

/// How the script for PowerShell ends.
pub const WINDOWS_END: &'static str = r#"  $Stage = 'complete'; '{"status":"success","stage":"complete","code":0}' | Set-Content -Encoding UTF8 $StatusFile
} catch {
  $Message = $_.Exception.Message.Replace('\','\\').Replace('"','\"')
  ('{"status":"failed","stage":"' + $Stage + '","code":1,"message":"' + $Message + '"}') | Set-Content -Encoding UTF8 $StatusFile
  Write-Error $_
} finally {
  Stop-Transcript
}
"#;

/// The name of the build of Node.js that is installed on Windows.
pub open spec fn windows_node_name(r: RuntimeRequirements, arm: bool) -> Seq<char> {
    "node-v"@ + r.versions.node.managed@ + "-"@ + (if arm {
        "win-arm64"@
    } else {
        "win-x64"@
    })
}

/// Where files of the version of Node.js that is installed are found.
pub open spec fn windows_node_address(r: RuntimeRequirements) -> Seq<char> {
    strip_all_end(r.sources.node_distribution@, "/"@) + "/v"@ + r.versions.node.managed@ + "/"@
}

/// The lines that set up the script for PowerShell.
pub open spec fn windows_opening(task_dir: Seq<char>) -> Seq<Seq<char>> {
    seq![
        "$ErrorActionPreference = 'Stop'"@,
        "$StatusFile = "@ + powershell_quoted(joined_path(true, task_dir, "status.json"@)),
        "$LogFile = "@ + powershell_quoted(joined_path(true, task_dir, "install.log"@)),
        "$TaskDir = "@ + powershell_quoted(task_dir),
    ] + fields(WINDOWS_HELPERS@, '\n')
}

/// The lines that install uv, or tell where it is.
pub open spec fn windows_uv(r: RuntimeRequirements, status: CliStatus) -> Seq<Seq<char>> {
    if !status.uv_compatible {
        seq![
            "  $Stage = 'uv'; ('{\"status\":\"running\",\"stage\":\"uv\"}') | Set-Content -Encoding UTF8 $StatusFile"@,
            if status.uv_available && status.uv_path@.len() > 0 {
                "  Write-Host 'An outdated uv was found. The required version will be installed in the current user tool directory without changing the system installation.'"@
            } else {
                "  Write-Host 'uv was not found; starting installation.'"@
            },
            "  $UvInstaller = Join-Path $TaskDir 'uv-install.ps1'"@,
            "  Invoke-DownloadWithRetry -Uri "@ + powershell_quoted(uv_installer_for_windows(r))
                + " -OutFile $UvInstaller -Label 'official uv installer'"@,
            "  & $UvInstaller"@,
            "  $UvBin = Join-Path $HOME '.local\\bin\\uv.exe'"@,
        ]
    } else {
        seq!["  $UvBin = "@ + powershell_quoted(status.uv_path@)]
    }
}

/// The lines that install Node.js for the desktop alone.
pub open spec fn windows_node(
    r: RuntimeRequirements,
    status: CliStatus,
    runtime_root: Seq<char>,
    arm: bool,
) -> Seq<Seq<char>> {
    if wants_node(status) {
        let archive = windows_node_name(r, arm) + ".zip"@;
        seq![
            "  $Stage = 'node'; ('{\"status\":\"running\",\"stage\":\"node\"}') | Set-Content -Encoding UTF8 $StatusFile"@,
            "  $ArchiveName = "@ + powershell_quoted(archive),
        ] + fields(WINDOWS_NODE_PATHS@, '\n') + seq![
            "  Invoke-DownloadWithRetry -Uri "@ + powershell_quoted(
                windows_node_address(r) + archive,
            ) + " -OutFile $Archive -Label 'Node.js ZIP'"@,
            "  Invoke-DownloadWithRetry -Uri "@ + powershell_quoted(
                windows_node_address(r) + "SHASUMS256.txt"@,
            ) + " -OutFile $Checksums -Label 'Node.js SHA-256 manifest'"@,
        ] + fields(WINDOWS_NODE_CHECK@, '\n') + seq![
            "  $NodeRoot = "@ + powershell_quoted(
                joined_path(true, runtime_root, windows_node_name(r, arm)),
            ),
        ] + fields(WINDOWS_NODE_MOVE@, '\n') + seq![
            "  & (Join-Path $NodeRoot 'npm.cmd') install -g npm@"@ + r.versions.npm.managed@,
        ] + fields(WINDOWS_NODE_CLEAN@, '\n')
    } else {
        Seq::empty()
    }
}

/// The lines of the script for PowerShell.
pub open spec fn windows_script(
    r: RuntimeRequirements,
    status: CliStatus,
    task_dir: Seq<char>,
    runtime_root: Seq<char>,
    arm: bool,
) -> Seq<Seq<char>> {
    windows_opening(task_dir) + windows_uv(r, status) + windows_node(r, status, runtime_root, arm)
        + (if wants_cli(status) {
        fields(WINDOWS_CLI_STAGE@, '\n')
    } else {
        Seq::empty()
    }) + fields(WINDOWS_END@, '\n')
}

fn add_windows_opening(script: &mut Vec<String>, task_dir: &str)
    ensures
        texts(final(script)@) == texts(old(script)@) + windows_opening(task_dir@),
{
    let ghost before = texts(script@);
    add_line(script, "$ErrorActionPreference = 'Stop'".to_owned());
    add_line(
        script,
        concat2(
            "$StatusFile = ",
            powershell_quote(join_path(true, task_dir, "status.json").as_str()).as_str(),
        ),
    );
    add_line(
        script,
        concat2(
            "$LogFile = ",
            powershell_quote(join_path(true, task_dir, "install.log").as_str()).as_str(),
        ),
    );
    add_line(script, concat2("$TaskDir = ", powershell_quote(task_dir).as_str()));
    add_block(script, WINDOWS_HELPERS);
    assert(texts(script@) == before + windows_opening(task_dir@));
}

fn add_windows_uv(script: &mut Vec<String>, requirements: &RuntimeRequirements, status: &CliStatus)
    ensures
        texts(final(script)@) == texts(old(script)@) + windows_uv(*requirements, *status),
{
    let ghost before = texts(script@);
    if !status.uv_compatible {
        add_line(
            script,
            "  $Stage = 'uv'; ('{\"status\":\"running\",\"stage\":\"uv\"}') | Set-Content -Encoding UTF8 $StatusFile".to_owned(),
        );
        if status.uv_available && !status.uv_path.as_str().is_empty() {
            add_line(
                script,
                "  Write-Host 'An outdated uv was found. The required version will be installed in the current user tool directory without changing the system installation.'".to_owned(),
            );
        } else {
            add_line(
                script,
                "  Write-Host 'uv was not found; starting installation.'".to_owned(),
            );
        }
        add_line(script, "  $UvInstaller = Join-Path $TaskDir 'uv-install.ps1'".to_owned());
        add_line(
            script,
            concat3(
                "  Invoke-DownloadWithRetry -Uri ",
                powershell_quote(windows_uv_installer(requirements).as_str()).as_str(),
                " -OutFile $UvInstaller -Label 'official uv installer'",
            ),
        );
        add_line(script, "  & $UvInstaller".to_owned());
        add_line(script, "  $UvBin = Join-Path $HOME '.local\\bin\\uv.exe'".to_owned());
    } else {
        add_line(
            script,
            concat2("  $UvBin = ", powershell_quote(status.uv_path.as_str()).as_str()),
        );
    }
    assert(texts(script@) == before + windows_uv(*requirements, *status));
}

fn add_windows_node(
    script: &mut Vec<String>,
    requirements: &RuntimeRequirements,
    status: &CliStatus,
    runtime_root: &str,
    arm: bool,
)
    ensures
        texts(final(script)@) == texts(old(script)@) + windows_node(
            *requirements,
            *status,
            runtime_root@,
            arm,
        ),
{
    let ghost before = texts(script@);
    if !status.node_compatible || !status.npm_compatible {
        proof {
            reveal_strlit("/");
        }
        let version = requirements.versions.node.managed.as_str();
        let name = concat4(
            "node-v",
            version,
            "-",
            if arm {
                "win-arm64"
            } else {
                "win-x64"
            },
        );
        let archive = concat2(name.as_str(), ".zip");
        let address = concat4(
            trim_end_text(requirements.sources.node_distribution.as_str(), "/"),
            "/v",
            version,
            "/",
        );
        add_line(
            script,
            "  $Stage = 'node'; ('{\"status\":\"running\",\"stage\":\"node\"}') | Set-Content -Encoding UTF8 $StatusFile".to_owned(),
        );
        add_line(
            script,
            concat2("  $ArchiveName = ", powershell_quote(archive.as_str()).as_str()),
        );
        add_block(script, WINDOWS_NODE_PATHS);
        let archive_address = concat2(address.as_str(), archive.as_str());
        add_line(
            script,
            concat3(
                "  Invoke-DownloadWithRetry -Uri ",
                powershell_quote(archive_address.as_str()).as_str(),
                " -OutFile $Archive -Label 'Node.js ZIP'",
            ),
        );
        let checksum_address = concat2(address.as_str(), "SHASUMS256.txt");
        add_line(
            script,
            concat3(
                "  Invoke-DownloadWithRetry -Uri ",
                powershell_quote(checksum_address.as_str()).as_str(),
                " -OutFile $Checksums -Label 'Node.js SHA-256 manifest'",
            ),
        );
        add_block(script, WINDOWS_NODE_CHECK);
        add_line(
            script,
            concat2(
                "  $NodeRoot = ",
                powershell_quote(join_path(true, runtime_root, name.as_str()).as_str()).as_str(),
            ),
        );
        add_block(script, WINDOWS_NODE_MOVE);
        add_line(
            script,
            concat2(
                "  & (Join-Path $NodeRoot 'npm.cmd') install -g npm@",
                requirements.versions.npm.managed.as_str(),
            ),
        );
        add_block(script, WINDOWS_NODE_CLEAN);
    }
    assert(texts(script@) == before + windows_node(*requirements, *status, runtime_root@, arm));
}

/// The script that installs what is missing, for PowerShell.
pub fn windows_runtime_install_script(
    requirements: &RuntimeRequirements,
    status: &CliStatus,
    task_dir: &str,
    runtime_root: &str,
    arm: bool,
) -> (r: String)
    ensures
        r@ == joined(
            windows_script(*requirements, *status, task_dir@, runtime_root@, arm),
            "\r\n"@,
        ),
{
    let mut script: Vec<String> = Vec::new();
    assert(texts(script@) == Seq::<Seq<char>>::empty());
    add_windows_opening(&mut script, task_dir);
    add_windows_uv(&mut script, requirements, status);
    add_windows_node(&mut script, requirements, status, runtime_root, arm);
    if !status.cli_compatible || status.cli_update_available {
        add_block(&mut script, WINDOWS_CLI_STAGE);
    }
    add_block(&mut script, WINDOWS_END);
    assert(texts(script@) == windows_script(
        *requirements,
        *status,
        task_dir@,
        runtime_root@,
        arm,
    ));
    join(&script, "\r\n")
}

// ---------------------------------------------------------------------------
// The plan
// ---------------------------------------------------------------------------

/// An installation that is ready to be run.
#[derive(Debug)]
pub struct RuntimeInstallPlan {
    pub task_id: String,
    pub script: String,
    pub script_path: String,
    pub install_dir: String,
    pub dependencies: Vec<String>,
}

/// Why nothing is installed, where nothing is.
pub open spec fn install_refusal(
    status: CliStatus,
    force_upgrade: bool,
    runtime_root: Option<Seq<char>>,
) -> Option<Seq<char>> {
    if force_upgrade && (!status.cli_update_available || status.cli_latest_version@.len() == 0) {
        Some("AgentSeek CLI is already up to date"@)
    } else if wanted(status).len() == 0 {
        Some("Current runtime environment already meets requirements"@)
    } else if runtime_root is None {
        Some("AgentSeek Desktop private runtime directory not yet initialized"@)
    } else {
        None
    }
}

/// Where a task of the installation keeps its files.
pub open spec fn task_directory(windows: bool, data_dir: Seq<char>, task_id: Seq<char>) -> Seq<
    char,
> {
    joined_path(windows, joined_path(windows, data_dir, "runtime-install"@), task_id)
}

/// The name of the script of a task.
pub open spec fn script_name(windows: bool) -> Seq<char> {
    if windows {
        "install.ps1"@
    } else {
        "install.command"@
    }
}

pub fn install_script_name(windows: bool) -> (r: &'static str)
    ensures
        r@ == script_name(windows),
{
    if windows {
        "install.ps1"
    } else {
        "install.command"
    }
}

/// Plans the installation of what is missing, and tells which version an upgrade has to reach.
pub fn prepare_runtime_install_plan(
    requirements: &RuntimeRequirements,
    status: &CliStatus,
    force_agentseek_upgrade: bool,
    runtime_root: Option<&str>,
    data_dir: &str,
    task_id: &str,
    windows: bool,
    arm: bool,
) -> (r: Result<(RuntimeInstallPlan, Option<String>), String>)
    ensures
        match install_refusal(*status, force_agentseek_upgrade, opt_str(runtime_root)) {
            Some(message) => r matches Err(e) && e@ == message,
            None => r matches Ok(p) && ({
                let task_dir = task_directory(windows, data_dir@, task_id@);
                let root = opt_str(runtime_root)->0;
                let plan = p.0;
                &&& plan.task_id@ == task_id@
                &&& plan.script@ == (if windows {
                    joined(windows_script(*requirements, *status, task_dir, root, arm), "\r\n"@)
                } else {
                    joined(posix_script(*requirements, *status, task_dir, root), "\n"@)
                })
                &&& plan.script_path@ == joined_path(windows, task_dir, script_name(windows))
                &&& plan.install_dir@ == root
                &&& texts(plan.dependencies@) == wanted(*status)
                &&& opt_view(p.1) == (if status.cli_update_available {
                    Some(status.cli_latest_version@)
                } else {
                    None
                })
            }),
        },
{
    if force_agentseek_upgrade && (!status.cli_update_available
        || status.cli_latest_version.as_str().is_empty()) {
        return Err("AgentSeek CLI is already up to date".to_owned());
    }
    let upgrade_target = if status.cli_update_available {
        Some(status.cli_latest_version.clone())
    } else {
        None
    };
    let dependencies = required_runtime_dependencies(status);
    assert(texts(dependencies@).len() == dependencies@.len());
    if dependencies.len() == 0 {
        return Err("Current runtime environment already meets requirements".to_owned());
    }
    let root = match runtime_root {
        Some(root) => root,
        None => {
            return Err(
                "AgentSeek Desktop private runtime directory not yet initialized".to_owned(),
            );
        },
    };
    let tasks = join_path(windows, data_dir, "runtime-install");
    let task_dir = join_path(windows, tasks.as_str(), task_id);
    let script = if windows {
        windows_runtime_install_script(requirements, status, task_dir.as_str(), root, arm)
    } else {
        posix_runtime_install_script(requirements, status, task_dir.as_str(), root)
    };
    let script_path = join_path(windows, task_dir.as_str(), install_script_name(windows));
    Ok(
        (
            RuntimeInstallPlan {
                task_id: task_id.to_owned(),
                script,
                script_path,
                install_dir: root.to_owned(),
                dependencies,
            },
            upgrade_target,
        ),
    )
}

/// What is told where no terminal can be opened.
pub const NO_TERMINAL: &'static str = "No available system terminal found; please install x-terminal-emulator, GNOME Terminal, or Konsole";

/// A program with its arguments.
#[derive(Debug)]
pub struct Invocation {
    pub program: String,
    pub arguments: Vec<String>,
}

/// The terminals that are tried one after the other, each with its arguments.
pub open spec fn terminals(macos: bool, windows: bool, script: Seq<char>) -> Seq<
    (Seq<char>, Seq<Seq<char>>),
> {
    if macos {
        seq![("/usr/bin/open"@, seq!["-a"@, "Terminal"@, script])]
    } else if windows {
        seq![
            (
                "cmd"@,
                seq!["/C"@, "start"@, ""@, "powershell.exe"@, "-NoProfile"@, "-File"@, script],
            ),
        ]
    } else {
        seq![
            ("x-terminal-emulator"@, seq!["-e"@, "bash"@, script]),
            ("gnome-terminal"@, seq!["--"@, "bash"@, script]),
            ("konsole"@, seq!["-e"@, "bash"@, script]),
        ]
    }
}

/// What a list of invocations stands for.
pub open spec fn invocations_view(v: Seq<Invocation>) -> Seq<(Seq<char>, Seq<Seq<char>>)> {
    v.map_values(|x: Invocation| (x.program@, texts(x.arguments@)))
}

fn in_terminal(program: &str, flag: &str, script: &str) -> (r: Invocation)
    ensures
        r.program@ == program@,
        texts(r.arguments@) == seq![flag@, "bash"@, script@],
{
    let arguments: Vec<String> = vec![flag.to_owned(), "bash".to_owned(), script.to_owned()];
    assert(texts(arguments@) == seq![flag@, "bash"@, script@]);
    Invocation { program: program.to_owned(), arguments }
}

/// Lists the terminals to try for a script, the preferred one first.
pub fn launch_runtime_install_terminal(script_path: &str, macos: bool, windows: bool) -> (r: Vec<
    Invocation,
>)
    ensures
        invocations_view(r@) == terminals(macos, windows, script_path@),
{
    if macos {
        let arguments: Vec<String> = vec![
            "-a".to_owned(),
            "Terminal".to_owned(),
            script_path.to_owned(),
        ];
        assert(texts(arguments@) == seq!["-a"@, "Terminal"@, script_path@]);
        let r: Vec<Invocation> = vec![
            Invocation { program: "/usr/bin/open".to_owned(), arguments },
        ];
        assert(invocations_view(r@) == terminals(macos, windows, script_path@));
        return r;
    }
    if windows {
        let arguments: Vec<String> = vec![
            "/C".to_owned(),
            "start".to_owned(),
            "".to_owned(),
            "powershell.exe".to_owned(),
            "-NoProfile".to_owned(),
            "-File".to_owned(),
            script_path.to_owned(),
        ];
        assert(texts(arguments@) == seq![
            "/C"@,
            "start"@,
            ""@,
            "powershell.exe"@,
            "-NoProfile"@,
            "-File"@,
            script_path@,
        ]);
        let r: Vec<Invocation> = vec![Invocation { program: "cmd".to_owned(), arguments }];
        assert(invocations_view(r@) == terminals(macos, windows, script_path@));
        return r;
    }
    let r: Vec<Invocation> = vec![
        in_terminal("x-terminal-emulator", "-e", script_path),
        in_terminal("gnome-terminal", "--", script_path),
        in_terminal("konsole", "-e", script_path),
    ];
    assert(invocations_view(r@) == terminals(macos, windows, script_path@));
    r
}

// ---------------------------------------------------------------------------
// Progress and outcome
// ---------------------------------------------------------------------------

/// The text that bytes are read as; what is no UTF-8 is replaced.
pub uninterp spec fn lossy_text(content: Seq<u8>) -> Seq<char>;

/// Calls `String::from_utf8_lossy` of std: the text that bytes stand for, with replacement
/// characters where they are no UTF-8. The text depends on the bytes alone.
#[verifier::external_body]
fn text_of_bytes(content: &[u8]) -> (r: String)
    ensures
        r@ == lossy_text(content@),
{
    String::from_utf8_lossy(content).into_owned()
}

/// How many bytes of the end of a log are shown.
pub const LOG_TAIL_BYTES: usize = 16384;

/// The end of a log.
pub open spec fn tail_of(content: Seq<u8>) -> Seq<u8> {
    content.skip(if content.len() > LOG_TAIL_BYTES {
        content.len() - LOG_TAIL_BYTES
    } else {
        0
    })
}

/// The end of the log of an installation as a text.
pub fn install_log_tail(content: &[u8]) -> (r: String)
    ensures
        r@ == trimmed(lossy_text(tail_of(content@))),
{
    let start: usize = content.len().saturating_sub(LOG_TAIL_BYTES);
    let tail = slice_subrange(content, start, content.len());
    assert(tail@ == tail_of(content@));
    let text = text_of_bytes(tail);
    trim(text.as_str()).to_owned()
}

/// Whether an id of a task is one: digits, and at least one of them.
pub open spec fn is_task_id(s: Seq<char>) -> bool {
    s.len() > 0 && all_digits(s)
}

/// Where the files of a task are; an id of another form is refused.
pub fn runtime_install_task_dir(data_dir: &str, task_id: &str, windows: bool) -> (r: Result<
    String,
    String,
>)
    ensures
        r is Ok <==> is_task_id(task_id@),
        r matches Ok(path) ==> path@ == task_directory(windows, data_dir@, task_id@),
        r matches Err(message) ==> message@ == "Invalid install task ID"@,
{
    if task_id.is_empty() || !only_digits(task_id) {
        return Err("Invalid install task ID".to_owned());
    }
    Ok(join_path(windows, join_path(windows, data_dir, "runtime-install").as_str(), task_id))
}

/// How far an installation has come.
#[derive(Debug)]
pub struct RuntimeInstallProgress {
    pub status: String,
    pub stage: String,
    pub log: String,
}

/// A text in what a script reported; where nothing was reported yet, it is pending.
pub open spec fn reported(report: Option<JsonModel>, key: Seq<char>) -> Seq<char> {
    match report {
        Some(value) => match member_text(value, key) {
            Some(text) => text,
            None => "pending"@,
        },
        None => "pending"@,
    }
}

fn reported_text(report: &Option<Json>, key: &str) -> (r: String)
    ensures
        r@ == reported(
            match *report {
                Some(value) => Some(value@),
                None => None,
            },
            key@,
        ),
{
    match report {
        Some(value) => match get_text(value, key) {
            Some(text) => text.to_owned(),
            None => "pending".to_owned(),
        },
        None => "pending".to_owned(),
    }
}

/// The progress that a report and the end of the log tell of.
pub fn reported_progress(report: Option<Json>, log: String) -> (r: RuntimeInstallProgress)
    ensures
        ({
            let model = match report {
                Some(value) => Some(value@),
                None => None,
            };
            &&& r.status@ == reported(model, "status"@)
            &&& r.stage@ == reported(model, "stage"@)
            &&& r.log@ == log@
        }),
{
    RuntimeInstallProgress {
        status: reported_text(&report, "status"),
        stage: reported_text(&report, "stage"),
        log,
    }
}

/// What a script reported in its file, if the file can be read.
pub open spec fn report_in(content: Option<Seq<char>>) -> Option<JsonModel> {
    match content {
        Some(text) => match json_read(trimmed(text)) {
            Ok(value) => Some(value),
            Err(_) => None,
        },
        None => None,
    }
}

fn read_report(content: Option<&str>) -> (r: Option<Json>)
    ensures
        report_in(opt_str(content)) == (match r {
            Some(value) => Some(value@),
            None => None,
        }),
{
    match content {
        Some(text) => match read_json(trim(text)) {
            Ok(value) => Some(value),
            Err(_) => None,
        },
        None => None,
    }
}

/// The progress of an installation, from the file of its state and its log.
pub fn runtime_install_progress(content: Option<&str>, log: &[u8]) -> (r: RuntimeInstallProgress)
    ensures
        r.status@ == reported(report_in(opt_str(content)), "status"@),
        r.stage@ == reported(report_in(opt_str(content)), "stage"@),
        r.log@ == trimmed(lossy_text(tail_of(log@))),
{
    reported_progress(read_report(content), install_log_tail(log))
}

/// How often the state of an installation is looked at, twice a second.
pub const INSTALL_POLLS: u32 = 3600;

/// What is told where an installation does not end.
pub const INSTALL_TIMEOUT: &'static str = "Timed out waiting for terminal install result; please check terminal output and re-check";

/// What a look at the state of an installation leads to.
#[derive(Clone, Copy, Debug, PartialEq, Eq, Structural)]
pub enum InstallStep {
    /// The script still runs.
    Wait,
    /// The script is done, and the tools are to be checked.
    Check,
    /// The script failed.
    Failed,
}

/// What a report leads to.
pub open spec fn step_for(report: Option<JsonModel>) -> InstallStep {
    match report {
        Some(value) => if member_text(value, "status"@) == Some("success"@) {
            InstallStep::Check
        } else if member_text(value, "status"@) == Some("failed"@) {
            InstallStep::Failed
        } else {
            InstallStep::Wait
        },
        None => InstallStep::Wait,
    }
}

pub fn reported_step(report: Option<Json>) -> (r: InstallStep)
    ensures
        r == step_for(
            match report {
                Some(value) => Some(value@),
                None => None,
            },
        ),
{
    proof {
        reveal_strlit("success");
        reveal_strlit("failed");
        assert("success"@.len() != "failed"@.len());
    }
    match report {
        Some(value) => match get_text(&value, "status") {
            Some(status) => if same(status, "success") {
                InstallStep::Check
            } else if same(status, "failed") {
                InstallStep::Failed
            } else {
                InstallStep::Wait
            },
            None => InstallStep::Wait,
        },
        None => InstallStep::Wait,
    }
}

/// Decides what to do next from the file of the state of an installation.
pub fn execute_runtime_install(content: Option<&str>) -> (r: InstallStep)
    ensures
        r == step_for(report_in(opt_str(content))),
{
    reported_step(read_report(content))
}

/// Why an installation whose script is done did not succeed, if it did not.
pub open spec fn install_fault(status: CliStatus, target: Option<Seq<char>>) -> Option<Seq<char>> {
    if !status.prerequisites_ready {
        Some(
            "Install script completed, but some dependencies still do not meet version requirements; please re-check"@,
        )
    } else if target is Some && !suffices(status.cli_version@, trimmed(target->0)) {
        Some(
            "AgentSeek CLI upgrade did not reach target version "@ + trimmed(target->0)
                + "; currently detected "@ + status.cli_version@,
        )
    } else {
        None
    }
}

/// Judges an installation whose script is done by the tools that are there now.
pub fn finished_install(
    status: &CliStatus,
    target: Option<&str>,
    task_dir: &str,
    windows: bool,
) -> (r: Result<String, String>)
    ensures
        match install_fault(*status, opt_str(target)) {
            Some(message) => r matches Err(e) && e@ == message,
            None => r matches Ok(text) && text@
                == "Runtime environment installation completed\nLog: "@ + joined_path(
                windows,
                task_dir@,
                "install.log"@,
            ),
        },
{
    if !status.prerequisites_ready {
        return Err(
            "Install script completed, but some dependencies still do not meet version requirements; please re-check".to_owned(),
        );
    }
    if let Some(target) = target {
        let version = trim(target);
        if !meets_requirement(status.cli_version.as_str(), version) {
            return Err(
                concat4(
                    "AgentSeek CLI upgrade did not reach target version ",
                    version,
                    "; currently detected ",
                    status.cli_version.as_str(),
                ),
            );
        }
    }
    Ok(
        concat2(
            "Runtime environment installation completed\nLog: ",
            join_path(windows, task_dir, "install.log").as_str(),
        ),
    )
}

/// What is told of a script that failed.
pub fn failed_install(tail: &str) -> (r: String)
    ensures
        r@ == (if tail@.len() == 0 {
            "Terminal install script execution failed; please check terminal output"@
        } else {
            tail@
        }),
{
    if tail.is_empty() {
        "Terminal install script execution failed; please check terminal output".to_owned()
    } else {
        tail.to_owned()
    }
}

} // verus!
