//! Laws of logs and of what is kept: which entries expire, what is shown of a line, and which
//! backups and settings remain.

use crate::instance::joined_path;
use crate::logging::{
    control_end, expendable_from, expired_from, is_active, is_letter, is_retained, pruned,
    retained_from, shown_from, unlisted_from, without_ansi,
};
use crate::models::{
    ConfigModel, InstanceModel, LogModel, LOG_CLEANUP_BATCH_SIZE, MAX_LOG_ENTRIES,
};
use crate::storage::{backups_from, completed_config, stale_of};
use crate::text::{ascending, ends, law_sorted_texts, starts, trimmed};
use vstd::prelude::*;
use vstd::string::*;

verus! {

// ---------------------------------------------------------------------------
// Entries that expire
// ---------------------------------------------------------------------------

/// Whether an entry is older than a number of days.
pub open spec fn is_older(log: LogModel, days: int, now: u64) -> bool {
    log.created_at + days * 86400 < now
}

/// Whether an entry may not be kept: output of a running instance that is older than the given
/// days, at least one, and what is left of a deleted instance after a week.
pub open spec fn has_expired(
    log: LogModel,
    instances: Seq<InstanceModel>,
    days: u32,
    now: u64,
) -> bool {
    ||| log.category == "runtime"@ && is_older(
        log,
        if days >= 1 {
            days as int
        } else {
            1
        },
        now,
    )
    ||| is_older(log, 7, now) && (log.instance_id matches Some(id) && forall|i: int|
        0 <= i < instances.len() ==> (#[trigger] instances[i]).id != id)
}

proof fn lemma_expiry(log: LogModel, instances: Seq<InstanceModel>, days: u32, now: u64)
    ensures
        is_retained(log, instances, days, now) <==> !has_expired(log, instances, days, now),
{
    if let Some(id) = log.instance_id {
        if is_active(instances, id) {
            let i = choose|i: int| 0 <= i < instances.len() && (#[trigger] instances[i]).id == id;
            assert(instances[i].id == id);
        }
    }
}

proof fn lemma_retained_holds(
    logs: Seq<LogModel>,
    instances: Seq<InstanceModel>,
    days: u32,
    now: u64,
    i: int,
    k: int,
)
    requires
        0 <= i <= k < logs.len(),
    ensures
        is_retained(logs[k], instances, days, now) ==> retained_from(
            logs,
            instances,
            days,
            now,
            i,
        ).contains(logs[k]),
        !is_retained(logs[k], instances, days, now) ==> expired_from(
            logs,
            instances,
            days,
            now,
            i,
        ).contains(logs[k].id),
    decreases k - i,
{
    let kept = retained_from(logs, instances, days, now, i);
    let gone = expired_from(logs, instances, days, now, i);
    let rest = retained_from(logs, instances, days, now, i + 1);
    let more = expired_from(logs, instances, days, now, i + 1);
    if i == k {
        if is_retained(logs[k], instances, days, now) {
            assert(kept[0] == logs[k]);
        } else {
            assert(gone[0] == logs[k].id);
        }
    } else {
        lemma_retained_holds(logs, instances, days, now, i + 1, k);
        if is_retained(logs[k], instances, days, now) {
            let m = choose|m: int| 0 <= m < rest.len() && rest[m] == logs[k];
            if is_retained(logs[i], instances, days, now) {
                assert(kept[m + 1] == logs[k]);
            } else {
                assert(kept[m] == logs[k]);
            }
        } else {
            let m = choose|m: int| 0 <= m < more.len() && more[m] == logs[k].id;
            if is_retained(logs[i], instances, days, now) {
                assert(gone[m] == logs[k].id);
            } else {
                assert(gone[m + 1] == logs[k].id);
            }
        }
    }
}

proof fn lemma_retained_only(
    logs: Seq<LogModel>,
    instances: Seq<InstanceModel>,
    days: u32,
    now: u64,
    i: int,
)
    requires
        0 <= i <= logs.len(),
    ensures
        forall|j: int|
            0 <= j < retained_from(logs, instances, days, now, i).len() ==> is_retained(
                #[trigger] retained_from(logs, instances, days, now, i)[j],
                instances,
                days,
                now,
            ),
        retained_from(logs, instances, days, now, i).len() <= logs.len() - i,
    decreases logs.len() - i,
{
    if i < logs.len() {
        lemma_retained_only(logs, instances, days, now, i + 1);
        let all = retained_from(logs, instances, days, now, i);
        let rest = retained_from(logs, instances, days, now, i + 1);
        assert forall|j: int| 0 <= j < all.len() implies is_retained(
            #[trigger] all[j],
            instances,
            days,
            now,
        ) by {
            if all.len() == rest.len() {
                assert(all[j] == rest[j]);
            } else if j > 0 {
                assert(all[j] == rest[j - 1]);
            }
        }
    }
}

proof fn lemma_unlisted_only(logs: Seq<LogModel>, ids: Seq<Seq<char>>, i: int, log: LogModel)
    requires
        0 <= i,
        unlisted_from(logs, ids, i).contains(log),
    ensures
        logs.contains(log),
    decreases logs.len() - i,
{
    let all = unlisted_from(logs, ids, i);
    if i < logs.len() {
        let rest = unlisted_from(logs, ids, i + 1);
        let m = choose|m: int| 0 <= m < all.len() && all[m] == log;
        if !ids.contains(logs[i].id) {
            if m == 0 {
                assert(logs[i] == log);
            } else {
                assert(rest[m - 1] == log);
                lemma_unlisted_only(logs, ids, i + 1, log);
            }
        } else {
            lemma_unlisted_only(logs, ids, i + 1, log);
        }
    }
}

/// Entries that have expired are dropped and named; all others stay where there are no more of
/// them than may be kept.
pub proof fn law_expired_entries_are_dropped(
    logs: Seq<LogModel>,
    instances: Seq<InstanceModel>,
    days: u32,
    now: u64,
    k: int,
)
    requires
        0 <= k < logs.len(),
    ensures
        ({
            let (kept, gone) = pruned(logs, instances, days, now);
            &&& has_expired(logs[k], instances, days, now) ==> !kept.contains(logs[k])
                && gone.contains(logs[k].id)
            &&& !has_expired(logs[k], instances, days, now) && logs.len() <= 100_000
                ==> kept.contains(logs[k])
        }),
{
    let (kept, gone) = pruned(logs, instances, days, now);
    let recent = retained_from(logs, instances, days, now, 0);
    let expired = expired_from(logs, instances, days, now, 0);
    lemma_expiry(logs[k], instances, days, now);
    lemma_retained_holds(logs, instances, days, now, 0, k);
    lemma_retained_only(logs, instances, days, now, 0);
    if has_expired(logs[k], instances, days, now) {
        if kept.contains(logs[k]) {
            if kept != recent {
                let surplus = expendable_from(
                    recent,
                    instances,
                    recent.len() - MAX_LOG_ENTRIES + LOG_CLEANUP_BATCH_SIZE,
                    0,
                );
                lemma_unlisted_only(recent, surplus, 0, logs[k]);
            }
            let m = choose|m: int| 0 <= m < recent.len() && recent[m] == logs[k];
            assert(is_retained(recent[m], instances, days, now));
        }
        let m = choose|m: int| 0 <= m < expired.len() && expired[m] == logs[k].id;
        assert(gone[m] == logs[k].id);
    }
}

// ---------------------------------------------------------------------------
// Control sequences
// ---------------------------------------------------------------------------

proof fn lemma_shown_shift(s: Seq<char>, k: int, i: int)
    requires
        0 <= k <= i,
        k <= s.len(),
    ensures
        shown_from(s, i) == shown_from(s.skip(k), i - k),
    decreases s.len() - i,
{
    let t = s.skip(k);
    if i < s.len() {
        assert(t[i - k] == s[i]);
        if s[i] == '\u{1b}' && i + 1 < s.len() && s[i + 1] == '[' {
            assert(t[i + 1 - k] == s[i + 1]);
            lemma_end_shift(s, k, i + 2);
            lemma_shown_shift(s, k, control_end(s, i + 2));
        } else {
            if i + 1 < s.len() {
                assert(t[i + 1 - k] == s[i + 1]);
            }
            lemma_shown_shift(s, k, i + 1);
        }
    }
}

proof fn lemma_end_shift(s: Seq<char>, k: int, i: int)
    requires
        0 <= k <= i,
        k <= s.len(),
    ensures
        control_end(s, i) == control_end(s.skip(k), i - k) + k,
        control_end(s, i) >= i,
        i <= s.len() ==> control_end(s, i) <= s.len(),
    decreases s.len() - i,
{
    if i < s.len() {
        assert(s.skip(k)[i - k] == s[i]);
        lemma_end_shift(s, k, i + 1);
    }
}

proof fn lemma_end_at(s: Seq<char>, i: int, e: int)
    requires
        0 <= i <= e < s.len(),
        is_letter(s[e]),
        forall|j: int| i <= j < e ==> !is_letter(#[trigger] s[j]),
    ensures
        control_end(s, i) == e + 1,
    decreases e - i,
{
    if i < e {
        lemma_end_at(s, i + 1, e);
    }
}

proof fn lemma_plain_start(a: Seq<char>, b: Seq<char>)
    requires
        forall|i: int| 0 <= i < a.len() ==> #[trigger] a[i] != '\u{1b}',
    ensures
        without_ansi(a + b) == a + without_ansi(b),
    decreases a.len(),
{
    let s = a + b;
    if a.len() > 0 {
        let rest = a.skip(1);
        assert(s[0] == a[0]);
        assert(s.skip(1) == rest + b);
        lemma_shown_shift(s, 1, 1);
        lemma_plain_start(rest, b);
        assert(seq![a[0]] + (rest + without_ansi(b)) == a + without_ansi(b));
    } else {
        assert(s == b);
        assert(a + without_ansi(b) == without_ansi(b));
    }
}

/// What is shown of a line: text without an escape character is shown as it is, and an escape
/// character with a bracket hides all up to the next letter, and that too; what follows is read
/// in the same way.
pub proof fn law_control_sequences_are_hidden(
    a: Seq<char>,
    code: Seq<char>,
    letter: char,
    b: Seq<char>,
)
    requires
        forall|i: int| 0 <= i < a.len() ==> #[trigger] a[i] != '\u{1b}',
        forall|i: int|
            0 <= i < code.len() ==> !(('a' <= #[trigger] code[i] && code[i] <= 'z') || ('A'
                <= code[i] && code[i] <= 'Z')),
        ('a' <= letter && letter <= 'z') || ('A' <= letter && letter <= 'Z'),
    ensures
        without_ansi(a) == a,
        without_ansi(a + (seq!['\u{1b}', '['] + code + seq![letter] + b)) == a + without_ansi(b),
{
    lemma_plain_start(a, Seq::empty());
    assert(a + Seq::<char>::empty() == a);
    assert(without_ansi(Seq::<char>::empty()) == Seq::<char>::empty());
    let t = seq!['\u{1b}', '['] + code + seq![letter] + b;
    lemma_plain_start(a, t);
    let e = 2 + code.len() as int;
    assert(t[0] == '\u{1b}' && t[1] == '[' && t[e] == letter);
    assert forall|j: int| 2 <= j < e implies !is_letter(#[trigger] t[j]) by {
        assert(t[j] == code[j - 2]);
    }
    lemma_end_at(t, 2, e);
    lemma_shown_shift(t, e + 1, e + 1);
    assert(t.skip(e + 1) == b);
}

// ---------------------------------------------------------------------------
// Backups and settings
// ---------------------------------------------------------------------------

proof fn lemma_backups(names: Seq<Seq<char>>, i: int)
    requires
        0 <= i <= names.len(),
    ensures
        forall|j: int|
            0 <= j < backups_from(names, i).len() ==> starts(
                #[trigger] backups_from(names, i)[j],
                "before-switch-"@,
            ) && ends(backups_from(names, i)[j], ".json"@) && names.contains(
                backups_from(names, i)[j],
            ),
        backups_from(names, i).len() == names.skip(i).filter(
            |n: Seq<char>| starts(n, "before-switch-"@) && ends(n, ".json"@),
        ).len(),
    decreases names.len() - i,
{
    let kept = |n: Seq<char>| starts(n, "before-switch-"@) && ends(n, ".json"@);
    let rest = names.skip(i);
    reveal(Seq::filter);
    if i < names.len() {
        lemma_backups(names, i + 1);
        let all = backups_from(names, i);
        let more = backups_from(names, i + 1);
        assert(rest == seq![names[i]] + names.skip(i + 1));
        Seq::filter_distributes_over_add(seq![names[i]], names.skip(i + 1), kept);
        assert(seq![names[i]].drop_last() == Seq::<Seq<char>>::empty());
        assert(Seq::<Seq<char>>::empty().filter(kept).len() == 0);
        assert forall|j: int| 0 <= j < all.len() implies starts(#[trigger] all[j], "before-switch-"@)
            && ends(all[j], ".json"@) && names.contains(all[j]) by {
            if all.len() == more.len() {
                assert(all[j] == more[j]);
            } else if j > 0 {
                assert(all[j] == more[j - 1]);
            } else {
                assert(all[0] == names[i]);
            }
        }
    } else {
        assert(rest.len() == 0);
    }
}

/// Of the backups all but five are removed, those whose names come first, and nothing that is no
/// backup.
pub proof fn law_the_last_backups_stay(names: Seq<Seq<char>>, j: int)
    ensures
        ({
            let count = names.filter(
                |n: Seq<char>| starts(n, "before-switch-"@) && ends(n, ".json"@),
            ).len();
            let stale = stale_of(names);
            &&& stale.len() == (if count > 5 {
                count - 5
            } else {
                0
            })
            &&& 0 <= j < stale.len() ==> starts(stale[j], "before-switch-"@) && ends(
                stale[j],
                ".json"@,
            ) && names.contains(stale[j])
        }),
{
    broadcast use vstd::seq_lib::group_to_multiset_ensures;

    lemma_backups(names, 0);
    assert(names.skip(0) == names);
    let found = backups_from(names, 0);
    law_sorted_texts(found);
    let sorted = ascending(found);
    assert(sorted.len() == found.len()) by {
        assert(sorted.to_multiset().len() == found.to_multiset().len());
    }
    if 0 <= j < stale_of(names).len() {
        assert(stale_of(names)[j] == sorted[j]);
        assert(sorted.contains(sorted[j]));
        assert(sorted.to_multiset().count(sorted[j]) > 0);
        assert(found.contains(sorted[j]));
        let m = choose|m: int| 0 <= m < found.len() && found[m] == sorted[j];
        assert(starts(found[m], "before-switch-"@));
    }
}

/// Settings that are asked for are completed: an empty password is that of the current settings
/// for the same mode, host and user; an embedded storage without a directory is kept with the
/// data of the desktop; days that are out of range become a week; all else is as asked.
pub proof fn law_settings_are_completed(
    asked: ConfigModel,
    current: ConfigModel,
    data_dir: Seq<char>,
    windows: bool,
)
    ensures
        ({
            let out = completed_config(asked, current, data_dir, windows);
            let known = asked.password.len() == 0 && current.mode == asked.mode && current.host
                == asked.host && current.user == asked.user;
            let embedded = asked.mode == "sqlite_embedded"@ || asked.mode == "seekdb_embedded"@;
            let blank = trimmed(asked.path).len() == 0;
            &&& out.password == (if known {
                current.password
            } else {
                asked.password
            })
            &&& !(embedded && blank) ==> out.path == asked.path
            &&& asked.mode == "sqlite_embedded"@ && blank ==> out.path == data_dir
            &&& asked.mode == "seekdb_embedded"@ && blank ==> out.path == joined_path(
                windows,
                data_dir,
                "seekdb"@,
            )
            &&& 1 <= asked.runtime_log_retention_days <= 3650 ==> out.runtime_log_retention_days
                == asked.runtime_log_retention_days
            &&& !(1 <= asked.runtime_log_retention_days <= 3650) ==> out.runtime_log_retention_days
                == 7
            &&& !embedded && trimmed(asked.database).len() > 0 ==> out.database == asked.database
            &&& trimmed(asked.database).len() == 0 ==> out.database == "agentseek_desktop"@
            &&& out.host == asked.host && out.port == asked.port && out.tenant == asked.tenant
                && out.user == asked.user && out.mode == asked.mode
        }),
{
    reveal_strlit("sqlite_embedded");
    reveal_strlit("seekdb_embedded");
    assert("sqlite_embedded"@[1] != "seekdb_embedded"@[1]);
}

} // verus!
