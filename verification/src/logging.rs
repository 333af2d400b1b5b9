//! Logs: how long entries may be and how long they stay, and how the output of an instance
//! becomes entries.

use crate::instance::{join_path, joined_path, last_lines, last_lines_of};
use crate::models::{
    AppStore, DELETED_INSTANCE_LOG_RETENTION_DAYS, InstanceModel, InstanceRecord,
    LOG_CLEANUP_BATCH_SIZE, LogEntry, LogModel, MAX_LOG_ENTRIES, MAX_LOG_TEXT_BYTES,
    RUNTIME_LOG_SPOOL_DIRECTORY, SECONDS_PER_DAY, StoreModel, instances_view, logs_view,
};
use crate::rewrite::lemma_chunks_split;
use crate::text::{
    byte_len, bytes, char_byte_len, char_is_alnum, char_is_space, chars_of, chunks, concat2,
    concat4, concat5, contains, cut, decimal, decimal_of, ends, ends_with, find, holds, index_of,
    is_alnum, is_space, joined, lemma_bytes_push, opt_str, opt_view, parse_up_to, parsed, rcut,
    rsplit_once, same, skip, split_inclusive, split_once, split_whitespace, starts, starts_with,
    strip_set, strip_set_end, take, texts, trim, trim_chars, trim_end_chars, trim_start, trimmed,
    trimmed_start, unicode_lower, words,
};
use vstd::prelude::*;
use vstd::string::*;

verus! {

// ---------------------------------------------------------------------------
// Long texts
// ---------------------------------------------------------------------------

/// How many characters from the start of a text, `i` of which are known to fit, take at most
/// `max` bytes.
pub open spec fn fitting_from(s: Seq<char>, max: int, i: int) -> int
    decreases s.len() - i,
{
    if 0 <= i < s.len() && bytes(s.take(i + 1)) <= max {
        fitting_from(s, max, i + 1)
    } else {
        i
    }
}

/// A text for the log: one that is too long is cut behind the last character that fits whole,
/// and the cut is marked.
pub open spec fn log_text(s: Seq<char>) -> Seq<char> {
    if bytes(s) <= MAX_LOG_TEXT_BYTES {
        s
    } else {
        s.take(fitting_from(s, MAX_LOG_TEXT_BYTES as int, 0)) + "\n...[log content truncated]"@
    }
}

pub fn truncate_log_text(value: String) -> (r: String)
    ensures
        r@ == log_text(value@),
{
    if byte_len(value.as_str()) <= MAX_LOG_TEXT_BYTES {
        return value;
    }
    let v = chars_of(value.as_str());
    let mut used: usize = 0;
    let mut i: usize = 0;
    assert(v@.take(0) == Seq::<char>::empty());
    while i < v.len() && used + char_byte_len(v[i]) <= MAX_LOG_TEXT_BYTES
        invariant
            i <= v@.len(),
            used == bytes(v@.take(i as int)),
            used <= MAX_LOG_TEXT_BYTES,
            fitting_from(v@, MAX_LOG_TEXT_BYTES as int, 0) == fitting_from(
                v@,
                MAX_LOG_TEXT_BYTES as int,
                i as int,
            ),
        decreases v@.len() - i,
    {
        proof {
            assert(v@.take(i + 1) == v@.take(i as int).push(v@[i as int]));
            lemma_bytes_push(v@.take(i as int), v@[i as int]);
        }
        used = used + char_byte_len(v[i]);
        i = i + 1;
    }
    proof {
        if i < v@.len() {
            assert(v@.take(i + 1) == v@.take(i as int).push(v@[i as int]));
            lemma_bytes_push(v@.take(i as int), v@[i as int]);
        }
    }
    concat2(take(value.as_str(), i), "\n...[log content truncated]")
}

proof fn lemma_fitting(s: Seq<char>, max: int, i: int)
    requires
        0 <= i <= s.len(),
        bytes(s.take(i)) <= max,
    ensures
        i <= fitting_from(s, max, i) <= s.len(),
        bytes(s.take(fitting_from(s, max, i))) <= max,
    decreases s.len() - i,
{
    if i < s.len() && bytes(s.take(i + 1)) <= max {
        lemma_fitting(s, max, i + 1);
    }
}

pub proof fn lemma_bytes_add(a: Seq<char>, b: Seq<char>)
    ensures
        bytes(a + b) == bytes(a) + bytes(b),
    decreases b.len(),
{
    if b.len() == 0 {
        assert(a + b == a);
    } else {
        lemma_bytes_add(a, b.drop_last());
        assert(a + b == (a + b.drop_last()).push(b.last()));
        lemma_bytes_push(a + b.drop_last(), b.last());
        lemma_bytes_push(b.drop_last(), b.last());
        assert(b.drop_last().push(b.last()) == b);
    }
}

/// A text for the log takes at most the limit and the mark of a cut.
pub proof fn law_log_texts_are_bounded(s: Seq<char>)
    ensures
        bytes(log_text(s)) <= MAX_LOG_TEXT_BYTES + bytes("\n...[log content truncated]"@),
{
    if bytes(s) > MAX_LOG_TEXT_BYTES {
        assert(s.take(0) == Seq::<char>::empty());
        lemma_fitting(s, MAX_LOG_TEXT_BYTES as int, 0);
        lemma_bytes_add(
            s.take(fitting_from(s, MAX_LOG_TEXT_BYTES as int, 0)),
            "\n...[log content truncated]"@,
        );
    }
}

// ---------------------------------------------------------------------------
// Retention
// ---------------------------------------------------------------------------

/// The time so many days before `now`, or zero.
pub open spec fn days_before(now: u64, days: int) -> int {
    let span = days * SECONDS_PER_DAY;
    if now >= span {
        now - span
    } else {
        0
    }
}

/// Whether an instance with the given id is there.
pub open spec fn is_active(instances: Seq<InstanceModel>, id: Seq<char>) -> bool {
    exists|i: int| 0 <= i < instances.len() && (#[trigger] instances[i]).id == id
}

/// Whether an entry belongs to an instance that is no longer there.
pub open spec fn is_orphan(log: LogModel, instances: Seq<InstanceModel>) -> bool {
    log.instance_id is Some && !is_active(instances, log.instance_id->0)
}

/// Whether an entry is recent enough to stay: those of deleted instances and those that
/// instances print expire, all others stay.
pub open spec fn is_retained(
    log: LogModel,
    instances: Seq<InstanceModel>,
    retention_days: u32,
    now: u64,
) -> bool {
    let days = if retention_days >= 1 {
        retention_days as int
    } else {
        1
    };
    if is_orphan(log, instances) && log.created_at < days_before(
        now,
        DELETED_INSTANCE_LOG_RETENTION_DAYS as int,
    ) {
        false
    } else if log.category == "runtime"@ {
        log.created_at >= days_before(now, days)
    } else {
        true
    }
}

/// Whether an entry may go when there are too many.
pub open spec fn is_expendable(log: LogModel, instances: Seq<InstanceModel>) -> bool {
    log.category == "runtime"@ || is_orphan(log, instances)
}

/// The entries that are recent enough, from `i` on.
pub open spec fn retained_from(
    logs: Seq<LogModel>,
    instances: Seq<InstanceModel>,
    days: u32,
    now: u64,
    i: int,
) -> Seq<LogModel>
    decreases logs.len() - i,
{
    if i < 0 || i >= logs.len() {
        Seq::empty()
    } else if is_retained(logs[i], instances, days, now) {
        seq![logs[i]] + retained_from(logs, instances, days, now, i + 1)
    } else {
        retained_from(logs, instances, days, now, i + 1)
    }
}

/// The ids of the entries that are not recent enough, from `i` on.
pub open spec fn expired_from(
    logs: Seq<LogModel>,
    instances: Seq<InstanceModel>,
    days: u32,
    now: u64,
    i: int,
) -> Seq<Seq<char>>
    decreases logs.len() - i,
{
    if i < 0 || i >= logs.len() {
        Seq::empty()
    } else if !is_retained(logs[i], instances, days, now) {
        seq![logs[i].id] + expired_from(logs, instances, days, now, i + 1)
    } else {
        expired_from(logs, instances, days, now, i + 1)
    }
}

/// The ids of the first `count` entries from `i` on that may go.
pub open spec fn expendable_from(
    logs: Seq<LogModel>,
    instances: Seq<InstanceModel>,
    count: int,
    i: int,
) -> Seq<Seq<char>>
    decreases logs.len() - i,
{
    if count <= 0 || i < 0 || i >= logs.len() {
        Seq::empty()
    } else if is_expendable(logs[i], instances) {
        seq![logs[i].id] + expendable_from(logs, instances, count - 1, i + 1)
    } else {
        expendable_from(logs, instances, count, i + 1)
    }
}

/// The entries from `i` on whose id is not among the given ones.
pub open spec fn unlisted_from(logs: Seq<LogModel>, ids: Seq<Seq<char>>, i: int) -> Seq<LogModel>
    decreases logs.len() - i,
{
    if i < 0 || i >= logs.len() {
        Seq::empty()
    } else if !ids.contains(logs[i].id) {
        seq![logs[i]] + unlisted_from(logs, ids, i + 1)
    } else {
        unlisted_from(logs, ids, i + 1)
    }
}

/// The ids of the entries from `i` on that are among the given ones.
pub open spec fn listed_from(logs: Seq<LogModel>, ids: Seq<Seq<char>>, i: int) -> Seq<Seq<char>>
    decreases logs.len() - i,
{
    if i < 0 || i >= logs.len() {
        Seq::empty()
    } else if ids.contains(logs[i].id) {
        seq![logs[i].id] + listed_from(logs, ids, i + 1)
    } else {
        listed_from(logs, ids, i + 1)
    }
}

/// The entries that stay and the ids of those that go: first those that expired; then, where
/// too many are left, the oldest that may go, with room for a batch more.
pub open spec fn pruned(
    logs: Seq<LogModel>,
    instances: Seq<InstanceModel>,
    days: u32,
    now: u64,
) -> (Seq<LogModel>, Seq<Seq<char>>) {
    let recent = retained_from(logs, instances, days, now, 0);
    let expired = expired_from(logs, instances, days, now, 0);
    if recent.len() > MAX_LOG_ENTRIES {
        let surplus = expendable_from(
            recent,
            instances,
            recent.len() - MAX_LOG_ENTRIES + LOG_CLEANUP_BATCH_SIZE,
            0,
        );
        (unlisted_from(recent, surplus, 0), expired + listed_from(recent, surplus, 0))
    } else {
        (recent, expired)
    }
}

fn instance_is_active(instances: &Vec<InstanceRecord>, id: &String) -> (r: bool)
    ensures
        r == is_active(instances_view(instances@), id@),
{
    let ghost is = instances_view(instances@);
    let mut i: usize = 0;
    while i < instances.len()
        invariant
            i <= instances@.len(),
            is == instances_view(instances@),
            forall|j: int| 0 <= j < i ==> (#[trigger] is[j]).id != id@,
        decreases instances@.len() - i,
    {
        assert(is[i as int] == instances@[i as int]@);
        if instances[i].id == *id {
            return true;
        }
        i = i + 1;
    }
    false
}

fn log_is_orphan(log: &LogEntry, instances: &Vec<InstanceRecord>) -> (r: bool)
    ensures
        r == is_orphan(log@, instances_view(instances@)),
{
    match log.instance_id.as_ref() {
        Some(id) => !instance_is_active(instances, id),
        None => false,
    }
}

fn cutoff(now: u64, days: u32) -> (r: u64)
    ensures
        r == days_before(now, days as int),
{
    let span: u64 = (days as u64) * SECONDS_PER_DAY;
    now.saturating_sub(span)
}

fn log_is_retained(
    log: &LogEntry,
    instances: &Vec<InstanceRecord>,
    retention_days: u32,
    now: u64,
) -> (r: bool)
    ensures
        r == is_retained(log@, instances_view(instances@), retention_days, now),
{
    let days: u32 = if retention_days >= 1 {
        retention_days
    } else {
        1
    };
    if log_is_orphan(log, instances) && log.created_at < cutoff(
        now,
        DELETED_INSTANCE_LOG_RETENTION_DAYS,
    ) {
        false
    } else if same(log.category.as_str(), "runtime") {
        log.created_at >= cutoff(now, days)
    } else {
        true
    }
}

fn id_is_listed(ids: &Vec<String>, id: &String) -> (r: bool)
    ensures
        r == texts(ids@).contains(id@),
{
    let ghost ts = texts(ids@);
    let mut i: usize = 0;
    while i < ids.len()
        invariant
            i <= ids@.len(),
            ts == texts(ids@),
            forall|j: int| 0 <= j < i ==> ts[j] != id@,
        decreases ids@.len() - i,
    {
        assert(ts[i as int] == ids@[i as int]@);
        if ids[i] == *id {
            return true;
        }
        i = i + 1;
    }
    false
}

/// Drops the entries that expired and, where too many are left, the oldest that may go. Gives
/// the ids of those that went.
pub fn prune_logs(data: &mut AppStore, runtime_retention_days: u32, now: u64) -> (removed: Vec<
    String,
>)
    ensures
        ({
            let before = old(data)@;
            let out = pruned(before.logs, before.instances, runtime_retention_days, now);
            &&& final(data)@ == (StoreModel { logs: out.0, ..before })
            &&& texts(removed@) == out.1
        }),
{
    let ghost logs = logs_view(data.logs@);
    let ghost instances = instances_view(data.instances@);
    let mut removed: Vec<String> = Vec::new();
    let mut recent: Vec<LogEntry> = Vec::new();
    let mut i: usize = 0;
    while i < data.logs.len()
        invariant
            i <= data.logs@.len(),
            logs == logs_view(data.logs@),
            instances == instances_view(data.instances@),
            logs_view(recent@) + retained_from(
                logs,
                instances,
                runtime_retention_days,
                now,
                i as int,
            ) == retained_from(logs, instances, runtime_retention_days, now, 0),
            texts(removed@) + expired_from(
                logs,
                instances,
                runtime_retention_days,
                now,
                i as int,
            ) == expired_from(logs, instances, runtime_retention_days, now, 0),
        decreases data.logs@.len() - i,
    {
        assert(logs[i as int] == data.logs@[i as int]@);
        if log_is_retained(&data.logs[i], &data.instances, runtime_retention_days, now) {
            let ghost before = logs_view(recent@);
            let ghost rest = retained_from(logs, instances, runtime_retention_days, now, i + 1);
            let copy = data.logs[i].duplicate();
            let ghost model = copy@;
            recent.push(copy);
            assert(logs_view(recent@) == before.push(model));
            assert(before.push(model) + rest == before + (seq![model] + rest));
        } else {
            let ghost before = texts(removed@);
            let ghost rest = expired_from(logs, instances, runtime_retention_days, now, i + 1);
            let id = data.logs[i].id.clone();
            let ghost model = id@;
            removed.push(id);
            assert(texts(removed@) == before.push(model));
            assert(before.push(model) + rest == before + (seq![model] + rest));
        }
        i = i + 1;
    }
    assert(logs_view(recent@) + Seq::<LogModel>::empty() == logs_view(recent@));
    assert(texts(removed@) + Seq::<Seq<char>>::empty() == texts(removed@));
    let ghost kept = logs_view(recent@);
    let ghost expired = texts(removed@);
    if recent.len() > MAX_LOG_ENTRIES {
        let excess: usize = recent.len() - MAX_LOG_ENTRIES;
        let ghost wanted = excess + LOG_CLEANUP_BATCH_SIZE;
        let ghost surplus = expendable_from(kept, instances, wanted, 0);
        let mut ids: Vec<String> = Vec::new();
        let mut k: usize = 0;
        while k < recent.len() && (ids.len() < excess || ids.len() - excess
            < LOG_CLEANUP_BATCH_SIZE)
            invariant
                k <= recent@.len(),
                ids@.len() <= wanted,
                wanted == excess + LOG_CLEANUP_BATCH_SIZE,
                kept == logs_view(recent@),
                instances == instances_view(data.instances@),
                texts(ids@) + expendable_from(
                    kept,
                    instances,
                    wanted - ids@.len(),
                    k as int,
                ) == surplus,
            decreases recent@.len() - k,
        {
            assert(kept[k as int] == recent@[k as int]@);
            if same(recent[k].category.as_str(), "runtime") || log_is_orphan(
                &recent[k],
                &data.instances,
            ) {
                let ghost before = texts(ids@);
                let ghost rest = expendable_from(
                    kept,
                    instances,
                    wanted - ids@.len() - 1,
                    k + 1,
                );
                let id = recent[k].id.clone();
                let ghost model = id@;
                ids.push(id);
                assert(texts(ids@) == before.push(model));
                assert(before.push(model) + rest == before + (seq![model] + rest));
            }
            k = k + 1;
        }
        assert(texts(ids@) + Seq::<Seq<char>>::empty() == texts(ids@));
        assert(texts(ids@) == surplus);
        let mut rest_logs: Vec<LogEntry> = Vec::new();
        let mut m: usize = 0;
        assert(expired + listed_from(kept, surplus, 0) == texts(removed@) + listed_from(
            kept,
            surplus,
            0,
        ));
        while m < recent.len()
            invariant
                m <= recent@.len(),
                kept == logs_view(recent@),
                texts(ids@) == surplus,
                logs_view(rest_logs@) + unlisted_from(kept, surplus, m as int) == unlisted_from(
                    kept,
                    surplus,
                    0,
                ),
                texts(removed@) + listed_from(kept, surplus, m as int) == expired + listed_from(
                    kept,
                    surplus,
                    0,
                ),
            decreases recent@.len() - m,
        {
            assert(kept[m as int] == recent@[m as int]@);
            if id_is_listed(&ids, &recent[m].id) {
                let ghost before = texts(removed@);
                let ghost rest = listed_from(kept, surplus, m + 1);
                let id = recent[m].id.clone();
                let ghost model = id@;
                removed.push(id);
                assert(texts(removed@) == before.push(model));
                assert(before.push(model) + rest == before + (seq![model] + rest));
            } else {
                let ghost before = logs_view(rest_logs@);
                let ghost rest = unlisted_from(kept, surplus, m + 1);
                let copy = recent[m].duplicate();
                let ghost model = copy@;
                rest_logs.push(copy);
                assert(logs_view(rest_logs@) == before.push(model));
                assert(before.push(model) + rest == before + (seq![model] + rest));
            }
            m = m + 1;
        }
        assert(logs_view(rest_logs@) + Seq::<LogModel>::empty() == logs_view(rest_logs@));
        assert(texts(removed@) + Seq::<Seq<char>>::empty() == texts(removed@));
        data.logs = rest_logs;
    } else {
        data.logs = recent;
    }
    removed
}

proof fn lemma_retained_keeps(
    logs: Seq<LogModel>,
    instances: Seq<InstanceModel>,
    days: u32,
    now: u64,
    i: int,
    k: int,
)
    requires
        0 <= i <= k < logs.len(),
        is_retained(logs[k], instances, days, now),
    ensures
        retained_from(logs, instances, days, now, i).contains(logs[k]),
    decreases logs.len() - i,
{
    let all = retained_from(logs, instances, days, now, i);
    let rest = retained_from(logs, instances, days, now, i + 1);
    if i == k {
        assert(all[0] == logs[k]);
    } else {
        lemma_retained_keeps(logs, instances, days, now, i + 1, k);
        let j = choose|j: int| 0 <= j < rest.len() && rest[j] == logs[k];
        if is_retained(logs[i], instances, days, now) {
            assert(all[j + 1] == logs[k]);
        } else {
            assert(all[j] == logs[k]);
        }
    }
}

proof fn lemma_unlisted_keeps(logs: Seq<LogModel>, ids: Seq<Seq<char>>, i: int, k: int)
    requires
        0 <= i <= k < logs.len(),
        !ids.contains(logs[k].id),
    ensures
        unlisted_from(logs, ids, i).contains(logs[k]),
    decreases logs.len() - i,
{
    let all = unlisted_from(logs, ids, i);
    let rest = unlisted_from(logs, ids, i + 1);
    if i == k {
        assert(all[0] == logs[k]);
    } else {
        lemma_unlisted_keeps(logs, ids, i + 1, k);
        let j = choose|j: int| 0 <= j < rest.len() && rest[j] == logs[k];
        if !ids.contains(logs[i].id) {
            assert(all[j + 1] == logs[k]);
        } else {
            assert(all[j] == logs[k]);
        }
    }
}

proof fn lemma_expendable_ids(
    logs: Seq<LogModel>,
    instances: Seq<InstanceModel>,
    count: int,
    i: int,
    id: Seq<char>,
)
    requires
        0 <= i,
        expendable_from(logs, instances, count, i).contains(id),
    ensures
        exists|k: int|
            i <= k < logs.len() && (#[trigger] logs[k]).id == id && is_expendable(
                logs[k],
                instances,
            ),
    decreases logs.len() - i,
{
    if count > 0 && i < logs.len() {
        let all = expendable_from(logs, instances, count, i);
        let j = choose|j: int| 0 <= j < all.len() && all[j] == id;
        if is_expendable(logs[i], instances) {
            let rest = expendable_from(logs, instances, count - 1, i + 1);
            if j == 0 {
                assert(logs[i].id == id);
            } else {
                assert(rest[j - 1] == id);
                lemma_expendable_ids(logs, instances, count - 1, i + 1, id);
            }
        } else {
            lemma_expendable_ids(logs, instances, count, i + 1, id);
        }
    }
}

proof fn lemma_retained_subset(
    logs: Seq<LogModel>,
    instances: Seq<InstanceModel>,
    days: u32,
    now: u64,
    i: int,
    j: int,
)
    requires
        0 <= i,
        0 <= j < retained_from(logs, instances, days, now, i).len(),
    ensures
        exists|k: int|
            i <= k < logs.len() && #[trigger] logs[k] == retained_from(
                logs,
                instances,
                days,
                now,
                i,
            )[j],
    decreases logs.len() - i,
{
    if i < logs.len() {
        let all = retained_from(logs, instances, days, now, i);
        let rest = retained_from(logs, instances, days, now, i + 1);
        if is_retained(logs[i], instances, days, now) {
            if j == 0 {
                assert(logs[i] == all[j]);
            } else {
                lemma_retained_subset(logs, instances, days, now, i + 1, j - 1);
                let k = choose|k: int| i + 1 <= k < logs.len() && #[trigger] logs[k] == rest[j - 1];
                assert(logs[k] == all[j]);
            }
        } else {
            lemma_retained_subset(logs, instances, days, now, i + 1, j);
            let k = choose|k: int| i + 1 <= k < logs.len() && #[trigger] logs[k] == rest[j];
            assert(logs[k] == all[j]);
        }
    }
}

/// What the desktop itself logged for an instance that is still there, or for none, is never
/// dropped, however old it is and however many entries there are, where no two entries share
/// an id.
pub proof fn law_lifecycle_logs_stay(
    logs: Seq<LogModel>,
    instances: Seq<InstanceModel>,
    days: u32,
    now: u64,
    k: int,
)
    requires
        0 <= k < logs.len(),
        !is_expendable(logs[k], instances),
        forall|i: int, j: int|
            0 <= i < logs.len() && 0 <= j < logs.len() && (#[trigger] logs[i]).id == (
            #[trigger] logs[j]).id ==> i == j,
    ensures
        pruned(logs, instances, days, now).0.contains(logs[k]),
{
    lemma_retained_keeps(logs, instances, days, now, 0, k);
    let recent = retained_from(logs, instances, days, now, 0);
    if recent.len() > MAX_LOG_ENTRIES {
        let count = recent.len() - MAX_LOG_ENTRIES + LOG_CLEANUP_BATCH_SIZE;
        let surplus = expendable_from(recent, instances, count, 0);
        let m = choose|m: int| 0 <= m < recent.len() && recent[m] == logs[k];
        if surplus.contains(recent[m].id) {
            lemma_expendable_ids(recent, instances, count, 0, recent[m].id);
            let j = choose|j: int|
                0 <= j < recent.len() && (#[trigger] recent[j]).id == recent[m].id && is_expendable(
                    recent[j],
                    instances,
                );
            lemma_retained_subset(logs, instances, days, now, 0, j);
            let n = choose|n: int| 0 <= n < logs.len() && #[trigger] logs[n] == recent[j];
            assert(logs[n].id == logs[k].id);
            assert(false);
        }
        lemma_unlisted_keeps(recent, surplus, 0, m);
    }
}

/// Whether a number of days is one for which output may be kept.
pub fn check_retention_days(days: u32) -> (r: Result<(), String>)
    ensures
        r is Ok <==> 1 <= days <= 3650,
        r matches Err(message) ==> message@
            == "Runtime log retention days must be between 1 and 3650"@,
{
    if 1 <= days && days <= 3650 {
        Ok(())
    } else {
        Err("Runtime log retention days must be between 1 and 3650".to_owned())
    }
}

// ---------------------------------------------------------------------------
// Levels
// ---------------------------------------------------------------------------

/// The level of a line that an instance printed, given in lower case.
pub open spec fn level_of(lowered: Seq<char>) -> Seq<char> {
    if holds(lowered, "cannot connect to the docker daemon"@) || holds(
        lowered,
        "is the docker daemon running"@,
    ) || holds(lowered, "traceback"@) || holds(lowered, "exception"@) || holds(lowered, "error"@)
        || holds(lowered, "failed"@) || holds(lowered, "fatal"@) || holds(lowered, "panic"@) {
        "error"@
    } else if holds(lowered, "warning"@) || holds(lowered, "warn"@) {
        "warning"@
    } else {
        "info"@
    }
}

/// Finds the level of a line, given in lower case.
pub fn stream_level(lowered: &str) -> (r: &'static str)
    ensures
        r@ == level_of(lowered@),
{
    if contains(lowered, "cannot connect to the docker daemon") || contains(
        lowered,
        "is the docker daemon running",
    ) || contains(lowered, "traceback") || contains(lowered, "exception") || contains(
        lowered,
        "error",
    ) || contains(lowered, "failed") || contains(lowered, "fatal") || contains(lowered, "panic") {
        "error"
    } else if contains(lowered, "warning") || contains(lowered, "warn") {
        "warning"
    } else {
        "info"
    }
}

/// The level of a line that an instance printed, by the words in it and not by the stream.
pub fn runtime_stream_level(line: &str) -> (r: &'static str)
    ensures
        r@ == level_of(unicode_lower(line@)),
{
    let lowered = line.to_lowercase();
    stream_level(lowered.as_str())
}

// ---------------------------------------------------------------------------
// Spool files
// ---------------------------------------------------------------------------

/// A character that is safe in a file name, or an underscore in its place.
pub open spec fn safe_char(c: char) -> char {
    if is_alnum(c) || c == '-' || c == '_' {
        c
    } else {
        '_'
    }
}

/// An id as part of a file name.
pub open spec fn safe_id(id: Seq<char>) -> Seq<char> {
    id.map_values(|c: char| safe_char(c))
}

fn to_safe_id(id: &str) -> (r: String)
    ensures
        r@ == safe_id(id@),
{
    let v = chars_of(id);
    let mut r = String::new();
    let mut i: usize = 0;
    while i < v.len()
        invariant
            i <= v@.len(),
            r@ == safe_id(v@).take(i as int),
        decreases v@.len() - i,
    {
        if char_is_alnum(v[i]) || v[i] == '-' || v[i] == '_' {
            r.push(v[i]);
        } else {
            r.push('_');
        }
        i = i + 1;
    }
    assert(safe_id(v@).take(v@.len() as int) == safe_id(v@));
    r
}

/// The files into which an instance prints, and in which is noted how far they were read.
pub fn runtime_log_spool_paths(data_dir: &str, instance_id: &str, windows: bool) -> (r: (
    String,
    String,
))
    ensures
        ({
            let dir = joined_path(windows, data_dir@, RUNTIME_LOG_SPOOL_DIRECTORY@);
            &&& r.0@ == joined_path(windows, dir, safe_id(instance_id@) + ".log"@)
            &&& r.1@ == joined_path(windows, dir, safe_id(instance_id@) + ".cursor"@)
        }),
{
    let id = to_safe_id(instance_id);
    let dir = join_path(windows, data_dir, RUNTIME_LOG_SPOOL_DIRECTORY);
    (
        join_path(windows, dir.as_str(), concat2(id.as_str(), ".log").as_str()),
        join_path(windows, dir.as_str(), concat2(id.as_str(), ".cursor").as_str()),
    )
}

/// Whatever the id of an instance, the names of its files hold no separator and no dot before
/// the extension, so that they stay in the directory of spool files.
pub proof fn law_spool_files_stay_in_their_directory(id: Seq<char>, i: int)
    requires
        0 <= i < id.len(),
    ensures
        safe_id(id).len() == id.len(),
        safe_id(id)[i] != '/',
        safe_id(id)[i] != '\\',
        safe_id(id)[i] != '.',
{
}

/// How far a spool file was read, and whether a traceback is being passed over there.
#[derive(Clone, Copy, Debug, PartialEq, Eq, Structural)]
pub struct RuntimeLogCursor {
    pub offset: u64,
    pub suppress_traceback: bool,
}

/// The mark in a file that holds only a number, or anything else, which counts as zero.
pub fn legacy_log_cursor(content: &str) -> (r: RuntimeLogCursor)
    ensures
        r.offset == (match parsed(trimmed(content@), u64::MAX as int) {
            Some(n) => n,
            None => 0,
        }),
        !r.suppress_traceback,
{
    let offset: u64 = match parse_up_to(trim(content), u64::MAX) {
        Some(n) => n,
        None => 0,
    };
    RuntimeLogCursor { offset, suppress_traceback: false }
}

/// Where to go on reading: at the mark, or at the start if the file is shorter than that.
pub fn spool_start(cursor: u64, length: u64) -> (r: u64)
    ensures
        r == (if cursor <= length {
            cursor
        } else {
            0
        }),
{
    if cursor <= length {
        cursor
    } else {
        0
    }
}

/// The lines from `i` on, each without its end and with the place behind it, counted in bytes
/// from `position`. A last line that is not complete counts only if that is asked for.
pub open spec fn records_from(
    ls: Seq<Seq<char>>,
    i: int,
    position: int,
    include_partial: bool,
) -> Seq<(Seq<char>, int)>
    decreases ls.len() - i,
{
    if i < 0 || i >= ls.len() || (!ends(ls[i], "\n"@) && !include_partial) {
        Seq::empty()
    } else {
        let next = if position + bytes(ls[i]) <= u64::MAX {
            position + bytes(ls[i])
        } else {
            u64::MAX as int
        };
        seq![(strip_set_end(ls[i], "\r\n"@), next)] + records_from(
            ls,
            i + 1,
            next,
            include_partial,
        )
    }
}

/// What a list of records stands for.
pub open spec fn records_view(v: Seq<(String, u64)>) -> Seq<(Seq<char>, int)> {
    v.map_values(|p: (String, u64)| (p.0@, p.1 as int))
}

/// Cuts what a spool file holds behind `start` into records, each with the place to go on from
/// once it is taken over.
pub fn read_runtime_log_records(rest: &str, start: u64, include_partial: bool) -> (r: Vec<
    (String, u64),
>)
    ensures
        records_view(r@) == records_from(chunks(rest@), 0, start as int, include_partial),
{
    let ls = split_inclusive(rest);
    let ghost cs = chunks(rest@);
    let ghost whole = records_from(cs, 0, start as int, include_partial);
    let mut records: Vec<(String, u64)> = Vec::new();
    let mut position: u64 = start;
    let mut i: usize = 0;
    while i < ls.len()
        invariant
            i <= ls@.len(),
            texts(ls@) == cs,
            records_view(records@) + records_from(
                cs,
                i as int,
                position as int,
                include_partial,
            ) == whole,
        decreases ls@.len() - i,
    {
        assert(cs[i as int] == ls@[i as int]@);
        let line = ls[i].as_str();
        if !ends_with(line, "\n") && !include_partial {
            assert(records_view(records@) + Seq::<(Seq<char>, int)>::empty() == records_view(
                records@,
            ));
            return records;
        }
        position = position.saturating_add(byte_len(line) as u64);
        let ghost before = records_view(records@);
        let ghost rest_records = records_from(cs, i + 1, position as int, include_partial);
        let record = (trim_end_chars(line, "\r\n").to_owned(), position);
        let ghost model = (record.0@, record.1 as int);
        records.push(record);
        assert(records_view(records@) == before.push(model));
        assert(before.push(model) + rest_records == before + (seq![model] + rest_records));
        i = i + 1;
    }
    assert(records_view(records@) + Seq::<(Seq<char>, int)>::empty() == records_view(records@));
    records
}

// ---------------------------------------------------------------------------
// Colour codes
// ---------------------------------------------------------------------------

pub open spec fn is_letter(c: char) -> bool {
    ('a' <= c && c <= 'z') || ('A' <= c && c <= 'Z')
}

/// The place behind the control sequence whose parameters start at `i`: behind the letter
/// that ends it, or the end of the text.
pub open spec fn control_end(s: Seq<char>, i: int) -> int
    decreases s.len() - i,
{
    if i < 0 || i >= s.len() {
        i
    } else if is_letter(s[i]) {
        i + 1
    } else {
        control_end(s, i + 1)
    }
}

proof fn lemma_control_end(s: Seq<char>, i: int)
    requires
        0 <= i <= s.len(),
    ensures
        i <= control_end(s, i) <= s.len(),
    decreases s.len() - i,
{
    if i < s.len() && !is_letter(s[i]) {
        lemma_control_end(s, i + 1);
    }
}

/// What a text shows from `i` on: everything but control sequences.
pub open spec fn shown_from(s: Seq<char>, i: int) -> Seq<char>
    decreases s.len() - i,
    via shown_from_decreases
{
    if i < 0 || i >= s.len() {
        Seq::empty()
    } else if s[i] == '\u{1b}' && i + 1 < s.len() && s[i + 1] == '[' {
        shown_from(s, control_end(s, i + 2))
    } else {
        seq![s[i]] + shown_from(s, i + 1)
    }
}

#[via_fn]
proof fn shown_from_decreases(s: Seq<char>, i: int) {
    if 0 <= i && i + 2 <= s.len() {
        lemma_control_end(s, i + 2);
    }
}

/// A text without the control sequences of a terminal.
pub open spec fn without_ansi(s: Seq<char>) -> Seq<char> {
    shown_from(s, 0)
}

pub fn strip_ansi_codes(value: &str) -> (r: String)
    ensures
        r@ == without_ansi(value@),
{
    let v = chars_of(value);
    let n: usize = v.len();
    let mut out = String::new();
    let mut i: usize = 0;
    while i < n
        invariant
            i <= n,
            n == v@.len(),
            out@ + shown_from(v@, i as int) == without_ansi(v@),
        decreases n - i,
    {
        if v[i] == '\u{1b}' && i + 1 < n && v[i + 1] == '[' {
            let mut k: usize = i + 2;
            let ghost start = k as int;
            let mut open: bool = true;
            proof {
                lemma_control_end(v@, start);
            }
            while open && k < n
                invariant
                    start <= k <= n,
                    n == v@.len(),
                    open ==> control_end(v@, start) == control_end(v@, k as int),
                    !open ==> control_end(v@, start) == k,
                decreases n - k + (if open {
                    1int
                } else {
                    0int
                }),
            {
                if (v[k] >= 'a' && v[k] <= 'z') || (v[k] >= 'A' && v[k] <= 'Z') {
                    open = false;
                }
                k = k + 1;
            }
            i = k;
        } else {
            let ghost before = out@;
            let ghost rest = shown_from(v@, i + 1);
            out.push(v[i]);
            assert(before.push(v@[i as int]) + rest == before + (seq![v@[i as int]] + rest));
            i = i + 1;
        }
    }
    assert(out@ + Seq::<char>::empty() == out@);
    out
}

/// The last lines of a spool file, at most `max_lines`, without control sequences; nothing
/// where it could not be read.
pub fn read_runtime_log_tail(content: Option<&str>, max_lines: usize) -> (r: String)
    ensures
        r@ == (match opt_str(content) {
            Some(text) => joined(last_lines_of(without_ansi(text), max_lines as int), "\n"@),
            None => Seq::empty(),
        }),
{
    match content {
        Some(text) => {
            let clean = strip_ansi_codes(text);
            last_lines(clean.as_str(), max_lines)
        },
        None => String::new(),
    }
}

// ---------------------------------------------------------------------------
// Tracebacks
// ---------------------------------------------------------------------------

/// The word behind a field's name, without punctuation around it, if anything is left.
pub open spec fn field_value(value: Seq<char>, field: Seq<char>) -> Option<Seq<char>> {
    match find(value, field) {
        None => None,
        Some(k) => {
            let ws = words(value.skip(k + field.len()));
            if ws.len() > 0 && strip_set(ws[0], ",}'\""@).len() > 0 {
                Some(strip_set(ws[0], ",}'\""@))
            } else {
                None
            }
        },
    }
}

pub fn runtime_log_field(value: &str, field: &str) -> (r: Option<String>)
    ensures
        opt_view(r) == field_value(value@, field@),
{
    // The place behind the field is no further than this.
    let n: usize = value.unicode_len();
    match index_of(value, field) {
        None => None,
        Some(k) => {
            let ws = split_whitespace(skip(value, k + field.unicode_len()));
            if ws.len() == 0 {
                return None;
            }
            assert(texts(ws@)[0] == ws@[0]@);
            let word = trim_chars(ws[0].as_str(), ",}'\"");
            if word.is_empty() {
                None
            } else {
                Some(word.to_owned())
            }
        },
    }
}

/// The kind of an exception: what stands before the colon of its line, without the module.
pub open spec fn exception_kind(line: Seq<char>) -> Seq<char> {
    let full = match cut(line, ":"@) {
        Some(p) => p.0,
        None => line,
    };
    match rcut(full, "."@) {
        Some(q) => q.1,
        None => full,
    }
}

/// What is told of an exception by its line, given without control sequences; nothing where
/// the line is indented or names no exception.
pub open spec fn exception_summary(clean: Seq<char>) -> Option<Seq<char>> {
    let line = trimmed(clean);
    let kind = exception_kind(line);
    if clean.len() > 0 && is_space(clean[0]) {
        None
    } else if !ends(kind, "Error"@) && !ends(kind, "Exception"@) && kind != "KeyboardInterrupt"@ {
        None
    } else if kind == "TimeoutError"@ {
        Some("Failure reason: TimeoutError (request timeout)"@)
    } else {
        match cut(line, ":"@) {
            Some(p) => if trimmed(p.1).len() > 0 {
                Some("Failure reason: "@ + kind + ": "@ + trimmed(p.1))
            } else {
                Some("Failure reason: "@ + kind)
            },
            None => Some("Failure reason: "@ + kind),
        }
    }
}

pub fn runtime_exception_summary(value: &str) -> (r: Option<String>)
    ensures
        opt_view(r) == exception_summary(without_ansi(value@)),
{
    let clean = strip_ansi_codes(value);
    let clean = clean.as_str();
    if !clean.is_empty() && char_is_space(clean.get_char(0)) {
        return None;
    }
    let line = trim(clean);
    let full = match split_once(line, ":") {
        Some(p) => p.0,
        None => line,
    };
    let kind = match rsplit_once(full, ".") {
        Some(q) => q.1,
        None => full,
    };
    if !ends_with(kind, "Error") && !ends_with(kind, "Exception") && !same(
        kind,
        "KeyboardInterrupt",
    ) {
        return None;
    }
    if same(kind, "TimeoutError") {
        return Some("Failure reason: TimeoutError (request timeout)".to_owned());
    }
    if let Some(p) = split_once(line, ":") {
        let detail = trim(p.1);
        if !detail.is_empty() {
            return Some(concat4("Failure reason: ", kind, ": ", detail));
        }
    }
    Some(concat2("Failure reason: ", kind))
}

/// What is told of a failed tool call.
pub open spec fn failed_call(clean: Seq<char>) -> Seq<char> {
    let name = match field_value(clean, "name="@) {
        Some(n) => n,
        None => "unknown"@,
    };
    match field_value(clean, "elapsed_time="@) {
        Some(elapsed) => "Tool call failed: "@ + name + " ("@ + elapsed + ")"@,
        None => "Tool call failed: "@ + name,
    }
}

/// Whether a line, given in lower case, shows that a traceback is over.
pub open spec fn ends_traceback(lowered: Seq<char>) -> bool {
    holds(lowered, "tool.call.start"@) || holds(lowered, "loop.step"@) || holds(
        lowered,
        "session.run."@,
    ) || starts(trimmed_start(lowered), "info:"@)
}

/// What is logged of a line, and whether a traceback is passed over behind it: a failed tool
/// call is told in short and its traceback passed over, up to the exception or to a line that
/// shows that it is over. `clean` is the line without control sequences and `lowered` that in
/// lower case.
pub open spec fn compacted(
    value: Seq<char>,
    clean: Seq<char>,
    lowered: Seq<char>,
    suppress: bool,
) -> (Option<Seq<char>>, bool) {
    if holds(lowered, "tool.call.error"@) {
        (Some(failed_call(clean)), true)
    } else if !suppress {
        (Some(value), false)
    } else if holds(lowered, "traceback (most recent call last)"@) || trimmed(clean).len() == 0 {
        (None, true)
    } else if exception_summary(without_ansi(clean)) is Some {
        (exception_summary(without_ansi(clean)), false)
    } else if ends_traceback(lowered) {
        (Some(value), false)
    } else {
        (None, true)
    }
}

/// Decides what is logged of a line, given also without control sequences and that in lower
/// case.
pub fn compact_record(value: &str, clean: &str, lowered: &str, suppress_traceback: &mut bool) -> (r:
    Option<String>)
    ensures
        (opt_view(r), *final(suppress_traceback)) == compacted(
            value@,
            clean@,
            lowered@,
            *old(suppress_traceback),
        ),
{
    if contains(lowered, "tool.call.error") {
        *suppress_traceback = true;
        let name = match runtime_log_field(clean, "name=") {
            Some(n) => n,
            None => "unknown".to_owned(),
        };
        return match runtime_log_field(clean, "elapsed_time=") {
            Some(elapsed) => Some(
                concat5("Tool call failed: ", name.as_str(), " (", elapsed.as_str(), ")"),
            ),
            None => Some(concat2("Tool call failed: ", name.as_str())),
        };
    }
    if !*suppress_traceback {
        return Some(value.to_owned());
    }
    if contains(lowered, "traceback (most recent call last)") || trim(clean).is_empty() {
        return None;
    }
    if let Some(summary) = runtime_exception_summary(clean) {
        *suppress_traceback = false;
        return Some(summary);
    }
    if contains(lowered, "tool.call.start") || contains(lowered, "loop.step") || contains(
        lowered,
        "session.run.",
    ) || starts_with(trim_start(lowered), "info:") {
        *suppress_traceback = false;
        return Some(value.to_owned());
    }
    None
}

/// Decides what is logged of a line that an instance printed.
pub fn compact_runtime_log_record(value: &str, suppress_traceback: &mut bool) -> (r: Option<String>)
    ensures
        (opt_view(r), *final(suppress_traceback)) == compacted(
            value@,
            without_ansi(value@),
            unicode_lower(without_ansi(value@)),
            *old(suppress_traceback),
        ),
{
    let clean = strip_ansi_codes(value);
    let lowered = clean.as_str().to_lowercase();
    compact_record(value, clean.as_str(), lowered.as_str(), suppress_traceback)
}

// ---------------------------------------------------------------------------
// From the spool into the log
// ---------------------------------------------------------------------------

/// What is logged of a line that an instance printed, if anything, and the mark behind it.
pub struct SpoolStep {
    pub message: Option<String>,
    pub level: &'static str,
    pub cursor: RuntimeLogCursor,
}

/// What a step stands for: the message, the level, the position, and whether a traceback is
/// being left out.
pub open spec fn step_view(s: SpoolStep) -> (Option<Seq<char>>, Seq<char>, int, bool) {
    (opt_view(s.message), s.level@, s.cursor.offset as int, s.cursor.suppress_traceback)
}

/// The steps for the lines from `i` on.
pub open spec fn spool_steps_from(
    records: Seq<(Seq<char>, int)>,
    suppress: bool,
    i: int,
) -> Seq<(Option<Seq<char>>, Seq<char>, int, bool)>
    decreases records.len() - i,
{
    if i < 0 || i >= records.len() {
        Seq::empty()
    } else {
        let line = records[i].0;
        let out = compacted(
            line,
            without_ansi(line),
            unicode_lower(without_ansi(line)),
            suppress,
        );
        seq![(out.0, level_of(unicode_lower(line)), records[i].1, out.1)] + spool_steps_from(
            records,
            out.1,
            i + 1,
        )
    }
}

/// What a list of steps stands for.
pub open spec fn steps_view(v: Seq<SpoolStep>) -> Seq<(Option<Seq<char>>, Seq<char>, int, bool)> {
    v.map_values(|s: SpoolStep| step_view(s))
}

/// Plans what is logged of the lines that an instance printed behind the mark. Where the file
/// starts anew, no traceback is being left out. If a message cannot be logged, the mark of the
/// step before it counts.
pub fn sync_runtime_log_spools(cursor: &RuntimeLogCursor, start: u64, records: &Vec<(String, u64)>) -> (r:
    Vec<SpoolStep>)
    ensures
        steps_view(r@) == spool_steps_from(
            records_view(records@),
            start == cursor.offset && cursor.suppress_traceback,
            0,
        ),
{
    let ghost rs = records_view(records@);
    let mut suppress: bool = start == cursor.offset && cursor.suppress_traceback;
    let ghost whole = spool_steps_from(rs, suppress, 0);
    let mut r: Vec<SpoolStep> = Vec::new();
    let mut i: usize = 0;
    assert(steps_view(r@) + whole == whole);
    while i < records.len()
        invariant
            i <= records@.len(),
            rs == records_view(records@),
            steps_view(r@) + spool_steps_from(rs, suppress, i as int) == whole,
        decreases records@.len() - i,
    {
        assert(rs[i as int] == (records@[i as int].0@, records@[i as int].1 as int));
        let line = records[i].0.as_str();
        let message = compact_runtime_log_record(line, &mut suppress);
        let ghost before = steps_view(r@);
        let ghost rest = spool_steps_from(rs, suppress, i + 1);
        let step = SpoolStep {
            message,
            level: runtime_stream_level(line),
            cursor: RuntimeLogCursor { offset: records[i].1, suppress_traceback: suppress },
        };
        let ghost model = step_view(step);
        r.push(step);
        assert(steps_view(r@) == before.push(model));
        assert(before.push(model) + rest == before + (seq![model] + rest));
        i = i + 1;
    }
    assert(steps_view(r@) + Seq::<(Option<Seq<char>>, Seq<char>, int, bool)>::empty() == steps_view(
        r@,
    ));
    r
}

/// The mark once so many of the steps were taken, before the first of them as well.
pub open spec fn mark_behind(
    cursor: RuntimeLogCursor,
    start: u64,
    steps: Seq<SpoolStep>,
    taken: int,
) -> RuntimeLogCursor {
    if 0 < taken <= steps.len() {
        steps[taken - 1].cursor
    } else {
        RuntimeLogCursor {
            offset: start,
            suppress_traceback: start == cursor.offset && cursor.suppress_traceback,
        }
    }
}

/// The mark that is stored once so many of the steps were taken; nothing where it did not move.
pub fn reached_cursor(
    cursor: &RuntimeLogCursor,
    start: u64,
    steps: &Vec<SpoolStep>,
    taken: usize,
) -> (r: Option<RuntimeLogCursor>)
    ensures
        ({
            let mark = mark_behind(*cursor, start, steps@, taken as int);
            r == (if mark.offset != cursor.offset {
                Some(mark)
            } else {
                None
            })
        }),
{
    let mark = if 0 < taken && taken <= steps.len() {
        steps[taken - 1].cursor
    } else {
        RuntimeLogCursor {
            offset: start,
            suppress_traceback: start == cursor.offset && cursor.suppress_traceback,
        }
    };
    if mark.offset != cursor.offset {
        Some(mark)
    } else {
        None
    }
}

/// Records do not depend on the lines before them.
proof fn lemma_records_shift(
    first: Seq<char>,
    ls: Seq<Seq<char>>,
    i: int,
    position: int,
    include_partial: bool,
)
    requires
        0 <= i,
    ensures
        records_from(seq![first] + ls, i + 1, position, include_partial) == records_from(
            ls,
            i,
            position,
            include_partial,
        ),
    decreases ls.len() - i,
{
    if i < ls.len() {
        let all = seq![first] + ls;
        assert(all[i + 1] == ls[i]);
        let next = if position + bytes(ls[i]) <= u64::MAX {
            position + bytes(ls[i])
        } else {
            u64::MAX as int
        };
        lemma_records_shift(first, ls, i + 1, next, include_partial);
    }
}

/// What is read later, from the mark behind a record on, are the records behind it: none is
/// read twice and none is passed over. Of `rest`, the part `read` of the result stands before
/// the mark.
pub proof fn law_reading_goes_on_at_the_mark(
    rest: Seq<char>,
    start: int,
    include_partial: bool,
    k: int,
) -> (read: int)
    requires
        0 <= start,
        start + bytes(rest) <= u64::MAX,
        0 < k <= records_from(chunks(rest), 0, start, include_partial).len(),
    ensures
        ({
            let all = records_from(chunks(rest), 0, start, include_partial);
            &&& 0 < read <= rest.len()
            &&& all[k - 1].1 == start + bytes(rest.take(read))
            &&& records_from(chunks(rest.skip(read)), 0, all[k - 1].1, include_partial)
                == all.skip(k)
        }),
    decreases k,
{
    let all = records_from(chunks(rest), 0, start, include_partial);
    if rest.len() == 0 {
        assert(chunks(rest) == Seq::<Seq<char>>::empty());
    }
    let n = lemma_chunks_split(rest);
    let first = rest.take(n);
    let behind = rest.skip(n);
    assert(rest == first + behind);
    lemma_bytes_add(first, behind);
    let position = start + bytes(first);
    assert(chunks(rest)[0] == first);
    lemma_records_shift(first, chunks(behind), 0, position, include_partial);
    let others = records_from(chunks(behind), 0, position, include_partial);
    assert(all == seq![(strip_set_end(first, "\r\n"@), position)] + others);
    if k == 1 {
        assert(all.skip(1) == others);
        n
    } else {
        let m = law_reading_goes_on_at_the_mark(behind, position, include_partial, k - 1);
        assert(all[k - 1] == others[k - 2]);
        assert(all.skip(k) == others.skip(k - 1));
        assert(rest.take(n + m) == first + behind.take(m));
        lemma_bytes_add(first, behind.take(m));
        assert(rest.skip(n + m) == behind.skip(m));
        n + m
    }
}

// ---------------------------------------------------------------------------
// Cleaning up
// ---------------------------------------------------------------------------

/// What a storage removes when it cleans up: what instances printed before the first time, and
/// what belongs to deleted instances before the second.
pub fn cleanup_cutoffs(runtime_retention_days: u32, now: u64) -> (r: (u64, u64))
    ensures
        r.0 == days_before(
            now,
            if runtime_retention_days > 1 {
                runtime_retention_days as int
            } else {
                1
            },
        ),
        r.1 == days_before(now, DELETED_INSTANCE_LOG_RETENTION_DAYS as int),
{
    let days: u32 = if runtime_retention_days > 1 {
        runtime_retention_days
    } else {
        1
    };
    (cutoff(now, days), cutoff(now, DELETED_INSTANCE_LOG_RETENTION_DAYS))
}

/// How many more entries a storage removes when it holds too many.
pub fn cleanup_excess(count: usize) -> (r: usize)
    ensures
        r == (if count > MAX_LOG_ENTRIES {
            count - MAX_LOG_ENTRIES + LOG_CLEANUP_BATCH_SIZE
        } else {
            0
        }),
{
    if count > MAX_LOG_ENTRIES {
        count - MAX_LOG_ENTRIES + LOG_CLEANUP_BATCH_SIZE
    } else {
        0
    }
}

/// What is logged about a new retention time.
pub fn retention_report(days: u32, removed: usize) -> (r: String)
    ensures
        r@ == "Runtime log retention set to "@ + decimal(days as nat) + " days; cleaned up "@
            + decimal(removed as nat) + " log entries"@,
{
    concat5(
        "Runtime log retention set to ",
        decimal_of(days as u64).as_str(),
        " days; cleaned up ",
        decimal_of(removed as u64).as_str(),
        " log entries",
    )
}

} // verus!
