//! Laws of the vault: what saving, importing and exporting leave in it.

use crate::environment::{
    completed_from, has_entry, imported_from, is_shared, position_from, shared_from, vault_with,
};
use crate::models::EnvModel;
use crate::ports::is_service_port_key;
use crate::text::trimmed;
use vstd::prelude::*;

verus! {

/// Whether the first entry under a key is at position `i`.
pub open spec fn is_first_of(env: Seq<EnvModel>, key: Seq<char>, i: int) -> bool {
    &&& 0 <= i < env.len()
    &&& env[i].key == key
    &&& forall|j: int| 0 <= j < i ==> (#[trigger] env[j]).key != key
}

proof fn lemma_position(env: Seq<EnvModel>, key: Seq<char>, i: int)
    requires
        0 <= i <= env.len(),
        forall|j: int| 0 <= j < i ==> (#[trigger] env[j]).key != key,
    ensures
        ({
            let k = position_from(env, key, i);
            &&& i <= k <= env.len()
            &&& k < env.len() ==> is_first_of(env, key, k)
            &&& k == env.len() ==> forall|j: int| 0 <= j < env.len() ==> (#[trigger] env[j]).key != key
        }),
    decreases env.len() - i,
{
    if i < env.len() && env[i].key != key {
        lemma_position(env, key, i + 1);
    }
}

/// What saving one entry does: the first entry under its key has its value and comment, and all
/// entries under other keys stay in their places.
proof fn lemma_saved_one(vault: Seq<EnvModel>, e: EnvModel) -> (k: int)
    ensures
        ({
            let out = vault_with(vault, e);
            &&& is_first_of(out, e.key, k)
            &&& out[k].value == e.value && out[k].comment == e.comment
            &&& out[k].source == "instance"@ && !out[k].modified
            &&& out.len() >= vault.len()
            &&& forall|j: int|
                0 <= j < vault.len() ==> (#[trigger] out[j]).key == vault[j].key && (vault[j].key
                    != e.key ==> out[j] == vault[j])
            &&& forall|j: int| vault.len() <= j < out.len() ==> (#[trigger] out[j]).key == e.key
        }),
{
    lemma_position(vault, e.key, 0);
    let k = position_from(vault, e.key, 0);
    let out = vault_with(vault, e);
    assert forall|j: int| 0 <= j < k implies (#[trigger] out[j]).key != e.key by {
        assert(out[j] == vault[j]);
    }
    k
}

/// An entry that no later one shares the key with stays as it was saved.
proof fn lemma_shared_stays(
    vault: Seq<EnvModel>,
    env: Seq<EnvModel>,
    ports_too: bool,
    i: int,
    count: int,
    key: Seq<char>,
    k: int,
)
    requires
        0 <= i,
        is_first_of(vault, key, k),
        forall|j: int|
            i <= j < env.len() && is_shared(#[trigger] env[j], ports_too) ==> env[j].key != key,
    ensures
        is_first_of(shared_from(vault, env, ports_too, i, count).0, key, k),
        shared_from(vault, env, ports_too, i, count).0[k] == vault[k],
    decreases env.len() - i,
{
    if i < env.len() {
        if is_shared(env[i], ports_too) {
            let next = vault_with(vault, env[i]);
            let s = lemma_saved_one(vault, env[i]);
            assert(env[i].key != key);
            assert(is_first_of(next, key, k)) by {
                assert forall|j: int| 0 <= j < k implies (#[trigger] next[j]).key != key by {
                    assert(vault[j].key != key);
                }
            }
            lemma_shared_stays(next, env, ports_too, i + 1, count + 1, key, k);
        } else {
            lemma_shared_stays(vault, env, ports_too, i + 1, count, key, k);
        }
    }
}

proof fn lemma_shared_last(
    vault: Seq<EnvModel>,
    env: Seq<EnvModel>,
    ports_too: bool,
    i: int,
    count: int,
    m: int,
) -> (k: int)
    requires
        0 <= i <= m < env.len(),
        is_shared(env[m], ports_too),
        forall|j: int|
            m < j < env.len() && is_shared(#[trigger] env[j], ports_too) ==> env[j].key
                != env[m].key,
    ensures
        ({
            let out = shared_from(vault, env, ports_too, i, count).0;
            &&& is_first_of(out, env[m].key, k)
            &&& out[k].value == env[m].value && out[k].comment == env[m].comment
            &&& out[k].source == "instance"@ && !out[k].modified
        }),
    decreases m - i,
{
    if i == m {
        let next = vault_with(vault, env[m]);
        let k = lemma_saved_one(vault, env[m]);
        lemma_shared_stays(next, env, ports_too, i + 1, count + 1, env[m].key, k);
        k
    } else if is_shared(env[i], ports_too) {
        lemma_shared_last(vault_with(vault, env[i]), env, ports_too, i + 1, count + 1, m)
    } else {
        lemma_shared_last(vault, env, ports_too, i + 1, count, m)
    }
}

proof fn lemma_shared_frame(
    vault: Seq<EnvModel>,
    env: Seq<EnvModel>,
    ports_too: bool,
    i: int,
    count: int,
)
    requires
        0 <= i,
    ensures
        ({
            let out = shared_from(vault, env, ports_too, i, count);
            &&& out.0.len() >= vault.len()
            &&& out.1 >= count
            &&& forall|j: int| 0 <= j < vault.len() ==> (#[trigger] out.0[j]).key == vault[j].key
        }),
    decreases env.len() - i,
{
    if i < env.len() {
        if is_shared(env[i], ports_too) {
            let next = vault_with(vault, env[i]);
            let s = lemma_saved_one(vault, env[i]);
            lemma_shared_frame(next, env, ports_too, i + 1, count + 1);
            let out = shared_from(vault, env, ports_too, i, count);
            assert forall|j: int| 0 <= j < vault.len() implies (#[trigger] out.0[j]).key
                == vault[j].key by {
                assert(out.0[j].key == next[j].key);
            }
        } else {
            lemma_shared_frame(vault, env, ports_too, i + 1, count);
        }
    }
}

/// What the user modified in an instance is saved: after sharing, the vault's first entry under
/// the key of a modified entry has the value and the comment of the last modified entry under
/// that key. Ports of the instance are left out unless they are to be shared too.
pub proof fn law_modified_values_are_saved(
    vault: Seq<EnvModel>,
    env: Seq<EnvModel>,
    ports_too: bool,
    m: int,
)
    requires
        0 <= m < env.len(),
        env[m].modified,
        ports_too || !is_service_port_key(env[m].key),
        forall|j: int|
            m < j < env.len() && (#[trigger] env[j]).modified ==> env[j].key != env[m].key,
    ensures
        ({
            let out = shared_from(vault, env, ports_too, 0, 0).0;
            exists|k: int| #[trigger]
                is_first_of(out, env[m].key, k) && out[k].value == env[m].value && out[k].comment
                    == env[m].comment && out[k].source == "instance"@ && !out[k].modified
        }),
{
    let k = lemma_shared_last(vault, env, ports_too, 0, 0, m);
    assert(is_first_of(shared_from(vault, env, ports_too, 0, 0).0, env[m].key, k));
}

/// The vault keeps what an instance did not modify: an entry whose key no modified entry has
/// stays as it was, in its place. And no key of the vault is lost.
pub proof fn law_unmodified_values_leave_the_vault(
    vault: Seq<EnvModel>,
    env: Seq<EnvModel>,
    ports_too: bool,
    k: int,
)
    requires
        0 <= k < vault.len(),
        forall|j: int|
            0 <= j < env.len() && (#[trigger] env[j]).modified ==> env[j].key != vault[k].key,
    ensures
        shared_from(vault, env, ports_too, 0, 0).0.len() >= vault.len(),
        shared_from(vault, env, ports_too, 0, 0).0[k] == vault[k],
{
    lemma_shared_frame(vault, env, ports_too, 0, 0);
    lemma_unshared_stays(vault, env, ports_too, 0, 0, k);
}

proof fn lemma_unshared_stays(
    vault: Seq<EnvModel>,
    env: Seq<EnvModel>,
    ports_too: bool,
    i: int,
    count: int,
    k: int,
)
    requires
        0 <= i,
        0 <= k < vault.len(),
        forall|j: int|
            0 <= j < env.len() && (#[trigger] env[j]).modified ==> env[j].key != vault[k].key,
    ensures
        shared_from(vault, env, ports_too, i, count).0[k] == vault[k],
    decreases env.len() - i,
{
    if i < env.len() {
        if is_shared(env[i], ports_too) {
            let s = lemma_saved_one(vault, env[i]);
            assert(env[i].modified);
            assert(vault_with(vault, env[i])[k] == vault[k]);
            lemma_unshared_stays(
                vault_with(vault, env[i]),
                env,
                ports_too,
                i + 1,
                count + 1,
                k,
            );
        } else {
            lemma_unshared_stays(vault, env, ports_too, i + 1, count, k);
        }
    }
}

/// The number of saved entries is that of the modified ones that are shared.
pub proof fn law_saved_entries_are_counted(
    vault: Seq<EnvModel>,
    env: Seq<EnvModel>,
    ports_too: bool,
    i: int,
    count: int,
)
    requires
        0 <= i <= env.len(),
    ensures
        shared_from(vault, env, ports_too, i, count).1 == count + env.skip(i).filter(
            |e: EnvModel| e.modified && (ports_too || !is_service_port_key(e.key)),
        ).len(),
    decreases env.len() - i,
{
    let kept = |e: EnvModel| e.modified && (ports_too || !is_service_port_key(e.key));
    let rest = env.skip(i);
    if i < env.len() {
        assert(rest == seq![env[i]] + env.skip(i + 1));
        Seq::filter_distributes_over_add(seq![env[i]], env.skip(i + 1), kept);
        reveal(Seq::filter);
        assert(seq![env[i]].drop_last() == Seq::<EnvModel>::empty());
        assert(Seq::<EnvModel>::empty().filter(kept).len() == 0);
        assert(seq![env[i]].filter(kept).len() == if kept(env[i]) {
            1int
        } else {
            0int
        });
        if is_shared(env[i], ports_too) {
            law_saved_entries_are_counted(
                vault_with(vault, env[i]),
                env,
                ports_too,
                i + 1,
                count + 1,
            );
        } else {
            law_saved_entries_are_counted(vault, env, ports_too, i + 1, count);
        }
    } else {
        reveal(Seq::filter);
        assert(rest.len() == 0);
    }
}

// ---------------------------------------------------------------------------
// Importing and exporting
// ---------------------------------------------------------------------------

/// An entry as it is imported.
spec fn as_imported(e: EnvModel) -> EnvModel {
    EnvModel { source: "import"@, modified: false, ..e }
}

spec fn imported_one(vault: Seq<EnvModel>, e: EnvModel) -> Seq<EnvModel> {
    let k = position_from(vault, e.key, 0);
    if k < vault.len() {
        vault.update(k, as_imported(e))
    } else {
        vault.push(as_imported(e))
    }
}

proof fn lemma_imported_one(vault: Seq<EnvModel>, e: EnvModel) -> (k: int)
    ensures
        ({
            let out = imported_one(vault, e);
            &&& is_first_of(out, e.key, k) && out[k] == as_imported(e)
            &&& out.len() >= vault.len()
            &&& forall|j: int|
                0 <= j < vault.len() ==> (#[trigger] out[j]).key == vault[j].key && (vault[j].key
                    != e.key ==> out[j] == vault[j])
        }),
{
    lemma_position(vault, e.key, 0);
    let k = position_from(vault, e.key, 0);
    let out = imported_one(vault, e);
    assert forall|j: int| 0 <= j < k implies (#[trigger] out[j]).key != e.key by {
        assert(out[j] == vault[j]);
    }
    k
}

proof fn lemma_imported_stays(vault: Seq<EnvModel>, env: Seq<EnvModel>, i: int, k: int)
    requires
        0 <= i,
        0 <= k < vault.len(),
        forall|j: int| i <= j < env.len() ==> (#[trigger] env[j]).key != vault[k].key,
    ensures
        imported_from(vault, env, i).len() >= vault.len(),
        imported_from(vault, env, i)[k] == vault[k],
        is_first_of(vault, vault[k].key, k) ==> is_first_of(
            imported_from(vault, env, i),
            vault[k].key,
            k,
        ),
    decreases env.len() - i,
{
    if i < env.len() {
        let next = imported_one(vault, env[i]);
        let s = lemma_imported_one(vault, env[i]);
        assert(env[i].key != vault[k].key);
        assert(next[k] == vault[k]);
        if is_first_of(vault, vault[k].key, k) {
            assert forall|j: int| 0 <= j < k implies (#[trigger] next[j]).key != vault[k].key by {
                assert(vault[j].key != vault[k].key);
            }
        }
        lemma_imported_stays(next, env, i + 1, k);
    }
}

proof fn lemma_imported_last(vault: Seq<EnvModel>, env: Seq<EnvModel>, i: int, m: int) -> (k: int)
    requires
        0 <= i <= m < env.len(),
        forall|j: int| m < j < env.len() ==> (#[trigger] env[j]).key != env[m].key,
    ensures
        is_first_of(imported_from(vault, env, i), env[m].key, k),
        imported_from(vault, env, i)[k] == as_imported(env[m]),
    decreases m - i,
{
    let next = imported_one(vault, env[i]);
    if i == m {
        let k = lemma_imported_one(vault, env[m]);
        lemma_imported_stays(next, env, i + 1, k);
        k
    } else {
        lemma_imported_last(next, env, i + 1, m)
    }
}

/// After an import the vault's first entry under a key of the file has the value and the comment
/// of the file's last entry under it; entries under other keys stay in their places.
pub proof fn law_imported_entries_are_in_the_vault(
    vault: Seq<EnvModel>,
    env: Seq<EnvModel>,
    m: int,
    k: int,
)
    requires
        0 <= m < env.len(),
        forall|j: int| m < j < env.len() ==> (#[trigger] env[j]).key != env[m].key,
    ensures
        ({
            let out = imported_from(vault, env, 0);
            &&& exists|i: int| #[trigger]
                is_first_of(out, env[m].key, i) && out[i].value == env[m].value && out[i].comment
                    == env[m].comment && out[i].source == "import"@ && !out[i].modified
            &&& 0 <= k < vault.len() && (forall|j: int|
                0 <= j < env.len() ==> (#[trigger] env[j]).key != vault[k].key) ==> k < out.len()
                && out[k] == vault[k]
        }),
{
    let i = lemma_imported_last(vault, env, 0, m);
    assert(is_first_of(imported_from(vault, env, 0), env[m].key, i));
    if 0 <= k < vault.len() && (forall|j: int|
        0 <= j < env.len() ==> (#[trigger] env[j]).key != vault[k].key) {
        lemma_imported_stays(vault, env, 0, k);
    }
}

proof fn lemma_completed_holds(env: Seq<EnvModel>, vault: Seq<EnvModel>, i: int, k: int) -> (m: int)
    requires
        0 <= i <= k < vault.len(),
        trimmed(vault[k].key).len() > 0,
        !has_entry(env, vault[k].key),
        forall|j: int| i <= j < k ==> (#[trigger] vault[j]).key != vault[k].key,
    ensures
        env.len() <= m < completed_from(env, vault, i).len(),
        completed_from(env, vault, i)[m] == vault[k],
    decreases k - i,
{
    let next = if trimmed(vault[i].key).len() > 0 && !has_entry(env, vault[i].key) {
        env.push(vault[i])
    } else {
        env
    };
    if i == k {
        lemma_completed_first(next, vault, i + 1);
        assert(next[env.len() as int] == vault[k]);
        env.len() as int
    } else {
        assert(!has_entry(next, vault[k].key)) by {
            if has_entry(next, vault[k].key) {
                let j = choose|j: int|
                    0 <= j < next.len() && (#[trigger] next[j]).key == vault[k].key;
                if j < env.len() {
                    assert(env[j].key == vault[k].key);
                } else {
                    assert(next[j] == vault[i]);
                }
            }
        }
        lemma_completed_holds(next, vault, i + 1, k)
    }
}

proof fn lemma_completed_first(env: Seq<EnvModel>, vault: Seq<EnvModel>, i: int)
    requires
        0 <= i,
    ensures
        completed_from(env, vault, i).len() >= env.len(),
        forall|j: int| 0 <= j < env.len() ==> #[trigger] completed_from(env, vault, i)[j] == env[j],
    decreases env.len() + vault.len() - i,
{
    if i < vault.len() {
        let next = if trimmed(vault[i].key).len() > 0 && !has_entry(env, vault[i].key) {
            env.push(vault[i])
        } else {
            env
        };
        lemma_completed_tail(env, next, vault, i + 1);
    }
}

proof fn lemma_completed_tail(
    env: Seq<EnvModel>,
    next: Seq<EnvModel>,
    vault: Seq<EnvModel>,
    i: int,
)
    requires
        0 <= i,
        env.len() <= next.len(),
        forall|j: int| 0 <= j < env.len() ==> #[trigger] next[j] == env[j],
    ensures
        completed_from(next, vault, i).len() >= env.len(),
        forall|j: int| 0 <= j < env.len() ==> #[trigger] completed_from(next, vault, i)[j] == env[j],
    decreases vault.len() - i,
{
    if i < vault.len() {
        let more = if trimmed(vault[i].key).len() > 0 && !has_entry(next, vault[i].key) {
            next.push(vault[i])
        } else {
            next
        };
        lemma_completed_tail(env, more, vault, i + 1);
    }
}

/// An export holds the entries of the file as they are and, behind them, each entry of the vault
/// whose key is not blank and that the file lacks; of several under one key the first.
pub proof fn law_exports_add_what_is_missing(env: Seq<EnvModel>, vault: Seq<EnvModel>, k: int)
    requires
        0 <= k < vault.len(),
        trimmed(vault[k].key).len() > 0,
        forall|j: int| 0 <= j < env.len() ==> (#[trigger] env[j]).key != vault[k].key,
        forall|j: int| 0 <= j < k ==> (#[trigger] vault[j]).key != vault[k].key,
    ensures
        ({
            let out = completed_from(env, vault, 0);
            &&& out.len() > env.len()
            &&& forall|j: int| 0 <= j < env.len() ==> #[trigger] out[j] == env[j]
            &&& exists|m: int| env.len() <= m < out.len() && #[trigger] out[m] == vault[k]
        }),
{
    let m = lemma_completed_holds(env, vault, 0, k);
    lemma_completed_first(env, vault, 0);
    assert(completed_from(env, vault, 0)[m] == vault[k]);
}

} // verus!
