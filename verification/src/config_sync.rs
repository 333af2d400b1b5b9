//! The configuration files of an instance and how they follow its environment.

use crate::compose::{
    mapped_ports, sync_docker_compose_npm_mirror, sync_docker_compose_port_mappings,
    with_npm_mirror,
};
use crate::environment::{
    env_entries, followed, is_env_file, is_env_file_name, parse_env, render_env, rendered,
    services_view, synchronize_env_entries,
};
use crate::lifecycle::{
    synced_manifest, synchronize_lifecycle_content, synchronize_lifecycle_project_name_content,
    toml_string, with_project_name,
};
use crate::instance::{join_path, joined_path};
use crate::models::{envs, instances_view, EnvModel, EnvVariable, InstanceModel, InstanceRecord};
use crate::process_ports::{
    extract_lifecycle_service_ports, named_ports, service_ports, sync_process_command_ports,
    synced_commands,
};
use crate::text::{
    ascending, opt_str, opt_view, same, sort_texts, texts, to_upper, trim, trimmed, upper,
};
use crate::urls::{extract_url_port, url_port};
use std::collections::HashSet;
use vstd::prelude::*;
use vstd::string::*;

verus! {

broadcast use vstd::std_specs::hash::group_hash_axioms;

// ---------------------------------------------------------------------------
// Ports of instances
// ---------------------------------------------------------------------------

/// The ports above zero that the services from `i` on have in their URLs, added to a set.
pub open spec fn ports_added_from(
    ports: Set<u16>,
    services: Seq<(Seq<char>, Seq<char>)>,
    i: int,
) -> Set<u16>
    decreases services.len() - i,
{
    if i < 0 || i >= services.len() {
        ports
    } else {
        match url_port(services[i].1) {
            Some(p) => if p > 0 {
                ports_added_from(ports.insert(p as u16), services, i + 1)
            } else {
                ports_added_from(ports, services, i + 1)
            },
            None => ports_added_from(ports, services, i + 1),
        }
    }
}

/// The ports of the services of all manifests from `i` on, added to a set.
pub open spec fn all_ports_added_from(
    ports: Set<u16>,
    manifests: Seq<Seq<(Seq<char>, Seq<char>)>>,
    i: int,
) -> Set<u16>
    decreases manifests.len() - i,
{
    if i < 0 || i >= manifests.len() {
        ports
    } else {
        all_ports_added_from(ports_added_from(ports, manifests[i], 0), manifests, i + 1)
    }
}

/// What a list of manifests stands for.
pub open spec fn manifests_view(v: Seq<Vec<(String, String)>>) -> Seq<Seq<(Seq<char>, Seq<char>)>> {
    v.map_values(|m: Vec<(String, String)>| services_view(m@))
}

/// The ports that are assigned to the services of the given manifests.
pub fn collect_assigned_ports(manifests: &Vec<Vec<(String, String)>>) -> (r: HashSet<u16>)
    ensures
        r@ == all_ports_added_from(Set::empty(), manifests_view(manifests@), 0),
{
    let ghost ms = manifests_view(manifests@);
    let mut ports: HashSet<u16> = HashSet::new();
    let mut i: usize = 0;
    while i < manifests.len()
        invariant
            i <= manifests@.len(),
            ms == manifests_view(manifests@),
            all_ports_added_from(ports@, ms, i as int) == all_ports_added_from(
                Set::empty(),
                ms,
                0,
            ),
        decreases manifests@.len() - i,
    {
        let services = &manifests[i];
        let ghost ss = services_view(services@);
        assert(ms[i as int] == ss);
        let ghost start = ports@;
        let mut k: usize = 0;
        while k < services.len()
            invariant
                k <= services@.len(),
                ss == services_view(services@),
                ports_added_from(ports@, ss, k as int) == ports_added_from(start, ss, 0),
            decreases services@.len() - k,
        {
            assert(ss[k as int] == (services@[k as int].0@, services@[k as int].1@));
            if let Some(port) = extract_url_port(services[k].1.as_str()) {
                if port > 0 {
                    ports.insert(port);
                }
            }
            k = k + 1;
        }
        i = i + 1;
    }
    ports
}

/// Where the lifecycle manifests of the instances from `i` on but one are.
pub open spec fn other_manifests_from(
    instances: Seq<InstanceModel>,
    exclude: Option<Seq<char>>,
    windows: bool,
    i: int,
) -> Seq<Seq<char>>
    decreases instances.len() - i,
{
    if i < 0 || i >= instances.len() {
        Seq::empty()
    } else if exclude == Some(instances[i].id) {
        other_manifests_from(instances, exclude, windows, i + 1)
    } else {
        seq![joined_path(windows, instances[i].work_dir, ".agentseek/lifecycle.toml"@)]
            + other_manifests_from(instances, exclude, windows, i + 1)
    }
}

/// Lists where the lifecycle manifests of all instances but one are.
pub fn other_manifest_paths(
    instances: &Vec<InstanceRecord>,
    exclude: Option<&str>,
    windows: bool,
) -> (r: Vec<String>)
    ensures
        texts(r@) == other_manifests_from(instances_view(instances@), opt_str(exclude), windows, 0),
{
    let ghost is = instances_view(instances@);
    let mut r: Vec<String> = Vec::new();
    let mut i: usize = 0;
    assert(texts(r@) == Seq::<Seq<char>>::empty());
    assert(texts(r@) + other_manifests_from(is, opt_str(exclude), windows, 0) == other_manifests_from(
        is,
        opt_str(exclude), windows,
        0,
    ));
    while i < instances.len()
        invariant
            i <= instances@.len(),
            is == instances_view(instances@),
            texts(r@) + other_manifests_from(is, opt_str(exclude), windows, i as int)
                == other_manifests_from(is, opt_str(exclude), windows, 0),
        decreases instances@.len() - i,
    {
        assert(is[i as int] == instances@[i as int]@);
        let excluded: bool = match exclude {
            Some(id) => same(instances[i].id.as_str(), id),
            None => false,
        };
        if !excluded {
            let ghost before = texts(r@);
            let ghost rest = other_manifests_from(is, opt_str(exclude), windows, i + 1);
            let work_dir = instances[i].work_dir.as_str();
            let path = join_path(windows, work_dir, ".agentseek/lifecycle.toml");
            let ghost model = path@;
            r.push(path);
            assert(texts(r@) == before.push(model));
            assert(before.push(model) + rest == before + (seq![model] + rest));
        }
        i = i + 1;
    }
    assert(texts(r@) + Seq::<Seq<char>>::empty() == texts(r@));
    r
}

/// The ports above zero in a list.
pub open spec fn positive_ports(ports: Seq<(Seq<char>, int)>, i: int) -> Set<u16>
    decreases ports.len() - i,
{
    if i < 0 || i >= ports.len() {
        Set::empty()
    } else if ports[i].1 > 0 {
        positive_ports(ports, i + 1).insert(ports[i].1 as u16)
    } else {
        positive_ports(ports, i + 1)
    }
}

/// The ports that an instance has by its own manifest, where it has one.
pub fn instance_self_ports(manifest: Option<&str>) -> (r: HashSet<u16>)
    ensures
        r@ == (match opt_str(manifest) {
            Some(content) => positive_ports(service_ports(content), 0),
            None => Set::empty(),
        }),
{
    let mut r: HashSet<u16> = HashSet::new();
    if let Some(content) = manifest {
        let ports = extract_lifecycle_service_ports(content);
        let ghost ps = service_ports(content@);
        let mut i: usize = 0;
        assert(r@.union(positive_ports(ps, 0)) == positive_ports(ps, 0));
        while i < ports.len()
            invariant
                i <= ports@.len(),
                ps == named_ports(ports@),
                r@.union(positive_ports(ps, i as int)) == positive_ports(ps, 0),
            decreases ports@.len() - i,
        {
            assert(ps[i as int] == (ports@[i as int].0@, ports@[i as int].1 as int));
            let ghost before = r@;
            let ghost rest = positive_ports(ps, i + 1);
            let port: u16 = ports[i].1;
            if port > 0 {
                r.insert(port);
                assert(before.insert(port).union(rest) == before.union(rest.insert(port)));
            }
            i = i + 1;
        }
        assert(r@.union(Set::empty()) == r@);
    }
    r
}

// ---------------------------------------------------------------------------
// Files that follow the environment
// ---------------------------------------------------------------------------

/// A new text for a file, if it differs from what the file holds.
pub open spec fn changed_text(before: Seq<char>, after: Seq<char>) -> Option<Seq<char>> {
    if after != before {
        Some(after)
    } else {
        None
    }
}

/// The manifest with the name of the project, where there is a manifest and it changes.
pub fn synchronize_instance_project_name(manifest: Option<&str>, project_name: &str) -> (r: Option<
    String,
>)
    ensures
        opt_view(r) == (match opt_str(manifest) {
            Some(content) => changed_text(
                content,
                with_project_name(content, toml_string(project_name@)),
            ),
            None => None,
        }),
{
    match manifest {
        Some(content) => {
            let updated = synchronize_lifecycle_project_name_content(content, project_name);
            if same(updated.as_str(), content) {
                None
            } else {
                Some(updated)
            }
        },
        None => None,
    }
}

/// The last entry with the given upper-case key, in any case.
pub open spec fn last_named(env: Seq<EnvModel>, key: Seq<char>) -> Option<EnvModel>
    decreases env.len(),
{
    if env.len() == 0 {
        None
    } else if upper(env.last().key) == key {
        Some(env.last())
    } else {
        last_named(env.drop_last(), key)
    }
}

fn find_last_named<'a>(env: &'a Vec<EnvVariable>, key: &str) -> (r: Option<&'a EnvVariable>)
    ensures
        match r {
            Some(e) => last_named(envs(env@), key@) == Some(e@),
            None => last_named(envs(env@), key@) is None,
        },
{
    let mut i: usize = env.len();
    assert(envs(env@).take(env@.len() as int) == envs(env@));
    while i > 0
        invariant
            i <= env@.len(),
            last_named(envs(env@), key@) == last_named(envs(env@).take(i as int), key@),
        decreases i,
    {
        let ghost e = envs(env@).take(i as int);
        assert(e.last() == env@[i - 1]@);
        assert(e.drop_last() == envs(env@).take(i - 1));
        if same(to_upper(env[i - 1].key.as_str()).as_str(), key) {
            return Some(&env[i - 1]);
        }
        i = i - 1;
    }
    None
}

/// An entry of an example with the value and the comment that were saved for its key.
pub open spec fn with_saved(e: EnvModel, saved: Seq<EnvModel>) -> EnvModel {
    match last_named(saved, upper(e.key)) {
        Some(s) => EnvModel {
            value: s.value,
            comment: if trimmed(s.comment).len() > 0 {
                s.comment
            } else {
                e.comment
            },
            ..e
        },
        None => e,
    }
}

/// The saved entries from `i` on that the example does not have.
pub open spec fn saved_only_from(example: Seq<EnvModel>, saved: Seq<EnvModel>, i: int) -> Seq<
    EnvModel,
>
    decreases saved.len() - i,
{
    if i < 0 || i >= saved.len() {
        Seq::empty()
    } else if last_named(example, upper(saved[i].key)) is Some {
        saved_only_from(example, saved, i + 1)
    } else {
        seq![saved[i]] + saved_only_from(example, saved, i + 1)
    }
}

/// The environment of the frontend: the entries of its example with what was saved, then what
/// else was saved, all following the environment of the instance.
pub open spec fn frontend_entries(
    example: Seq<EnvModel>,
    saved: Seq<EnvModel>,
    root: Seq<EnvModel>,
) -> Seq<EnvModel> {
    (example.map_values(|e: EnvModel| with_saved(e, saved)) + saved_only_from(example, saved, 0))
        .map_values(|e: EnvModel| followed(e, root))
}

fn merge_frontend(example: &Vec<EnvVariable>, saved: &Vec<EnvVariable>) -> (r: Vec<EnvVariable>)
    ensures
        envs(r@) == envs(example@).map_values(|e: EnvModel| with_saved(e, envs(saved@)))
            + saved_only_from(envs(example@), envs(saved@), 0),
{
    let ghost ex = envs(example@);
    let ghost sv = envs(saved@);
    let ghost merged = ex.map_values(|e: EnvModel| with_saved(e, sv));
    let mut r: Vec<EnvVariable> = Vec::new();
    let mut i: usize = 0;
    while i < example.len()
        invariant
            i <= example@.len(),
            ex == envs(example@),
            envs(r@) == merged.take(i as int),
        decreases example@.len() - i,
    {
        assert(ex[i as int] == example@[i as int]@);
        let mut e = example[i].duplicate();
        if let Some(s) = find_last_named(saved, to_upper(e.key.as_str()).as_str()) {
            e.value = s.value.clone();
            if !trim(s.comment.as_str()).is_empty() {
                e.comment = s.comment.clone();
            }
        }
        let ghost before = envs(r@);
        let ghost model = e@;
        r.push(e);
        assert(envs(r@) == before.push(model));
        assert(merged.take(i + 1) == merged.take(i as int).push(merged[i as int]));
        i = i + 1;
    }
    assert(merged.take(ex.len() as int) == merged);
    let mut k: usize = 0;
    while k < saved.len()
        invariant
            k <= saved@.len(),
            ex == envs(example@),
            sv == envs(saved@),
            envs(r@) + saved_only_from(ex, sv, k as int) == merged + saved_only_from(ex, sv, 0),
        decreases saved@.len() - k,
    {
        assert(sv[k as int] == saved@[k as int]@);
        if find_last_named(example, to_upper(saved[k].key.as_str()).as_str()).is_none() {
            let ghost before = envs(r@);
            let ghost rest = saved_only_from(ex, sv, k + 1);
            let e = saved[k].duplicate();
            let ghost model = e@;
            r.push(e);
            assert(envs(r@) == before.push(model));
            assert(before.push(model) + rest == before + (seq![model] + rest));
        }
        k = k + 1;
    }
    assert(envs(r@) + Seq::<EnvModel>::empty() == envs(r@));
    r
}

/// The environment file of a frontend, from its example and what it holds now.
pub open spec fn frontend_file(
    example: Seq<char>,
    saved: Option<Seq<char>>,
    root: Seq<EnvModel>,
) -> Seq<char> {
    rendered(
        frontend_entries(
            env_entries(example),
            match saved {
                Some(content) => env_entries(content),
                None => Seq::empty(),
            },
            root,
        ),
    )
}

fn frontend_environment(example: &str, saved: Option<&str>, root: &Vec<EnvVariable>) -> (r: String)
    ensures
        r@ == frontend_file(example@, opt_str(saved), envs(root@)),
{
    let example_entries = parse_env(example);
    let saved_entries: Vec<EnvVariable> = match saved {
        Some(content) => parse_env(content),
        None => Vec::new(),
    };
    assert(saved is None ==> envs(saved_entries@) == Seq::<EnvModel>::empty());
    let mut frontend = merge_frontend(&example_entries, &saved_entries);
    synchronize_env_entries(&mut frontend, root);
    render_env(&frontend)
}

/// The configuration files of an instance that follow its environment, each where it exists.
pub struct ConfigFiles {
    pub lifecycle: Option<String>,
    pub frontend_example: Option<String>,
    pub frontend: Option<String>,
    pub compose: Option<String>,
}

/// New texts for configuration files, each where it has to be written.
pub struct ConfigWrites {
    pub lifecycle: Option<String>,
    pub frontend: Option<String>,
    pub compose: Option<String>,
}

/// The manifest after the environment.
pub open spec fn lifecycle_after(content: Seq<char>, env: Seq<EnvModel>) -> Seq<char> {
    synced_commands(synced_manifest(content, env), env)
}

/// The file of the containers after the environment.
pub open spec fn compose_after(content: Seq<char>, env: Seq<EnvModel>) -> Seq<char> {
    with_npm_mirror(mapped_ports(content, env))
}

/// The new environment of the frontend, if it has an example and changes.
pub open spec fn frontend_write(
    example: Option<Seq<char>>,
    saved: Option<Seq<char>>,
    env: Seq<EnvModel>,
) -> Option<Seq<char>> {
    match example {
        Some(e) => if saved == Some(frontend_file(e, saved, env)) {
            None
        } else {
            Some(frontend_file(e, saved, env))
        },
        None => None,
    }
}

/// The new file of the containers, if there is one and it changes.
pub open spec fn compose_write(compose: Option<Seq<char>>, env: Seq<EnvModel>) -> Option<Seq<char>> {
    match compose {
        Some(content) => changed_text(content, compose_after(content, env)),
        None => None,
    }
}

fn frontend_update(files: &ConfigFiles, entries: &Vec<EnvVariable>) -> (r: Option<String>)
    ensures
        opt_view(r) == frontend_write(
            opt_view(files.frontend_example),
            opt_view(files.frontend),
            envs(entries@),
        ),
{
    match files.frontend_example.as_ref() {
        Some(example) => {
            let saved: Option<&str> = match files.frontend.as_ref() {
                Some(content) => Some(content.as_str()),
                None => None,
            };
            let rendered = frontend_environment(example.as_str(), saved, entries);
            let unchanged: bool = match saved {
                Some(content) => same(content, rendered.as_str()),
                None => false,
            };
            if unchanged {
                None
            } else {
                Some(rendered)
            }
        },
        None => None,
    }
}

fn compose_update(files: &ConfigFiles, entries: &Vec<EnvVariable>) -> (r: Option<String>)
    ensures
        opt_view(r) == compose_write(opt_view(files.compose), envs(entries@)),
{
    match files.compose.as_ref() {
        Some(content) => {
            let mapped = sync_docker_compose_port_mappings(content.as_str(), entries);
            let updated = sync_docker_compose_npm_mirror(mapped.as_str());
            if same(updated.as_str(), content.as_str()) {
                None
            } else {
                Some(updated)
            }
        },
        None => None,
    }
}

/// Makes the configuration files follow the environment; gives those that change.
pub fn synchronize_instance_port_configs(files: &ConfigFiles, entries: &Vec<EnvVariable>) -> (r:
    ConfigWrites)
    ensures
        ({
            let env = envs(entries@);
            &&& opt_view(r.lifecycle) == (match opt_view(files.lifecycle) {
                Some(content) => changed_text(content, lifecycle_after(content, env)),
                None => None,
            })
            &&& opt_view(r.frontend) == frontend_write(
                opt_view(files.frontend_example),
                opt_view(files.frontend),
                env,
            )
            &&& opt_view(r.compose) == compose_write(opt_view(files.compose), env)
        }),
{
    let lifecycle: Option<String> = match files.lifecycle.as_ref() {
        Some(content) => {
            let synced = synchronize_lifecycle_content(content.as_str(), entries);
            let updated = sync_process_command_ports(synced.as_str(), entries);
            if same(updated.as_str(), content.as_str()) {
                None
            } else {
                Some(updated)
            }
        },
        None => None,
    };
    ConfigWrites {
        lifecycle,
        frontend: frontend_update(files, entries),
        compose: compose_update(files, entries),
    }
}

/// The manifest after the name of the project and the environment, if either changes it.
pub open spec fn lifecycle_write(
    manifest: Option<Seq<char>>,
    rendered_name: Seq<char>,
    env: Seq<EnvModel>,
) -> Option<Seq<char>> {
    match manifest {
        Some(content) => {
            let named = with_project_name(content, rendered_name);
            if named != content || lifecycle_after(named, env) != named {
                Some(lifecycle_after(named, env))
            } else {
                None
            }
        },
        None => None,
    }
}

/// Makes the configuration files follow the name of the instance and its environment; gives
/// those that change.
pub fn synchronize_instance_configs(
    files: &ConfigFiles,
    project_name: &str,
    entries: &Vec<EnvVariable>,
) -> (r: ConfigWrites)
    ensures
        ({
            let env = envs(entries@);
            &&& opt_view(r.lifecycle) == lifecycle_write(
                opt_view(files.lifecycle),
                toml_string(project_name@),
                env,
            )
            &&& opt_view(r.frontend) == frontend_write(
                opt_view(files.frontend_example),
                opt_view(files.frontend),
                env,
            )
            &&& opt_view(r.compose) == compose_write(opt_view(files.compose), env)
        }),
{
    let lifecycle: Option<String> = match files.lifecycle.as_ref() {
        Some(content) => {
            let named = synchronize_lifecycle_project_name_content(
                content.as_str(),
                project_name,
            );
            let synced = synchronize_lifecycle_content(named.as_str(), entries);
            let updated = sync_process_command_ports(synced.as_str(), entries);
            if same(named.as_str(), content.as_str()) && same(updated.as_str(), named.as_str()) {
                None
            } else {
                Some(updated)
            }
        },
        None => None,
    };
    ConfigWrites {
        lifecycle,
        frontend: frontend_update(files, entries),
        compose: compose_update(files, entries),
    }
}

/// Makes the configuration files follow the environment file of an instance; without one
/// nothing changes.
pub fn synchronize_instance_configs_from_env(
    env_file: Option<&str>,
    files: &ConfigFiles,
    project_name: &str,
) -> (r: ConfigWrites)
    ensures
        match opt_str(env_file) {
            Some(content) => {
                let env = env_entries(content);
                &&& opt_view(r.lifecycle) == lifecycle_write(
                    opt_view(files.lifecycle),
                    toml_string(project_name@),
                    env,
                )
                &&& opt_view(r.frontend) == frontend_write(
                    opt_view(files.frontend_example),
                    opt_view(files.frontend),
                    env,
                )
                &&& opt_view(r.compose) == compose_write(opt_view(files.compose), env)
            },
            None => r.lifecycle is None && r.frontend is None && r.compose is None,
        },
{
    match env_file {
        Some(content) => synchronize_instance_configs(files, project_name, &parse_env(content)),
        None => ConfigWrites { lifecycle: None, frontend: None, compose: None },
    }
}

/// The paths of the files that are written, in the order in which they are told.
pub open spec fn written(
    root: Seq<char>,
    lifecycle: bool,
    frontend: bool,
    compose: bool,
    windows: bool,
) -> Seq<Seq<char>> {
    (if lifecycle {
        seq![joined_path(windows, root, ".agentseek/lifecycle.toml"@)]
    } else {
        Seq::empty()
    }) + (if frontend {
        seq![joined_path(windows, root, "frontend/.env"@)]
    } else {
        Seq::empty()
    }) + (if compose {
        seq![joined_path(windows, root, "docker-compose.yml"@)]
    } else {
        Seq::empty()
    })
}

/// Lists the files that are written.
pub fn written_paths(root: &str, writes: &ConfigWrites, windows: bool) -> (r: Vec<String>)
    ensures
        texts(r@) == written(
            root@,
            writes.lifecycle is Some,
            writes.frontend is Some,
            writes.compose is Some,
            windows,
        ),
{
    let mut r: Vec<String> = Vec::new();
    assert(texts(r@) == Seq::<Seq<char>>::empty());
    let ghost none = Seq::<Seq<char>>::empty();
    if writes.lifecycle.is_some() {
        r.push(join_path(windows, root, ".agentseek/lifecycle.toml"));
    }
    assert(texts(r@) == written(root@, writes.lifecycle is Some, false, false, windows));
    let ghost first = texts(r@);
    if writes.frontend.is_some() {
        r.push(join_path(windows, root, "frontend/.env"));
        assert(texts(r@) == first.push(joined_path(windows, root@, "frontend/.env"@)));
    }
    assert(texts(r@) == written(
        root@,
        writes.lifecycle is Some,
        writes.frontend is Some,
        false,
        windows,
    ));
    let ghost second = texts(r@);
    if writes.compose.is_some() {
        r.push(join_path(windows, root, "docker-compose.yml"));
        assert(texts(r@) == second.push(joined_path(windows, root@, "docker-compose.yml"@)));
    }
    assert(texts(r@) == written(
        root@,
        writes.lifecycle is Some,
        writes.frontend is Some,
        writes.compose is Some,
        windows,
    ));
    r
}

// ---------------------------------------------------------------------------
// Environment files of a directory
// ---------------------------------------------------------------------------

/// The names from `i` on of environment files that are, or are not, the example.
pub open spec fn env_files_from(names: Seq<Seq<char>>, example: bool, i: int) -> Seq<Seq<char>>
    decreases names.len() - i,
{
    if i < 0 || i >= names.len() {
        Seq::empty()
    } else if is_env_file(names[i]) && (names[i] == ".env.example"@) == example {
        seq![names[i]] + env_files_from(names, example, i + 1)
    } else {
        env_files_from(names, example, i + 1)
    }
}

fn env_files(names: &Vec<String>, example: bool) -> (r: Vec<String>)
    ensures
        texts(r@) == env_files_from(texts(names@), example, 0),
{
    let ghost ns = texts(names@);
    let mut r: Vec<String> = Vec::new();
    let mut i: usize = 0;
    assert(texts(r@) + env_files_from(ns, example, 0) == env_files_from(ns, example, 0));
    while i < names.len()
        invariant
            i <= names@.len(),
            ns == texts(names@),
            texts(r@) + env_files_from(ns, example, i as int) == env_files_from(ns, example, 0),
        decreases names@.len() - i,
    {
        assert(ns[i as int] == names@[i as int]@);
        let name = names[i].as_str();
        if is_env_file_name(name) && same(name, ".env.example") == example {
            let ghost before = texts(r@);
            let ghost rest = env_files_from(ns, example, i + 1);
            r.push(names[i].clone());
            assert(texts(r@) == before.push(ns[i as int]));
            assert(before.push(ns[i as int]) + rest == before + (seq![ns[i as int]] + rest));
        }
        i = i + 1;
    }
    assert(texts(r@) + Seq::<Seq<char>>::empty() == texts(r@));
    r
}

/// The environment files among the names in a directory: the example first, the others in
/// ascending order.
pub fn list_env_files(names: &Vec<String>) -> (r: Vec<String>)
    ensures
        texts(r@) == env_files_from(texts(names@), true, 0) + ascending(
            env_files_from(texts(names@), false, 0),
        ),
{
    let mut r = env_files(names, true);
    let others = sort_texts(&env_files(names, false));
    let ghost first = texts(r@);
    let ghost os = texts(others@);
    let mut i: usize = 0;
    assert(first + os.take(0) == first);
    while i < others.len()
        invariant
            i <= others@.len(),
            os == texts(others@),
            texts(r@) == first + os.take(i as int),
        decreases others@.len() - i,
    {
        let ghost before = texts(r@);
        r.push(others[i].clone());
        assert(os[i as int] == others@[i as int]@);
        assert(texts(r@) == before.push(os[i as int]));
        assert(os.take(i + 1) == os.take(i as int).push(os[i as int]));
        assert(first + os.take(i + 1) == before.push(os[i as int]));
        i = i + 1;
    }
    assert(os.take(os.len() as int) == os);
    r
}

} // verus!
