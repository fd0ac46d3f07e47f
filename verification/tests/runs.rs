use renium::json::Json;
use renium::link_apply::{LinkApplyChanges, PackageFacts, PackageStep, PackageWork};
use renium::link_mirror::MirrorFile;
use renium::link_pack::pack_writes;
use renium::link_remove::KeyedPath;
use renium::link_run::{
    prune_order, run_writes, FileWrite, LinkRun, PruneDir, RunError, RunOptions, StoreChanges, TargetInput, TargetOutcome,
    TargetWork,
};
use renium::link_status::{strict_failure, ResolvedTarget};
use renium::links::{LinkEntry, LinkLock, LinkManifest, LinkSource, LinkTargetRef};
use renium::table::Table;
use renium::wally::{Realm, WallyError, WallyRealm};
use renium::wally_run::{import_outcome, removal_outcome, sync_writes, PackageFile, RealmRemoval, WallyRun};
use renium::wally_sync::RealmStep;

fn keyed(path: &str) -> KeyedPath {
    KeyedPath { path: path.to_string(), key: path.to_lowercase() }
}

fn target(name: &str) -> LinkTargetRef {
    LinkTargetRef {
        service: "ReplicatedStorage".to_string(),
        path: vec!["ReplicatedStorage".to_string(), name.to_string()],
        ords: Vec::new(),
    }
}

fn run() -> LinkRun {
    let link = LinkEntry {
        id: "pkg".to_string(),
        read_only: true,
        source: LinkSource::Local { path: "packages/Pkg.rpkg".to_string() },
        targets: vec![target("Pkg")],
    };
    LinkRun {
        manifest: LinkManifest { version: 1, cache_dir: None, links: vec![link], broken: Vec::new() },
        lock: LinkLock::new(),
        changes: LinkApplyChanges::new(),
        writes: Table::new(),
        permissions: Table::new(),
        warnings: Vec::new(),
    }
}

fn resolved(name: &str) -> ResolvedTarget {
    ResolvedTarget {
        link_id: "pkg".to_string(),
        target: target(name),
        read_only: true,
        broken: false,
        resolved: true,
        has_storage: true,
        is_package: true,
    }
}

fn package(exists: bool, matches: bool) -> TargetWork {
    TargetWork::Package {
        facts: PackageFacts {
            target_exists: exists,
            target_matches: matches,
            package_hash: Some("new".to_string()),
            package_fingerprint: "print".to_string(),
            target_fingerprint: None,
        },
        work: PackageWork {
            removals: vec![keyed("Old.luau")],
            filled_ids: vec!["id:1".to_string()],
            target_ids: vec!["id:0".to_string()],
            settings_file: keyed("S"),
        },
    }
}

fn mirror(current: Option<&str>) -> TargetWork {
    TargetWork::Mirror {
        files: vec![MirrorFile {
            mirror: keyed("Logger.luau"),
            lock_key: "Logger.luau".to_string(),
            content: "return 1\n".to_string(),
            content_hash: "hash of 1".to_string(),
            current: current.map(|s| s.to_string()),
            current_hash: "hash of another".to_string(),
            exists: current.is_some(),
            changed_store: None,
            settings_id: Some("logger".to_string()),
        }],
        stale: Vec::new(),
        target_exists: current.is_some(),
    }
}

fn input(resolved: ResolvedTarget, work: TargetWork) -> TargetInput {
    TargetInput { resolved, resolved_ref: Some("rev".to_string()), reason: "no such file".to_string(), work }
}

fn options(check: bool) -> RunOptions {
    RunOptions { check, force_all: false, forced: Vec::new() }
}

#[test]
fn a_package_fills_its_target_and_is_kept_then() {
    let mut run = run();
    match run.apply_target(&input(resolved("Pkg"), package(false, false)), &options(false)) {
        Ok(TargetOutcome::Package(decision)) => assert_eq!(decision.step, PackageStep::Fill { replace: true }),
        _ => panic!("the package was not applied"),
    }
    let entry = run.lock.entries.get(&"pkg".to_string()).unwrap();
    assert_eq!(entry.resolved_ref, Some("rev".to_string()));
    assert_eq!(entry.packages.get(&target("Pkg").key()), Some(&"new".to_string()));
    assert_eq!(run.changes.processed_targets, 1);
    assert_eq!(run.changes.differences, 1);
    assert_eq!(run.changes.removals.len(), 1);
    match run.apply_target(&input(resolved("Pkg"), package(true, true)), &options(false)) {
        Ok(TargetOutcome::Package(decision)) => assert_eq!(decision.step, PackageStep::Keep),
        _ => panic!("the package was not applied"),
    }
    assert_eq!(run.changes.processed_targets, 2);
    assert_eq!(run.changes.differences, 1);
}

#[test]
fn a_deleted_target_is_marked_broken_and_left_alone_then() {
    let mut run = run();
    assert!(run.apply_target(&input(resolved("Pkg"), package(false, false)), &options(false)).is_ok());
    match run.apply_target(&input(resolved("Pkg"), package(false, false)), &options(false)) {
        Ok(TargetOutcome::Package(decision)) => assert_eq!(decision.step, PackageStep::MarkDeleted),
        _ => panic!("the target was not found deleted"),
    }
    assert_eq!(run.manifest.broken.len(), 1);
    assert!(run.changes.manifest_changed);
    let mut broken = resolved("Pkg");
    broken.broken = true;
    let outcome = run.apply_target(&input(broken, package(false, false)), &options(false));
    assert!(matches!(outcome, Ok(TargetOutcome::Skipped)));
    assert_eq!(run.changes.processed_targets, 2);
}

#[test]
fn mirrors_are_written_and_recorded() {
    let mut run = run();
    match run.apply_target(&input(resolved("Logger"), mirror(Some("return 2\n"))), &options(false)) {
        Ok(TargetOutcome::Mirrored { preserved, source_writes, settings_ids }) => {
            assert!(preserved.is_empty());
            assert_eq!(source_writes, vec!["Logger.luau".to_string()]);
            assert_eq!(settings_ids, vec!["logger".to_string()]);
        },
        _ => panic!("the target was not mirrored"),
    }
    assert_eq!(run.writes.get(&"Logger.luau".to_string()), Some(&"return 1\n".to_string()));
    assert_eq!(run.permissions.get(&"Logger.luau".to_string()), Some(&true));
    let entry = run.lock.entries.get(&"pkg".to_string()).unwrap();
    let files = &entry.targets.get(&target("Logger").key()).unwrap().files;
    assert_eq!(files.get(&"Logger.luau".to_string()), Some(&"hash of 1".to_string()));
    let outcome = run.apply_target(&input(resolved("Logger"), mirror(None)), &options(false));
    assert!(matches!(outcome, Ok(TargetOutcome::Deleted)));
    assert_eq!(run.manifest.broken.len(), 1);
}

#[test]
fn a_check_writes_no_file_and_keeps_the_manifest() {
    let mut run = run();
    assert!(run.apply_target(&input(resolved("Pkg"), package(false, false)), &options(true)).is_ok());
    assert!(run.apply_target(&input(resolved("Logger"), mirror(Some("return 2\n"))), &options(true)).is_ok());
    assert_eq!(run.changes.processed_targets, 2);
    assert_eq!(run.changes.differences, 2);
    assert!(run.writes.is_empty());
    assert!(run.permissions.is_empty());
    assert!(run.changes.removals.is_empty());
    assert!(run.manifest.broken.is_empty());
}

#[test]
fn a_run_warns_of_sources_and_stops_without_a_place() {
    let mut run = run();
    let mut unread = resolved("Pkg");
    unread.resolved = false;
    let outcome = run.apply_target(&input(unread, package(false, false)), &options(false));
    assert!(matches!(outcome, Ok(TargetOutcome::Warned)));
    assert_eq!(run.warnings, vec!["pkg: no such file".to_string()]);
    assert!(strict_failure(true, run.warnings.len()));

    let mut nowhere = resolved("Pkg");
    nowhere.resolved = false;
    nowhere.has_storage = false;
    let outcome = run.apply_target(&input(nowhere, package(false, false)), &options(false));
    assert!(matches!(outcome, Err(RunError::Unresolved)));
    let mut homeless = resolved("Pkg");
    homeless.has_storage = false;
    let outcome = run.apply_target(&input(homeless, package(false, false)), &options(false));
    assert!(matches!(outcome, Err(RunError::NoStorage)));
    let outcome = run.apply_target(&input(resolved("Pkg"), TargetWork::PackageWithoutStore), &options(false));
    assert!(matches!(outcome, Err(RunError::NoStore)));
    assert!(run.lock.entries.is_empty());
}

fn prune(directory: &str) -> PruneDir {
    PruneDir { root: keyed("src"), directory: keyed(directory), depth: directory.split('/').count() }
}

#[test]
fn deeper_directories_are_cleared_first() {
    let order = prune_order(vec![prune("src/A"), prune("src/A/B"), prune("src/a/b"), prune("src/C"), prune("src/A")]);
    let names: Vec<&str> = order.iter().map(|d| d.directory.path.as_str()).collect();
    assert_eq!(names, vec!["src/A/B", "src/A", "src/C", "src/A"]);
}

fn shared() -> WallyRealm {
    WallyRealm {
        realm: Realm::Shared,
        packages_dir: "Packages".to_string(),
        service: "ReplicatedStorage".to_string(),
        target_name: "Packages".to_string(),
        required: false,
    }
}

fn removal(files: Vec<KeyedPath>) -> RealmRemoval {
    RealmRemoval { settings_ids: vec!["old".to_string()], target: Some(Json::Text("folder".to_string())), files }
}

fn file(path: &str, has_instance: bool) -> PackageFile {
    PackageFile { mirror: keyed(path), content: b"return 1".to_vec(), has_instance }
}

#[test]
fn an_imported_realm_is_recorded() {
    let files = vec![file("A.luau", true), file("a.luau", true), file("notes.md", false)];
    let outcome = import_outcome(&shared(), removal(vec![keyed("Old.luau")]), files, vec!["new".to_string()]);
    assert_eq!(outcome.source_writes, vec!["A.luau".to_string(), "a.luau".to_string()]);
    assert_eq!(outcome.changed_paths.len(), 1);
    assert_eq!(outcome.writes.len(), 3);

    let mut run = WallyRun::new(LinkLock::new());
    let step = RealmStep::Import { make_directory: false };
    assert_eq!(run.take_realm(&shared(), "wally:shared", step, outcome, "hash"), Ok(()));
    let entry = run.lock.entries.get(&"wally:shared".to_string()).unwrap();
    assert_eq!(entry.resolved_ref, Some("hash".to_string()));
    assert_eq!(run.applied, 1);
    assert_eq!(run.settings_ids, vec!["new".to_string()]);
    assert_eq!(run.removals.len(), 1);
    assert_eq!(run.removed_targets.len(), 1);
    assert_eq!(run.writes.get(&"notes.md".to_string()), Some(&b"return 1".to_vec()));
    assert!(!run.reports[0].removed);
    assert!(run.reports[0].in_store);

    let nothing = removal_outcome(&shared(), removal(Vec::new()));
    assert_eq!(run.take_realm(&shared(), "wally:shared", RealmStep::Skip, nothing, "hash"), Ok(()));
    assert_eq!(run.skipped, 1);
    assert!(run.reports[1].skipped);
    assert_eq!(run.primary(), Some(0));

    let gone = removal_outcome(&shared(), removal(vec![keyed("A.luau"), keyed("B.luau")]));
    assert_eq!(run.take_realm(&shared(), "wally:shared", RealmStep::RemoveInstances, gone, "hash"), Ok(()));
    assert!(run.lock.entries.is_empty());
    assert_eq!(run.changed_paths.len(), 2);
    assert_eq!(run.removals.len(), 3);
    assert!(run.reports[2].removed);
    assert_eq!(run.reports[2].removed_settings_ids, vec!["old".to_string()]);
}

#[test]
fn a_realm_that_is_passed_over_changes_nothing() {
    let mut run = WallyRun::new(LinkLock::new());
    assert_eq!(run.primary(), None);
    let outcome = removal_outcome(&shared(), removal(vec![keyed("A.luau")]));
    let failed = run.take_realm(&shared(), "k", RealmStep::Fail(WallyError::NoOwner), outcome, "hash");
    assert_eq!(failed, Err(WallyError::NoOwner));
    let outcome = removal_outcome(&shared(), removal(vec![keyed("A.luau")]));
    assert_eq!(run.take_realm(&shared(), "k", RealmStep::Ignore, outcome, "hash"), Ok(()));
    assert!(run.reports.is_empty());
    assert!(run.removals.is_empty());
    let outcome = removal_outcome(&shared(), removal(Vec::new()));
    assert_eq!(run.take_realm(&shared(), "k", RealmStep::Skip, outcome, "hash"), Ok(()));
    assert_eq!(run.applied, 0);
    assert_eq!(run.primary(), Some(0));
    let outcome = removal_outcome(&shared(), removal(vec![keyed("A.luau")]));
    assert_eq!(run.take_realm(&shared(), "k", RealmStep::RemoveFiles, outcome, "hash"), Ok(()));
    assert_eq!(run.removals.len(), 1);
    assert!(!run.reports[1].in_store);
    assert_eq!(run.primary(), Some(1));
}

fn stores(path: &str) -> StoreChanges {
    StoreChanges {
        writes: vec![FileWrite { path: keyed(path), content: b"store".to_vec() }],
        removals: vec![keyed("Old.renium")],
    }
}

#[test]
fn a_run_leaves_on_the_disk_what_it_gathered() {
    let mut run = run();
    assert!(run.apply_target(&input(resolved("Pkg"), package(false, false)), &options(false)).is_ok());
    assert!(run.apply_target(&input(resolved("Logger"), mirror(Some("return 2\n"))), &options(false)).is_ok());
    let end = run_writes(run, stores("S.renium"), false, false);
    assert_eq!(end.stores.len(), 1);
    assert_eq!(end.stores[0].path.path, "S.renium");
    assert!(!end.lock.unwrap().entries.is_empty());
    assert!(end.manifest.is_none());
    assert!(end.gitignore);
    assert_eq!(end.writes.get(&"Logger.luau".to_string()), Some(&"return 1\n".to_string()));
    assert_eq!(end.permissions.get(&"Logger.luau".to_string()), Some(&true));
    let removed: Vec<&str> = end.removals.iter().map(|p| p.key.as_str()).collect();
    assert_eq!(removed.len(), 2);
    assert!(removed.contains(&"old.luau") && removed.contains(&"old.renium"));
}

#[test]
fn a_check_leaves_nothing_on_the_disk() {
    let mut run = run();
    assert!(run.apply_target(&input(resolved("Pkg"), package(false, false)), &options(true)).is_ok());
    assert!(run.apply_target(&input(resolved("Logger"), mirror(Some("return 2\n"))), &options(true)).is_ok());
    let end = run_writes(run, stores("S.renium"), true, false);
    assert!(end.stores.is_empty() && end.lock.is_none() && end.manifest.is_none() && !end.gitignore);
    assert!(end.writes.is_empty() && end.permissions.is_empty() && end.removals.is_empty());
}

#[test]
fn a_changed_manifest_is_written_at_the_end_of_a_run() {
    let mut run = run();
    assert!(run.apply_target(&input(resolved("Pkg"), package(false, false)), &options(false)).is_ok());
    assert!(run.apply_target(&input(resolved("Pkg"), package(false, false)), &options(false)).is_ok());
    let end = run_writes(run, StoreChanges { writes: Vec::new(), removals: Vec::new() }, false, true);
    assert_eq!(end.manifest.unwrap().broken.len(), 1);
    assert!(!end.gitignore);
}

#[test]
fn a_store_that_a_mirror_changes_is_marked() {
    let mut run = run();
    let work = TargetWork::Mirror {
        files: vec![MirrorFile {
            mirror: keyed("Logger.luau"),
            lock_key: "Logger.luau".to_string(),
            content: "return 1\n".to_string(),
            content_hash: "hash of 1".to_string(),
            current: None,
            current_hash: String::new(),
            exists: false,
            changed_store: Some(keyed("S.renium")),
            settings_id: Some("logger".to_string()),
        }],
        stale: Vec::new(),
        target_exists: false,
    };
    assert!(run.apply_target(&input(resolved("Logger"), work), &options(false)).is_ok());
    assert!(run.changes.changed_paths.iter().any(|p| p.key == "s.renium"));
}

#[test]
fn a_sync_that_applies_nothing_writes_nothing() {
    let idle = WallyRun::new(LinkLock::new());
    assert!(sync_writes(idle, stores("S.renium"), "lock", "ignore", false).is_none());
    let mut run = WallyRun::new(LinkLock::new());
    let files = vec![file("A.luau", true)];
    let outcome = import_outcome(&shared(), removal(vec![keyed("Old.luau"), keyed("a.luau")]), files, vec!["new".to_string()]);
    let step = RealmStep::Import { make_directory: false };
    assert_eq!(run.take_realm(&shared(), "wally:shared", step, outcome, "hash"), Ok(()));
    let end = sync_writes(run, stores("S.renium"), "lock", "ignore", false).unwrap();
    assert_eq!(end.writes.get(&"A.luau".to_string()), Some(&b"return 1".to_vec()));
    assert_eq!(end.writes.get(&"S.renium".to_string()), Some(&b"store".to_vec()));
    assert!(end.gitignore);
    assert!(end.lock.entries.get(&"wally:shared".to_string()).is_some());
    let removed: Vec<&str> = end.removals.iter().map(|p| p.key.as_str()).collect();
    assert!(!removed.contains(&"a.luau"));
    assert!(removed.contains(&"old.luau") && removed.contains(&"old.renium"));
}

#[test]
fn saving_a_package_writes_the_store_only_with_its_sources() {
    let end = pack_writes(vec![keyed("A.luau")], 0, &keyed("S.json"), &keyed("S.renium"), true);
    assert!(!end.store && !end.gitignore);
    assert_eq!(end.removals.len(), 1);
    let end = pack_writes(vec![keyed("A.luau")], 1, &keyed("S.json"), &keyed("S.renium"), false);
    assert!(end.store && end.gitignore);
    assert_eq!(end.removals.len(), 2);
    assert_eq!(end.removals[1].path, "S.json");
    let end = pack_writes(Vec::new(), 1, &keyed("S.renium"), &keyed("s.renium"), true);
    assert!(end.removals.is_empty());
}
