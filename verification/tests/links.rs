use renium::document::{
    package_target_settings_ids, resolve_editor_instance_by_path_ordinals, Instance, SettingsDocument,
};
use renium::json::{Json, Member};
use renium::link_apply::{
    apply_package, decide_package, record_package_step, ApplyMode, LinkApplyChanges, PackageFacts, PackageStep, PackageWork,
};
use renium::link_edit::{link_add, link_move_target, parse_link_source, parse_link_target, SelectorError};
use renium::link_enforce::{apply_link_enforcement_to_changed_paths, CanonicalFile, LinkEnforcement, Mirrors};
use renium::link_mirror::{apply_mirror, stale_keys, MirrorFile, MirrorOutput, StaleMirror};
use renium::link_pack::{check_pack_target, free_link_id, link_pack, PackRequest, PackedContent};
use renium::link_remove::{
    is_local_package, is_manifest_empty, is_package_path, link_break, link_delete_package, parse_link_delete_package_action,
    settle_removals, unlock_plan, BreakSelection, KeyedPath, LinkDeletePackageAction, MirrorPlace,
    ResolvedFiles,
};
use renium::link_run::{run_writes, LinkRun, RunOptions, StoreChanges, TargetInput, TargetOutcome, TargetWork};
use renium::link_status::{
    link_status, next_apply_step, reconcile_package_target_names, strict_failure, ApplyStep, MirrorState, RenameError,
    RenamedTarget, ResolvedTarget, StatusFacts,
};
use renium::links::{
    link_target_ordinals, link_target_segments, selector_starts_with, validate_link_manifest, LinkEntry, LinkError, LinkLock,
    LinkLockEntry, LinkManifest, LinkSource, LinkTargetRef, TargetLock,
};
use renium::pack::{externalize_sources, pack_subtree_to_bytecode, remove_instance, PackError};
use renium::paths::{path_from_text, FilePath};
use renium::source_counts::{count_sources, SourceKind, TargetSources};
use renium::sources::{inline_sources, link_target_source_instances};
use renium::table::Table;
use renium::wally_sync::PathKey;

fn texts(list: &[&str]) -> Vec<String> {
    list.iter().map(|s| s.to_string()).collect()
}

fn target(service: &str, path: &[&str]) -> LinkTargetRef {
    LinkTargetRef { service: service.to_string(), path: texts(path), ords: Vec::new() }
}

fn local(path: &str) -> LinkSource {
    LinkSource::Local { path: path.to_string() }
}

fn entry(id: &str, path: &str, targets: Vec<LinkTargetRef>) -> LinkEntry {
    LinkEntry { id: id.to_string(), read_only: true, source: local(path), targets }
}

fn manifest(links: Vec<LinkEntry>, broken: Vec<LinkTargetRef>) -> LinkManifest {
    LinkManifest { version: 1, cache_dir: None, links, broken }
}

fn instance(id: &str, name: &str, class: &str, parent: Option<usize>) -> Instance {
    Instance::new(id.to_string(), name.to_string(), class.to_string(), parent)
}

fn text_property(instance: &Instance, key: &str) -> Option<String> {
    instance.properties.iter().rev().find(|m| m.key == key).and_then(|m| match &m.value {
        Json::Text(s) => Some(s.clone()),
        _ => None,
    })
}

fn script_package(source: &str) -> SettingsDocument {
    let mut script = instance("script", "Child", "Script", Some(1));
    script.properties.push(Member { key: "Source".to_string(), value: Json::Text(source.to_string()) });
    SettingsDocument {
        instances: vec![
            instance("root", "ReplicatedStorage", "ReplicatedStorage", None),
            instance("pkg", "Pkg", "Folder", Some(0)),
            script,
        ],
    }
}

fn package_manifest() -> LinkManifest {
    manifest(
        vec![entry("pkg", "links/pkg.renium", vec![target("ReplicatedStorage", &["ReplicatedStorage", "Pkg"])])],
        Vec::new(),
    )
}

fn package_lock() -> LinkLock {
    let mut lock = LinkLock::new();
    lock.entries.put("pkg".to_string(), LinkLockEntry::new());
    lock
}

#[test]
fn link_delete_package_unlinks_uses_and_externalizes_sources() {
    let mut links = package_manifest();
    let mut lock = package_lock();
    let deleted = link_delete_package(&mut links, &mut lock, "pkg", "unlink-uses").unwrap();
    assert_eq!(deleted.action, LinkDeletePackageAction::UnlinkUses);
    assert!(matches!(&deleted.link.source, LinkSource::Local { path } if path == "links/pkg.renium"));
    assert!(deleted.manifest_removed);
    assert!(deleted.lock_removed);
    assert!(links.links.is_empty());
    assert!(lock.entries.get(&"pkg".to_string()).is_none());
    assert_eq!(deleted.active.len(), 1);

    let mut document = script_package("print('kept')");
    let written = externalize_sources(&mut document, &vec![1, 2], &vec![false, false, true]);
    assert_eq!(written, vec![2]);
    assert_eq!(text_property(&document.instances[2], "Source"), Some("__SOURCE_EXTERNAL__".to_string()));
    assert_eq!(document.instances.len(), 3);
}

#[test]
fn link_delete_package_deletes_uses_and_package_file() {
    let mut links = package_manifest();
    let mut lock = package_lock();
    let deleted = link_delete_package(&mut links, &mut lock, "pkg", "delete-uses").unwrap();
    assert_eq!(deleted.action, LinkDeletePackageAction::DeleteUses);
    assert!(deleted.manifest_removed);
    assert!(deleted.lock_removed);

    let mut document = script_package("print('delete')");
    let used = &deleted.active[0];
    let segments = link_target_segments(used);
    let index = resolve_editor_instance_by_path_ordinals(&document, &used.service, &segments, &used.ords).unwrap();
    assert_eq!(remove_instance(&mut document, index), vec![1, 2]);
    assert_eq!(document.instances.len(), 1);
}

#[test]
fn a_used_package_is_not_deleted_as_unused() {
    let mut links = package_manifest();
    let mut lock = package_lock();
    assert_eq!(
        link_delete_package(&mut links, &mut lock, "pkg", "delete-unused").err(),
        Some(LinkError::ActiveUses { count: 1 })
    );
    assert_eq!(link_delete_package(&mut links, &mut lock, "other", "delete-uses").err(), Some(LinkError::UnknownLink));
    assert_eq!(link_delete_package(&mut links, &mut lock, "pkg", "burn").err(), Some(LinkError::UnknownAction));
    assert_eq!(links.links.len(), 1);
    assert!(lock.entries.get(&"pkg".to_string()).is_some());
    assert_eq!(parse_link_delete_package_action("burn").err(), Some(LinkError::UnknownAction));
    let mut others = manifest(vec![entry("lib", "links/Lib", Vec::new())], Vec::new());
    assert_eq!(
        link_delete_package(&mut others, &mut lock, "lib", "delete-uses").err(),
        Some(LinkError::NotLocalPackage { link: 0 })
    );
}

fn path(text: &str) -> FilePath {
    path_from_text(text)
}

fn content(files: &[(String, String)], path: &FilePath) -> String {
    let name = path.to_slash();
    files.iter().find(|(p, _)| *p == name).map(|(_, c)| c.clone()).unwrap()
}

fn write(files: &mut Vec<(String, String)>, path: &FilePath, text: &str) {
    let name = path.to_slash();
    files.retain(|(p, _)| *p != name);
    files.push((name, text.to_string()));
}

#[test]
fn apply_link_enforcement_reverts_and_fans_out() {
    let root = path("/enforce");
    let canonical = path("/enforce/links/Logger.luau");
    let mirror_a = path("/enforce/src/ReplicatedStorage/Logger.luau");
    let mirror_b = path("/enforce/src/ServerScriptService/Logger.luau");
    let mut files: Vec<(String, String)> = Vec::new();
    for file in [&canonical, &mirror_a, &mirror_b] {
        write(&mut files, file, "-- canonical v1");
    }
    let mut enforcement =
        LinkEnforcement { active: true, mirror_to_canonical: Table::new(), canonical_to_mirrors: Table::new() };
    enforcement.mirror_to_canonical.put(mirror_a.copy(), CanonicalFile { path: canonical.copy(), read_only: true });
    enforcement.mirror_to_canonical.put(mirror_b.copy(), CanonicalFile { path: canonical.copy(), read_only: true });
    enforcement
        .canonical_to_mirrors
        .put(canonical.copy(), Mirrors { paths: vec![mirror_a.copy(), mirror_b.copy()] });

    write(&mut files, &mirror_a, "-- tampered");
    let out = apply_link_enforcement_to_changed_paths(&root, &enforcement, &vec![mirror_a.copy()]);
    for copy in &out.copies {
        let text = content(&files, &copy.from);
        write(&mut files, &copy.to, &text);
    }
    assert_eq!(content(&files, &mirror_a), "-- canonical v1");
    assert!(out.paths.iter().any(|p| p.is_same(&mirror_a)));

    write(&mut files, &canonical, "-- canonical v2");
    let out = apply_link_enforcement_to_changed_paths(&root, &enforcement, &vec![canonical.copy()]);
    for copy in &out.copies {
        let text = content(&files, &copy.from);
        write(&mut files, &copy.to, &text);
    }
    assert_eq!(content(&files, &mirror_a), "-- canonical v2");
    assert_eq!(content(&files, &mirror_b), "-- canonical v2");
    for wanted in [&mirror_a, &mirror_b, &canonical] {
        assert!(out.paths.iter().any(|p| p.is_same(wanted)));
    }
}

#[test]
fn apply_link_enforcement_matches_relative_changed_paths() {
    let root = path("/rel");
    let canonical = path("/rel/links/L.luau");
    let mirror = path("/rel/src/ReplicatedStorage/L.luau");
    let mut files: Vec<(String, String)> = Vec::new();
    write(&mut files, &canonical, "ok");
    write(&mut files, &mirror, "tampered");
    let mut enforcement =
        LinkEnforcement { active: true, mirror_to_canonical: Table::new(), canonical_to_mirrors: Table::new() };
    enforcement.mirror_to_canonical.put(mirror.copy(), CanonicalFile { path: canonical, read_only: true });

    let relative = path("src/ReplicatedStorage/L.luau");
    let out = apply_link_enforcement_to_changed_paths(&root, &enforcement, &vec![relative.copy()]);
    for copy in &out.copies {
        let text = content(&files, &copy.from);
        write(&mut files, &copy.to, &text);
    }
    assert_eq!(content(&files, &mirror), "ok");
    assert!(out.paths.iter().any(|p| p.is_same(&relative)));
}

#[test]
fn links_that_are_not_active_copy_nothing() {
    let mirror = path("/a/m.luau");
    let mut enforcement =
        LinkEnforcement { active: false, mirror_to_canonical: Table::new(), canonical_to_mirrors: Table::new() };
    enforcement.mirror_to_canonical.put(mirror.copy(), CanonicalFile { path: path("/a/c.luau"), read_only: true });
    let out = apply_link_enforcement_to_changed_paths(&path("/a"), &enforcement, &vec![mirror.copy()]);
    assert!(out.copies.is_empty());
    assert_eq!(out.paths.len(), 1);
}

#[test]
fn link_manifest_rejects_duplicate_ids() {
    let links = manifest(
        vec![
            entry("dup", "links/a.renium", vec![target("ReplicatedStorage", &["ReplicatedStorage", "A"])]),
            entry("dup", "links/b.renium", vec![target("ReplicatedStorage", &["ReplicatedStorage", "B"])]),
        ],
        Vec::new(),
    );
    assert_eq!(validate_link_manifest(&links).err(), Some(LinkError::DuplicateId { link: 1 }));
    assert!(validate_link_manifest(&package_manifest()).is_ok());
}

#[test]
fn package_target_settings_ids_include_existing_subtree() {
    let document = SettingsDocument {
        instances: vec![
            instance("editor:0", "ServerStorage", "ServerStorage", None),
            instance("editor:1", "PackageRoot", "Folder", Some(0)),
            instance("editor:2", "Child", "ModuleScript", Some(1)),
        ],
    };
    assert_eq!(
        package_target_settings_ids(&document, "ServerStorage", &texts(&["PackageRoot"]), &Vec::new()),
        texts(&["editor:1", "editor:2"])
    );
    assert!(package_target_settings_ids(&document, "ServerStorage", &texts(&["Nothing"]), &Vec::new()).is_empty());
}

#[test]
fn link_add_unbreaks_matching_target() {
    let pkg = target("ReplicatedStorage", &["ReplicatedStorage", "Pkg"]);
    let mut links = manifest(vec![entry("pkg", "links/pkg.renium", vec![pkg.copy()])], vec![pkg.copy()]);
    let source = parse_link_source("local", None, None, None);
    link_add(&mut links, "pkg", true, &pkg, source, false).unwrap();
    assert_eq!(links.links[0].targets.len(), 1);
    assert!(links.broken.is_empty());
}

#[test]
fn link_add_rejects_target_owned_by_another_link() {
    let country = target("StarterGui", &["StarterGui", "CountryService"]);
    let mut links = manifest(vec![entry("country-a", "links/a.renium", vec![country.copy()])], Vec::new());
    let source = parse_link_source("local", Some("links/b.renium".to_string()), None, None);
    assert_eq!(
        link_add(&mut links, "country-b", true, &country, source, false).err(),
        Some(LinkError::AlreadyOwned { link: 0 })
    );
    assert_eq!(links.links.len(), 1);
}

#[test]
fn link_sources_are_named_by_their_kind() {
    assert_eq!(parse_link_source("local", None, None, None).err(), Some(LinkError::MissingSource));
    assert_eq!(
        parse_link_source("tar", Some("x".to_string()), None, None).err(),
        Some(LinkError::UnknownSourceType)
    );
    let git = parse_link_source("git", Some("https://x".to_string()), Some("main".to_string()), None);
    assert!(matches!(git, Ok(LinkSource::Git { git_ref: Some(r), subpath: None, .. }) if r == "main"));
    let mut links = manifest(Vec::new(), Vec::new());
    let new = target("Workspace", &["Workspace", "Lib"]);
    let targets = link_add(&mut links, "lib", true, &new, Ok(local("links/Lib")), true).unwrap();
    assert_eq!(targets, 1);
    assert!(!links.links[0].read_only);
}

#[test]
fn link_move_target_rejects_target_collision() {
    let old = target("StarterGui", &["StarterGui", "OldCountryService"]);
    let new = target("StarterGui", &["StarterGui", "CountryService"]);
    let mut links = manifest(
        vec![
            entry("old-country", "links/old.renium", vec![old.copy()]),
            entry("country", "links/country.renium", vec![new.copy()]),
        ],
        Vec::new(),
    );
    let mut lock = LinkLock::new();
    assert_eq!(
        link_move_target(&mut links, &mut lock, &old, &new).err(),
        Some(LinkError::AlreadyOwned { link: 1 })
    );
    assert_eq!(link_target_segments(&links.links[0].targets[0]), texts(&["OldCountryService"]));

    let free = target("StarterGui", &["StarterGui", "Free"]);
    let moved = link_move_target(&mut links, &mut lock, &old, &free).unwrap();
    assert_eq!(moved.links, texts(&["old-country"]));
    assert!(!moved.lock_changed);
    assert_eq!(link_target_segments(&links.links[0].targets[0]), texts(&["Free"]));
    assert_eq!(link_target_ordinals(&links.links[0].targets[0]), vec![1]);
    assert_eq!(
        link_move_target(&mut links, &mut lock, &old, &target("StarterGui", &["StarterGui", "Other"])).err(),
        Some(LinkError::NotATarget)
    );
}

fn packed_content() -> PackedContent {
    PackedContent { root_id: "pkg".to_string(), hash: "h".to_string(), fingerprint: "f".to_string() }
}

#[test]
fn link_pack_resaves_existing_package_source_path() {
    let pkg = target("ReplicatedStorage", &["ReplicatedStorage", "Pkg"]);
    let mut links = manifest(vec![entry("country", "packages/current.renium", vec![pkg.copy()])], Vec::new());
    let mut lock = LinkLock::new();
    let request = PackRequest {
        target: pkg,
        id: Some("country".to_string()),
        id_valid: true,
        base: "pkg".to_string(),
        link_folder: Some("links".to_string()),
        writable: false,
    };
    let packed = link_pack(&mut links, &mut lock, &request, &packed_content()).unwrap();
    assert_eq!(packed.id, "country");
    assert_eq!(packed.source, "packages/current.renium");
    assert_eq!(links.links.len(), 1);
    assert_eq!(links.links[0].targets.len(), 1);
    match &links.links[0].source {
        LinkSource::Local { path } => assert_eq!(path, "packages/current.renium"),
        _ => panic!("expected local package source"),
    }
}

#[test]
fn link_pack_without_folder_saves_to_global_library() {
    let pkg = target("ReplicatedStorage", &["ReplicatedStorage", "Pkg"]);
    let mut links = manifest(Vec::new(), Vec::new());
    let mut lock = LinkLock::new();
    let request = PackRequest {
        target: pkg,
        id: Some("pkg".to_string()),
        id_valid: true,
        base: "pkg".to_string(),
        link_folder: None,
        writable: false,
    };
    let packed = link_pack(&mut links, &mut lock, &request, &packed_content()).unwrap();
    assert_eq!(packed.source, "~global/pkg.renium");
    match &links.links[0].source {
        LinkSource::Local { path } => assert_eq!(path, "~global/pkg.renium"),
        _ => panic!("expected local package source"),
    }
    let copy = target("ReplicatedStorage", &["ReplicatedStorage", "PkgCopy"]);
    link_add(&mut links, "pkg", true, &copy, parse_link_source("local", None, None, None), false).unwrap();
    assert_eq!(links.links[0].targets.len(), 2);
}

#[test]
fn link_pack_inlines_source_and_removes_disk_mirrors() {
    let mut document = script_package("__SOURCE_EXTERNAL__");
    let mut sources: Table<usize, String> = Table::new();
    sources.put(2, "print('packed')".to_string());
    let package = pack_subtree_to_bytecode(&document, 1, &sources).unwrap();
    let packaged = package.instances.iter().find(|i| i.name == "Child").unwrap();
    assert_eq!(text_property(packaged, "Source"), Some("print('packed')".to_string()));

    let inlined = inline_sources(&mut document, &vec![1, 2], &vec![false, false, true], &sources).unwrap();
    assert_eq!(inlined, vec![2]);
    assert_eq!(text_property(&document.instances[2], "Source"), Some("print('packed')".to_string()));
    let planned = vec![KeyedPath { path: "Pkg/Child.server.luau".to_string(), key: "pkg/child.server.luau".to_string() }];
    assert_eq!(settle_removals(&planned, &Vec::new()).len(), 1);
    assert_eq!(settle_removals(&planned, &texts(&["pkg/child.server.luau"])).len(), 0);
}

#[test]
fn a_source_that_is_not_known_is_named() {
    let mut document = script_package("__SOURCE_EXTERNAL__");
    let sources: Table<usize, String> = Table::new();
    assert_eq!(inline_sources(&mut document, &vec![2], &vec![false, false, true], &sources).err(), Some(2));
    assert_eq!(pack_subtree_to_bytecode(&document, 1, &sources).err(), Some(PackError::NoSource(2)));
}

#[test]
fn a_link_needs_an_id_that_a_file_can_have() {
    let mut links = manifest(Vec::new(), Vec::new());
    let new = target("Workspace", &["Workspace", "Lib"]);
    assert_eq!(
        link_add(&mut links, "a/b", false, &new, Ok(local("links/Lib")), true).err(),
        Some(LinkError::InvalidId)
    );
    assert!(links.links.is_empty());
    let mut lock = LinkLock::new();
    let request = PackRequest {
        target: new,
        id: Some("a/b".to_string()),
        id_valid: false,
        base: "pkg".to_string(),
        link_folder: None,
        writable: false,
    };
    assert_eq!(link_pack(&mut links, &mut lock, &request, &packed_content()).err(), Some(LinkError::InvalidId));
    assert!(links.links.is_empty());
}

#[test]
fn links_count_the_instances_of_their_sources() {
    let path = |list: &[&str]| PathKey { segments: texts(list) };
    let sources = |id: &str, kind: SourceKind, target: Option<&[&str]>, specs: Vec<PathKey>| TargetSources {
        link_id: id.to_string(),
        kind,
        target: target.map(texts),
        specs,
    };
    let links = manifest(
        vec![entry("a", "links/a", Vec::new()), entry("b", "links/b.renium", Vec::new()), entry("c", "links/c", Vec::new())],
        Vec::new(),
    );
    let all = vec![
        sources("a", SourceKind::Files, Some(&["S", "Lib"]), vec![path(&["S", "Lib", "X"])]),
        sources("a", SourceKind::Files, Some(&["S", "Two"]), vec![path(&["S", "Two", "X", "Y"]), path(&["S", "Two", "X"])]),
        sources("a", SourceKind::Files, None, vec![path(&["S", "Lib", "X"])]),
        sources("b", SourceKind::Absent, Some(&["S", "B"]), Vec::new()),
        sources("b", SourceKind::Package(7), Some(&["S", "C"]), Vec::new()),
    ];
    let counts = count_sources(&links, &all);
    assert_eq!(counts.links, vec![3, 7, 0]);
    assert_eq!(counts.targets, vec![2, 3, 0, 7, 7]);
}

#[test]
fn pack_then_materialize_round_trips_any_instance() {
    let mut block = instance("editor:2", "Block", "Part", Some(1));
    block.properties.push(Member { key: "Anchored".to_string(), value: Json::Bool(true) });
    let document = SettingsDocument {
        instances: vec![
            instance("editor:0", "ReplicatedStorage", "ReplicatedStorage", None),
            instance("editor:1", "Widget", "Folder", Some(0)),
            block,
            instance("editor:3", "Mod", "ModuleScript", Some(1)),
        ],
    };
    let widget =
        resolve_editor_instance_by_path_ordinals(&document, "ReplicatedStorage", &texts(&["Widget"]), &Vec::new()).unwrap();
    let mut sources: Table<usize, String> = Table::new();
    sources.put(3, "return 7".to_string());
    let package = pack_subtree_to_bytecode(&document, widget, &sources).unwrap();
    assert_eq!(package.instances.len(), 3);
    assert_eq!(package.instances[0].settings_id, "pkg:0");
    assert_eq!(package.instances[0].name, "Widget");
    assert_eq!(package.instances[0].parent_index, None);
    let block = package.instances.iter().find(|i| i.name == "Block").unwrap();
    assert_eq!(block.class_name, "Part");
    assert_eq!(block.parent_index, Some(0));
    assert!(matches!(block.properties.iter().find(|m| m.key == "Anchored"), Some(Member { value: Json::Bool(true), .. })));
    let module = package.instances.iter().find(|i| i.name == "Mod").unwrap();
    assert_eq!(text_property(module, "Source"), Some("return 7".to_string()));
}

#[test]
fn packing_keeps_out_of_other_links() {
    let a = target("Workspace", &["Workspace", "A"]);
    let inside = target("Workspace", &["Workspace", "A", "B"]);
    let links = vec![entry("a", "links/a.renium", vec![a.copy()])];
    assert_eq!(check_pack_target(&links, &inside.key()).err(), Some(LinkError::InsideLink { link: 0 }));
    let links = vec![entry("b", "links/b.renium", vec![inside.copy()])];
    assert_eq!(check_pack_target(&links, &a.key()).err(), Some(LinkError::ContainsLink { link: 0 }));
    assert!(check_pack_target(&links, &target("Workspace", &["Workspace", "C"]).key()).is_ok());
    let other = target("Workspace", &["Workspace", "Other"]);
    assert_eq!(free_link_id(&links, "b", &other.key()), "b-2");
    assert_eq!(free_link_id(&links, "c", &other.key()), "c");
    assert!(selector_starts_with(&texts(&["A", "B"]), &vec![1, 1], &texts(&["A"]), &vec![1]));
}

fn facts(exists: bool, matches: bool) -> PackageFacts {
    PackageFacts {
        target_exists: exists,
        target_matches: matches,
        package_hash: Some("new".to_string()),
        package_fingerprint: "print".to_string(),
        target_fingerprint: if exists { Some("there".to_string()) } else { None },
    }
}

fn locked(key: &LinkTargetRef, hash: &str) -> LinkLockEntry {
    let mut lock = LinkLockEntry::new();
    lock.packages.put(key.key(), hash.to_string());
    lock
}

fn work() -> PackageWork {
    PackageWork {
        removals: Vec::new(),
        filled_ids: texts(&["id:1"]),
        target_ids: texts(&["id:0"]),
        settings_file: KeyedPath { path: "S".to_string(), key: "s".to_string() },
    }
}

const APPLY: ApplyMode = ApplyMode { check: false, forced: false, read_only: true };

#[test]
fn link_apply_breaks_previously_applied_missing_package_target() {
    let pkg = target("ReplicatedStorage", &["ReplicatedStorage", "Pkg"]);
    let mut links = package_manifest();
    let mut lock = locked(&pkg, "new");
    let missing = facts(false, false);
    let decision = decide_package(&missing, APPLY, &lock, &pkg.key());
    assert_eq!(decision.step, PackageStep::MarkDeleted);
    let mut changes = LinkApplyChanges::new();
    apply_package(&pkg, decision, &missing, &work(), false, &mut links, &mut lock, &mut changes);
    assert_eq!(links.broken.len(), 1);
    assert_eq!(links.broken[0].key().service, "ReplicatedStorage");
    assert_eq!(links.broken[0].key().segments, texts(&["Pkg"]));
    assert_eq!(links.broken[0].key().ordinals, vec![1]);
    assert!(changes.manifest_changed);
    assert_eq!(changes.differences, 1);
    assert_eq!(changes.processed_targets, 1);
}

#[test]
fn link_apply_force_targets_recreates_missing_locked_package_target() {
    let pkg = target("ReplicatedStorage", &["ReplicatedStorage", "Pkg"]);
    let mut links = package_manifest();
    let mut lock = locked(&pkg, "new");
    let missing = facts(false, false);
    let resolved = ResolvedTarget {
        link_id: "pkg".to_string(),
        target: pkg.copy(),
        read_only: true,
        broken: false,
        resolved: true,
        has_storage: true,
        is_package: true,
    };
    assert_eq!(next_apply_step(&resolved, true, &Vec::new()), ApplyStep::Package { forced: true });
    let mode = ApplyMode { check: false, forced: true, read_only: true };
    let decision = decide_package(&missing, mode, &lock, &pkg.key());
    assert_eq!(decision.step, PackageStep::Fill { replace: true });
    let mut changes = LinkApplyChanges::new();
    apply_package(&pkg, decision, &missing, &work(), false, &mut links, &mut lock, &mut changes);
    assert!(links.broken.is_empty());
    assert!(changes.settings_ids.contains(&"id:1".to_string()));
}

#[test]
fn link_apply_force_target_path_recreates_only_named_target() {
    let pkg = target("ReplicatedStorage", &["ReplicatedStorage", "Pkg"]);
    let other = target("ReplicatedStorage", &["ReplicatedStorage", "PkgOther"]);
    let forced = vec![pkg.copy()];
    let resolve = |t: &LinkTargetRef| ResolvedTarget {
        link_id: "pkg".to_string(),
        target: t.copy(),
        read_only: true,
        broken: false,
        resolved: true,
        has_storage: true,
        is_package: true,
    };
    let mut lock = locked(&pkg, "new");
    lock.packages.put(other.key(), "new".to_string());
    let mut fills = Vec::new();
    for t in [&pkg, &other] {
        if let ApplyStep::Package { forced } = next_apply_step(&resolve(t), false, &forced) {
            let mode = ApplyMode { check: false, forced, read_only: true };
            fills.push(decide_package(&facts(false, false), mode, &lock, &t.key()).step);
        }
    }
    assert_eq!(fills, vec![PackageStep::Fill { replace: true }, PackageStep::MarkDeleted]);
}

#[test]
fn link_apply_replaces_locked_package_target_with_added_child_drift() {
    let pkg = target("ReplicatedStorage", &["ReplicatedStorage", "Pkg"]);
    let mut lock = locked(&pkg, "new");
    let drifted = facts(true, false);
    let decision = decide_package(&drifted, APPLY, &lock, &pkg.key());
    assert_eq!(decision.step, PackageStep::Fill { replace: true });
    assert!(decision.target_drift);
    record_package_step(&mut lock, &pkg.key(), decision.step, &drifted, &Some("root".to_string()));
    assert_eq!(lock.packages.get(&pkg.key()), Some(&"new".to_string()));
    let settled = facts(true, true);
    assert_eq!(decide_package(&settled, APPLY, &lock, &pkg.key()).step, PackageStep::Keep);
}

#[test]
fn link_apply_writable_package_target_preserves_local_edits() {
    let pkg = target("ReplicatedStorage", &["ReplicatedStorage", "Pkg"]);
    let mut lock = locked(&pkg, "new");
    lock.package_targets.put(pkg.key(), "print".to_string());
    let mode = ApplyMode { check: false, forced: false, read_only: false };
    let edited = facts(true, false);
    let decision = decide_package(&edited, mode, &lock, &pkg.key());
    assert_eq!(decision.step, PackageStep::Preserve { conflict: false });
    assert!(decision.preserved_edits);
    let mut other = locked(&pkg, "old");
    other.package_targets.put(pkg.key(), "print".to_string());
    let decision = decide_package(&edited, mode, &other, &pkg.key());
    assert_eq!(decision.step, PackageStep::Preserve { conflict: true });
    assert!(decision.conflict);
    let mut link = entry("pkg", "links/Pkg.renium", vec![pkg.copy()]);
    link.read_only = false;
    let mut run = link_run(manifest(vec![link], Vec::new()));
    let mut recorded = LinkLockEntry::new();
    recorded.packages.put(pkg.key(), "old".to_string());
    recorded.package_targets.put(pkg.key(), "print".to_string());
    run.lock.entries.put("pkg".to_string(), recorded);
    let input = TargetInput {
        resolved: ResolvedTarget {
            link_id: "pkg".to_string(),
            target: pkg.copy(),
            read_only: false,
            broken: false,
            resolved: true,
            has_storage: true,
            is_package: true,
        },
        resolved_ref: None,
        reason: String::new(),
        work: TargetWork::Package {
            facts: facts(true, false),
            work: work(),
        },
    };
    let options = RunOptions { check: false, force_all: false, forced: Vec::new() };
    match run.apply_target(&input, &options) {
        Ok(TargetOutcome::Package(decision)) => assert_eq!(decision.step, PackageStep::Preserve { conflict: true }),
        _ => panic!("the package was not applied"),
    }
    assert_eq!(
        run.warnings,
        texts(&["pkg: both the package and writable target ReplicatedStorage.Pkg changed since the last apply"])
    );
    let check = ApplyMode { check: true, forced: false, read_only: true };
    assert_eq!(decide_package(&edited, check, &lock, &pkg.key()).step, PackageStep::Check { differs: true });
    assert_eq!(decide_package(&facts(true, true), check, &lock, &pkg.key()).step, PackageStep::Check { differs: false });
    let forced = ApplyMode { check: false, forced: true, read_only: true };
    assert_eq!(decide_package(&facts(true, true), forced, &lock, &pkg.key()).step, PackageStep::Touch);
    let unrecorded = locked(&pkg, "new");
    assert_eq!(decide_package(&facts(true, true), APPLY, &unrecorded, &pkg.key()).step, PackageStep::Record);
}

fn mirror_file(content: &str, current: Option<&str>) -> MirrorFile {
    MirrorFile {
        mirror: KeyedPath { path: "Logger.luau".to_string(), key: "logger.luau".to_string() },
        lock_key: "Logger.luau".to_string(),
        content: content.to_string(),
        content_hash: format!("hash of {content}"),
        current: current.map(|s| s.to_string()),
        current_hash: current.map(|s| format!("hash of {s}")).unwrap_or_default(),
        exists: current.is_some(),
        changed_store: None,
        settings_id: Some("logger".to_string()),
    }
}

#[test]
fn link_apply_file_target_respects_write_policy() {
    for read_only in [false, true] {
        let logger = target("ReplicatedStorage", &["ReplicatedStorage", "Logger"]);
        let mut links = manifest(vec![entry("logger", "links/Logger.luau", vec![logger.copy()])], Vec::new());
        let mode = ApplyMode { check: false, forced: false, read_only };
        let mut lock = TargetLock::new();
        let mut changes = LinkApplyChanges::new();
        let mut output = MirrorOutput::new();
        apply_mirror(
            &logger,
            &vec![mirror_file("return 1\n", None)],
            &Vec::new(),
            false,
            mode,
            &mut links,
            &mut lock,
            &mut changes,
            &mut output,
        );
        assert_eq!(output.writes.get(&"Logger.luau".to_string()), Some(&"return 1\n".to_string()));

        let mut output = MirrorOutput::new();
        apply_mirror(
            &logger,
            &vec![mirror_file("return 1\n", Some("return 2\n"))],
            &Vec::new(),
            true,
            mode,
            &mut links,
            &mut lock,
            &mut changes,
            &mut output,
        );
        let written = output.writes.get(&"Logger.luau".to_string()).cloned();
        assert_eq!(written, if read_only { Some("return 1\n".to_string()) } else { None });
        if !read_only {
            let mut output = MirrorOutput::new();
            apply_mirror(
                &logger,
                &vec![mirror_file("return 3\n", Some("return 2\n"))],
                &Vec::new(),
                true,
                mode,
                &mut links,
                &mut lock,
                &mut changes,
                &mut output,
            );
            assert!(output.writes.get(&"Logger.luau".to_string()).is_none());
        }
    }
}

#[test]
fn link_apply_removes_stale_mirror_when_canonical_file_disappears() {
    let lib = target("ReplicatedStorage", &["ReplicatedStorage", "Lib"]);
    let mut links = manifest(vec![entry("lib", "links/Lib", vec![lib.copy()])], Vec::new());
    let mut lock = TargetLock::new();
    lock.files.put("Extra.luau".to_string(), "hash of return 1\n".to_string());
    lock.files.put("Logger.luau".to_string(), "hash of return {}\n".to_string());
    let files = vec![mirror_file("return {}\n", Some("return {}\n"))];
    assert_eq!(stale_keys(&lock, &files), texts(&["Extra.luau"]));
    let stale = vec![StaleMirror {
        mirror: KeyedPath { path: "Lib/Extra.luau".to_string(), key: "lib/extra.luau".to_string() },
        lock_key: "Extra.luau".to_string(),
        exists: true,
        current_hash: Some("hash of return 1\n".to_string()),
    }];
    let mut changes = LinkApplyChanges::new();
    let mut output = MirrorOutput::new();
    apply_mirror(&lib, &files, &stale, true, APPLY, &mut links, &mut lock, &mut changes, &mut output);
    assert!(changes.removals.iter().any(|p| p.key == "lib/extra.luau"));
    assert!(lock.files.get(&"Extra.luau".to_string()).is_none());
}

#[test]
fn link_apply_strict_fails_on_warnings() {
    let missing = ResolvedTarget {
        link_id: "missing".to_string(),
        target: target("ReplicatedStorage", &["ReplicatedStorage", "Missing"]),
        read_only: true,
        broken: false,
        resolved: false,
        has_storage: true,
        is_package: false,
    };
    assert_eq!(next_apply_step(&missing, false, &Vec::new()), ApplyStep::Warn);
    let links = manifest(vec![entry("missing", "links/DoesNotExist.luau", vec![missing.target.copy()])], Vec::new());
    let mut run = link_run(links);
    let options = RunOptions { check: false, force_all: false, forced: Vec::new() };
    let input = TargetInput {
        resolved: missing,
        resolved_ref: None,
        reason: "Local link source does not exist".to_string(),
        work: TargetWork::PackageWithoutStore,
    };
    assert!(matches!(run.apply_target(&input, &options), Ok(TargetOutcome::Warned)));
    assert_eq!(run.warnings, texts(&["missing: Local link source does not exist"]));
    assert!(!strict_failure(false, run.warnings.len()));
    assert!(strict_failure(true, run.warnings.len()));
    assert!(!strict_failure(true, 0));
}

fn link_run(manifest: LinkManifest) -> LinkRun {
    LinkRun {
        manifest,
        lock: LinkLock::new(),
        changes: LinkApplyChanges::new(),
        writes: Table::new(),
        permissions: Table::new(),
        warnings: Vec::new(),
    }
}

fn found_files(target: &LinkTargetRef, paths: &[(&str, bool)], is_package: bool) -> ResolvedFiles {
    let mirrors = paths.iter().map(|(path, exists)| MirrorPlace { path: path.to_string(), exists: *exists }).collect();
    ResolvedFiles { target: target.copy(), mirrors, is_package }
}

#[test]
fn link_break_remove_drops_manifest_target_and_keeps_mirror() {
    let logger = target("ReplicatedStorage", &["ReplicatedStorage", "Logger"]);
    let links = manifest(vec![entry("logger", "links/Logger.luau", vec![logger.copy()])], Vec::new());
    let mut run = link_run(links);
    let input = TargetInput {
        resolved: ResolvedTarget {
            link_id: "logger".to_string(),
            target: logger.copy(),
            read_only: true,
            broken: false,
            resolved: true,
            has_storage: true,
            is_package: false,
        },
        resolved_ref: None,
        reason: String::new(),
        work: TargetWork::Mirror { files: vec![mirror_file("return 1\n", None)], stale: Vec::new(), target_exists: false },
    };
    let options = RunOptions { check: false, force_all: false, forced: Vec::new() };
    assert!(run.apply_target(&input, &options).is_ok());
    let end = run_writes(run, StoreChanges { writes: Vec::new(), removals: Vec::new() }, false, true);
    let mirror = "Logger.luau".to_string();
    assert_eq!(end.writes.get(&mirror), Some(&"return 1\n".to_string()));
    assert_eq!(end.permissions.get(&mirror), Some(&true));
    assert!(end.removals.is_empty());

    let mut lock = end.lock.unwrap();
    assert!(!lock.entries.is_empty());
    let mut links = manifest(vec![entry("logger", "links/Logger.luau", vec![logger.copy()])], Vec::new());
    let selected = parse_link_target("ReplicatedStorage", r#"["ReplicatedStorage","Logger"]"#, "[]").unwrap();
    let resolved = vec![found_files(&logger, &[("Logger.luau", true)], false)];
    let broken = link_break(&mut links, &mut lock, &BreakSelection::Target(selected), true, &resolved).unwrap();
    assert_eq!(broken.targets.len(), 1);
    assert!(is_manifest_empty(&links));
    assert!(broken.manifest_removed);
    assert_eq!(broken.lock_removed, Some(true));
    assert!(lock.entries.is_empty());
    assert_eq!(broken.permissions.get(&mirror), Some(&false));
    assert!(broken.packages.is_empty());
}

#[test]
fn a_broken_target_stays_in_the_manifest_unless_it_is_removed() {
    let logger = target("ReplicatedStorage", &["ReplicatedStorage", "Logger"]);
    let other = target("ReplicatedStorage", &["ReplicatedStorage", "Other"]);
    let mut links = manifest(
        vec![entry("logger", "links/Logger.luau", vec![logger.copy()]), entry("kept", "links/Other.luau", vec![other.copy()])],
        Vec::new(),
    );
    let mut lock = LinkLock::new();
    lock.entries.put("logger".to_string(), LinkLockEntry::new());
    let resolved = vec![
        found_files(&logger, &[("A.luau", true), ("B.luau", false)], true),
        found_files(&other, &[("C.luau", true)], false),
    ];
    let selection = BreakSelection::Link("logger".to_string());
    let mut broken = link_break(&mut links, &mut lock, &selection, false, &resolved).unwrap();
    assert_eq!(links.links[0].targets.len(), 1);
    assert_eq!(links.broken.len(), 1);
    assert_eq!(broken.lock_removed, None);
    assert!(!broken.manifest_removed);
    assert!(!lock.entries.is_empty());
    assert_eq!(broken.packages.len(), 1);
    assert_eq!(broken.permissions.get(&"A.luau".to_string()), Some(&false));
    assert_eq!(broken.permissions.get(&"B.luau".to_string()), None);
    assert_eq!(broken.permissions.get(&"C.luau".to_string()), None);
    broken.unlock_sources(&texts(&["D.luau"]));
    assert_eq!(broken.permissions.get(&"D.luau".to_string()), Some(&false));
    assert_eq!(broken.permissions.get(&"A.luau".to_string()), Some(&false));
    let mut refused =
        |selection: &BreakSelection| link_break(&mut links, &mut lock, selection, false, &resolved).err();
    assert_eq!(refused(&BreakSelection::Nothing), Some(LinkError::NoSelection));
    assert_eq!(refused(&BreakSelection::Link("other".to_string())), Some(LinkError::UnknownLink));
    let elsewhere = BreakSelection::Target(target("Workspace", &["Workspace", "X"]));
    assert_eq!(refused(&elsewhere), Some(LinkError::NotATarget));
}

#[test]
fn only_the_mirrors_of_broken_targets_are_unlocked() {
    let logger = target("ReplicatedStorage", &["ReplicatedStorage", "Logger"]);
    let other = target("ReplicatedStorage", &["ReplicatedStorage", "Other"]);
    let resolved = vec![found_files(&logger, &[("A.luau", true)], false), found_files(&other, &[("B.luau", true)], false)];
    let plan = unlock_plan(&resolved, &vec![other.key()]);
    assert_eq!(plan.get(&"B.luau".to_string()), Some(&false));
    assert_eq!(plan.keys().len(), 1);
}

#[test]
fn a_target_is_read_from_its_texts() {
    let read = parse_link_target("S", r#"["S", "A"]"#, "[2]").unwrap();
    assert_eq!(read.path, texts(&["S", "A"]));
    assert_eq!(read.ords, vec![2]);
    assert_eq!(parse_link_target("S", "[1]", "[]").err(), Some(SelectorError::Path));
    assert_eq!(parse_link_target("S", r#"["S"]"#, "[-1]").err(), Some(SelectorError::Ordinals));
    assert_eq!(parse_link_target("S", "{", "[]").err(), Some(SelectorError::Path));
}

#[test]
fn packages_are_known_by_their_extension() {
    assert!(is_package_path("links/Pkg.renium"));
    assert!(!is_package_path("links/Pkg.luau"));
    assert!(is_local_package(&local("a.renium")));
    assert!(!is_local_package(&LinkSource::Wally { package: "a/b".to_string(), version: None }));
}

#[test]
fn renamed_targets_follow_their_instances() {
    let pkg = target("Workspace", &["Workspace", "Pkg"]);
    let renamed = target("Workspace", &["Workspace", "Renamed"]);
    let taken = target("Workspace", &["Workspace", "Taken"]);
    let mut links = manifest(
        vec![entry("pkg", "links/pkg.renium", vec![pkg.copy()]), entry("t", "links/t.renium", vec![taken.copy()])],
        Vec::new(),
    );
    let mut lock = LinkLock::new();
    let rename = |old: &LinkTargetRef, actual: &LinkTargetRef| RenamedTarget {
        link_id: "pkg".to_string(),
        old: old.copy(),
        actual: actual.copy(),
    };
    assert_eq!(
        reconcile_package_target_names(&mut links, &mut lock, &vec![rename(&pkg, &taken)]).err(),
        Some(RenameError::Conflict { target: 0 })
    );
    assert!(reconcile_package_target_names(&mut links, &mut lock, &vec![rename(&pkg, &renamed)]).is_ok());
    assert_eq!(link_target_segments(&links.links[0].targets[0]), texts(&["Renamed"]));
}

#[test]
fn status_counts_what_drifted() {
    let links = package_manifest();
    let fact = |resolved: bool, matches: bool, broken: bool| StatusFacts {
        link_id: "pkg".to_string(),
        broken,
        resolved,
        is_package: true,
        package_root_found: true,
        package_matches: matches,
        files: Vec::new(),
    };
    let status = link_status(&links, &vec![fact(true, true, false), fact(true, false, false), fact(true, true, true)]);
    assert_eq!(status.broken, 1);
    assert_eq!(status.drifted, 1);
    assert_eq!(status.targets.len(), 3);
    assert!(status.targets[1].drift);
    let mirrored = StatusFacts {
        link_id: "pkg".to_string(),
        broken: false,
        resolved: true,
        is_package: false,
        package_root_found: false,
        package_matches: false,
        files: vec![MirrorState { mirror: Some("a".to_string()), canonical: Some("b".to_string()) }],
    };
    assert!(link_status(&links, &vec![mirrored]).targets[0].drift);
}

#[test]
fn linked_sources_stand_for_each_instance_once() {
    let specs = vec![
        PathKey { segments: texts(&["S", "Lib", "A"]) },
        PathKey { segments: texts(&["S", "Lib", "B"]) },
        PathKey { segments: texts(&["S", "Else"]) },
    ];
    let found = link_target_source_instances(&texts(&["S", "Lib"]), &specs);
    assert_eq!(found.len(), 3);
    assert_eq!(found[0].segments, texts(&["S", "Lib"]));
    assert_eq!(found[2].segments, texts(&["S", "Lib", "B"]));
}
