use renium::adapters::count_adapters;
use renium::document::{Instance, SettingsDocument};
use renium::explain::{
    explain_candidate, explain_path, explain_path_with_answers, filter_candidates, ExplainError, PathMatch, StagedInstance,
};
use renium::fields::{
    project_structural_store, project_target_is_declarative, projection_field_owners_with_root, sorted_keys,
    validate_projection_field_ownership, OwnershipError, ProjectionFieldOwner, StoreError,
};
use renium::filter::{FilterAction, FilterRule};
use renium::json::{Json, Member, Number};
use renium::jsonc::parse_jsonc_value;
use renium::layout::{
    explicit_root_step, holds_project, layout_question, layout_source, project_counts, LayoutQuestion, RootStep, NEW_PROJECT,
};
use renium::mapping::{
    project_source_to_staged_relatives, project_staged_path_to_source, project_target_source_mappings,
    resolve_project_write_path, step_in_nested, OwnerKind, ProjectTree, WriteError, WriteStep,
};
use renium::mount::{merge_settings_document_at_target, override_stage_identity, MountError};
use renium::naming::{
    cache_script_naming, cached_script_naming, relocate_cached_script_naming, remove_cached_script_naming, NamingCache,
    ProjectScriptNaming, ScriptExtensionPolicy,
};
use renium::paths::{path_from_text, FilePath, PortableError};
use renium::project::{
    AdapterDirection, AdapterSpec, Files, LoadedProject, MetadataSidecar, MountOwnership, ProjectChild, ProjectMount, ProjectNode,
    ReniumProject, SourceKind, SyncRule, TargetProblem, TreeEntry,
};
use renium::projection::{
    compile_projection, merge_transforms, project_requires_temporary_stage, record_projection_identity, stage_sync_rule,
    ProjectionIdentity, ProjectionStage, ProjectionTransform, RuleStage, RuleStageError,
};
use renium::projects::{
    compiled_files_to_studio_filters, compiled_files_to_studio_ignore_unknown_targets, list_projects,
};
use renium::references::MountedReferenceRemapper;
use renium::rojo::has_schema_version;
use renium::roots::{list_trees, project_config_paths, project_source_roots};
use renium::sourcemap::{
    build_service_sourcemap, changes_matter, filter_sourcemap_nodes, inject_projected_transforms, make_sourcemap_paths_absolute,
    make_sourcemap_root, new_node, path_to_sourcemap_relative, put_service, rewrite_projected_paths, sort_services, MapRoot, ScriptFile,
    SourcemapNode,
};
use renium::sources::projection_source_owner_paths;
use renium::stage_document::{update_stage_instance, StageError, StageFields};
use renium::stage_files::{
    act_on_entry, cache_step, changed_services, describe_class, plan_source_directory, CacheStep, ChangedSource,
    DescriptionError, EntryAction, EntryFact,
};
use renium::stage_merge::clear_target_children;
use renium::staged_paths::{generated_staged_paths, project_source_to_staged_paths, source_owner_relative_path};
use renium::staging::{choose_class, plan_stage, ClassChoice, PlanError, StageAction};
use renium::storage::{
    forget, instances_root, prepare, register, service_directories, service_for_store, settings_path, source_directory,
    store_service_name, StorageError, StoreLayout,
};
use renium::store_moves::{check_migration, may_remove_old, plan_migration, MigrationError, MoveFact};
use renium::structure::{
    import_path_of, plain_move, prepare_import_path_files, projected_move, projected_structural_target, syncback_may_run,
    ImportAction, ImportError, ImportFile, MoveError, MoveStep, StructuralError,
};
use renium::syncback::{merge_filtered_syncback_state, snapshot_parents, SideInstances, SyncbackFilter};
use renium::table::Table;
use renium::target::{target_is_within, targets_are_equal, ProjectTarget, TargetStack};
use renium::validation::{
    ask_globs, projection_path_contains, validate_project, AdapterFact, FormatFact, ProjectError, ProjectFacts,
};
use renium::wally::{
    build_wally_realms, validate_wally_target_overlaps, wally_inputs, wally_realm_target, Realm, RealmOptions, WallyError,
};
use renium::wally_sync::{
    expected_classes, initial_wally_realm_freshness, next_realm_step, plan_realm_import, record_realm, wally_install_step,
    wally_realm_is_fresh, wally_realm_lock_key, InitialFacts, InstallStep, PathKey, RealmContent, RealmFacts, RealmStep,
    SourceSpec, SyncOptions,
};
use renium::links::{LinkLock, LinkManifest};
use renium::wally_run::planned_removal;

fn path(s: &str) -> FilePath {
    path_from_text(s)
}

fn strings(list: &[&str]) -> Vec<String> {
    list.iter().map(|s| s.to_string()).collect()
}

fn short(target: &str) -> ProjectTarget {
    ProjectTarget::Shorthand(target.to_string())
}

fn files(list: &[(&str, SourceKind)]) -> Files {
    let mut files = Files::new();
    for (name, kind) in list {
        files.note(path(name), *kind, name.to_string());
    }
    files
}

fn loaded(project: ReniumProject) -> LoadedProject {
    LoadedProject { path: path("/g/renium.project.jsonc"), root: path("/g"), project }
}

fn mount(source: &str, target: &str) -> ProjectMount {
    ProjectMount { source: path(source), target: short(target), ownership: MountOwnership::Exclusive, optional: false }
}

fn adapter(source: &str, target: &str) -> AdapterSpec {
    AdapterSpec {
        source: path(source),
        target: short(target),
        output: None,
        format: None,
        direction: AdapterDirection::ToProject,
        generated: false,
    }
}

fn service(name: &str, source: Option<&str>) -> TreeEntry {
    let mut node = ProjectNode::default();
    node.path = source.map(path);
    TreeEntry { name: name.to_string(), node }
}

fn tree(loaded: LoadedProject, nested: Vec<Option<ProjectTree>>) -> ProjectTree {
    ProjectTree { loaded, sidecars: Vec::new(), nested }
}

fn instance(id: &str, name: &str, class: &str, parent: Option<usize>) -> Instance {
    Instance::new(id.to_string(), name.to_string(), class.to_string(), parent)
}

fn document(list: Vec<Instance>) -> SettingsDocument {
    SettingsDocument { instances: list }
}

fn scripts_project() -> LoadedProject {
    let mut project = ReniumProject::default();
    project.source_root = path("code/scripts");
    loaded(project)
}

#[test]
fn migration_is_exact_resumable_and_keeps_places_independent() {
    let project = scripts_project();
    let none: Table<String, String> = Table::new();
    let there = files(&[("/g/code/scripts/Workspace/__roblox_sync_settings.renium", SourceKind::File)]);
    let layout = prepare(&project, &there, &none).unwrap();
    let moves = plan_migration(&layout, &there, &strings(&["Workspace"])).unwrap();
    assert_eq!(moves.len(), 1);
    assert_eq!(moves[0].old.to_slash(), "/g/code/scripts/Workspace/__roblox_sync_settings.renium");
    assert_eq!(moves[0].new.to_slash(), "/g/instances/Workspace.renium");
    let bytes = b"\0\xffopaque store data".to_vec();
    let fresh = MoveFact { linked: false, old: Some(bytes.clone()), new: None };
    assert_eq!(check_migration(&vec![fresh]).unwrap(), vec![0]);
    let interrupted = MoveFact { linked: false, old: Some(bytes.clone()), new: Some(bytes.clone()) };
    assert_eq!(check_migration(&vec![interrupted]).unwrap(), vec![0]);
    let gone = MoveFact { linked: false, old: None, new: Some(bytes.clone()) };
    assert!(check_migration(&vec![gone]).unwrap().is_empty());
    assert!(may_remove_old(&bytes, &bytes, &bytes));
    assert!(!may_remove_old(&bytes, &b"edited".to_vec(), &bytes));

    let mut list: Vec<StoreLayout> = Vec::new();
    register(&mut list, &there, layout);
    let mut other_project = ReniumProject::default();
    other_project.name = Some("other".to_string());
    let other = LoadedProject {
        path: path("/g/places/other/renium.project.jsonc"),
        root: path("/g/places/other"),
        project: other_project,
    };
    let other_layout = prepare(&other, &there, &none).unwrap();
    register(&mut list, &there, other_layout);
    assert_eq!(
        settings_path(&list, &there, &path("/g/places/other/src/Workspace")).unwrap().to_slash(),
        "/g/places/other/instances/Workspace.renium"
    );
    let new = path("/g/instances/Workspace.renium");
    assert_eq!(settings_path(&list, &there, &path("/g/code/scripts/Workspace")).unwrap().to_slash(), new.to_slash());
    assert_eq!(source_directory(&list, &there, &new).to_slash(), "/g/code/scripts/Workspace");
    forget(&mut list, &path("/g"));
    assert!(instances_root(&list, &there, &path("/g/code/scripts")).is_none());
}

#[test]
fn migration_conflict_preserves_every_original() {
    let facts = vec![
        MoveFact { linked: false, old: Some(b"ServerStorage".to_vec()), new: None },
        MoveFact { linked: false, old: Some(b"Workspace".to_vec()), new: Some(b"newer independent edit".to_vec()) },
    ];
    assert_eq!(check_migration(&facts).err(), Some(MigrationError::Conflict(1)));
    let linked = vec![MoveFact { linked: true, old: None, new: None }];
    assert_eq!(check_migration(&linked).err(), Some(MigrationError::Linked(0)));
}

#[test]
fn mounted_store_migrates_and_roundtrips_without_scripts() {
    let mut project = ReniumProject::default();
    project.mounts.push(mount("src/shared", "ReplicatedStorage.Shared"));
    let there = files(&[("/g/src/shared/__roblox_sync_settings.renium", SourceKind::File)]);
    let none: Table<String, String> = Table::new();
    let layout = prepare(&loaded(project), &there, &none).unwrap();
    let moves = plan_migration(&layout, &there, &Vec::new()).unwrap();
    assert_eq!(moves.len(), 1);
    assert_eq!(moves[0].new.to_slash(), "/g/instances/ReplicatedStorage/Shared.renium");
}

#[test]
fn optional_client_server_trees_keep_all_stores_outside_scripts() {
    let mut project = ReniumProject::default();
    project.tree.push(service("ServerScriptService", Some("src/server")));
    let mut scripts = ProjectNode::default();
    scripts.class_name = Some("StarterPlayerScripts".to_string());
    scripts.path = Some(path("src/client"));
    let mut player = service("StarterPlayer", None);
    player.node.children.push(ProjectChild { name: "StarterPlayerScripts".to_string(), node: Some(scripts) });
    project.tree.push(player);
    let nothing = files(&[]);
    let none: Table<String, String> = Table::new();
    let layout = prepare(&loaded(project), &nothing, &none).unwrap();
    let mut list: Vec<StoreLayout> = Vec::new();
    register(&mut list, &nothing, layout);
    assert_eq!(
        settings_path(&list, &nothing, &path("/g/src/server")).unwrap().to_slash(),
        "/g/instances/ServerScriptService.renium"
    );
    assert_eq!(
        settings_path(&list, &nothing, &path("/g/src/client")).unwrap().to_slash(),
        "/g/instances/StarterPlayer/StarterPlayerScripts.renium"
    );
}

#[test]
fn stores_without_scripts_survive_projection_and_snapshot_publication() {
    let nothing = files(&[]);
    let none: Table<String, String> = Table::new();
    let mut list: Vec<StoreLayout> = Vec::new();
    let layout = prepare(&scripts_project(), &nothing, &none).unwrap();
    register(&mut list, &nothing, layout);
    let source = path("/g/code/scripts");
    let store = path("/g/instances/Workspace.renium");
    assert_eq!(service_for_store(&list, &nothing, &source, &store), Some("Workspace".to_string()));
    assert_eq!(store_service_name(&store), Some("Workspace".to_string()));
    let services = service_directories(&source, &strings(&["A"]), &strings(&["Workspace.renium"]));
    assert_eq!(services.len(), 2);
    assert_eq!(services[1].to_slash(), "/g/code/scripts/Workspace");
}

#[test]
fn sources_may_not_hold_stores() {
    let none: Table<String, String> = Table::new();
    let nothing = files(&[]);
    let mut inside = ReniumProject::default();
    inside.source_root = path("instances/src");
    assert_eq!(prepare(&loaded(inside), &nothing, &none).err(), Some(StorageError::SourceRootHoldsStores));
    let mut outside = ReniumProject::default();
    outside.source_root = path("../src");
    assert_eq!(
        prepare(&loaded(outside), &nothing, &none).err(),
        Some(StorageError::SourceRoot(PortableError::LeavesProject))
    );
}

#[test]
fn explicit_missing_root_is_created_with_a_project_file() {
    let nothing: Vec<String> = Vec::new();
    assert_eq!(explicit_root_step(false, SourceKind::Missing, &nothing), RootStep::MakeBoth);
    assert_eq!(NEW_PROJECT, "{\n  \"schemaVersion\": 1\n}\n");
    let read = parse_jsonc_value(NEW_PROJECT).unwrap_or(Json::Null);
    assert!(has_schema_version(&read));
    assert_eq!(explicit_root_step(false, SourceKind::Directory, &strings(&["renium.project.jsonc"])), RootStep::Leave);
    assert_eq!(explicit_root_step(false, SourceKind::Directory, &nothing), RootStep::MakeProject);
    assert_eq!(explicit_root_step(false, SourceKind::Directory, &strings(&["notes.md"])), RootStep::MakeProject);
    for name in ["renium.project.json", "src", "instances", "places"] {
        assert!(holds_project(&strings(&["notes.md", name])));
        assert_eq!(explicit_root_step(false, SourceKind::Directory, &strings(&[name])), RootStep::Leave);
    }
    assert!(!holds_project(&nothing));
    assert_eq!(explicit_root_step(true, SourceKind::Directory, &nothing), RootStep::Leave);
    assert_eq!(explicit_root_step(false, SourceKind::File, &nothing), RootStep::Leave);
}

#[test]
fn the_layout_of_a_project_is_asked_for() {
    assert_eq!(layout_question(false, &path("."), &path("lib")), LayoutQuestion::Settled);
    assert_eq!(layout_question(false, &path("."), &path("src")), LayoutQuestion::Place);
    assert_eq!(layout_question(false, &path("/g"), &path("src")), LayoutQuestion::ProjectAt);
    assert_eq!(layout_question(true, &path("/g"), &path("src")), LayoutQuestion::Project);
    assert!(!project_counts(LayoutQuestion::ProjectAt, &path("/g"), &Some(path("/h"))));
    assert!(project_counts(LayoutQuestion::Project, &path("/g"), &Some(path("/h"))));
    assert_eq!(layout_source(&path("src"), &path("lib")).unwrap().to_slash(), "lib");
    assert_eq!(layout_source(&path("other"), &path("lib")).unwrap().to_slash(), "other");
    assert_eq!(layout_source(&path("src"), &path("/lib")).err(), Some(PortableError::Absolute));
}

fn mapped_project() -> ProjectTree {
    let mut project = ReniumProject::default();
    project.tree.push(service("ReplicatedStorage", Some("shared")));
    project.mounts.push(mount("lib/Log.luau", "ReplicatedStorage.Log"));
    project.adapters.push(adapter("data/items.csv", "ServerStorage.Items"));
    tree(loaded(project), Vec::new())
}

#[test]
fn sources_and_targets_lead_to_each_other() {
    let project = mapped_project();
    let mappings = project_target_source_mappings(&project).unwrap();
    let staged = project_source_to_staged_relatives(&project.loaded, &mappings, &path("/g/shared/A/B.luau"));
    assert_eq!(staged.len(), 1);
    assert_eq!(staged[0].to_slash(), "ReplicatedStorage/A/B.luau");
    let plain = project_source_to_staged_relatives(&project.loaded, &mappings, &path("/g/src/Workspace/C.luau"));
    assert_eq!(plain[0].to_slash(), "Workspace/C.luau");
    assert!(project_source_to_staged_relatives(&project.loaded, &mappings, &path("/else")).is_empty());
    let there = files(&[("/g/shared", SourceKind::Directory), ("/g/lib/Log.luau", SourceKind::File)]);
    match resolve_project_write_path(&project.loaded, &there, &path("ReplicatedStorage/A")).unwrap() {
        WriteStep::Resolved(write) => {
            assert_eq!(write.path.to_slash(), "/g/shared/A");
            assert_eq!(write.owner, OwnerKind::Tree);
            assert_eq!(write.consumed_segments, 1);
        }
        WriteStep::Nested { .. } => panic!("no project is nested"),
    }
    let back = project_staged_path_to_source(&project.loaded, &path("ReplicatedStorage/A/B.luau")).unwrap();
    assert_eq!(back.to_slash(), "/g/shared/A/B.luau");
    assert_eq!(
        resolve_project_write_path(&project.loaded, &there, &path("ReplicatedStorage/Log/Below")).err(),
        Some(WriteError::BelowFile)
    );
}

#[test]
fn names_are_counted_through_nested_projects() {
    let project = mapped_project();
    let there = files(&[("/g/shared", SourceKind::Directory)]);
    let inner = resolve_project_write_path(&project.loaded, &there, &path("ReplicatedStorage/A")).unwrap();
    match step_in_nested(2, inner) {
        WriteStep::Resolved(write) => {
            assert_eq!(write.consumed_segments, 3);
            assert_eq!(write.path.to_slash(), "/g/shared/A");
        }
        WriteStep::Nested { .. } => panic!("no project is nested"),
    }
    match step_in_nested(2, WriteStep::Nested { source: path("x"), consumed: 1 }) {
        WriteStep::Nested { source, consumed } => {
            assert_eq!(source.to_slash(), "x");
            assert_eq!(consumed, 3);
        }
        WriteStep::Resolved(_) => panic!("the project is nested"),
    }
}

#[test]
fn a_project_knows_what_it_watches() {
    let project = mapped_project();
    let there = files(&[("/g/shared", SourceKind::Directory), ("/g/lib/Log.luau", SourceKind::File)]);
    let roots: Vec<String> = project_source_roots(&project, &there).iter().map(|p| p.to_slash()).collect();
    assert_eq!(roots, strings(&["/g/data", "/g/lib", "/g/shared", "/g/src"]));
    let inner = mapped_project();
    let outer = tree(loaded(ReniumProject::default()), vec![Some(inner)]);
    assert_eq!(list_trees(&outer).len(), 2);
    assert_eq!(project_config_paths(&outer).len(), 1);
    let owners: Vec<String> = projection_source_owner_paths(&project.loaded, &there).iter().map(|p| p.to_slash()).collect();
    assert_eq!(owners, strings(&["/g/data/items.csv", "/g/lib/Log.luau", "/g/shared"]));
    let relative = source_owner_relative_path(&project.loaded, &there, &path("/g/lib/Log.luau")).unwrap();
    assert_eq!(relative.to_slash(), "Log.luau");
    let below = source_owner_relative_path(&project.loaded, &there, &path("/g/shared/A/B.luau")).unwrap();
    assert_eq!(below.to_slash(), "A/B.luau");
    assert!(source_owner_relative_path(&project.loaded, &there, &path("/else")).is_none());
}

#[test]
fn sources_lead_to_the_files_of_a_stage() {
    let project = mapped_project();
    let there = files(&[
        ("/g/shared/A.luau", SourceKind::File),
        ("/s/ReplicatedStorage/A.luau", SourceKind::File),
        ("/s/ReplicatedStorage/x.renium", SourceKind::File),
        ("/s/ServerStorage/Items.luau", SourceKind::File),
    ]);
    let mut settings: Table<String, FilePath> = Table::new();
    settings.put("ReplicatedStorage".to_string(), path("/s/ReplicatedStorage/x.renium"));
    let found = project_source_to_staged_paths(
        &there,
        &settings,
        &path("/s"),
        &path("/g/shared/A.luau"),
        None,
        &vec![path("ReplicatedStorage/A.luau")],
        &Vec::new(),
    );
    let names: Vec<String> = found.iter().map(|p| p.to_slash()).collect();
    assert_eq!(names, strings(&["/s/ReplicatedStorage/A.luau", "/s/ReplicatedStorage/x.renium"]));
    let placed = list_projects(&project).unwrap();
    let generated =
        generated_staged_paths(&placed, &vec![vec![true]], &there, &path("/s"), &path("/g/data/items.csv")).unwrap();
    assert_eq!(generated.len(), 1);
    assert_eq!(generated[0].to_slash(), "/s/ServerStorage/Items.luau");
    let none = generated_staged_paths(&placed, &vec![vec![false]], &there, &path("/s"), &path("/g/data/items.csv")).unwrap();
    assert!(none.is_empty());
}

#[test]
fn a_path_is_explained() {
    let mut project = mapped_project().loaded;
    project.project.sync_rules.push(SyncRule {
        pattern: "**/*.luau".to_string(),
        exclude: None,
        middleware: "module".to_string(),
        suffix: None,
    });
    let report = explain_path(&project, &path("shared/A.luau"), &path("A.luau"), false).unwrap();
    assert_eq!(report.matches.len(), 2);
    assert!(matches!(&report.matches[0], PathMatch::Tree { source, target } if source == "shared" && target == "ReplicatedStorage"));
    assert!(matches!(&report.matches[1], PathMatch::Rule { index: 0, selected: true, name } if name == "A"));
    assert_eq!(report.selected, Some(0));
    assert!(report.owned);
    let ignored = explain_path(&project, &path("lib/Log.luau"), &path("Log.luau"), true).unwrap();
    assert!(matches!(
        &ignored.matches[0],
        PathMatch::Mount { index: 0, source, target, ownership } if source == "lib/Log.luau"
            && target.segments() == strings(&["ReplicatedStorage", "Log"])
            && *ownership == project.project.mounts[0].ownership
    ));
    assert!(!ignored.owned);
    let adapted = explain_path(&project, &path("data/items.csv"), &path("items.csv"), false).unwrap();
    assert!(matches!(
        &adapted.matches[0],
        PathMatch::Adapter { index: 0, source, target, direction, .. } if source == "data/items.csv"
            && target.segments() == strings(&["ServerStorage", "Items"])
            && *direction == project.project.adapters[0].direction
    ));
    assert_eq!(
        explain_path_with_answers(&project, &path("x"), &path("x"), &vec![None], false).err(),
        Some(ExplainError::Pattern(0))
    );
    assert!(!explain_path(&project, &path("other.txt"), &path("other.txt"), false).unwrap().owned);
}

#[test]
fn filters_are_explained() {
    let none: Vec<String> = Vec::new();
    let candidate = renium::filter::FilterCandidate {
        id: "1",
        path: "Workspace/Part",
        name: "Part",
        class: "Part",
        tags: &none,
        attributes: &none,
        properties: &none,
    };
    let rules = vec![
        FilterRule { name: Some("Other".to_string()), ..Default::default() },
        FilterRule { action: FilterAction::Ignore, glob: Some("Workspace/**".to_string()), ..Default::default() },
    ];
    let report = explain_candidate(&rules, &candidate).unwrap();
    assert_eq!(report.matching, vec![1]);
    assert!(!report.files_to_studio);
    assert!(!report.studio_to_files);
}

fn facts(project: &LoadedProject, known: Files) -> ProjectFacts {
    ProjectFacts {
        files: known,
        adapters: project
            .project
            .adapters
            .iter()
            .map(|a| AdapterFact {
                format: Some(FormatFact { model_json: false, nested_project: false, reversible: true, generates_module: true }),
                output: a.output.as_ref().map(|p| p.copy()),
            })
            .collect(),
        formats: strings(&["csv"]),
        globs: ask_globs(&project.project),
        documents: Table::new(),
    }
}

fn known() -> Files {
    files(&[
        ("/g/src", SourceKind::Directory),
        ("/g/shared", SourceKind::Directory),
        ("/g/lib/Log.luau", SourceKind::File),
        ("/g/data/items.csv", SourceKind::File),
    ])
}

#[test]
fn projects_are_checked() {
    let empty = loaded(ReniumProject::default());
    assert_eq!(validate_project(&empty, &facts(&empty, known())), Ok(()));
    let mut wrong = loaded(ReniumProject::default());
    wrong.project.schema_version = 2;
    assert_eq!(validate_project(&wrong, &facts(&wrong, known())).err(), Some(ProjectError::SchemaVersion));
    let mut absolute = loaded(ReniumProject::default());
    absolute.project.source_root = path("/src");
    assert_eq!(
        validate_project(&absolute, &facts(&absolute, known())).err(),
        Some(ProjectError::SourceRoot(PortableError::Absolute))
    );
    let mut file = loaded(ReniumProject::default());
    file.project.source_root = path("lib/Log.luau");
    assert_eq!(validate_project(&file, &facts(&file, known())).err(), Some(ProjectError::SourceRootNotDirectory));
    let mut blank = loaded(ReniumProject::default());
    blank.project.build_target = Some(short(""));
    assert_eq!(
        validate_project(&blank, &facts(&blank, known())).err(),
        Some(ProjectError::BuildTarget(TargetProblem::EmptyName))
    );
    let mut twice = loaded(ReniumProject::default());
    twice.project.mounts.push(mount("lib/Log.luau", "ReplicatedStorage.A"));
    twice.project.mounts.push(mount("shared", "ReplicatedStorage.A.B"));
    assert!(matches!(
        validate_project(&twice, &facts(&twice, known())).err(),
        Some(ProjectError::MountOverlap(_, _)) | Some(ProjectError::MountOwner(_))
    ));
    let mut glob = loaded(ReniumProject::default());
    glob.project.glob_ignore_paths.push("[".to_string());
    assert_eq!(validate_project(&glob, &facts(&glob, known())).err(), Some(ProjectError::IgnoreGlob(0)));
    let mut filter = loaded(ReniumProject::default());
    filter.project.filters.push(FilterRule::default());
    assert_eq!(validate_project(&filter, &facts(&filter, known())).err(), Some(ProjectError::FilterEmpty(0)));
    assert!(projection_path_contains("/a", "/a/b"));
    assert!(!projection_path_contains("/a", "/ab"));
}

#[test]
fn projections_are_compiled_in_order() {
    let project = mapped_project();
    let entries = compile_projection(&project.loaded.project);
    assert_eq!(entries.len(), 3);
    let targets: Vec<&str> = entries.iter().map(|e| e.target.as_str()).collect();
    let mut sorted = targets.clone();
    sorted.sort();
    assert_eq!(targets, sorted);
    let counts = count_adapters(&project.loaded);
    assert_eq!((counts.entries, counts.adapters, counts.mounts), (3, 1, 1));
    assert!(project_requires_temporary_stage(&project.loaded, false, false));
    assert!(!project_requires_temporary_stage(&loaded(ReniumProject::default()), false, false));
    assert!(project_requires_temporary_stage(&loaded(ReniumProject::default()), true, false));
}

fn stage() -> ProjectionStage {
    ProjectionStage {
        root: path("/s"),
        temporary: true,
        cleanup: true,
        transforms: vec![ProjectionTransform {
            target: strings(&["ServerStorage", "Items"]),
            source: path("/g/data/items.csv"),
            script_class_name: Some("ModuleScript".to_string()),
        }],
        identities: Table::new(),
    }
}

#[test]
fn a_stage_knows_where_things_come_from() {
    let mut stage = stage();
    assert!(stage.is_temporary());
    assert_eq!(stage.root().to_slash(), "/s");
    let items = strings(&["ServerStorage", "Items"]);
    assert_eq!(stage.transformed_source_for_target(&items).unwrap().to_slash(), "/g/data/items.csv");
    assert!(stage.target_is_transformed(&items));
    assert_eq!(stage.transformed_scripts().len(), 1);
    record_projection_identity(&mut stage.identities, "staged", &path("/g/x.renium"), "own");
    let identity: &ProjectionIdentity = stage.canonical_identity(&"staged".to_string()).unwrap();
    assert_eq!(identity.settings_id, "own");
    assert!(merge_transforms(&stage.transforms, &Vec::new(), &strings(&["ServerStorage"])).is_empty());
    assert_eq!(merge_transforms(&stage.transforms, &Vec::new(), &strings(&["Workspace"])).len(), 1);
}

#[test]
fn rules_give_each_target_one_source() {
    let rule = SyncRule { pattern: "**".to_string(), exclude: None, middleware: "server".to_string(), suffix: None };
    let mut transforms: Vec<ProjectionTransform> = Vec::new();
    let above = strings(&["Workspace"]);
    let first = stage_sync_rule(&mut transforms, &rule, &path("Workspace/A.lua"), &above, &path("/g/A.lua"), &Vec::new());
    assert!(matches!(first, Ok(RuleStage::Script { class_name, plugin: false, .. }) if class_name == "Script"));
    let again = stage_sync_rule(&mut transforms, &rule, &path("Workspace/A.lua"), &above, &path("/g/A2.lua"), &Vec::new());
    assert!(matches!(again, Err(RuleStageError::Taken(0))));
    let unknown = SyncRule { pattern: "**".to_string(), exclude: None, middleware: "zip".to_string(), suffix: None };
    let other = stage_sync_rule(&mut transforms, &unknown, &path("Workspace/B.zip"), &above, &path("/g/B.zip"), &Vec::new());
    assert!(matches!(other, Err(RuleStageError::Unsupported)));
}

#[test]
fn stages_are_planned() {
    let there = files(&[
        ("/g/src", SourceKind::Directory),
        ("/g/shared", SourceKind::Directory),
        ("/g/lib/Log.luau", SourceKind::File),
        ("/g/data/items.csv", SourceKind::File),
    ]);
    let steps = plan_stage(&mapped_project(), &there, &None).unwrap();
    assert!(steps.iter().any(|s| matches!(&s.action, StageAction::Adapted { source, .. } if source.to_slash() == "/g/data/items.csv")));
    assert!(steps.iter().any(|s| s.target == strings(&["ReplicatedStorage", "Log"])));
    let missing = files(&[("/g/src", SourceKind::Directory), ("/g/lib/Log.luau", SourceKind::File)]);
    assert_eq!(
        plan_stage(&mapped_project(), &missing, &None).err().map(|p| p.error),
        Some(PlanError::MissingTreeSource)
    );
    let unmounted = files(&[("/g/src", SourceKind::Directory), ("/g/shared", SourceKind::Directory)]);
    assert_eq!(
        plan_stage(&mapped_project(), &unmounted, &None).err().map(|p| p.error),
        Some(PlanError::MissingMountSource)
    );
    assert_eq!(choose_class(&ClassChoice::Named("Folder".to_string()), &Some("Part".to_string())), "Folder");
    let kept = ClassChoice::Existing { otherwise: "Folder".to_string() };
    assert_eq!(choose_class(&kept, &Some("Part".to_string())), "Part");
    assert_eq!(choose_class(&kept, &None), "Folder");
}

#[test]
fn directories_are_planned_entry_by_entry() {
    let entry = |kind: SourceKind, ignored: bool, sidecar: bool, rule: Option<usize>| EntryFact {
        kind,
        is_root: false,
        ignored,
        is_sidecar: sidecar,
        rule,
    };
    let facts = vec![
        entry(SourceKind::Directory, false, false, None),
        entry(SourceKind::File, false, false, None),
        entry(SourceKind::File, true, false, None),
        entry(SourceKind::File, false, true, None),
        entry(SourceKind::File, false, false, Some(0)),
    ];
    let plan = plan_source_directory(&facts).unwrap();
    assert_eq!(plan.directories, vec![0]);
    assert_eq!(plan.copies, vec![1]);
    assert_eq!(plan.sidecars, vec![3]);
    assert_eq!(plan.ruled, vec![4]);
    assert_eq!(act_on_entry(&facts[2]), Some(EntryAction::Skip));
    assert_eq!(cache_step(false, true, true, true), CacheStep::Create);
    let change = ChangedSource {
        source: path("/g/src/Workspace/A.luau"),
        is_project: false,
        relatives: vec![path("Workspace/A.luau")],
    };
    assert_eq!(changed_services(&vec![change]), Some(strings(&["Workspace"])));
    let project = ChangedSource { source: path("/g/renium.project.jsonc"), is_project: true, relatives: Vec::new() };
    assert_eq!(changed_services(&vec![project]), None);
}

fn metadata(class: Option<&str>, version: Option<u32>) -> MetadataSidecar {
    MetadataSidecar {
        schema_version: version,
        id: None,
        class_name: class.map(|s| s.to_string()),
        properties: Vec::new(),
        attributes: Vec::new(),
        tags: None,
        ignore_unknown_instances: None,
    }
}

#[test]
fn sidecars_name_a_class() {
    let part = Some("Part".to_string());
    assert_eq!(describe_class(&metadata(Some("Model"), None), true, &part, &None).unwrap(), "Model");
    assert_eq!(describe_class(&metadata(None, Some(1)), true, &part, &None).unwrap(), "Part");
    assert_eq!(describe_class(&metadata(None, Some(2)), true, &part, &None).err(), Some(DescriptionError::SchemaVersion));
    assert_eq!(describe_class(&metadata(None, None), false, &part, &None).err(), Some(DescriptionError::NoTarget));
    assert_eq!(describe_class(&metadata(None, None), true, &None, &None).err(), Some(DescriptionError::NoClass));
}

#[test]
fn documents_take_what_is_described() {
    let mut doc = document(vec![instance("r", "Workspace", "Workspace", None)]);
    let fields = StageFields::of_class("Folder".to_string());
    update_stage_instance(&mut doc, &strings(&["Workspace", "A", "B"]), &Vec::new(), &fields).unwrap();
    assert_eq!(doc.instances.len(), 3);
    assert_eq!(doc.instances[2].name, "B");
    assert_eq!(doc.instances[2].parent_index, Some(1));
    assert_eq!(
        update_stage_instance(&mut doc, &Vec::new(), &Vec::new(), &fields).err(),
        Some(StageError::NoService)
    );
    override_stage_identity(&mut doc, &strings(&["Workspace", "A"]), &Vec::new(), &Some("Model".to_string()), &None).unwrap();
    assert_eq!(doc.instances[1].class_name, "Model");
    let missing = override_stage_identity(
        &mut doc,
        &strings(&["Workspace", "Z"]),
        &Vec::new(),
        &Some("Model".to_string()),
        &None,
    );
    assert!(missing.is_ok() || matches!(missing, Err(MountError::NoTarget)));
    let mounted = document(vec![instance("m", "Mounted", "Model", None), instance("c", "Child", "Part", Some(0))]);
    merge_settings_document_at_target(&mut doc, &mounted, &strings(&["Workspace", "A"]), &Vec::new()).unwrap();
    assert!(doc.instances.iter().any(|i| i.name == "Child" && i.class_name == "Part"));
    let cleared = clear_target_children(&doc, 1);
    assert!(!cleared.instances.iter().any(|i| i.name == "Child"));
    assert!(cleared.instances.iter().any(|i| i.name == "A"));
}

#[test]
fn references_follow_what_was_mounted() {
    let mut ids: Table<String, String> = Table::new();
    ids.put("old".to_string(), "new".to_string());
    let remapper = MountedReferenceRemapper {
        ids,
        indices: Table::new(),
        target: strings(&["Workspace", "A"]),
        target_ordinals: Vec::new(),
        internal_paths: Table::new(),
        path_root_components: 1,
    };
    let plain = Json::Number(Number::Unsigned(1));
    assert!(remapper.remap_value(&plain).unwrap().same(&plain));
    let reference = Json::Object(vec![
        Member { key: "_type".to_string(), value: Json::Text("Ref".to_string()) },
        Member { key: "settingsId".to_string(), value: Json::Text("old".to_string()) },
    ]);
    match remapper.remap_value(&reference).unwrap() {
        Json::Object(m) => {
            assert!(m.iter().any(|x| x.key == "settingsId" && matches!(&x.value, Json::Text(s) if s == "new")))
        }
        _ => panic!("a reference stays one"),
    }
}

#[test]
fn declared_fields_stay_with_their_project() {
    let mut project = ReniumProject::default();
    let mut workspace = service("Workspace", None);
    workspace.node.properties.push(Member { key: "Gravity".to_string(), value: Json::Number(Number::Unsigned(1)) });
    project.tree.push(workspace);
    let project = tree(loaded(project), Vec::new());
    let owners = projection_field_owners_with_root(&project, false).unwrap();
    assert_eq!(owners.len(), 1);
    assert_eq!(owners[0].properties, strings(&["Gravity"]));
    assert!(project_target_is_declarative(&project, &strings(&["Workspace"])).unwrap());
    let mut doc = document(vec![instance("w", "Workspace", "Workspace", None)]);
    doc.instances[0].properties.push(Member { key: "Gravity".to_string(), value: Json::Number(Number::Unsigned(1)) });
    let mut before: Table<String, SettingsDocument> = Table::new();
    before.put("Workspace".to_string(), doc);
    let mut edited = document(vec![instance("w", "Workspace", "Workspace", None)]);
    edited.instances[0].properties.push(Member { key: "Gravity".to_string(), value: Json::Number(Number::Unsigned(2)) });
    let mut after: Table<String, SettingsDocument> = Table::new();
    after.put("Workspace".to_string(), edited);
    assert!(validate_projection_field_ownership(&owners, &before, &before).is_ok());
    let problem = validate_projection_field_ownership(&owners, &after, &before).err().unwrap();
    assert_eq!(problem.error, OwnershipError::Property(0));
    let nobody = vec![ProjectionFieldOwner {
        target: Vec::new(),
        source: "x".to_string(),
        class_name: false,
        settings_id: false,
        properties: Vec::new(),
        attributes: Vec::new(),
        tags: false,
    }];
    assert_eq!(
        validate_projection_field_ownership(&nobody, &before, &before).err().map(|p| p.error),
        Some(OwnershipError::EmptyTarget)
    );
    assert_eq!(sorted_keys(&vec![Member { key: "b".to_string(), value: Json::Null }, Member { key: "a".to_string(), value: Json::Null }]), strings(&["a", "b"]));
    let there = files(&[("/g/lib/Log.luau", SourceKind::File)]);
    match resolve_project_write_path(&mapped_project().loaded, &there, &path("ReplicatedStorage/Log")).unwrap() {
        WriteStep::Resolved(write) => {
            let store = project_structural_store(&write, &there, &path("/g/s.renium"));
            assert!(store.is_ok() || matches!(store, Err(StoreError::OwnedByFile) | Err(StoreError::NoStore)));
        }
        WriteStep::Nested { .. } => panic!("no project is nested"),
    }
}

#[test]
fn nested_projects_bring_their_filters() {
    let mut inner = ReniumProject::default();
    inner.filters.push(FilterRule { name: Some("X".to_string()), ..Default::default() });
    let mut outer = ReniumProject::default();
    outer.mounts.push(mount("inner.project.json", "ReplicatedStorage.Inner"));
    let whole = tree(loaded(outer), vec![Some(tree(loaded(inner), Vec::new()))]);
    let placed = list_projects(&whole).unwrap();
    assert_eq!(placed.len(), 2);
    assert_eq!(placed[1].prefix, strings(&["ReplicatedStorage", "Inner"]));
    let filters = compiled_files_to_studio_filters(&whole).unwrap();
    let globs: Vec<&str> = filters.iter().map(|f| f.glob.as_deref().unwrap()).collect();
    assert_eq!(globs, vec!["ReplicatedStorage/Inner", "ReplicatedStorage/Inner/**"]);
    assert!(compiled_files_to_studio_ignore_unknown_targets(&whole, &strings(&["Workspace"])).is_ok());
}

fn script_file(directories: &[&str], class: &str, name: &str, file: &str) -> ScriptFile {
    ScriptFile {
        directories: strings(directories),
        class_name: class.to_string(),
        name: Some(name.to_string()),
        file: file.to_string(),
    }
}

#[test]
fn sourcemaps_list_scripts_below_their_service() {
    let scripts = vec![
        script_file(&["B"], "ModuleScript", "Two", "src/B/Two.luau"),
        script_file(&["A"], "Script", "One", "src/A/One.server.luau"),
    ];
    let node = build_service_sourcemap("Workspace", &scripts).unwrap();
    assert_eq!(node.name, "Workspace");
    assert_eq!(node.children.len(), 2);
    assert!(build_service_sourcemap("Workspace", &Vec::new()).is_none());
    let mut root = make_sourcemap_root(&path("/g/MyGame"));
    assert_eq!(root.name, "MyGame");
    assert_eq!(root.class_name, "DataModel");
    put_service(&mut root.children, "Workspace", node);
    put_service(&mut root.children, "Lighting", new_node("Lighting", "Lighting"));
    let sorted = sort_services(root.children, &strings(&["Lighting", "Workspace"]));
    assert_eq!(sorted[0].name, "Lighting");
    root.children = sorted;
    let place = MapRoot { path: path("/g"), spellings: None };
    inject_projected_transforms(&mut root.children, &place, &stage().transformed_scripts());
    assert!(root.children.iter().any(|c| c.name == "ServerStorage"));
    let mut names: Table<String, String> = Table::new();
    names.put("src/B/Two.luau".to_string(), "lib/Two.luau".to_string());
    let moved = rewrite_projected_paths(&root, &stage(), &place, &names, &Vec::new());
    let files = |map: &SourcemapNode, service: &str, below: &[&str]| {
        let mut node = map.children.iter().find(|c| c.name == service).unwrap();
        for name in below {
            node = node.children.iter().find(|c| c.name == *name).unwrap();
        }
        node.file_paths.clone()
    };
    assert_eq!(files(&moved, "Workspace", &["B", "Two"]), strings(&["lib/Two.luau"]));
    assert_eq!(files(&moved, "Workspace", &["A", "One"]), files(&root, "Workspace", &["A", "One"]));
    assert_eq!(files(&moved, "ServerStorage", &["Items"]), strings(&["data/items.csv"]));
    let absolute = make_sourcemap_paths_absolute(&root, &path("/g"));
    assert!(!absolute.children.is_empty());
    let (filtered, kept) = filter_sourcemap_nodes(&root, &strings(&["**/One.server.luau"])).unwrap();
    assert!(kept);
    assert!(filtered.children.len() <= root.children.len());
    assert_eq!(filter_sourcemap_nodes(&root, &strings(&["["])).err(), Some(0));
    assert!(changes_matter(&vec![path("/g/src/a.luau")], &None, &Vec::new(), &vec![path("/g/src")]));
    assert!(!changes_matter(&vec![path("/h/a.luau")], &None, &Vec::new(), &vec![path("/g/src")]));
}

#[test]
fn structure_commands_find_their_instance() {
    let doc = Some(document(vec![instance("w", "Workspace", "Workspace", None), instance("p", "Part", "Part", Some(0))]));
    let found = projected_structural_target(&doc, "Workspace", &Some("p".to_string())).unwrap();
    assert_eq!(found.segments, strings(&["Workspace", "Part"]));
    assert_eq!(
        projected_structural_target(&doc, "Workspace", &Some("z".to_string())).err(),
        Some(StructuralError::UnknownId)
    );
    assert_eq!(
        projected_structural_target(&None, "Workspace", &Some("p".to_string())).err(),
        Some(StructuralError::NoStore)
    );
    assert_eq!(plain_move("A", "A", true, true), Ok(MoveStep::SetParent));
    assert_eq!(plain_move("A", "B", true, true), Ok(MoveStep::BetweenStores));
    assert_eq!(plain_move("A", "B", false, true).err(), Some(MoveError::NoSourceStore));
    let id = Some("x".to_string());
    assert_eq!(projected_move(&path("/a"), &path("/b"), &id, &id), Ok(MoveStep::BetweenStores));
    assert_eq!(projected_move(&path("/a"), &path("/b"), &None, &id).err(), Some(MoveError::NoSourceId));
    assert!(syncback_may_run(true, false, false));
    assert!(!syncback_may_run(false, false, false));
}

#[test]
fn imports_write_only_what_changes() {
    let file = |present: Option<&[u8]>| ImportFile {
        destination: path("/g/a"),
        bytes: b"new".to_vec(),
        present: present.map(|b| b.to_vec()),
    };
    let plan = prepare_import_path_files(&vec![file(None), file(Some(b"new")), file(Some(b"old"))]);
    assert_eq!(plan.actions, vec![ImportAction::Create, ImportAction::Unchanged, ImportAction::Overwrite]);
    assert_eq!(plan.writes, vec![0, 2]);
    assert_eq!(import_path_of(&strings(&["Workspace"])).err(), Some(ImportError::TooShort));
    assert_eq!(import_path_of(&strings(&["Workspace", "A"])).unwrap().to_slash(), "Workspace/A");
}

#[test]
fn targets_are_compared_by_names_and_ordinals() {
    let deep = short("A.B.C");
    assert!(target_is_within(&deep, &short("A.B")));
    assert!(!target_is_within(&short("A.B"), &deep));
    let first = ProjectTarget::from_parts(strings(&["A", "B", "C"]), vec![1, 1, 1]);
    assert!(targets_are_equal(&deep, &first));
    let second = ProjectTarget::from_parts(strings(&["A", "B", "C"]), vec![1, 1, 2]);
    assert!(!targets_are_equal(&deep, &second));
    assert_eq!(second.display(), "A.B.C@[1, 1, 2]");
    assert_eq!(deep.key(), "[[\"A\",\"B\",\"C\"],[]]");
    assert_eq!(second.with_prefix(&strings(&["S"]), &vec![1]).segments(), strings(&["S", "A", "B", "C"]));
    let mut stack = TargetStack::new();
    stack.push(&second);
    assert_eq!(stack.active_target_ordinals(&strings(&["A", "B", "C"])), vec![1, 1, 2]);
    stack.pop();
    assert!(stack.active_target_ordinals(&strings(&["A", "B", "C"])).is_empty());
}

#[test]
fn script_names_are_kept_by_root() {
    let mut cache = NamingCache::new();
    let mut naming = ProjectScriptNaming::default();
    naming.extension = ScriptExtensionPolicy::Lua;
    cache_script_naming(&mut cache, &path("/g/src"), &naming);
    assert_eq!(cached_script_naming(&cache, &path("/g/src/Workspace/A")).extension, ScriptExtensionPolicy::Lua);
    relocate_cached_script_naming(&mut cache, &path("/g/src"), &path("/h/src"));
    assert_eq!(cached_script_naming(&cache, &path("/g/src")).extension, ScriptExtensionPolicy::Preserve);
    assert_eq!(cached_script_naming(&cache, &path("/h/src")).extension, ScriptExtensionPolicy::Lua);
    remove_cached_script_naming(&mut cache, &path("/h/src"));
    assert_eq!(cached_script_naming(&cache, &path("/h/src")).extension, ScriptExtensionPolicy::Preserve);
}

fn realm_options(name: &str) -> RealmOptions {
    RealmOptions {
        packages_dir: name.to_string(),
        service: "ReplicatedStorage".to_string(),
        service_valid: true,
        target_name: name.to_string(),
        target_valid: true,
    }
}

#[test]
fn package_realms_are_told_apart() {
    let realms =
        build_wally_realms("shared,server", &realm_options("Packages"), &realm_options("ServerPackages"), &realm_options("Dev"))
            .unwrap();
    assert_eq!(realms.len(), 2);
    assert_eq!(realms[0].realm, Realm::Shared);
    assert_eq!(realms[0].realm.name(), "shared");
    assert_eq!(wally_realm_target(&realms[0]).path.last(), Some(&"Packages".to_string()));
    let links = LinkManifest { version: 1, cache_dir: None, links: Vec::new(), broken: Vec::new() };
    assert!(validate_wally_target_overlaps(&realms, &links).is_ok());
    let same = build_wally_realms("shared,server", &realm_options("P"), &realm_options("P"), &realm_options("Dev")).unwrap();
    assert!(matches!(validate_wally_target_overlaps(&same, &links), Err(WallyError::Overlap { .. })));
    assert_eq!(
        build_wally_realms("moon", &realm_options("P"), &realm_options("S"), &realm_options("D")).err(),
        Some(WallyError::UnknownRealm)
    );
    assert_eq!(
        build_wally_realms("shared", &realm_options(" "), &realm_options("S"), &realm_options("D")).err(),
        Some(WallyError::EmptyTarget { realm: Realm::Shared })
    );
    assert_eq!(wally_inputs(&vec![7], &vec![8, 9]), vec![1, 0, 0, 0, 0, 0, 0, 0, 7, 2, 0, 0, 0, 0, 0, 0, 0, 8, 9]);
    let mut lock = LinkLock::new();
    let key = wally_realm_lock_key(&realms[0], "owner", "root");
    record_realm(&mut lock, &key, Some("hash".to_string()));
    assert!(lock.entries.get(&key).is_some());
    record_realm(&mut lock, &key, None);
    assert!(lock.entries.get(&key).is_none());
}

#[test]
fn realms_are_imported_when_they_are_not_fresh() {
    let fact = InitialFacts {
        required: true,
        has_storage: true,
        packages_present: true,
        has_settings: true,
        locked: true,
        hash_matches: true,
        content_fresh: true,
    };
    let (all, each) = initial_wally_realm_freshness(false, &vec![fact]);
    assert!(all);
    assert_eq!(each, vec![Some(true)]);
    let (forced, _) = initial_wally_realm_freshness(true, &vec![fact]);
    assert!(!forced);
    assert_eq!(wally_install_step(true, false), InstallStep::Skipped);
    assert_eq!(wally_install_step(false, true), InstallStep::Current);
    assert_eq!(wally_install_step(false, false), InstallStep::Run);
    let options = SyncOptions { force: true, skip_install: false, initial_hash: "a".to_string(), hash: "a".to_string() };
    let facts = RealmFacts {
        packages_present: false,
        has_storage: true,
        has_settings: true,
        locked: false,
        previous_hash: None,
        initially_fresh: None,
        content_fresh: false,
    };
    assert_eq!(next_realm_step(true, &facts, &options), RealmStep::Import { make_directory: true });
    let skipped = SyncOptions { force: true, skip_install: true, initial_hash: "a".to_string(), hash: "a".to_string() };
    assert_eq!(next_realm_step(true, &facts, &skipped), RealmStep::Fail(WallyError::NotInstalled));
    assert_eq!(next_realm_step(false, &facts, &skipped), RealmStep::Ignore);
    let mut content = RealmContent {
        packages_present: true,
        folder_plain: true,
        expected: Table::new(),
        actual: Table::new(),
        fingerprint: Some("f".to_string()),
        expected_fingerprint: Some("f".to_string()),
    };
    assert!(wally_realm_is_fresh(&content));
    content.actual.put("a.lua".to_string(), vec![1]);
    assert!(!wally_realm_is_fresh(&content));
    let spec = |path: &[&str], class: &str| SourceSpec { path: strings(path), class_name: class.to_string() };
    let classes = expected_classes(&strings(&["S", "P"]), &vec![spec(&["S", "P", "A"], "ModuleScript")]).unwrap();
    assert_eq!(classes.get(&PathKey { segments: strings(&["A"]) }), Some(&"ModuleScript".to_string()));
    assert!(matches!(
        expected_classes(&strings(&["S", "P"]), &vec![spec(&["S", "Q"], "Folder")]),
        Err(WallyError::OutsideTarget { source: 0 })
    ));
    let doc = document(vec![instance("s", "S", "S", None), instance("p", "P", "Folder", Some(0))]);
    let plan = plan_realm_import(&doc, 1, &strings(&["P"]), &classes).ok().unwrap();
    assert_eq!(plan.removed, strings(&["p"]));
    let told = plan.removed_target.as_ref().unwrap();
    let member = |key: &str, value: Json| Member { key: key.to_string(), value };
    assert!(told.same(&Json::Object(vec![
        member("settingsId", Json::Text("p".to_string())),
        member("className", Json::Text("Folder".to_string())),
        member("pathSegments", Json::Array(vec![Json::Text("S".to_string()), Json::Text("P".to_string())])),
        member("pathOrdinals", Json::Array(vec![Json::Number(Number::Unsigned(1)), Json::Number(Number::Unsigned(1))])),
    ])));
    let removal = planned_removal(plan, Vec::new());
    assert_eq!(removal.settings_ids, strings(&["p"]));
    assert!(removal.target.is_some());
    assert!(matches!(plan_realm_import(&doc, 0, &Vec::new(), &Table::new()), Err(WallyError::NotAFolder)));
    let doc = document(vec![instance("f", "F", "Folder", None), instance("m", "M", "ModuleScript", Some(0))]);
    let whole = plan_realm_import(&doc, 0, &Vec::new(), &Table::new()).ok().unwrap();
    assert_eq!(whole.removed, strings(&["m"]));
    assert!(whole.removed_target.is_none());
}

#[test]
fn realms_need_names_that_a_directory_can_have() {
    let mut bad_service = realm_options("P");
    bad_service.service_valid = false;
    assert_eq!(
        build_wally_realms("shared", &bad_service, &realm_options("S"), &realm_options("D")).err(),
        Some(WallyError::InvalidService { realm: Realm::Shared })
    );
    let mut bad_target = realm_options("P");
    bad_target.target_valid = false;
    assert_eq!(
        build_wally_realms("server", &realm_options("P"), &bad_target, &realm_options("D")).err(),
        Some(WallyError::InvalidTarget { realm: Realm::Server })
    );
}

#[test]
fn source_maps_know_a_directory_in_another_spelling() {
    let plain = MapRoot { path: path("/g"), spellings: None };
    assert_eq!(path_to_sourcemap_relative(&plain, &path("/g/src/A.luau")), "src/A.luau");
    assert_eq!(path_to_sourcemap_relative(&plain, &path("/h/A.luau")), "/h/A.luau");
    let mut spellings = Files::new();
    spellings.note(path("C:/Game"), SourceKind::Directory, "c:/game".to_string());
    spellings.note(path("c:/GAME/src/A.luau"), SourceKind::File, "c:/game/src/a.luau".to_string());
    spellings.note(path("c:/GAME/\u{130}/B.luau"), SourceKind::File, "c:/game/i\u{307}/b.luau".to_string());
    let spelled = MapRoot { path: path("C:/Game"), spellings: Some(spellings) };
    assert_eq!(path_to_sourcemap_relative(&spelled, &path("c:/GAME/src/A.luau")), "src/A.luau");
    assert_eq!(path_to_sourcemap_relative(&spelled, &path("c:/GAME/\u{130}/B.luau")), "/\u{130}/B.luau");
}

#[test]
fn links_that_lead_nowhere_are_no_stores() {
    let none: Table<String, String> = Table::new();
    let mut there = Files::new();
    let store = "/g/src/Workspace/__roblox_sync_settings.renium";
    there.note(path(store), SourceKind::Link, store.to_string());
    let layout = prepare(&loaded(ReniumProject::default()), &there, &none).unwrap();
    assert!(plan_migration(&layout, &there, &strings(&["Workspace"])).unwrap().is_empty());
    there.note_link(path(store), SourceKind::File, store.to_string());
    assert_eq!(plan_migration(&layout, &there, &strings(&["Workspace"])).err(), Some(MigrationError::Linked(0)));
    assert_eq!(there.kind(&path(store)), SourceKind::File);
    assert_eq!(there.own_kind(&path(store)), SourceKind::Link);
}

#[test]
fn paths_are_told_with_the_instances_they_stand_for() {
    let staged = |source: Option<&str>, path: &[&str]| StagedInstance {
        source: source.map(|s| s.to_string()),
        path: strings(path),
    };
    let all = vec![
        staged(None, &["Workspace"]),
        staged(Some("/stage/Workspace/A.luau"), &["Workspace", "A"]),
        staged(Some("/stage/Workspace/B.luau"), &["Workspace", "B"]),
    ];
    assert_eq!(filter_candidates(&all, &strings(&["/stage/Workspace/B.luau"]), &None), vec![2]);
    assert_eq!(filter_candidates(&all, &Vec::new(), &Some(strings(&["Workspace", "A"]))), vec![1]);
    assert_eq!(
        filter_candidates(&all, &strings(&["/stage/Workspace/B.luau"]), &Some(strings(&["Workspace"]))),
        vec![0, 2]
    );
    assert!(filter_candidates(&all, &Vec::new(), &None).is_empty());
}

#[test]
fn filtered_instances_keep_what_is_not_taken() {
    assert_eq!(snapshot_parents(&vec![vec![1, 2], Vec::new(), Vec::new()], 3), vec![None, Some(0), Some(0)]);
    let incoming = SideInstances { ids: strings(&["root", "new"]), parents: vec![None, Some(0)] };
    let existing = SideInstances { ids: strings(&["root", "old"]), parents: vec![None, Some(0)] };
    let keep = SyncbackFilter { allowed: vec![true, true], removable: vec![false, false] };
    let merged = merge_filtered_syncback_state(&incoming, &existing, 0, &keep).unwrap();
    assert_eq!(merged.len(), 3);
    let drop = SyncbackFilter { allowed: vec![true, true], removable: vec![false, true] };
    let merged = merge_filtered_syncback_state(&incoming, &existing, 0, &drop).unwrap();
    assert_eq!(merged.len(), 2);
}
