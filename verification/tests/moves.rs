use renium::document::{Instance, SettingsDocument};
use renium::json::Json;
use renium::links::{link_target_output_ordinals, LinkLock, LinkLockEntry};
use renium::mapping::{
    project_target_source_mappings, staged_path_to_project_source, OwnerKind, ProjectTree, ProjectWriteResolution, ScriptName,
};
use renium::mount::merge_settings_mount;
use renium::naming::{cached_script_naming, refresh_script_naming, NamingCache, ProjectScriptNaming, ScriptExtensionPolicy};
use renium::pack::clear_children;
use renium::paths::{path_from_text, FilePath};
use renium::project::{Files, LoadedProject, MountOwnership, ProjectMount, ReniumProject, SourceKind, SyncRule};
use renium::projection::{merge_identities, ProjectionIdentity, ProjectionStage, ProjectionTransform};
use renium::stage_files::{is_claimed, plan_script_patches, source_shape_changed, ChangedSource};
use renium::stage_merge::{merge_source_only_document, settle_imported_model};
use renium::rules::IgnoreError;
use renium::stage_sources::{
    files_need_stage, generated_fields, source_files_require_stage, FileAnswers, GeneratedKind, NeedError, SourceFile,
};
use renium::storage::{prepare, register, relocated_legacy_path, source_directory_exists, StoreLayout};
use renium::store_moves::{copy_stores_to_stage, legacy_store_paths, migration_locks, StoreMove};
use renium::structure::{
    import_path_json_destination, import_place_of_file, import_places, import_source_suffix, import_target,
    projected_structural_store, validate_import_destination_ownership, ImportError, ImportTarget, StructuralError,
    StructuralFacts, StructuralTarget,
};
use renium::table::Table;
use renium::target::ProjectTarget;
use renium::wally::{Realm, WallyRealm};
use renium::wally_sync::{may_skip_unowned_realm, wally_realm_lock_key, wally_unowned_lock_key};

fn path(s: &str) -> FilePath {
    path_from_text(s)
}

fn strings(list: &[&str]) -> Vec<String> {
    list.iter().map(|s| s.to_string()).collect()
}

fn files(list: &[(&str, SourceKind)]) -> Files {
    let mut files = Files::new();
    for (name, kind) in list {
        files.note(path(name), *kind, name.to_string());
    }
    files
}

fn loaded(project: ReniumProject) -> LoadedProject {
    LoadedProject { path: path("/g/renium.project.jsonc"), root: path("/g"), project }
}

fn instance(id: &str, name: &str, class: &str, parent: Option<usize>) -> Instance {
    Instance::new(id.to_string(), name.to_string(), class.to_string(), parent)
}

fn document(instances: Vec<Instance>) -> SettingsDocument {
    SettingsDocument { instances }
}

fn names(doc: &SettingsDocument) -> Vec<&str> {
    doc.instances.iter().map(|i| i.name.as_str()).collect()
}

#[test]
fn ordinals_are_written_where_one_counts() {
    assert!(link_target_output_ordinals(vec![1, 1]).is_empty());
    assert_eq!(link_target_output_ordinals(vec![1, 2]), vec![1, 2]);
}

#[test]
fn staged_files_lead_to_their_sources() {
    let mut project = ReniumProject::default();
    project.mounts.push(ProjectMount {
        source: path("lib"),
        target: ProjectTarget::Shorthand("ReplicatedStorage.Lib".to_string()),
        ownership: MountOwnership::Exclusive,
        optional: false,
    });
    let tree = ProjectTree { loaded: loaded(project), sidecars: Vec::new(), nested: Vec::new() };
    let mappings = project_target_source_mappings(&tree).unwrap();
    let there = files(&[("/g/lib", SourceKind::Directory)]);
    let scripts: Vec<ScriptName> = mappings.iter().map(|_| ScriptName::Named("Log".to_string())).collect();
    let staged = path("ReplicatedStorage/Lib/Log.luau");
    let source = staged_path_to_project_source(&tree.loaded, &mappings, &scripts, &there, &staged);
    assert_eq!(source.to_slash(), "/g/lib/Log.luau");
    let plain = staged_path_to_project_source(&tree.loaded, &mappings, &scripts, &there, &path("Workspace/Log.luau"));
    assert_eq!(plain.to_slash(), "/g/src/Workspace/Log.luau");
}

#[test]
fn a_mounted_document_takes_its_place() {
    let mut doc = document(vec![instance("r", "ReplicatedStorage", "ReplicatedStorage", None)]);
    let mounted = document(vec![
        instance("m", "Lib", "Folder", None),
        instance("l", "Log", "ModuleScript", Some(0)),
    ]);
    let target = strings(&["ReplicatedStorage", "Shared"]);
    assert_eq!(merge_settings_mount(&mut doc, &mounted, &target, &vec![1, 1], &vec![1]), Ok(()));
    assert_eq!(names(&doc), vec!["ReplicatedStorage", "Shared", "Log"]);
    assert_eq!(doc.instances[2].parent_index, Some(1));
}

#[test]
fn a_naming_is_remembered_for_its_directory() {
    let mut cache = NamingCache { rows: Table::new() };
    let mut naming = ProjectScriptNaming::default();
    naming.extension = ScriptExtensionPolicy::Lua;
    refresh_script_naming(&mut cache, &path("/g"), Some(naming));
    assert_eq!(cached_script_naming(&cache, &path("/g/src/A")).extension, ScriptExtensionPolicy::Lua);
    refresh_script_naming(&mut cache, &path("/g/src"), None);
    assert_eq!(
        cached_script_naming(&cache, &path("/g/src/A")).extension,
        ProjectScriptNaming::default().extension
    );
}

#[test]
fn an_instance_loses_what_is_below_it() {
    let mut doc = document(vec![
        instance("r", "Root", "Folder", None),
        instance("a", "A", "Folder", Some(0)),
        instance("b", "B", "Folder", Some(1)),
        instance("c", "C", "Folder", Some(0)),
    ]);
    clear_children(&mut doc, 1);
    assert_eq!(names(&doc), vec!["Root", "A", "C"]);
    assert_eq!(doc.instances[2].parent_index, Some(0));
}

#[test]
fn refreshed_identities_take_the_place_of_replaced_ones() {
    let identity = |id: &str| ProjectionIdentity { source: path("/g/x.renium"), settings_id: id.to_string() };
    let mut all: Table<String, ProjectionIdentity> = Table::new();
    all.put("a".to_string(), identity("1"));
    all.put("b".to_string(), identity("2"));
    all.put("c".to_string(), identity("3"));
    let mut refreshed: Table<String, ProjectionIdentity> = Table::new();
    refreshed.put("b".to_string(), identity("4"));
    merge_identities(&mut all, &strings(&["a", "b"]), &refreshed);
    assert!(!all.contains(&"a".to_string()));
    assert_eq!(all.get(&"b".to_string()).unwrap().settings_id, "4");
    assert_eq!(all.get(&"c".to_string()).unwrap().settings_id, "3");
}

#[test]
fn claimed_paths_are_left_out() {
    let claims = strings(&["/g/a", "/g/b"]);
    assert!(is_claimed("/g/a", &claims, false, "/g/a"));
    assert!(!is_claimed("/g/a", &claims, true, "/g/a"));
    assert!(is_claimed("/g/b", &claims, true, "/g/a"));
    assert!(!is_claimed("/g/c", &claims, false, "/g/a"));
}

#[test]
fn a_shape_changes_with_the_kind_of_a_path() {
    let mut shape: Table<String, SourceKind> = Table::new();
    shape.put("/g/A.luau".to_string(), SourceKind::File);
    let there = files(&[("/g/A.luau", SourceKind::File), ("/g/B.luau", SourceKind::File)]);
    assert!(!source_shape_changed(&shape, &there, &vec![path("/g/A.luau")]));
    assert!(source_shape_changed(&shape, &there, &vec![path("/g/A.luau"), path("/g/B.luau")]));
}

#[test]
fn changed_scripts_are_copied_over_their_staged_copies() {
    let there = files(&[("/g/A.luau", SourceKind::File), ("/s/Workspace/A.luau", SourceKind::File)]);
    let change = |source: &str, relative: &str| ChangedSource {
        source: path(source),
        is_project: false,
        relatives: vec![path(relative)],
    };
    let patches = plan_script_patches(&path("/s"), &there, &vec![change("/g/A.luau", "Workspace/A.luau")]).unwrap();
    assert_eq!(patches.len(), 1);
    assert_eq!(patches[0].destination.to_slash(), "/s/Workspace/A.luau");
    assert!(plan_script_patches(&path("/s"), &there, &vec![change("/g/A.luau", "Workspace/B.luau")]).is_none());
    assert!(plan_script_patches(&path("/s"), &there, &vec![change("/g/A.json", "Workspace/A.luau")]).is_none());
}

#[test]
fn instances_of_scripts_join_a_document() {
    let mut empty = document(Vec::new());
    let generated = document(vec![
        instance("g", "Workspace", "Workspace", None),
        instance("s", "Main", "Script", Some(0)),
    ]);
    merge_source_only_document(&mut empty, &Vec::new(), &generated, &strings(&["w", "-"]), &strings(&["-", "m"]));
    assert_eq!(names(&empty), vec!["Workspace", "Main"]);
}

#[test]
fn an_imported_model_takes_the_name_of_its_target() {
    let target = strings(&["Workspace", "Crate"]);
    let mut one = document(vec![
        instance("w", "Workspace", "Workspace", None),
        instance("m", "Model", "Model", Some(0)),
    ]);
    assert!(settle_imported_model(&mut one, &target, 0, &strings(&["m"])));
    assert_eq!(names(&one), vec!["Workspace", "Crate"]);

    let mut several = document(vec![
        instance("w", "Workspace", "Workspace", None),
        instance("a", "A", "Part", Some(0)),
        instance("b", "B", "Part", Some(0)),
    ]);
    assert!(settle_imported_model(&mut several, &target, 0, &strings(&["a", "b"])));
    assert_eq!(names(&several), vec!["Workspace", "A", "B", "Crate"]);
    assert_eq!(several.instances[3].class_name, "Folder");
    assert_eq!(several.instances[1].parent_index, Some(3));
    assert_eq!(several.instances[2].parent_index, Some(3));
}

fn layouts(there: &Files) -> Vec<StoreLayout> {
    let none: Table<String, String> = Table::new();
    let mut list: Vec<StoreLayout> = Vec::new();
    let layout = prepare(&loaded(ReniumProject::default()), there, &none).unwrap();
    register(&mut list, there, layout);
    list
}

#[test]
fn stores_beside_scripts_have_a_new_place() {
    let there = files(&[("/g/instances/Workspace.renium", SourceKind::File), ("/g/src/Lighting", SourceKind::Directory)]);
    let list = layouts(&there);
    let old = path("src/Workspace/__roblox_sync_settings.renium");
    let new = relocated_legacy_path(&list, &there, &path("/g"), &old).unwrap();
    assert_eq!(new.to_slash(), "instances/Workspace.renium");
    assert!(relocated_legacy_path(&list, &there, &path("/g"), &path("src/Workspace/A.luau")).is_none());
    assert!(source_directory_exists(&list, &there, &path("/g/src/Workspace")));
    assert!(source_directory_exists(&list, &there, &path("/g/src/Lighting")));
    assert!(!source_directory_exists(&list, &there, &path("/g/src/Teams")));

    let moves = legacy_store_paths(&list, &there, &path("/g"), &vec![path("/g/src/Workspace")]).unwrap();
    assert_eq!(moves.len(), 1);
    assert_eq!(moves[0].old.to_slash(), "src/Workspace/__roblox_sync_settings.renium");
    assert_eq!(moves[0].new.to_slash(), "instances/Workspace.renium");

    let copies = copy_stores_to_stage(
        &list,
        &there,
        &path("/g/src"),
        &vec![path("/g/src/Workspace"), path("/g/src/Lighting")],
        &path("/s"),
    );
    assert_eq!(copies.len(), 1);
    assert_eq!(copies[0].old.to_slash(), "/g/instances/Workspace.renium");
    assert_eq!(copies[0].new.to_slash(), "/s/Workspace/__roblox_sync_settings.renium");
}

#[test]
fn a_migration_locks_each_store_once() {
    let moves = vec![
        StoreMove { old: path("/g/b"), new: path("/g/c") },
        StoreMove { old: path("/g/a"), new: path("/g/c") },
    ];
    let locks: Vec<String> = migration_locks(&moves).iter().map(|p| p.to_slash()).collect();
    assert_eq!(locks, strings(&["/g/a", "/g/b", "/g/c"]));
}

fn stage() -> ProjectionStage {
    let mut identities: Table<String, ProjectionIdentity> = Table::new();
    identities.put(
        "staged".to_string(),
        ProjectionIdentity { source: path("/g/instances/Workspace.renium"), settings_id: "own".to_string() },
    );
    ProjectionStage {
        root: path("/s"),
        temporary: true,
        cleanup: true,
        transforms: vec![ProjectionTransform {
            target: strings(&["ServerStorage", "Items"]),
            source: path("/g/data/items.csv"),
            script_class_name: None,
        }],
        identities,
    }
}

#[test]
fn a_staged_id_leads_to_the_id_of_its_store() {
    let there = files(&[]);
    let facts = |read_only: bool, store: &str| StructuralFacts {
        read_only,
        declarative: true,
        store: path(store),
        document: document(vec![instance("known", "Part", "Part", None)]),
    };
    let own = facts(false, "/g/instances/Workspace.renium");
    let part = StructuralTarget { segments: strings(&["Workspace", "Part"]), ordinals: vec![1, 1] };
    let staged = Some("staged".to_string());
    let ask = |target: &StructuralTarget, id: &Option<String>, strict: bool, facts: &StructuralFacts| {
        projected_structural_store(&stage(), &there, target, id, strict, facts)
    };
    assert_eq!(ask(&part, &staged, false, &own), Ok(Some("own".to_string())));
    assert_eq!(ask(&part, &Some("known".to_string()), false, &own), Ok(Some("known".to_string())));
    assert_eq!(ask(&part, &None, false, &own), Ok(None));
    assert_eq!(ask(&part, &Some("else".to_string()), false, &own), Err(StructuralError::OnlyDescribed));
    assert_eq!(ask(&part, &staged, true, &own), Err(StructuralError::Declarative));
    assert_eq!(
        ask(&part, &staged, false, &facts(false, "/g/instances/Lighting.renium")),
        Err(StructuralError::OtherStore)
    );
    assert_eq!(
        ask(&part, &staged, false, &facts(true, "/g/instances/Workspace.renium")),
        Err(StructuralError::ReadOnly)
    );
    let second = StructuralTarget { segments: strings(&["Workspace", "Part"]), ordinals: vec![1, 2] };
    assert_eq!(ask(&second, &None, false, &own), Err(StructuralError::Duplicate));
    let made = StructuralTarget { segments: strings(&["ServerStorage", "Items", "A"]), ordinals: vec![1, 1, 1] };
    assert_eq!(ask(&made, &staged, false, &own), Err(StructuralError::Transformed));
}

fn resolution(place: &str, owner: OwnerKind) -> ProjectWriteResolution {
    ProjectWriteResolution {
        path: path(place),
        source_root: path("/g/src"),
        owner,
        consumed_segments: 0,
        naming: ProjectScriptNaming::default(),
    }
}

#[test]
fn imported_files_keep_their_suffix() {
    let named = ScriptName::Named("Main".to_string());
    assert_eq!(import_source_suffix("Main.server.luau", &named), Some(".server.luau".to_string()));
    assert_eq!(import_source_suffix("init.client.lua", &ScriptName::Directory), Some(".client.lua".to_string()));
    assert_eq!(import_source_suffix("a.model.json", &ScriptName::NotAScript), Some(".model.json".to_string()));
    assert_eq!(import_source_suffix("a.rbxm", &ScriptName::NotAScript), Some(".rbxm".to_string()));
    assert_eq!(import_source_suffix("a", &ScriptName::NotAScript), None);

    let suffix = Some(".server.luau".to_string());
    let place = import_path_json_destination(&resolution("/g/src/A", OwnerKind::SourceRoot), true, &suffix).unwrap();
    assert_eq!(place.to_slash(), "/g/src/A.server.luau");
    let same = import_path_json_destination(&resolution("/g/src/A", OwnerKind::SourceRoot), false, &suffix).unwrap();
    assert_eq!(same.to_slash(), "/g/src/A");
    let adapted = import_path_json_destination(&resolution("/g/src/A", OwnerKind::Adapter), true, &suffix);
    assert_eq!(adapted.err(), Some(ImportError::Adapter));
    let bare = import_path_json_destination(&resolution("/g/src/A", OwnerKind::SourceRoot), true, &None);
    assert_eq!(bare.err(), Some(ImportError::NoExtension));
}

#[test]
fn imported_files_have_their_places() {
    let places = import_places(&path("/g/src/A"), &vec![path("B.luau"), path("C/D.luau")]);
    assert_eq!(places[0].to_slash(), "/g/src/A/B.luau");
    assert_eq!(places[1].to_slash(), "/g/src/A/C/D.luau");
    assert_eq!(import_place_of_file(&path("/g/src"), true, "E.luau").to_slash(), "/g/src/E.luau");
    assert_eq!(import_place_of_file(&path("/g/src/F.luau"), false, "E.luau").to_slash(), "/g/src/F.luau");
    let segments = strings(&["Workspace", "A", "init.luau"]);
    assert_eq!(import_target(&segments, &ScriptName::Directory), strings(&["Workspace", "A"]));
    assert_eq!(import_target(&segments, &ScriptName::Named("X".to_string())), strings(&["Workspace", "A", "X"]));
    assert_eq!(import_target(&segments, &ScriptName::NotAScript), segments);
}

#[test]
fn imports_stay_with_their_owner() {
    let fact = |declarative: bool, owner: OwnerKind, root: &str| {
        vec![ImportTarget { declarative, owner, source_root: path(root) }]
    };
    let part = vec![strings(&["Workspace", "A"])];
    let place = path("/g/src/Workspace/A.luau");
    let check = |targets: &Vec<Vec<String>>, facts: &Vec<ImportTarget>| {
        validate_import_destination_ownership(&stage(), &place, targets, facts)
    };
    assert_eq!(check(&part, &fact(false, OwnerKind::SourceRoot, "/g/src")), Ok(()));
    assert_eq!(check(&Vec::new(), &Vec::new()), Err(ImportError::Unowned));
    assert_eq!(check(&part, &fact(true, OwnerKind::SourceRoot, "/g/src")), Err(ImportError::Declarative));
    assert_eq!(check(&part, &fact(false, OwnerKind::Adapter, "/g/src")), Err(ImportError::Adapter));
    assert_eq!(check(&part, &fact(false, OwnerKind::Mount, "/g/lib")), Err(ImportError::Shadowed));
    assert_eq!(check(&vec![Vec::new()], &fact(false, OwnerKind::Tree, "/g/src")), Err(ImportError::NoInstance));
    let items = vec![strings(&["ServerStorage", "Items"])];
    assert_eq!(check(&items, &fact(false, OwnerKind::Tree, "/g/src")), Err(ImportError::Transformed));
}

#[test]
fn a_realm_without_an_owner_is_named_by_its_folder() {
    let mut realm = WallyRealm {
        realm: Realm::Server,
        packages_dir: "ServerPackages".to_string(),
        service: "ServerScriptService".to_string(),
        target_name: "Packages".to_string(),
        required: false,
    };
    assert_eq!(wally_unowned_lock_key(&realm), "wally:server:ServerScriptService/Packages");
    let mut lock = LinkLock::new();
    assert!(may_skip_unowned_realm(&realm, false, &lock));
    assert!(!may_skip_unowned_realm(&realm, true, &lock));
    lock.entries.put(wally_realm_lock_key(&realm, "tree", "src"), LinkLockEntry::new());
    assert!(!may_skip_unowned_realm(&realm, false, &lock));
    realm.required = true;
    assert!(!may_skip_unowned_realm(&realm, false, &LinkLock::new()));
}

#[test]
fn files_that_rules_or_ignore_lines_touch_need_a_stage() {
    let file = |name: &str| SourceFile { relative: path(name), from_project: path(&format!("src/{name}")) };
    let rule = |pattern: &str| SyncRule { pattern: pattern.to_string(), exclude: None, middleware: "text".to_string(), suffix: None };
    let plain = vec![file("Workspace/A.luau"), file("Workspace/notes.md")];
    let none: Vec<String> = Vec::new();
    assert_eq!(source_files_require_stage(&Vec::new(), &none, true, &plain), Ok(false));
    assert_eq!(source_files_require_stage(&vec![rule("**/*.md")], &none, true, &plain), Ok(true));
    assert_eq!(source_files_require_stage(&vec![rule("**/*.md")], &none, false, &plain), Ok(false));
    assert_eq!(source_files_require_stage(&vec![rule("**/*.csv")], &none, true, &plain), Ok(false));
    assert_eq!(source_files_require_stage(&Vec::new(), &strings(&["src/Workspace/**"]), true, &plain), Ok(true));
    assert_eq!(
        source_files_require_stage(&vec![rule("[")], &none, true, &plain),
        Err(NeedError::Rule { file: 0, rule: 0 })
    );
    assert_eq!(
        source_files_require_stage(&Vec::new(), &strings(&["!"]), true, &plain),
        Err(NeedError::Ignore { file: 0, error: IgnoreError::Empty(0) })
    );
    let answers = |takes: Vec<Option<bool>>| FileAnswers { takes, ignored: Ok(false) };
    assert_eq!(files_need_stage(&vec![answers(vec![Some(true), None])]), Ok(true));
    assert_eq!(
        files_need_stage(&vec![answers(vec![Some(false)]), answers(vec![Some(false), None, Some(true)])]),
        Err(NeedError::Rule { file: 1, rule: 1 })
    );
}

#[test]
fn generated_content_has_its_class() {
    for (kind, class, property) in [
        (GeneratedKind::Text, "StringValue", "Value"),
        (GeneratedKind::Localization, "LocalizationTable", "Contents"),
        (GeneratedKind::Module, "ModuleScript", "Source"),
    ] {
        let fields = generated_fields(kind, "content".to_string());
        assert_eq!(fields.class_name, class);
        assert_eq!(fields.properties.len(), 1);
        assert_eq!(fields.properties[0].key, property);
        assert!(matches!(&fields.properties[0].value, Json::Text(text) if text == "content"));
        assert!(fields.attributes.is_empty());
        assert!(fields.tags.is_none());
    }
}
