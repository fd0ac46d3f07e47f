use renium::adapters::{
    format_project, format_with_comments, preview_syncback, syncback_text, FormatError, FormatStep,
};
use renium::config_scope::{
    change_config, config_scope_path, config_with_origins, ensure_writable_scope, find_ancestor_with, find_setting,
    load_config_scope, nearest_project_marker, read_json_object_or_empty, read_setting, setting_value, user_config_path,
    ConfigChange, ConfigChangeError, ConfigScope, LabelledLayer, Platform, ReadError, ScopeError, ScopeFile, UserDirectories,
};
use renium::digest::{projection_entry_id, projection_settings_id, sha256_hex};
use renium::filter::{
    escape_glob, filter_allows, filter_allows_attribute, filter_allows_candidate_pair, filter_allows_instance,
    filter_allows_property, filter_allows_with_hits, filter_candidate_fields, filter_path_segments, FilterAction,
    FilterCandidate, FilterDirection, FilterRule, FilterScope, InvalidGlob,
};
use renium::json::{
    get_dotted, merge_json, put, remove_dotted, set_dotted, Json, KeyError, Member, Number,
};
use renium::jsonc::{format_jsonc, has_jsonc_comments, jsonc_to_json, parse_jsonc_value, tokenize, JsoncError, ParseError};
use renium::paths::{
    is_nested_project_path, is_windows_reserved_name, path_extension_is, path_from_text, split_extension,
    validate_relative_portable_path, FilePath, PortableError,
};
use renium::project::{Files, SourceKind, SyncRule};
use renium::roots::{
    project_file_in_directory, resolve_project_path, rojo_project_files, try_resolve_project_path, DirectoryNames, ResolveError,
};
use renium::rojo::{
    convert_rojo_project, has_schema_version, plan_import, ImportRojoArgs, ImportStep, NodeValues, Normal, RojoError,
};
use renium::rules::{
    is_metadata_sidecar, metadata_sidecar_stem, metadata_sidecar_target, normalize_sync_middleware, path_is_ignored,
    script_class_of, select_sync_rule, sync_rule_for, sync_rule_instance_name, sync_rule_matches, validate_sync_middleware,
    IgnoreError, RuleNameError, SidecarError,
};
use renium::settings::{merge_config_layers, validate_merged_config, SettingError};
use renium::table::Table;
use renium::wally_sync::PathKey;

fn text(s: &str) -> Json {
    Json::Text(s.to_string())
}

fn number(n: u64) -> Json {
    Json::Number(Number::Unsigned(n))
}

fn object(members: Vec<(&str, Json)>) -> Json {
    Json::Object(members.into_iter().map(|(key, value)| Member { key: key.to_string(), value }).collect())
}

fn members(list: Vec<(&str, Json)>) -> Vec<Member> {
    list.into_iter().map(|(key, value)| Member { key: key.to_string(), value }).collect()
}

fn strings(list: &[&str]) -> Vec<String> {
    list.iter().map(|s| s.to_string()).collect()
}

fn path(s: &str) -> FilePath {
    path_from_text(s)
}

fn files(list: &[(&str, SourceKind)]) -> Files {
    let mut files = Files::new();
    for (name, kind) in list {
        files.note(path(name), *kind, name.to_string());
    }
    files
}

#[test]
fn jsonc_removes_comments_and_trailing_commas() {
    let text = jsonc_to_json(
        r#"{
                // line
                "url": "https://example.com//x",
                "items": [1, 2,],
                /* block */
            }"#,
    )
    .unwrap();
    let value: serde_json::Value = serde_json::from_str(&text).unwrap();
    assert_eq!(value["url"], "https://example.com//x");
    assert_eq!(value["items"], serde_json::Value::from(vec![1, 2]));
}

#[test]
fn jsonc_text_is_formatted_with_its_comments() {
    assert_eq!(has_jsonc_comments("{\"a\": \"//\"}"), Ok(false));
    assert_eq!(has_jsonc_comments("{} // x"), Ok(true));
    let formatted = format_jsonc("{\"a\":1, // one\n\"b\":[]}").unwrap();
    assert!(formatted.contains("// one"));
    assert!(formatted.ends_with('\n'));
    assert_eq!(format_jsonc(&formatted).unwrap(), formatted);
    assert_eq!(jsonc_to_json("\"open").err(), Some(JsoncError::UnterminatedString));
    assert_eq!(jsonc_to_json("/* open").err(), Some(JsoncError::UnterminatedComment));
    assert!(format_with_comments("{\"a\":1}").unwrap().is_none());
    assert_eq!(format_with_comments("{\"a\":1} // x").unwrap().unwrap(), format_jsonc("{\"a\":1} // x").unwrap());
}

#[test]
fn formatting_keeps_the_tokens_and_settles() {
    let text = "{\"a\":1, // one  \t\n/* two */\"b\":[true,/*three*/],\"c\":{}} // end";
    let formatted = format_jsonc(text).unwrap();
    assert_eq!(
        formatted,
        "{\n  \"a\": 1,\n  // one\n  /* two */\n   \"b\": [\n    true,\n    /*three*/\n  ],\n  \"c\": {\n  }\n} // end\n"
    );
    assert_eq!(format_jsonc(&formatted).unwrap(), formatted);
    assert_eq!(jsonc_to_json(&formatted).unwrap(), jsonc_to_json(text).unwrap());
    let kinds = |s: &str| tokenize(s).unwrap().iter().map(|t| t.kind).collect::<Vec<_>>();
    assert_eq!(kinds(&formatted), kinds(text));
    assert_eq!(tokenize(text).unwrap()[5].text, "// one  \t");
    assert_eq!(tokenize(&formatted).unwrap()[5].text, "// one");
}

#[test]
fn project_files_are_formatted() {
    let step = |text: &str, check: bool| format_project(text, check);
    assert!(matches!(
        step("{\"b\":[1],\"a\":\"x\"}", false),
        Ok(FormatStep::Write(new)) if new == "{\n  \"a\": \"x\",\n  \"b\": [\n    1\n  ]\n}\n"
    ));
    assert!(matches!(step("{\n  \"a\": 1\n}\n", true), Ok(FormatStep::Formatted)));
    assert!(matches!(step("{\"a\":1}", true), Err(FormatError::NotFormatted)));
    assert!(matches!(step("{\"a\":1} // x", false), Ok(FormatStep::Write(new)) if new == "{\n  \"a\": 1\n} // x\n"));
    assert!(matches!(step("{\n  \"a\": 1\n} // x\n", true), Ok(FormatStep::Formatted)));
    assert!(matches!(step("{\"a\":", false), Err(FormatError::Parse(ParseError::Json))));
    assert!(matches!(
        step("/* open", false),
        Err(FormatError::Parse(ParseError::Tokens(JsoncError::UnterminatedComment)))
    ));
}

#[test]
fn texts_that_end_in_an_open_string_are_not_read() {
    let open = "[1, \"a\\\"";
    assert!(tokenize(open).is_ok());
    assert!(matches!(parse_jsonc_value(open), Err(ParseError::Json)));
    assert!(matches!(parse_jsonc_value("[1\"a\", \"b\\\""), Err(ParseError::Json)));
    assert!(matches!(format_project("[\"a\\\" // x \\\"", false), Err(FormatError::Parse(_))));
    let text = "{\"a\\\"b\": \"c\\\\\", /* \" */ }";
    let formatted = format_jsonc(text).unwrap();
    let value = parse_jsonc_value(text).ok().unwrap();
    assert!(parse_jsonc_value(&formatted).ok().unwrap().same(&value));
    assert_eq!(format_jsonc(&formatted).unwrap(), formatted);
}

#[test]
fn values_are_read_from_json_with_comments() {
    match parse_jsonc_value("{ // x\n \"a\": [1, -2, 1.5, null, true, \"t\",], }") {
        Ok(Json::Object(members)) => {
            assert_eq!(members.len(), 1);
            assert_eq!(members[0].key, "a");
            match &members[0].value {
                Json::Array(items) => {
                    assert!(matches!(items[0], Json::Number(Number::Unsigned(1))));
                    assert!(matches!(items[1], Json::Number(Number::Negative(-2))));
                    assert!(matches!(&items[2], Json::Number(Number::Other(s)) if s == "1.5"));
                    assert!(matches!(items[3], Json::Null));
                    assert!(matches!(items[4], Json::Bool(true)));
                    assert!(matches!(&items[5], Json::Text(s) if s == "t"));
                }
                _ => panic!("the items were not read"),
            }
        }
        _ => panic!("the text was not read"),
    }
    assert!(matches!(parse_jsonc_value("{,}"), Ok(Json::Object(m)) if m.is_empty()));
    assert!(matches!(parse_jsonc_value("{a}"), Err(ParseError::Json)));
    assert!(matches!(read_setting(false, "12"), Json::Number(Number::Unsigned(12))));
    assert!(matches!(read_setting(true, "12"), Json::Text(s) if s == "12"));
    assert!(matches!(read_setting(false, "plain words"), Json::Text(s) if s == "plain words"));
    assert!(matches!(read_json_object_or_empty(&None), Ok(Json::Object(m)) if m.is_empty()));
    assert!(matches!(read_json_object_or_empty(&Some("{\"a\": 1}".to_string())), Ok(Json::Object(m)) if m.len() == 1));
    assert_eq!(read_json_object_or_empty(&Some("[]".to_string())).err(), Some(ReadError::NotAnObject));
    assert!(matches!(read_json_object_or_empty(&Some("{".to_string())), Err(ReadError::Parse(ParseError::Json))));
}

#[test]
fn setting_or_removing_a_key_leaves_the_others() {
    let mut value = object(vec![("a", object(vec![("b", number(1)), ("c", number(2))])), ("d", number(3))]);
    set_dotted(&mut value, "a.b", number(9)).unwrap();
    assert!(matches!(get_dotted(&value, "a.b"), Some(Json::Number(Number::Unsigned(9)))));
    assert!(matches!(get_dotted(&value, "a.c"), Some(Json::Number(Number::Unsigned(2)))));
    assert!(matches!(get_dotted(&value, "d"), Some(Json::Number(Number::Unsigned(3)))));
    remove_dotted(&mut value, "a.b").unwrap();
    assert!(get_dotted(&value, "a.b").is_none());
    assert!(matches!(get_dotted(&value, "a.c"), Some(Json::Number(Number::Unsigned(2)))));
}

#[test]
fn later_filter_rules_override_earlier_rules() {
    let none: Vec<String> = Vec::new();
    let candidate = FilterCandidate {
        id: "editor:1",
        path: "Workspace/Keep/Part",
        name: "Part",
        class: "Part",
        tags: &none,
        attributes: &none,
        properties: &none,
    };
    let rules = vec![
        FilterRule { action: FilterAction::Ignore, glob: Some("Workspace/**".to_string()), ..Default::default() },
        FilterRule { action: FilterAction::Include, glob: Some("Workspace/Keep/**".to_string()), ..Default::default() },
    ];
    assert!(filter_allows(&rules, FilterDirection::StudioToFiles, &candidate).unwrap());
    assert!(!filter_allows(&rules[..1].iter().map(copy_rule).collect(), FilterDirection::StudioToFiles, &candidate).unwrap());
}

fn copy_rule(rule: &FilterRule) -> FilterRule {
    FilterRule {
        action: rule.action,
        direction: rule.direction,
        glob: rule.glob.clone(),
        name: rule.name.clone(),
        class: rule.class.clone(),
        tag: rule.tag.clone(),
        attribute: rule.attribute.clone(),
        property: rule.property.clone(),
        id: rule.id.clone(),
    }
}

#[test]
fn rules_on_fields_never_decide_instances() {
    let fields = filter_candidate_fields(&Vec::new(), &Vec::new());
    let candidate = fields.candidate("id", "Workspace/Part", "Part", "Part");
    let named = || FilterRule { name: Some("Part".to_string()), ..Default::default() };
    let broken =
        || FilterRule { property: Some("Size".to_string()), glob: Some("[".to_string()), ..Default::default() };
    for rules in [vec![named()], vec![broken(), named()], vec![named(), broken()]] {
        assert_eq!(filter_allows_instance(&rules, FilterDirection::Both, &candidate), Ok(false));
    }
    assert_eq!(filter_allows_instance(&vec![broken()], FilterDirection::Both, &candidate), Ok(true));
}

#[test]
fn globs_match_whole_paths() {
    let fields = filter_candidate_fields(&Vec::new(), &Vec::new());
    let allows = |glob: &str, path: &str| {
        let rule = FilterRule { glob: Some(glob.to_string()), ..Default::default() };
        filter_allows(&vec![rule], FilterDirection::Both, &fields.candidate("id", path, "x", "Part")).unwrap()
    };
    assert!(!allows("**/..", "Workspace/.."));
    assert!(!allows("{a,b}/*", "a/x"));
    assert!(allows("{a,b}/*", "c/x"));
}

#[test]
fn filters_speak_of_instances_properties_and_attributes() {
    let fields = filter_candidate_fields(
        &members(vec![("Size", number(1)), ("Tags", Json::Array(vec![text("kept")]))]),
        &members(vec![("Level", number(3))]),
    );
    let candidate = fields.candidate("id", "Workspace/Part", "Part", "Part");
    let size = vec![FilterRule { property: Some("Size".to_string()), ..Default::default() }];
    assert!(filter_allows_instance(&size, FilterDirection::FilesToStudio, &candidate).unwrap());
    assert!(!filter_allows_property(&size, FilterDirection::FilesToStudio, &candidate, "Size").unwrap());
    assert!(filter_allows_property(&size, FilterDirection::FilesToStudio, &candidate, "Color").unwrap());
    let level = vec![FilterRule { attribute: Some("Level".to_string()), ..Default::default() }];
    assert!(!filter_allows_attribute(&level, FilterDirection::FilesToStudio, &candidate, "Level").unwrap());
    let tag = vec![FilterRule { tag: Some("kept".to_string()), ..Default::default() }];
    assert!(!filter_allows(&tag, FilterDirection::FilesToStudio, &candidate).unwrap());
    let other = FilterRule { direction: FilterDirection::StudioToFiles, name: Some("Part".to_string()), ..Default::default() };
    assert!(filter_allows(&vec![other], FilterDirection::FilesToStudio, &candidate).unwrap());
    let bad = vec![FilterRule { glob: Some("[".to_string()), ..Default::default() }];
    assert_eq!(
        filter_allows(&bad, FilterDirection::FilesToStudio, &candidate).err(),
        Some(InvalidGlob { rule: 0 })
    );
    assert_eq!(
        filter_allows_with_hits(&bad, FilterDirection::Both, &candidate, FilterScope::Any, &vec![Some(true)]),
        Ok(false)
    );
    let before = fields.candidate("id", "Workspace/Other", "Other", "Part");
    let named = vec![FilterRule { name: Some("Other".to_string()), ..Default::default() }];
    assert!(!filter_allows_candidate_pair(
        &named,
        FilterDirection::FilesToStudio,
        &candidate,
        Some(&before),
        FilterScope::Instance
    )
    .unwrap());
    assert_eq!(filter_path_segments(&strings(&["Workspace", "A/B~"])), "Workspace/A~1B~0");
    assert_eq!(escape_glob("a*b"), "a[*]b");
}

#[test]
fn a_value_that_is_set_is_read_back() {
    let mut value = object(vec![("a", object(vec![("b", number(1))]))]);
    assert_eq!(set_dotted(&mut value, "a.c", text("x")), Ok(()));
    assert!(matches!(get_dotted(&value, "a.c"), Some(Json::Text(s)) if s == "x"));
    assert!(matches!(get_dotted(&value, "a.b"), Some(Json::Number(Number::Unsigned(1)))));
    assert_eq!(set_dotted(&mut value, "a.b.c", Json::Null).err(), Some(KeyError::ParentNotObject));
    assert_eq!(set_dotted(&mut value, "a..c", Json::Null).err(), Some(KeyError::EmptySegment));
    assert_eq!(remove_dotted(&mut value, "a.c"), Ok(true));
    assert!(get_dotted(&value, "a.c").is_none());
    assert_eq!(remove_dotted(&mut value, "a.c"), Ok(false));
}

#[test]
fn objects_are_merged_key_by_key() {
    let mut base = object(vec![("a", object(vec![("x", number(1)), ("y", number(2))])), ("b", number(3))]);
    let overlay = object(vec![("a", object(vec![("y", number(4))])), ("b", Json::Null)]);
    merge_json(&mut base, &overlay);
    let expected = object(vec![("a", object(vec![("x", number(1)), ("y", number(4))]))]);
    assert!(base.same(&expected));
    merge_json(&mut base, &overlay);
    assert!(base.same(&expected));
    let mut list: Vec<Member> = Vec::new();
    put(&mut list, "k".to_string(), number(1));
    put(&mut list, "k".to_string(), number(2));
    assert_eq!(list.len(), 1);
}

fn scope_files() -> Vec<ScopeFile> {
    vec![
        ScopeFile { path: path("/u/config.json"), content: Some(object(vec![("output", object(vec![("color", text("never"))]))])) },
        ScopeFile { path: path("/w/config.json"), content: None },
        ScopeFile { path: path("/p/config.json"), content: Some(object(vec![("output", object(vec![("color", text("auto"))]))])) },
    ]
}

#[test]
fn the_narrowest_scope_wins() {
    let merged = load_config_scope(&scope_files(), &None, ConfigScope::Merged, &None);
    match merged {
        Ok(value) => assert!(matches!(get_dotted(&value, "output.color"), Some(Json::Text(s)) if s == "auto")),
        Err(e) => assert!(matches!(e, SettingError::Unknown(_))),
    }
    let own = load_config_scope(&scope_files(), &None, ConfigScope::User, &None).unwrap();
    assert!(own.same(&object(Vec::new())));
    let base = merge_config_layers(&Vec::new()).unwrap();
    assert!(base.same(&object(vec![("schemaVersion", number(1))])));
    assert!(validate_merged_config(&base).is_ok());
    assert!(matches!(
        validate_merged_config(&object(vec![("noSuchSetting", number(1))])),
        Err(SettingError::Unknown(key)) if key == "noSuchSetting"
    ));
    assert!(matches!(
        validate_merged_config(&object(vec![("schemaVersion", text("1"))])),
        Err(SettingError::WrongKind(key)) if key == "schemaVersion"
    ));
    assert!(matches!(validate_merged_config(&number(1)), Err(SettingError::NotAnObject(_))));
}

#[test]
fn changes_are_checked_before_they_are_written() {
    let none: Vec<ScopeFile> = Vec::new();
    let empty = object(Vec::new());
    let at = path("/p/config.json");
    let set = ConfigChange::Assign { key: "schemaVersion".to_string(), value: number(1) };
    assert!(matches!(
        change_config(&set, ConfigScope::Merged, &at, &empty, &none, &None),
        Err(ConfigChangeError::ReadOnly)
    ));
    let new = change_config(&set, ConfigScope::Place, &at, &empty, &none, &None).unwrap();
    assert!(matches!(get_dotted(&new, "schemaVersion"), Some(Json::Number(Number::Unsigned(1)))));
    let list = vec![ScopeFile { path: path("/p/config.json"), content: None }];
    let wrong = ConfigChange::Assign { key: "schemaVersion".to_string(), value: text("x") };
    assert!(matches!(
        change_config(&wrong, ConfigScope::Place, &at, &empty, &list, &None),
        Err(ConfigChangeError::Invalid(SettingError::WrongKind(_)))
    ));
    let unset = ConfigChange::Unset { key: "schemaVersion".to_string() };
    assert!(matches!(
        change_config(&unset, ConfigScope::Place, &at, &empty, &list, &None),
        Err(ConfigChangeError::NotSet)
    ));
    let gone = change_config(&unset, ConfigScope::Place, &at, &new, &list, &None).unwrap();
    assert!(find_setting(&gone, &Some("schemaVersion".to_string())).is_none());
    let blank = ConfigChange::Unset { key: "".to_string() };
    assert!(matches!(
        change_config(&blank, ConfigScope::Place, &at, &empty, &list, &None),
        Err(ConfigChangeError::Key(KeyError::EmptySegment))
    ));
    let reset = change_config(&ConfigChange::Reset, ConfigScope::User, &at, &new, &list, &None).unwrap();
    assert!(reset.same(&object(Vec::new())));
    assert!(setting_value(true, "1", &Some(number(1))).same(&text("1")));
    assert!(setting_value(false, "1", &Some(number(1))).same(&number(1)));
    assert!(setting_value(false, "x", &None).same(&text("x")));
    assert!(!ensure_writable_scope(ConfigScope::Merged));
}

#[test]
fn settings_know_where_they_come_from() {
    let layers = vec![
        LabelledLayer { label: "user".to_string(), value: object(vec![("a", number(1)), ("b", number(1))]) },
        LabelledLayer { label: "place".to_string(), value: object(vec![("b", number(2))]) },
    ];
    let result = config_with_origins(&layers);
    let key = |s: &str| PathKey { segments: vec![s.to_string()] };
    assert_eq!(result.origins.get(&key("a")), Some(&"user".to_string()));
    assert_eq!(result.origins.get(&key("b")), Some(&"place".to_string()));
    assert!(matches!(get_dotted(&result.values, "b"), Some(Json::Number(Number::Unsigned(2)))));
}

fn listings(list: &[(&str, &[&str])]) -> Table<FilePath, DirectoryNames> {
    let mut table = Table::new();
    for (directory, names) in list {
        table.put(path(directory), DirectoryNames { names: strings(names) });
    }
    table
}

#[test]
fn scopes_have_their_files() {
    let user = UserDirectories { app_data: None, home: Some(path("/home/me")), config_home: None };
    assert_eq!(user_config_path(Platform::Other, &user).unwrap().to_slash(), "/home/me/.config/renium/config.json");
    assert_eq!(
        user_config_path(Platform::Mac, &user).unwrap().to_slash(),
        "/home/me/Library/Application Support/Renium/config.json"
    );
    assert_eq!(user_config_path(Platform::Windows, &user).err(), Some(ScopeError::NoAppData));
    let nobody = UserDirectories { app_data: None, home: None, config_home: None };
    assert_eq!(user_config_path(Platform::Other, &nobody).err(), Some(ScopeError::NoHome));
    let tree = files(&[("/w/.git", SourceKind::Directory), ("/w/a/renium.project.jsonc", SourceKind::File)]);
    let none = listings(&[]);
    let at = path("/w/a/b");
    let place = |scope: ConfigScope| config_scope_path(scope, &tree, &none, Platform::Other, &user, &at);
    assert_eq!(place(ConfigScope::Workspace).unwrap().to_slash(), "/w/.renium/workspace.config.json");
    assert_eq!(place(ConfigScope::Experience).unwrap().to_slash(), "/w/a/b/renium.config.json");
    assert_eq!(place(ConfigScope::Place).unwrap().to_slash(), "/w/a/.renium/config.json");
    assert_eq!(place(ConfigScope::Merged).err(), Some(ScopeError::Merged));
    assert_eq!(nearest_project_marker(&tree, &at).unwrap().to_slash(), "/w/a");
    assert!(find_ancestor_with(&tree, &at, "nothing").is_none());
}

#[test]
fn a_project_is_found_from_a_directory_upward() {
    let tree = files(&[("/g/renium.project.jsonc", SourceKind::File), ("/g/src", SourceKind::Directory)]);
    let none = listings(&[]);
    let found = resolve_project_path(&tree, &none, &None, &path("/g/src/a")).unwrap();
    assert_eq!(found.to_slash(), "/g/renium.project.jsonc");
    assert_eq!(resolve_project_path(&tree, &none, &None, &path("/else")).err(), Some(ResolveError::NotFound));
    assert!(try_resolve_project_path(&tree, &none, &None, &path("/else")).unwrap().is_none());
    assert_eq!(
        resolve_project_path(&tree, &none, &Some(path("/g/none.jsonc")), &path("/g")).err(),
        Some(ResolveError::MissingFile)
    );
    let both = files(&[("/g/renium.project.jsonc", SourceKind::File), ("/g/renium.project.json", SourceKind::File)]);
    assert_eq!(resolve_project_path(&both, &none, &None, &path("/g")).err(), Some(ResolveError::BothFiles));
    let empty = files(&[]);
    let foreign = listings(&[("/r", &["b.project.json", "renium.project.json", "notes.txt"])]);
    assert_eq!(rojo_project_files(&foreign, &path("/r")), strings(&["b.project.json"]));
    assert_eq!(
        project_file_in_directory(&empty, &foreign, &path("/r")).unwrap().to_slash(),
        "/r/b.project.json"
    );
    let many = listings(&[("/r", &["b.project.json", "a.project.json"])]);
    assert_eq!(project_file_in_directory(&empty, &many, &path("/r")).err(), Some(ResolveError::ManyForeign));
    assert_eq!(project_file_in_directory(&empty, &none, &path("/r")).err(), Some(ResolveError::NoProject));
}

#[test]
fn projects_of_another_tool_are_read() {
    let project = object(vec![
        ("name", text("Game")),
        (
            "tree",
            object(vec![
                ("$path", text("lib")),
                (
                    "ReplicatedStorage",
                    object(vec![
                        ("$className", text("ReplicatedStorage")),
                        ("$path", text("lib/ReplicatedStorage")),
                        ("$properties", object(vec![("Size", number(1)), ("Attributes", object(vec![("A", number(2))]))])),
                        ("Shared", object(vec![("$path", text("shared"))])),
                        ("Model", object(vec![("$path", text("m.rbxm"))])),
                    ]),
                ),
            ]),
        ),
        ("globIgnorePaths", Json::Array(vec![text("**/x"), number(1)])),
    ]);
    let mut service = NodeValues::new();
    service.properties.put("Size".to_string(), Normal::Value(text("one")));
    service.property_attributes.put("A".to_string(), Normal::Value(text("two")));
    let mut values: Table<String, NodeValues> = Table::new();
    values.put("ReplicatedStorage".to_string(), service);
    let plain = NodeValues::new();
    let none: Table<String, NodeValues> = Table::new();
    let read = convert_rojo_project(&path("/g"), &project, None, &plain, &values).unwrap();
    assert_eq!(read.name, Some("Game".to_string()));
    assert_eq!(read.source_root.to_slash(), "lib");
    assert_eq!(read.tree.len(), 1);
    let node = &read.tree[0].node;
    assert!(node.path.is_none());
    assert_eq!(node.properties.len(), 1);
    assert!(matches!(&node.properties[0].value, Json::Text(s) if s == "one"));
    assert_eq!(node.attributes[0].key, "A");
    assert!(matches!(&node.attributes[0].value, Json::Text(s) if s == "two"));
    assert_eq!(node.children[0].name, "Model");
    assert_eq!(node.children[1].node.as_ref().unwrap().path.as_ref().unwrap().to_slash(), "shared");
    assert_eq!(read.mounts.len(), 1);
    assert_eq!(read.mounts[0].source.to_slash(), "m.rbxm");
    assert_eq!(read.mounts[0].target.segments(), strings(&["ReplicatedStorage", "Model"]));
    assert_eq!(read.sync_rules.len(), 15);
    assert_eq!(read.sync_rules[6].pattern, "**/*.yml");
    assert_eq!(read.sync_rules[6].middleware, "yaml");
    assert_eq!(read.glob_ignore_paths, strings(&["**/x"]));
    let listed = convert_rojo_project(&path("/g"), &project, Some(Vec::new()), &plain, &values).unwrap();
    assert!(listed.sync_rules.is_empty());
    assert!(matches!(convert_rojo_project(&path("/g"), &number(1), None, &plain, &none), Err(RojoError::RootNotObject)));
    assert!(matches!(
        convert_rojo_project(&path("/g"), &object(Vec::new()), None, &plain, &none),
        Err(RojoError::NoTree)
    ));
    let mut invalid = NodeValues::new();
    invalid.properties.put("Size".to_string(), Normal::Invalid);
    let mut refused: Table<String, NodeValues> = Table::new();
    refused.put("ReplicatedStorage".to_string(), invalid);
    assert!(matches!(
        convert_rojo_project(&path("/g"), &project, None, &plain, &refused),
        Err(RojoError::InvalidValue { target: Some(target), name, attribute: false })
            if target == "ReplicatedStorage" && name == "Size"
    ));
    let broken = object(vec![("tree", object(vec![("Workspace", object(vec![("A", number(1))]))]))]);
    assert!(matches!(
        convert_rojo_project(&path("/g"), &broken, None, &plain, &none),
        Err(RojoError::NodeNotObject(target)) if target == "Workspace.A"
    ));
    assert!(!has_schema_version(&project));
    assert!(has_schema_version(&object(vec![("schemaVersion", number(1))])));
}

#[test]
fn an_import_replaces_only_by_force() {
    let tree = files(&[("/g/renium.project.jsonc", SourceKind::File)]);
    let mut args = ImportRojoArgs { project: path("/g"), preview: false, apply: false, output: None, force: false };
    let source = path("/g/default.project.json");
    assert!(matches!(plan_import(&args, &source, &tree), ImportStep::Show));
    args.apply = true;
    assert!(matches!(plan_import(&args, &source, &tree), ImportStep::Exists(p) if p.to_slash() == "/g/renium.project.jsonc"));
    args.force = true;
    assert!(matches!(plan_import(&args, &source, &tree), ImportStep::Write(p) if p.to_slash() == "/g/renium.project.jsonc"));
    args.output = Some(path("/o.jsonc"));
    args.force = false;
    assert!(matches!(plan_import(&args, &source, &tree), ImportStep::Write(p) if p.to_slash() == "/o.jsonc"));
}

fn rule(pattern: &str, exclude: Option<&str>, suffix: Option<&str>) -> SyncRule {
    SyncRule {
        pattern: pattern.to_string(),
        exclude: exclude.map(|s| s.to_string()),
        middleware: "module".to_string(),
        suffix: suffix.map(|s| s.to_string()),
    }
}

#[test]
fn the_last_rule_that_takes_a_file_counts() {
    let rules = vec![rule("**/*.lua", None, None), rule("**/*.spec.lua", Some("old/**"), Some(".spec.lua"))];
    assert_eq!(sync_rule_for(&rules, "a/b.spec.lua"), Ok(Some(1)));
    assert_eq!(sync_rule_for(&rules, "old/b.spec.lua"), Ok(Some(0)));
    assert_eq!(sync_rule_for(&rules, "a/b.txt"), Ok(None));
    assert_eq!(sync_rule_matches(&rules[1], "old/b.spec.lua"), Some(false));
    assert_eq!(sync_rule_matches(&rule("[", None, None), "x"), None);
    assert_eq!(select_sync_rule(&vec![Some(true), None]), Err(1));
    assert_eq!(sync_rule_instance_name(&rules[1], &path("a/b.spec.lua")).unwrap(), "b");
    assert_eq!(sync_rule_instance_name(&rules[0], &path("a/b.c.lua")).unwrap(), "b.c");
    assert_eq!(sync_rule_instance_name(&rules[1], &path("a/b.lua")).err(), Some(RuleNameError::WrongSuffix));
    assert_eq!(sync_rule_instance_name(&rules[1], &path("a/.spec.lua")).err(), Some(RuleNameError::EmptyName));
    assert_eq!(sync_rule_instance_name(&rules[1], &path("")).err(), Some(RuleNameError::NoFileName));
    assert_eq!(normalize_sync_middleware(" Server-Script "), "serverscript");
    assert_eq!(normalize_sync_middleware("MODEL_JSON"), "model-json");
    assert!(validate_sync_middleware("csv", &strings(&["csv"])));
    assert!(!validate_sync_middleware("zip", &strings(&["csv"])));
    assert_eq!(script_class_of("clientscript"), Some("LocalScript"));
}

#[test]
fn paths_are_ignored_by_the_last_line_that_speaks_of_them() {
    let lines = strings(&["*.tmp", "!keep.tmp"]);
    assert_eq!(path_is_ignored(&path("a.tmp"), &lines), Ok(true));
    assert_eq!(path_is_ignored(&path("keep.tmp"), &lines), Ok(false));
    assert_eq!(path_is_ignored(&path("a.lua"), &lines), Ok(false));
    assert_eq!(path_is_ignored(&path("a.lua"), &strings(&["["])).err(), Some(IgnoreError::Invalid(0)));
    assert_eq!(path_is_ignored(&path("a.lua"), &strings(&["!"])).err(), Some(IgnoreError::Empty(0)));
}

#[test]
fn sidecars_speak_of_what_they_stand_beside() {
    assert_eq!(metadata_sidecar_stem("Part.meta.json"), Some("Part".to_string()));
    assert!(metadata_sidecar_stem("Part.json").is_none());
    assert!(is_metadata_sidecar(&path("a/Part.meta.json")));
    let target = metadata_sidecar_target(&path("Workspace/Part.meta.json"), &Some("Part".to_string())).unwrap();
    assert_eq!(target, strings(&["Workspace", "Part"]));
    assert_eq!(metadata_sidecar_target(&path("Workspace/Part.lua"), &None).err(), Some(SidecarError::Name));
}

#[test]
fn paths_are_plain_and_portable() {
    assert_eq!(path("a//b/./c").to_slash(), "a/b/c");
    assert_eq!(path("/a").join(&path("b/c")).to_slash(), "/a/b/c");
    assert_eq!(path("/a").join(&path("/b")).to_slash(), "/b");
    assert_eq!(path("/a/b/c").strip_prefix(&path("/a")).unwrap().to_slash(), "b/c");
    assert!(path("/ab").strip_prefix(&path("/a")).is_none());
    assert_eq!(split_extension("a.b.lua"), ("a.b".to_string(), Some("lua".to_string())));
    assert!(path_extension_is(&path("x.RBXM"), &strings(&["rbxm"])));
    assert!(is_nested_project_path(&path("a/default.project.json")));
    assert!(is_windows_reserved_name("com1.txt"));
    assert!(!is_windows_reserved_name("com"));
    assert!(validate_relative_portable_path(&path("a/b")).is_ok());
    assert_eq!(validate_relative_portable_path(&path("")).err(), Some(PortableError::Empty));
    assert_eq!(validate_relative_portable_path(&path("/a")).err(), Some(PortableError::Absolute));
    assert_eq!(validate_relative_portable_path(&path("../a")).err(), Some(PortableError::LeavesProject));
    assert_eq!(validate_relative_portable_path(&path("a/b?")).err(), Some(PortableError::Segment(1)));
}

#[test]
fn digests_are_those_of_sha_256() {
    assert_eq!(sha256_hex(&Vec::new()), "e3b0c44298fc1c149afbf4c8996fb92427ae41e4649b934ca495991b7852b855");
    assert_eq!(
        sha256_hex(&b"abc".to_vec()),
        "ba7816bf8f01cfea414140de5dae2223b00361a396177a9cb410ff61f20015ad"
    );
    assert_ne!(projection_settings_id("tree", "a"), projection_settings_id("tree", "b"));
    assert_eq!(projection_entry_id("tree", "a", "b"), projection_entry_id("tree", "a", "b"));
    assert_ne!(projection_entry_id("tree", "a", "b"), projection_entry_id("tree", "b", "a"));
}

#[test]
fn adapters_report_what_they_carry_back() {
    let writes = preview_syncback(&vec![path("a.csv"), path("b.csv")], true, &path("base.json"));
    assert_eq!(writes.len(), 3);
    assert!(writes[2].baseline);
    assert_eq!(writes[2].path.to_slash(), "base.json");
    assert_eq!(preview_syncback(&vec![path("a.csv")], false, &path("base.json")).len(), 1);
    assert_eq!(syncback_text(false, 1), "Updated 1 adapter source");
    assert_eq!(syncback_text(true, 2), "Checked 2 adapter sources");
}
