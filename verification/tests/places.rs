use renium::document::{Instance, SettingsDocument};
use renium::json::{Json, Member, Number};
use renium::place::{
    document, normalized_source, numbered_document, query_place, script_source, settle_default, walk_place, DefaultFact, DocumentError, Place, PlaceAttribute, PlaceNode, PlaceProperty,
    PlaceQuery, PlaceValue, PropertyValue, ValueKind,
};
use renium::place_align::{align, compare, CompareError};
use renium::place_diff::{changed_fields, compare_by_id, Comparison, Difference};
use renium::place_omit::omit_unsaved_project_properties;
use renium::place_scripts::{
    compare_groups, compare_place, normalized_source_bytes, remove_exact_matches, script_groups, ScriptDifference, ScriptRecord,
};
use renium::settle::settle;
use renium::sources::count_omitted;

fn value(kind: ValueKind, json: Json) -> PropertyValue {
    PropertyValue::Value(PlaceValue { kind, json: Some(json) })
}

fn text(s: &str) -> PropertyValue {
    value(ValueKind::Text(s.to_string()), Json::Text(s.to_string()))
}

fn property(name: &str, value: PropertyValue) -> PlaceProperty {
    PlaceProperty { name: name.to_string(), canonical: name.to_string(), known: true, saved: true, value, is_default: false, default: None }
}

fn node(id: usize, name: &str, class: &str, properties: Vec<PlaceProperty>, children: Vec<PlaceNode>) -> PlaceNode {
    PlaceNode { id, name: name.to_string(), class_name: class.to_string(), properties, children }
}

fn script(id: usize, name: &str, source: &str) -> PlaceNode {
    node(id, name, "ModuleScript", vec![property("Source", text(source))], Vec::new())
}

fn record(source: &[u8]) -> ScriptRecord {
    ScriptRecord { class_name: "ModuleScript".to_string(), source: normalized_source_bytes(&source.to_vec()) }
}

#[test]
fn script_comparison_ignores_line_endings_and_order_for_duplicates() {
    let mut left = vec![record(b"return 1\r\n"), record(b"return 2\n")];
    let mut right = vec![record(b"return 2\r\n"), record(b"return 1\n")];
    let order = |a: &ScriptRecord, b: &ScriptRecord| (&a.class_name, &a.source).cmp(&(&b.class_name, &b.source));
    left.sort_by(order);
    right.sort_by(order);
    assert_eq!(remove_exact_matches(&mut left, &mut right), 2);
    assert!(left.is_empty());
    assert!(right.is_empty());
}

#[test]
fn place_queries_script_source_without_studio() {
    let place = vec![node(1, "ReplicatedStorage", "ReplicatedStorage", Vec::new(), vec![script(2, "Reward", "return 'daily'")])];
    assert_eq!(script_source(&place[0].children[0]), Some("return 'daily'".to_string()));
    assert_eq!(script_source(&place[0]), None);
    let query = PlaceQuery { query: None, name: Some("Reward".to_string()), class_name: None, source: None };
    let found = query_place(&place, &query, 10).unwrap();
    assert_eq!(found.matches[0].path, vec!["ReplicatedStorage".to_string(), "Reward".to_string()]);
    assert!(!found.truncated);
    let nothing = PlaceQuery { query: None, name: None, class_name: None, source: None };
    assert!(query_place(&place, &nothing, 10).is_none());
    let limited = PlaceQuery { query: None, name: None, class_name: Some("ModuleScript".to_string()), source: None };
    let none = query_place(&place, &limited, 0).unwrap();
    assert!(none.matches.is_empty() && none.truncated);
    assert_eq!(walk_place(&place).len(), 2);
}

fn workspace() -> Vec<String> {
    vec!["Workspace".to_string()]
}

fn reference(id: usize) -> PropertyValue {
    PropertyValue::Value(PlaceValue { kind: ValueKind::Reference(Some(id)), json: None })
}

fn saved(services: Vec<PlaceNode>) -> Place {
    let root = node(0, "DataModel", "DataModel", Vec::new(), services);
    Place { root, path: vec!["DataModel".to_string()], ordinals: vec![1] }
}

fn fixture(reverse: bool, revision: u64) -> Place {
    let end = if reverse { "\r\n" } else { "\n" };
    let mut children = Vec::new();
    for number in if reverse { [2, 1] } else { [1, 2] } {
        let code = script(10 * number + 1, "Code", &format!("return {number}{end}"));
        children.push(node(10 * number, "Duplicate", "Folder", Vec::new(), vec![code]));
    }
    children.push(node(3, "Target", "ObjectValue", vec![property("Value", reference(10))], Vec::new()));
    let attribute = PlaceAttribute {
        name: "Revision".to_string(),
        value: PlaceValue { kind: ValueKind::Plain, json: Some(Json::Number(Number::Other(format!("{revision}.0")))) },
    };
    children.push(node(
        4,
        "Tagged",
        "Folder",
        vec![property("Attributes", PropertyValue::Attributes(vec![attribute]))],
        Vec::new(),
    ));
    saved(vec![node(1, "Workspace", "Workspace", Vec::new(), children)])
}

fn records(place: &Place) -> SettingsDocument {
    document(place, "id", Some(&workspace()), true).unwrap()
}

fn diff(before: &Place, after: &Place, values: bool, limit: usize) -> Comparison {
    match compare(before, after, Some(&workspace()), values, limit) {
        Ok(comparison) => comparison,
        Err(_) => panic!("the places were not compared"),
    }
}

fn matches_all(comparison: &Comparison) -> bool {
    comparison.added + comparison.removed + comparison.changed == 0
}

#[test]
fn full_diff_matches_reordered_duplicate_subtrees_and_references() {
    let result = diff(&fixture(false, 1), &fixture(true, 1), false, 100);
    assert!(matches_all(&result));
    assert_eq!(result.unchanged, 7);
    let mut astray = fixture(true, 1);
    astray.root.children[0].children[2].properties[0].value = reference(20);
    let moved = diff(&fixture(false, 1), &astray, false, 100);
    assert_eq!(moved.changed, 1);
    assert_eq!(moved.unchanged, 6);
}

#[test]
fn full_diff_reports_attributes_sources_references_additions_and_removals() {
    let before = fixture(false, 1);
    let mut after = fixture(false, 2);
    after.root.children[0].children[2].properties[0].value = reference(20);
    after.root.children[0].children[0].children[0].properties[0].value = text("return 9");
    after.root.children[0].children.push(node(8, "Added", "Folder", Vec::new(), Vec::new()));
    let result = diff(&before, &after, true, usize::MAX);
    assert_eq!(result.before_instances, 7);
    assert_eq!(result.after_instances, 8);
    assert_eq!(result.added, 1);
    assert_eq!(result.changed, 3);
    assert_eq!(result.removed, 0);
    assert!(result.differences.iter().any(|d| match d {
        Difference::Changed { attributes, .. } => attributes.iter().any(|a| a.name == "Revision"
            && matches!(&a.before, Some(Json::Number(Number::Other(s))) if s == "1.0")
            && matches!(&a.after, Some(Json::Number(Number::Other(s))) if s == "2.0")),
        _ => false,
    }));
    let reverse = diff(&after, &before, false, 1);
    assert_eq!(reverse.removed, 1);
    assert_eq!(reverse.removed + reverse.added + reverse.changed, 4);
    assert!(reverse.truncated);
    assert_eq!(reverse.differences.len(), 1);
}

#[test]
fn what_stands_in_one_place_only_is_shown_with_its_values() {
    let before = fixture(false, 1);
    let mut after = fixture(false, 1);
    after.root.children[0].children.push(script(8, "Added", "return 'new'"));
    let source = |fields: &Vec<Member>| fields.iter().any(|m| matches!(&m.value, Json::Text(s) if s == "return 'new'"));
    let added = diff(&before, &after, true, 10);
    assert!(matches!(&added.differences[0], Difference::Added { fields: Some(f), .. } if source(&f.properties)));
    let removed = diff(&after, &before, true, 10);
    assert!(matches!(&removed.differences[0], Difference::Removed { fields: Some(f), .. } if source(&f.properties)));
    let silent = diff(&before, &after, false, 10);
    assert!(matches!(&silent.differences[0], Difference::Added { fields: None, .. }));
}

#[test]
fn instances_that_can_not_be_told_apart_are_not_compared() {
    let before = fixture(false, 1);
    let mut after = fixture(false, 1);
    after.root.children[0].children[0].children[0].properties[0].value = text("return 8");
    after.root.children[0].children[1].children[0].properties[0].value = text("return 9");
    assert!(matches!(compare(&before, &after, None, false, 10), Err(CompareError::Ambiguous)));
    let mut dangling = fixture(false, 1);
    dangling.root.children[0].children[2].properties[0].value = reference(99);
    assert!(matches!(
        compare(&before, &dangling, None, false, 10),
        Err(CompareError::Document(DocumentError::Dangling))
    ));
}

#[test]
fn duplicates_are_told_apart_whatever_the_order_of_their_children() {
    let folder = |id: usize, sources: [&str; 2]| {
        let children = vec![script(id + 1, "Code", sources[0]), script(id + 2, "Code", sources[1])];
        node(id, "Duplicate", "Folder", Vec::new(), children)
    };
    let place = |folders: Vec<PlaceNode>| saved(vec![node(1, "Workspace", "Workspace", Vec::new(), folders)]);
    let before = place(vec![folder(10, ["a", "b"]), folder(20, ["a", "c"])]);
    let after = place(vec![folder(10, ["c", "a"]), folder(20, ["b", "a"])]);
    let result = diff(&before, &after, false, 10);
    assert!(matches_all(&result));
    assert_eq!(result.unchanged, 7);
}

#[test]
fn instances_are_paired_from_the_services_down() {
    let former = numbered_document(&fixture(false, 1), "id", None, true).unwrap();
    let later = numbered_document(&fixture(true, 1), "id", None, true).unwrap();
    let pairs = align(&former, &later).unwrap();
    for (i, pair) in pairs.iter().enumerate() {
        let other = &former.instances[pair.unwrap()];
        assert_eq!(other.name, later.instances[i].name);
        assert_eq!(other.class_name, later.instances[i].class_name);
        assert_eq!(other.parent_index, later.instances[i].parent_index.map(|p| pairs[p].unwrap()));
    }
    assert_eq!(pairs.iter().filter(|pair| pair.is_some()).count(), 7);
    let settled = settle(&former);
    let again = settle(&settled);
    for (x, y) in settled.instances.iter().zip(&again.instances) {
        assert!(changed_fields(&x.properties, &y.properties, false).is_empty());
    }
    let document = records(&fixture(false, 1));
    let target = document.instances.iter().find(|i| i.name == "Target").unwrap();
    let folder = former.instances.iter().find(|i| i.name == "Duplicate").unwrap();
    assert!(target.properties.iter().any(|m| match &m.value {
        Json::Object(o) => o.iter().any(|f| f.key == "settingsId" && matches!(&f.value, Json::Text(s) if *s == folder.settings_id)),
        _ => false,
    }));
}

#[test]
fn full_diff_does_not_hide_unknown_properties_or_emit_values_by_default() {
    let before = fixture(false, 1);
    let mut after = fixture(false, 1);
    let mut unknown = property("FutureProperty", text("private text"));
    unknown.known = false;
    after.root.children[0].properties.push(unknown);
    let hidden = diff(&before, &after, false, 100);
    assert_eq!(hidden.changed, 1);
    let shown = diff(&before, &after, true, 100);
    let values = |d: &Difference| match d {
        Difference::Changed { properties, .. } => {
            properties.iter().any(|p| matches!(&p.after, Some(Json::Text(s)) if s == "private text"))
        }
        _ => false,
    };
    assert!(!hidden.differences.iter().any(values));
    assert!(shown.differences.iter().any(values));
}

#[test]
fn full_diff_normalizes_enum_encodings_aliases_and_explicit_defaults() {
    let part = |name: &str, kind: ValueKind, json: Json| {
        let mut material = property(name, value(kind, json));
        material.canonical = "Material".to_string();
        saved(vec![node(1, "Workspace", "Workspace", Vec::new(), vec![node(2, "Part", "Part", vec![material], Vec::new())])])
    };
    let item = |n: u64| {
        Json::Object(vec![
            Member { key: "enumType".to_string(), value: Json::Text("Enum.Material".to_string()) },
            Member { key: "value".to_string(), value: Json::Number(Number::Unsigned(n)) },
        ])
    };
    let mut plain = part("Material", ValueKind::Choice(Some(item(256))), item(256));
    let mut default = property("Transparency", value(ValueKind::Plain, Json::Number(Number::Unsigned(0))));
    default.is_default = true;
    default.default = Some(Json::Number(Number::Unsigned(0)));
    plain.root.children[0].children[0].properties.push(default);
    let after = part("material", ValueKind::Choice(Some(item(256))), item(256));
    assert!(matches_all(&diff(&plain, &after, false, 100)));
    let other = part("material", ValueKind::Choice(Some(item(288))), item(288));
    let changed = diff(&plain, &other, true, 100);
    assert_eq!(changed.changed, 1);
    assert!(match &changed.differences[0] {
        Difference::Changed { properties, .. } => properties[0].name == "Material"
            && matches!(&properties[0].after, Some(Json::Object(o)) if o
                .iter()
                .any(|m| m.key == "enumType" && matches!(&m.value, Json::Text(s) if s == "Enum.Material"))),
        _ => false,
    });
}

#[test]
fn full_diff_reads_unknown_xml_properties_and_treats_tags_as_a_set() {
    let tagged = |tags: &[&str]| {
        let list: Vec<String> = tags.iter().map(|s| s.to_string()).collect();
        let json = Json::Array(tags.iter().map(|s| Json::Text(s.to_string())).collect());
        saved(vec![node(1, "Workspace", "Workspace", vec![property("Tags", value(ValueKind::Tags(list), json))], Vec::new())])
    };
    let result = diff(&tagged(&["A", "B"]), &tagged(&["B", "A"]), false, 10);
    assert!(matches_all(&result));
    assert_eq!(result.unchanged, 1);
    let other = diff(&tagged(&["A"]), &tagged(&["B", "A"]), false, 10);
    assert_eq!(other.changed, 1);
    let mut unknown = property("FutureProperty", text("saved value"));
    unknown.known = false;
    let place = saved(vec![node(1, "Workspace", "Workspace", vec![unknown], Vec::new())]);
    let view = document(&place, "view", None, false).unwrap();
    assert!(view.instances[0]
        .properties
        .iter()
        .any(|m| m.key == "FutureProperty" && matches!(&m.value, Json::Text(s) if s == "saved value")));
    let without = saved(vec![node(1, "Workspace", "Workspace", Vec::new(), Vec::new())]);
    assert_eq!(diff(&place, &without, false, 10).changed, 1);
}

#[test]
fn full_diff_reads_binary_and_xml_places_without_studio_and_view_keeps_exact_source() {
    let place = saved(vec![node(1, "Workspace", "Workspace", Vec::new(), vec![script(2, "Code", "return 2\r\n")])]);
    let view = document(&place, "view", None, false).unwrap();
    assert!(view
        .instances
        .iter()
        .any(|i| i.properties.iter().any(|m| m.key == "Source" && matches!(&m.value, Json::Text(s) if s == "return 2\r\n"))));
    let compared = records(&place);
    assert!(compared
        .instances
        .iter()
        .any(|i| i.properties.iter().any(|m| m.key == "Source" && matches!(&m.value, Json::Text(s) if s == "return 2\n"))));
}

#[test]
fn project_diff_reports_nonserialized_properties_without_hiding_saved_physics() {
    let bytes = |data: &str| value(ValueKind::Bytes(None), Json::Text(data.to_string()));
    let mesh = |data: &str| {
        let mut fidelity = property("CollisionFidelity", value(ValueKind::Plain, Json::Number(Number::Unsigned(1))));
        fidelity.saved = false;
        let physics = property("PhysicsData", bytes(data));
        saved(vec![node(1, "Workspace", "Workspace", Vec::new(), vec![node(2, "MeshPart", "MeshPart", vec![fidelity, physics], Vec::new())])])
    };
    let file = saved(vec![node(
        1,
        "Workspace",
        "Workspace",
        Vec::new(),
        vec![node(2, "MeshPart", "MeshPart", vec![property("PhysicsData", bytes("AQID"))], Vec::new())],
    )]);
    let mut project = mesh("AQID");
    assert_eq!(diff(&file, &project, false, 10).changed, 1);
    let omitted = omit_unsaved_project_properties(&mut project.root.children);
    assert_eq!(omitted.get(&"CollisionFidelity".to_string()), Some(&1));
    assert_eq!(omitted.keys().len(), 1);
    assert_eq!(project.root.children[0].children[0].properties.len(), 1);
    assert!(matches_all(&diff(&file, &project, false, 10)));
    project.root.children[0].children[0].properties[0].value = bytes("BAUG");
    assert_eq!(diff(&file, &project, false, 10).changed, 1);
    let twice = count_omitted(&vec!["A".to_string(), "B".to_string(), "A".to_string()]);
    assert_eq!(twice.get(&"A".to_string()), Some(&2));
}

#[test]
fn places_that_can_not_be_written_are_refused() {
    let dangling = saved(vec![node(
        1,
        "Workspace",
        "Workspace",
        vec![property("Value", PropertyValue::Value(PlaceValue { kind: ValueKind::Reference(Some(99)), json: None }))],
        Vec::new(),
    )]);
    assert_eq!(document(&dangling, "id", None, true).err(), Some(DocumentError::Dangling));
    let silent = saved(vec![node(
        1,
        "Workspace",
        "Workspace",
        vec![property("Value", PropertyValue::Value(PlaceValue { kind: ValueKind::Plain, json: None }))],
        Vec::new(),
    )]);
    assert_eq!(document(&silent, "id", None, true).err(), Some(DocumentError::Unrepresentable));
    let mut alias = property("size", text("b"));
    alias.canonical = "Size".to_string();
    let both = saved(vec![node(1, "Workspace", "Workspace", vec![property("Size", text("a")), alias], Vec::new())]);
    assert_eq!(document(&both, "id", None, true).err(), Some(DocumentError::ConflictingAliases));
}

#[test]
fn scripts_of_a_place_are_told_apart() {
    let place = |source: &str| {
        vec![node(
            1,
            "Workspace",
            "Workspace",
            Vec::new(),
            vec![script(2, "A", source), script(3, "B", "same"), node(4, "F", "Folder", Vec::new(), Vec::new())],
        )]
    };
    let mut fewer = place("old");
    fewer[0].children.remove(1);
    let result = compare_place(&place("new"), &fewer, &workspace(), 10);
    assert_eq!(result.project_scripts, 2);
    assert_eq!(result.place_scripts, 1);
    assert_eq!(result.state.changed, 1);
    assert_eq!(result.state.missing, 1);
    assert!(result.state.differences.iter().any(|d| matches!(d, ScriptDifference::SourceChanged { path, .. } if path[1] == "A")));
    let groups = script_groups(&place("x"), &workspace());
    let again = script_groups(&place("x"), &workspace());
    assert_eq!(compare_groups(&groups, &again, 10).matching, 2);
    assert_eq!(normalized_source("a\r\nb\r"), "a\nb\r".to_string());
}

#[test]
fn changed_fields_are_listed_in_order() {
    let member = |key: &str, n: u64| Member { key: key.to_string(), value: Json::Number(Number::Unsigned(n)) };
    let changes = changed_fields(&vec![member("B", 1), member("A", 1)], &vec![member("A", 2), member("C", 3)], true);
    let names: Vec<&str> = changes.iter().map(|c| c.name.as_str()).collect();
    assert_eq!(names, vec!["A", "B", "C"]);
    assert!(changes[1].after.is_none());
    let instance = Instance::new("a".to_string(), "A".to_string(), "Folder".to_string(), None);
    let one = SettingsDocument { instances: vec![instance] };
    let none = SettingsDocument { instances: Vec::new() };
    assert_eq!(compare_by_id(&none, &one, false, 5).added, 1);
}

#[test]
fn zero_has_one_value_whatever_its_sign() {
    let number = |s: &str| Json::Number(Number::Other(s.to_string()));
    let part = |s: &str| {
        let size = property("Size", value(ValueKind::Plain, number(s)));
        saved(vec![node(1, "Workspace", "Workspace", vec![size], Vec::new())])
    };
    assert!(matches_all(&diff(&part("0.0"), &part("-0.0"), false, 10)));
    assert_eq!(diff(&part("0.0"), &part("-0.5"), false, 10).changed, 1);
    assert!(number("-0.0").same(&number("0.0")));
    assert!(!number("-0.0").same(&Json::Number(Number::Unsigned(0))));
    let mut lies = property("Size", value(ValueKind::Plain, number("-0.0")));
    lies.default = Some(number("0.0"));
    let place = saved(vec![node(1, "Workspace", "Workspace", vec![lies], Vec::new())]);
    assert!(records(&place).instances[0].properties.is_empty());
}

#[test]
fn a_reference_may_point_at_the_root() {
    let place = || saved(vec![node(1, "Workspace", "Workspace", vec![property("Value", reference(0))], Vec::new())]);
    let view = document(&place(), "view", None, false).unwrap();
    let json = match &view.instances[0].properties[0].value {
        Json::Object(members) => members,
        _ => panic!("a reference is an object"),
    };
    let segments = json.iter().find(|m| m.key == "path").unwrap();
    assert!(segments.value.same(&Json::Array(vec![Json::Text("DataModel".to_string())])));
    assert!(matches_all(&diff(&place(), &place(), false, 10)));
}

#[test]
fn the_default_of_the_shared_name_comes_first() {
    let fact = |held: bool, s: &str| Some(DefaultFact { held, written: Some(Json::Text(s.to_string())) });
    let (held, written) = settle_default(fact(true, "shared"), fact(false, "own"));
    assert!(held && written.unwrap().same(&Json::Text("shared".to_string())));
    let (held, written) = settle_default(None, fact(false, "own"));
    assert!(!held && written.unwrap().same(&Json::Text("own".to_string())));
    let (held, written) = settle_default(None, None);
    assert!(!held && written.is_none());
}
