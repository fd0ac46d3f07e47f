//! Projects of another tool, read as projects of this one.
use vstd::prelude::*;

use crate::filter::{key_names, texts_among};
use crate::json::{
    copy_members, elements, entries, extend_members, find_key, get, lemma_entries_push, remove_key, Json, JsonModel, Member,
};
use crate::link_apply::value_of;
use crate::links::{copy_opt, opt_text};
use crate::naming::{default_naming, NamingModel};
use crate::order::{ascending, law_order_settles_the_list, sorted_once};
use crate::paths::{
    ends_in, ends_with_ignore_ascii_case, has_extension, joined_path, last_name, opt_path, path_extension_is, path_from_text,
    path_named, FilePath, PathParts,
};
use crate::project::{
    has_reserved_key, is_reserved_key, kind_at, project_naming, Files, MountOwnership, ProjectChild, ProjectMount, ProjectNode, ReniumProject,
    SourceKind, SyncRule, TreeEntry, PROJECT_FILE_NAME, PROJECT_SCHEMA_URL, PROJECT_SCHEMA_VERSION,
};
use crate::roots::parent_or;
use crate::table::Table;
use crate::target::{PathModel, ProjectTarget};
use crate::text::{joined, lemma_texts_push, pieces, same, texts};

verus! {

broadcast use vstd::seq_lib::group_seq_properties;

/// Reads a project of another tool. `preview` shows the outcome, `apply` writes it.
pub struct ImportRojoArgs {
    pub project: FilePath,
    pub preview: bool,
    pub apply: bool,
    pub output: Option<FilePath>,
    pub force: bool,
}

/// What a declared instance says.
#[verifier::ext_equal]
pub struct NodeModel {
    pub id: Option<Seq<char>>,
    pub path: Option<PathParts>,
    pub class_name: Option<Seq<char>>,
    pub properties: Map<Seq<char>, JsonModel>,
    pub attributes: Map<Seq<char>, JsonModel>,
    pub tags: Option<Seq<Seq<char>>>,
    pub ignore_unknown_instances: Option<bool>,
    pub children: Seq<ChildModel>,
}

#[verifier::ext_equal]
pub struct ChildModel {
    pub name: Seq<char>,
    pub node: Option<NodeModel>,
}

pub open spec fn opt_list(v: Option<Vec<String>>) -> Option<Seq<Seq<char>>> {
    match v {
        Some(v) => Some(texts(v@)),
        None => None,
    }
}

pub open spec fn node_model(node: ProjectNode) -> NodeModel
    decreases node,
{
    NodeModel {
        id: opt_text(node.id),
        path: opt_path(node.path),
        class_name: opt_text(node.class_name),
        properties: entries(node.properties@),
        attributes: entries(node.attributes@),
        tags: opt_list(node.tags),
        ignore_unknown_instances: node.ignore_unknown_instances,
        children: child_models(node.children@),
    }
}

pub open spec fn child_models(v: Seq<ProjectChild>) -> Seq<ChildModel>
    decreases v,
{
    if v.len() == 0 {
        Seq::empty()
    } else {
        child_models(v.drop_last()).push(
            ChildModel {
                name: v.last().name@,
                node: match v.last().node {
                    Some(node) => Some(node_model(node)),
                    None => None,
                },
            },
        )
    }
}

/// A mount that a declared instance became: content of its own that nothing else fills.
#[verifier::ext_equal]
pub struct MountModel {
    pub source: PathParts,
    pub target: PathModel,
    pub ownership: MountOwnership,
    pub optional: bool,
}

pub open spec fn mount_model(m: ProjectMount) -> MountModel {
    MountModel { source: m.source@, target: m.target@, ownership: m.ownership, optional: m.optional }
}

pub open spec fn mount_models(v: Seq<ProjectMount>) -> Seq<MountModel> {
    Seq::new(v.len(), |i: int| mount_model(v[i]))
}

pub open spec fn json_text(v: Option<JsonModel>) -> Option<Seq<char>> {
    match v {
        Some(JsonModel::Text(s)) => Some(s),
        _ => None,
    }
}

pub open spec fn json_flag(v: Option<JsonModel>) -> Option<bool> {
    match v {
        Some(JsonModel::Bool(b)) => Some(b),
        _ => None,
    }
}

/// The texts of a list.
pub open spec fn json_texts(v: Option<JsonModel>) -> Option<Seq<Seq<char>>> {
    match v {
        Some(JsonModel::Array(items)) => Some(texts_among(items, items.len())),
        _ => None,
    }
}

pub open spec fn json_object(v: Option<JsonModel>) -> Map<Seq<char>, JsonModel> {
    match v {
        Some(JsonModel::Object(o)) => o,
        _ => Map::empty(),
    }
}

/// The properties say what the attributes are.
pub open spec fn has_attributes(p: Map<Seq<char>, JsonModel>) -> bool {
    value_of(p, "Attributes"@) is Some && value_of(p, "Attributes"@)->0 is Object
}

/// Why a project of another tool can not be read.
#[derive(Debug)]
pub enum RojoError {
    RootNotObject,
    NoTree,
    /// What stands at a target is no object.
    NodeNotObject(String),
    /// A property or an attribute has no value of its kind. The root has no target.
    InvalidValue { target: Option<String>, name: String, attribute: bool },
}

#[verifier::ext_equal]
pub enum RojoErrorModel {
    RootNotObject,
    NoTree,
    NodeNotObject(Seq<char>),
    InvalidValue { target: Option<Seq<char>>, name: Seq<char>, attribute: bool },
}

impl View for RojoError {
    type V = RojoErrorModel;

    open spec fn view(&self) -> RojoErrorModel {
        match *self {
            RojoError::RootNotObject => RojoErrorModel::RootNotObject,
            RojoError::NoTree => RojoErrorModel::NoTree,
            RojoError::NodeNotObject(s) => RojoErrorModel::NodeNotObject(s@),
            RojoError::InvalidValue { target, name, attribute } => RojoErrorModel::InvalidValue {
                target: opt_text(target),
                name: name@,
                attribute,
            },
        }
    }
}

/// A value of a property or an attribute in the form that a project keeps, or that it is none.
pub enum Normal {
    Value(Json),
    Invalid,
}

#[verifier::ext_equal]
pub enum NormalModel {
    Value(JsonModel),
    Invalid,
}

impl View for Normal {
    type V = NormalModel;

    open spec fn view(&self) -> NormalModel {
        match *self {
            Normal::Value(v) => NormalModel::Value(v@),
            Normal::Invalid => NormalModel::Invalid,
        }
    }
}

/// The normal form of the values of a node, by name: of its properties, of the attributes among its
/// properties, and of its attributes. A value of which nothing is said is in its normal form already.
pub struct NodeValues {
    pub properties: Table<String, Normal>,
    pub property_attributes: Table<String, Normal>,
    pub attributes: Table<String, Normal>,
}

#[verifier::ext_equal]
pub struct ValuesModel {
    pub properties: Map<Seq<char>, NormalModel>,
    pub property_attributes: Map<Seq<char>, NormalModel>,
    pub attributes: Map<Seq<char>, NormalModel>,
}

impl View for NodeValues {
    type V = ValuesModel;

    open spec fn view(&self) -> ValuesModel {
        ValuesModel {
            properties: self.properties@,
            property_attributes: self.property_attributes@,
            attributes: self.attributes@,
        }
    }
}

impl NodeValues {
    /// Nothing is said of any value.
    pub fn new() -> (r: NodeValues)
        ensures
            r@ == no_values(),
    {
        NodeValues { properties: Table::new(), property_attributes: Table::new(), attributes: Table::new() }
    }
}

pub open spec fn no_values() -> ValuesModel {
    ValuesModel { properties: Map::empty(), property_attributes: Map::empty(), attributes: Map::empty() }
}

/// What is said of the values of the node at a target.
pub open spec fn values_at(values: Map<Seq<char>, ValuesModel>, target: Seq<char>) -> ValuesModel {
    if values.dom().contains(target) {
        values[target]
    } else {
        no_values()
    }
}

/// A value has no normal form.
pub open spec fn is_invalid(normal: Map<Seq<char>, NormalModel>, name: Seq<char>) -> bool {
    normal.dom().contains(name) && normal[name] is Invalid
}

/// Values in their normal form.
pub open spec fn in_normal_form(m: Map<Seq<char>, JsonModel>, normal: Map<Seq<char>, NormalModel>) -> Map<Seq<char>, JsonModel> {
    Map::new(
        |k: Seq<char>| m.dom().contains(k),
        |k: Seq<char>|
            if normal.dom().contains(k) && normal[k] is Value {
                normal[k]->Value_0
            } else {
                m[k]
            },
    )
}

/// The first of some names, from the `i`th on, whose value has no normal form.
pub open spec fn first_invalid(normal: Map<Seq<char>, NormalModel>, names: Seq<Seq<char>>, i: int) -> Option<Seq<char>>
    decreases names.len() - i,
{
    if i < 0 || i >= names.len() {
        None
    } else if is_invalid(normal, names[i]) {
        Some(names[i])
    } else {
        first_invalid(normal, names, i + 1)
    }
}

/// The first value without a normal form among properties, from the `i`th of their names on, and whether it
/// is that of an attribute among them.
pub open spec fn invalid_property(p: Map<Seq<char>, JsonModel>, v: ValuesModel, names: Seq<Seq<char>>, i: int) -> Option<
    (Seq<char>, bool),
>
    decreases names.len() - i,
{
    if i < 0 || i >= names.len() {
        None
    } else if names[i] == "Attributes"@ && has_attributes(p) {
        let inner = json_object(value_of(p, "Attributes"@));
        match first_invalid(v.property_attributes, names_in_order(inner), 0) {
            Some(name) => Some((name, true)),
            None => invalid_property(p, v, names, i + 1),
        }
    } else if is_invalid(v.properties, names[i]) {
        Some((names[i], false))
    } else {
        invalid_property(p, v, names, i + 1)
    }
}

/// The first value of a node without a normal form, and whether it is that of an attribute.
pub open spec fn invalid_value(m: Map<Seq<char>, JsonModel>, v: ValuesModel) -> Option<(Seq<char>, bool)> {
    let p = json_object(value_of(m, "$properties"@));
    match invalid_property(p, v, names_in_order(p), 0) {
        Some(bad) => Some(bad),
        None => match first_invalid(v.attributes, names_in_order(json_object(value_of(m, "$attributes"@))), 0) {
            Some(name) => Some((name, true)),
            None => None,
        },
    }
}

/// What a node says of the instance itself, with its values in their normal form.
pub open spec fn node_fields(m: Map<Seq<char>, JsonModel>, v: ValuesModel) -> NodeModel {
    let p = json_object(value_of(m, "$properties"@));
    NodeModel {
        id: json_text(value_of(m, "$id"@)),
        path: None,
        class_name: json_text(value_of(m, "$className"@)),
        properties: in_normal_form(
            if has_attributes(p) {
                p.remove("Attributes"@)
            } else {
                p
            },
            v.properties,
        ),
        attributes: in_normal_form(json_object(value_of(p, "Attributes"@)), v.property_attributes).union_prefer_right(
            in_normal_form(json_object(value_of(m, "$attributes"@)), v.attributes),
        ),
        tags: json_texts(value_of(m, "$tags"@)),
        ignore_unknown_instances: json_flag(value_of(m, "$ignoreUnknownInstances"@)),
        children: Seq::empty(),
    }
}

/// What a node says of the instance itself, or that one of its values is none.
pub open spec fn read_fields(m: Map<Seq<char>, JsonModel>, v: ValuesModel, target: Option<Seq<char>>) -> Result<
    NodeModel,
    RojoErrorModel,
> {
    match invalid_value(m, v) {
        Some((name, attribute)) => Err(RojoErrorModel::InvalidValue { target, name, attribute }),
        None => Ok(node_fields(m, v)),
    }
}

/// The keys of an object, in order.
pub open spec fn names_in_order(m: Map<Seq<char>, JsonModel>) -> Seq<Seq<char>> {
    choose|r: Seq<Seq<char>>| are_names(m, r)
}

pub open spec fn are_names(m: Map<Seq<char>, JsonModel>, r: Seq<Seq<char>>) -> bool {
    &&& ascending::<String>(r)
    &&& forall|k: Seq<char>| #[trigger] r.contains(k) <==> m.dom().contains(k)
}

/// A source that is mounted: another project or a model.
pub open spec fn is_mounted_source(path: PathParts) -> bool {
    ends_in(last_name(path), ".project.json"@) || ends_in(last_name(path), ".project.jsonc"@) || has_extension(
        path,
        seq!["rbxm"@, "rbxmx"@, "renium"@],
    )
}

/// A node as it is read, with the mounts that it and those below it became.
#[verifier::ext_equal]
pub struct ReadNode {
    pub node: NodeModel,
    pub mounts: Seq<MountModel>,
}

pub open spec fn own_source(m: Map<Seq<char>, JsonModel>) -> Option<PathParts> {
    match json_text(value_of(m, "$path"@)) {
        Some(s) => Some(path_named(s)),
        None => None,
    }
}

/// The mount that a node becomes.
pub open spec fn own_mount(root: PathParts, target: Seq<char>, m: Map<Seq<char>, JsonModel>) -> Seq<MountModel> {
    match own_source(m) {
        Some(source) => if is_mounted_source(joined_path(root, source)) {
            seq![
                MountModel {
                    source,
                    target: PathModel { segments: pieces(target, '.'), ordinals: Seq::empty() },
                    ownership: MountOwnership::Exclusive,
                    optional: false,
                },
            ]
        } else {
            Seq::empty()
        },
        None => Seq::empty(),
    }
}

/// The source that a node keeps: one that is not mounted and not where the source root has it anyway.
pub open spec fn kept_source(root: PathParts, source_root: PathParts, at: PathParts, m: Map<Seq<char>, JsonModel>) -> Option<
    PathParts,
> {
    match own_source(m) {
        Some(source) => if is_mounted_source(joined_path(root, source)) || source == joined_path(source_root, at) {
            None
        } else {
            Some(source)
        },
        None => None,
    }
}

/// What stands below a node, from its first `n` names.
pub open spec fn read_children(
    root: PathParts,
    source_root: PathParts,
    values: Map<Seq<char>, ValuesModel>,
    target: Seq<char>,
    at: PathParts,
    v: JsonModel,
    names: Seq<Seq<char>>,
    n: nat,
) -> Result<(Seq<ChildModel>, Seq<MountModel>), RojoErrorModel>
    decreases v, n,
{
    if n == 0 || n > names.len() {
        Ok((Seq::empty(), Seq::empty()))
    } else {
        match read_children(root, source_root, values, target, at, v, names, (n - 1) as nat) {
            Err(e) => Err(e),
            Ok(before) => {
                let name = names[n - 1];
                match v {
                    JsonModel::Object(m) => if is_reserved_key(name) || !m.dom().contains(name) {
                        Ok(before)
                    } else {
                        match read_node(
                            root,
                            source_root,
                            values,
                            target + "."@ + name,
                            joined_path(at, path_named(name)),
                            m[name],
                        ) {
                            Err(e) => Err(e),
                            Ok(read) => Ok(
                                (
                                    before.0.push(ChildModel { name, node: Some(read.node) }),
                                    before.1 + read.mounts,
                                ),
                            ),
                        }
                    },
                    _ => Ok(before),
                }
            },
        }
    }
}

/// A node as it is read. What is said of its values goes before what stands below it.
pub open spec fn read_node(
    root: PathParts,
    source_root: PathParts,
    values: Map<Seq<char>, ValuesModel>,
    target: Seq<char>,
    at: PathParts,
    v: JsonModel,
) -> Result<ReadNode, RojoErrorModel>
    decreases
            v,
            (match v {
                JsonModel::Object(m) => names_in_order(m).len(),
                _ => 0,
            }) + 1,
{
    match v {
        JsonModel::Object(m) => match read_fields(m, values_at(values, target), Some(target)) {
            Err(e) => Err(e),
            Ok(fields) => match read_children(
                root,
                source_root,
                values,
                target,
                at,
                v,
                names_in_order(m),
                names_in_order(m).len(),
            ) {
                Err(e) => Err(e),
                Ok(below) => Ok(
                    ReadNode {
                        node: NodeModel { path: kept_source(root, source_root, at, m), children: below.0, ..fields },
                        mounts: own_mount(root, target, m) + below.1,
                    },
                ),
            },
        },
        _ => Err(RojoErrorModel::NodeNotObject(target)),
    }
}

fn list_names(m: &Vec<Member>) -> (r: Vec<String>)
    ensures
        texts(r@) == names_in_order(entries(m@)),
        are_names(entries(m@), texts(r@)),
{
    let keys = key_names(m);
    let r = sorted_once(&keys);
    proof {
        let all = entries(m@);
        let list = texts(r@);
        assert forall|k: Seq<char>| #[trigger] list.contains(k) <==> all.dom().contains(k) by {
            assert(list.contains(k) <==> texts(keys@).contains(k));
        }
        assert(are_names(all, list));
        let chosen = names_in_order(all);
        assert(are_names(all, chosen));
        assert forall|k: Seq<char>| #[trigger] chosen.contains(k) <==> list.contains(k) by {}
        law_order_settles_the_list::<String>(chosen, list);
    }
    r
}

fn text_under(m: &Vec<Member>, key: &str) -> (r: Option<String>)
    ensures
        opt_text(r) == json_text(value_of(entries(m@), key@)),
{
    match get(m, key) {
        Some(Json::Text(s)) => Some(s.clone()),
        _ => None,
    }
}

fn flag_under(m: &Vec<Member>, key: &str) -> (r: Option<bool>)
    ensures
        r == json_flag(value_of(entries(m@), key@)),
{
    match get(m, key) {
        Some(Json::Bool(b)) => Some(*b),
        _ => None,
    }
}

/// The texts of a list under a key; what is no text is passed over.
pub fn json_string_array(m: &Vec<Member>, key: &str) -> (r: Option<Vec<String>>)
    ensures
        opt_list(r) == json_texts(value_of(entries(m@), key@)),
{
    match get(m, key) {
        Some(Json::Array(v)) => {
            let ghost items = elements(v@);
            let mut out: Vec<String> = Vec::new();
            assert(texts(out@) =~= Seq::empty());
            let mut i: usize = 0;
            while i < v.len()
                invariant
                    i <= v.len(),
                    items == elements(v@),
                    texts(out@) == texts_among(items, i as nat),
                decreases v.len() - i,
            {
                assert(items[i as int] == v@[i as int]@);
                match &v[i] {
                    Json::Text(s) => {
                        let copy = s.clone();
                        proof {
                            lemma_texts_push(out@, copy);
                        }
                        out.push(copy);
                    },
                    _ => {},
                }
                i += 1;
            }
            Some(out)
        },
        _ => None,
    }
}

fn object_under(m: &Vec<Member>, key: &str) -> (r: Vec<Member>)
    ensures
        entries(r@) == json_object(value_of(entries(m@), key@)),
{
    match get(m, key) {
        Some(Json::Object(o)) => copy_members(o),
        _ => Vec::new(),
    }
}

/// Puts the values of an object into their normal form; `Err` is the first name, in order, of a value
/// without one.
fn normalize_values(m: &Vec<Member>, normal: &Table<String, Normal>) -> (r: Result<Vec<Member>, String>)
    ensures
        match first_invalid(normal@, names_in_order(entries(m@)), 0) {
            Some(name) => r is Err && r->Err_0@ == name,
            None => r is Ok && entries(r->Ok_0@) == in_normal_form(entries(m@), normal@),
        },
        are_names(entries(m@), names_in_order(entries(m@))),
{
    let names = list_names(m);
    let ghost all = texts(names@);
    let ghost o = entries(m@);
    assert(all.len() == names@.len());
    let mut out: Vec<Member> = Vec::new();
    let mut i: usize = 0;
    while i < names.len()
        invariant
            i <= names.len(),
            all == texts(names@),
            all.len() == names@.len(),
            o == entries(m@),
            all == names_in_order(o),
            are_names(o, all),
            first_invalid(normal@, all, 0) == first_invalid(normal@, all, i as int),
            forall|k: Seq<char>| #[trigger]
                value_of(entries(out@), k) == if all.take(i as int).contains(k) {
                    value_of(in_normal_form(o, normal@), k)
                } else {
                    None
                },
        decreases names.len() - i,
    {
        let name = &names[i];
        assert(all[i as int] == name@);
        assert(all.contains(name@));
        let ghost before = entries(out@);
        let value = match normal.get(name) {
            Some(Normal::Invalid) => {
                return Err(name.clone());
            },
            Some(Normal::Value(v)) => Some(v.copy()),
            None => None,
        };
        let value = match value {
            Some(v) => v,
            None => match get(m, name) {
                Some(v) => v.copy(),
                None => Json::Null,
            },
        };
        let member = Member { key: name.clone(), value };
        proof {
            lemma_entries_push(out@, member);
        }
        out.push(member);
        assert forall|k: Seq<char>| #[trigger]
            value_of(entries(out@), k) == if all.take(i + 1).contains(k) {
                value_of(in_normal_form(o, normal@), k)
            } else {
                None
            } by {
            assert(value_of(before, k) == if all.take(i as int).contains(k) {
                value_of(in_normal_form(o, normal@), k)
            } else {
                None
            });
            assert(all.take(i + 1) =~= all.take(i as int).push(name@));
        }
        i += 1;
    }
    assert(all.take(i as int) =~= all);
    proof {
        let got = entries(out@);
        let want = in_normal_form(o, normal@);
        assert forall|k: Seq<char>| value_of(got, k) == #[trigger] value_of(want, k) by {
            assert(value_of(got, k) == if all.contains(k) {
                value_of(want, k)
            } else {
                None
            });
            assert(all.contains(k) <==> o.dom().contains(k));
        }
        assert forall|k: Seq<char>| #[trigger] got.dom().contains(k) <==> want.dom().contains(k) by {
            assert(value_of(got, k) == value_of(want, k));
        }
        assert forall|k: Seq<char>| got.dom().contains(k) implies #[trigger] got[k] == want[k] by {
            assert(value_of(got, k) == value_of(want, k));
        }
        assert(got =~= want);
    }
    Ok(out)
}

/// Finds the first value without a normal form among properties.
fn find_invalid_property(p: &Vec<Member>, values: &NodeValues) -> (r: Option<(String, bool)>)
    ensures
        match r {
            Some((name, attribute)) => invalid_property(entries(p@), values@, names_in_order(entries(p@)), 0) == Some(
                (name@, attribute),
            ),
            None => invalid_property(entries(p@), values@, names_in_order(entries(p@)), 0) is None,
        },
        are_names(entries(p@), names_in_order(entries(p@))),
{
    let names = list_names(p);
    let ghost all = texts(names@);
    let ghost o = entries(p@);
    assert(all.len() == names@.len());
    let mut i: usize = 0;
    while i < names.len()
        invariant
            i <= names.len(),
            all == texts(names@),
            all.len() == names@.len(),
            o == entries(p@),
            all == names_in_order(o),
            are_names(o, all),
            invalid_property(o, values@, all, 0) == invalid_property(o, values@, all, i as int),
        decreases names.len() - i,
    {
        let name = &names[i];
        assert(all[i as int] == name@);
        let inner = match get(p, "Attributes") {
            Some(Json::Object(inner)) => Some(inner),
            _ => None,
        };
        let is_attributes = same(name, "Attributes");
        match inner {
            Some(inner) => {
                assert(has_attributes(o));
                if is_attributes {
                    match normalize_values(inner, &values.property_attributes) {
                        Err(bad) => {
                            return Some((bad, true));
                        },
                        Ok(_) => {},
                    }
                }
            },
            None => {
                assert(!has_attributes(o));
            },
        }
        if !(is_attributes && inner.is_some()) {
            match values.properties.get(name) {
                Some(Normal::Invalid) => {
                    return Some((name.clone(), false));
                },
                _ => {},
            }
        }
        i += 1;
    }
    None
}

fn invalid(target: &Option<String>, name: String, attribute: bool) -> (r: RojoError)
    ensures
        r@ == (RojoErrorModel::InvalidValue { target: opt_text(*target), name: name@, attribute }),
{
    RojoError::InvalidValue { target: copy_opt(target), name, attribute }
}

proof fn lemma_fewer_are_valid(p: Map<Seq<char>, JsonModel>, v: ValuesModel, names: Seq<Seq<char>>, i: int, name: Seq<char>)
    requires
        0 <= i <= names.len(),
        invalid_property(p, v, names, i) is None,
        names.skip(i).contains(name),
        !(name == "Attributes"@ && has_attributes(p)),
    ensures
        !is_invalid(v.properties, name),
    decreases names.len() - i,
{
    if i < names.len() {
        if names[i] != name {
            let k = choose|k: int| 0 <= k < names.skip(i).len() && names.skip(i)[k] == name;
            assert(names.skip(i + 1)[k - 1] == name);
            lemma_fewer_are_valid(p, v, names, i + 1, name);
        }
    } else {
        assert(names.skip(i).len() == 0);
    }
}

proof fn lemma_none_invalid(normal: Map<Seq<char>, NormalModel>, names: Seq<Seq<char>>, i: int)
    requires
        0 <= i,
        forall|k: int| i <= k < names.len() ==> !is_invalid(normal, #[trigger] names[k]),
    ensures
        first_invalid(normal, names, i) is None,
    decreases names.len() - i,
{
    if i < names.len() {
        lemma_none_invalid(normal, names, i + 1);
    }
}

proof fn lemma_inner_valid(p: Map<Seq<char>, JsonModel>, v: ValuesModel, names: Seq<Seq<char>>, i: int)
    requires
        0 <= i <= names.len(),
        invalid_property(p, v, names, i) is None,
        names.skip(i).contains("Attributes"@),
        has_attributes(p),
    ensures
        first_invalid(v.property_attributes, names_in_order(json_object(value_of(p, "Attributes"@))), 0) is None,
    decreases names.len() - i,
{
    if i < names.len() {
        if names[i] != "Attributes"@ {
            let k = choose|k: int| 0 <= k < names.skip(i).len() && names.skip(i)[k] == "Attributes"@;
            assert(names.skip(i + 1)[k - 1] == "Attributes"@);
            lemma_inner_valid(p, v, names, i + 1);
        }
    } else {
        assert(names.skip(i).len() == 0);
    }
}

/// Reads what a node says of the instance itself. `values` are its values in their normal form.
pub fn convert_rojo_node_fields(m: &Vec<Member>, values: &NodeValues, target: &Option<String>) -> (r: Result<
    ProjectNode,
    RojoError,
>)
    ensures
        match read_fields(entries(m@), values@, opt_text(*target)) {
            Ok(fields) => r is Ok && node_model(r->Ok_0) == fields,
            Err(e) => r is Err && r->Err_0@ == e,
        },
{
    let mut raw = object_under(m, "$properties");
    let ghost p = entries(raw@);
    let ghost names = names_in_order(p);
    match find_invalid_property(&raw, values) {
        Some((name, attribute)) => {
            return Err(invalid(target, name, attribute));
        },
        None => {},
    }
    let mut inner: Vec<Member> = Vec::new();
    let given = match get(&raw, "Attributes") {
        Some(Json::Object(o)) => {
            inner = copy_members(o);
            true
        },
        _ => false,
    };
    assert(given == has_attributes(p));
    assert(entries(inner@) == json_object(value_of(p, "Attributes"@)));
    assert(names.skip(0) =~= names);
    if given {
        proof {
            assert(names.contains("Attributes"@));
            lemma_inner_valid(p, values@, names, 0);
        }
        remove_key(&mut raw, "Attributes");
    } else {
        proof {
            let none = json_object(value_of(p, "Attributes"@));
            assert(none =~= Map::empty());
            lemma_no_names(none);
            lemma_none_invalid(values@.property_attributes, names_in_order(none), 0);
        }
    }
    let ghost rest = entries(raw@);
    let done = normalize_values(&raw, &values.properties);
    proof {
        assert forall|k: int| 0 <= k < names_in_order(rest).len() implies !is_invalid(
            values@.properties,
            #[trigger] names_in_order(rest)[k],
        ) by {
            let name = names_in_order(rest)[k];
            assert(names_in_order(rest).contains(name));
            assert(rest.dom().contains(name));
            assert(names.contains(name));
            lemma_fewer_are_valid(p, values@, names, 0, name);
        }
        lemma_none_invalid(values@.properties, names_in_order(rest), 0);
    }
    let properties = match done {
        Ok(properties) => properties,
        Err(name) => {
            return Err(invalid(target, name, false));
        },
    };
    let mut attributes = match normalize_values(&inner, &values.property_attributes) {
        Ok(attributes) => attributes,
        Err(name) => {
            return Err(invalid(target, name, true));
        },
    };
    let own = object_under(m, "$attributes");
    let own = match normalize_values(&own, &values.attributes) {
        Ok(own) => own,
        Err(name) => {
            return Err(invalid(target, name, true));
        },
    };
    extend_members(&mut attributes, &own);
    Ok(
        ProjectNode {
            id: text_under(m, "$id"),
            path: None,
            class_name: text_under(m, "$className"),
            properties,
            attributes,
            tags: json_string_array(m, "$tags"),
            ignore_unknown_instances: flag_under(m, "$ignoreUnknownInstances"),
            children: Vec::new(),
        },
    )
}

proof fn lemma_no_names(m: Map<Seq<char>, JsonModel>)
    requires
        m == Map::<Seq<char>, JsonModel>::empty(),
    ensures
        names_in_order(m).len() == 0,
{
    let none = Seq::<Seq<char>>::empty();
    assert(are_names(m, none));
    let r = names_in_order(m);
    assert(are_names(m, r));
    if r.len() > 0 {
        assert(r.contains(r[0]));
    }
}

fn is_mounted(path: &FilePath) -> (r: bool)
    ensures
        r == is_mounted_source(path@),
{
    let name = path.file_name();
    let mut wanted: Vec<String> = Vec::new();
    let a = "rbxm".to_owned();
    let b = "rbxmx".to_owned();
    let c = "renium".to_owned();
    wanted.push(a);
    wanted.push(b);
    wanted.push(c);
    assert(texts(wanted@) =~= seq!["rbxm"@, "rbxmx"@, "renium"@]);
    ends_with_ignore_ascii_case(&name, ".project.json") || ends_with_ignore_ascii_case(&name, ".project.jsonc")
        || path_extension_is(path, &wanted)
}

fn push_mount(list: &mut Vec<ProjectMount>, m: ProjectMount)
    ensures
        mount_models(final(list)@) == mount_models(old(list)@).push(mount_model(m)),
{
    let ghost before = list@;
    list.push(m);
    assert(mount_models(list@) =~= mount_models(before).push(mount_model(m)));
}

fn push_child(list: &mut Vec<ProjectChild>, x: ProjectChild)
    requires
        x.node is Some,
    ensures
        child_models(final(list)@) == child_models(old(list)@).push(ChildModel { name: x.name@, node: Some(node_model(x.node->0)) }),
{
    let ghost before = list@;
    list.push(x);
    assert(list@.drop_last() =~= before);
}

proof fn lemma_children_error(
    root: PathParts,
    source_root: PathParts,
    values: Map<Seq<char>, ValuesModel>,
    target: Seq<char>,
    at: PathParts,
    v: JsonModel,
    names: Seq<Seq<char>>,
    a: nat,
    b: nat,
)
    requires
        a <= b <= names.len(),
        read_children(root, source_root, values, target, at, v, names, a) is Err,
    ensures
        read_children(root, source_root, values, target, at, v, names, b) == read_children(root, source_root, values, target, at, v, names, a),
    decreases b,
{
    if a < b {
        lemma_children_error(root, source_root, values, target, at, v, names, a, (b - 1) as nat);
    }
}

fn convert_children(
    root: &FilePath,
    source_root: &FilePath,
    values: &Table<String, NodeValues>,
    target: &str,
    at: &FilePath,
    m: &Vec<Member>,
    mounts: &mut Vec<ProjectMount>,
) -> (r: Result<Vec<ProjectChild>, RojoError>)
    ensures
        ({
            let v = JsonModel::Object(entries(m@));
            let names = names_in_order(entries(m@));
            match read_children(root@, source_root@, values@, target@, at@, v, names, names.len()) {
                Err(e) => r is Err && r->Err_0@ == e,
                Ok(below) => r is Ok && child_models(r->Ok_0@) == below.0 && mount_models(final(mounts)@) == mount_models(
                    old(mounts)@,
                ) + below.1,
            }
        }),
    decreases m, 0nat,
{
    let names = list_names(m);
    let ghost all = texts(names@);
    let ghost v = JsonModel::Object(entries(m@));
    let ghost start = mount_models(mounts@);
    assert(all.len() == names@.len());
    let mut out: Vec<ProjectChild> = Vec::new();
    assert(child_models(out@) =~= Seq::empty());
    assert(start + Seq::<MountModel>::empty() =~= start);
    let mut i: usize = 0;
    while i < names.len()
        invariant
            i <= names.len(),
            all == texts(names@),
            all.len() == names@.len(),
            all == names_in_order(entries(m@)),
            v == JsonModel::Object(entries(m@)),
            start == mount_models(old(mounts)@),
            read_children(root@, source_root@, values@, target@, at@, v, all, i as nat) is Ok,
            child_models(out@) == (read_children(root@, source_root@, values@, target@, at@, v, all, i as nat)->Ok_0).0,
            mount_models(mounts@) == start + (read_children(root@, source_root@, values@, target@, at@, v, all, i as nat)->Ok_0).1,
        decreases names.len() - i,
    {
        assert(all[i as int] == names@[i as int]@);
        let ghost before = read_children(root@, source_root@, values@, target@, at@, v, all, i as nat)->Ok_0;
        let name = &names[i];
        if !has_reserved_key(name) {
            match find_key(m, name) {
                Some(k) => {
                    let dotted = joined(target, ".");
                    let child_target = joined(&dotted, name);
                    let child_at = at.join(&path_from_text(name));
                    match convert_rojo_node(root, source_root, values, &child_target, &child_at, &m[k].value, mounts) {
                        Err(e) => {
                            proof {
                                lemma_children_error(
                                    root@,
                                    source_root@,
                                    values@,
                                    target@,
                                    at@,
                                    v,
                                    all,
                                    (i + 1) as nat,
                                    all.len(),
                                );
                            }
                            return Err(e);
                        },
                        Ok(node) => {
                            proof {
                                let read = read_node(
                                    root@,
                                    source_root@,
                                    values@,
                                    child_target@,
                                    child_at@,
                                    m@[k as int].value@,
                                )->Ok_0;
                                assert(start + before.1 + read.mounts =~= start + (before.1 + read.mounts));
                            }
                            push_child(&mut out, ProjectChild { name: name.clone(), node: Some(node) });
                        },
                    }
                },
                None => {},
            }
        }
        i += 1;
    }
    Ok(out)
}

/// Reads a node and adds the mounts that it and those below it become. `values` are the values of nodes in
/// their normal form, by target.
pub fn convert_rojo_node(
    root: &FilePath,
    source_root: &FilePath,
    values: &Table<String, NodeValues>,
    target: &str,
    at: &FilePath,
    value: &Json,
    mounts: &mut Vec<ProjectMount>,
) -> (r: Result<ProjectNode, RojoError>)
    ensures
        match read_node(root@, source_root@, values@, target@, at@, value@) {
            Err(e) => r is Err && r->Err_0@ == e,
            Ok(read) => r is Ok && node_model(r->Ok_0) == read.node && mount_models(final(mounts)@) == mount_models(old(mounts)@)
                + read.mounts,
        },
    decreases value, 1nat,
{
    match value {
        Json::Object(m) => {
            let ghost o = entries(m@);
            let ghost start = mount_models(mounts@);
            assert(value@ == JsonModel::Object(o));
            let name = target.to_owned();
            let own = Some(name);
            let fields = match values.get(own.as_ref().unwrap()) {
                Some(of_node) => convert_rojo_node_fields(m, of_node, &own),
                None => {
                    let none = NodeValues::new();
                    convert_rojo_node_fields(m, &none, &own)
                },
            };
            let mut node = match fields {
                Ok(node) => node,
                Err(e) => {
                    return Err(e);
                },
            };
            let mut kept: Option<FilePath> = None;
            match text_under(m, "$path") {
                Some(text) => {
                    let source = path_from_text(&text);
                    if is_mounted(&root.join(&source)) {
                        let mount = ProjectMount {
                            source,
                            target: ProjectTarget::Shorthand(target.to_owned()),
                            ownership: MountOwnership::Exclusive,
                            optional: false,
                        };
                        push_mount(mounts, mount);
                        assert(start.push(mount_model(mount)) =~= start + seq![mount_model(mount)]);
                        assert(mount_model(mount) =~= own_mount(root@, target@, o)[0]);
                        assert(seq![mount_model(mount)] =~= own_mount(root@, target@, o));
                    } else if !source.is_same(&source_root.join(at)) {
                        kept = Some(source);
                    }
                },
                None => {},
            }
            assert(opt_path(kept) == kept_source(root@, source_root@, at@, o));
            assert(mount_models(mounts@) =~= start + own_mount(root@, target@, o));
            match convert_children(root, source_root, values, target, at, m, mounts) {
                Err(e) => Err(e),
                Ok(children) => {
                    proof {
                        let names = names_in_order(o);
                        let below = read_children(root@, source_root@, values@, target@, at@, value@, names, names.len())->Ok_0;
                        assert(start + own_mount(root@, target@, o) + below.1 =~= start + (own_mount(root@, target@, o) + below.1));
                    }
                    node.path = kept;
                    node.children = children;
                    Ok(node)
                },
            }
        },
        _ => Err(RojoError::NodeNotObject(target.to_owned())),
    }
}

/// A rule in its plain parts.
#[verifier::ext_equal]
pub struct SyncRuleModel {
    pub pattern: Seq<char>,
    pub exclude: Option<Seq<char>>,
    pub middleware: Seq<char>,
    pub suffix: Option<Seq<char>>,
}

pub open spec fn sync_rule_model(rule: SyncRule) -> SyncRuleModel {
    SyncRuleModel {
        pattern: rule.pattern@,
        exclude: opt_text(rule.exclude),
        middleware: rule.middleware@,
        suffix: opt_text(rule.suffix),
    }
}

pub open spec fn sync_rule_models(v: Seq<SyncRule>) -> Seq<SyncRuleModel> {
    Seq::new(v.len(), |i: int| sync_rule_model(v[i]))
}

/// The rule for the files with a suffix.
pub open spec fn suffix_rule(suffix: Seq<char>, middleware: Seq<char>) -> SyncRuleModel {
    SyncRuleModel { pattern: "**/*"@ + suffix, exclude: None, middleware, suffix: Some(suffix) }
}

/// The rules that the other tool has by itself.
pub open spec fn default_rules() -> Seq<SyncRuleModel> {
    seq![
        suffix_rule(".txt"@, "txt"@),
        suffix_rule(".csv"@, "csv"@),
        suffix_rule(".json"@, "json"@),
        suffix_rule(".jsonc"@, "jsonc"@),
        suffix_rule(".toml"@, "toml"@),
        suffix_rule(".yaml"@, "yaml"@),
        suffix_rule(".yml"@, "yaml"@),
        suffix_rule(".msgpack"@, "msgpack"@),
        suffix_rule(".md"@, "markdown"@),
        suffix_rule(".rbxm"@, "rbxm"@),
        suffix_rule(".rbxmx"@, "rbxmx"@),
        suffix_rule(".model.json"@, "model-json"@),
        suffix_rule(".model.renium.jsonc"@, "model-json"@),
        suffix_rule(".project.json"@, "nested-project"@),
        suffix_rule(".project.jsonc"@, "nested-project"@),
    ]
}

fn push_suffix_rule(list: &mut Vec<SyncRule>, suffix: &str, middleware: &str)
    ensures
        sync_rule_models(final(list)@) == sync_rule_models(old(list)@).push(suffix_rule(suffix@, middleware@)),
{
    let ghost before = list@;
    let rule = SyncRule {
        pattern: joined("**/*", suffix),
        exclude: None,
        middleware: middleware.to_owned(),
        suffix: Some(suffix.to_owned()),
    };
    assert(sync_rule_model(rule) =~= suffix_rule(suffix@, middleware@));
    list.push(rule);
    assert(sync_rule_models(list@) =~= sync_rule_models(before).push(suffix_rule(suffix@, middleware@)));
}

/// The rules that the other tool has by itself.
pub fn rojo_default_sync_rules() -> (r: Vec<SyncRule>)
    ensures
        sync_rule_models(r@) == default_rules(),
{
    let mut r: Vec<SyncRule> = Vec::new();
    assert(sync_rule_models(r@) =~= Seq::empty());
    push_suffix_rule(&mut r, ".txt", "txt");
    push_suffix_rule(&mut r, ".csv", "csv");
    push_suffix_rule(&mut r, ".json", "json");
    push_suffix_rule(&mut r, ".jsonc", "jsonc");
    push_suffix_rule(&mut r, ".toml", "toml");
    push_suffix_rule(&mut r, ".yaml", "yaml");
    push_suffix_rule(&mut r, ".yml", "yaml");
    push_suffix_rule(&mut r, ".msgpack", "msgpack");
    push_suffix_rule(&mut r, ".md", "markdown");
    push_suffix_rule(&mut r, ".rbxm", "rbxm");
    push_suffix_rule(&mut r, ".rbxmx", "rbxmx");
    push_suffix_rule(&mut r, ".model.json", "model-json");
    push_suffix_rule(&mut r, ".model.renium.jsonc", "model-json");
    push_suffix_rule(&mut r, ".project.json", "nested-project");
    push_suffix_rule(&mut r, ".project.jsonc", "nested-project");
    assert(sync_rule_models(r@) =~= default_rules());
    r
}

/// What a project of another tool is as one of this tool.
#[verifier::ext_equal]
pub struct ConvertedModel {
    pub schema: Option<Seq<char>>,
    pub schema_version: u32,
    pub name: Option<Seq<char>>,
    pub source_root: PathParts,
    pub build_target: Option<PathModel>,
    pub root: NodeModel,
    pub tree: Seq<ChildModel>,
    pub mounts: Seq<MountModel>,
    pub adapters: nat,
    pub sync_rules: Seq<SyncRuleModel>,
    pub glob_ignore_paths: Seq<Seq<char>>,
    pub filters: nat,
    pub naming: NamingModel,
    pub settings: JsonModel,
}

/// The services of a project of another tool, from the first `n` names of its tree.
pub open spec fn read_services(
    root: PathParts,
    source_root: PathParts,
    values: Map<Seq<char>, ValuesModel>,
    tree: Map<Seq<char>, JsonModel>,
    names: Seq<Seq<char>>,
    n: nat,
) -> Result<(Seq<ChildModel>, Seq<MountModel>), RojoErrorModel>
    decreases n,
{
    if n == 0 || n > names.len() {
        Ok((Seq::empty(), Seq::empty()))
    } else {
        match read_services(root, source_root, values, tree, names, (n - 1) as nat) {
            Err(e) => Err(e),
            Ok(before) => {
                let name = names[n - 1];
                if is_reserved_key(name) || !tree.dom().contains(name) {
                    Ok(before)
                } else {
                    match read_node(root, source_root, values, name, path_named(name), tree[name]) {
                        Err(e) => Err(e),
                        Ok(read) => Ok((before.0.push(ChildModel { name, node: Some(read.node) }), before.1 + read.mounts)),
                    }
                }
            },
        }
    }
}

/// Where the sources of a project of another tool are.
pub open spec fn read_source_root(tree: Map<Seq<char>, JsonModel>) -> PathParts {
    match own_source(tree) {
        Some(source) => source,
        None => PathParts { rooted: false, parts: seq!["src"@] },
    }
}

/// A project of another tool as one of this tool. `root` is the directory of its file. What the other tool
/// does not know is as in a new project.
pub open spec fn read_project(
    root: PathParts,
    v: JsonModel,
    rules: Seq<SyncRuleModel>,
    root_values: ValuesModel,
    values: Map<Seq<char>, ValuesModel>,
) -> Result<ConvertedModel, RojoErrorModel> {
    match v {
        JsonModel::Object(o) => match value_of(o, "tree"@) {
            Some(JsonModel::Object(tree)) => {
                let source_root = read_source_root(tree);
                let names = names_in_order(tree);
                match read_fields(tree, root_values, None) {
                    Err(e) => Err(e),
                    Ok(fields) => match read_services(root, source_root, values, tree, names, names.len()) {
                        Err(e) => Err(e),
                        Ok(read) => Ok(
                            ConvertedModel {
                                schema: Some(PROJECT_SCHEMA_URL@),
                                schema_version: PROJECT_SCHEMA_VERSION,
                                name: json_text(value_of(o, "name"@)),
                                source_root,
                                build_target: None,
                                root: fields,
                                tree: read.0,
                                mounts: read.1,
                                adapters: 0,
                                sync_rules: rules,
                                glob_ignore_paths: match json_texts(value_of(o, "globIgnorePaths"@)) {
                                    Some(list) => list,
                                    None => Seq::empty(),
                                },
                                filters: 0,
                                naming: default_naming(),
                                settings: JsonModel::Object(Map::empty()),
                            },
                        ),
                    },
                }
            },
            _ => Err(RojoErrorModel::NoTree),
        },
        _ => Err(RojoErrorModel::RootNotObject),
    }
}

pub open spec fn service_models(v: Seq<TreeEntry>) -> Seq<ChildModel> {
    Seq::new(v.len(), |i: int| ChildModel { name: v[i].name@, node: Some(node_model(v[i].node)) })
}

pub open spec fn converted_model(project: ReniumProject) -> ConvertedModel {
    ConvertedModel {
        schema: opt_text(project.schema),
        schema_version: project.schema_version,
        name: opt_text(project.name),
        source_root: project.source_root@,
        build_target: match project.build_target {
            Some(target) => Some(target@),
            None => None,
        },
        root: node_model(project.root),
        tree: service_models(project.tree@),
        mounts: mount_models(project.mounts@),
        adapters: project.adapters@.len(),
        sync_rules: sync_rule_models(project.sync_rules@),
        glob_ignore_paths: texts(project.glob_ignore_paths@),
        filters: project.filters@.len(),
        naming: project_naming(project),
        settings: project.settings@,
    }
}

pub open spec fn opt_rules(v: Option<Vec<SyncRule>>) -> Seq<SyncRuleModel> {
    match v {
        Some(v) => sync_rule_models(v@),
        None => default_rules(),
    }
}

proof fn lemma_services_error(
    root: PathParts,
    source_root: PathParts,
    values: Map<Seq<char>, ValuesModel>,
    tree: Map<Seq<char>, JsonModel>,
    names: Seq<Seq<char>>,
    a: nat,
    b: nat,
)
    requires
        a <= b <= names.len(),
        read_services(root, source_root, values, tree, names, a) is Err,
    ensures
        read_services(root, source_root, values, tree, names, b) == read_services(root, source_root, values, tree, names, a),
    decreases b,
{
    if a < b {
        lemma_services_error(root, source_root, values, tree, names, a, (b - 1) as nat);
    }
}

fn push_service(list: &mut Vec<TreeEntry>, x: TreeEntry)
    ensures
        service_models(final(list)@) == service_models(old(list)@).push(ChildModel { name: x.name@, node: Some(node_model(x.node)) }),
{
    let ghost before = list@;
    list.push(x);
    assert(service_models(list@) =~= service_models(before).push(ChildModel { name: x.name@, node: Some(node_model(x.node)) }));
}

fn convert_services(
    root: &FilePath,
    source_root: &FilePath,
    values: &Table<String, NodeValues>,
    m: &Vec<Member>,
    mounts: &mut Vec<ProjectMount>,
) -> (r: Result<Vec<TreeEntry>, RojoError>)
    ensures
        ({
            let tree = entries(m@);
            let names = names_in_order(tree);
            match read_services(root@, source_root@, values@, tree, names, names.len()) {
                Err(e) => r is Err && r->Err_0@ == e,
                Ok(read) => r is Ok && service_models(r->Ok_0@) == read.0 && mount_models(final(mounts)@) == mount_models(old(mounts)@)
                    + read.1,
            }
        }),
{
    let names = list_names(m);
    let ghost all = texts(names@);
    let ghost tree = entries(m@);
    let ghost start = mount_models(mounts@);
    assert(all.len() == names@.len());
    let mut out: Vec<TreeEntry> = Vec::new();
    assert(service_models(out@) =~= Seq::empty());
    assert(start + Seq::<MountModel>::empty() =~= start);
    let mut i: usize = 0;
    while i < names.len()
        invariant
            i <= names.len(),
            all == texts(names@),
            all.len() == names@.len(),
            all == names_in_order(tree),
            tree == entries(m@),
            start == mount_models(old(mounts)@),
            read_services(root@, source_root@, values@, tree, all, i as nat) is Ok,
            service_models(out@) == (read_services(root@, source_root@, values@, tree, all, i as nat)->Ok_0).0,
            mount_models(mounts@) == start + (read_services(root@, source_root@, values@, tree, all, i as nat)->Ok_0).1,
        decreases names.len() - i,
    {
        assert(all[i as int] == names@[i as int]@);
        let ghost before = read_services(root@, source_root@, values@, tree, all, i as nat)->Ok_0;
        let name = &names[i];
        if !has_reserved_key(name) {
            match find_key(m, name) {
                Some(k) => {
                    let at = path_from_text(name);
                    match convert_rojo_node(root, source_root, values, name, &at, &m[k].value, mounts) {
                        Err(e) => {
                            proof {
                                lemma_services_error(root@, source_root@, values@, tree, all, (i + 1) as nat, all.len());
                            }
                            return Err(e);
                        },
                        Ok(node) => {
                            proof {
                                let read = read_node(root@, source_root@, values@, name@, at@, m@[k as int].value@)->Ok_0;
                                assert(start + before.1 + read.mounts =~= start + (before.1 + read.mounts));
                            }
                            push_service(&mut out, TreeEntry { name: name.clone(), node });
                        },
                    }
                },
                None => {},
            }
        }
        i += 1;
    }
    Ok(out)
}

/// Reads a project of another tool. `root` is the directory of its file; `rules` are those that it
/// lists, if it lists some. `root_values` and `values` are the values of the root and of the nodes below it
/// in their normal form, the latter by target.
pub fn convert_rojo_project(
    root: &FilePath,
    value: &Json,
    rules: Option<Vec<SyncRule>>,
    root_values: &NodeValues,
    values: &Table<String, NodeValues>,
) -> (r: Result<ReniumProject, RojoError>)
    ensures
        match read_project(root@, value@, opt_rules(rules), root_values@, values@) {
            Err(e) => r is Err && r->Err_0@ == e,
            Ok(read) => r is Ok && converted_model(r->Ok_0) == read,
        },
{
    let object = match value {
        Json::Object(m) => m,
        _ => {
            return Err(RojoError::RootNotObject);
        },
    };
    assert(value@ == JsonModel::Object(entries(object@)));
    let tree = match get(object, "tree") {
        Some(Json::Object(tree)) => tree,
        _ => {
            return Err(RojoError::NoTree);
        },
    };
    let mut project = ReniumProject::default();
    project.name = text_under(object, "name");
    match text_under(tree, "$path") {
        Some(text) => {
            project.source_root = path_from_text(&text);
        },
        None => {},
    }
    assert(project.source_root@ == read_source_root(entries(tree@)));
    let no_target: Option<String> = None;
    project.root = match convert_rojo_node_fields(tree, root_values, &no_target) {
        Ok(node) => node,
        Err(e) => {
            return Err(e);
        },
    };
    let mut mounts: Vec<ProjectMount> = Vec::new();
    assert(mount_models(mounts@) =~= Seq::empty());
    let services = match convert_services(root, &project.source_root, values, tree, &mut mounts) {
        Ok(services) => services,
        Err(e) => {
            return Err(e);
        },
    };
    assert(mount_models(mounts@) =~= (read_services(
        root@,
        project.source_root@,
        values@,
        entries(tree@),
        names_in_order(entries(tree@)),
        names_in_order(entries(tree@)).len(),
    )->Ok_0).1);
    project.tree = services;
    project.mounts = mounts;
    project.sync_rules = match rules {
        Some(rules) => rules,
        None => rojo_default_sync_rules(),
    };
    project.glob_ignore_paths = match json_string_array(object, "globIgnorePaths") {
        Some(list) => list,
        None => {
            let none: Vec<String> = Vec::new();
            assert(texts(none@) =~= Seq::empty());
            none
        },
    };
    Ok(project)
}

/// A project that says which version of the schema it follows is one of this tool.
pub open spec fn is_own_project(v: JsonModel) -> bool {
    v is Object && v->Object_0.dom().contains("schemaVersion"@)
}

/// Whether what is written is a project of this tool, not of another.
pub fn has_schema_version(value: &Json) -> (r: bool)
    ensures
        r == is_own_project(value@),
{
    match value {
        Json::Object(m) => get(m, "schemaVersion").is_some(),
        _ => false,
    }
}

/// What is done with a project that was read.
pub enum ImportStep {
    /// It is shown.
    Show,
    /// It is written to a file.
    Write(FilePath),
    /// It is not written over a file that is there.
    Exists(FilePath),
}

pub open spec fn import_output(source: PathParts, output: Option<PathParts>) -> PathParts {
    match output {
        Some(output) => output,
        None => {
            let directory = parent_or(source, PathParts { rooted: false, parts: Seq::empty() });
            PathParts { rooted: directory.rooted, parts: directory.parts.push(PROJECT_FILE_NAME@) }
        },
    }
}

/// Decides what is done with a project that was read from `source`: shown unless it is to be applied,
/// and written over a file only by force.
pub fn plan_import(args: &ImportRojoArgs, source: &FilePath, files: &Files) -> (r: ImportStep)
    ensures
        ({
            let output = import_output(source@, opt_path(args.output));
            match r {
                ImportStep::Show => !args.apply || args.preview,
                ImportStep::Exists(path) => args.apply && !args.preview && path@ == output && kind_at(files@, output)
                    != SourceKind::Missing && !args.force,
                ImportStep::Write(path) => args.apply && !args.preview && path@ == output && (kind_at(files@, output)
                    == SourceKind::Missing || args.force),
            }
        }),
{
    if !args.apply || args.preview {
        return ImportStep::Show;
    }
    let output = match &args.output {
        Some(output) => output.copy(),
        None => {
            let here = FilePath::relative(Vec::new());
            assert(here@ =~= (PathParts { rooted: false, parts: Seq::empty() }));
            match source.parent() {
                Some(parent) => parent.child(PROJECT_FILE_NAME),
                None => here.child(PROJECT_FILE_NAME),
            }
        },
    };
    if files.kind(&output) != SourceKind::Missing && !args.force {
        ImportStep::Exists(output)
    } else {
        ImportStep::Write(output)
    }
}

} // verus!
