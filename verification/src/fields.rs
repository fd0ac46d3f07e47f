//! What projects own of instances: their classes, ids, properties, attributes and tags.
use vstd::prelude::*;

use crate::document::{document_target, find_document_target_optional_with_ordinals, InstanceModel, SettingsDocument};
use crate::json::{entries, get, law_same_json_reflexive, same_json, same_opt, Json, JsonModel, Member};
use crate::link_apply::value_of;
use crate::mapping::{joined_target, ProjectTree, ProjectWriteResolution};
use crate::order::{
    in_order, list_comes_before, list_less, lemma_list_less_total, lemma_list_less_transitive, sort_ranked, sorted, sorted_once, views,
    Ranked,
};
use crate::paths::{extension_of, last_name, slash_text, split_extension, FilePath, PathParts};
use crate::project::{
    all_tree_nodes, kind_at, project_tree_nodes, tree_views, Files, ProjectNode, SourceKind, TargetProblem, TreeNodeModel,
};
use crate::projects::{list_projects, placed_projects, placed_views, PlacedProject, PlacedProjectModel};
use crate::structure::{find_id, with_id};
use crate::table::Table;
use crate::text::{
    clone_texts, join_texts, joined, joined_by, lemma_text_less_total, lemma_text_less_transitive, lemma_texts_push, less, same, same_texts,
    text_less, texts,
};

verus! {

broadcast use vstd::seq_lib::group_seq_properties;

/// What a project says of an instance, without the values.
pub struct ProjectionFieldOwner {
    pub target: Vec<String>,
    pub source: String,
    pub class_name: bool,
    pub settings_id: bool,
    pub properties: Vec<String>,
    pub attributes: Vec<String>,
    pub tags: bool,
}

#[verifier::ext_equal]
pub struct FieldOwnerModel {
    pub target: Seq<Seq<char>>,
    pub source: Seq<char>,
    pub class_name: bool,
    pub settings_id: bool,
    pub properties: Seq<Seq<char>>,
    pub attributes: Seq<Seq<char>>,
    pub tags: bool,
}

impl View for ProjectionFieldOwner {
    type V = FieldOwnerModel;

    open spec fn view(&self) -> FieldOwnerModel {
        FieldOwnerModel {
            target: texts(self.target@),
            source: self.source@,
            class_name: self.class_name,
            settings_id: self.settings_id,
            properties: texts(self.properties@),
            attributes: texts(self.attributes@),
            tags: self.tags,
        }
    }
}

impl Ranked for ProjectionFieldOwner {
    open spec fn ranks_before(a: FieldOwnerModel, b: FieldOwnerModel) -> bool {
        if a.target == b.target {
            text_less(a.source, b.source)
        } else {
            list_less(a.target, b.target)
        }
    }

    fn is_before(&self, other: &Self) -> (r: bool) {
        if same_texts(&self.target, &other.target) {
            less(&self.source, &other.source)
        } else {
            list_comes_before(&self.target, &other.target)
        }
    }

    proof fn lemma_ranks(a: FieldOwnerModel, b: FieldOwnerModel, c: FieldOwnerModel) {
        lemma_list_less_total(a.target, b.target);
        lemma_list_less_total(b.target, c.target);
        lemma_list_less_total(a.target, c.target);
        lemma_text_less_total(a.source, b.source);
        lemma_text_less_total(b.source, c.source);
        lemma_text_less_total(a.source, c.source);
        if list_less(a.target, b.target) && list_less(b.target, c.target) {
            lemma_list_less_transitive(a.target, b.target, c.target);
        }
        if text_less(a.source, b.source) && text_less(b.source, c.source) {
            lemma_text_less_transitive(a.source, b.source, c.source);
        }
    }
}

pub open spec fn member_keys(m: Seq<Member>) -> Seq<Seq<char>> {
    Seq::new(m.len(), |i: int| m[i].key@)
}

/// The names of members, in order and each once.
pub fn sorted_keys(m: &Vec<Member>) -> (r: Vec<String>)
    ensures
        texts(r@) == in_order(member_keys(m@)),
{
    let mut keys: Vec<String> = Vec::new();
    let mut i: usize = 0;
    while i < m.len()
        invariant
            i <= m.len(),
            texts(keys@) =~= member_keys(m@).take(i as int),
        decreases m.len() - i,
    {
        let key = m[i].key.clone();
        proof {
            lemma_texts_push(keys@, key);
            assert(member_keys(m@)[i as int] == key@);
        }
        keys.push(key);
        i += 1;
    }
    assert(member_keys(m@).take(i as int) =~= member_keys(m@));
    sorted_once(&keys)
}

/// The root of a project says something of the instance that stands for it.
pub open spec fn root_says(root: ProjectNode) -> bool {
    &&& !(root.class_name is Some && root.class_name->0@ == "DataModel"@)
    &&& root.class_name is Some || root.id is Some || root.properties@.len() > 0 || root.attributes@.len() > 0 || root.tags is Some
}

pub open spec fn node_owner(node: ProjectNode, target: Seq<Seq<char>>, source: Seq<char>) -> FieldOwnerModel {
    FieldOwnerModel {
        target,
        source,
        class_name: node.class_name is Some,
        settings_id: node.id is Some,
        properties: in_order(member_keys(node.properties@)),
        attributes: in_order(member_keys(node.attributes@)),
        tags: node.tags is Some,
    }
}

/// What the root of a project at some place owns.
pub open spec fn root_owners(x: PlacedProjectModel, with_root: bool) -> Seq<FieldOwnerModel> {
    let root = x.tree.loaded.project.root;
    if with_root && root_says(root) {
        seq![node_owner(root, x.prefix, slash_text(x.tree.loaded.path@) + " root"@)]
    } else {
        Seq::empty()
    }
}

pub open spec fn tree_source(path: PathParts, target: Seq<Seq<char>>) -> Seq<char> {
    slash_text(path) + " tree '"@ + joined_by(target, "."@) + "'"@
}

/// What the first `n` nodes of its tree own.
pub open spec fn tree_field_owners(x: PlacedProjectModel, nodes: Seq<TreeNodeModel>) -> Seq<FieldOwnerModel> {
    Seq::new(
        nodes.len(),
        |i: int| node_owner(nodes[i].node, x.prefix + nodes[i].target, tree_source(x.tree.loaded.path@, nodes[i].target)),
    )
}

/// What its descriptions own.
pub open spec fn sidecar_owners(x: PlacedProjectModel) -> Seq<FieldOwnerModel> {
    Seq::new(
        x.tree.sidecars@.len(),
        |i: int|
            {
                let sidecar = x.tree.sidecars@[i];
                FieldOwnerModel {
                    target: x.prefix + texts(sidecar.target@),
                    source: slash_text(sidecar.source@),
                    class_name: sidecar.metadata.class_name is Some,
                    settings_id: sidecar.metadata.id is Some,
                    properties: in_order(member_keys(sidecar.metadata.properties@)),
                    attributes: in_order(member_keys(sidecar.metadata.attributes@)),
                    tags: sidecar.metadata.tags is Some,
                }
            },
    )
}

/// What a project at some place owns.
pub open spec fn project_field_owners(x: PlacedProjectModel, with_root: bool) -> Seq<FieldOwnerModel> {
    root_owners(x, with_root) + tree_field_owners(x, all_tree_nodes(x.tree.loaded.project)) + sidecar_owners(x)
}

/// What the first `n` projects own; the root of the first counts only if it is asked for.
pub open spec fn unsorted_owners(list: Seq<PlacedProjectModel>, with_root: bool, n: nat) -> Seq<FieldOwnerModel>
    decreases n,
{
    if n == 0 {
        Seq::empty()
    } else {
        unsorted_owners(list, with_root, (n - 1) as nat) + project_field_owners(list[n - 1], with_root || n > 1)
    }
}

/// What projects own, by target and source.
pub open spec fn field_owners(list: Seq<PlacedProjectModel>, with_root: bool) -> Seq<FieldOwnerModel> {
    let all = unsorted_owners(list, with_root, list.len());
    sorted::<ProjectionFieldOwner>(all, all.len())
}

fn push_owner(out: &mut Vec<ProjectionFieldOwner>, x: ProjectionFieldOwner)
    ensures
        views(final(out)@) == views(old(out)@).push(x@),
{
    let ghost before = out@;
    out.push(x);
    assert(views(out@) =~= views(before).push(x@));
}

fn owner_of(node: &ProjectNode, target: Vec<String>, source: String) -> (r: ProjectionFieldOwner)
    ensures
        r@ == node_owner(*node, texts(target@), source@),
{
    ProjectionFieldOwner {
        target,
        source,
        class_name: node.class_name.is_some(),
        settings_id: node.id.is_some(),
        properties: sorted_keys(&node.properties),
        attributes: sorted_keys(&node.attributes),
        tags: node.tags.is_some(),
    }
}

fn append_owners(project: &PlacedProject<'_>, with_root: bool, out: &mut Vec<ProjectionFieldOwner>)
    ensures
        views(final(out)@) == views(old(out)@) + project_field_owners(project@, with_root),
{
    let ghost x = project@;
    let ghost start = views(out@);
    let loaded = &project.tree.loaded;
    let root = &loaded.project.root;
    let is_model = match &root.class_name {
        Some(class_name) => same(class_name, "DataModel"),
        None => false,
    };
    let path = loaded.path.to_slash();
    if with_root && !is_model && (root.class_name.is_some() || root.id.is_some() || root.properties.len() > 0
        || root.attributes.len() > 0 || root.tags.is_some()) {
        let owner = owner_of(root, clone_texts(&project.prefix), joined(&path, " root"));
        assert(root_owners(x, with_root) =~= seq![owner@]);
        push_owner(out, owner);
    } else {
        assert(root_owners(x, with_root) =~= Seq::empty());
    }
    let ghost first = root_owners(x, with_root);
    assert(views(out@) =~= start + first);
    let nodes = project_tree_nodes(&loaded.project.tree);
    let ghost all = tree_views(nodes@);
    assert(all.len() == nodes@.len());
    let ghost second = tree_field_owners(x, all);
    let mut i: usize = 0;
    assert(start + first + second.take(0) =~= start + first);
    while i < nodes.len()
        invariant
            i <= nodes.len(),
            x == project@,
            *loaded == x.tree.loaded,
            path@ == slash_text(loaded.path@),
            all == tree_views(nodes@),
            second == tree_field_owners(x, all),
            views(out@) == start + first + second.take(i as int),
        decreases nodes.len() - i,
    {
        assert(all[i as int] == nodes@[i as int]@);
        let opened = joined(&path, " tree '");
        let named = joined(&opened, &join_texts(&nodes[i].target, "."));
        let source = joined(&named, "'");
        let owner = owner_of(nodes[i].node, joined_target(&project.prefix, &nodes[i].target), source);
        proof {
            assert(second[i as int] == owner@);
            assert((start + first + second.take(i as int)).push(owner@) =~= start + first + second.take(i + 1));
        }
        push_owner(out, owner);
        i += 1;
    }
    assert(second.take(i as int) =~= second);
    let sidecars = &project.tree.sidecars;
    let ghost third = sidecar_owners(x);
    let mut k: usize = 0;
    assert(start + first + second + third.take(0) =~= start + first + second);
    while k < sidecars.len()
        invariant
            k <= sidecars@.len(),
            x == project@,
            *sidecars == x.tree.sidecars,
            third == sidecar_owners(x),
            views(out@) == start + first + second + third.take(k as int),
        decreases sidecars@.len() - k,
    {
        let sidecar = &sidecars[k];
        let owner = ProjectionFieldOwner {
            target: joined_target(&project.prefix, &sidecar.target),
            source: sidecar.source.to_slash(),
            class_name: sidecar.metadata.class_name.is_some(),
            settings_id: sidecar.metadata.id.is_some(),
            properties: sorted_keys(&sidecar.metadata.properties),
            attributes: sorted_keys(&sidecar.metadata.attributes),
            tags: sidecar.metadata.tags.is_some(),
        };
        proof {
            assert(third[k as int] == owner@);
            assert((start + first + second + third.take(k as int)).push(owner@) =~= start + first + second + third.take(k + 1));
        }
        push_owner(out, owner);
        k += 1;
    }
    proof {
        assert(third.take(k as int) =~= third);
        assert(start + first + second + third =~= start + (first + second + third));
    }
}

/// Lists what a project and those inside it own, by target and source.
pub fn projection_field_owners_with_root(tree: &ProjectTree, with_root: bool) -> (r: Result<Vec<ProjectionFieldOwner>, TargetProblem>)
    ensures
        match placed_projects(*tree, Seq::empty()) {
            Ok(list) => r is Ok && views(r->Ok_0@) == field_owners(list, with_root),
            Err(e) => r is Err && r->Err_0 == e,
        },
{
    let projects = match list_projects(tree) {
        Ok(projects) => projects,
        Err(e) => {
            return Err(e);
        },
    };
    let ghost list = placed_views(projects@);
    assert(list.len() == projects@.len());
    let mut out: Vec<ProjectionFieldOwner> = Vec::new();
    assert(views(out@) =~= Seq::empty());
    let mut i: usize = 0;
    while i < projects.len()
        invariant
            i <= projects.len(),
            list == placed_views(projects@),
            views(out@) == unsorted_owners(list, with_root, i as nat),
        decreases projects.len() - i,
    {
        assert(list[i as int] == projects@[i as int]@);
        append_owners(&projects[i], with_root || i > 0, &mut out);
        i += 1;
    }
    assert(views(out@).len() == out@.len());
    Ok(sort_ranked(out))
}

/// Whether a project, or one inside it, says something of the instance at a target.
pub fn project_target_is_declarative(tree: &ProjectTree, target: &Vec<String>) -> (r: Result<bool, TargetProblem>)
    ensures
        match placed_projects(*tree, Seq::empty()) {
            Ok(list) => r is Ok && r->Ok_0 == exists|i: int|
                0 <= i < field_owners(list, false).len() && (#[trigger] field_owners(list, false)[i]).target == texts(target@),
            Err(e) => r is Err && r->Err_0 == e,
        },
{
    let owners = match projection_field_owners_with_root(tree, false) {
        Ok(owners) => owners,
        Err(e) => {
            return Err(e);
        },
    };
    let ghost all = views(owners@);
    assert(all.len() == owners@.len());
    let mut i: usize = 0;
    while i < owners.len()
        invariant
            i <= owners.len(),
            all == views(owners@),
            all.len() == owners@.len(),
            placed_projects(*tree, Seq::empty()) is Ok,
            all == field_owners(placed_projects(*tree, Seq::empty())->Ok_0, false),
            forall|j: int| 0 <= j < i ==> (#[trigger] all[j]).target != texts(target@),
        decreases owners.len() - i,
    {
        assert(all[i as int] == owners@[i as int]@);
        if same_texts(&owners[i].target, target) {
            return Ok(true);
        }
        i += 1;
    }
    Ok(false)
}

/// Why no store can be changed at a target.
#[derive(PartialEq, Eq, Structural, Clone, Copy, Debug)]
pub enum StoreError {
    /// A file that is no store stands for it.
    OwnedByFile,
    /// The directory that stands for it has no store.
    NoStore,
}

/// Finds the store of what a target resolves to: the file itself, where it is a store, or the store of
/// the directory, which is given.
pub fn project_structural_store(resolution: &ProjectWriteResolution, files: &Files, settings: &FilePath) -> (r: Result<
    FilePath,
    StoreError,
>)
    ensures
        ({
            let root = resolution@.source_root;
            if kind_at(files@, root) == SourceKind::File {
                if extension_of(last_name(root)) == Some("renium"@) {
                    r is Ok && r->Ok_0@ == root
                } else {
                    r is Err && r->Err_0 == StoreError::OwnedByFile
                }
            } else if kind_at(files@, settings@) == SourceKind::File {
                r is Ok && r->Ok_0@ == settings@
            } else {
                r is Err && r->Err_0 == StoreError::NoStore
            }
        }),
{
    if files.kind(&resolution.source_root) == SourceKind::File {
        let name = resolution.source_root.file_name();
        let (_, extension) = split_extension(&name);
        let is_store = match &extension {
            Some(extension) => same(extension, "renium"),
            None => false,
        };
        if is_store {
            return Ok(resolution.source_root.copy());
        }
        return Err(StoreError::OwnedByFile);
    }
    if files.kind(settings) != SourceKind::File {
        return Err(StoreError::NoStore);
    }
    Ok(settings.copy())
}

/// A change in Studio to something that a project owns.
#[derive(PartialEq, Eq, Structural, Clone, Copy, Debug)]
pub enum OwnershipError {
    /// What a project says is of nothing.
    EmptyTarget,
    ServiceRemoved,
    NoBaseline,
    /// It is not where the project says it is.
    Unresolved,
    Renamed,
    Removed,
    ClassName,
    Id,
    /// A property, by its place among those that are owned.
    Property(usize),
    Attribute(usize),
    Tags,
}

pub open spec fn unordered(doc: Seq<InstanceModel>, target: Seq<Seq<char>>) -> Option<usize> {
    match document_target(doc, target, Seq::empty()) {
        Ok(found) => found,
        Err(_) => None,
    }
}

/// The first of some names at or after the `i`th whose values differ.
pub open spec fn first_difference(
    names: Seq<Seq<char>>,
    a: Map<Seq<char>, JsonModel>,
    b: Map<Seq<char>, JsonModel>,
    i: int,
) -> Option<int>
    decreases names.len() - i,
{
    if i < 0 || i >= names.len() {
        None
    } else if !same_opt(value_of(a, names[i]), value_of(b, names[i])) {
        Some(i)
    } else {
        first_difference(names, a, b, i + 1)
    }
}

/// What of an instance that a project owns was changed.
pub open spec fn instance_checked(owner: FieldOwnerModel, changed: InstanceModel, original: InstanceModel) -> Result<(), OwnershipError> {
    if owner.class_name && changed.class_name != original.class_name {
        Err(OwnershipError::ClassName)
    } else if owner.settings_id && changed.id != original.id {
        Err(OwnershipError::Id)
    } else {
        match first_difference(owner.properties, changed.properties, original.properties, 0) {
            Some(i) => Err(OwnershipError::Property(i as usize)),
            None => match first_difference(owner.attributes, changed.attributes, original.attributes, 0) {
                Some(i) => Err(OwnershipError::Attribute(i as usize)),
                None => if owner.tags && !same_opt(
                    value_of(changed.properties, "Tags"@),
                    value_of(original.properties, "Tags"@),
                ) {
                    Err(OwnershipError::Tags)
                } else {
                    Ok(())
                },
            },
        }
    }
}

/// What of something that a project owns was changed between two states of the services.
pub open spec fn owner_checked(
    owner: FieldOwnerModel,
    documents: Map<Seq<char>, Seq<InstanceModel>>,
    baseline: Map<Seq<char>, Seq<InstanceModel>>,
) -> Result<(), OwnershipError> {
    if owner.target.len() == 0 {
        Err(OwnershipError::EmptyTarget)
    } else if !documents.dom().contains(owner.target[0]) {
        Err(OwnershipError::ServiceRemoved)
    } else if !baseline.dom().contains(owner.target[0]) {
        Err(OwnershipError::NoBaseline)
    } else {
        let now = documents[owner.target[0]];
        let then = baseline[owner.target[0]];
        match unordered(then, owner.target) {
            None => Err(OwnershipError::Unresolved),
            Some(original) => match unordered(now, owner.target) {
                None => if with_id(now, then[original as int].id, 0) is Some {
                    Err(OwnershipError::Renamed)
                } else {
                    Err(OwnershipError::Removed)
                },
                Some(changed) => instance_checked(owner, now[changed as int], then[original as int]),
            },
        }
    }
}

/// An owner with what is wrong with what it owns.
#[derive(PartialEq, Eq, Structural, Clone, Copy, Debug)]
pub struct OwnershipProblem {
    pub owner: usize,
    pub error: OwnershipError,
}

/// The owners from the `i`th on are checked in turn.
pub open spec fn owners_checked(
    owners: Seq<FieldOwnerModel>,
    documents: Map<Seq<char>, Seq<InstanceModel>>,
    baseline: Map<Seq<char>, Seq<InstanceModel>>,
    i: int,
) -> Result<(), OwnershipProblem>
    decreases owners.len() - i,
{
    if i < 0 || i >= owners.len() {
        Ok(())
    } else {
        match owner_checked(owners[i], documents, baseline) {
            Ok(_) => owners_checked(owners, documents, baseline, i + 1),
            Err(error) => Err(OwnershipProblem { owner: i as usize, error }),
        }
    }
}

fn find_target(doc: &SettingsDocument, target: &Vec<String>) -> (r: Option<usize>)
    ensures
        r == unordered(doc@, texts(target@)),
        r is Some ==> r->0 < doc@.len(),
{
    let none: Vec<usize> = Vec::new();
    assert(none@ =~= Seq::empty());
    match find_document_target_optional_with_ordinals(doc, target, &none) {
        Ok(found) => found,
        Err(_) => None,
    }
}

fn same_values(a: Option<&Json>, b: Option<&Json>) -> (r: bool)
    ensures
        r == match (a, b) {
            (Some(a), Some(b)) => same_json(a@, b@),
            (None, None) => true,
            _ => false,
        },
{
    match (a, b) {
        (Some(a), Some(b)) => a.same(b),
        (None, None) => true,
        _ => false,
    }
}

fn same_member(a: &Vec<Member>, b: &Vec<Member>, key: &str) -> (r: bool)
    ensures
        r == same_opt(value_of(entries(a@), key@), value_of(entries(b@), key@)),
{
    same_values(get(a, key), get(b, key))
}

fn find_difference(names: &Vec<String>, a: &Vec<Member>, b: &Vec<Member>) -> (r: Option<usize>)
    ensures
        match r {
            Some(i) => first_difference(texts(names@), entries(a@), entries(b@), 0) == Some(i as int),
            None => first_difference(texts(names@), entries(a@), entries(b@), 0) is None,
        },
{
    let ghost all = texts(names@);
    let mut i: usize = 0;
    while i < names.len()
        invariant
            i <= names.len(),
            all == texts(names@),
            first_difference(all, entries(a@), entries(b@), 0) == first_difference(all, entries(a@), entries(b@), i as int),
        decreases names.len() - i,
    {
        assert(all[i as int] == names@[i as int]@);
        if !same_member(a, b, &names[i]) {
            return Some(i);
        }
        i += 1;
    }
    None
}

fn check_owner(owner: &ProjectionFieldOwner, documents: &Table<String, SettingsDocument>, baseline: &Table<String, SettingsDocument>) -> (r:
    Result<(), OwnershipError>)
    ensures
        r == owner_checked(owner@, documents@, baseline@),
{
    assert(owner@.target.len() == owner.target@.len());
    if owner.target.len() == 0 {
        return Err(OwnershipError::EmptyTarget);
    }
    assert(owner@.target[0] == owner.target@[0]@);
    let now = match documents.get(&owner.target[0]) {
        Some(now) => now,
        None => {
            return Err(OwnershipError::ServiceRemoved);
        },
    };
    let then_doc = match baseline.get(&owner.target[0]) {
        Some(doc) => doc,
        None => {
            return Err(OwnershipError::NoBaseline);
        },
    };
    let original = match find_target(then_doc, &owner.target) {
        Some(original) => original,
        None => {
            return Err(OwnershipError::Unresolved);
        },
    };
    assert(then_doc@[original as int] == then_doc.instances@[original as int]@);
    let changed = match find_target(now, &owner.target) {
        Some(changed) => changed,
        None => {
            return match find_id(now, &then_doc.instances[original].settings_id) {
                Some(_) => Err(OwnershipError::Renamed),
                None => Err(OwnershipError::Removed),
            };
        },
    };
    assert(now@[changed as int] == now.instances@[changed as int]@);
    let a = &now.instances[changed];
    let b = &then_doc.instances[original];
    if owner.class_name && !same(&a.class_name, &b.class_name) {
        return Err(OwnershipError::ClassName);
    }
    if owner.settings_id && !same(&a.settings_id, &b.settings_id) {
        return Err(OwnershipError::Id);
    }
    match find_difference(&owner.properties, &a.properties, &b.properties) {
        Some(i) => {
            return Err(OwnershipError::Property(i));
        },
        None => {},
    }
    match find_difference(&owner.attributes, &a.attributes, &b.attributes) {
        Some(i) => {
            return Err(OwnershipError::Attribute(i));
        },
        None => {},
    }
    if owner.tags && !same_member(&a.properties, &b.properties, "Tags") {
        return Err(OwnershipError::Tags);
    }
    Ok(())
}

/// Checks that nothing that a project owns was changed between two states of the services, whose
/// references do not depend on the order of instances.
pub fn validate_projection_field_ownership(
    owners: &Vec<ProjectionFieldOwner>,
    documents: &Table<String, SettingsDocument>,
    baseline: &Table<String, SettingsDocument>,
) -> (r: Result<(), OwnershipProblem>)
    ensures
        r == owners_checked(views(owners@), documents@, baseline@, 0),
{
    let ghost all = views(owners@);
    assert(all.len() == owners@.len());
    let mut i: usize = 0;
    while i < owners.len()
        invariant
            i <= owners.len(),
            all == views(owners@),
            all.len() == owners@.len(),
            owners_checked(all, documents@, baseline@, 0) == owners_checked(all, documents@, baseline@, i as int),
        decreases owners.len() - i,
    {
        assert(all[i as int] == owners@[i as int]@);
        match check_owner(&owners[i], documents, baseline) {
            Ok(_) => {},
            Err(error) => {
                return Err(OwnershipProblem { owner: i, error });
            },
        }
        i += 1;
    }
    Ok(())
}

proof fn lemma_same_values(names: Seq<Seq<char>>, a: Map<Seq<char>, JsonModel>, i: int)
    ensures
        first_difference(names, a, a, i) is None,
    decreases names.len() - i,
{
    if 0 <= i < names.len() {
        if a.dom().contains(names[i]) {
            law_same_json_reflexive(a[names[i]]);
        }
        lemma_same_values(names, a, i + 1);
    }
}

/// A state of the services that has all that is owned changes nothing that is owned.
pub proof fn law_unchanged_services_pass(owners: Seq<FieldOwnerModel>, documents: Map<Seq<char>, Seq<InstanceModel>>, i: int)
    requires
        forall|k: int| 0 <= k < owners.len() ==> (#[trigger] owners[k]).target.len() > 0 && documents.dom().contains(owners[k].target[0])
            && unordered(documents[owners[k].target[0]], owners[k].target) is Some,
    ensures
        owners_checked(owners, documents, documents, i) is Ok,
    decreases owners.len() - i,
{
    if 0 <= i < owners.len() {
        let owner = owners[i];
        let doc = documents[owner.target[0]];
        let at = unordered(doc, owner.target)->0;
        lemma_same_values(owner.properties, doc[at as int].properties, 0);
        lemma_same_values(owner.attributes, doc[at as int].attributes, 0);
        if doc[at as int].properties.dom().contains("Tags"@) {
            law_same_json_reflexive(doc[at as int].properties["Tags"@]);
        }
        law_unchanged_services_pass(owners, documents, i + 1);
    }
}

} // verus!
