//! Staging: what is done, and in which order, to build the projection of a project and of those inside
//! it.
use vstd::prelude::*;

use crate::json::{copy_members, entries, JsonModel, Member};
use crate::links::{copy_opt, opt_text};
use crate::mapping::{joined_target, ProjectTree};
use crate::naming::NamingModel;
use crate::naming::ProjectScriptNaming;
use crate::paths::{has_extension, is_nested_project_path, is_project_name, joined_path, last_name, path_extension_is, FilePath, PathParts};
use crate::project::{
    all_tree_nodes, kind_at, project_naming, project_script_naming, project_tree_nodes, target_checked, tree_views,
    validate_instance_target, AdapterDirection, FactModel, Files, LoadedProject, ProjectNode, ReniumProject, SourceKind,
    TargetProblem, TreeNode, TreeNodeModel,
};
use crate::stage_document::opt_texts;
use crate::target::{active_ordinals, prefixed, PathModel, ProjectTarget, TargetStack};
use crate::text::{clone_texts, holds_text, same, texts};

verus! {

broadcast use vstd::seq_lib::group_seq_properties;

/// The class that an instance gets: a named one, or the one that it has, if there is one.
pub enum ClassChoice {
    Named(String),
    Existing { otherwise: String },
}

#[verifier::ext_equal]
pub enum ClassModel {
    Named(Seq<char>),
    Existing { otherwise: Seq<char> },
}

impl View for ClassChoice {
    type V = ClassModel;

    open spec fn view(&self) -> ClassModel {
        match self {
            ClassChoice::Named(name) => ClassModel::Named(name@),
            ClassChoice::Existing { otherwise } => ClassModel::Existing { otherwise: otherwise@ },
        }
    }
}

/// The class that a choice comes to, where an instance may have one.
pub open spec fn chosen_class(choice: ClassModel, existing: Option<Seq<char>>) -> Seq<char> {
    match choice {
        ClassModel::Named(name) => name,
        ClassModel::Existing { otherwise } => match existing {
            Some(name) => name,
            None => otherwise,
        },
    }
}

/// Makes the choice of a class, where an instance may have one.
pub fn choose_class(choice: &ClassChoice, existing: &Option<String>) -> (r: String)
    ensures
        r@ == chosen_class(choice@, opt_text(*existing)),
{
    match choice {
        ClassChoice::Named(name) => name.clone(),
        ClassChoice::Existing { otherwise } => match existing {
            Some(name) => name.clone(),
            None => otherwise.clone(),
        },
    }
}

/// What a project says of an instance.
pub struct Description {
    pub class: ClassChoice,
    pub class_name: Option<String>,
    pub id: Option<String>,
    pub properties: Vec<Member>,
    pub attributes: Vec<Member>,
    pub tags: Option<Vec<String>>,
}

#[verifier::ext_equal]
pub struct DescriptionModel {
    pub class: ClassModel,
    pub class_name: Option<Seq<char>>,
    pub id: Option<Seq<char>>,
    pub properties: Map<Seq<char>, JsonModel>,
    pub attributes: Map<Seq<char>, JsonModel>,
    pub tags: Option<Seq<Seq<char>>>,
}

impl View for Description {
    type V = DescriptionModel;

    open spec fn view(&self) -> DescriptionModel {
        DescriptionModel {
            class: self.class@,
            class_name: opt_text(self.class_name),
            id: opt_text(self.id),
            properties: entries(self.properties@),
            attributes: entries(self.attributes@),
            tags: opt_texts(self.tags),
        }
    }
}

/// One thing that is done at a target.
pub enum StageAction {
    /// A directory is made.
    Directory,
    /// The files of a directory are put there, by a project's rules. The files count from a name, where
    /// one is given.
    Sources { source: FilePath, owned: bool, rule_prefix: Option<String> },
    /// The store of a directory is merged, if there is one; or a folder is made, if that is asked for.
    Settings { source: FilePath, or_folder: bool },
    /// A file is copied.
    File { source: FilePath },
    /// A model is imported.
    Model { source: FilePath },
    /// A store is merged.
    Store { source: FilePath },
    /// A file is translated.
    Adapted { source: FilePath, format: Option<String> },
    /// Scripts there, and in some sources, are named in a way.
    Naming { sources: FilePath, naming: ProjectScriptNaming },
    /// An instance of a class is made.
    Class { class_name: String },
    /// An instance gets what a project says of it.
    Describe { description: Description },
}

#[verifier::ext_equal]
pub enum ActionModel {
    Directory,
    Sources { source: PathParts, owned: bool, rule_prefix: Option<Seq<char>> },
    Settings { source: PathParts, or_folder: bool },
    File { source: PathParts },
    Model { source: PathParts },
    Store { source: PathParts },
    Adapted { source: PathParts, format: Option<Seq<char>> },
    Naming { sources: PathParts, naming: NamingModel },
    Class { class_name: Seq<char> },
    Describe { description: DescriptionModel },
}

impl View for StageAction {
    type V = ActionModel;

    open spec fn view(&self) -> ActionModel {
        match self {
            StageAction::Directory => ActionModel::Directory,
            StageAction::Sources { source, owned, rule_prefix } => ActionModel::Sources {
                source: source@,
                owned: *owned,
                rule_prefix: opt_text(*rule_prefix),
            },
            StageAction::Settings { source, or_folder } => ActionModel::Settings { source: source@, or_folder: *or_folder },
            StageAction::File { source } => ActionModel::File { source: source@ },
            StageAction::Model { source } => ActionModel::Model { source: source@ },
            StageAction::Store { source } => ActionModel::Store { source: source@ },
            StageAction::Adapted { source, format } => ActionModel::Adapted { source: source@, format: opt_text(*format) },
            StageAction::Naming { sources, naming } => ActionModel::Naming { sources: sources@, naming: naming@ },
            StageAction::Class { class_name } => ActionModel::Class { class_name: class_name@ },
            StageAction::Describe { description } => ActionModel::Describe { description: description@ },
        }
    }
}

/// One step of staging: where, with the ordinals that tell instances of one name apart, and what.
pub struct StageStep {
    pub target: Vec<String>,
    pub ordinals: Vec<usize>,
    pub action: StageAction,
}

#[verifier::ext_equal]
pub struct StepModel {
    pub target: Seq<Seq<char>>,
    pub ordinals: Seq<usize>,
    pub action: ActionModel,
}

impl View for StageStep {
    type V = StepModel;

    open spec fn view(&self) -> StepModel {
        StepModel { target: texts(self.target@), ordinals: self.ordinals@, action: self.action@ }
    }
}

pub open spec fn step_views(v: Seq<StageStep>) -> Seq<StepModel> {
    Seq::new(v.len(), |i: int| v[i]@)
}

/// Why a project can not be staged.
#[derive(PartialEq, Eq, Structural, Clone, Copy, Debug)]
pub enum PlanError {
    Target(TargetProblem),
    /// A source that the tree names is not there.
    MissingTreeSource,
    /// A source that a mount names is not there.
    MissingMountSource,
    /// A project inside was not loaded.
    NotLoaded,
}

/// The target at which a project can not be staged.
#[derive(Debug)]
pub struct PlanProblem {
    pub target: Vec<String>,
    pub error: PlanError,
}

#[verifier::ext_equal]
pub struct ProblemModel {
    pub target: Seq<Seq<char>>,
    pub error: PlanError,
}

impl View for PlanProblem {
    type V = ProblemModel;

    open spec fn view(&self) -> ProblemModel {
        ProblemModel { target: texts(self.target@), error: self.error }
    }
}

/// The ordinals of a target in the work on another that it lies at or below.
pub open spec fn ordinals_for(entry: Option<PathModel>, target: Seq<Seq<char>>) -> Seq<usize> {
    match entry {
        Some(entry) => if entry.segments.is_prefix_of(target) {
            active_ordinals(entry, target)
        } else {
            Seq::empty()
        },
        None => Seq::empty(),
    }
}

pub open spec fn opt_target(entry: Option<ProjectTarget>) -> Option<PathModel> {
    match entry {
        Some(entry) => Some(entry@),
        None => None,
    }
}

pub open spec fn step_at(entry: Option<PathModel>, target: Seq<Seq<char>>, action: ActionModel) -> StepModel {
    StepModel { target, ordinals: ordinals_for(entry, target), action }
}

/// A project says something of an instance.
pub open spec fn is_described(node: ProjectNode) -> bool {
    node.id is Some || node.class_name is Some || node.properties@.len() > 0 || node.attributes@.len() > 0 || node.tags is Some
}

pub open spec fn description_of(node: ProjectNode, class: ClassModel) -> DescriptionModel {
    DescriptionModel {
        class,
        class_name: opt_text(node.class_name),
        id: opt_text(node.id),
        properties: entries(node.properties@),
        attributes: entries(node.attributes@),
        tags: opt_texts(node.tags),
    }
}

/// The class of an instance of the tree: the one it is given, that of a service, or the one it has.
pub open spec fn node_class(node: ProjectNode, target: Seq<Seq<char>>) -> ClassModel {
    match node.class_name {
        Some(name) => ClassModel::Named(name@),
        None => if target.len() == 1 {
            ClassModel::Named(target[0])
        } else {
            ClassModel::Existing { otherwise: "Folder"@ }
        },
    }
}

/// The steps that give an instance of the tree what the project says of it.
pub open spec fn description_steps(node: ProjectNode, target: Seq<Seq<char>>, entry: Option<PathModel>, class: ClassModel) -> Seq<StepModel> {
    if is_described(node) {
        seq![step_at(entry, target, ActionModel::Describe { description: description_of(node, class) })]
    } else {
        Seq::empty()
    }
}

/// How many of the first `n` instances of a tree have a source.
pub open spec fn sources_before(nodes: Seq<TreeNodeModel>, n: nat) -> nat
    decreases n,
{
    if n == 0 {
        0
    } else {
        sources_before(nodes, (n - 1) as nat) + if nodes[n - 1].node.path is Some {
            1nat
        } else {
            0
        }
    }
}

/// How many of the first `n` adapters carry content into a project.
pub open spec fn carriers_before(project: ReniumProject, n: nat) -> nat
    decreases n,
{
    if n == 0 {
        0
    } else {
        carriers_before(project, (n - 1) as nat) + if project.adapters@[n - 1].direction != AdapterDirection::FromProject {
            1nat
        } else {
            0
        }
    }
}

/// A service counts: all do where none are picked.
pub open spec fn is_picked(services: Option<Seq<Seq<char>>>, target: Seq<Seq<char>>) -> bool {
    match services {
        Some(services) => target.len() > 0 && services.contains(target[0]),
        None => true,
    }
}

/// How large a project is, for counting down.
pub open spec fn plan_size(project: ReniumProject) -> nat {
    all_tree_nodes(project).len() + project.mounts@.len() + project.adapters@.len() + 2
}

pub open spec fn followed(first: Seq<StepModel>, rest: Result<Seq<StepModel>, ProblemModel>) -> Result<Seq<StepModel>, ProblemModel> {
    match rest {
        Ok(rest) => Ok(first + rest),
        Err(e) => Err(e),
    }
}

/// The steps that put the source of an instance of the tree in place.
pub open spec fn node_source_steps(
    tree: ProjectTree,
    files: Map<PathParts, FactModel>,
    node: TreeNodeModel,
    k: nat,
    target: Seq<Seq<char>>,
    entry: Option<PathModel>,
) -> Result<Seq<StepModel>, ProblemModel>
    decreases tree, 0nat,
{
    match node.node.path {
        None => Ok(seq![step_at(entry, target, ActionModel::Directory)]),
        Some(path) => {
            let source = joined_path(tree.loaded.root@, path@);
            match kind_at(files, source) {
                SourceKind::Directory => Ok(
                    seq![
                        step_at(entry, target, ActionModel::Sources { source, owned: true, rule_prefix: None }),
                        step_at(entry, target, ActionModel::Settings { source, or_folder: false }),
                    ],
                ),
                SourceKind::File => if is_project_name(last_name(source)) {
                    if k < tree.nested@.len() && tree.nested@[k as int] is Some {
                        nested_steps(tree.nested@[k as int]->0, files, target, entry)
                    } else {
                        Err(ProblemModel { target, error: PlanError::NotLoaded })
                    }
                } else {
                    Ok(seq![step_at(entry, target, ActionModel::File { source })])
                },
                _ => Err(ProblemModel { target, error: PlanError::MissingTreeSource }),
            }
        },
    }
}

/// The steps for the instances of the tree from the `i`th on.
pub open spec fn tree_steps(
    tree: ProjectTree,
    files: Map<PathParts, FactModel>,
    nodes: Seq<TreeNodeModel>,
    prefix: Seq<Seq<char>>,
    entry: Option<PathModel>,
    services: Option<Seq<Seq<char>>>,
    i: nat,
) -> Result<Seq<StepModel>, ProblemModel>
    decreases tree, nodes.len() - i + 1,
{
    if i >= nodes.len() {
        Ok(Seq::empty())
    } else {
        let rest = tree_steps(tree, files, nodes, prefix, entry, services, i + 1);
        if !is_picked(services, nodes[i as int].target) {
            rest
        } else {
            let target = prefix + nodes[i as int].target;
            match node_source_steps(tree, files, nodes[i as int], sources_before(nodes, i), target, entry) {
                Err(e) => Err(e),
                Ok(first) => followed(
                    first + description_steps(
                        nodes[i as int].node,
                        target,
                        entry,
                        node_class(nodes[i as int].node, target),
                    ),
                    rest,
                ),
            }
        }
    }
}

/// The place of something in a project: where the project stands, its own place is below that.
pub open spec fn placed_target(target: PathModel, outer: Option<Seq<Seq<char>>>, entry: Option<PathModel>) -> PathModel {
    match outer {
        None => target,
        Some(prefix) => prefixed(target, prefix, ordinals_for(entry, prefix)),
    }
}

/// The steps that put the source of a mount in place.
pub open spec fn mount_source_steps(
    tree: ProjectTree,
    files: Map<PathParts, FactModel>,
    source: PathParts,
    optional: bool,
    k: nat,
    place: PathModel,
) -> Result<Seq<StepModel>, ProblemModel>
    decreases tree, 0nat,
{
    let target = place.segments;
    let kind = kind_at(files, source);
    if kind == SourceKind::Missing && optional {
        Ok(Seq::empty())
    } else if kind == SourceKind::Directory {
        Ok(
            seq![
                step_at(Some(place), target, ActionModel::Sources { source, owned: true, rule_prefix: None }),
                step_at(Some(place), target, ActionModel::Settings { source, or_folder: true }),
            ],
        )
    } else if is_project_name(last_name(source)) {
        if k < tree.nested@.len() && tree.nested@[k as int] is Some {
            nested_steps(tree.nested@[k as int]->0, files, target, Some(place))
        } else {
            Err(ProblemModel { target, error: PlanError::NotLoaded })
        }
    } else if has_extension(source, seq!["rbxm"@, "rbxmx"@]) {
        Ok(seq![step_at(Some(place), target, ActionModel::Model { source })])
    } else if has_extension(source, seq!["renium"@]) {
        Ok(seq![step_at(Some(place), target, ActionModel::Store { source })])
    } else if kind == SourceKind::File {
        Ok(seq![step_at(Some(place), target, ActionModel::File { source })])
    } else {
        Err(ProblemModel { target, error: PlanError::MissingMountSource })
    }
}

/// The steps for the mounts from the `i`th on.
pub open spec fn mount_steps(
    tree: ProjectTree,
    files: Map<PathParts, FactModel>,
    outer: Option<Seq<Seq<char>>>,
    entry: Option<PathModel>,
    services: Option<Seq<Seq<char>>>,
    i: nat,
) -> Result<Seq<StepModel>, ProblemModel>
    decreases tree, tree.loaded.project.mounts@.len() - i + 1,
{
    let project = tree.loaded.project;
    if i >= project.mounts@.len() {
        Ok(Seq::empty())
    } else {
        let mount = project.mounts@[i as int];
        let rest = mount_steps(tree, files, outer, entry, services, i + 1);
        let place = placed_target(mount.target@, outer, entry);
        let k = sources_before(all_tree_nodes(project), all_tree_nodes(project).len()) + i;
        match target_checked(place) {
            Err(e) => Err(ProblemModel { target: place.segments, error: PlanError::Target(e) }),
            Ok(_) => if !is_picked(services, place.segments) {
                rest
            } else {
                match mount_source_steps(tree, files, joined_path(tree.loaded.root@, mount.source@), mount.optional, k, place) {
                    Err(e) => Err(e),
                    Ok(first) => followed(first, rest),
                }
            },
        }
    }
}

/// The steps for the adapters from the `i`th on.
pub open spec fn adapter_steps(
    tree: ProjectTree,
    files: Map<PathParts, FactModel>,
    outer: Option<Seq<Seq<char>>>,
    entry: Option<PathModel>,
    services: Option<Seq<Seq<char>>>,
    i: nat,
) -> Result<Seq<StepModel>, ProblemModel>
    decreases tree, tree.loaded.project.adapters@.len() - i + 1,
{
    let project = tree.loaded.project;
    if i >= project.adapters@.len() {
        Ok(Seq::empty())
    } else {
        let adapter = project.adapters@[i as int];
        let rest = adapter_steps(tree, files, outer, entry, services, i + 1);
        if adapter.direction == AdapterDirection::FromProject {
            rest
        } else {
            let place = placed_target(adapter.target@, outer, entry);
            let source = joined_path(tree.loaded.root@, adapter.source@);
            let k = sources_before(all_tree_nodes(project), all_tree_nodes(project).len()) + project.mounts@.len()
                + carriers_before(project, i);
            match target_checked(place) {
                Err(e) => Err(ProblemModel { target: place.segments, error: PlanError::Target(e) }),
                Ok(_) => if !is_picked(services, place.segments) {
                    rest
                } else if k < tree.nested@.len() && tree.nested@[k as int] is Some {
                    match nested_steps(tree.nested@[k as int]->0, files, place.segments, Some(place)) {
                        Err(e) => Err(e),
                        Ok(first) => followed(first, rest),
                    }
                } else {
                    followed(
                        seq![
                            step_at(
                                Some(place),
                                place.segments,
                                ActionModel::Adapted { source, format: opt_text(adapter.format) },
                            ),
                        ],
                        rest,
                    )
                },
            }
        }
    }
}

/// The class that a project inside another starts with.
pub open spec fn nested_class(root: ProjectNode, target: Seq<Seq<char>>) -> Seq<char> {
    match root.class_name {
        None => "Folder"@,
        Some(name) => if name@ == "DataModel"@ {
            if target.len() == 1 {
                target[0]
            } else {
                "Folder"@
            }
        } else {
            name@
        },
    }
}

/// A project whose instances stand directly at its place.
pub open spec fn is_flattened(root: ProjectNode) -> bool {
    root.class_name is Some && root.class_name->0@ == "DataModel"@
}

pub open spec fn root_class(root: ProjectNode) -> ClassModel {
    match root.class_name {
        Some(name) => ClassModel::Named(name@),
        None => ClassModel::Existing { otherwise: "Folder"@ },
    }
}

/// The first steps of a project inside another: how its scripts are named, its instance, its sources and
/// what it says of itself.
pub open spec fn nested_start(
    loaded: LoadedProject,
    files: Map<PathParts, FactModel>,
    target: Seq<Seq<char>>,
    entry: Option<PathModel>,
) -> Seq<StepModel> {
    let source = joined_path(loaded.root@, loaded.project.source_root@);
    let root = loaded.project.root;
    let first = seq![
        step_at(entry, target, ActionModel::Naming { sources: source, naming: project_naming(loaded.project) }),
        step_at(entry, target, ActionModel::Class { class_name: nested_class(root, target) }),
    ];
    let sources = if kind_at(files, source) == SourceKind::Directory {
        seq![
            step_at(entry, target, ActionModel::Sources { source, owned: false, rule_prefix: None }),
            step_at(entry, target, ActionModel::Settings { source, or_folder: false }),
        ]
    } else {
        Seq::empty()
    };
    let described = if is_flattened(root) {
        Seq::empty()
    } else {
        description_steps(root, target, entry, root_class(root))
    };
    first + sources + described
}

/// The steps for a project inside another, at a target.
pub open spec fn nested_steps(
    tree: ProjectTree,
    files: Map<PathParts, FactModel>,
    target: Seq<Seq<char>>,
    entry: Option<PathModel>,
) -> Result<Seq<StepModel>, ProblemModel>
    decreases tree, plan_size(tree.loaded.project),
{
    let nodes = all_tree_nodes(tree.loaded.project);
    let start = nested_start(tree.loaded, files, target, entry);
    match tree_steps(tree, files, nodes, target, entry, None, 0) {
        Err(e) => Err(e),
        Ok(second) => match mount_steps(tree, files, Some(target), entry, None, 0) {
            Err(e) => Err(e),
            Ok(third) => match adapter_steps(tree, files, Some(target), entry, None, 0) {
                Err(e) => Err(e),
                Ok(fourth) => Ok(start + second + third + fourth),
            },
        },
    }
}

/// The steps for the sources of a project as a whole.
pub open spec fn root_source_steps(loaded: LoadedProject, files: Map<PathParts, FactModel>) -> Seq<StepModel> {
    let source = joined_path(loaded.root@, loaded.project.source_root@);
    if kind_at(files, source) == SourceKind::Directory {
        seq![step_at(None, Seq::empty(), ActionModel::Sources { source, owned: false, rule_prefix: None })]
    } else {
        Seq::empty()
    }
}

/// The steps for the sources of the first `n` of some services.
pub open spec fn service_source_steps(
    loaded: LoadedProject,
    files: Map<PathParts, FactModel>,
    services: Seq<Seq<char>>,
    n: nat,
) -> Seq<StepModel>
    decreases n,
{
    if n == 0 {
        Seq::empty()
    } else {
        let before = service_source_steps(loaded, files, services, (n - 1) as nat);
        let root = joined_path(loaded.root@, loaded.project.source_root@);
        let source = PathParts { rooted: root.rooted, parts: root.parts.push(services[n - 1]) };
        if kind_at(files, source) == SourceKind::Directory {
            before.push(
                step_at(
                    None,
                    seq![services[n - 1]],
                    ActionModel::Sources { source, owned: false, rule_prefix: Some(services[n - 1]) },
                ),
            )
        } else {
            before
        }
    }
}

/// The steps that build the projection of a project, or of some of its services anew.
pub open spec fn project_steps(tree: ProjectTree, files: Map<PathParts, FactModel>, services: Option<Seq<Seq<char>>>) -> Result<
    Seq<StepModel>,
    ProblemModel,
> {
    let nodes = all_tree_nodes(tree.loaded.project);
    let first = match services {
        None => root_source_steps(tree.loaded, files),
        Some(services) => service_source_steps(tree.loaded, files, services, services.len()),
    };
    match mount_steps(tree, files, None, None, services, 0) {
        Err(e) => Err(e),
        Ok(second) => match tree_steps(tree, files, nodes, Seq::empty(), None, services, 0) {
            Err(e) => Err(e),
            Ok(third) => match adapter_steps(tree, files, None, None, services, 0) {
                Err(e) => Err(e),
                Ok(fourth) => Ok(first + second + third + fourth),
            },
        },
    }
}

fn find_ordinals(entry: &Option<ProjectTarget>, target: &Vec<String>) -> (r: Vec<usize>)
    ensures
        r@ == ordinals_for(opt_target(*entry), texts(target@)),
{
    match entry {
        None => Vec::new(),
        Some(place) => {
            let mut stack = TargetStack::new();
            stack.push(place);
            let r = stack.active_target_ordinals(target);
            proof {
                assert(stack.at(0) == place@);
                if place@.segments.is_prefix_of(texts(target@)) {
                    assert(!stack.none_active(texts(target@)));
                } else if exists|i: int| stack.is_active(texts(target@), i) {
                    let i = choose|i: int| stack.is_active(texts(target@), i);
                    assert(i == 0);
                }
                assert(r@.len() == 0 ==> r@ =~= Seq::empty());
            }
            r
        },
    }
}

fn push_step(out: &mut Vec<StageStep>, entry: &Option<ProjectTarget>, target: &Vec<String>, action: StageAction)
    ensures
        step_views(final(out)@) == step_views(old(out)@).push(step_at(opt_target(*entry), texts(target@), action@)),
{
    let ghost before = out@;
    let step = StageStep { target: clone_texts(target), ordinals: find_ordinals(entry, target), action };
    out.push(step);
    assert(step_views(out@) =~= step_views(before).push(step@));
}

fn copy_tags(tags: &Option<Vec<String>>) -> (r: Option<Vec<String>>)
    ensures
        opt_texts(r) == opt_texts(*tags),
{
    match tags {
        Some(tags) => Some(clone_texts(tags)),
        None => None,
    }
}

fn describe(node: &ProjectNode, class: ClassChoice) -> (r: Description)
    ensures
        r@ == description_of(*node, class@),
{
    Description {
        class,
        class_name: copy_opt(&node.class_name),
        id: copy_opt(&node.id),
        properties: copy_members(&node.properties),
        attributes: copy_members(&node.attributes),
        tags: copy_tags(&node.tags),
    }
}

fn push_description(
    out: &mut Vec<StageStep>,
    node: &ProjectNode,
    target: &Vec<String>,
    entry: &Option<ProjectTarget>,
    class: ClassChoice,
)
    ensures
        step_views(final(out)@) == step_views(old(out)@) + description_steps(
            *node,
            texts(target@),
            opt_target(*entry),
            class@,
        ),
{
    let ghost start = step_views(out@);
    if node.id.is_some() || node.class_name.is_some() || node.properties.len() > 0 || node.attributes.len() > 0
        || node.tags.is_some() {
        let action = StageAction::Describe { description: describe(node, class) };
        push_step(out, entry, target, action);
        assert(step_views(out@) =~= start + description_steps(*node, texts(target@), opt_target(*entry), class@));
    } else {
        assert(start + Seq::<StepModel>::empty() =~= start);
    }
}

fn class_for_node(node: &ProjectNode, target: &Vec<String>) -> (r: ClassChoice)
    ensures
        r@ == node_class(*node, texts(target@)),
{
    match &node.class_name {
        Some(name) => ClassChoice::Named(name.clone()),
        None => {
            assert(texts(target@).len() == target@.len());
            if target.len() == 1 {
                assert(texts(target@)[0] == target@[0]@);
                ClassChoice::Named(target[0].clone())
            } else {
                ClassChoice::Existing { otherwise: "Folder".to_owned() }
            }
        },
    }
}

fn problem(target: &Vec<String>, error: PlanError) -> (r: PlanProblem)
    ensures
        r@ == (ProblemModel { target: texts(target@), error }),
{
    PlanProblem { target: clone_texts(target), error }
}

/// What was appended is what a plan says, or its problem was found.
pub open spec fn carried_out(
    plan: Result<Seq<StepModel>, ProblemModel>,
    before: Seq<StageStep>,
    after: Seq<StageStep>,
    r: Result<(), PlanProblem>,
) -> bool {
    match plan {
        Ok(list) => r is Ok && step_views(after) == step_views(before) + list,
        Err(e) => r is Err && r->Err_0@ == e,
    }
}

fn append_node_source(
    tree: &ProjectTree,
    files: &Files,
    node: &TreeNode<'_>,
    k: usize,
    target: &Vec<String>,
    entry: &Option<ProjectTarget>,
    out: &mut Vec<StageStep>,
) -> (r: Result<(), PlanProblem>)
    ensures
        carried_out(
            node_source_steps(*tree, files@, node@, k as nat, texts(target@), opt_target(*entry)),
            old(out)@,
            final(out)@,
            r,
        ),
    decreases tree, 0nat,
{
    let ghost start = step_views(out@);
    let ghost at = opt_target(*entry);
    let ghost names = texts(target@);
    match &node.node.path {
        None => {
            push_step(out, entry, target, StageAction::Directory);
            assert(step_views(out@) =~= start + seq![step_at(at, names, ActionModel::Directory)]);
            Ok(())
        },
        Some(path) => {
            let source = tree.loaded.root.join(path);
            match files.kind(&source) {
                SourceKind::Directory => {
                    push_step(
                        out,
                        entry,
                        target,
                        StageAction::Sources { source: source.copy(), owned: true, rule_prefix: None },
                    );
                    let ghost one = step_views(out@);
                    let ghost shown = source@;
                    push_step(out, entry, target, StageAction::Settings { source, or_folder: false });
                    assert(step_views(out@) =~= start + seq![
                        step_at(at, names, ActionModel::Sources { source: shown, owned: true, rule_prefix: None }),
                        step_at(at, names, ActionModel::Settings { source: shown, or_folder: false }),
                    ]);
                    Ok(())
                },
                SourceKind::File => {
                    if is_nested_project_path(&source) {
                        if k < tree.nested.len() {
                            match &tree.nested[k] {
                                Some(inner) => {
                                    return append_nested(inner, files, target, entry, out);
                                },
                                None => {},
                            }
                        }
                        Err(problem(target, PlanError::NotLoaded))
                    } else {
                        let ghost shown = source@;
                        push_step(out, entry, target, StageAction::File { source });
                        assert(step_views(out@) =~= start + seq![step_at(at, names, ActionModel::File { source: shown })]);
                        Ok(())
                    }
                },
                _ => Err(problem(target, PlanError::MissingTreeSource)),
            }
        },
    }
}

pub open spec fn opt_list(v: Option<Vec<String>>) -> Option<Seq<Seq<char>>> {
    match v {
        Some(v) => Some(texts(v@)),
        None => None,
    }
}

fn picks(services: &Option<Vec<String>>, target: &Vec<String>) -> (r: bool)
    ensures
        r == is_picked(opt_list(*services), texts(target@)),
{
    match services {
        None => true,
        Some(services) => {
            assert(texts(target@).len() == target@.len());
            if target.len() == 0 {
                return false;
            }
            assert(texts(target@)[0] == target@[0]@);
            holds_text(services, &target[0])
        },
    }
}

fn append_tree(
    tree: &ProjectTree,
    files: &Files,
    prefix: &Vec<String>,
    entry: &Option<ProjectTarget>,
    services: &Option<Vec<String>>,
    out: &mut Vec<StageStep>,
) -> (r: Result<(), PlanProblem>)
    ensures
        carried_out(
            tree_steps(
                *tree,
                files@,
                all_tree_nodes(tree.loaded.project),
                texts(prefix@),
                opt_target(*entry),
                opt_list(*services),
                0,
            ),
            old(out)@,
            final(out)@,
            r,
        ),
    decreases tree, plan_size(tree.loaded.project) - 1,
{
    let nodes = project_tree_nodes(&tree.loaded.project.tree);
    let ghost all = tree_views(nodes@);
    assert(all.len() == nodes@.len());
    let ghost start = step_views(out@);
    let ghost before_all = texts(prefix@);
    let ghost at = opt_target(*entry);
    let ghost picked = opt_list(*services);
    let ghost whole = tree_steps(*tree, files@, all, before_all, at, picked, 0);
    let ghost mut done: Seq<StepModel> = Seq::empty();
    let mut k: usize = 0;
    let mut i: usize = 0;
    proof {
        assert(start + done =~= start);
        if whole is Ok {
            assert(done + whole->Ok_0 =~= whole->Ok_0);
        }
    }
    while i < nodes.len()
        invariant
            i <= nodes.len(),
            k <= i,
            all == tree_views(nodes@),
            all.len() == nodes@.len(),
            all == all_tree_nodes(tree.loaded.project),
            start == step_views(old(out)@),
            before_all == texts(prefix@),
            at == opt_target(*entry),
            picked == opt_list(*services),
            k == sources_before(all, i as nat),
            step_views(out@) == start + done,
            whole == tree_steps(*tree, files@, all, before_all, at, picked, 0),
            whole == followed(done, tree_steps(*tree, files@, all, before_all, at, picked, i as nat)),
        decreases nodes.len() - i,
    {
        assert(all[i as int] == nodes@[i as int]@);
        let ghost rest = tree_steps(*tree, files@, all, before_all, at, picked, (i + 1) as nat);
        if picks(services, &nodes[i].target) {
            let target = joined_target(prefix, &nodes[i].target);
            match append_node_source(tree, files, &nodes[i], k, &target, entry, out) {
                Err(e) => {
                    return Err(e);
                },
                Ok(_) => {},
            }
            let class = class_for_node(nodes[i].node, &target);
            push_description(out, nodes[i].node, &target, entry, class);
            proof {
                let first = node_source_steps(*tree, files@, all[i as int], k as nat, texts(target@), at)->Ok_0
                    + description_steps(
                    all[i as int].node,
                    texts(target@),
                    at,
                    node_class(all[i as int].node, texts(target@)),
                );
                let before = done;
                assert(step_views(out@) =~= start + (before + first));
                if rest is Ok {
                    assert(before + (first + rest->Ok_0) =~= (before + first) + rest->Ok_0);
                }
                done = before + first;
            }
        }
        if nodes[i].node.path.is_some() {
            k += 1;
        }
        i += 1;
    }
    assert(done + Seq::<StepModel>::empty() =~= done);
    Ok(())
}

fn place_target(target: &ProjectTarget, outer: &Option<Vec<String>>, entry: &Option<ProjectTarget>) -> (r: ProjectTarget)
    ensures
        r@ == placed_target(target@, opt_list(*outer), opt_target(*entry)),
{
    match outer {
        None => ProjectTarget::from_parts(target.segments(), target.ordinals()),
        Some(prefix) => target.with_prefix(prefix, &find_ordinals(entry, prefix)),
    }
}

fn model_extensions() -> (r: Vec<String>)
    ensures
        texts(r@) == seq!["rbxm"@, "rbxmx"@],
{
    let mut r: Vec<String> = Vec::new();
    r.push("rbxm".to_owned());
    r.push("rbxmx".to_owned());
    assert(texts(r@) =~= seq!["rbxm"@, "rbxmx"@]);
    r
}

fn store_extensions() -> (r: Vec<String>)
    ensures
        texts(r@) == seq!["renium"@],
{
    let mut r: Vec<String> = Vec::new();
    r.push("renium".to_owned());
    assert(texts(r@) =~= seq!["renium"@]);
    r
}

fn append_mount_source(
    tree: &ProjectTree,
    files: &Files,
    source: &FilePath,
    optional: bool,
    k: usize,
    place: &Option<ProjectTarget>,
    out: &mut Vec<StageStep>,
) -> (r: Result<(), PlanProblem>)
    requires
        *place is Some,
    ensures
        carried_out(
            mount_source_steps(*tree, files@, source@, optional, k as nat, (*place)->0@),
            old(out)@,
            final(out)@,
            r,
        ),
    decreases tree, 0nat,
{
    let ghost start = step_views(out@);
    let ghost at = opt_target(*place);
    let target = match place {
        Some(place) => place.segments(),
        None => Vec::new(),
    };
    let ghost names = texts(target@);
    let kind = files.kind(source);
    if kind == SourceKind::Missing && optional {
        assert(start + Seq::<StepModel>::empty() =~= start);
        return Ok(());
    }
    if kind == SourceKind::Directory {
        push_step(out, place, &target, StageAction::Sources { source: source.copy(), owned: true, rule_prefix: None });
        push_step(out, place, &target, StageAction::Settings { source: source.copy(), or_folder: true });
        assert(step_views(out@) =~= start + seq![
            step_at(at, names, ActionModel::Sources { source: source@, owned: true, rule_prefix: None }),
            step_at(at, names, ActionModel::Settings { source: source@, or_folder: true }),
        ]);
        return Ok(());
    }
    if is_nested_project_path(source) {
        if k < tree.nested.len() {
            match &tree.nested[k] {
                Some(inner) => {
                    return append_nested(inner, files, &target, place, out);
                },
                None => {},
            }
        }
        return Err(problem(&target, PlanError::NotLoaded));
    }
    if path_extension_is(source, &model_extensions()) {
        push_step(out, place, &target, StageAction::Model { source: source.copy() });
        assert(step_views(out@) =~= start + seq![step_at(at, names, ActionModel::Model { source: source@ })]);
        return Ok(());
    }
    if path_extension_is(source, &store_extensions()) {
        push_step(out, place, &target, StageAction::Store { source: source.copy() });
        assert(step_views(out@) =~= start + seq![step_at(at, names, ActionModel::Store { source: source@ })]);
        return Ok(());
    }
    if kind == SourceKind::File {
        push_step(out, place, &target, StageAction::File { source: source.copy() });
        assert(step_views(out@) =~= start + seq![step_at(at, names, ActionModel::File { source: source@ })]);
        return Ok(());
    }
    Err(problem(&target, PlanError::MissingMountSource))
}

fn count_sources(project: &ReniumProject) -> (r: usize)
    ensures
        r == sources_before(all_tree_nodes(*project), all_tree_nodes(*project).len()),
{
    let nodes = project_tree_nodes(&project.tree);
    let ghost all = tree_views(nodes@);
    assert(all.len() == nodes@.len());
    let mut k: usize = 0;
    let mut i: usize = 0;
    while i < nodes.len()
        invariant
            i <= nodes.len(),
            k <= i,
            all == tree_views(nodes@),
            k == sources_before(all, i as nat),
        decreases nodes.len() - i,
    {
        assert(all[i as int] == nodes@[i as int]@);
        if nodes[i].node.path.is_some() {
            k += 1;
        }
        i += 1;
    }
    k
}

fn append_mounts(
    tree: &ProjectTree,
    files: &Files,
    outer: &Option<Vec<String>>,
    entry: &Option<ProjectTarget>,
    services: &Option<Vec<String>>,
    out: &mut Vec<StageStep>,
) -> (r: Result<(), PlanProblem>)
    ensures
        carried_out(
            mount_steps(*tree, files@, opt_list(*outer), opt_target(*entry), opt_list(*services), 0),
            old(out)@,
            final(out)@,
            r,
        ),
    decreases tree, plan_size(tree.loaded.project) - 1,
{
    let ghost start = step_views(out@);
    let ghost around = opt_list(*outer);
    let ghost at = opt_target(*entry);
    let ghost picked = opt_list(*services);
    let ghost whole = mount_steps(*tree, files@, around, at, picked, 0);
    let ghost mut done: Seq<StepModel> = Seq::empty();
    let first_index: usize = count_sources(&tree.loaded.project);
    let mounts = &tree.loaded.project.mounts;
    let mut i: usize = 0;
    proof {
        assert(start + done =~= start);
        if whole is Ok {
            assert(done + whole->Ok_0 =~= whole->Ok_0);
        }
    }
    while i < mounts.len()
        invariant
            i <= mounts@.len(),
            *mounts == tree.loaded.project.mounts,
            start == step_views(old(out)@),
            around == opt_list(*outer),
            at == opt_target(*entry),
            picked == opt_list(*services),
            first_index == sources_before(
                all_tree_nodes(tree.loaded.project),
                all_tree_nodes(tree.loaded.project).len(),
            ),
            step_views(out@) == start + done,
            whole == mount_steps(*tree, files@, around, at, picked, 0),
            whole == followed(done, mount_steps(*tree, files@, around, at, picked, i as nat)),
        decreases mounts@.len() - i,
    {
        let mount = &mounts[i];
        let ghost rest = mount_steps(*tree, files@, around, at, picked, (i + 1) as nat);
        let place = place_target(&mount.target, outer, entry);
        let segments = place.segments();
        match validate_instance_target(&place) {
            Err(e) => {
                return Err(problem(&segments, PlanError::Target(e)));
            },
            Ok(_) => {},
        }
        if picks(services, &segments) {
            let source = tree.loaded.root.join(&mount.source);
            let ghost shown = place@;
            let held = Some(place);
            let nested: usize = if i < tree.nested.len() && first_index < tree.nested.len() - i {
                first_index + i
            } else {
                tree.nested.len()
            };
            assert(nested == first_index + i || (nested >= tree.nested@.len() && first_index + i >= tree.nested@.len()));
            let ghost want = mount_source_steps(*tree, files@, source@, mount.optional, (first_index + i) as nat, shown);
            assert(want == mount_source_steps(*tree, files@, source@, mount.optional, nested as nat, shown));
            match append_mount_source(tree, files, &source, mount.optional, nested, &held, out) {
                Err(e) => {
                    return Err(e);
                },
                Ok(_) => {},
            }
            proof {
                let first = want->Ok_0;
                let before = done;
                assert(step_views(out@) =~= start + (before + first));
                if rest is Ok {
                    assert(before + (first + rest->Ok_0) =~= (before + first) + rest->Ok_0);
                }
                done = before + first;
            }
        }
        i += 1;
    }
    assert(done + Seq::<StepModel>::empty() =~= done);
    Ok(())
}

fn append_adapters(
    tree: &ProjectTree,
    files: &Files,
    outer: &Option<Vec<String>>,
    entry: &Option<ProjectTarget>,
    services: &Option<Vec<String>>,
    out: &mut Vec<StageStep>,
) -> (r: Result<(), PlanProblem>)
    ensures
        carried_out(
            adapter_steps(*tree, files@, opt_list(*outer), opt_target(*entry), opt_list(*services), 0),
            old(out)@,
            final(out)@,
            r,
        ),
    decreases tree, plan_size(tree.loaded.project) - 1,
{
    let ghost start = step_views(out@);
    let ghost around = opt_list(*outer);
    let ghost at = opt_target(*entry);
    let ghost picked = opt_list(*services);
    let ghost whole = adapter_steps(*tree, files@, around, at, picked, 0);
    let ghost mut done: Seq<StepModel> = Seq::empty();
    let sources: usize = count_sources(&tree.loaded.project);
    let ghost first_index: nat = sources as nat + tree.loaded.project.mounts@.len();
    let mut reached: usize = sources;
    let mut beyond = false;
    let mounts: usize = tree.loaded.project.mounts.len();
    if sources > tree.nested.len() || mounts > tree.nested.len() - sources {
        beyond = true;
    } else {
        reached = sources + mounts;
    }
    let adapters = &tree.loaded.project.adapters;
    let mut i: usize = 0;
    proof {
        assert(start + done =~= start);
        if whole is Ok {
            assert(done + whole->Ok_0 =~= whole->Ok_0);
        }
    }
    while i < adapters.len()
        invariant
            i <= adapters@.len(),
            *adapters == tree.loaded.project.adapters,
            start == step_views(old(out)@),
            around == opt_list(*outer),
            at == opt_target(*entry),
            picked == opt_list(*services),
            first_index == sources_before(
                all_tree_nodes(tree.loaded.project),
                all_tree_nodes(tree.loaded.project).len(),
            ) + tree.loaded.project.mounts@.len(),
            beyond ==> first_index + carriers_before(tree.loaded.project, i as nat) > tree.nested@.len(),
            !beyond ==> reached == first_index + carriers_before(tree.loaded.project, i as nat) && reached
                <= tree.nested@.len(),
            step_views(out@) == start + done,
            whole == adapter_steps(*tree, files@, around, at, picked, 0),
            whole == followed(done, adapter_steps(*tree, files@, around, at, picked, i as nat)),
        decreases adapters@.len() - i,
    {
        let adapter = &adapters[i];
        let ghost rest = adapter_steps(*tree, files@, around, at, picked, (i + 1) as nat);
        if adapter.direction != AdapterDirection::FromProject {
            let ghost k = first_index + carriers_before(tree.loaded.project, i as nat);
            let place = place_target(&adapter.target, outer, entry);
            let segments = place.segments();
            match validate_instance_target(&place) {
                Err(e) => {
                    return Err(problem(&segments, PlanError::Target(e)));
                },
                Ok(_) => {},
            }
            if picks(services, &segments) {
                let ghost before = done;
                let ghost shown = place@;
                let held = Some(place);
                let mut inner: Option<&ProjectTree> = None;
                if !beyond && reached < tree.nested.len() {
                    match &tree.nested[reached] {
                        Some(found) => {
                            inner = Some(found);
                        },
                        None => {},
                    }
                }
                match inner {
                    Some(found) => {
                        assert(k < tree.nested@.len() && tree.nested@[k as int] == Some(*found));
                        match append_nested(found, files, &segments, &held, out) {
                            Err(e) => {
                                return Err(e);
                            },
                            Ok(_) => {},
                        }
                        proof {
                            let first = nested_steps(*found, files@, shown.segments, Some(shown))->Ok_0;
                            assert(step_views(out@) =~= start + (before + first));
                            if rest is Ok {
                                assert(before + (first + rest->Ok_0) =~= (before + first) + rest->Ok_0);
                            }
                            done = before + first;
                        }
                    },
                    None => {
                        let source = tree.loaded.root.join(&adapter.source);
                        let ghost read = source@;
                        let format = copy_opt(&adapter.format);
                        push_step(out, &held, &segments, StageAction::Adapted { source, format });
                        proof {
                            let first = seq![
                                step_at(
                                    Some(shown),
                                    shown.segments,
                                    ActionModel::Adapted { source: read, format: opt_text(adapter.format) },
                                ),
                            ];
                            assert(step_views(out@) =~= start + (before + first));
                            if rest is Ok {
                                assert(before + (first + rest->Ok_0) =~= (before + first) + rest->Ok_0);
                            }
                            done = before + first;
                        }
                    },
                }
            }
            if !beyond {
                if reached == tree.nested.len() {
                    beyond = true;
                } else {
                    reached += 1;
                }
            }
        }
        i += 1;
    }
    assert(done + Seq::<StepModel>::empty() =~= done);
    Ok(())
}

fn append_nested(
    tree: &ProjectTree,
    files: &Files,
    target: &Vec<String>,
    entry: &Option<ProjectTarget>,
    out: &mut Vec<StageStep>,
) -> (r: Result<(), PlanProblem>)
    ensures
        carried_out(nested_steps(*tree, files@, texts(target@), opt_target(*entry)), old(out)@, final(out)@, r),
    decreases tree, plan_size(tree.loaded.project),
{
    let ghost start = step_views(out@);
    let ghost at = opt_target(*entry);
    let ghost names = texts(target@);
    let loaded = &tree.loaded;
    let root = &loaded.project.root;
    let source = loaded.root.join(&loaded.project.source_root);
    let ghost read = source@;
    let flattened = match &root.class_name {
        Some(name) => same(name, "DataModel"),
        None => false,
    };
    push_step(
        out,
        entry,
        target,
        StageAction::Naming { sources: source.copy(), naming: project_script_naming(&loaded.project) },
    );
    let class_name = match &root.class_name {
        None => "Folder".to_owned(),
        Some(name) => if flattened {
            assert(names.len() == target@.len());
            if target.len() == 1 {
                assert(names[0] == target@[0]@);
                target[0].clone()
            } else {
                "Folder".to_owned()
            }
        } else {
            name.clone()
        },
    };
    push_step(out, entry, target, StageAction::Class { class_name });
    let ghost first = seq![
        step_at(at, names, ActionModel::Naming { sources: read, naming: project_naming(loaded.project) }),
        step_at(at, names, ActionModel::Class { class_name: nested_class(*root, names) }),
    ];
    assert(step_views(out@) =~= start + first);
    let ghost mut sources: Seq<StepModel> = Seq::empty();
    if files.kind(&source) == SourceKind::Directory {
        push_step(out, entry, target, StageAction::Sources { source: source.copy(), owned: false, rule_prefix: None });
        push_step(out, entry, target, StageAction::Settings { source, or_folder: false });
        proof {
            sources = seq![
                step_at(at, names, ActionModel::Sources { source: read, owned: false, rule_prefix: None }),
                step_at(at, names, ActionModel::Settings { source: read, or_folder: false }),
            ];
        }
    }
    assert(step_views(out@) =~= start + first + sources);
    let ghost mut described: Seq<StepModel> = Seq::empty();
    if !flattened {
        let class = match &root.class_name {
            Some(name) => ClassChoice::Named(name.clone()),
            None => ClassChoice::Existing { otherwise: "Folder".to_owned() },
        };
        push_description(out, root, target, entry, class);
        proof {
            described = description_steps(*root, names, at, root_class(*root));
        }
    }
    let ghost begun = nested_start(*loaded, files@, names, at);
    proof {
        assert(begun =~= first + sources + described);
        assert(step_views(out@) =~= start + begun);
    }
    let all_services: Option<Vec<String>> = None;
    match append_tree(tree, files, target, entry, &all_services, out) {
        Err(e) => {
            return Err(e);
        },
        Ok(_) => {},
    }
    let outer = Some(clone_texts(target));
    match append_mounts(tree, files, &outer, entry, &all_services, out) {
        Err(e) => {
            return Err(e);
        },
        Ok(_) => {},
    }
    match append_adapters(tree, files, &outer, entry, &all_services, out) {
        Err(e) => {
            return Err(e);
        },
        Ok(_) => {},
    }
    proof {
        let nodes = all_tree_nodes(loaded.project);
        let second = tree_steps(*tree, files@, nodes, names, at, None, 0)->Ok_0;
        let third = mount_steps(*tree, files@, Some(names), at, None, 0)->Ok_0;
        let fourth = adapter_steps(*tree, files@, Some(names), at, None, 0)->Ok_0;
        assert(step_views(out@) =~= start + (begun + second + third + fourth));
    }
    Ok(())
}

/// Plans the building of the projection of a project, or of some of its services anew.
pub fn plan_stage(tree: &ProjectTree, files: &Files, services: &Option<Vec<String>>) -> (r: Result<Vec<StageStep>, PlanProblem>)
    ensures
        match project_steps(*tree, files@, opt_list(*services)) {
            Ok(list) => r is Ok && step_views(r->Ok_0@) == list,
            Err(e) => r is Err && r->Err_0@ == e,
        },
{
    let mut out: Vec<StageStep> = Vec::new();
    assert(step_views(out@) =~= Seq::empty());
    let loaded = &tree.loaded;
    let source = loaded.root.join(&loaded.project.source_root);
    let none: Vec<String> = Vec::new();
    assert(texts(none@) =~= Seq::empty());
    let no_entry: Option<ProjectTarget> = None;
    let outer: Option<Vec<String>> = None;
    match services {
        None => {
            if files.kind(&source) == SourceKind::Directory {
                let ghost read = source@;
                push_step(&mut out, &no_entry, &none, StageAction::Sources { source, owned: false, rule_prefix: None });
                assert(step_views(out@) =~= root_source_steps(*loaded, files@));
            }
        },
        Some(picked) => {
            let ghost all = texts(picked@);
            let mut i: usize = 0;
            while i < picked.len()
                invariant
                    i <= picked.len(),
                    all == texts(picked@),
                    *loaded == tree.loaded,
                    no_entry is None,
                    source@ == joined_path(loaded.root@, loaded.project.source_root@),
                    step_views(out@) == service_source_steps(*loaded, files@, all, i as nat),
                decreases picked.len() - i,
            {
                assert(all[i as int] == picked@[i as int]@);
                let directory = source.child(&picked[i]);
                if files.kind(&directory) == SourceKind::Directory {
                    let mut target: Vec<String> = Vec::new();
                    target.push(picked[i].clone());
                    assert(texts(target@) =~= seq![all[i as int]]);
                    push_step(
                        &mut out,
                        &no_entry,
                        &target,
                        StageAction::Sources { source: directory, owned: false, rule_prefix: Some(picked[i].clone()) },
                    );
                }
                i += 1;
            }
            assert(all.len() == picked@.len());
        },
    }
    let ghost first = step_views(out@);
    match append_mounts(tree, files, &outer, &no_entry, services, &mut out) {
        Err(e) => {
            return Err(e);
        },
        Ok(_) => {},
    }
    match append_tree(tree, files, &none, &no_entry, services, &mut out) {
        Err(e) => {
            return Err(e);
        },
        Ok(_) => {},
    }
    match append_adapters(tree, files, &outer, &no_entry, services, &mut out) {
        Err(e) => {
            return Err(e);
        },
        Ok(_) => {},
    }
    Ok(out)
}

} // verus!
