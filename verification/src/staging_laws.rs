//! What the plan of a projection stages.
use vstd::prelude::*;

use crate::json::entries;
use crate::links::opt_text;
use crate::mapping::ProjectTree;
use crate::paths::{PathParts, is_project_name, joined_path, last_name};
use crate::project::{AdapterDirection, FactModel, ProjectNode, SourceKind, TreeNodeModel, all_tree_nodes, kind_at};
use crate::staging::{
    ActionModel, ClassModel, StepModel, adapter_steps, carriers_before, description_steps, is_picked, mount_source_steps,
    mount_steps, nested_steps, node_class, node_source_steps, placed_target, project_steps, sources_before, tree_steps,
};
use crate::target::PathModel;

verus! {

/// A plan does something at a target.
pub open spec fn does(steps: Seq<StepModel>, target: Seq<Seq<char>>, action: ActionModel) -> bool {
    exists|k: int| 0 <= k < steps.len() && (#[trigger] steps[k]).target == target && steps[k].action == action
}

/// A plan gives a target what a node says of it.
pub open spec fn describes(steps: Seq<StepModel>, target: Seq<Seq<char>>, node: ProjectNode, class: ClassModel) -> bool {
    exists|k: int|
        0 <= k < steps.len() && (#[trigger] steps[k]).target == target && steps[k].action is Describe
            && steps[k].action->description.properties == entries(node.properties@)
            && steps[k].action->description.attributes == entries(node.attributes@)
            && steps[k].action->description.class_name == opt_text(node.class_name)
            && steps[k].action->description.id == opt_text(node.id) && steps[k].action->description.tags
            == crate::stage_document::opt_texts(node.tags) && steps[k].action->description.class == class
}

/// Some steps stand among others.
#[verifier::opaque]
pub open spec fn stands_in(part: Seq<StepModel>, all: Seq<StepModel>) -> bool {
    exists|at: int| 0 <= at && at + part.len() <= all.len() && #[trigger] all.subrange(at, at + part.len()) == part
}

proof fn lemma_stands_left(part: Seq<StepModel>, all: Seq<StepModel>, rest: Seq<StepModel>)
    requires
        stands_in(part, all),
    ensures
        stands_in(part, all + rest),
        stands_in(part, rest + all),
{
    reveal(stands_in);
    let at = choose|at: int|
        0 <= at && at + part.len() <= all.len() && #[trigger] all.subrange(at, at + part.len()) == part;
    assert((all + rest).subrange(at, at + part.len()) =~= part);
    let shifted: int = rest.len() + at;
    assert((rest + all).subrange(shifted, shifted + part.len()) =~= part);
}

proof fn lemma_stands_itself(part: Seq<StepModel>)
    ensures
        stands_in(part, part),
{
    reveal(stands_in);
    let at: int = 0;
    assert(part.subrange(at, at + part.len()) =~= part);
}

proof fn lemma_stands_does(part: Seq<StepModel>, all: Seq<StepModel>, k: int)
    requires
        stands_in(part, all),
        0 <= k < part.len(),
    ensures
        exists|j: int| 0 <= j < all.len() && #[trigger] all[j] == part[k],
{
    reveal(stands_in);
    let at = choose|at: int|
        0 <= at && at + part.len() <= all.len() && #[trigger] all.subrange(at, at + part.len()) == part;
    assert(all[at + k] == all.subrange(at, at + part.len())[k]);
}

#[verifier::rlimit(50)]
proof fn lemma_tree(
    tree: ProjectTree,
    files: Map<PathParts, FactModel>,
    nodes: Seq<TreeNodeModel>,
    prefix: Seq<Seq<char>>,
    entry: Option<PathModel>,
    services: Option<Seq<Seq<char>>>,
    from: nat,
    i: int,
)
    requires
        from <= i < nodes.len(),
        is_picked(services, nodes[i].target),
        tree_steps(tree, files, nodes, prefix, entry, services, from) is Ok,
    ensures
        ({
            let target = prefix + nodes[i].target;
            let source = node_source_steps(tree, files, nodes[i], sources_before(nodes, i as nat), target, entry);
            let all = tree_steps(tree, files, nodes, prefix, entry, services, from)->Ok_0;
            &&& source is Ok
            &&& stands_in(source->Ok_0, all)
            &&& stands_in(description_steps(nodes[i].node, target, entry, node_class(nodes[i].node, target)), all)
        }),
    decreases i - from,
{
    reveal_with_fuel(tree_steps, 2);
    let all = tree_steps(tree, files, nodes, prefix, entry, services, from)->Ok_0;
    let rest = tree_steps(tree, files, nodes, prefix, entry, services, from + 1);
    if from == i {
        let target = prefix + nodes[i].target;
        let source = node_source_steps(tree, files, nodes[i], sources_before(nodes, i as nat), target, entry)->Ok_0;
        let said = description_steps(nodes[i].node, target, entry, node_class(nodes[i].node, target));
        assert(all == source + said + rest->Ok_0);
        lemma_stands_itself(source);
        lemma_stands_itself(said);
        lemma_stands_left(source, source, said);
        lemma_stands_left(said, said, source);
        lemma_stands_left(source, source + said, rest->Ok_0);
        lemma_stands_left(said, source + said, rest->Ok_0);
    } else {
        lemma_tree(tree, files, nodes, prefix, entry, services, from + 1, i);
        let target = prefix + nodes[i].target;
        let source = node_source_steps(tree, files, nodes[i], sources_before(nodes, i as nat), target, entry)->Ok_0;
        let said = description_steps(nodes[i].node, target, entry, node_class(nodes[i].node, target));
        if is_picked(services, nodes[from as int].target) {
            let here = prefix + nodes[from as int].target;
            let first = node_source_steps(tree, files, nodes[from as int], sources_before(nodes, from), here, entry)->Ok_0
                + description_steps(nodes[from as int].node, here, entry, node_class(nodes[from as int].node, here));
            assert(all == first + rest->Ok_0);
            lemma_stands_left(source, rest->Ok_0, first);
            lemma_stands_left(said, rest->Ok_0, first);
        }
    }
}

#[verifier::rlimit(50)]
proof fn lemma_mounts(
    tree: ProjectTree,
    files: Map<PathParts, FactModel>,
    outer: Option<Seq<Seq<char>>>,
    entry: Option<PathModel>,
    services: Option<Seq<Seq<char>>>,
    from: nat,
    i: int,
)
    requires
        from <= i < tree.loaded.project.mounts@.len(),
        is_picked(services, placed_target(tree.loaded.project.mounts@[i].target@, outer, entry).segments),
        mount_steps(tree, files, outer, entry, services, from) is Ok,
    ensures
        ({
            let project = tree.loaded.project;
            let mount = project.mounts@[i];
            let place = placed_target(mount.target@, outer, entry);
            let k = sources_before(all_tree_nodes(project), all_tree_nodes(project).len()) + i;
            let source = mount_source_steps(
                tree,
                files,
                joined_path(tree.loaded.root@, mount.source@),
                mount.optional,
                k as nat,
                place,
            );
            &&& source is Ok
            &&& stands_in(source->Ok_0, mount_steps(tree, files, outer, entry, services, from)->Ok_0)
        }),
    decreases i - from,
{
    reveal_with_fuel(mount_steps, 2);
    let project = tree.loaded.project;
    let all = mount_steps(tree, files, outer, entry, services, from)->Ok_0;
    let rest = mount_steps(tree, files, outer, entry, services, from + 1);
    let base = sources_before(all_tree_nodes(project), all_tree_nodes(project).len());
    let mine = mount_source_steps(
        tree,
        files,
        joined_path(tree.loaded.root@, project.mounts@[i].source@),
        project.mounts@[i].optional,
        (base + i) as nat,
        placed_target(project.mounts@[i].target@, outer, entry),
    );
    if from == i {
        assert(all == mine->Ok_0 + rest->Ok_0);
        lemma_stands_itself(mine->Ok_0);
        lemma_stands_left(mine->Ok_0, mine->Ok_0, rest->Ok_0);
    } else {
        lemma_mounts(tree, files, outer, entry, services, from + 1, i);
        let place = placed_target(project.mounts@[from as int].target@, outer, entry);
        if is_picked(services, place.segments) {
            let first = mount_source_steps(
                tree,
                files,
                joined_path(tree.loaded.root@, project.mounts@[from as int].source@),
                project.mounts@[from as int].optional,
                base + from,
                place,
            )->Ok_0;
            assert(all == first + rest->Ok_0);
            lemma_stands_left(mine->Ok_0, rest->Ok_0, first);
        }
    }
}

#[verifier::rlimit(50)]
proof fn lemma_adapters(
    tree: ProjectTree,
    files: Map<PathParts, FactModel>,
    outer: Option<Seq<Seq<char>>>,
    entry: Option<PathModel>,
    services: Option<Seq<Seq<char>>>,
    from: nat,
    i: int,
)
    requires
        from <= i < tree.loaded.project.adapters@.len(),
        tree.loaded.project.adapters@[i].direction != AdapterDirection::FromProject,
        is_picked(services, placed_target(tree.loaded.project.adapters@[i].target@, outer, entry).segments),
        adapter_steps(tree, files, outer, entry, services, from) is Ok,
        ({
            let project = tree.loaded.project;
            let k = sources_before(all_tree_nodes(project), all_tree_nodes(project).len()) + project.mounts@.len()
                + carriers_before(project, i as nat);
            k >= tree.nested@.len() || tree.nested@[k as int] is None
        }),
    ensures
        does(
            adapter_steps(tree, files, outer, entry, services, from)->Ok_0,
            placed_target(tree.loaded.project.adapters@[i].target@, outer, entry).segments,
            ActionModel::Adapted {
                source: joined_path(tree.loaded.root@, tree.loaded.project.adapters@[i].source@),
                format: opt_text(tree.loaded.project.adapters@[i].format),
            },
        ),
    decreases i - from,
{
    reveal_with_fuel(adapter_steps, 2);
    let project = tree.loaded.project;
    let all = adapter_steps(tree, files, outer, entry, services, from)->Ok_0;
    let rest = adapter_steps(tree, files, outer, entry, services, from + 1);
    if from == i {
        assert(all[0].target == placed_target(project.adapters@[i].target@, outer, entry).segments);
    } else {
        lemma_adapters(tree, files, outer, entry, services, from + 1, i);
        let target = placed_target(project.adapters@[i].target@, outer, entry).segments;
        let action = ActionModel::Adapted {
            source: joined_path(tree.loaded.root@, project.adapters@[i].source@),
            format: opt_text(project.adapters@[i].format),
        };
        let k = choose|k: int|
            0 <= k < rest->Ok_0.len() && (#[trigger] rest->Ok_0[k]).target == target && rest->Ok_0[k].action == action;
        let shift: int = all.len() - rest->Ok_0.len();
        assert(all[k + shift] == rest->Ok_0[k]);
    }
}

proof fn lemma_does(part: Seq<StepModel>, all: Seq<StepModel>, k: int)
    requires
        stands_in(part, all),
        0 <= k < part.len(),
    ensures
        does(all, part[k].target, part[k].action),
{
    lemma_stands_does(part, all, k);
    let j = choose|j: int| 0 <= j < all.len() && #[trigger] all[j] == part[k];
    assert(all[j].target == part[k].target);
}

/// What the plan does for a node of the tree: a directory is brought with its sources and its
/// store, a file is copied, a node without a source is a directory, and what the node says of
/// itself is said of its target, with its class, or the class of a service, or the one that is
/// there. A source that is not there, or is there as something else, can not be planned.
pub open spec fn node_is_staged(
    root: PathParts,
    files: Map<PathParts, FactModel>,
    node: ProjectNode,
    target: Seq<Seq<char>>,
    steps: Seq<StepModel>,
) -> bool {
    let source = joined_path(root, node.path->0@);
    &&& node.path is None ==> does(steps, target, ActionModel::Directory)
    &&& node.path is Some ==> kind_at(files, source) == SourceKind::Directory || kind_at(files, source)
        == SourceKind::File
    &&& node.path is Some && kind_at(files, source) == SourceKind::Directory ==> does(
        steps,
        target,
        ActionModel::Sources { source, owned: true, rule_prefix: None },
    ) && does(steps, target, ActionModel::Settings { source, or_folder: false })
    &&& node.path is Some && kind_at(files, source) == SourceKind::File && !is_project_name(last_name(source)) ==> does(
        steps,
        target,
        ActionModel::File { source },
    )
    &&& node.id is Some || node.class_name is Some || node.properties@.len() > 0 || node.attributes@.len() > 0
        || node.tags is Some ==> describes(
        steps,
        target,
        node,
        if node.class_name is Some {
            ClassModel::Named(node.class_name->0@)
        } else if target.len() == 1 {
            ClassModel::Named(target[0])
        } else {
            ClassModel::Existing { otherwise: "Folder"@ }
        },
    )
}

#[verifier::rlimit(50)]
proof fn lemma_node_staged(
    tree: ProjectTree,
    files: Map<PathParts, FactModel>,
    prefix: Seq<Seq<char>>,
    entry: Option<PathModel>,
    services: Option<Seq<Seq<char>>>,
    i: int,
    all: Seq<StepModel>,
)
    requires
        0 <= i < all_tree_nodes(tree.loaded.project).len(),
        is_picked(services, all_tree_nodes(tree.loaded.project)[i].target),
        tree_steps(tree, files, all_tree_nodes(tree.loaded.project), prefix, entry, services, 0) is Ok,
        stands_in(
            tree_steps(tree, files, all_tree_nodes(tree.loaded.project), prefix, entry, services, 0)->Ok_0,
            all,
        ),
    ensures
        node_is_staged(
            tree.loaded.root@,
            files,
            all_tree_nodes(tree.loaded.project)[i].node,
            prefix + all_tree_nodes(tree.loaded.project)[i].target,
            all,
        ),
{
    let nodes = all_tree_nodes(tree.loaded.project);
    let node = nodes[i].node;
    let target = prefix + nodes[i].target;
    let mid = tree_steps(tree, files, nodes, prefix, entry, services, 0)->Ok_0;
    lemma_tree(tree, files, nodes, prefix, entry, services, 0, i);
    let source = node_source_steps(tree, files, nodes[i], sources_before(nodes, i as nat), target, entry)->Ok_0;
    let said = description_steps(node, target, entry, node_class(node, target));
    lemma_stands_trans(source, mid, all);
    lemma_stands_trans(said, mid, all);
    if said.len() > 0 {
        lemma_stands_does(said, all, 0);
        let j = choose|j: int| 0 <= j < all.len() && #[trigger] all[j] == said[0];
        assert(all[j].target == target);
    }
    match node.path {
        None => {
            lemma_does(source, all, 0);
        },
        Some(path) => {
            let from = joined_path(tree.loaded.root@, path@);
            if kind_at(files, from) == SourceKind::Directory {
                lemma_does(source, all, 0);
                lemma_does(source, all, 1);
            } else if kind_at(files, from) == SourceKind::File && !is_project_name(last_name(from)) {
                lemma_does(source, all, 0);
            }
        },
    }
}

proof fn lemma_stands_trans(a: Seq<StepModel>, b: Seq<StepModel>, c: Seq<StepModel>)
    requires
        stands_in(a, b),
        stands_in(b, c),
    ensures
        stands_in(a, c),
{
    reveal(stands_in);
    let i = choose|i: int| 0 <= i && i + a.len() <= b.len() && #[trigger] b.subrange(i, i + a.len()) == a;
    let j = choose|j: int| 0 <= j && j + b.len() <= c.len() && #[trigger] c.subrange(j, j + b.len()) == b;
    let at: int = i + j;
    assert(c.subrange(at, at + a.len()) =~= a);
}

/// What the plan does for a mount: a directory is brought with its sources and its store, or a
/// folder; a model is imported, a store is merged, another file is copied. A source that is not
/// there is passed over where it need not be there.
pub open spec fn mount_is_staged(
    files: Map<PathParts, FactModel>,
    source: PathParts,
    optional: bool,
    target: Seq<Seq<char>>,
    steps: Seq<StepModel>,
) -> bool {
    let kind = kind_at(files, source);
    let plain = !is_project_name(last_name(source)) && !(kind == SourceKind::Missing && optional);
    let model = crate::paths::has_extension(source, seq!["rbxm"@, "rbxmx"@]);
    let store = crate::paths::has_extension(source, seq!["renium"@]);
    &&& kind == SourceKind::Directory ==> does(
        steps,
        target,
        ActionModel::Sources { source, owned: true, rule_prefix: None },
    ) && does(steps, target, ActionModel::Settings { source, or_folder: true })
    &&& kind == SourceKind::Missing && !optional && plain ==> model || store
    &&& plain && kind != SourceKind::Directory && model ==> does(steps, target, ActionModel::Model { source })
    &&& plain && kind != SourceKind::Directory && !model && store ==> does(steps, target, ActionModel::Store { source })
    &&& plain && kind == SourceKind::File && !model && !store ==> does(steps, target, ActionModel::File { source })
}

#[verifier::rlimit(50)]
proof fn lemma_parts_stand(tree: ProjectTree, files: Map<PathParts, FactModel>, services: Option<Seq<Seq<char>>>)
    requires
        project_steps(tree, files, services) is Ok,
    ensures
        mount_steps(tree, files, None, None, services, 0) is Ok,
        tree_steps(tree, files, all_tree_nodes(tree.loaded.project), Seq::empty(), None, services, 0) is Ok,
        adapter_steps(tree, files, None, None, services, 0) is Ok,
        stands_in(
            mount_steps(tree, files, None, None, services, 0)->Ok_0,
            project_steps(tree, files, services)->Ok_0,
        ),
        stands_in(
            tree_steps(tree, files, all_tree_nodes(tree.loaded.project), Seq::empty(), None, services, 0)->Ok_0,
            project_steps(tree, files, services)->Ok_0,
        ),
        stands_in(
            adapter_steps(tree, files, None, None, services, 0)->Ok_0,
            project_steps(tree, files, services)->Ok_0,
        ),
{
    let nodes = all_tree_nodes(tree.loaded.project);
    let first = match services {
        None => crate::staging::root_source_steps(tree.loaded, files),
        Some(services) => crate::staging::service_source_steps(tree.loaded, files, services, services.len()),
    };
    let second = mount_steps(tree, files, None, None, services, 0)->Ok_0;
    let third = tree_steps(tree, files, nodes, Seq::empty(), None, services, 0)->Ok_0;
    let fourth = adapter_steps(tree, files, None, None, services, 0)->Ok_0;
    lemma_stands_itself(second);
    lemma_stands_left(second, second, first);
    lemma_stands_left(second, first + second, third);
    lemma_stands_left(second, first + second + third, fourth);
    lemma_stands_itself(third);
    lemma_stands_left(third, third, first + second);
    lemma_stands_left(third, first + second + third, fourth);
    lemma_stands_itself(fourth);
    lemma_stands_left(fourth, fourth, first + second + third);
}

#[verifier::rlimit(50)]
proof fn lemma_mount_staged(
    tree: ProjectTree,
    files: Map<PathParts, FactModel>,
    services: Option<Seq<Seq<char>>>,
    i: int,
)
    requires
        project_steps(tree, files, services) is Ok,
        0 <= i < tree.loaded.project.mounts@.len(),
        is_asked(services, tree.loaded.project.mounts@[i].target@.segments),
    ensures
        mount_is_staged(
            files,
            joined_path(tree.loaded.root@, tree.loaded.project.mounts@[i].source@),
            tree.loaded.project.mounts@[i].optional,
            tree.loaded.project.mounts@[i].target@.segments,
            project_steps(tree, files, services)->Ok_0,
        ),
{
    let project = tree.loaded.project;
    let nodes = all_tree_nodes(project);
    let all = project_steps(tree, files, services)->Ok_0;
    lemma_parts_stand(tree, files, services);
    lemma_mounts(tree, files, None, None, services, 0, i);
    let base = sources_before(nodes, nodes.len());
    let source = joined_path(tree.loaded.root@, project.mounts@[i].source@);
    let mine = mount_source_steps(
        tree,
        files,
        source,
        project.mounts@[i].optional,
        (base + i) as nat,
        placed_target(project.mounts@[i].target@, None, None),
    )->Ok_0;
    lemma_stands_trans(mine, mount_steps(tree, files, None, None, services, 0)->Ok_0, all);
    if kind_at(files, source) == SourceKind::Directory {
        lemma_does(mine, all, 0);
        lemma_does(mine, all, 1);
    } else if !is_project_name(last_name(source)) && mine.len() > 0 {
        lemma_does(mine, all, 0);
    }
}

proof fn lemma_adapter_staged(
    tree: ProjectTree,
    files: Map<PathParts, FactModel>,
    services: Option<Seq<Seq<char>>>,
    i: int,
)
    requires
        project_steps(tree, files, services) is Ok,
        0 <= i < tree.loaded.project.adapters@.len(),
        tree.loaded.project.adapters@[i].direction != AdapterDirection::FromProject,
        is_asked(services, tree.loaded.project.adapters@[i].target@.segments),
        forall|n: int| 0 <= n < tree.nested@.len() ==> (#[trigger] tree.nested@[n]) is None,
    ensures
        does(
            project_steps(tree, files, services)->Ok_0,
            tree.loaded.project.adapters@[i].target@.segments,
            ActionModel::Adapted {
                source: joined_path(tree.loaded.root@, tree.loaded.project.adapters@[i].source@),
                format: opt_text(tree.loaded.project.adapters@[i].format),
            },
        ),
{
    let project = tree.loaded.project;
    let all = project_steps(tree, files, services)->Ok_0;
    lemma_parts_stand(tree, files, services);
    lemma_adapters(tree, files, None, None, services, 0, i);
    let fourth = adapter_steps(tree, files, None, None, services, 0)->Ok_0;
    let target = project.adapters@[i].target@.segments;
    let action = ActionModel::Adapted {
        source: joined_path(tree.loaded.root@, project.adapters@[i].source@),
        format: opt_text(project.adapters@[i].format),
    };
    let k = choose|k: int|
        0 <= k < fourth.len() && (#[trigger] fourth[k]).target == target && fourth[k].action == action;
    lemma_does(fourth, all, k);
}

/// The plan of a project's projection, or of some of its services, brings every part of the
/// project that was asked for to its target: the nodes of the tree, the mounts, and the adapters
/// that bring something into the project.
#[verifier::rlimit(50)]
pub proof fn law_plan_brings_every_part(
    tree: ProjectTree,
    files: Map<PathParts, FactModel>,
    services: Option<Seq<Seq<char>>>,
    i: int,
)
    requires
        project_steps(tree, files, services) is Ok,
    ensures
        ({
            let steps = project_steps(tree, files, services)->Ok_0;
            let project = tree.loaded.project;
            let nodes = all_tree_nodes(project);
            &&& 0 <= i < nodes.len() && is_asked(services, nodes[i].target) ==> node_is_staged(
                tree.loaded.root@,
                files,
                nodes[i].node,
                nodes[i].target,
                steps,
            )
            &&& 0 <= i < project.mounts@.len() && is_asked(services, project.mounts@[i].target@.segments)
                ==> mount_is_staged(
                files,
                joined_path(tree.loaded.root@, project.mounts@[i].source@),
                project.mounts@[i].optional,
                project.mounts@[i].target@.segments,
                steps,
            )
            &&& 0 <= i < project.adapters@.len() && project.adapters@[i].direction != AdapterDirection::FromProject
                && is_asked(services, project.adapters@[i].target@.segments) && (forall|n: int|
                0 <= n < tree.nested@.len() ==> (#[trigger] tree.nested@[n]) is None) ==> does(
                steps,
                project.adapters@[i].target@.segments,
                ActionModel::Adapted {
                    source: joined_path(tree.loaded.root@, project.adapters@[i].source@),
                    format: opt_text(project.adapters@[i].format),
                },
            )
        }),
{
    let project = tree.loaded.project;
    let nodes = all_tree_nodes(project);
    if 0 <= i < nodes.len() && is_asked(services, nodes[i].target) {
        lemma_parts_stand(tree, files, services);
        lemma_node_staged(tree, files, Seq::empty(), None, services, i, project_steps(tree, files, services)->Ok_0);
        assert(Seq::<Seq<char>>::empty() + nodes[i].target =~= nodes[i].target);
    }
    if 0 <= i < project.mounts@.len() && is_asked(services, project.mounts@[i].target@.segments) {
        lemma_mount_staged(tree, files, services, i);
    }
    if 0 <= i < project.adapters@.len() && project.adapters@[i].direction != AdapterDirection::FromProject && is_asked(
        services,
        project.adapters@[i].target@.segments,
    ) && (forall|n: int| 0 <= n < tree.nested@.len() ==> (#[trigger] tree.nested@[n]) is None) {
        lemma_adapter_staged(tree, files, services, i);
    }
}

/// A target is asked for where no services are named, or its own is.
pub open spec fn is_asked(services: Option<Seq<Seq<char>>>, target: Seq<Seq<char>>) -> bool {
    services is None || (target.len() > 0 && (services->0).contains(target[0]))
}

/// A project inside another is planned at its target: its scripts are named its way, its instance
/// has the class that it gives itself, its own sources are brought, and its nodes stand below.
#[verifier::rlimit(50)]
pub proof fn law_inner_project_is_planned(
    tree: ProjectTree,
    files: Map<PathParts, FactModel>,
    target: Seq<Seq<char>>,
    entry: Option<PathModel>,
    i: int,
)
    requires
        nested_steps(tree, files, target, entry) is Ok,
    ensures
        ({
            let steps = nested_steps(tree, files, target, entry)->Ok_0;
            let project = tree.loaded.project;
            let nodes = all_tree_nodes(project);
            let source = joined_path(tree.loaded.root@, project.source_root@);
            let model = project.root.class_name is Some && project.root.class_name->0@ == "DataModel"@;
            &&& does(
                steps,
                target,
                ActionModel::Naming { sources: source, naming: crate::project::project_naming(project) },
            )
            &&& does(
                steps,
                target,
                ActionModel::Class {
                    class_name: if project.root.class_name is Some && !model {
                        project.root.class_name->0@
                    } else if model && target.len() == 1 {
                        target[0]
                    } else {
                        "Folder"@
                    },
                },
            )
            &&& kind_at(files, source) == SourceKind::Directory ==> does(
                steps,
                target,
                ActionModel::Sources { source, owned: false, rule_prefix: None },
            ) && does(steps, target, ActionModel::Settings { source, or_folder: false })
            &&& !model && (project.root.id is Some || project.root.class_name is Some
                || project.root.properties@.len() > 0 || project.root.attributes@.len() > 0 || project.root.tags is Some)
                ==> describes(
                steps,
                target,
                project.root,
                if project.root.class_name is Some {
                    ClassModel::Named(project.root.class_name->0@)
                } else {
                    ClassModel::Existing { otherwise: "Folder"@ }
                },
            )
            &&& 0 <= i < nodes.len() ==> node_is_staged(
                tree.loaded.root@,
                files,
                nodes[i].node,
                target + nodes[i].target,
                steps,
            )
        }),
{
    let project = tree.loaded.project;
    let nodes = all_tree_nodes(project);
    let start = crate::staging::nested_start(tree.loaded, files, target, entry);
    let second = tree_steps(tree, files, nodes, target, entry, None, 0)->Ok_0;
    let third = mount_steps(tree, files, Some(target), entry, None, 0)->Ok_0;
    let fourth = adapter_steps(tree, files, Some(target), entry, None, 0)->Ok_0;
    let all = start + second + third + fourth;
    assert(nested_steps(tree, files, target, entry)->Ok_0 == all);
    lemma_stands_itself(start);
    lemma_stands_left(start, start, second);
    lemma_stands_left(start, start + second, third);
    lemma_stands_left(start, start + second + third, fourth);
    lemma_stands_itself(second);
    lemma_stands_left(second, second, start);
    lemma_stands_left(second, start + second, third);
    lemma_stands_left(second, start + second + third, fourth);
    lemma_does(start, all, 0);
    lemma_does(start, all, 1);
    let source = joined_path(tree.loaded.root@, project.source_root@);
    if kind_at(files, source) == SourceKind::Directory {
        lemma_does(start, all, 2);
        lemma_does(start, all, 3);
    }
    let said = if crate::staging::is_flattened(project.root) {
        Seq::empty()
    } else {
        description_steps(project.root, target, entry, crate::staging::root_class(project.root))
    };
    if said.len() > 0 {
        let k = start.len() - 1;
        assert(start[k] == said[0]);
        lemma_stands_does(start, all, k);
        let j = choose|j: int| 0 <= j < all.len() && #[trigger] all[j] == start[k];
        assert(all[j].target == target);
    }
    if 0 <= i < nodes.len() {
        lemma_node_staged(tree, files, target, entry, None, i, all);
    }
}

} // verus!
