//! When a project is accepted.
use vstd::prelude::*;

use crate::naming::ExportNaming;
use crate::paths::{PathParts, has_extension, is_project_name, joined_path, last_name, portable_path};
use crate::project::{
    AdapterDirection, FactModel, LoadedProject, PROJECT_SCHEMA_VERSION, ProjectChild, ReniumProject,
    SourceKind, all_tree_nodes, file_chars, file_target_checked, key_at, kind_at, target_checked,
    targets_overlap,
};
use crate::rules::{ignore_pattern, middleware_known};
use crate::target::PathModel;
use crate::text::ascii_lower;
use crate::validation::{
    AdapterFact, GlobAnswers, adapters_apart, adapters_checked, filters_checked, header_checked,
    ignores_checked, keys_checked, mounts_apart, mounts_checked, naming_checked, owners_apart,
    patterns_checked, rules_checked, suffixes, suffixes_checked, tree_checked, tree_keys_checked,
    tree_names_checked, tree_owners_checked, tree_targets, trees_apart,
};

verus! {

/// A source that a part of a project can own: a directory, a script, a store, a model or a project.
pub open spec fn can_be_owned(files: Map<PathParts, FactModel>, path: PathParts) -> bool {
    kind_at(files, path) == SourceKind::Directory || has_extension(
        path,
        seq!["lua"@, "luau"@, "renium"@, "rbxm"@, "rbxmx"@],
    ) || is_project_name(last_name(path))
}

/// What is asked of a mount.
pub open spec fn mount_is_right(loaded: LoadedProject, files: Map<PathParts, FactModel>, i: int) -> bool {
    let mount = loaded.project.mounts@[i];
    let source = joined_path(loaded.root@, mount.source@);
    &&& portable_path(mount.source@) is Ok
    &&& mount.optional && kind_at(files, source) == SourceKind::Missing || can_be_owned(files, source)
    &&& target_checked(mount.target@) is Ok
    &&& file_target_checked(mount.target@) is Ok
    &&& forall|j: int| 0 <= j < i ==> !targets_overlap((#[trigger] loaded.project.mounts@[j]).target@, mount.target@)
}

proof fn lemma_mounts_apart(loaded: LoadedProject, i: int, j: int)
    requires
        0 <= j <= i < loaded.project.mounts@.len(),
    ensures
        mounts_apart(loaded.project.mounts@, i, j) is Ok <==> forall|k: int|
            j <= k < i ==> !targets_overlap(
                (#[trigger] loaded.project.mounts@[k]).target@,
                loaded.project.mounts@[i].target@,
            ),
    decreases i - j,
{
    if j < i {
        lemma_mounts_apart(loaded, i, j + 1);
    }
}

proof fn lemma_mounts(loaded: LoadedProject, files: Map<PathParts, FactModel>, from: int)
    requires
        0 <= from <= loaded.project.mounts@.len(),
    ensures
        mounts_checked(loaded, files, from) is Ok <==> forall|i: int|
            from <= i < loaded.project.mounts@.len() ==> #[trigger] mount_is_right(loaded, files, i),
    decreases loaded.project.mounts@.len() - from,
{
    if from < loaded.project.mounts@.len() {
        lemma_mounts(loaded, files, from + 1);
        lemma_mounts_apart(loaded, from, 0);
        assert(mount_is_right(loaded, files, from) <==> crate::validation::mount_checked(loaded, files, from) is Ok);
    }
}

/// The mounts of a project are accepted when each has a portable source that can be owned, or need
/// not be there and is not, a target that can be one, also in files, and no two targets overlap.
pub proof fn law_right_mounts_are_accepted(loaded: LoadedProject, files: Map<PathParts, FactModel>)
    ensures
        mounts_checked(loaded, files, 0) is Ok <==> forall|i: int|
            0 <= i < loaded.project.mounts@.len() ==> #[trigger] mount_is_right(loaded, files, i),
{
    lemma_mounts(loaded, files, 0);
}

/// Two of some targets overlap.
pub open spec fn overlap_at(targets: Seq<PathModel>, i: int, j: int) -> bool {
    targets_overlap(targets[i], targets[j])
}

proof fn lemma_trees_apart(targets: Seq<PathModel>, left: int, right: int)
    requires
        0 <= left,
        left < right,
    ensures
        trees_apart(targets, left, right) is Ok <==> forall|i: int, j: int|
            left <= i < j < targets.len() && (i > left || j >= right) ==> !#[trigger] overlap_at(targets, i, j),
    decreases targets.len() - left, targets.len() - right,
{
    if left < targets.len() {
        if right >= targets.len() {
            lemma_trees_apart(targets, left + 1, left + 2);
        } else {
            lemma_trees_apart(targets, left, right + 1);
            assert(overlap_at(targets, left, right) <==> targets_overlap(targets[left], targets[right]));
        }
    }
}

proof fn lemma_tree_owners(loaded: LoadedProject, files: Map<PathParts, FactModel>, from: int)
    requires
        0 <= from <= all_tree_nodes(loaded.project).len(),
    ensures
        tree_owners_checked(loaded, files, all_tree_nodes(loaded.project), from) is Ok <==> forall|i: int|
            from <= i < all_tree_nodes(loaded.project).len() && (#[trigger] all_tree_nodes(loaded.project)[i]).node.path is Some
                ==> can_be_owned(
                files,
                joined_path(loaded.root@, all_tree_nodes(loaded.project)[i].node.path->0@),
            ),
    decreases all_tree_nodes(loaded.project).len() - from,
{
    if from < all_tree_nodes(loaded.project).len() {
        lemma_tree_owners(loaded, files, from + 1);
    }
}

proof fn lemma_tree_names(targets: Seq<PathModel>, from: int)
    requires
        0 <= from <= targets.len(),
    ensures
        tree_names_checked(targets, from) is Ok <==> forall|i: int|
            from <= i < targets.len() ==> file_target_checked(#[trigger] targets[i]) is Ok,
    decreases targets.len() - from,
{
    if from < targets.len() {
        lemma_tree_names(targets, from + 1);
    }
}

/// The tree of a project is accepted when every source in it can be owned, every target with a
/// source can be one in files, and no two of them overlap.
pub proof fn law_right_trees_are_accepted(loaded: LoadedProject, files: Map<PathParts, FactModel>)
    ensures
        tree_checked(loaded, files) is Ok <==> {
            &&& forall|i: int|
                0 <= i < all_tree_nodes(loaded.project).len() && (#[trigger] all_tree_nodes(
                    loaded.project,
                )[i]).node.path is Some ==> can_be_owned(
                    files,
                    joined_path(loaded.root@, all_tree_nodes(loaded.project)[i].node.path->0@),
                )
            &&& forall|i: int|
                0 <= i < tree_targets(loaded.project).len() ==> file_target_checked(
                    #[trigger] tree_targets(loaded.project)[i],
                ) is Ok
            &&& forall|i: int, j: int|
                0 <= i < j < tree_targets(loaded.project).len() ==> !#[trigger] overlap_at(
                    tree_targets(loaded.project),
                    i,
                    j,
                )
        },
{
    lemma_tree_owners(loaded, files, 0);
    lemma_tree_names(tree_targets(loaded.project), 0);
    lemma_trees_apart(tree_targets(loaded.project), 0, 1);
}

/// A target of the tree and one of a mount overlap.
pub open spec fn owners_overlap(loaded: LoadedProject, i: int, j: int) -> bool {
    targets_overlap(tree_targets(loaded.project)[i], loaded.project.mounts@[j].target@)
}

proof fn lemma_owners_apart(loaded: LoadedProject, i: int, j: int)
    requires
        0 <= i,
        0 <= j,
    ensures
        owners_apart(tree_targets(loaded.project), loaded.project.mounts@, i, j) is Ok <==> forall|a: int, b: int|
            i <= a < tree_targets(loaded.project).len() && 0 <= b < loaded.project.mounts@.len() && (a > i || b >= j)
                ==> !#[trigger] owners_overlap(loaded, a, b),
    decreases tree_targets(loaded.project).len() - i, loaded.project.mounts@.len() - j,
{
    let targets = tree_targets(loaded.project);
    let mounts = loaded.project.mounts@;
    if i < targets.len() {
        if j >= mounts.len() {
            lemma_owners_apart(loaded, i + 1, 0);
        } else {
            lemma_owners_apart(loaded, i, j + 1);
            assert(owners_overlap(loaded, i, j) <==> targets_overlap(targets[i], mounts[j].target@));
        }
    }
}

/// The tree and the mounts of a project are accepted together when no target of the one overlaps
/// one of the other.
pub proof fn law_apart_owners_are_accepted(loaded: LoadedProject)
    ensures
        owners_apart(tree_targets(loaded.project), loaded.project.mounts@, 0, 0) is Ok <==> forall|a: int, b: int|
            0 <= a < tree_targets(loaded.project).len() && 0 <= b < loaded.project.mounts@.len()
                ==> !#[trigger] owners_overlap(loaded, a, b),
{
    lemma_owners_apart(loaded, 0, 0);
}

/// What is asked of an adapter.
pub open spec fn adapter_is_right(
    loaded: LoadedProject,
    files: Map<PathParts, FactModel>,
    facts: Seq<AdapterFact>,
    i: int,
) -> bool {
    let adapters = loaded.project.adapters@;
    let x = adapters[i];
    let writes = x.direction != AdapterDirection::ToProject;
    &&& portable_path(x.source@) is Ok
    &&& target_checked(x.target@) is Ok && file_target_checked(x.target@) is Ok
    &&& forall|j: int| 0 <= j < i ==> !targets_overlap((#[trigger] adapters[j]).target@, x.target@)
    &&& forall|j: int|
        0 <= j < tree_targets(loaded.project).len() ==> !targets_overlap(#[trigger] tree_targets(loaded.project)[j], x.target@)
    &&& forall|j: int|
        0 <= j < loaded.project.mounts@.len() ==> !targets_overlap((#[trigger] loaded.project.mounts@[j]).target@, x.target@)
    &&& x.output is Some ==> portable_path(x.output->0@) is Ok
    &&& facts[i].format is Some
    &&& facts[i].output is Some ==> (forall|j: int|
        0 <= j < i && j < facts.len() && (#[trigger] facts[j]).output is Some ==> key_at(files, facts[j].output->0@)
            != key_at(files, facts[i].output->0@))
    &&& facts[i].output is Some ==> (forall|j: int|
        0 <= j < adapters.len() ==> key_at(files, joined_path(loaded.root@, (#[trigger] adapters[j]).source@)) != key_at(
            files,
            facts[i].output->0@,
        ))
    &&& writes ==> facts[i].format->0.reversible
    &&& facts[i].format->0.model_json ==> x.target@.segments.len() >= 2
    &&& !writes && facts[i].format->0.generates_module ==> x.generated
    &&& writes ==> forall|j: int|
        0 <= j < i && (#[trigger] adapters[j]).direction != AdapterDirection::ToProject ==> joined_path(
            loaded.root@,
            adapters[j].source@,
        ) != joined_path(loaded.root@, x.source@)
}

proof fn lemma_adapters_apart(loaded: LoadedProject, i: int, j: int)
    requires
        0 <= j <= i < loaded.project.adapters@.len(),
    ensures
        adapters_apart(loaded.project.adapters@, i, j) is Ok <==> forall|k: int|
            j <= k < i ==> !targets_overlap(
                (#[trigger] loaded.project.adapters@[k]).target@,
                loaded.project.adapters@[i].target@,
            ),
    decreases i - j,
{
    if j < i {
        lemma_adapters_apart(loaded, i, j + 1);
    }
}

proof fn lemma_adapters(loaded: LoadedProject, files: Map<PathParts, FactModel>, facts: Seq<AdapterFact>, from: int)
    requires
        0 <= from <= loaded.project.adapters@.len(),
    ensures
        adapters_checked(loaded, files, facts, from) is Ok <==> forall|i: int|
            from <= i < loaded.project.adapters@.len() ==> #[trigger] adapter_is_right(loaded, files, facts, i),
    decreases loaded.project.adapters@.len() - from,
{
    if from < loaded.project.adapters@.len() {
        lemma_adapters(loaded, files, facts, from + 1);
        lemma_adapters_apart(loaded, from, 0);
        assert(adapter_is_right(loaded, files, facts, from) <==> crate::validation::adapter_checked(
            loaded,
            files,
            facts,
            from,
        ) is Ok);
    }
}

/// The adapters of a project are accepted when each has a portable source, a target of its own, a
/// format that is known and that can be read back where it writes, an output that no other adapter
/// writes or reads, and a source that no other writes to.
pub proof fn law_right_adapters_are_accepted(
    loaded: LoadedProject,
    files: Map<PathParts, FactModel>,
    facts: Seq<AdapterFact>,
)
    ensures
        adapters_checked(loaded, files, facts, 0) is Ok <==> forall|i: int|
            0 <= i < loaded.project.adapters@.len() ==> #[trigger] adapter_is_right(loaded, files, facts, i),
{
    lemma_adapters(loaded, files, facts, 0);
}

/// What is asked of a rule for files.
pub open spec fn rule_is_right(project: ReniumProject, formats: Seq<Seq<char>>, a: GlobAnswers, i: int) -> bool {
    let rule = project.sync_rules@[i];
    &&& a.patterns@[i]
    &&& rule.exclude is Some ==> a.excludes@[i]
    &&& middleware_known(rule.middleware@, formats)
    &&& rule.suffix is Some ==> rule.suffix->0@.len() > 0 && file_chars(rule.suffix->0@)
}

/// What is asked of a line of what is ignored.
pub open spec fn ignore_is_right(project: ReniumProject, a: GlobAnswers, i: int) -> bool {
    ignore_pattern(project.glob_ignore_paths@[i]@).len() > 0 && a.ignores@[i]
}

/// What is asked of a filter.
pub open spec fn filter_is_right(project: ReniumProject, a: GlobAnswers, i: int) -> bool {
    let f = project.filters@[i];
    &&& f.glob is Some ==> a.filters@[i]
    &&& f.glob is Some || f.name is Some || f.class is Some || f.tag is Some || f.attribute is Some || f.property is Some
        || f.id is Some
}

proof fn lemma_rules(project: ReniumProject, formats: Seq<Seq<char>>, a: GlobAnswers, from: int)
    requires
        0 <= from <= project.sync_rules@.len(),
    ensures
        rules_checked(project, formats, a, from) is Ok <==> forall|i: int|
            from <= i < project.sync_rules@.len() ==> #[trigger] rule_is_right(project, formats, a, i),
    decreases project.sync_rules@.len() - from,
{
    if from < project.sync_rules@.len() {
        lemma_rules(project, formats, a, from + 1);
        let rule = project.sync_rules@[from];
        if rule_is_right(project, formats, a, from) {
            assert(rules_checked(project, formats, a, from) == rules_checked(project, formats, a, from + 1));
        } else {
            assert(rules_checked(project, formats, a, from) is Err);
        }
    }
}

proof fn lemma_ignores(project: ReniumProject, a: GlobAnswers, from: int)
    requires
        0 <= from <= project.glob_ignore_paths@.len(),
    ensures
        ignores_checked(project, a, from) is Ok <==> forall|i: int|
            from <= i < project.glob_ignore_paths@.len() ==> #[trigger] ignore_is_right(project, a, i),
    decreases project.glob_ignore_paths@.len() - from,
{
    if from < project.glob_ignore_paths@.len() {
        lemma_ignores(project, a, from + 1);
        assert(ignore_is_right(project, a, from) || ignores_checked(project, a, from) is Err);
    }
}

proof fn lemma_filters(project: ReniumProject, a: GlobAnswers, from: int)
    requires
        0 <= from <= project.filters@.len(),
    ensures
        filters_checked(project, a, from) is Ok <==> forall|i: int|
            from <= i < project.filters@.len() ==> #[trigger] filter_is_right(project, a, i),
    decreases project.filters@.len() - from,
{
    if from < project.filters@.len() {
        lemma_filters(project, a, from + 1);
        assert(filter_is_right(project, a, from) || filters_checked(project, a, from) is Err);
    }
}

/// The rules, the lines of what is ignored and the filters of a project are accepted when every
/// pattern can be read and is not empty, every rule makes something that is known, with a suffix
/// that files can have, and every filter has a condition.
pub proof fn law_right_patterns_are_accepted(project: ReniumProject, formats: Seq<Seq<char>>, a: GlobAnswers)
    ensures
        patterns_checked(project, formats, a) is Ok <==> {
            &&& forall|i: int| 0 <= i < project.sync_rules@.len() ==> #[trigger] rule_is_right(project, formats, a, i)
            &&& forall|i: int| 0 <= i < project.glob_ignore_paths@.len() ==> #[trigger] ignore_is_right(project, a, i)
            &&& forall|i: int| 0 <= i < project.filters@.len() ==> #[trigger] filter_is_right(project, a, i)
        },
{
    lemma_rules(project, formats, a, 0);
    lemma_ignores(project, a, 0);
    lemma_filters(project, a, 0);
}

proof fn lemma_suffixes(v: Seq<Seq<char>>, from: int)
    requires
        0 <= from <= v.len(),
    ensures
        suffixes_checked(v, from) is Ok <==> forall|i: int| from <= i < v.len() ==> file_chars(#[trigger] v[i]),
    decreases v.len() - from,
{
    if from < v.len() {
        lemma_suffixes(v, from + 1);
    }
}

/// The suffixes of scripts are accepted when files can have them, no two are the same whatever
/// their case, and only that of modules is empty.
pub proof fn law_right_suffixes_are_accepted(naming: ExportNaming)
    ensures
        naming_checked(naming) is Ok <==> {
            let v = seq![
                naming.server_suffix@,
                naming.client_suffix@,
                naming.module_suffix@,
                naming.plugin_suffix@,
                naming.client_run_context_suffix@,
            ];
            &&& forall|i: int| 0 <= i < v.len() ==> file_chars(#[trigger] v[i])
            &&& naming.server_suffix@.len() > 0 && naming.client_suffix@.len() > 0 && naming.plugin_suffix@.len() > 0
                && naming.client_run_context_suffix@.len() > 0
            &&& forall|i: int, j: int|
                0 <= i < j < v.len() ==> ascii_lower(#[trigger] v[i]) != ascii_lower(#[trigger] v[j])
        },
{
    lemma_suffixes(suffixes(naming), 0);
}

/// A project that starts well: of the version that is known, with a portable root of its sources
/// that is a directory if anything is there, a target for building that can be one, suffixes that
/// are accepted, and, where it stands for itself, a root that says nothing but that it is one.
pub proof fn law_right_headers_are_accepted(loaded: LoadedProject, files: Map<PathParts, FactModel>, nested: bool)
    ensures
        header_checked(loaded, files, nested) is Ok <==> {
            let project = loaded.project;
            let at = kind_at(files, joined_path(loaded.root@, project.source_root@));
            let root = project.root;
            &&& project.schema_version == PROJECT_SCHEMA_VERSION
            &&& portable_path(project.source_root@) is Ok
            &&& at == SourceKind::Missing || at == SourceKind::Directory
            &&& project.build_target is Some ==> target_checked(project.build_target->0@) is Ok
            &&& !nested ==> keys_checked(root.children@, 0) is Ok
            &&& !nested && root.class_name is Some ==> root.class_name->0@ == "DataModel"@
            &&& !nested ==> root.id is None && root.path is None && root.properties@.len() == 0
                && root.attributes@.len() == 0 && root.tags is None && root.children@.len() == 0
            &&& tree_keys_checked(project, 0) is Ok
            &&& naming_checked(project.export_naming) is Ok
        },
{
}

/// Every child that the children of a node have is a node with a key that is not reserved, and so
/// are theirs.
pub open spec fn children_are_nodes(children: Seq<ProjectChild>) -> bool
    decreases children,
{
    forall|i: int|
        0 <= i < children.len() ==> !crate::project::is_reserved_key((#[trigger] children[i]).name@)
            && children[i].node is Some && children_are_nodes(children[i].node->0.children@)
}

/// The children of a node are accepted when all of them, at any depth, are nodes with keys that
/// are not reserved.
pub proof fn law_right_children_are_accepted(children: Seq<ProjectChild>)
    ensures
        keys_checked(children, 0) is Ok <==> children_are_nodes(children),
    decreases children,
{
    lemma_children(children, 0);
}

proof fn lemma_children(children: Seq<ProjectChild>, from: int)
    requires
        0 <= from <= children.len(),
    ensures
        keys_checked(children, from) is Ok <==> forall|i: int|
            from <= i < children.len() ==> !crate::project::is_reserved_key((#[trigger] children[i]).name@)
                && children[i].node is Some && children_are_nodes(children[i].node->0.children@),
    decreases children, children.len() - from,
{
    if from < children.len() {
        lemma_children(children, from + 1);
        match children[from].node {
            Some(node) => {
                lemma_children(node.children@, 0);
            },
            None => {},
        }
    }
}

} // verus!
