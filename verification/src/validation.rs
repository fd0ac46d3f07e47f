//! Checking projects: what they may say, and that no two of their parts own the same.
use vstd::prelude::*;

use crate::document::{document_target, find_document_target_optional_with_ordinals, InstanceModel, SettingsDocument};
use crate::filter::{glob_match, match_glob, portable_glob, FilterRule};
use crate::naming::ExportNaming;
use crate::order::SortedSet;
use crate::rules::{ignore_glob_pattern, ignore_pattern, middleware_known, validate_sync_middleware};
use crate::paths::{
    has_extension, is_nested_project_path, is_project_name, joined_path, last_name, path_extension_is, portable_path,
    validate_relative_portable_path, FilePath, PathParts, PortableError,
};
use crate::project::{
    all_tree_nodes, file_chars, file_target_checked, has_file_chars, has_reserved_key, instance_target_overlaps, is_reserved_key,
    key_at, kind_at, project_tree_nodes, target_checked, targets_overlap, tree_views, validate_filesystem_target,
    validate_instance_target, AdapterDirection, AdapterSpec, FactModel, Files, LoadedProject, MountOwnership, ProjectChild,
    ProjectMount, ProjectNode, ReniumProject, SourceKind, TargetProblem, TreeNodeModel, PROJECT_SCHEMA_VERSION,
};
use crate::table::{key_views, Table};
use crate::target::{PathModel, ProjectTarget};
use crate::text::{ascii_lower, clone_texts, joined, same, starts_with, texts, to_ascii_lower};
use crate::wally_sync::PathKey;

verus! {

broadcast use vstd::seq_lib::group_seq_properties;

/// What is wrong with a project. Numbers tell which mount, tree node, adapter, rule, pattern or filter.
#[derive(PartialEq, Eq, Structural, Clone, Copy, Debug)]
pub enum ProjectError {
    SchemaVersion,
    SourceRoot(PortableError),
    SourceRootNotDirectory,
    BuildTarget(TargetProblem),
    ReservedKey,
    ChildNotANode,
    RootClass,
    RootMetadata,
    SuffixCharacters(usize),
    EmptySuffix,
    SameSuffixes,
    MountSource(usize, PortableError),
    MountOwner(usize),
    MountTarget(usize, TargetProblem),
    MountOverlap(usize, usize),
    TreeOwner(usize),
    TreeTarget(usize, TargetProblem),
    TreeOverlap(usize, usize),
    OwnerOverlap(usize, usize),
    AdapterSource(usize, PortableError),
    AdapterTarget(usize, TargetProblem),
    AdapterOverlap(usize, usize),
    AdapterOwned(usize),
    AdapterOutput(usize, PortableError),
    AdapterFormat(usize),
    OutputTwice(usize),
    OutputIsSource(usize),
    NotReversible(usize),
    ModelTarget(usize),
    NotGenerated(usize),
    SharedSource(usize),
    RuleGlob(usize),
    RuleExclude(usize),
    RuleMiddleware(usize),
    RuleSuffix(usize),
    IgnoreEmpty(usize),
    IgnoreGlob(usize),
    FilterGlob(usize),
    FilterEmpty(usize),
    ExplicitOwner,
    AmbiguousOwner,
    SourceOverlap,
    NestedRoot,
    NestedValues,
}

/// The children of a node hold no key that a project keeps for itself, and only nodes.
pub open spec fn keys_checked(children: Seq<ProjectChild>, i: int) -> Result<(), ProjectError>
    decreases children, children.len() - i,
{
    if i < 0 || i >= children.len() {
        Ok(())
    } else if is_reserved_key(children[i].name@) {
        Err(ProjectError::ReservedKey)
    } else {
        match children[i].node {
            None => Err(ProjectError::ChildNotANode),
            Some(node) => match keys_checked(node.children@, 0) {
                Err(e) => Err(e),
                Ok(()) => keys_checked(children, i + 1),
            },
        }
    }
}

fn check_keys(children: &Vec<ProjectChild>) -> (r: Result<(), ProjectError>)
    ensures
        r == keys_checked(children@, 0),
    decreases children,
{
    let mut i: usize = 0;
    while i < children.len()
        invariant
            i <= children.len(),
            keys_checked(children@, 0) == keys_checked(children@, i as int),
        decreases children.len() - i,
    {
        if has_reserved_key(&children[i].name) {
            return Err(ProjectError::ReservedKey);
        }
        match &children[i].node {
            None => {
                return Err(ProjectError::ChildNotANode);
            },
            Some(node) => match check_keys(&node.children) {
                Err(e) => {
                    return Err(e);
                },
                Ok(()) => {},
            },
        }
        i += 1;
    }
    Ok(())
}

/// The keys of the services from `i` on.
pub open spec fn tree_keys_checked(project: ReniumProject, i: int) -> Result<(), ProjectError>
    decreases project.tree@.len() - i,
{
    if i < 0 || i >= project.tree@.len() {
        Ok(())
    } else {
        match keys_checked(project.tree@[i].node.children@, 0) {
            Err(e) => Err(e),
            Ok(()) => tree_keys_checked(project, i + 1),
        }
    }
}

/// The suffixes for script files: those of server, client, module, plugin and run-context scripts.
pub open spec fn suffixes(naming: ExportNaming) -> Seq<Seq<char>> {
    seq![
        naming.server_suffix@,
        naming.client_suffix@,
        naming.module_suffix@,
        naming.plugin_suffix@,
        naming.client_run_context_suffix@,
    ]
}

/// The suffixes from `i` on can stand in the names of files.
pub open spec fn suffixes_checked(v: Seq<Seq<char>>, i: int) -> Result<(), ProjectError>
    decreases v.len() - i,
{
    if i < 0 || i >= v.len() {
        Ok(())
    } else if !file_chars(v[i]) {
        Err(ProjectError::SuffixCharacters(i as usize))
    } else {
        suffixes_checked(v, i + 1)
    }
}

/// Two suffixes differ only in the case of their letters.
pub open spec fn some_suffixes_same(v: Seq<Seq<char>>) -> bool {
    exists|i: int, j: int| 0 <= i < j < v.len() && ascii_lower(#[trigger] v[i]) == ascii_lower(#[trigger] v[j])
}

/// Suffixes that tell the kinds of scripts apart.
pub open spec fn naming_checked(naming: ExportNaming) -> Result<(), ProjectError> {
    match suffixes_checked(suffixes(naming), 0) {
        Err(e) => Err(e),
        Ok(()) => if naming.server_suffix@.len() == 0 || naming.client_suffix@.len() == 0 || naming.plugin_suffix@.len() == 0
            || naming.client_run_context_suffix@.len() == 0 {
            Err(ProjectError::EmptySuffix)
        } else if some_suffixes_same(suffixes(naming)) {
            Err(ProjectError::SameSuffixes)
        } else {
            Ok(())
        },
    }
}

fn check_naming(naming: &ExportNaming) -> (r: Result<(), ProjectError>)
    ensures
        r == naming_checked(*naming),
{
    let mut list: Vec<String> = Vec::new();
    list.push(naming.server_suffix.clone());
    list.push(naming.client_suffix.clone());
    list.push(naming.module_suffix.clone());
    list.push(naming.plugin_suffix.clone());
    list.push(naming.client_run_context_suffix.clone());
    let ghost all = suffixes(*naming);
    assert(texts(list@) =~= all);
    let mut i: usize = 0;
    while i < list.len()
        invariant
            i <= list.len(),
            all == suffixes(*naming),
            texts(list@) == all,
            suffixes_checked(all, 0) == suffixes_checked(all, i as int),
        decreases list.len() - i,
    {
        assert(all[i as int] == list@[i as int]@);
        if !has_file_chars(&list[i]) {
            return Err(ProjectError::SuffixCharacters(i));
        }
        i += 1;
    }
    if naming.server_suffix.as_str().is_empty() || naming.client_suffix.as_str().is_empty() || naming.plugin_suffix.as_str().is_empty()
        || naming.client_run_context_suffix.as_str().is_empty() {
        return Err(ProjectError::EmptySuffix);
    }
    let mut left: usize = 0;
    while left < list.len()
        invariant
            left <= list.len(),
            all == suffixes(*naming),
            texts(list@) == all,
            naming_checked(*naming) == if some_suffixes_same(all) {
                Err::<(), ProjectError>(ProjectError::SameSuffixes)
            } else {
                Ok(())
            },
            forall|a: int, b: int|
                0 <= a < left && a < b < all.len() ==> ascii_lower(#[trigger] all[a]) != ascii_lower(#[trigger] all[b]),
        decreases list.len() - left,
    {
        assert(all[left as int] == list@[left as int]@);
        let x = to_ascii_lower(&list[left]);
        let mut right: usize = left + 1;
        while right < list.len()
            invariant
                left < right <= list.len(),
                all == suffixes(*naming),
                texts(list@) == all,
                x@ == ascii_lower(all[left as int]),
                naming_checked(*naming) == if some_suffixes_same(all) {
                    Err::<(), ProjectError>(ProjectError::SameSuffixes)
                } else {
                    Ok(())
                },
                forall|b: int| left < b < right ==> x@ != ascii_lower(#[trigger] all[b]),
            decreases list.len() - right,
        {
            assert(all[right as int] == list@[right as int]@);
            let y = to_ascii_lower(&list[right]);
            if same(&x, &y) {
                assert(ascii_lower(all[left as int]) == ascii_lower(all[right as int]));
                assert(some_suffixes_same(all));
                return Err(ProjectError::SameSuffixes);
            }
            right += 1;
        }
        left += 1;
    }
    Ok(())
}

/// Something is said of the root that only nested projects may say.
pub open spec fn root_described(root: ProjectNode) -> bool {
    root.id is Some || root.path is Some || root.properties@.len() > 0 || root.attributes@.len() > 0 || root.tags is Some
        || root.children@.len() > 0
}

/// What a project says of itself as a whole. A nested project's root is checked where it is used.
pub open spec fn header_checked(loaded: LoadedProject, files: Map<PathParts, FactModel>, nested: bool) -> Result<
    (),
    ProjectError,
> {
    let project = loaded.project;
    let at = kind_at(files, joined_path(loaded.root@, project.source_root@));
    if project.schema_version != PROJECT_SCHEMA_VERSION {
        Err(ProjectError::SchemaVersion)
    } else if portable_path(project.source_root@) is Err {
        Err(ProjectError::SourceRoot(portable_path(project.source_root@)->Err_0))
    } else if at != SourceKind::Missing && at != SourceKind::Directory {
        Err(ProjectError::SourceRootNotDirectory)
    } else if project.build_target is Some && target_checked(project.build_target->0@) is Err {
        Err(ProjectError::BuildTarget(target_checked(project.build_target->0@)->Err_0))
    } else if !nested && keys_checked(project.root.children@, 0) is Err {
        keys_checked(project.root.children@, 0)
    } else if !nested && project.root.class_name is Some && project.root.class_name->0@ != "DataModel"@ {
        Err(ProjectError::RootClass)
    } else if !nested && root_described(project.root) {
        Err(ProjectError::RootMetadata)
    } else if tree_keys_checked(project, 0) is Err {
        tree_keys_checked(project, 0)
    } else {
        naming_checked(project.export_naming)
    }
}

fn check_root(root: &ProjectNode) -> (r: Result<(), ProjectError>)
    ensures
        r == if keys_checked(root.children@, 0) is Err {
            keys_checked(root.children@, 0)
        } else if root.class_name is Some && root.class_name->0@ != "DataModel"@ {
            Err(ProjectError::RootClass)
        } else if root_described(*root) {
            Err(ProjectError::RootMetadata)
        } else {
            Ok(())
        },
{
    match check_keys(&root.children) {
        Err(e) => {
            return Err(e);
        },
        Ok(()) => {},
    }
    match &root.class_name {
        Some(class_name) => {
            if !same(class_name, "DataModel") {
                return Err(ProjectError::RootClass);
            }
        },
        None => {},
    }
    if root.id.is_some() || root.path.is_some() || root.properties.len() > 0 || root.attributes.len() > 0 || root.tags.is_some()
        || root.children.len() > 0 {
        return Err(ProjectError::RootMetadata);
    }
    Ok(())
}

/// Checks what a project says of itself as a whole.
pub fn validate_project_header(loaded: &LoadedProject, files: &Files, nested: bool) -> (r: Result<(), ProjectError>)
    ensures
        r == header_checked(*loaded, files@, nested),
{
    let project = &loaded.project;
    if project.schema_version != PROJECT_SCHEMA_VERSION {
        return Err(ProjectError::SchemaVersion);
    }
    match validate_relative_portable_path(&project.source_root) {
        Err(e) => {
            return Err(ProjectError::SourceRoot(e));
        },
        Ok(()) => {},
    }
    let source_root = loaded.root.join(&project.source_root);
    let kind = files.kind(&source_root);
    if kind != SourceKind::Missing && kind != SourceKind::Directory {
        return Err(ProjectError::SourceRootNotDirectory);
    }
    match &project.build_target {
        Some(target) => match validate_instance_target(target) {
            Err(e) => {
                return Err(ProjectError::BuildTarget(e));
            },
            Ok(()) => {},
        },
        None => {},
    }
    if !nested {
        match check_root(&project.root) {
            Err(e) => {
                return Err(e);
            },
            Ok(()) => {},
        }
    }
    let mut i: usize = 0;
    while i < project.tree.len()
        invariant
            i <= project.tree.len(),
            tree_keys_checked(*project, 0) == tree_keys_checked(*project, i as int),
            tree_keys_checked(*project, 0) is Err ==> header_checked(*loaded, files@, nested) == tree_keys_checked(*project, 0),
        decreases project.tree.len() - i,
    {
        match check_keys(&project.tree[i].node.children) {
            Err(e) => {
                return Err(e);
            },
            Ok(()) => {},
        }
        i += 1;
    }
    check_naming(&project.export_naming)
}

/// Files that can be an instance's source by themselves.
pub open spec fn owner_extensions() -> Seq<Seq<char>> {
    seq!["lua"@, "luau"@, "renium"@, "rbxm"@, "rbxmx"@]
}

/// A source that needs no adapter: a directory, or a file of some kinds.
pub open spec fn is_direct_owner(kind: SourceKind, path: PathParts) -> bool {
    kind == SourceKind::Directory || has_extension(path, owner_extensions()) || is_project_name(last_name(path))
}

/// Whether a source needs no adapter.
pub fn validate_direct_owner_source(source: &FilePath, files: &Files) -> (r: bool)
    ensures
        r == is_direct_owner(kind_at(files@, source@), source@),
{
    if files.kind(source) == SourceKind::Directory {
        return true;
    }
    let mut wanted: Vec<String> = Vec::new();
    wanted.push("lua".to_owned());
    wanted.push("luau".to_owned());
    wanted.push("renium".to_owned());
    wanted.push("rbxm".to_owned());
    wanted.push("rbxmx".to_owned());
    assert(texts(wanted@) =~= owner_extensions());
    path_extension_is(source, &wanted) || is_nested_project_path(source)
}

/// The first mount from `j` on, among those before `i`, whose target overlaps that of mount `i`.
pub open spec fn mounts_apart(mounts: Seq<ProjectMount>, i: int, j: int) -> Result<(), ProjectError>
    decreases i - j,
{
    if j < 0 || j >= i {
        Ok(())
    } else if targets_overlap(mounts[j].target@, mounts[i].target@) {
        Err(ProjectError::MountOverlap(j as usize, i as usize))
    } else {
        mounts_apart(mounts, i, j + 1)
    }
}

/// One mount, given those before it.
pub open spec fn mount_checked(loaded: LoadedProject, files: Map<PathParts, FactModel>, i: int) -> Result<(), ProjectError> {
    let mount = loaded.project.mounts@[i];
    let source = joined_path(loaded.root@, mount.source@);
    let kind = kind_at(files, source);
    if portable_path(mount.source@) is Err {
        Err(ProjectError::MountSource(i as usize, portable_path(mount.source@)->Err_0))
    } else if (kind != SourceKind::Missing || !mount.optional) && !is_direct_owner(kind, source) {
        Err(ProjectError::MountOwner(i as usize))
    } else if target_checked(mount.target@) is Err {
        Err(ProjectError::MountTarget(i as usize, target_checked(mount.target@)->Err_0))
    } else if file_target_checked(mount.target@) is Err {
        Err(ProjectError::MountTarget(i as usize, file_target_checked(mount.target@)->Err_0))
    } else {
        mounts_apart(loaded.project.mounts@, i, 0)
    }
}

/// The mounts from `i` on.
pub open spec fn mounts_checked(loaded: LoadedProject, files: Map<PathParts, FactModel>, i: int) -> Result<(), ProjectError>
    decreases loaded.project.mounts@.len() - i,
{
    if i < 0 || i >= loaded.project.mounts@.len() {
        Ok(())
    } else {
        match mount_checked(loaded, files, i) {
            Err(e) => Err(e),
            Ok(()) => mounts_checked(loaded, files, i + 1),
        }
    }
}

fn check_mount(loaded: &LoadedProject, files: &Files, i: usize) -> (r: Result<(), ProjectError>)
    requires
        i < loaded.project.mounts@.len(),
    ensures
        r == mount_checked(*loaded, files@, i as int),
{
    let mount = &loaded.project.mounts[i];
    match validate_relative_portable_path(&mount.source) {
        Err(e) => {
            return Err(ProjectError::MountSource(i, e));
        },
        Ok(()) => {},
    }
    let source = loaded.root.join(&mount.source);
    let present = files.kind(&source) != SourceKind::Missing;
    if (present || !mount.optional) && !validate_direct_owner_source(&source, files) {
        return Err(ProjectError::MountOwner(i));
    }
    match validate_instance_target(&mount.target) {
        Err(e) => {
            return Err(ProjectError::MountTarget(i, e));
        },
        Ok(()) => {},
    }
    match validate_filesystem_target(&mount.target) {
        Err(e) => {
            return Err(ProjectError::MountTarget(i, e));
        },
        Ok(()) => {},
    }
    let ghost mounts = loaded.project.mounts@;
    let mut j: usize = 0;
    while j < i
        invariant
            j <= i < loaded.project.mounts@.len(),
            mounts == loaded.project.mounts@,
            *mount == mounts[i as int],
            mount_checked(*loaded, files@, i as int) == mounts_apart(mounts, i as int, j as int),
        decreases i - j,
    {
        if instance_target_overlaps(&loaded.project.mounts[j].target, &mount.target) {
            return Err(ProjectError::MountOverlap(j, i));
        }
        j += 1;
    }
    Ok(())
}

/// Checks the mounts of a project.
pub fn validate_mount_targets(loaded: &LoadedProject, files: &Files) -> (r: Result<(), ProjectError>)
    ensures
        r == mounts_checked(*loaded, files@, 0),
{
    let mut i: usize = 0;
    while i < loaded.project.mounts.len()
        invariant
            i <= loaded.project.mounts.len(),
            mounts_checked(*loaded, files@, 0) == mounts_checked(*loaded, files@, i as int),
        decreases loaded.project.mounts.len() - i,
    {
        match check_mount(loaded, files, i) {
            Err(e) => {
                return Err(e);
            },
            Ok(()) => {},
        }
        i += 1;
    }
    Ok(())
}

/// The targets of the first `n` tree nodes that have a source.
pub open spec fn writable_targets(nodes: Seq<TreeNodeModel>, n: nat) -> Seq<PathModel>
    decreases n,
{
    if n == 0 {
        Seq::empty()
    } else if nodes[n - 1].node.path is Some {
        writable_targets(nodes, (n - 1) as nat).push(
            PathModel { segments: nodes[n - 1].target, ordinals: Seq::empty() },
        )
    } else {
        writable_targets(nodes, (n - 1) as nat)
    }
}

/// The targets of tree nodes that have a source.
pub open spec fn tree_targets(project: ReniumProject) -> Seq<PathModel> {
    writable_targets(all_tree_nodes(project), all_tree_nodes(project).len())
}

pub open spec fn target_views(v: Seq<ProjectTarget>) -> Seq<PathModel> {
    Seq::new(v.len(), |i: int| v[i]@)
}

/// The targets of tree nodes that have a source.
pub fn writable_tree_targets(project: &ReniumProject) -> (r: Vec<ProjectTarget>)
    ensures
        target_views(r@) == tree_targets(*project),
{
    let nodes = project_tree_nodes(&project.tree);
    let ghost all = tree_views(nodes@);
    let mut out: Vec<ProjectTarget> = Vec::new();
    let mut i: usize = 0;
    assert(target_views(out@) =~= Seq::empty());
    assert(all.len() == nodes@.len());
    while i < nodes.len()
        invariant
            i <= nodes.len(),
            all == tree_views(nodes@),
            target_views(out@) == writable_targets(all, i as nat),
        decreases nodes.len() - i,
    {
        assert(all[i as int] == nodes@[i as int]@);
        if nodes[i].node.path.is_some() {
            let ghost before = out@;
            let target = ProjectTarget::from_parts(clone_texts(&nodes[i].target), Vec::new());
            out.push(target);
            assert(target_views(out@) =~= target_views(before).push(target@));
        }
        i += 1;
    }
    out
}

/// The sources of tree nodes from `i` on need no adapter.
pub open spec fn tree_owners_checked(
    loaded: LoadedProject,
    files: Map<PathParts, FactModel>,
    nodes: Seq<TreeNodeModel>,
    i: int,
) -> Result<(), ProjectError>
    decreases nodes.len() - i,
{
    if i < 0 || i >= nodes.len() {
        Ok(())
    } else if nodes[i].node.path is Some && !is_direct_owner(
        kind_at(files, joined_path(loaded.root@, nodes[i].node.path->0@)),
        joined_path(loaded.root@, nodes[i].node.path->0@),
    ) {
        Err(ProjectError::TreeOwner(i as usize))
    } else {
        tree_owners_checked(loaded, files, nodes, i + 1)
    }
}

/// Files can stand for the targets from `i` on.
pub open spec fn tree_names_checked(targets: Seq<PathModel>, i: int) -> Result<(), ProjectError>
    decreases targets.len() - i,
{
    if i < 0 || i >= targets.len() {
        Ok(())
    } else if file_target_checked(targets[i]) is Err {
        Err(ProjectError::TreeTarget(i as usize, file_target_checked(targets[i])->Err_0))
    } else {
        tree_names_checked(targets, i + 1)
    }
}

/// The first pair of targets, from `left` with `right` on, that overlap.
pub open spec fn trees_apart(targets: Seq<PathModel>, left: int, right: int) -> Result<(), ProjectError>
    decreases targets.len() - left, targets.len() - right,
{
    if left < 0 || left >= targets.len() {
        Ok(())
    } else if right >= targets.len() {
        trees_apart(targets, left + 1, left + 2)
    } else if targets_overlap(targets[left], targets[right]) {
        Err(ProjectError::TreeOverlap(left as usize, right as usize))
    } else {
        trees_apart(targets, left, right + 1)
    }
}

/// What a project's tree says.
pub open spec fn tree_checked(loaded: LoadedProject, files: Map<PathParts, FactModel>) -> Result<(), ProjectError> {
    let targets = tree_targets(loaded.project);
    match tree_owners_checked(loaded, files, all_tree_nodes(loaded.project), 0) {
        Err(e) => Err(e),
        Ok(()) => match tree_names_checked(targets, 0) {
            Err(e) => Err(e),
            Ok(()) => trees_apart(targets, 0, 1),
        },
    }
}

/// Checks a project's tree.
pub fn validate_tree_targets(loaded: &LoadedProject, files: &Files, targets: &Vec<ProjectTarget>) -> (r: Result<
    (),
    ProjectError,
>)
    requires
        target_views(targets@) == tree_targets(loaded.project),
    ensures
        r == tree_checked(*loaded, files@),
{
    let nodes = project_tree_nodes(&loaded.project.tree);
    let ghost all = tree_views(nodes@);
    let ghost wanted = target_views(targets@);
    assert(all.len() == nodes@.len());
    assert(wanted.len() == targets@.len());
    let mut i: usize = 0;
    while i < nodes.len()
        invariant
            i <= nodes.len(),
            all == tree_views(nodes@),
            all == all_tree_nodes(loaded.project),
            tree_owners_checked(*loaded, files@, all, 0) == tree_owners_checked(*loaded, files@, all, i as int),
        decreases nodes.len() - i,
    {
        assert(all[i as int] == nodes@[i as int]@);
        match &nodes[i].node.path {
            Some(source) => {
                let full = loaded.root.join(source);
                if !validate_direct_owner_source(&full, files) {
                    return Err(ProjectError::TreeOwner(i));
                }
            },
            None => {},
        }
        i += 1;
    }
    let mut k: usize = 0;
    while k < targets.len()
        invariant
            k <= targets.len(),
            wanted == target_views(targets@),
            tree_names_checked(wanted, 0) == tree_names_checked(wanted, k as int),
            tree_checked(*loaded, files@) == match tree_names_checked(wanted, 0) {
                Err(e) => Err(e),
                Ok(()) => trees_apart(wanted, 0, 1),
            },
        decreases targets.len() - k,
    {
        assert(wanted[k as int] == targets@[k as int]@);
        match validate_filesystem_target(&targets[k]) {
            Err(e) => {
                return Err(ProjectError::TreeTarget(k, e));
            },
            Ok(()) => {},
        }
        k += 1;
    }
    let mut left: usize = 0;
    while left < targets.len()
        invariant
            left <= targets.len(),
            wanted == target_views(targets@),
            wanted.len() == targets@.len(),
            tree_checked(*loaded, files@) == trees_apart(wanted, left as int, left + 1),
        decreases targets.len() - left,
    {
        let mut right: usize = left + 1;
        while right < targets.len()
            invariant
                left < right <= targets.len(),
                wanted == target_views(targets@),
                wanted.len() == targets@.len(),
                tree_checked(*loaded, files@) == trees_apart(wanted, left as int, right as int),
            decreases targets.len() - right,
        {
            assert(wanted[left as int] == targets@[left as int]@ && wanted[right as int] == targets@[right as int]@);
            if instance_target_overlaps(&targets[left], &targets[right]) {
                return Err(ProjectError::TreeOverlap(left, right));
            }
            right += 1;
        }
        left += 1;
    }
    Ok(())
}

/// The first pair of a tree target and a mount, from some pair on, that overlap.
pub open spec fn owners_apart(targets: Seq<PathModel>, mounts: Seq<ProjectMount>, i: int, j: int) -> Result<(), ProjectError>
    decreases targets.len() - i, mounts.len() - j,
{
    if i < 0 || j < 0 || i >= targets.len() {
        Ok(())
    } else if j >= mounts.len() {
        owners_apart(targets, mounts, i + 1, 0)
    } else if targets_overlap(targets[i], mounts[j].target@) {
        Err(ProjectError::OwnerOverlap(i as usize, j as usize))
    } else {
        owners_apart(targets, mounts, i, j + 1)
    }
}

/// Checks that no tree target overlaps a mount.
pub fn validate_owner_target_overlaps(targets: &Vec<ProjectTarget>, mounts: &Vec<ProjectMount>) -> (r: Result<
    (),
    ProjectError,
>)
    ensures
        r == owners_apart(target_views(targets@), mounts@, 0, 0),
{
    let ghost wanted = target_views(targets@);
    assert(wanted.len() == targets@.len());
    let mut i: usize = 0;
    while i < targets.len()
        invariant
            i <= targets.len(),
            wanted == target_views(targets@),
            wanted.len() == targets@.len(),
            owners_apart(wanted, mounts@, 0, 0) == owners_apart(wanted, mounts@, i as int, 0),
        decreases targets.len() - i,
    {
        let mut j: usize = 0;
        while j < mounts.len()
            invariant
                i < targets.len(),
                j <= mounts.len(),
                wanted == target_views(targets@),
                wanted.len() == targets@.len(),
                owners_apart(wanted, mounts@, 0, 0) == owners_apart(wanted, mounts@, i as int, j as int),
            decreases mounts.len() - j,
        {
            assert(wanted[i as int] == targets@[i as int]@);
            if instance_target_overlaps(&targets[i], &mounts[j].target) {
                return Err(ProjectError::OwnerOverlap(i, j));
            }
            j += 1;
        }
        i += 1;
    }
    Ok(())
}

/// What a format of adapters can do.
#[derive(Clone, Copy)]
pub struct FormatFact {
    pub model_json: bool,
    pub nested_project: bool,
    pub reversible: bool,
    pub generates_module: bool,
}

/// What is known of an adapter: its format, if there is one, and the file that it writes, if it does.
pub struct AdapterFact {
    pub format: Option<FormatFact>,
    pub output: Option<FilePath>,
}

/// The first adapter from `j` on, among those before `i`, whose target overlaps that of adapter `i`.
pub open spec fn adapters_apart(adapters: Seq<AdapterSpec>, i: int, j: int) -> Result<(), ProjectError>
    decreases i - j,
{
    if j < 0 || j >= i {
        Ok(())
    } else if targets_overlap(adapters[j].target@, adapters[i].target@) {
        Err(ProjectError::AdapterOverlap(j as usize, i as usize))
    } else {
        adapters_apart(adapters, i, j + 1)
    }
}

/// Some tree target or mount overlaps a target.
pub open spec fn is_owned(targets: Seq<PathModel>, mounts: Seq<ProjectMount>, target: PathModel) -> bool {
    ||| exists|j: int| 0 <= j < targets.len() && targets_overlap(#[trigger] targets[j], target)
    ||| exists|j: int| 0 <= j < mounts.len() && targets_overlap((#[trigger] mounts[j]).target@, target)
}

/// An adapter before `i` writes the file with a key.
pub open spec fn output_taken(files: Map<PathParts, FactModel>, facts: Seq<AdapterFact>, i: int, key: Seq<char>) -> bool {
    exists|j: int|
        0 <= j < i && j < facts.len() && (#[trigger] facts[j]).output is Some && key_at(files, facts[j].output->0@) == key
}

/// An adapter reads the file with a key.
pub open spec fn source_taken(root: PathParts, files: Map<PathParts, FactModel>, adapters: Seq<AdapterSpec>, key: Seq<char>) -> bool {
    exists|j: int|
        0 <= j < adapters.len() && key_at(files, joined_path(root, (#[trigger] adapters[j]).source@)) == key
}

/// An adapter before `i` also carries content back into the file of adapter `i`.
pub open spec fn reverse_shared(root: PathParts, adapters: Seq<AdapterSpec>, i: int) -> bool {
    exists|j: int|
        0 <= j < i && (#[trigger] adapters[j]).direction != AdapterDirection::ToProject && joined_path(
            root,
            adapters[j].source@,
        ) == joined_path(root, adapters[i].source@)
}

/// One adapter, given those before it and the other owners.
pub open spec fn adapter_checked(
    loaded: LoadedProject,
    files: Map<PathParts, FactModel>,
    facts: Seq<AdapterFact>,
    i: int,
) -> Result<(), ProjectError> {
    let adapters = loaded.project.adapters@;
    let adapter = adapters[i];
    let n = i as usize;
    if portable_path(adapter.source@) is Err {
        Err(ProjectError::AdapterSource(n, portable_path(adapter.source@)->Err_0))
    } else if target_checked(adapter.target@) is Err {
        Err(ProjectError::AdapterTarget(n, target_checked(adapter.target@)->Err_0))
    } else if file_target_checked(adapter.target@) is Err {
        Err(ProjectError::AdapterTarget(n, file_target_checked(adapter.target@)->Err_0))
    } else if adapters_apart(adapters, i, 0) is Err {
        adapters_apart(adapters, i, 0)
    } else if is_owned(tree_targets(loaded.project), loaded.project.mounts@, adapter.target@) {
        Err(ProjectError::AdapterOwned(n))
    } else if adapter.output is Some && portable_path(adapter.output->0@) is Err {
        Err(ProjectError::AdapterOutput(n, portable_path(adapter.output->0@)->Err_0))
    } else {
        match facts[i].format {
            None => Err(ProjectError::AdapterFormat(n)),
            Some(format) => if facts[i].output is Some && output_taken(
                files,
                facts,
                i,
                key_at(files, facts[i].output->0@),
            ) {
                Err(ProjectError::OutputTwice(n))
            } else if facts[i].output is Some && source_taken(
                loaded.root@,
                files,
                adapters,
                key_at(files, facts[i].output->0@),
            ) {
                Err(ProjectError::OutputIsSource(n))
            } else if adapter.direction != AdapterDirection::ToProject && !format.reversible {
                Err(ProjectError::NotReversible(n))
            } else if format.model_json && adapter.target@.segments.len() < 2 {
                Err(ProjectError::ModelTarget(n))
            } else if adapter.direction == AdapterDirection::ToProject && format.generates_module && !adapter.generated {
                Err(ProjectError::NotGenerated(n))
            } else if adapter.direction != AdapterDirection::ToProject && reverse_shared(loaded.root@, adapters, i) {
                Err(ProjectError::SharedSource(n))
            } else {
                Ok(())
            },
        }
    }
}

/// The adapters from `i` on.
pub open spec fn adapters_checked(
    loaded: LoadedProject,
    files: Map<PathParts, FactModel>,
    facts: Seq<AdapterFact>,
    i: int,
) -> Result<(), ProjectError>
    decreases loaded.project.adapters@.len() - i,
{
    if i < 0 || i >= loaded.project.adapters@.len() {
        Ok(())
    } else {
        match adapter_checked(loaded, files, facts, i) {
            Err(e) => Err(e),
            Ok(()) => adapters_checked(loaded, files, facts, i + 1),
        }
    }
}

fn target_owned(targets: &Vec<ProjectTarget>, mounts: &Vec<ProjectMount>, target: &ProjectTarget) -> (r: bool)
    ensures
        r == is_owned(target_views(targets@), mounts@, target@),
{
    let ghost wanted = target_views(targets@);
    assert(wanted.len() == targets@.len());
    let mut i: usize = 0;
    while i < targets.len()
        invariant
            i <= targets.len(),
            wanted == target_views(targets@),
            wanted.len() == targets@.len(),
            forall|j: int| 0 <= j < i ==> !targets_overlap(#[trigger] wanted[j], target@),
        decreases targets.len() - i,
    {
        assert(wanted[i as int] == targets@[i as int]@);
        if instance_target_overlaps(&targets[i], target) {
            return true;
        }
        i += 1;
    }
    let mut k: usize = 0;
    while k < mounts.len()
        invariant
            k <= mounts.len(),
            forall|j: int| 0 <= j < k ==> !targets_overlap((#[trigger] mounts@[j]).target@, target@),
        decreases mounts.len() - k,
    {
        if instance_target_overlaps(&mounts[k].target, target) {
            return true;
        }
        k += 1;
    }
    false
}

fn is_output_taken(files: &Files, facts: &Vec<AdapterFact>, i: usize, key: &str) -> (r: bool)
    requires
        i <= facts@.len(),
    ensures
        r == output_taken(files@, facts@, i as int, key@),
{
    let mut j: usize = 0;
    while j < i
        invariant
            j <= i <= facts@.len(),
            forall|k: int|
                0 <= k < j && (#[trigger] facts@[k]).output is Some ==> key_at(files@, facts@[k].output->0@) != key@,
        decreases i - j,
    {
        match &facts[j].output {
            Some(output) => {
                let other = files.key(output);
                if same(&other, key) {
                    assert(facts@[j as int].output is Some);
                    return true;
                }
            },
            None => {},
        }
        j += 1;
    }
    false
}

fn is_source_taken(root: &FilePath, files: &Files, adapters: &Vec<AdapterSpec>, key: &str) -> (r: bool)
    ensures
        r == source_taken(root@, files@, adapters@, key@),
{
    let mut j: usize = 0;
    while j < adapters.len()
        invariant
            j <= adapters.len(),
            forall|k: int|
                0 <= k < j ==> key_at(files@, joined_path(root@, (#[trigger] adapters@[k]).source@)) != key@,
        decreases adapters.len() - j,
    {
        let source = root.join(&adapters[j].source);
        let other = files.key(&source);
        if same(&other, key) {
            assert(key_at(files@, joined_path(root@, adapters@[j as int].source@)) == key@);
            return true;
        }
        j += 1;
    }
    false
}

fn is_reverse_shared(root: &FilePath, adapters: &Vec<AdapterSpec>, i: usize) -> (r: bool)
    requires
        i < adapters@.len(),
    ensures
        r == reverse_shared(root@, adapters@, i as int),
{
    let own = root.join(&adapters[i].source);
    let mut j: usize = 0;
    while j < i
        invariant
            j <= i < adapters@.len(),
            own@ == joined_path(root@, adapters@[i as int].source@),
            forall|k: int|
                0 <= k < j && (#[trigger] adapters@[k]).direction != AdapterDirection::ToProject ==> joined_path(
                    root@,
                    adapters@[k].source@,
                ) != own@,
        decreases i - j,
    {
        if adapters[j].direction != AdapterDirection::ToProject {
            let other = root.join(&adapters[j].source);
            if other.is_same(&own) {
                assert(adapters@[j as int].direction != AdapterDirection::ToProject);
                return true;
            }
        }
        j += 1;
    }
    false
}

fn check_adapter(
    loaded: &LoadedProject,
    files: &Files,
    facts: &Vec<AdapterFact>,
    targets: &Vec<ProjectTarget>,
    i: usize,
) -> (r: Result<(), ProjectError>)
    requires
        i < loaded.project.adapters@.len(),
        facts@.len() == loaded.project.adapters@.len(),
        target_views(targets@) == tree_targets(loaded.project),
    ensures
        r == adapter_checked(*loaded, files@, facts@, i as int),
{
    let adapter = &loaded.project.adapters[i];
    match validate_relative_portable_path(&adapter.source) {
        Err(e) => {
            return Err(ProjectError::AdapterSource(i, e));
        },
        Ok(()) => {},
    }
    match validate_instance_target(&adapter.target) {
        Err(e) => {
            return Err(ProjectError::AdapterTarget(i, e));
        },
        Ok(()) => {},
    }
    match validate_filesystem_target(&adapter.target) {
        Err(e) => {
            return Err(ProjectError::AdapterTarget(i, e));
        },
        Ok(()) => {},
    }
    let ghost adapters = loaded.project.adapters@;
    let mut j: usize = 0;
    while j < i
        invariant
            j <= i < loaded.project.adapters@.len(),
            adapters == loaded.project.adapters@,
            *adapter == adapters[i as int],
            adapters_apart(adapters, i as int, 0) == adapters_apart(adapters, i as int, j as int),
            adapters_apart(adapters, i as int, 0) is Err ==> adapter_checked(*loaded, files@, facts@, i as int)
                == adapters_apart(adapters, i as int, 0),
        decreases i - j,
    {
        if instance_target_overlaps(&loaded.project.adapters[j].target, &adapter.target) {
            return Err(ProjectError::AdapterOverlap(j, i));
        }
        j += 1;
    }
    if target_owned(targets, &loaded.project.mounts, &adapter.target) {
        return Err(ProjectError::AdapterOwned(i));
    }
    match &adapter.output {
        Some(output) => match validate_relative_portable_path(output) {
            Err(e) => {
                return Err(ProjectError::AdapterOutput(i, e));
            },
            Ok(()) => {},
        },
        None => {},
    }
    let format = match facts[i].format {
        Some(format) => format,
        None => {
            return Err(ProjectError::AdapterFormat(i));
        },
    };
    match &facts[i].output {
        Some(output) => {
            let key = files.key(output);
            if is_output_taken(files, facts, i, &key) {
                return Err(ProjectError::OutputTwice(i));
            }
            if is_source_taken(&loaded.root, files, &loaded.project.adapters, &key) {
                return Err(ProjectError::OutputIsSource(i));
            }
        },
        None => {},
    }
    if adapter.direction != AdapterDirection::ToProject && !format.reversible {
        return Err(ProjectError::NotReversible(i));
    }
    let segments = adapter.target.segments();
    assert(texts(segments@).len() == segments@.len());
    if format.model_json && segments.len() < 2 {
        return Err(ProjectError::ModelTarget(i));
    }
    if adapter.direction == AdapterDirection::ToProject && format.generates_module && !adapter.generated {
        return Err(ProjectError::NotGenerated(i));
    }
    if adapter.direction != AdapterDirection::ToProject && is_reverse_shared(&loaded.root, &loaded.project.adapters, i) {
        return Err(ProjectError::SharedSource(i));
    }
    Ok(())
}

/// Checks the adapters of a project.
pub fn validate_adapters(
    loaded: &LoadedProject,
    files: &Files,
    facts: &Vec<AdapterFact>,
    targets: &Vec<ProjectTarget>,
) -> (r: Result<(), ProjectError>)
    requires
        facts@.len() == loaded.project.adapters@.len(),
        target_views(targets@) == tree_targets(loaded.project),
    ensures
        r == adapters_checked(*loaded, files@, facts@, 0),
{
    let mut i: usize = 0;
    while i < loaded.project.adapters.len()
        invariant
            i <= loaded.project.adapters.len(),
            facts@.len() == loaded.project.adapters@.len(),
            target_views(targets@) == tree_targets(loaded.project),
            adapters_checked(*loaded, files@, facts@, 0) == adapters_checked(*loaded, files@, facts@, i as int),
        decreases loaded.project.adapters.len() - i,
    {
        match check_adapter(loaded, files, facts, targets, i) {
            Err(e) => {
                return Err(e);
            },
            Ok(()) => {},
        }
        i += 1;
    }
    Ok(())
}

/// Whether the globs of a project can be used: those of rules, what rules leave out, ignore lines and
/// filters.
pub struct GlobAnswers {
    pub patterns: Vec<bool>,
    pub excludes: Vec<bool>,
    pub ignores: Vec<bool>,
    pub filters: Vec<bool>,
}

/// There is an answer for every glob of a project.
pub open spec fn answers_fit(project: ReniumProject, a: GlobAnswers) -> bool {
    &&& a.patterns@.len() == project.sync_rules@.len()
    &&& a.excludes@.len() == project.sync_rules@.len()
    &&& a.ignores@.len() == project.glob_ignore_paths@.len()
    &&& a.filters@.len() == project.filters@.len()
}

/// `answer` may be whether a glob can be used.
pub open spec fn is_usable(pattern: Seq<char>, answer: bool) -> bool {
    portable_glob(pattern, Seq::empty()) ==> answer == (glob_match(pattern, Seq::empty()) is Some)
}

/// The answers are those of the globs.
pub open spec fn are_answers(project: ReniumProject, a: GlobAnswers) -> bool {
    &&& answers_fit(project, a)
    &&& forall|i: int| 0 <= i < a.patterns@.len() ==> is_usable(project.sync_rules@[i].pattern@, #[trigger] a.patterns@[i])
    &&& forall|i: int|
        0 <= i < a.excludes@.len() && project.sync_rules@[i].exclude is Some ==> is_usable(
            project.sync_rules@[i].exclude->0@,
            #[trigger] a.excludes@[i],
        )
    &&& forall|i: int|
        0 <= i < a.ignores@.len() ==> is_usable(
            ignore_pattern(project.glob_ignore_paths@[i]@),
            #[trigger] a.ignores@[i],
        )
    &&& forall|i: int|
        0 <= i < a.filters@.len() && project.filters@[i].glob is Some ==> is_usable(
            project.filters@[i].glob->0@,
            #[trigger] a.filters@[i],
        )
}

fn glob_usable(pattern: &str) -> (r: bool)
    ensures
        is_usable(pattern@, r),
{
    proof {
        reveal_strlit("");
        assert(""@ =~= Seq::<char>::empty());
    }
    match_glob(pattern, "").is_some()
}

/// Asks which globs of a project can be used.
pub fn ask_globs(project: &ReniumProject) -> (r: GlobAnswers)
    ensures
        are_answers(*project, r),
{
    let mut patterns: Vec<bool> = Vec::new();
    let mut excludes: Vec<bool> = Vec::new();
    let mut i: usize = 0;
    while i < project.sync_rules.len()
        invariant
            i <= project.sync_rules.len(),
            patterns@.len() == i,
            excludes@.len() == i,
            forall|j: int| 0 <= j < i ==> is_usable(project.sync_rules@[j].pattern@, #[trigger] patterns@[j]),
            forall|j: int|
                0 <= j < i && project.sync_rules@[j].exclude is Some ==> is_usable(
                    project.sync_rules@[j].exclude->0@,
                    #[trigger] excludes@[j],
                ),
        decreases project.sync_rules.len() - i,
    {
        let usable = glob_usable(&project.sync_rules[i].pattern);
        patterns.push(usable);
        let other = match &project.sync_rules[i].exclude {
            Some(exclude) => glob_usable(exclude),
            None => true,
        };
        excludes.push(other);
        i += 1;
    }
    let mut ignores: Vec<bool> = Vec::new();
    let mut k: usize = 0;
    while k < project.glob_ignore_paths.len()
        invariant
            k <= project.glob_ignore_paths.len(),
            ignores@.len() == k,
            forall|j: int|
                0 <= j < k ==> is_usable(ignore_pattern(project.glob_ignore_paths@[j]@), #[trigger] ignores@[j]),
        decreases project.glob_ignore_paths.len() - k,
    {
        let usable = match ignore_glob_pattern(&project.glob_ignore_paths[k]) {
            Some(pattern) => glob_usable(&pattern),
            None => {
                let none = "";
                proof {
                    reveal_strlit("");
                    assert(none@ =~= ignore_pattern(project.glob_ignore_paths@[k as int]@));
                }
                glob_usable(none)
            },
        };
        ignores.push(usable);
        k += 1;
    }
    let mut filters: Vec<bool> = Vec::new();
    let mut f: usize = 0;
    while f < project.filters.len()
        invariant
            f <= project.filters.len(),
            filters@.len() == f,
            forall|j: int|
                0 <= j < f && project.filters@[j].glob is Some ==> is_usable(
                    project.filters@[j].glob->0@,
                    #[trigger] filters@[j],
                ),
        decreases project.filters.len() - f,
    {
        let usable = match &project.filters[f].glob {
            Some(pattern) => glob_usable(pattern),
            None => true,
        };
        filters.push(usable);
        f += 1;
    }
    GlobAnswers { patterns, excludes, ignores, filters }
}

/// The sync rules from `i` on.
pub open spec fn rules_checked(project: ReniumProject, formats: Seq<Seq<char>>, a: GlobAnswers, i: int) -> Result<
    (),
    ProjectError,
>
    decreases project.sync_rules@.len() - i,
{
    if i < 0 || i >= project.sync_rules@.len() {
        Ok(())
    } else {
        let rule = project.sync_rules@[i];
        if !a.patterns@[i] {
            Err(ProjectError::RuleGlob(i as usize))
        } else if rule.exclude is Some && !a.excludes@[i] {
            Err(ProjectError::RuleExclude(i as usize))
        } else if !middleware_known(rule.middleware@, formats) {
            Err(ProjectError::RuleMiddleware(i as usize))
        } else if rule.suffix is Some && (rule.suffix->0@.len() == 0 || !file_chars(rule.suffix->0@)) {
            Err(ProjectError::RuleSuffix(i as usize))
        } else {
            rules_checked(project, formats, a, i + 1)
        }
    }
}

/// The ignore lines from `i` on.
pub open spec fn ignores_checked(project: ReniumProject, a: GlobAnswers, i: int) -> Result<(), ProjectError>
    decreases project.glob_ignore_paths@.len() - i,
{
    if i < 0 || i >= project.glob_ignore_paths@.len() {
        Ok(())
    } else if ignore_pattern(project.glob_ignore_paths@[i]@).len() == 0 {
        Err(ProjectError::IgnoreEmpty(i as usize))
    } else if !a.ignores@[i] {
        Err(ProjectError::IgnoreGlob(i as usize))
    } else {
        ignores_checked(project, a, i + 1)
    }
}

/// A filter that nothing can match.
pub open spec fn has_no_condition(rule: FilterRule) -> bool {
    rule.glob is None && rule.name is None && rule.class is None && rule.tag is None && rule.attribute is None
        && rule.property is None && rule.id is None
}

/// The filters from `i` on.
pub open spec fn filters_checked(project: ReniumProject, a: GlobAnswers, i: int) -> Result<(), ProjectError>
    decreases project.filters@.len() - i,
{
    if i < 0 || i >= project.filters@.len() {
        Ok(())
    } else if project.filters@[i].glob is Some && !a.filters@[i] {
        Err(ProjectError::FilterGlob(i as usize))
    } else if has_no_condition(project.filters@[i]) {
        Err(ProjectError::FilterEmpty(i as usize))
    } else {
        filters_checked(project, a, i + 1)
    }
}

/// The rules, ignore lines and filters of a project.
pub open spec fn patterns_checked(project: ReniumProject, formats: Seq<Seq<char>>, a: GlobAnswers) -> Result<(), ProjectError> {
    match rules_checked(project, formats, a, 0) {
        Err(e) => Err(e),
        Ok(()) => match ignores_checked(project, a, 0) {
            Err(e) => Err(e),
            Ok(()) => filters_checked(project, a, 0),
        },
    }
}

/// Checks the rules, ignore lines and filters of a project, given which of their globs can be used.
pub fn validate_sync_rules_and_filters(project: &ReniumProject, formats: &Vec<String>, a: &GlobAnswers) -> (r: Result<
    (),
    ProjectError,
>)
    requires
        answers_fit(*project, *a),
    ensures
        r == patterns_checked(*project, texts(formats@), *a),
{
    let ghost known = texts(formats@);
    let mut i: usize = 0;
    while i < project.sync_rules.len()
        invariant
            i <= project.sync_rules.len(),
            answers_fit(*project, *a),
            known == texts(formats@),
            rules_checked(*project, known, *a, 0) == rules_checked(*project, known, *a, i as int),
        decreases project.sync_rules.len() - i,
    {
        let rule = &project.sync_rules[i];
        if !a.patterns[i] {
            return Err(ProjectError::RuleGlob(i));
        }
        if rule.exclude.is_some() && !a.excludes[i] {
            return Err(ProjectError::RuleExclude(i));
        }
        if !validate_sync_middleware(&rule.middleware, formats) {
            return Err(ProjectError::RuleMiddleware(i));
        }
        match &rule.suffix {
            Some(suffix) => {
                if suffix.as_str().is_empty() || !has_file_chars(suffix) {
                    return Err(ProjectError::RuleSuffix(i));
                }
            },
            None => {},
        }
        i += 1;
    }
    let mut k: usize = 0;
    while k < project.glob_ignore_paths.len()
        invariant
            k <= project.glob_ignore_paths.len(),
            answers_fit(*project, *a),
            known == texts(formats@),
            rules_checked(*project, known, *a, 0) is Ok,
            ignores_checked(*project, *a, 0) == ignores_checked(*project, *a, k as int),
        decreases project.glob_ignore_paths.len() - k,
    {
        if ignore_glob_pattern(&project.glob_ignore_paths[k]).is_none() {
            return Err(ProjectError::IgnoreEmpty(k));
        }
        if !a.ignores[k] {
            return Err(ProjectError::IgnoreGlob(k));
        }
        k += 1;
    }
    let mut f: usize = 0;
    while f < project.filters.len()
        invariant
            f <= project.filters.len(),
            answers_fit(*project, *a),
            known == texts(formats@),
            patterns_checked(*project, known, *a) == filters_checked(*project, *a, f as int),
        decreases project.filters.len() - f,
    {
        let rule = &project.filters[f];
        if rule.glob.is_some() && !a.filters[f] {
            return Err(ProjectError::FilterGlob(f));
        }
        if rule.glob.is_none() && rule.name.is_none() && rule.class.is_none() && rule.tag.is_none() && rule.attribute.is_none()
            && rule.property.is_none() && rule.id.is_none() {
            return Err(ProjectError::FilterEmpty(f));
        }
        f += 1;
    }
    Ok(())
}

/// A target that some part of a project other than its source root owns.
pub open spec fn is_explicit(project: ReniumProject, target: Seq<Seq<char>>) -> bool {
    ||| exists|i: int| 0 <= i < tree_targets(project).len() && (#[trigger] tree_targets(project)[i]).segments == target
    ||| exists|i: int| 0 <= i < project.mounts@.len() && (#[trigger] project.mounts@[i]).target@.segments == target
    ||| exists|i: int|
        0 <= i < project.adapters@.len() && (#[trigger] project.adapters@[i]).direction != AdapterDirection::FromProject
            && project.adapters@[i].target@.segments == target
}

/// `r` holds the explicit targets of a project in order.
pub open spec fn are_explicit(project: ReniumProject, r: Seq<Seq<Seq<char>>>) -> bool {
    &&& crate::order::ascending::<PathKey>(r)
    &&& forall|k: Seq<Seq<char>>| #[trigger] r.contains(k) <==> is_explicit(project, k)
}

/// The explicit targets of a project in order.
pub open spec fn explicit_targets(project: ReniumProject) -> Seq<Seq<Seq<char>>> {
    choose|r: Seq<Seq<Seq<char>>>| are_explicit(project, r)
}

fn collect_explicit(project: &ReniumProject, targets: &Vec<ProjectTarget>) -> (r: Vec<PathKey>)
    requires
        target_views(targets@) == tree_targets(*project),
    ensures
        key_views(r@) == explicit_targets(*project),
{
    let mut set: SortedSet<PathKey> = SortedSet::new();
    let ghost wanted = target_views(targets@);
    assert(wanted.len() == targets@.len());
    let mut i: usize = 0;
    while i < targets.len()
        invariant
            i <= targets.len(),
            wanted == target_views(targets@),
            wanted.len() == targets@.len(),
            forall|k: Seq<Seq<char>>| #[trigger]
                set@.contains(k) <==> exists|j: int| 0 <= j < i && (#[trigger] wanted[j]).segments == k,
        decreases targets.len() - i,
    {
        let ghost before = set@;
        assert(wanted[i as int] == targets@[i as int]@);
        set.insert(PathKey { segments: targets[i].segments() });
        assert forall|k: Seq<Seq<char>>| #[trigger]
            set@.contains(k) <==> exists|j: int| 0 <= j < i + 1 && (#[trigger] wanted[j]).segments == k by {
            assert(before.contains(k) <==> exists|j: int| 0 <= j < i && (#[trigger] wanted[j]).segments == k);
            if k == wanted[i as int].segments {
                assert(wanted[i as int].segments == k);
            }
        }
        i += 1;
    }
    let ghost first = set@;
    let ghost mounts = project.mounts@;
    let mut m: usize = 0;
    while m < project.mounts.len()
        invariant
            m <= project.mounts.len(),
            mounts == project.mounts@,
            forall|k: Seq<Seq<char>>| #[trigger]
                set@.contains(k) <==> first.contains(k) || exists|j: int|
                    0 <= j < m && (#[trigger] mounts[j]).target@.segments == k,
        decreases project.mounts.len() - m,
    {
        let ghost before = set@;
        set.insert(PathKey { segments: project.mounts[m].target.segments() });
        assert forall|k: Seq<Seq<char>>| #[trigger]
            set@.contains(k) <==> first.contains(k) || exists|j: int|
                0 <= j < m + 1 && (#[trigger] mounts[j]).target@.segments == k by {
            assert(before.contains(k) <==> first.contains(k) || exists|j: int|
                0 <= j < m && (#[trigger] mounts[j]).target@.segments == k);
            if k == mounts[m as int].target@.segments {
                assert(mounts[m as int].target@.segments == k);
            }
        }
        m += 1;
    }
    let ghost second = set@;
    let ghost adapters = project.adapters@;
    let mut a: usize = 0;
    while a < project.adapters.len()
        invariant
            a <= project.adapters.len(),
            adapters == project.adapters@,
            forall|k: Seq<Seq<char>>| #[trigger]
                set@.contains(k) <==> second.contains(k) || exists|j: int|
                    0 <= j < a && (#[trigger] adapters[j]).direction != AdapterDirection::FromProject
                        && adapters[j].target@.segments == k,
        decreases project.adapters.len() - a,
    {
        let ghost before = set@;
        if project.adapters[a].direction != AdapterDirection::FromProject {
            set.insert(PathKey { segments: project.adapters[a].target.segments() });
        }
        assert forall|k: Seq<Seq<char>>| #[trigger]
            set@.contains(k) <==> second.contains(k) || exists|j: int|
                0 <= j < a + 1 && (#[trigger] adapters[j]).direction != AdapterDirection::FromProject
                    && adapters[j].target@.segments == k by {
            assert(before.contains(k) <==> second.contains(k) || exists|j: int|
                0 <= j < a && (#[trigger] adapters[j]).direction != AdapterDirection::FromProject
                    && adapters[j].target@.segments == k);
            if adapters[a as int].direction != AdapterDirection::FromProject && k == adapters[a as int].target@.segments {
                assert(adapters[a as int].target@.segments == k);
            }
        }
        a += 1;
    }
    let r = set.into_items();
    proof {
        let found = key_views(r@);
        assert forall|k: Seq<Seq<char>>| #[trigger] found.contains(k) <==> is_explicit(*project, k) by {
            assert(second.contains(k) <==> first.contains(k) || exists|j: int|
                0 <= j < mounts.len() && (#[trigger] mounts[j]).target@.segments == k);
            assert(first.contains(k) <==> exists|j: int| 0 <= j < wanted.len() && (#[trigger] wanted[j]).segments == k);
        }
        assert(are_explicit(*project, found));
        let other = explicit_targets(*project);
        assert(are_explicit(*project, other));
        assert forall|k: Seq<Seq<char>>| #[trigger] other.contains(k) <==> found.contains(k) by {
            assert(is_explicit(*project, k) <==> found.contains(k));
        }
        crate::order::law_order_settles_the_list::<PathKey>(other, found);
    }
    r
}

/// The targets from `i` on are not yet content of the source root.
pub open spec fn explicit_checked(
    documents: Map<Seq<char>, Seq<InstanceModel>>,
    targets: Seq<Seq<Seq<char>>>,
    i: int,
) -> Result<(), ProjectError>
    decreases targets.len() - i,
{
    if i < 0 || i >= targets.len() {
        Ok(())
    } else if targets[i].len() == 0 || !documents.dom().contains(targets[i][0]) {
        explicit_checked(documents, targets, i + 1)
    } else {
        match document_target(documents[targets[i][0]], targets[i], Seq::empty()) {
            Err(_) => Err(ProjectError::AmbiguousOwner),
            Ok(Some(_)) => Err(ProjectError::ExplicitOwner),
            Ok(None) => explicit_checked(documents, targets, i + 1),
        }
    }
}

/// Checks that nothing is owned both explicitly and by the source root, given the documents of the
/// services that have a directory there.
pub fn validate_explicit_source_owners(
    project: &ReniumProject,
    targets: &Vec<ProjectTarget>,
    documents: &Table<String, SettingsDocument>,
) -> (r: Result<(), ProjectError>)
    requires
        target_views(targets@) == tree_targets(*project),
    ensures
        r == explicit_checked(documents@, explicit_targets(*project), 0),
{
    let explicit = collect_explicit(project, targets);
    let ghost all = key_views(explicit@);
    assert(all.len() == explicit@.len());
    let none: Vec<usize> = Vec::new();
    let mut i: usize = 0;
    while i < explicit.len()
        invariant
            i <= explicit.len(),
            none@.len() == 0,
            all == key_views(explicit@),
            all == explicit_targets(*project),
            explicit_checked(documents@, all, 0) == explicit_checked(documents@, all, i as int),
        decreases explicit.len() - i,
    {
        assert(all[i as int] == explicit@[i as int]@);
        let target = &explicit[i].segments;
        assert(all[i as int].len() == target@.len());
        if target.len() > 0 {
            assert(all[i as int][0] == target@[0]@);
            match documents.get(&target[0]) {
                Some(document) => {
                    assert(none@ =~= Seq::<usize>::empty());
                    match find_document_target_optional_with_ordinals(document, target, &none) {
                        Err(_) => {
                            return Err(ProjectError::AmbiguousOwner);
                        },
                        Ok(Some(_)) => {
                            return Err(ProjectError::ExplicitOwner);
                        },
                        Ok(None) => {},
                    }
                },
                None => {},
            }
        }
        i += 1;
    }
    Ok(())
}

/// One key is the other, or that of a directory above it.
pub open spec fn key_contains(parent: Seq<char>, child: Seq<char>) -> bool {
    child == parent || (parent + "/"@).is_prefix_of(child)
}

/// Whether one key is the other, or that of a directory above it.
pub fn projection_path_contains(parent: &str, child: &str) -> (r: bool)
    ensures
        r == key_contains(parent@, child@),
{
    if same(parent, child) {
        return true;
    }
    let below = joined(parent, "/");
    starts_with(child, &below)
}

/// The keys of the first `n` tree sources.
pub open spec fn tree_source_keys(loaded: LoadedProject, files: Map<PathParts, FactModel>, nodes: Seq<TreeNodeModel>, n: nat) -> Seq<
    Seq<char>,
>
    decreases n,
{
    if n == 0 {
        Seq::empty()
    } else {
        let before = tree_source_keys(loaded, files, nodes, (n - 1) as nat);
        match nodes[n - 1].node.path {
            Some(path) => before.push(key_at(files, joined_path(loaded.root@, path@))),
            None => before,
        }
    }
}

/// The keys of the sources of the first `n` mounts that may be written.
pub open spec fn mount_source_keys(loaded: LoadedProject, files: Map<PathParts, FactModel>, n: nat) -> Seq<Seq<char>>
    decreases n,
{
    if n == 0 {
        Seq::empty()
    } else {
        let before = mount_source_keys(loaded, files, (n - 1) as nat);
        let mount = loaded.project.mounts@[n - 1];
        if mount.ownership != MountOwnership::ReadOnly {
            before.push(key_at(files, joined_path(loaded.root@, mount.source@)))
        } else {
            before
        }
    }
}

/// The keys of the sources of the first `n` adapters that carry content back.
pub open spec fn adapter_source_keys(loaded: LoadedProject, files: Map<PathParts, FactModel>, n: nat) -> Seq<Seq<char>>
    decreases n,
{
    if n == 0 {
        Seq::empty()
    } else {
        let before = adapter_source_keys(loaded, files, (n - 1) as nat);
        let adapter = loaded.project.adapters@[n - 1];
        if adapter.direction != AdapterDirection::ToProject {
            before.push(key_at(files, joined_path(loaded.root@, adapter.source@)))
        } else {
            before
        }
    }
}

/// The keys of everything that is written back.
pub open spec fn reverse_keys(loaded: LoadedProject, files: Map<PathParts, FactModel>) -> Seq<Seq<char>> {
    let nodes = all_tree_nodes(loaded.project);
    tree_source_keys(loaded, files, nodes, nodes.len()) + mount_source_keys(loaded, files, loaded.project.mounts@.len())
        + adapter_source_keys(loaded, files, loaded.project.adapters@.len())
}

/// Two keys of a list overlap.
pub open spec fn keys_overlap(keys: Seq<Seq<char>>) -> bool {
    exists|i: int, j: int|
        0 <= i < j < keys.len() && (key_contains(#[trigger] keys[i], #[trigger] keys[j]) || key_contains(keys[j], keys[i]))
}

fn push_key(keys: &mut Vec<String>, key: String)
    ensures
        texts(final(keys)@) == texts(old(keys)@).push(key@),
{
    proof {
        lemma_push(keys@, key);
    }
    keys.push(key);
}

proof fn lemma_push(v: Seq<String>, s: String)
    ensures
        texts(v.push(s)) == texts(v).push(s@),
{
    crate::text::lemma_texts_push(v, s);
}

fn collect_reverse_keys(loaded: &LoadedProject, files: &Files) -> (r: Vec<String>)
    ensures
        texts(r@) == reverse_keys(*loaded, files@),
{
    let nodes = project_tree_nodes(&loaded.project.tree);
    let ghost all = tree_views(nodes@);
    assert(all.len() == nodes@.len());
    let mut keys: Vec<String> = Vec::new();
    assert(texts(keys@) =~= Seq::empty());
    let mut i: usize = 0;
    while i < nodes.len()
        invariant
            i <= nodes.len(),
            all == tree_views(nodes@),
            texts(keys@) == tree_source_keys(*loaded, files@, all, i as nat),
        decreases nodes.len() - i,
    {
        assert(all[i as int] == nodes@[i as int]@);
        match &nodes[i].node.path {
            Some(path) => {
                let source = loaded.root.join(path);
                push_key(&mut keys, files.key(&source));
            },
            None => {},
        }
        i += 1;
    }
    let ghost first = texts(keys@);
    let mut m: usize = 0;
    assert(first + mount_source_keys(*loaded, files@, 0) =~= first);
    while m < loaded.project.mounts.len()
        invariant
            m <= loaded.project.mounts.len(),
            texts(keys@) == first + mount_source_keys(*loaded, files@, m as nat),
        decreases loaded.project.mounts.len() - m,
    {
        let ghost before = mount_source_keys(*loaded, files@, m as nat);
        if loaded.project.mounts[m].ownership != MountOwnership::ReadOnly {
            let source = loaded.root.join(&loaded.project.mounts[m].source);
            let key = files.key(&source);
            assert((first + before).push(key@) =~= first + before.push(key@));
            push_key(&mut keys, key);
        }
        m += 1;
    }
    let ghost second = texts(keys@);
    let mut a: usize = 0;
    assert(second + adapter_source_keys(*loaded, files@, 0) =~= second);
    while a < loaded.project.adapters.len()
        invariant
            a <= loaded.project.adapters.len(),
            texts(keys@) == second + adapter_source_keys(*loaded, files@, a as nat),
        decreases loaded.project.adapters.len() - a,
    {
        let ghost before = adapter_source_keys(*loaded, files@, a as nat);
        if loaded.project.adapters[a].direction != AdapterDirection::ToProject {
            let source = loaded.root.join(&loaded.project.adapters[a].source);
            let key = files.key(&source);
            assert((second + before).push(key@) =~= second + before.push(key@));
            push_key(&mut keys, key);
        }
        a += 1;
    }
    keys
}

/// Checks that nothing that is written back overlaps something else that is.
pub fn validate_reverse_source_owners(loaded: &LoadedProject, files: &Files) -> (r: Result<(), ProjectError>)
    ensures
        r == if keys_overlap(reverse_keys(*loaded, files@)) {
            Err::<(), ProjectError>(ProjectError::SourceOverlap)
        } else {
            Ok(())
        },
{
    let keys = collect_reverse_keys(loaded, files);
    let ghost all = texts(keys@);
    assert(all.len() == keys@.len());
    let mut i: usize = 0;
    while i < keys.len()
        invariant
            i <= keys.len(),
            all == texts(keys@),
            all == reverse_keys(*loaded, files@),
            forall|a: int, b: int|
                0 <= a < i && a < b < all.len() ==> !key_contains(#[trigger] all[a], #[trigger] all[b]) && !key_contains(
                    all[b],
                    all[a],
                ),
        decreases keys.len() - i,
    {
        let mut j: usize = i + 1;
        while j < keys.len()
            invariant
                i < j <= keys.len(),
                all == texts(keys@),
                all == reverse_keys(*loaded, files@),
                forall|b: int|
                    i < b < j ==> !key_contains(all[i as int], #[trigger] all[b]) && !key_contains(all[b], all[i as int]),
            decreases keys.len() - j,
        {
            assert(all[i as int] == keys@[i as int]@ && all[j as int] == keys@[j as int]@);
            if projection_path_contains(&keys[i], &keys[j]) || projection_path_contains(&keys[j], &keys[i]) {
                assert(keys_overlap(all));
                return Err(ProjectError::SourceOverlap);
            }
            j += 1;
        }
        i += 1;
    }
    Ok(())
}

/// What has to be known to check a project.
pub struct ProjectFacts {
    pub files: Files,
    pub adapters: Vec<AdapterFact>,
    /// The formats that adapters know.
    pub formats: Vec<String>,
    pub globs: GlobAnswers,
    /// The documents of the services that have a directory below the source root.
    pub documents: Table<String, SettingsDocument>,
}

/// The facts are about a project.
pub open spec fn facts_fit(loaded: LoadedProject, facts: ProjectFacts) -> bool {
    facts.adapters@.len() == loaded.project.adapters@.len() && answers_fit(loaded.project, facts.globs)
}

/// Both checks, the first that fails.
pub open spec fn both_checked(a: Result<(), ProjectError>, b: Result<(), ProjectError>) -> Result<(), ProjectError> {
    match a {
        Err(e) => Err(e),
        Ok(()) => b,
    }
}

/// Everything that a project says, in the order in which it is checked.
pub open spec fn project_checked(loaded: LoadedProject, facts: ProjectFacts, nested: bool) -> Result<(), ProjectError> {
    let project = loaded.project;
    let files = facts.files@;
    both_checked(
        header_checked(loaded, files, nested),
        both_checked(
            mounts_checked(loaded, files, 0),
            both_checked(
                tree_checked(loaded, files),
                both_checked(
                    owners_apart(tree_targets(project), project.mounts@, 0, 0),
                    both_checked(
                        adapters_checked(loaded, files, facts.adapters@, 0),
                        both_checked(
                            patterns_checked(project, texts(facts.formats@), facts.globs),
                            both_checked(
                                explicit_checked(facts.documents@, explicit_targets(project), 0),
                                if keys_overlap(reverse_keys(loaded, files)) {
                                    Err(ProjectError::SourceOverlap)
                                } else {
                                    Ok(())
                                },
                            ),
                        ),
                    ),
                ),
            ),
        ),
    )
}

fn check_project(loaded: &LoadedProject, facts: &ProjectFacts, nested: bool) -> (r: Result<(), ProjectError>)
    requires
        facts_fit(*loaded, *facts),
    ensures
        r == project_checked(*loaded, *facts, nested),
{
    match validate_project_header(loaded, &facts.files, nested) {
        Err(e) => {
            return Err(e);
        },
        Ok(()) => {},
    }
    match validate_mount_targets(loaded, &facts.files) {
        Err(e) => {
            return Err(e);
        },
        Ok(()) => {},
    }
    let targets = writable_tree_targets(&loaded.project);
    match validate_tree_targets(loaded, &facts.files, &targets) {
        Err(e) => {
            return Err(e);
        },
        Ok(()) => {},
    }
    match validate_owner_target_overlaps(&targets, &loaded.project.mounts) {
        Err(e) => {
            return Err(e);
        },
        Ok(()) => {},
    }
    match validate_adapters(loaded, &facts.files, &facts.adapters, &targets) {
        Err(e) => {
            return Err(e);
        },
        Ok(()) => {},
    }
    match validate_sync_rules_and_filters(&loaded.project, &facts.formats, &facts.globs) {
        Err(e) => {
            return Err(e);
        },
        Ok(()) => {},
    }
    match validate_explicit_source_owners(&loaded.project, &targets, &facts.documents) {
        Err(e) => {
            return Err(e);
        },
        Ok(()) => {},
    }
    validate_reverse_source_owners(loaded, &facts.files)
}

/// Checks a project.
pub fn validate_project(loaded: &LoadedProject, facts: &ProjectFacts) -> (r: Result<(), ProjectError>)
    requires
        facts_fit(*loaded, *facts),
    ensures
        r == project_checked(*loaded, *facts, false),
{
    check_project(loaded, facts, false)
}

/// Checks a project inside another, given whether the values of its root can be read.
pub fn validate_nested_project(loaded: &LoadedProject, facts: &ProjectFacts, root_values_valid: bool) -> (r: Result<
    (),
    ProjectError,
>)
    requires
        facts_fit(*loaded, *facts),
    ensures
        r == if loaded.project.root.path is Some || loaded.project.root.children@.len() > 0 {
            Err(ProjectError::NestedRoot)
        } else if !root_values_valid {
            Err(ProjectError::NestedValues)
        } else {
            project_checked(*loaded, *facts, true)
        },
{
    if loaded.project.root.path.is_some() || loaded.project.root.children.len() > 0 {
        return Err(ProjectError::NestedRoot);
    }
    if !root_values_valid {
        return Err(ProjectError::NestedValues);
    }
    check_project(loaded, facts, true)
}

/// In a project that was checked, no two owners share an instance.
pub proof fn law_checked_owners_are_apart(loaded: LoadedProject, facts: ProjectFacts, nested: bool, i: int, j: int)
    requires
        facts_fit(loaded, facts),
        project_checked(loaded, facts, nested) is Ok,
    ensures
        0 <= i < j < loaded.project.mounts@.len() ==> !targets_overlap(
            loaded.project.mounts@[i].target@,
            loaded.project.mounts@[j].target@,
        ),
        0 <= i < j < loaded.project.adapters@.len() ==> !targets_overlap(
            loaded.project.adapters@[i].target@,
            loaded.project.adapters@[j].target@,
        ),
        0 <= i < loaded.project.adapters@.len() && 0 <= j < loaded.project.mounts@.len() ==> !targets_overlap(
            loaded.project.mounts@[j].target@,
            loaded.project.adapters@[i].target@,
        ),
        0 <= i < loaded.project.adapters@.len() && 0 <= j < tree_targets(loaded.project).len() ==> !targets_overlap(
            tree_targets(loaded.project)[j],
            loaded.project.adapters@[i].target@,
        ),
{
    let mounts = loaded.project.mounts@;
    let adapters = loaded.project.adapters@;
    if 0 <= i < j < mounts.len() {
        lemma_mount_checked(loaded, facts.files@, 0, j);
        lemma_mount_apart(mounts, j, 0, i);
    }
    if 0 <= i < adapters.len() {
        lemma_adapter_checked(loaded, facts.files@, facts.adapters@, 0, i);
    }
    if 0 <= i < j < adapters.len() {
        lemma_adapter_checked(loaded, facts.files@, facts.adapters@, 0, j);
        lemma_adapter_apart(adapters, j, 0, i);
    }
}

proof fn lemma_mount_checked(loaded: LoadedProject, files: Map<PathParts, FactModel>, from: int, i: int)
    requires
        0 <= from <= i < loaded.project.mounts@.len(),
        mounts_checked(loaded, files, from) is Ok,
    ensures
        mount_checked(loaded, files, i) is Ok,
    decreases i - from,
{
    if from < i {
        lemma_mount_checked(loaded, files, from + 1, i);
    }
}

proof fn lemma_mount_apart(mounts: Seq<ProjectMount>, i: int, from: int, j: int)
    requires
        0 <= from <= j < i,
        mounts_apart(mounts, i, from) is Ok,
    ensures
        !targets_overlap(mounts[j].target@, mounts[i].target@),
    decreases j - from,
{
    if from < j {
        lemma_mount_apart(mounts, i, from + 1, j);
    }
}

proof fn lemma_adapter_checked(
    loaded: LoadedProject,
    files: Map<PathParts, FactModel>,
    facts: Seq<AdapterFact>,
    from: int,
    i: int,
)
    requires
        0 <= from <= i < loaded.project.adapters@.len(),
        adapters_checked(loaded, files, facts, from) is Ok,
    ensures
        adapter_checked(loaded, files, facts, i) is Ok,
    decreases i - from,
{
    if from < i {
        lemma_adapter_checked(loaded, files, facts, from + 1, i);
    }
}

proof fn lemma_adapter_apart(adapters: Seq<AdapterSpec>, i: int, from: int, j: int)
    requires
        0 <= from <= j < i,
        adapters_apart(adapters, i, from) is Ok,
    ensures
        !targets_overlap(adapters[j].target@, adapters[i].target@),
    decreases j - from,
{
    if from < j {
        lemma_adapter_apart(adapters, i, from + 1, j);
    }
}

} // verus!
