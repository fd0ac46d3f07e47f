//! Which source stands for which part of a project, and the way between the two.
use vstd::prelude::*;

use crate::naming::{NamingModel, ProjectScriptNaming};
use crate::order::{ascending, SortedSet};
use crate::paths::{
    is_nested_project_path, is_project_name, joined_path, last_name, named_parts, path_after, path_segments, path_starts_with,
    path_views, FilePath, PathParts,
};
use crate::project::{
    all_tree_nodes, kind_at, project_naming, project_script_naming, project_tree_nodes, target_checked, tree_views,
    validate_instance_target, AdapterDirection, FactModel, Files, LoadedProject, MountOwnership, Sidecar, SourceKind, TargetProblem,
    TreeNodeModel,
};
use crate::table::key_views;
use crate::text::{clone_texts, same_texts, subtexts, texts, texts_start_with};

verus! {

broadcast use vstd::seq_lib::group_seq_properties;

/// What kind of part owns a source.
#[derive(PartialEq, Eq, Structural, Clone, Copy, Debug)]
pub enum OwnerKind {
    Tree,
    Mount,
    Adapter,
    SourceRoot,
}

/// A part of a project with the source that it takes its content from.
pub struct Owner {
    pub kind: OwnerKind,
    pub target: Vec<String>,
    pub source: FilePath,
    /// Whether content may be written back to the source.
    pub writable: bool,
}

#[verifier::ext_equal]
pub struct OwnerModel {
    pub kind: OwnerKind,
    pub target: Seq<Seq<char>>,
    pub source: PathParts,
    pub writable: bool,
}

impl View for Owner {
    type V = OwnerModel;

    open spec fn view(&self) -> OwnerModel {
        OwnerModel { kind: self.kind, target: texts(self.target@), source: self.source@, writable: self.writable }
    }
}

pub open spec fn owner_views(v: Seq<Owner>) -> Seq<OwnerModel> {
    Seq::new(v.len(), |i: int| v[i]@)
}

/// The owners among the first `n` tree nodes.
pub open spec fn tree_owners(root: PathParts, nodes: Seq<TreeNodeModel>, n: nat) -> Seq<OwnerModel>
    decreases n,
{
    if n == 0 {
        Seq::empty()
    } else {
        let before = tree_owners(root, nodes, (n - 1) as nat);
        match nodes[n - 1].node.path {
            Some(path) => before.push(
                OwnerModel {
                    kind: OwnerKind::Tree,
                    target: nodes[n - 1].target,
                    source: joined_path(root, path@),
                    writable: true,
                },
            ),
            None => before,
        }
    }
}

/// And the first `n` mounts.
pub open spec fn mount_owners(loaded: LoadedProject, n: nat) -> Result<Seq<OwnerModel>, TargetProblem>
    decreases n,
{
    if n == 0 {
        let nodes = all_tree_nodes(loaded.project);
        Ok(tree_owners(loaded.root@, nodes, nodes.len()))
    } else {
        let mount = loaded.project.mounts@[n - 1];
        match mount_owners(loaded, (n - 1) as nat) {
            Err(e) => Err(e),
            Ok(before) => match target_checked(mount.target@) {
                Err(e) => Err(e),
                Ok(()) => Ok(
                    before.push(
                        OwnerModel {
                            kind: OwnerKind::Mount,
                            target: mount.target@.segments,
                            source: joined_path(loaded.root@, mount.source@),
                            writable: mount.ownership != MountOwnership::ReadOnly,
                        },
                    ),
                ),
            },
        }
    }
}

/// And the first `n` adapters; without `every`, only those that carry content into the project.
pub open spec fn adapter_owners(loaded: LoadedProject, every: bool, n: nat) -> Result<Seq<OwnerModel>, TargetProblem>
    decreases n,
{
    if n == 0 {
        mount_owners(loaded, loaded.project.mounts@.len())
    } else {
        let adapter = loaded.project.adapters@[n - 1];
        match adapter_owners(loaded, every, (n - 1) as nat) {
            Err(e) => Err(e),
            Ok(before) => if !every && adapter.direction == AdapterDirection::FromProject {
                Ok(before)
            } else {
                match target_checked(adapter.target@) {
                    Err(e) => Err(e),
                    Ok(()) => {
                        let source = joined_path(loaded.root@, adapter.source@);
                        Ok(
                            before.push(
                                OwnerModel {
                                    kind: OwnerKind::Adapter,
                                    target: adapter.target@.segments,
                                    source,
                                    writable: adapter.direction != AdapterDirection::ToProject && is_project_name(
                                        last_name(source),
                                    ),
                                },
                            ),
                        )
                    },
                }
            },
        }
    }
}

/// The owners of a project.
pub open spec fn owners_of(loaded: LoadedProject, every: bool) -> Result<Seq<OwnerModel>, TargetProblem> {
    adapter_owners(loaded, every, loaded.project.adapters@.len())
}

proof fn lemma_mount_error(loaded: LoadedProject, k: nat, n: nat)
    requires
        k <= n,
        mount_owners(loaded, k) is Err,
    ensures
        mount_owners(loaded, n) == mount_owners(loaded, k),
    decreases n,
{
    if k < n {
        lemma_mount_error(loaded, k, (n - 1) as nat);
    }
}

proof fn lemma_adapter_error(loaded: LoadedProject, every: bool, k: nat, n: nat)
    requires
        k <= n,
        adapter_owners(loaded, every, k) is Err,
    ensures
        adapter_owners(loaded, every, n) == adapter_owners(loaded, every, k),
    decreases n,
{
    if k < n {
        lemma_adapter_error(loaded, every, k, (n - 1) as nat);
    }
}

fn push_owner(out: &mut Vec<Owner>, x: Owner)
    ensures
        owner_views(final(out)@) == owner_views(old(out)@).push(x@),
{
    let ghost before = out@;
    out.push(x);
    assert(owner_views(out@) =~= owner_views(before).push(x@));
}

/// The owners of a project: its tree, its mounts and its adapters. Without `every`, adapters that only
/// carry content out of the project do not count.
pub fn project_owners(loaded: &LoadedProject, every: bool) -> (r: Result<Vec<Owner>, TargetProblem>)
    ensures
        match owners_of(*loaded, every) {
            Ok(owners) => r is Ok && owner_views(r->Ok_0@) == owners,
            Err(e) => r is Err && r->Err_0 == e,
        },
{
    let nodes = project_tree_nodes(&loaded.project.tree);
    let ghost all = tree_views(nodes@);
    assert(all.len() == nodes@.len());
    let mut out: Vec<Owner> = Vec::new();
    assert(owner_views(out@) =~= Seq::empty());
    let mut i: usize = 0;
    while i < nodes.len()
        invariant
            i <= nodes.len(),
            all == tree_views(nodes@),
            owner_views(out@) == tree_owners(loaded.root@, all, i as nat),
        decreases nodes.len() - i,
    {
        assert(all[i as int] == nodes@[i as int]@);
        match &nodes[i].node.path {
            Some(path) => {
                let owner = Owner {
                    kind: OwnerKind::Tree,
                    target: clone_texts(&nodes[i].target),
                    source: loaded.root.join(path),
                    writable: true,
                };
                push_owner(&mut out, owner);
            },
            None => {},
        }
        i += 1;
    }
    let mut m: usize = 0;
    while m < loaded.project.mounts.len()
        invariant
            m <= loaded.project.mounts.len(),
            mount_owners(*loaded, m as nat) == Ok::<Seq<OwnerModel>, TargetProblem>(owner_views(out@)),
        decreases loaded.project.mounts.len() - m,
    {
        let mount = &loaded.project.mounts[m];
        match validate_instance_target(&mount.target) {
            Err(e) => {
                proof {
                    lemma_mount_error(*loaded, (m + 1) as nat, loaded.project.mounts@.len());
                    lemma_adapter_error(*loaded, every, 0, loaded.project.adapters@.len());
                }
                return Err(e);
            },
            Ok(()) => {},
        }
        let owner = Owner {
            kind: OwnerKind::Mount,
            target: mount.target.segments(),
            source: loaded.root.join(&mount.source),
            writable: mount.ownership != MountOwnership::ReadOnly,
        };
        push_owner(&mut out, owner);
        m += 1;
    }
    let mut a: usize = 0;
    while a < loaded.project.adapters.len()
        invariant
            a <= loaded.project.adapters.len(),
            adapter_owners(*loaded, every, a as nat) == Ok::<Seq<OwnerModel>, TargetProblem>(owner_views(out@)),
        decreases loaded.project.adapters.len() - a,
    {
        let adapter = &loaded.project.adapters[a];
        if every || adapter.direction != AdapterDirection::FromProject {
            match validate_instance_target(&adapter.target) {
                Err(e) => {
                    proof {
                        lemma_adapter_error(*loaded, every, (a + 1) as nat, loaded.project.adapters@.len());
                    }
                    return Err(e);
                },
                Ok(()) => {},
            }
            let source = loaded.root.join(&adapter.source);
            let writable = adapter.direction != AdapterDirection::ToProject && is_nested_project_path(&source);
            let owner = Owner { kind: OwnerKind::Adapter, target: adapter.target.segments(), source, writable };
            push_owner(&mut out, owner);
        }
        a += 1;
    }
    Ok(out)
}

/// A project with the files in it that describe others, and the projects inside it: one, or none, for
/// each of its owners.
pub struct ProjectTree {
    pub loaded: LoadedProject,
    pub sidecars: Vec<Sidecar>,
    pub nested: Vec<Option<ProjectTree>>,
}

/// A target with the source that stands for it, and how that source names scripts.
pub struct ProjectTargetSourceMapping {
    pub target: Vec<String>,
    pub source: FilePath,
    pub naming: ProjectScriptNaming,
}

#[verifier::ext_equal]
pub struct MappingModel {
    pub target: Seq<Seq<char>>,
    pub source: PathParts,
    pub naming: NamingModel,
}

impl View for ProjectTargetSourceMapping {
    type V = MappingModel;

    open spec fn view(&self) -> MappingModel {
        MappingModel { target: texts(self.target@), source: self.source@, naming: self.naming@ }
    }
}

pub open spec fn mapping_views(v: Seq<ProjectTargetSourceMapping>) -> Seq<MappingModel> {
    Seq::new(v.len(), |i: int| v[i]@)
}

/// The mappings of the first `n` owners; a nested project stands for its own.
pub open spec fn owner_mappings(tree: ProjectTree, owners: Seq<OwnerModel>, prefix: Seq<Seq<char>>, n: nat) -> Result<
    Seq<MappingModel>,
    TargetProblem,
>
    decreases tree, n,
{
    if n == 0 {
        Ok(Seq::empty())
    } else {
        match owner_mappings(tree, owners, prefix, (n - 1) as nat) {
            Err(e) => Err(e),
            Ok(before) => {
                let owner = owners[n - 1];
                let target = prefix + owner.target;
                if n - 1 < tree.nested@.len() && tree.nested@[n - 1] is Some {
                    match nested_mappings(tree.nested@[n - 1]->0, target) {
                        Err(e) => Err(e),
                        Ok(inner) => Ok(before + inner),
                    }
                } else {
                    Ok(
                        before.push(
                            MappingModel { target, source: owner.source, naming: project_naming(tree.loaded.project) },
                        ),
                    )
                }
            },
        }
    }
}

/// The mapping of a nested project's own source root.
pub open spec fn root_mapping(loaded: LoadedProject, prefix: Seq<Seq<char>>) -> MappingModel {
    MappingModel {
        target: prefix,
        source: joined_path(loaded.root@, loaded.project.source_root@),
        naming: project_naming(loaded.project),
    }
}

/// How many owners a project has.
pub open spec fn owner_count(loaded: LoadedProject) -> nat {
    match owners_of(loaded, false) {
        Ok(owners) => owners.len(),
        Err(_) => 0,
    }
}

/// The mappings of a nested project.
pub open spec fn nested_mappings(tree: ProjectTree, prefix: Seq<Seq<char>>) -> Result<Seq<MappingModel>, TargetProblem>
    decreases tree, owner_count(tree.loaded) + 1,
{
    match owners_of(tree.loaded, false) {
        Err(e) => Err(e),
        Ok(owners) => match owner_mappings(tree, owners, prefix, owners.len()) {
            Err(e) => Err(e),
            Ok(list) => Ok(seq![root_mapping(tree.loaded, prefix)] + list),
        },
    }
}

/// The mappings of a project and of those inside it.
pub open spec fn project_mappings(tree: ProjectTree) -> Result<Seq<MappingModel>, TargetProblem> {
    match owners_of(tree.loaded, false) {
        Err(e) => Err(e),
        Ok(owners) => owner_mappings(tree, owners, Seq::empty(), owners.len()),
    }
}

fn push_mapping(out: &mut Vec<ProjectTargetSourceMapping>, x: ProjectTargetSourceMapping)
    ensures
        mapping_views(final(out)@) == mapping_views(old(out)@).push(x@),
{
    let ghost before = out@;
    out.push(x);
    assert(mapping_views(out@) =~= mapping_views(before).push(x@));
}

/// The names of one list followed by those of another.
pub fn joined_target(prefix: &Vec<String>, target: &Vec<String>) -> (r: Vec<String>)
    ensures
        texts(r@) == texts(prefix@) + texts(target@),
{
    let mut out = clone_texts(prefix);
    let mut more = clone_texts(target);
    let ghost a = out@;
    let ghost b = more@;
    out.append(&mut more);
    assert(texts(a + b) =~= texts(a) + texts(b));
    out
}

proof fn lemma_mapping_error(tree: ProjectTree, owners: Seq<OwnerModel>, prefix: Seq<Seq<char>>, k: nat, n: nat)
    requires
        k <= n,
        owner_mappings(tree, owners, prefix, k) is Err,
    ensures
        owner_mappings(tree, owners, prefix, n) == owner_mappings(tree, owners, prefix, k),
    decreases n,
{
    if k < n {
        lemma_mapping_error(tree, owners, prefix, k, (n - 1) as nat);
    }
}

fn append_owners(tree: &ProjectTree, owners: &Vec<Owner>, prefix: &Vec<String>, out: &mut Vec<ProjectTargetSourceMapping>) -> (r:
    Result<(), TargetProblem>)
    ensures
        match owner_mappings(*tree, owner_views(owners@), texts(prefix@), owners@.len()) {
            Ok(list) => r is Ok && mapping_views(final(out)@) == mapping_views(old(out)@) + list,
            Err(e) => r == Err::<(), TargetProblem>(e),
        },
    decreases tree, 0int,
{
    let ghost start = mapping_views(out@);
    let ghost all = owner_views(owners@);
    let ghost at = texts(prefix@);
    assert(all.len() == owners@.len());
    let mut i: usize = 0;
    assert(start + Seq::<MappingModel>::empty() =~= start);
    while i < owners.len()
        invariant
            i <= owners.len(),
            all == owner_views(owners@),
            at == texts(prefix@),
            start == mapping_views(old(out)@),
            owner_mappings(*tree, all, at, i as nat) is Ok,
            mapping_views(out@) == start + owner_mappings(*tree, all, at, i as nat)->Ok_0,
        decreases owners.len() - i,
    {
        let ghost before = owner_mappings(*tree, all, at, i as nat)->Ok_0;
        assert(all[i as int] == owners@[i as int]@);
        let target = joined_target(prefix, &owners[i].target);
        let mut done = false;
        if i < tree.nested.len() {
            match &tree.nested[i] {
                Some(inner) => {
                    match append_nested(inner, &target, out) {
                        Err(e) => {
                            proof {
                                lemma_mapping_error(*tree, all, at, (i + 1) as nat, all.len());
                            }
                            return Err(e);
                        },
                        Ok(()) => {},
                    }
                    proof {
                        let list = nested_mappings(*inner, texts(target@))->Ok_0;
                        assert(start + before + list =~= start + (before + list));
                    }
                    done = true;
                },
                None => {},
            }
        }
        if !done {
            let mapping = ProjectTargetSourceMapping {
                target,
                source: owners[i].source.copy(),
                naming: project_script_naming(&tree.loaded.project),
            };
            assert((start + before).push(mapping@) =~= start + before.push(mapping@));
            push_mapping(out, mapping);
        }
        i += 1;
    }
    Ok(())
}

fn append_nested(tree: &ProjectTree, prefix: &Vec<String>, out: &mut Vec<ProjectTargetSourceMapping>) -> (r: Result<
    (),
    TargetProblem,
>)
    ensures
        match nested_mappings(*tree, texts(prefix@)) {
            Ok(list) => r is Ok && mapping_views(final(out)@) == mapping_views(old(out)@) + list,
            Err(e) => r == Err::<(), TargetProblem>(e),
        },
    decreases tree, 1int,
{
    let ghost start = mapping_views(out@);
    let owners = match project_owners(&tree.loaded, false) {
        Err(e) => {
            return Err(e);
        },
        Ok(owners) => owners,
    };
    let count = owners.len();
    assert(owner_views(owners@).len() == count);
    let mapping = ProjectTargetSourceMapping {
        target: clone_texts(prefix),
        source: tree.loaded.root.join(&tree.loaded.project.source_root),
        naming: project_script_naming(&tree.loaded.project),
    };
    let ghost root = mapping@;
    push_mapping(out, mapping);
    match append_owners(tree, &owners, prefix, out) {
        Err(e) => Err(e),
        Ok(()) => {
            proof {
                let list = owner_mappings(*tree, owner_views(owners@), texts(prefix@), owners@.len())->Ok_0;
                assert(start.push(root) + list =~= start + (seq![root] + list));
            }
            Ok(())
        },
    }
}

/// Which source stands for which target, in a project and in those inside it.
pub fn project_target_source_mappings(tree: &ProjectTree) -> (r: Result<Vec<ProjectTargetSourceMapping>, TargetProblem>)
    ensures
        match project_mappings(*tree) {
            Ok(list) => r is Ok && mapping_views(r->Ok_0@) == list,
            Err(e) => r is Err && r->Err_0 == e,
        },
{
    let owners = match project_owners(&tree.loaded, false) {
        Err(e) => {
            return Err(e);
        },
        Ok(owners) => owners,
    };
    assert(owner_views(owners@).len() == owners@.len());
    let mut out: Vec<ProjectTargetSourceMapping> = Vec::new();
    let none: Vec<String> = Vec::new();
    assert(texts(none@) =~= Seq::empty());
    assert(mapping_views(out@) =~= Seq::empty());
    match append_owners(tree, &owners, &none, &mut out) {
        Err(e) => Err(e),
        Ok(()) => {
            proof {
                let list = owner_mappings(*tree, owner_views(owners@), Seq::empty(), owners@.len())->Ok_0;
                assert(Seq::<MappingModel>::empty() + list =~= list);
            }
            Ok(out)
        },
    }
}

/// What a file name says of a script: nothing, that it stands for its directory, or the script's name.
pub enum ScriptName {
    NotAScript,
    Directory,
    Named(String),
}

/// The target of a staged file: the names on its path, the last one as that of a script.
pub open spec fn staged_target(segments: Seq<Seq<char>>, script: ScriptName) -> Seq<Seq<char>> {
    if segments.len() == 0 {
        segments
    } else {
        match script {
            ScriptName::NotAScript => segments,
            ScriptName::Directory => segments.drop_last(),
            ScriptName::Named(name) => segments.drop_last().push(name@),
        }
    }
}

/// A mapping holds the source of a staged path.
pub open spec fn mapping_accepts(m: MappingModel, files: Map<PathParts, FactModel>, target: Seq<Seq<char>>) -> bool {
    m.target.is_prefix_of(target) && (kind_at(files, m.source) == SourceKind::File ==> m.target == target)
}

/// `i` is the first mapping with the longest target among those that hold the source of a staged path.
pub open spec fn is_closest(
    list: Seq<MappingModel>,
    scripts: Seq<ScriptName>,
    files: Map<PathParts, FactModel>,
    segments: Seq<Seq<char>>,
    i: int,
) -> bool {
    &&& 0 <= i < list.len()
    &&& mapping_accepts(list[i], files, staged_target(segments, scripts[i]))
    &&& forall|j: int|
        0 <= j < list.len() && mapping_accepts(#[trigger] list[j], files, staged_target(segments, scripts[j]))
            ==> list[j].target.len() < list[i].target.len() || (list[j].target.len() == list[i].target.len() && i <= j)
}

/// No mapping holds the source of a staged path.
pub open spec fn none_accepts(
    list: Seq<MappingModel>,
    scripts: Seq<ScriptName>,
    files: Map<PathParts, FactModel>,
    segments: Seq<Seq<char>>,
) -> bool {
    forall|j: int|
        0 <= j < list.len() ==> !mapping_accepts(#[trigger] list[j], files, staged_target(segments, scripts[j]))
}

/// The source of a staged path under a mapping.
pub open spec fn source_under(m: MappingModel, files: Map<PathParts, FactModel>, segments: Seq<Seq<char>>) -> PathParts {
    if kind_at(files, m.source) == SourceKind::File {
        m.source
    } else {
        PathParts {
            rooted: m.source.rooted,
            parts: m.source.parts + segments.subrange(m.target.len() as int, segments.len() as int),
        }
    }
}

fn staged_target_of(segments: &Vec<String>, script: &ScriptName) -> (r: Vec<String>)
    ensures
        texts(r@) == staged_target(texts(segments@), *script),
{
    let n = segments.len();
    assert(texts(segments@).len() == n);
    if n == 0 {
        return clone_texts(segments);
    }
    assert(texts(segments@).subrange(0, n - 1) =~= texts(segments@).drop_last());
    match script {
        ScriptName::NotAScript => clone_texts(segments),
        ScriptName::Directory => subtexts(segments, 0, n - 1),
        ScriptName::Named(name) => {
            let above = subtexts(segments, 0, n - 1);
            crate::project::below_target(&above, name)
        },
    }
}

/// The source that a staged path comes from: that of the mapping with the longest target, or a place
/// below the source root.
pub fn staged_path_to_project_source(
    loaded: &LoadedProject,
    mappings: &Vec<ProjectTargetSourceMapping>,
    scripts: &Vec<ScriptName>,
    files: &Files,
    staged: &FilePath,
) -> (r: FilePath)
    requires
        scripts@.len() == mappings@.len(),
        !staged.rooted,
    ensures
        ({
            let list = mapping_views(mappings@);
            let segments = named_parts(staged@.parts, staged@.parts.len());
            &&& forall|i: int| #[trigger]
                is_closest(list, scripts@, files@, segments, i) ==> r@ == source_under(list[i], files@, segments)
            &&& none_accepts(list, scripts@, files@, segments) ==> r@ == joined_path(
                joined_path(loaded.root@, loaded.project.source_root@),
                staged@,
            )
            &&& none_accepts(list, scripts@, files@, segments) || exists|i: int| #[trigger]
                is_closest(list, scripts@, files@, segments, i)
        }),
{
    let segments = path_segments(staged);
    let ghost names = texts(segments@);
    let ghost list = mapping_views(mappings@);
    assert(list.len() == mappings@.len());
    assert(names.len() == segments@.len());
    let mut best: Option<usize> = None;
    let mut i: usize = 0;
    while i < mappings.len()
        invariant
            i <= mappings.len(),
            scripts@.len() == mappings@.len(),
            names == texts(segments@),
            list == mapping_views(mappings@),
            match best {
                Some(b) => b < i && mapping_accepts(list[b as int], files@, staged_target(names, scripts@[b as int])) && forall|
                    j: int,
                |
                    0 <= j < i && mapping_accepts(#[trigger] list[j], files@, staged_target(names, scripts@[j]))
                        ==> list[j].target.len() < list[b as int].target.len() || (list[j].target.len()
                        == list[b as int].target.len() && b <= j),
                None => forall|j: int|
                    0 <= j < i ==> !mapping_accepts(#[trigger] list[j], files@, staged_target(names, scripts@[j])),
            },
        decreases mappings.len() - i,
    {
        assert(list[i as int] == mappings@[i as int]@);
        let target = staged_target_of(&segments, &scripts[i]);
        let is_file = files.kind(&mappings[i].source) == SourceKind::File;
        let accepts = texts_start_with(&target, &mappings[i].target) && (!is_file || same_texts(&mappings[i].target, &target));
        if accepts {
            let longer = match best {
                Some(b) => {
                    assert(list[b as int] == mappings@[b as int]@);
                    assert(list[b as int].target.len() == mappings@[b as int].target@.len());
                    mappings[i].target.len() > mappings[b].target.len()
                },
                None => true,
            };
            assert(list[i as int].target.len() == mappings@[i as int].target@.len());
            if longer {
                best = Some(i);
            }
        }
        i += 1;
    }
    match best {
        Some(b) => {
            assert(is_closest(list, scripts@, files@, names, b as int));
            assert forall|k: int| #[trigger] is_closest(list, scripts@, files@, names, k) implies k == b by {}
            assert(list[b as int] == mappings@[b as int]@);
            if files.kind(&mappings[b].source) == SourceKind::File {
                return mappings[b].source.copy();
            }
            proof {
                let target = staged_target(names, scripts@[b as int]);
                assert(list[b as int].target.len() <= target.len() <= names.len());
                assert(list[b as int].target.len() == mappings@[b as int].target@.len());
            }
            mappings[b].source.join_parts(&segments, mappings[b].target.len())
        },
        None => {
            assert(none_accepts(list, scripts@, files@, names));
            assert forall|k: int| !#[trigger] is_closest(list, scripts@, files@, names, k) by {}
            let source_root = loaded.root.join(&loaded.project.source_root);
            source_root.join(staged)
        },
    }
}

/// Where content below a target is written, and who owns that place.
pub struct ProjectWriteResolution {
    pub path: FilePath,
    pub source_root: FilePath,
    pub owner: OwnerKind,
    pub consumed_segments: usize,
    pub naming: ProjectScriptNaming,
}

#[verifier::ext_equal]
pub struct ResolutionModel {
    pub path: PathParts,
    pub source_root: PathParts,
    pub owner: OwnerKind,
    pub consumed_segments: int,
    pub naming: NamingModel,
}

impl View for ProjectWriteResolution {
    type V = ResolutionModel;

    open spec fn view(&self) -> ResolutionModel {
        ResolutionModel {
            path: self.path@,
            source_root: self.source_root@,
            owner: self.owner,
            consumed_segments: self.consumed_segments as int,
            naming: self.naming@,
        }
    }
}

/// Where to write, or which nested project to ask about the remaining names.
pub enum WriteStep {
    Resolved(ProjectWriteResolution),
    Nested { source: FilePath, consumed: usize },
}

#[verifier::ext_equal]
pub enum WriteModel {
    Resolved(ResolutionModel),
    Nested { source: PathParts, consumed: int },
}

impl View for WriteStep {
    type V = WriteModel;

    open spec fn view(&self) -> WriteModel {
        match self {
            WriteStep::Resolved(r) => WriteModel::Resolved(r@),
            WriteStep::Nested { source, consumed } => WriteModel::Nested { source: source@, consumed: *consumed as int },
        }
    }
}

/// Why nothing can be written below a target.
#[derive(PartialEq, Eq, Structural, Clone, Copy, Debug)]
pub enum WriteError {
    Target(TargetProblem),
    /// More than one owner is equally specific.
    Ambiguous,
    NotWritable(OwnerKind),
    /// The target lies below what a file stands for.
    BelowFile,
}

/// An owner that a target lies at or below.
pub open spec fn covers_target(owner: OwnerModel, segments: Seq<Seq<char>>) -> bool {
    owner.target.is_prefix_of(segments)
}

/// `i` is the first of the most specific owners of a target.
pub open spec fn is_first_owner(owners: Seq<OwnerModel>, segments: Seq<Seq<char>>, i: int) -> bool {
    &&& 0 <= i < owners.len()
    &&& covers_target(owners[i], segments)
    &&& forall|j: int|
        0 <= j < owners.len() && covers_target(#[trigger] owners[j], segments) ==> owners[j].target.len()
            < owners[i].target.len() || (owners[j].target.len() == owners[i].target.len() && i <= j)
}

/// Another owner is as specific as `i`.
pub open spec fn has_rival(owners: Seq<OwnerModel>, segments: Seq<Seq<char>>, i: int) -> bool {
    exists|j: int|
        0 <= j < owners.len() && j != i && covers_target(#[trigger] owners[j], segments) && owners[j].target.len()
            == owners[i].target.len()
}

/// No owner but the source root.
pub open spec fn unowned(owners: Seq<OwnerModel>, segments: Seq<Seq<char>>) -> bool {
    forall|j: int| 0 <= j < owners.len() ==> !covers_target(#[trigger] owners[j], segments)
}

/// A source with the names that follow a target.
pub open spec fn path_below(source: PathParts, segments: Seq<Seq<char>>, from: int) -> PathParts {
    PathParts { rooted: source.rooted, parts: source.parts + segments.subrange(from, segments.len() as int) }
}

/// What the most specific owner makes of a target.
pub open spec fn owner_write(
    loaded: LoadedProject,
    files: Map<PathParts, FactModel>,
    owner: OwnerModel,
    rival: bool,
    segments: Seq<Seq<char>>,
) -> Result<WriteModel, WriteError> {
    let longest = owner.target.len() as int;
    let is_file = kind_at(files, owner.source) == SourceKind::File;
    if rival {
        Err(WriteError::Ambiguous)
    } else if !owner.writable {
        Err(WriteError::NotWritable(owner.kind))
    } else if is_file && segments.len() > longest {
        if is_project_name(last_name(owner.source)) {
            Ok(WriteModel::Nested { source: owner.source, consumed: longest })
        } else {
            Err(WriteError::BelowFile)
        }
    } else {
        Ok(
            WriteModel::Resolved(
                ResolutionModel {
                    path: if owner.kind == OwnerKind::Adapter {
                        owner.source
                    } else {
                        path_below(owner.source, segments, longest)
                    },
                    source_root: owner.source,
                    owner: owner.kind,
                    consumed_segments: longest,
                    naming: project_naming(loaded.project),
                },
            ),
        )
    }
}

/// What the source root makes of a target; at the top, each service has a root of its own.
pub open spec fn root_write(loaded: LoadedProject, segments: Seq<Seq<char>>, mounted_root: bool) -> ResolutionModel {
    let source_root = joined_path(loaded.root@, loaded.project.source_root@);
    let of_service = !mounted_root && segments.len() > 0;
    ResolutionModel {
        path: path_below(source_root, segments, 0),
        source_root: if of_service {
            PathParts { rooted: source_root.rooted, parts: source_root.parts.push(segments[0]) }
        } else {
            source_root
        },
        owner: OwnerKind::SourceRoot,
        consumed_segments: if of_service {
            1
        } else {
            0
        },
        naming: project_naming(loaded.project),
    }
}

/// `r` is where content below a target is written.
pub open spec fn is_write(
    loaded: LoadedProject,
    files: Map<PathParts, FactModel>,
    segments: Seq<Seq<char>>,
    mounted_root: bool,
    r: Result<WriteModel, WriteError>,
) -> bool {
    match owners_of(loaded, true) {
        Err(e) => r == Err::<WriteModel, WriteError>(WriteError::Target(e)),
        Ok(owners) => {
            &&& forall|i: int| #[trigger]
                is_first_owner(owners, segments, i) ==> r == owner_write(
                    loaded,
                    files,
                    owners[i],
                    has_rival(owners, segments, i),
                    segments,
                )
            &&& unowned(owners, segments) ==> r == Ok::<WriteModel, WriteError>(
                WriteModel::Resolved(root_write(loaded, segments, mounted_root)),
            )
            &&& unowned(owners, segments) || exists|i: int| #[trigger] is_first_owner(owners, segments, i)
        },
    }
}

pub open spec fn write_result(r: Result<WriteStep, WriteError>) -> Result<WriteModel, WriteError> {
    match r {
        Ok(step) => Ok(step@),
        Err(e) => Err(e),
    }
}

/// The first of the most specific owners of a target, and whether another is as specific.
fn find_owner(owners: &Vec<Owner>, segments: &Vec<String>) -> (r: Option<(usize, bool)>)
    ensures
        match r {
            Some((i, rival)) => i < owners@.len() && is_first_owner(owner_views(owners@), texts(segments@), i as int) && rival
                == has_rival(owner_views(owners@), texts(segments@), i as int),
            None => unowned(owner_views(owners@), texts(segments@)),
        },
{
    let ghost all = owner_views(owners@);
    let ghost names = texts(segments@);
    assert(all.len() == owners@.len());
    let mut best: Option<usize> = None;
    let mut rival = false;
    let mut i: usize = 0;
    while i < owners.len()
        invariant
            i <= owners.len(),
            all == owner_views(owners@),
            all.len() == owners@.len(),
            names == texts(segments@),
            match best {
                Some(b) => b < i && covers_target(all[b as int], names) && (forall|j: int|
                    0 <= j < i && covers_target(#[trigger] all[j], names) ==> all[j].target.len() < all[b as int].target.len()
                        || (all[j].target.len() == all[b as int].target.len() && b <= j)) && rival == (exists|j: int|
                    0 <= j < i && j != b && covers_target(#[trigger] all[j], names) && all[j].target.len()
                        == all[b as int].target.len()),
                None => forall|j: int| 0 <= j < i ==> !covers_target(#[trigger] all[j], names),
            },
        decreases owners.len() - i,
    {
        assert(all[i as int] == owners@[i as int]@);
        assert(all[i as int].target.len() == owners@[i as int].target@.len());
        if texts_start_with(segments, &owners[i].target) {
            match best {
                Some(b) => {
                    assert(all[b as int] == owners@[b as int]@);
                    assert(all[b as int].target.len() == owners@[b as int].target@.len());
                    if owners[i].target.len() > owners[b].target.len() {
                        best = Some(i);
                        rival = false;
                    } else if owners[i].target.len() == owners[b].target.len() {
                        rival = true;
                        assert(covers_target(all[i as int], names));
                    }
                },
                None => {
                    best = Some(i);
                    rival = false;
                },
            }
        }
        i += 1;
    }
    match best {
        Some(b) => Some((b, rival)),
        None => None,
    }
}

proof fn lemma_first_owner_unique(owners: Seq<OwnerModel>, segments: Seq<Seq<char>>, i: int, j: int)
    requires
        is_first_owner(owners, segments, i),
        is_first_owner(owners, segments, j),
    ensures
        i == j,
{
    assert(covers_target(owners[i], segments) && covers_target(owners[j], segments));
}

/// Finds where content below a target is written. Where a nested project owns it, that has to be asked
/// about the names that follow.
pub fn resolve_project_write_segments(loaded: &LoadedProject, files: &Files, segments: &Vec<String>, mounted_root: bool) -> (r:
    Result<WriteStep, WriteError>)
    ensures
        is_write(*loaded, files@, texts(segments@), mounted_root, write_result(r)),
{
    let owners = match project_owners(loaded, true) {
        Err(e) => {
            return Err(WriteError::Target(e));
        },
        Ok(owners) => owners,
    };
    let ghost all = owner_views(owners@);
    let ghost names = texts(segments@);
    assert(names.len() == segments@.len());
    match find_owner(&owners, segments) {
        Some((i, rival)) => {
            assert(all[i as int] == owners@[i as int]@);
            assert forall|j: int| #[trigger] is_first_owner(all, names, j) implies j == i by {
                lemma_first_owner_unique(all, names, i as int, j);
            }
            assert(!unowned(all, names)) by {
                assert(covers_target(all[i as int], names));
            }
            let owner = &owners[i];
            let longest = owner.target.len();
            assert(all[i as int].target.len() == longest);
            assert(longest <= segments.len());
            if rival {
                return Err(WriteError::Ambiguous);
            }
            if !owner.writable {
                return Err(WriteError::NotWritable(owner.kind));
            }
            if files.kind(&owner.source) == SourceKind::File && segments.len() > longest {
                if is_nested_project_path(&owner.source) {
                    return Ok(WriteStep::Nested { source: owner.source.copy(), consumed: longest });
                }
                return Err(WriteError::BelowFile);
            }
            let path = if owner.kind == OwnerKind::Adapter {
                owner.source.copy()
            } else {
                owner.source.join_parts(segments, longest)
            };
            Ok(
                WriteStep::Resolved(
                    ProjectWriteResolution {
                        path,
                        source_root: owner.source.copy(),
                        owner: owner.kind,
                        consumed_segments: longest,
                        naming: project_script_naming(&loaded.project),
                    },
                ),
            )
        },
        None => {
            assert forall|j: int| !#[trigger] is_first_owner(all, names, j) by {
                if is_first_owner(all, names, j) {
                    assert(covers_target(all[j], names));
                }
            }
            let source_root = loaded.root.join(&loaded.project.source_root);
            let path = source_root.join_parts(segments, 0);
            let naming = project_script_naming(&loaded.project);
            if mounted_root || segments.len() == 0 {
                return Ok(
                    WriteStep::Resolved(
                        ProjectWriteResolution {
                            path,
                            source_root,
                            owner: OwnerKind::SourceRoot,
                            consumed_segments: 0,
                            naming,
                        },
                    ),
                );
            }
            assert(names[0] == segments@[0]@);
            let service_root = source_root.child(&segments[0]);
            Ok(
                WriteStep::Resolved(
                    ProjectWriteResolution {
                        path,
                        source_root: service_root,
                        owner: OwnerKind::SourceRoot,
                        consumed_segments: 1,
                        naming,
                    },
                ),
            )
        },
    }
}

/// Finds where content at a staged path is written.
pub fn resolve_project_write_path(loaded: &LoadedProject, files: &Files, staged: &FilePath) -> (r: Result<WriteStep, WriteError>)
    ensures
        is_write(*loaded, files@, named_parts(staged@.parts, staged@.parts.len()), false, write_result(r)),
{
    let segments = path_segments(staged);
    resolve_project_write_segments(loaded, files, &segments, false)
}

/// What a resolved place owns of a target never exceeds it.
pub proof fn law_write_consumes_no_more(
    loaded: LoadedProject,
    files: Map<PathParts, FactModel>,
    segments: Seq<Seq<char>>,
    mounted_root: bool,
    r: Result<WriteModel, WriteError>,
)
    requires
        is_write(loaded, files, segments, mounted_root, r),
        r is Ok,
    ensures
        match r->Ok_0 {
            WriteModel::Resolved(m) => 0 <= m.consumed_segments <= segments.len(),
            WriteModel::Nested { consumed, .. } => 0 <= consumed < segments.len(),
        },
{
    let owners = owners_of(loaded, true)->Ok_0;
    if !unowned(owners, segments) {
        let i = choose|i: int| #[trigger] is_first_owner(owners, segments, i);
        assert(covers_target(owners[i], segments));
    }
}

/// How many names a step has used up.
pub open spec fn consumed_by(step: WriteModel) -> int {
    match step {
        WriteModel::Resolved(m) => m.consumed_segments,
        WriteModel::Nested { consumed, .. } => consumed,
    }
}

/// A step that a nested project took, seen from the project around it, which used up names before.
pub open spec fn seen_outside(before: int, step: WriteModel) -> WriteModel {
    match step {
        WriteModel::Resolved(m) => WriteModel::Resolved(
            ResolutionModel { consumed_segments: before + m.consumed_segments, ..m },
        ),
        WriteModel::Nested { source, consumed } => WriteModel::Nested { source, consumed: before + consumed },
    }
}

/// Counts the names that led to a nested project to those that it used up itself.
pub fn step_in_nested(before: usize, step: WriteStep) -> (r: WriteStep)
    requires
        before + consumed_by(step@) <= usize::MAX,
    ensures
        r@ == seen_outside(before as int, step@),
{
    match step {
        WriteStep::Resolved(m) => {
            let mut m = m;
            m.consumed_segments = before + m.consumed_segments;
            WriteStep::Resolved(m)
        },
        WriteStep::Nested { source, consumed } => WriteStep::Nested { source, consumed: before + consumed },
    }
}

/// A nested project asked about the names that are left uses up no more than these: with those that led to it
/// no more than there are.
pub proof fn law_nested_write_consumes_no_more(
    nested: LoadedProject,
    files: Map<PathParts, FactModel>,
    segments: Seq<Seq<char>>,
    before: int,
    r: Result<WriteModel, WriteError>,
)
    requires
        0 <= before <= segments.len(),
        is_write(nested, files, segments.skip(before), true, r),
        r is Ok,
    ensures
        before <= consumed_by(seen_outside(before, r->Ok_0)) <= segments.len(),
{
    law_write_consumes_no_more(nested, files, segments.skip(before), true, r);
}

/// The sources that the most specific owners give a target.
pub open spec fn is_selected_source(owners: Seq<OwnerModel>, segments: Seq<Seq<char>>, p: PathParts) -> bool {
    exists|i: int|
        0 <= i < owners.len() && covers_target(#[trigger] owners[i], segments) && (forall|j: int|
            0 <= j < owners.len() && covers_target(#[trigger] owners[j], segments) ==> owners[j].target.len()
                <= owners[i].target.len()) && p == owner_source(owners[i], segments)
}

/// The source that an owner gives a target.
pub open spec fn owner_source(owner: OwnerModel, segments: Seq<Seq<char>>) -> PathParts {
    if owner.kind == OwnerKind::Adapter {
        owner.source
    } else {
        path_below(owner.source, segments, owner.target.len() as int)
    }
}

/// The most specific owners give a target different sources.
pub open spec fn sources_disagree(owners: Seq<OwnerModel>, segments: Seq<Seq<char>>) -> bool {
    exists|p: PathParts, q: PathParts| #[trigger]
        is_selected_source(owners, segments, p) && #[trigger] is_selected_source(owners, segments, q) && p != q
}

/// `r` is the source of a staged path: that which the most specific owners agree on.
pub open spec fn is_staged_source(
    loaded: LoadedProject,
    staged: PathParts,
    r: Result<PathParts, WriteError>,
) -> bool {
    let segments = named_parts(staged.parts, staged.parts.len());
    match owners_of(loaded, true) {
        Err(e) => r == Err::<PathParts, WriteError>(WriteError::Target(e)),
        Ok(owners) => match r {
            Ok(p) => if unowned(owners, segments) {
                p == joined_path(joined_path(loaded.root@, loaded.project.source_root@), staged)
            } else {
                is_selected_source(owners, segments, p) && forall|q: PathParts| #[trigger]
                    is_selected_source(owners, segments, q) ==> q == p
            },
            Err(e) => e == WriteError::Ambiguous && sources_disagree(owners, segments),
        },
    }
}

pub open spec fn path_result(r: Result<FilePath, WriteError>) -> Result<PathParts, WriteError> {
    match r {
        Ok(p) => Ok(p@),
        Err(e) => Err(e),
    }
}

fn source_of_owner(owner: &Owner, segments: &Vec<String>) -> (r: FilePath)
    requires
        owner.target@.len() <= segments@.len(),
    ensures
        r@ == owner_source(owner@, texts(segments@)),
{
    assert(texts(owner.target@).len() == owner.target@.len());
    assert(texts(segments@).len() == segments@.len());
    if owner.kind == OwnerKind::Adapter {
        owner.source.copy()
    } else {
        owner.source.join_parts(segments, owner.target.len())
    }
}

/// Finds the source of a staged path.
pub fn project_staged_path_to_source(loaded: &LoadedProject, staged: &FilePath) -> (r: Result<FilePath, WriteError>)
    ensures
        is_staged_source(*loaded, staged@, path_result(r)),
{
    let segments = path_segments(staged);
    let ghost names = texts(segments@);
    assert(names.len() == segments@.len());
    let owners = match project_owners(loaded, true) {
        Err(e) => {
            return Err(WriteError::Target(e));
        },
        Ok(owners) => owners,
    };
    let ghost all = owner_views(owners@);
    assert(all.len() == owners@.len());
    match find_owner(&owners, &segments) {
        None => {
            let source_root = loaded.root.join(&loaded.project.source_root);
            Ok(source_root.join(staged))
        },
        Some((first, _)) => {
            assert(all[first as int] == owners@[first as int]@);
            assert(covers_target(all[first as int], names));
            assert(!unowned(all, names));
            assert(all[first as int].target.len() == owners@[first as int].target@.len());
            let longest = owners[first].target.len();
            let found = source_of_owner(&owners[first], &segments);
            proof {
                assert(is_selected_source(all, names, found@));
            }
            let mut i: usize = 0;
            while i < owners.len()
                invariant
                    i <= owners.len(),
                    all == owner_views(owners@),
                    all.len() == owners@.len(),
                    names == texts(segments@),
                    names.len() == segments@.len(),
                    names == named_parts(staged@.parts, staged@.parts.len()),
                    owners_of(*loaded, true) == Ok::<Seq<OwnerModel>, TargetProblem>(all),
                    is_first_owner(all, names, first as int),
                    longest == all[first as int].target.len(),
                    is_selected_source(all, names, found@),
                    !unowned(all, names),
                    forall|j: int|
                        0 <= j < i && covers_target(#[trigger] all[j], names) && all[j].target.len() == longest
                            ==> owner_source(all[j], names) == found@,
                decreases owners.len() - i,
            {
                assert(all[i as int] == owners@[i as int]@);
                assert(all[i as int].target.len() == owners@[i as int].target@.len());
                if owners[i].target.len() == longest && texts_start_with(&segments, &owners[i].target) {
                    let other = source_of_owner(&owners[i], &segments);
                    if !other.is_same(&found) {
                        proof {
                            assert(covers_target(all[i as int], names));
                            assert forall|j: int| 0 <= j < all.len() && covers_target(#[trigger] all[j], names) implies all[j].target.len()
                                <= all[i as int].target.len() by {}
                            assert(is_selected_source(all, names, other@));
                            assert(is_selected_source(all, names, found@));
                            assert(sources_disagree(all, names));
                        }
                        return Err(WriteError::Ambiguous);
                    }
                }
                i += 1;
            }
            assert forall|q: PathParts| #[trigger] is_selected_source(all, names, q) implies q == found@ by {
                let k = choose|k: int|
                    0 <= k < all.len() && covers_target(#[trigger] all[k], names) && (forall|j: int|
                        0 <= j < all.len() && covers_target(#[trigger] all[j], names) ==> all[j].target.len()
                            <= all[k].target.len()) && q == owner_source(all[k], names);
                assert(covers_target(all[first as int], names));
                assert(all[k].target.len() == longest);
            }
            Ok(found)
        },
    }
}

/// A mapping whose source holds a path.
pub open spec fn holds_source(m: MappingModel, source: PathParts) -> bool {
    path_starts_with(source, m.source)
}

/// The staged path of a source under a mapping.
pub open spec fn staged_under(m: MappingModel, source: PathParts) -> PathParts {
    PathParts { rooted: false, parts: m.target + path_after(source, m.source).parts }
}

/// A staged path of a source: under a mapping with the deepest source that holds it.
pub open spec fn is_staged_relative(list: Seq<MappingModel>, source: PathParts, p: PathParts) -> bool {
    exists|i: int|
        0 <= i < list.len() && holds_source(#[trigger] list[i], source) && (forall|j: int|
            0 <= j < list.len() && holds_source(#[trigger] list[j], source) ==> list[j].source.parts.len()
                <= list[i].source.parts.len()) && p == staged_under(list[i], source)
}

/// No mapping's source holds a path.
pub open spec fn no_source_holds(list: Seq<MappingModel>, source: PathParts) -> bool {
    forall|j: int| 0 <= j < list.len() ==> !holds_source(#[trigger] list[j], source)
}

/// `r` lists the staged paths of a source, in order.
pub open spec fn are_staged_relatives(loaded: LoadedProject, list: Seq<MappingModel>, source: PathParts, r: Seq<PathParts>) -> bool {
    let root = joined_path(loaded.root@, loaded.project.source_root@);
    if no_source_holds(list, source) {
        r == if path_starts_with(source, root) {
            seq![path_after(source, root)]
        } else {
            Seq::<PathParts>::empty()
        }
    } else {
        &&& ascending::<FilePath>(r)
        &&& forall|p: PathParts| #[trigger] r.contains(p) <==> is_staged_relative(list, source, p)
    }
}

/// The staged paths of a source: under the mappings with the deepest source that holds it, or below the
/// source root.
pub fn project_source_to_staged_relatives(
    loaded: &LoadedProject,
    mappings: &Vec<ProjectTargetSourceMapping>,
    source: &FilePath,
) -> (r: Vec<FilePath>)
    ensures
        are_staged_relatives(*loaded, mapping_views(mappings@), source@, path_views(r@)),
{
    let ghost list = mapping_views(mappings@);
    assert(list.len() == mappings@.len());
    let mut deepest: Option<usize> = None;
    let mut i: usize = 0;
    while i < mappings.len()
        invariant
            i <= mappings.len(),
            list == mapping_views(mappings@),
            match deepest {
                Some(d) => (exists|j: int|
                    0 <= j < i && holds_source(#[trigger] list[j], source@) && list[j].source.parts.len() == d) && forall|j: int|
                    0 <= j < i && holds_source(#[trigger] list[j], source@) ==> list[j].source.parts.len() <= d,
                None => forall|j: int| 0 <= j < i ==> !holds_source(#[trigger] list[j], source@),
            },
        decreases mappings.len() - i,
    {
        assert(list[i as int] == mappings@[i as int]@);
        assert(list[i as int].source.parts.len() == mappings@[i as int].source.parts@.len());
        if source.starts_with(&mappings[i].source) {
            let depth = mappings[i].source.parts.len();
            let deeper = match deepest {
                Some(d) => depth > d,
                None => true,
            };
            assert(holds_source(list[i as int], source@) && list[i as int].source.parts.len() == depth);
            if deeper {
                deepest = Some(depth);
            }
        }
        i += 1;
    }
    match deepest {
        None => {
            assert(no_source_holds(list, source@));
            let root = loaded.root.join(&loaded.project.source_root);
            let mut out: Vec<FilePath> = Vec::new();
            match source.strip_prefix(&root) {
                Some(rest) => {
                    out.push(rest);
                    assert(path_views(out@) =~= seq![rest@]);
                },
                None => {
                    assert(path_views(out@) =~= Seq::empty());
                },
            }
            out
        },
        Some(d) => {
            proof {
                let j = choose|j: int|
                    0 <= j < list.len() && holds_source(#[trigger] list[j], source@) && list[j].source.parts.len() == d;
                assert(holds_source(list[j], source@));
                assert(!no_source_holds(list, source@));
            }
            let mut set: SortedSet<FilePath> = SortedSet::new();
            let mut k: usize = 0;
            while k < mappings.len()
                invariant
                    k <= mappings.len(),
                    list == mapping_views(mappings@),
                    forall|p: PathParts| #[trigger]
                        set@.contains(p) <==> exists|j: int|
                            0 <= j < k && holds_source(#[trigger] list[j], source@) && list[j].source.parts.len() == d && p
                                == staged_under(list[j], source@),
                decreases mappings.len() - k,
            {
                let ghost before = set@;
                assert(list[k as int] == mappings@[k as int]@);
                assert(list[k as int].source.parts.len() == mappings@[k as int].source.parts@.len());
                let counts = mappings[k].source.parts.len() == d && source.starts_with(&mappings[k].source);
                if counts {
                    let mut parts = clone_texts(&mappings[k].target);
                    match source.strip_prefix(&mappings[k].source) {
                        Some(rest) => {
                            let all = joined_target(&parts, &rest.parts);
                            let staged = FilePath::relative(all);
                            assert(staged@ =~= staged_under(list[k as int], source@));
                            set.insert(staged);
                        },
                        None => {},
                    }
                }
                assert forall|p: PathParts| #[trigger]
                    set@.contains(p) <==> exists|j: int|
                        0 <= j < k + 1 && holds_source(#[trigger] list[j], source@) && list[j].source.parts.len() == d && p
                            == staged_under(list[j], source@) by {
                    assert(before.contains(p) <==> exists|j: int|
                        0 <= j < k && holds_source(#[trigger] list[j], source@) && list[j].source.parts.len() == d && p
                            == staged_under(list[j], source@));
                    if counts && p == staged_under(list[k as int], source@) {
                        assert(holds_source(list[k as int], source@));
                    }
                }
                k += 1;
            }
            let r = set.into_items();
            proof {
                let found = path_views(r@);
                assert(found =~= key_views(r@));
                assert forall|p: PathParts| #[trigger] found.contains(p) <==> is_staged_relative(list, source@, p) by {
                    let some = exists|j: int|
                        0 <= j < list.len() && holds_source(#[trigger] list[j], source@) && list[j].source.parts.len() == d && p
                            == staged_under(list[j], source@);
                    if some {
                        let j = choose|j: int|
                            0 <= j < list.len() && holds_source(#[trigger] list[j], source@) && list[j].source.parts.len() == d && p
                                == staged_under(list[j], source@);
                        assert forall|q: int| 0 <= q < list.len() && holds_source(#[trigger] list[q], source@) implies list[q].source.parts.len()
                            <= list[j].source.parts.len() by {}
                        assert(is_staged_relative(list, source@, p));
                    }
                    if is_staged_relative(list, source@, p) {
                        let m = choose|m: int|
                            0 <= m < list.len() && holds_source(#[trigger] list[m], source@) && (forall|j: int|
                                0 <= j < list.len() && holds_source(#[trigger] list[j], source@) ==> list[j].source.parts.len()
                                    <= list[m].source.parts.len()) && p == staged_under(list[m], source@);
                        let w = choose|w: int|
                            0 <= w < list.len() && holds_source(#[trigger] list[w], source@) && list[w].source.parts.len() == d;
                        assert(holds_source(list[w], source@));
                        assert(list[m].source.parts.len() == d);
                    }
                }
            }
            r
        },
    }
}

/// The staged path of a source leads back to it, through the mapping that it came by.
pub proof fn law_staged_path_leads_back(m: MappingModel, files: Map<PathParts, FactModel>, source: PathParts)
    requires
        holds_source(m, source),
        kind_at(files, m.source) != SourceKind::File,
    ensures
        mapping_accepts(m, files, staged_under(m, source).parts),
        source_under(m, files, staged_under(m, source).parts) == source,
{
    let staged = staged_under(m, source).parts;
    assert(staged.subrange(0, m.target.len() as int) =~= m.target);
    assert(staged.subrange(m.target.len() as int, staged.len() as int) =~= path_after(source, m.source).parts);
    assert(m.source.parts + path_after(source, m.source).parts =~= source.parts);
}

} // verus!
