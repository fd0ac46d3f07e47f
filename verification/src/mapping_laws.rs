//! Which part of a project a target belongs to.
use vstd::prelude::*;

use crate::mapping::{
    MappingModel, OwnerKind, OwnerModel, ProjectTree, WriteError, WriteModel, adapter_owners, covers_target,
    has_rival, is_first_owner, is_write, mapping_accepts, mount_owners, owner_mappings, owners_of,
    project_mappings, tree_owners, unowned,
};
use crate::paths::{PathParts, is_project_name, joined_path, last_name};
use crate::project::{
    AdapterDirection, FactModel, LoadedProject, MountOwnership, SourceKind, TreeNodeModel, all_tree_nodes,
    kind_at, target_checked,
};

verus! {

/// What a node of the tree owns.
pub open spec fn owns_by_tree(root: PathParts, nodes: Seq<TreeNodeModel>, n: int, x: OwnerModel) -> bool {
    exists|i: int|
        0 <= i < n && (#[trigger] nodes[i]).node.path is Some && x.kind == OwnerKind::Tree && x.target
            == nodes[i].target && x.source == joined_path(root, nodes[i].node.path->0@) && x.writable
}

/// What a mount owns.
pub open spec fn owns_by_mount(loaded: LoadedProject, n: int, x: OwnerModel) -> bool {
    exists|i: int|
        0 <= i < n && x.kind == OwnerKind::Mount && x.target == (#[trigger] loaded.project.mounts@[i]).target@.segments
            && x.source == joined_path(loaded.root@, loaded.project.mounts@[i].source@) && x.writable == (
        loaded.project.mounts@[i].ownership != MountOwnership::ReadOnly)
}

/// What an adapter owns.
pub open spec fn owns_by_adapter(loaded: LoadedProject, every: bool, n: int, x: OwnerModel) -> bool {
    exists|i: int|
        0 <= i < n && (every || (#[trigger] loaded.project.adapters@[i]).direction != AdapterDirection::FromProject)
            && x.kind == OwnerKind::Adapter && x.target == loaded.project.adapters@[i].target@.segments && x.source
            == joined_path(loaded.root@, loaded.project.adapters@[i].source@) && x.writable == (
        loaded.project.adapters@[i].direction != AdapterDirection::ToProject && is_project_name(last_name(x.source)))
}

proof fn lemma_push_contains<A>(s: Seq<A>, a: A, x: A)
    ensures
        s.push(a).contains(x) <==> s.contains(x) || x == a,
{
    let t = s.push(a);
    if s.contains(x) {
        let i = choose|i: int| 0 <= i < s.len() && s[i] == x;
        assert(t[i] == x);
    }
    if x == a {
        assert(t[s.len() as int] == x);
    }
    if t.contains(x) {
        let i = choose|i: int| 0 <= i < t.len() && t[i] == x;
        if i < s.len() {
            assert(s[i] == x);
        }
    }
}

proof fn lemma_tree_owners(root: PathParts, nodes: Seq<TreeNodeModel>, n: nat, x: OwnerModel)
    requires
        n <= nodes.len(),
    ensures
        tree_owners(root, nodes, n).contains(x) <==> owns_by_tree(root, nodes, n as int, x),
    decreases n,
{
    if n > 0 {
        lemma_tree_owners(root, nodes, (n - 1) as nat, x);
        let before = tree_owners(root, nodes, (n - 1) as nat);
        if owns_by_tree(root, nodes, n - 1, x) {
            let i = choose|i: int|
                0 <= i < n - 1 && (#[trigger] nodes[i]).node.path is Some && x.kind == OwnerKind::Tree && x.target
                    == nodes[i].target && x.source == joined_path(root, nodes[i].node.path->0@) && x.writable;
            assert(0 <= i < n && nodes[i].node.path is Some);
        }
        match nodes[n - 1].node.path {
            Some(path) => {
                lemma_push_contains(
                    before,
                    OwnerModel {
                        kind: OwnerKind::Tree,
                        target: nodes[n - 1].target,
                        source: joined_path(root, path@),
                        writable: true,
                    },
                    x,
                );
            },
            None => {},
        }
    }
}

proof fn lemma_mount_owners(loaded: LoadedProject, n: nat, x: OwnerModel)
    requires
        n <= loaded.project.mounts@.len(),
        mount_owners(loaded, n) is Ok,
    ensures
        mount_owners(loaded, n)->Ok_0.contains(x) <==> owns_by_tree(
            loaded.root@,
            all_tree_nodes(loaded.project),
            all_tree_nodes(loaded.project).len() as int,
            x,
        ) || owns_by_mount(loaded, n as int, x),
        forall|i: int| 0 <= i < n ==> target_checked((#[trigger] loaded.project.mounts@[i]).target@) is Ok,
    decreases n,
{
    if n == 0 {
        let nodes = all_tree_nodes(loaded.project);
        lemma_tree_owners(loaded.root@, nodes, nodes.len(), x);
    } else {
        lemma_mount_owners(loaded, (n - 1) as nat, x);
        let before = mount_owners(loaded, (n - 1) as nat)->Ok_0;
        let mount = loaded.project.mounts@[n - 1];
        let one = OwnerModel {
            kind: OwnerKind::Mount,
            target: mount.target@.segments,
            source: joined_path(loaded.root@, mount.source@),
            writable: mount.ownership != MountOwnership::ReadOnly,
        };
        lemma_push_contains(before, one, x);
        if owns_by_mount(loaded, n - 1, x) {
            let i = choose|i: int|
                0 <= i < n - 1 && x.kind == OwnerKind::Mount && x.target == (
                #[trigger] loaded.project.mounts@[i]).target@.segments && x.source == joined_path(
                    loaded.root@,
                    loaded.project.mounts@[i].source@,
                ) && x.writable == (loaded.project.mounts@[i].ownership != MountOwnership::ReadOnly);
            assert(x.target == loaded.project.mounts@[i].target@.segments);
        }
        if x == one {
            assert(x.target == loaded.project.mounts@[n - 1].target@.segments);
            assert(owns_by_mount(loaded, n as int, x));
        }
    }
}

#[verifier::rlimit(50)]
proof fn lemma_adapter_owners(loaded: LoadedProject, every: bool, n: nat, x: OwnerModel)
    requires
        n <= loaded.project.adapters@.len(),
        adapter_owners(loaded, every, n) is Ok,
    ensures
        adapter_owners(loaded, every, n)->Ok_0.contains(x) <==> owns_by_tree(
            loaded.root@,
            all_tree_nodes(loaded.project),
            all_tree_nodes(loaded.project).len() as int,
            x,
        ) || owns_by_mount(loaded, loaded.project.mounts@.len() as int, x) || owns_by_adapter(
            loaded,
            every,
            n as int,
            x,
        ),
    decreases n,
{
    if n == 0 {
        lemma_mount_owners(loaded, loaded.project.mounts@.len(), x);
    } else {
        lemma_adapter_owners(loaded, every, (n - 1) as nat, x);
        let before = adapter_owners(loaded, every, (n - 1) as nat)->Ok_0;
        let adapter = loaded.project.adapters@[n - 1];
        let source = joined_path(loaded.root@, adapter.source@);
        let one = OwnerModel {
            kind: OwnerKind::Adapter,
            target: adapter.target@.segments,
            source,
            writable: adapter.direction != AdapterDirection::ToProject && is_project_name(last_name(source)),
        };
        lemma_push_contains(before, one, x);
        if owns_by_adapter(loaded, every, n - 1, x) {
            let i = choose|i: int|
                0 <= i < n - 1 && (every || (#[trigger] loaded.project.adapters@[i]).direction
                    != AdapterDirection::FromProject) && x.kind == OwnerKind::Adapter && x.target
                    == loaded.project.adapters@[i].target@.segments && x.source == joined_path(
                    loaded.root@,
                    loaded.project.adapters@[i].source@,
                ) && x.writable == (loaded.project.adapters@[i].direction != AdapterDirection::ToProject
                    && is_project_name(last_name(x.source)));
            let a = loaded.project.adapters@[i];
            assert(owns_by_adapter(loaded, every, n as int, x));
        }
        if x == one && (every || adapter.direction != AdapterDirection::FromProject) {
            assert(loaded.project.adapters@[n - 1].target@.segments == x.target);
            assert(owns_by_adapter(loaded, every, n as int, x));
        }
    }
}

/// The owners of a project's targets are the nodes of its tree that have a source, its mounts, and
/// its adapters that bring something into the project, or all of them where that is asked for. A
/// mount for reading is not written to, nor an adapter that only brings something in.
pub proof fn law_owners_are_the_parts_of_a_project(loaded: LoadedProject, every: bool, x: OwnerModel)
    requires
        owners_of(loaded, every) is Ok,
    ensures
        owners_of(loaded, every)->Ok_0.contains(x) <==> owns_by_tree(
            loaded.root@,
            all_tree_nodes(loaded.project),
            all_tree_nodes(loaded.project).len() as int,
            x,
        ) || owns_by_mount(loaded, loaded.project.mounts@.len() as int, x) || owns_by_adapter(
            loaded,
            every,
            loaded.project.adapters@.len() as int,
            x,
        ),
{
    lemma_adapter_owners(loaded, every, loaded.project.adapters@.len(), x);
}

/// A write goes to the owner that is closest to its target: to the owner's source, and below it to
/// what is left of the target. Owners that are not written to, and targets below a file, are
/// refused; a project file is asked itself.
pub proof fn law_write_goes_to_the_closest_owner(
    loaded: LoadedProject,
    files: Map<PathParts, FactModel>,
    segments: Seq<Seq<char>>,
    mounted_root: bool,
    r: Result<WriteModel, WriteError>,
    i: int,
)
    requires
        is_write(loaded, files, segments, mounted_root, r),
        owners_of(loaded, true) is Ok,
        0 <= i < owners_of(loaded, true)->Ok_0.len(),
        owners_of(loaded, true)->Ok_0[i].target.is_prefix_of(segments),
        forall|j: int|
            0 <= j < owners_of(loaded, true)->Ok_0.len() && j != i && (#[trigger] owners_of(loaded, true)->Ok_0[j]).target.is_prefix_of(
                segments,
            ) ==> owners_of(loaded, true)->Ok_0[j].target.len() < owners_of(loaded, true)->Ok_0[i].target.len(),
    ensures
        ({
            let owner = owners_of(loaded, true)->Ok_0[i];
            let rest = segments.skip(owner.target.len() as int);
            let file = kind_at(files, owner.source) == SourceKind::File;
            &&& !owner.writable ==> r == Err::<WriteModel, WriteError>(WriteError::NotWritable(owner.kind))
            &&& owner.writable && file && rest.len() > 0 && !is_project_name(last_name(owner.source)) ==> r == Err::<
                WriteModel,
                WriteError,
            >(WriteError::BelowFile)
            &&& owner.writable && file && rest.len() > 0 && is_project_name(last_name(owner.source)) ==> r == Ok::<
                WriteModel,
                WriteError,
            >(WriteModel::Nested { source: owner.source, consumed: owner.target.len() as int })
            &&& owner.writable && (!file || rest.len() == 0) ==> {
                &&& r is Ok
                &&& r->Ok_0 is Resolved
                &&& r->Ok_0->Resolved_0.owner == owner.kind
                &&& r->Ok_0->Resolved_0.source_root == owner.source
                &&& r->Ok_0->Resolved_0.consumed_segments == owner.target.len()
                &&& r->Ok_0->Resolved_0.path.rooted == owner.source.rooted
                &&& r->Ok_0->Resolved_0.path.parts == if owner.kind == OwnerKind::Adapter {
                    owner.source.parts
                } else {
                    owner.source.parts + rest
                }
            }
        }),
{
    let owners = owners_of(loaded, true)->Ok_0;
    assert forall|j: int| 0 <= j < owners.len() && covers_target(#[trigger] owners[j], segments) implies owners[j].target.len()
        < owners[i].target.len() || (owners[j].target.len() == owners[i].target.len() && i <= j) by {}
    assert(is_first_owner(owners, segments, i));
    assert(!has_rival(owners, segments, i));
    let len = owners[i].target.len() as int;
    assert(segments.subrange(len, segments.len() as int) =~= segments.skip(len));
}

/// A write that two owners are equally close to is refused, and one that no owner covers goes
/// below the root of the sources.
#[verifier::rlimit(50)]
pub proof fn law_write_without_one_owner(
    loaded: LoadedProject,
    files: Map<PathParts, FactModel>,
    segments: Seq<Seq<char>>,
    mounted_root: bool,
    r: Result<WriteModel, WriteError>,
    i: int,
    j: int,
)
    requires
        is_write(loaded, files, segments, mounted_root, r),
        owners_of(loaded, true) is Ok,
    ensures
        ({
            let owners = owners_of(loaded, true)->Ok_0;
            let root = joined_path(loaded.root@, loaded.project.source_root@);
            &&& 0 <= i < j < owners.len() && owners[i].target.is_prefix_of(segments) && owners[j].target
                == owners[i].target && (forall|k: int|
                0 <= k < owners.len() && (#[trigger] owners[k]).target.is_prefix_of(segments) ==> owners[k].target.len()
                    <= owners[i].target.len()) ==> r == Err::<WriteModel, WriteError>(WriteError::Ambiguous)
            &&& (forall|k: int| 0 <= k < owners.len() ==> !(#[trigger] owners[k]).target.is_prefix_of(segments)) ==> {
                &&& r is Ok
                &&& r->Ok_0 is Resolved
                &&& r->Ok_0->Resolved_0.owner == OwnerKind::SourceRoot
                &&& r->Ok_0->Resolved_0.path.rooted == root.rooted
                &&& r->Ok_0->Resolved_0.path.parts == root.parts + segments
                &&& mounted_root || segments.len() == 0 ==> r->Ok_0->Resolved_0.source_root == root
                    && r->Ok_0->Resolved_0.consumed_segments == 0
                &&& !mounted_root && segments.len() > 0 ==> r->Ok_0->Resolved_0.source_root.parts
                    == root.parts.push(segments[0]) && r->Ok_0->Resolved_0.consumed_segments == 1
            }
        }),
{
    let owners = owners_of(loaded, true)->Ok_0;
    assert(segments.subrange(0, segments.len() as int) =~= segments);
    if forall|k: int| 0 <= k < owners.len() ==> !(#[trigger] owners[k]).target.is_prefix_of(segments) {
        assert(unowned(owners, segments)) by {
            assert forall|k: int| 0 <= k < owners.len() implies !covers_target(#[trigger] owners[k], segments) by {}
        }
    } else if 0 <= i < j < owners.len() && owners[i].target.is_prefix_of(segments) && owners[j].target
        == owners[i].target && (forall|k: int|
        0 <= k < owners.len() && (#[trigger] owners[k]).target.is_prefix_of(segments) ==> owners[k].target.len()
            <= owners[i].target.len()) {
        assert(covers_target(owners[i], segments));
        assert(covers_target(owners[j], segments));
        assert(!unowned(owners, segments));
        let f = choose|f: int| #[trigger] is_first_owner(owners, segments, f);
        assert(owners[f].target.len() == owners[i].target.len());
        if f == i {
            assert(j != f && covers_target(owners[j], segments));
        } else {
            assert(i != f && covers_target(owners[i], segments));
        }
        assert(has_rival(owners, segments, f));
    }
}

/// A target is taken by a source whose target is above it, and by a file only where it is its own.
pub proof fn law_mappings_accept_what_is_below(
    m: MappingModel,
    files: Map<PathParts, FactModel>,
    target: Seq<Seq<char>>,
)
    ensures
        mapping_accepts(m, files, m.target),
        mapping_accepts(m, files, target) ==> m.target.is_prefix_of(target),
        m.target.is_prefix_of(target) && kind_at(files, m.source) != SourceKind::File ==> mapping_accepts(
            m,
            files,
            target,
        ),
        kind_at(files, m.source) == SourceKind::File && target != m.target ==> !mapping_accepts(m, files, target),
{
}

proof fn lemma_mapped(tree: ProjectTree, owners: Seq<OwnerModel>, prefix: Seq<Seq<char>>, n: nat, i: int)
    requires
        n <= owners.len(),
        0 <= i < n,
        owner_mappings(tree, owners, prefix, n) is Ok,
        i >= tree.nested@.len() || tree.nested@[i] is None,
    ensures
        owner_mappings(tree, owners, prefix, n)->Ok_0.contains(
            MappingModel {
                target: prefix + owners[i].target,
                source: owners[i].source,
                naming: crate::project::project_naming(tree.loaded.project),
            },
        ),
    decreases n,
{
    let x = MappingModel {
        target: prefix + owners[i].target,
        source: owners[i].source,
        naming: crate::project::project_naming(tree.loaded.project),
    };
    let before = owner_mappings(tree, owners, prefix, (n - 1) as nat)->Ok_0;
    let after = owner_mappings(tree, owners, prefix, n)->Ok_0;
    if i == n - 1 {
        lemma_push_contains(before, x, x);
    } else {
        lemma_mapped(tree, owners, prefix, (n - 1) as nat, i);
        let k = choose|k: int| 0 <= k < before.len() && before[k] == x;
        assert(after[k] == x);
    }
}

/// Every owner that is no project of its own is a source of its target.
pub proof fn law_owners_are_mapped(tree: ProjectTree, i: int)
    requires
        project_mappings(tree) is Ok,
        0 <= i < owners_of(tree.loaded, false)->Ok_0.len(),
        i >= tree.nested@.len() || tree.nested@[i] is None,
    ensures
        exists|k: int|
            0 <= k < project_mappings(tree)->Ok_0.len() && (#[trigger] project_mappings(tree)->Ok_0[k]).target
                == owners_of(tree.loaded, false)->Ok_0[i].target && project_mappings(tree)->Ok_0[k].source
                == owners_of(tree.loaded, false)->Ok_0[i].source,
{
    let owners = owners_of(tree.loaded, false)->Ok_0;
    lemma_mapped(tree, owners, Seq::empty(), owners.len(), i);
    let list = project_mappings(tree)->Ok_0;
    let x = MappingModel {
        target: Seq::<Seq<char>>::empty() + owners[i].target,
        source: owners[i].source,
        naming: crate::project::project_naming(tree.loaded.project),
    };
    assert(Seq::<Seq<char>>::empty() + owners[i].target =~= owners[i].target);
    let k = choose|k: int| 0 <= k < list.len() && list[k] == x;
    assert(list[k].target == owners[i].target);
}

} // verus!
