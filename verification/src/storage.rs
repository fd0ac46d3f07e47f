//! Where the stores of instances stand: apart from the scripts of a project that was loaded, and
//! beside them in a projection.
use vstd::prelude::*;

use crate::link_apply::value_of;
use crate::order::{ascending, SortedSet};
use crate::paths::{
    extension_of, joined_path, last_dot, last_name, path_after, path_starts_with, path_views, portable_path, split_extension, stem_of,
    validate_relative_portable_path, FilePath, PathParts, PortableError,
};
use crate::project::{
    all_tree_nodes, key_at, kind_at, project_tree_nodes, tree_views, FactModel, Files, LoadedProject, ReniumProject, SourceKind,
    TreeNodeModel,
};
use crate::table::{key_views, Table};
use crate::text::{clone_texts, joined, lemma_texts_push, same, texts};

verus! {

broadcast use vstd::seq_lib::group_seq_properties;

/// The name of a store that stands beside scripts.
pub const SERVICE_SETTINGS_FILE_NAME: &'static str = "__roblox_sync_settings.renium";

/// Sources of scripts whose store stands elsewhere than their name says.
pub struct MappedStore {
    pub source: FilePath,
    pub store: FilePath,
}

#[verifier::ext_equal]
pub struct MappedModel {
    pub source: PathParts,
    pub store: PathParts,
}

impl View for MappedStore {
    type V = MappedModel;

    open spec fn view(&self) -> MappedModel {
        MappedModel { source: self.source@, store: self.store@ }
    }
}

pub open spec fn mapped_views(v: Seq<MappedStore>) -> Seq<MappedModel> {
    Seq::new(v.len(), |i: int| v[i]@)
}

/// Where a project keeps its stores.
pub struct StoreLayout {
    pub project: FilePath,
    pub source: FilePath,
    pub mapped: Vec<MappedStore>,
}

#[verifier::ext_equal]
pub struct LayoutModel {
    pub project: PathParts,
    pub source: PathParts,
    pub mapped: Seq<MappedModel>,
}

impl View for StoreLayout {
    type V = LayoutModel;

    open spec fn view(&self) -> LayoutModel {
        LayoutModel { project: self.project@, source: self.source@, mapped: mapped_views(self.mapped@) }
    }
}

pub open spec fn layout_views(v: Seq<StoreLayout>) -> Seq<LayoutModel> {
    Seq::new(v.len(), |i: int| v[i]@)
}

/// A path followed by one component.
pub open spec fn below(path: PathParts, name: Seq<char>) -> PathParts {
    PathParts { rooted: path.rooted, parts: path.parts.push(name) }
}

/// The directory of a project's stores.
pub open spec fn instances_of(project: PathParts) -> PathParts {
    below(project, "instances"@)
}

/// A source of scripts: what it stands for, and its directory.
pub struct ScriptSource {
    pub target: Vec<String>,
    pub source: FilePath,
}

#[verifier::ext_equal]
pub struct ScriptSourceModel {
    pub target: Seq<Seq<char>>,
    pub source: PathParts,
}

impl View for ScriptSource {
    type V = ScriptSourceModel;

    open spec fn view(&self) -> ScriptSourceModel {
        ScriptSourceModel { target: texts(self.target@), source: self.source@ }
    }
}

pub open spec fn source_views(v: Seq<ScriptSource>) -> Seq<ScriptSourceModel> {
    Seq::new(v.len(), |i: int| v[i]@)
}

/// The sources of the first `n` tree nodes.
pub open spec fn tree_sources(nodes: Seq<TreeNodeModel>, n: nat) -> Seq<ScriptSourceModel>
    decreases n,
{
    if n == 0 {
        Seq::empty()
    } else {
        let before = tree_sources(nodes, (n - 1) as nat);
        match nodes[n - 1].node.path {
            Some(path) => before.push(ScriptSourceModel { target: nodes[n - 1].target, source: path@ }),
            None => before,
        }
    }
}

/// The sources that a project's tree and mounts name.
pub open spec fn script_sources_of(project: ReniumProject) -> Seq<ScriptSourceModel> {
    let nodes = all_tree_nodes(project);
    tree_sources(nodes, nodes.len()) + Seq::new(
        project.mounts@.len(),
        |i: int| ScriptSourceModel { target: project.mounts@[i].target@.segments, source: project.mounts@[i].source@ },
    )
}

/// Lists the sources that a project's tree and mounts name.
pub fn script_sources(project: &ReniumProject) -> (r: Vec<ScriptSource>)
    ensures
        source_views(r@) == script_sources_of(*project),
{
    let mut out: Vec<ScriptSource> = Vec::new();
    assert(source_views(out@) =~= Seq::empty());
    let nodes = project_tree_nodes(&project.tree);
    let ghost all = tree_views(nodes@);
    assert(all.len() == nodes@.len());
    let mut i: usize = 0;
    while i < nodes.len()
        invariant
            i <= nodes.len(),
            all == tree_views(nodes@),
            source_views(out@) == tree_sources(all, i as nat),
        decreases nodes.len() - i,
    {
        assert(all[i as int] == nodes@[i as int]@);
        match &nodes[i].node.path {
            Some(path) => {
                let ghost before = out@;
                let x = ScriptSource { target: clone_texts(&nodes[i].target), source: path.copy() };
                out.push(x);
                assert(source_views(out@) =~= source_views(before).push(x@));
            },
            None => {},
        }
        i += 1;
    }
    let ghost first = source_views(out@);
    let ghost more = Seq::new(
        project.mounts@.len(),
        |i: int| ScriptSourceModel { target: project.mounts@[i].target@.segments, source: project.mounts@[i].source@ },
    );
    let mut m: usize = 0;
    assert(first + more.take(0) =~= first);
    while m < project.mounts.len()
        invariant
            m <= project.mounts.len(),
            more == Seq::new(
                project.mounts@.len(),
                |i: int|
                    ScriptSourceModel { target: project.mounts@[i].target@.segments, source: project.mounts@[i].source@ },
            ),
            source_views(out@) == first + more.take(m as int),
        decreases project.mounts.len() - m,
    {
        let ghost before = out@;
        let x = ScriptSource { target: project.mounts[m].target.segments(), source: project.mounts[m].source.copy() };
        out.push(x);
        proof {
            assert(more[m as int] == x@);
            assert(source_views(out@) =~= source_views(before).push(x@));
            assert((first + more.take(m as int)).push(x@) =~= first + more.take(m + 1));
        }
        m += 1;
    }
    assert(more.take(m as int) =~= more);
    out
}

/// Why a project's stores have no place.
#[derive(PartialEq, Eq, Structural, Clone, Copy, Debug)]
pub enum StorageError {
    /// The source root is no portable path.
    SourceRoot(PortableError),
    /// The source root and the directory of stores hold one another.
    SourceRootHoldsStores,
    /// A source is no portable path.
    Source(usize, PortableError),
    /// A source and the directory of stores hold one another.
    SourceHoldsStores(usize),
}

pub open spec fn hold_one_another(a: PathParts, b: PathParts) -> bool {
    path_starts_with(a, b) || path_starts_with(b, a)
}

/// The name that a segment has among files.
pub open spec fn file_name_of(names: Map<Seq<char>, Seq<char>>, segment: Seq<char>) -> Seq<char> {
    match value_of(names, segment) {
        Some(name) => name,
        None => segment,
    }
}

/// The store of a target.
pub open spec fn store_of(instances: PathParts, target: Seq<Seq<char>>, names: Map<Seq<char>, Seq<char>>) -> PathParts {
    let parts = instances.parts + Seq::new(target.len(), |i: int| file_name_of(names, target[i]));
    PathParts { rooted: instances.rooted, parts: parts.drop_last().push(parts.last() + ".renium"@) }
}

/// A file, or what is missing but has the name of a file.
pub open spec fn is_single_file(kind: SourceKind, source: PathParts) -> bool {
    kind == SourceKind::File || (kind != SourceKind::Directory && extension_of(last_name(source)) is Some)
}

/// The stores of the sources from the `i`th on that stand elsewhere than their names say.
pub open spec fn mapped_from(
    root: PathParts,
    layout_source: PathParts,
    sources: Seq<ScriptSourceModel>,
    files: Map<PathParts, FactModel>,
    names: Map<Seq<char>, Seq<char>>,
    i: int,
) -> Result<Seq<MappedModel>, StorageError>
    decreases sources.len() - i,
{
    if i < 0 || i >= sources.len() {
        Ok(Seq::empty())
    } else {
        let x = sources[i];
        let source = joined_path(root, x.source);
        let instances = instances_of(root);
        let rest = mapped_from(root, layout_source, sources, files, names, i + 1);
        match portable_path(x.source) {
            Err(e) => Err(StorageError::Source(i as usize, e)),
            Ok(_) => if is_single_file(kind_at(files, source), source) {
                rest
            } else if hold_one_another(source, instances) {
                Err(StorageError::SourceHoldsStores(i as usize))
            } else {
                let store = store_of(instances, x.target, names);
                match rest {
                    Err(e) => Err(e),
                    Ok(rest) => if source == below(layout_source, stem_of(last_name(store))) {
                        Ok(rest)
                    } else {
                        Ok(seq![MappedModel { source, store }] + rest)
                    },
                }
            },
        }
    }
}

/// Where a project that was loaded keeps its stores.
pub open spec fn layout_of(loaded: LoadedProject, files: Map<PathParts, FactModel>, names: Map<Seq<char>, Seq<char>>) -> Result<
    LayoutModel,
    StorageError,
> {
    let source = joined_path(loaded.root@, loaded.project.source_root@);
    match portable_path(loaded.project.source_root@) {
        Err(e) => Err(StorageError::SourceRoot(e)),
        Ok(_) => if hold_one_another(source, instances_of(loaded.root@)) {
            Err(StorageError::SourceRootHoldsStores)
        } else {
            match mapped_from(loaded.root@, source, script_sources_of(loaded.project), files, names, 0) {
                Err(e) => Err(e),
                Ok(mapped) => Ok(LayoutModel { project: loaded.root@, source, mapped }),
            }
        },
    }
}

fn file_names(target: &Vec<String>, names: &Table<String, String>) -> (r: Vec<String>)
    ensures
        texts(r@) == Seq::new(target@.len(), |i: int| file_name_of(names@, texts(target@)[i])),
{
    let ghost wanted = Seq::new(target@.len(), |i: int| file_name_of(names@, texts(target@)[i]));
    let mut out: Vec<String> = Vec::new();
    let mut i: usize = 0;
    while i < target.len()
        invariant
            i <= target.len(),
            wanted == Seq::new(target@.len(), |i: int| file_name_of(names@, texts(target@)[i])),
            texts(out@) =~= wanted.take(i as int),
        decreases target.len() - i,
    {
        assert(texts(target@)[i as int] == target@[i as int]@);
        let name = match names.get(&target[i]) {
            Some(name) => name.clone(),
            None => target[i].clone(),
        };
        proof {
            assert(wanted[i as int] == name@);
            lemma_texts_push(out@, name);
        }
        out.push(name);
        i += 1;
    }
    assert(wanted.take(i as int) =~= wanted);
    out
}

fn store_path(instances: &FilePath, target: &Vec<String>, names: &Table<String, String>) -> (r: FilePath)
    requires
        instances@.parts.len() > 0,
    ensures
        r@ == store_of(instances@, texts(target@), names@),
{
    let more = file_names(target, names);
    let ghost listed = Seq::new(target@.len(), |i: int| file_name_of(names@, texts(target@)[i]));
    let ghost wanted = Seq::new(texts(target@).len(), |i: int| file_name_of(names@, texts(target@)[i]));
    assert(listed =~= wanted);
    let whole = instances.join_parts(&more, 0);
    assert(texts(more@).subrange(0, more@.len() as int) =~= texts(more@));
    let count: usize = whole.parts.len();
    assert(whole@.parts.len() == count);
    let last = joined(&whole.parts[count - 1], ".renium");
    assert(whole@.parts.last() == whole.parts@[count - 1]@);
    match whole.parent() {
        Some(parent) => parent.child(&last),
        None => whole,
    }
}

/// Finds where a project that was loaded keeps its stores. The names that segments have among files
/// are given where they differ from the segments.
pub fn prepare(loaded: &LoadedProject, files: &Files, names: &Table<String, String>) -> (r: Result<StoreLayout, StorageError>)
    ensures
        match r {
            Ok(layout) => layout_of(*loaded, files@, names@) == Ok::<LayoutModel, StorageError>(layout@),
            Err(e) => layout_of(*loaded, files@, names@) == Err::<LayoutModel, StorageError>(e),
        },
{
    match validate_relative_portable_path(&loaded.project.source_root) {
        Ok(_) => {},
        Err(e) => {
            return Err(StorageError::SourceRoot(e));
        },
    }
    let layout_source = loaded.root.join(&loaded.project.source_root);
    let instances = loaded.root.child("instances");
    if layout_source.starts_with(&instances) || instances.starts_with(&layout_source) {
        return Err(StorageError::SourceRootHoldsStores);
    }
    let sources = script_sources(&loaded.project);
    let ghost all = source_views(sources@);
    assert(all.len() == sources@.len());
    let ghost whole = mapped_from(loaded.root@, layout_source@, all, files@, names@, 0);
    let mut mapped: Vec<MappedStore> = Vec::new();
    assert(mapped_views(mapped@) =~= Seq::empty());
    let mut i: usize = 0;
    assert(whole is Ok ==> mapped_views(mapped@) + whole->Ok_0 =~= whole->Ok_0);
    while i < sources.len()
        invariant
            i <= sources.len(),
            all == source_views(sources@),
            all == script_sources_of(loaded.project),
            all.len() == sources@.len(),
            portable_path(loaded.project.source_root@) is Ok,
            layout_source@ == joined_path(loaded.root@, loaded.project.source_root@),
            instances@ == instances_of(loaded.root@),
            !hold_one_another(layout_source@, instances@),
            whole == mapped_from(loaded.root@, layout_source@, all, files@, names@, 0),
            whole == match mapped_from(loaded.root@, layout_source@, all, files@, names@, i as int) {
                Ok(rest) => Ok(mapped_views(mapped@) + rest),
                Err(e) => Err(e),
            },
        decreases sources.len() - i,
    {
        let x = &sources[i];
        assert(all[i as int] == x@);
        let ghost rest = mapped_from(loaded.root@, layout_source@, all, files@, names@, i + 1);
        match validate_relative_portable_path(&x.source) {
            Ok(_) => {},
            Err(e) => {
                return Err(StorageError::Source(i, e));
            },
        }
        let source = loaded.root.join(&x.source);
        let kind = files.kind(&source);
        let name = source.file_name();
        let (_, extension) = split_extension(&name);
        if kind == SourceKind::File || (kind != SourceKind::Directory && extension.is_some()) {
            i += 1;
            continue;
        }
        if source.starts_with(&instances) || instances.starts_with(&source) {
            return Err(StorageError::SourceHoldsStores(i));
        }
        let store = store_path(&instances, &x.target, names);
        let store_name = store.file_name();
        let (stem, _) = split_extension(&store_name);
        let plain = layout_source.child(&stem);
        if !source.is_same(&plain) {
            let ghost before = mapped@;
            let entry = MappedStore { source, store };
            mapped.push(entry);
            proof {
                assert(mapped_views(mapped@) =~= mapped_views(before).push(entry@));
                if rest is Ok {
                    assert(mapped_views(before) + (seq![entry@] + rest->Ok_0) =~= mapped_views(mapped@) + rest->Ok_0);
                }
            }
        }
        i += 1;
    }
    assert(mapped_views(mapped@) + Seq::<MappedModel>::empty() =~= mapped_views(mapped@));
    Ok(StoreLayout { project: loaded.root.copy(), source: layout_source, mapped })
}

/// The first `n` layouts, without those of a project and those of a source.
pub open spec fn layouts_apart(
    list: Seq<LayoutModel>,
    files: Map<PathParts, FactModel>,
    layout: LayoutModel,
    n: nat,
) -> Seq<LayoutModel>
    decreases n,
{
    if n == 0 {
        Seq::empty()
    } else {
        let before = layouts_apart(list, files, layout, (n - 1) as nat);
        let x = list[n - 1];
        if x.project == layout.project || key_at(files, x.source) == key_at(files, layout.source) {
            before
        } else {
            before.push(x)
        }
    }
}

/// Notes where a project keeps its stores, in place of what was noted of the project or its sources.
pub fn register(list: &mut Vec<StoreLayout>, files: &Files, layout: StoreLayout)
    ensures
        layout_views(final(list)@) == layouts_apart(layout_views(old(list)@), files@, layout@, old(list)@.len()).push(
            layout@,
        ),
{
    let ghost all = layout_views(list@);
    let ghost total = list@.len();
    let key = files.key(&layout.source);
    let ghost mut done: nat = 0;
    let mut i: usize = 0;
    assert(all =~= layouts_apart(all, files@, layout@, 0) + all.skip(0));
    while i < list.len()
        invariant
            all.len() == total,
            done <= total,
            i <= list.len(),
            i == layouts_apart(all, files@, layout@, done).len(),
            key@ == key_at(files@, layout@.source),
            layout_views(list@) == layouts_apart(all, files@, layout@, done) + all.skip(done as int),
        decreases list.len() - i,
    {
        let ghost kept = layouts_apart(all, files@, layout@, done);
        let ghost before = list@;
        assert(layout_views(before).len() == before.len());
        assert(layout_views(before)[i as int] == list@[i as int]@);
        assert(all.skip(done as int)[0] == all[done as int]);
        let other = files.key(&list[i].source);
        if list[i].project.is_same(&layout.project) || same(&other, &key) {
            list.remove(i);
            assert(layout_views(list@) =~= layout_views(before).remove(i as int));
            assert(layout_views(list@) =~= kept + all.skip((done + 1) as int));
        } else {
            assert(layout_views(list@) =~= kept.push(all[done as int]) + all.skip((done + 1) as int));
            i += 1;
        }
        proof {
            done = done + 1;
        }
    }
    proof {
        assert(layout_views(list@).len() == list@.len());
        assert(layout_views(list@) =~= layouts_apart(all, files@, layout@, total));
    }
    let ghost before = list@;
    list.push(layout);
    assert(layout_views(list@) =~= layout_views(before).push(layout@));
}

/// The first `n` layouts of projects that are not in a directory.
pub open spec fn layouts_outside(list: Seq<LayoutModel>, root: PathParts, n: nat) -> Seq<LayoutModel>
    decreases n,
{
    if n == 0 {
        Seq::empty()
    } else {
        let before = layouts_outside(list, root, (n - 1) as nat);
        if path_starts_with(list[n - 1].project, root) {
            before
        } else {
            before.push(list[n - 1])
        }
    }
}

/// Drops what was noted of projects in a directory.
pub fn forget(list: &mut Vec<StoreLayout>, root: &FilePath)
    ensures
        layout_views(final(list)@) == layouts_outside(layout_views(old(list)@), root@, old(list)@.len()),
{
    let ghost all = layout_views(list@);
    let ghost total = list@.len();
    let ghost mut done: nat = 0;
    let mut i: usize = 0;
    assert(all =~= layouts_outside(all, root@, 0) + all.skip(0));
    while i < list.len()
        invariant
            all.len() == total,
            done <= total,
            i <= list.len(),
            i == layouts_outside(all, root@, done).len(),
            layout_views(list@) == layouts_outside(all, root@, done) + all.skip(done as int),
        decreases list.len() - i,
    {
        let ghost kept = layouts_outside(all, root@, done);
        let ghost before = list@;
        assert(layout_views(before).len() == before.len());
        assert(layout_views(before)[i as int] == list@[i as int]@);
        assert(all.skip(done as int)[0] == all[done as int]);
        if list[i].project.starts_with(root) {
            list.remove(i);
            assert(layout_views(list@) =~= layout_views(before).remove(i as int));
            assert(layout_views(list@) =~= kept + all.skip((done + 1) as int));
        } else {
            assert(layout_views(list@) =~= kept.push(all[done as int]) + all.skip((done + 1) as int));
            i += 1;
        }
        proof {
            done = done + 1;
        }
    }
    proof {
        assert(layout_views(list@).len() == list@.len());
        assert(layout_views(list@) =~= layouts_outside(all, root@, total));
    }
}

/// The first layout at or after the `i`th whose source is another spelling of a path.
pub open spec fn layout_at(list: Seq<LayoutModel>, files: Map<PathParts, FactModel>, source: PathParts, i: int) -> Option<LayoutModel>
    decreases list.len() - i,
{
    if i < 0 || i >= list.len() {
        None
    } else if key_at(files, list[i].source) == key_at(files, source) {
        Some(list[i])
    } else {
        layout_at(list, files, source, i + 1)
    }
}

/// The directory of stores of the project with some sources.
pub open spec fn instances_root_of(list: Seq<LayoutModel>, files: Map<PathParts, FactModel>, source: PathParts) -> Option<PathParts> {
    match layout_at(list, files, source, 0) {
        Some(layout) => Some(instances_of(layout.project)),
        None => None,
    }
}

/// Finds the directory of stores of the project with some sources.
pub fn instances_root(list: &Vec<StoreLayout>, files: &Files, source: &FilePath) -> (r: Option<FilePath>)
    ensures
        match r {
            Some(path) => instances_root_of(layout_views(list@), files@, source@) == Some(path@),
            None => instances_root_of(layout_views(list@), files@, source@) is None,
        },
{
    let ghost all = layout_views(list@);
    let key = files.key(source);
    let mut i: usize = 0;
    while i < list.len()
        invariant
            i <= list.len(),
            all == layout_views(list@),
            key@ == key_at(files@, source@),
            layout_at(all, files@, source@, 0) == layout_at(all, files@, source@, i as int),
        decreases list.len() - i,
    {
        assert(all[i as int] == list@[i as int]@);
        let other = files.key(&list[i].source);
        if same(&other, &key) {
            return Some(list[i].project.child("instances"));
        }
        i += 1;
    }
    None
}

/// The first layout at or after the `i`th with a directory of stores.
pub open spec fn layout_with_instances(list: Seq<LayoutModel>, instances: PathParts, i: int) -> Option<LayoutModel>
    decreases list.len() - i,
{
    if i < 0 || i >= list.len() {
        None
    } else if instances_of(list[i].project) == instances {
        Some(list[i])
    } else {
        layout_with_instances(list, instances, i + 1)
    }
}

/// Finds the sources of the project with a directory of stores.
pub fn source_for_instances(list: &Vec<StoreLayout>, root: &FilePath) -> (r: Option<FilePath>)
    ensures
        match r {
            Some(path) => layout_with_instances(layout_views(list@), root@, 0) is Some && layout_with_instances(
                layout_views(list@),
                root@,
                0,
            )->0.source == path@,
            None => layout_with_instances(layout_views(list@), root@, 0) is None,
        },
{
    let ghost all = layout_views(list@);
    let mut i: usize = 0;
    while i < list.len()
        invariant
            i <= list.len(),
            all == layout_views(list@),
            layout_with_instances(all, root@, 0) == layout_with_instances(all, root@, i as int),
        decreases list.len() - i,
    {
        assert(all[i as int] == list@[i as int]@);
        let instances = list[i].project.child("instances");
        if instances.is_same(root) {
            return Some(list[i].source.copy());
        }
        i += 1;
    }
    None
}

/// The service that a store belongs to, among the stores of the project with some sources.
pub open spec fn service_of_store(list: Seq<LayoutModel>, files: Map<PathParts, FactModel>, source: PathParts, path: PathParts) -> Option<
    Seq<char>,
> {
    match instances_root_of(list, files, source) {
        None => None,
        Some(root) => if extension_of(last_name(path)) != Some("renium"@) || !path_starts_with(path, root) {
            None
        } else {
            let relative = path_after(path, root);
            if relative.parts.len() == 1 {
                Some(stem_of(last_name(path)))
            } else if relative.parts.len() == 0 {
                None
            } else {
                Some(relative.parts[0])
            }
        },
    }
}

/// Finds the service that a store belongs to.
pub fn service_for_store(list: &Vec<StoreLayout>, files: &Files, source: &FilePath, path: &FilePath) -> (r: Option<String>)
    ensures
        match r {
            Some(name) => service_of_store(layout_views(list@), files@, source@, path@) == Some(name@),
            None => service_of_store(layout_views(list@), files@, source@, path@) is None,
        },
{
    let root = match instances_root(list, files, source) {
        Some(root) => root,
        None => {
            return None;
        },
    };
    let name = path.file_name();
    let (stem, extension) = split_extension(&name);
    let fits = match &extension {
        Some(extension) => same(extension, "renium"),
        None => false,
    };
    if !fits {
        return None;
    }
    match path.strip_prefix(&root) {
        None => None,
        Some(relative) => {
            assert(relative@.parts.len() == relative.parts@.len());
            if relative.parts.len() == 1 {
                Some(stem)
            } else if relative.parts.len() == 0 {
                None
            } else {
                assert(relative@.parts[0] == relative.parts@[0]@);
                Some(relative.parts[0].clone())
            }
        },
    }
}

/// The service that the place of a store names: its directory, where it stands beside scripts, or its
/// own name.
pub open spec fn named_service(path: PathParts) -> Option<Seq<char>> {
    let name = last_name(path);
    if name == SERVICE_SETTINGS_FILE_NAME@ {
        let directory = last_name(PathParts { rooted: path.rooted, parts: path.parts.drop_last() });
        if directory.len() == 0 {
            None
        } else {
            Some(directory)
        }
    } else if name.len() == 0 {
        None
    } else {
        Some(stem_of(name))
    }
}

/// Names the service that the place of a store names.
pub fn store_service_name(path: &FilePath) -> (r: Option<String>)
    ensures
        match r {
            Some(name) => named_service(path@) == Some(name@),
            None => named_service(path@) is None,
        },
{
    let name = path.file_name();
    if same(&name, SERVICE_SETTINGS_FILE_NAME) {
        match path.parent() {
            Some(parent) => {
                let directory = parent.file_name();
                if directory.as_str().is_empty() {
                    None
                } else {
                    Some(directory)
                }
            },
            None => {
                proof {
                    reveal_strlit("__roblox_sync_settings.renium");
                    assert(name@ == "__roblox_sync_settings.renium"@);
                    assert(last_name(path@).len() == 29);
                }
                None
            },
        }
    } else if name.as_str().is_empty() {
        None
    } else {
        let (stem, _) = split_extension(&name);
        Some(stem)
    }
}

/// The mapped stores of the first `n` layouts.
pub open spec fn all_mapped(list: Seq<LayoutModel>, n: nat) -> Seq<MappedModel>
    decreases n,
{
    if n == 0 {
        Seq::empty()
    } else {
        all_mapped(list, (n - 1) as nat) + list[n - 1].mapped
    }
}

pub open spec fn every_mapped(list: Seq<LayoutModel>) -> Seq<MappedModel> {
    all_mapped(list, list.len())
}

fn list_mapped(list: &Vec<StoreLayout>) -> (r: Vec<MappedStore>)
    ensures
        mapped_views(r@) == every_mapped(layout_views(list@)),
{
    let ghost all = layout_views(list@);
    let mut out: Vec<MappedStore> = Vec::new();
    assert(mapped_views(out@) =~= Seq::empty());
    let mut i: usize = 0;
    while i < list.len()
        invariant
            i <= list.len(),
            all == layout_views(list@),
            mapped_views(out@) == all_mapped(all, i as nat),
        decreases list.len() - i,
    {
        assert(all[i as int] == list@[i as int]@);
        let ghost start = mapped_views(out@);
        let ghost more = mapped_views(list@[i as int].mapped@);
        let mut k: usize = 0;
        assert(start + more.take(0) =~= start);
        while k < list[i].mapped.len()
            invariant
                i < list.len(),
                k <= list@[i as int].mapped@.len(),
                more == mapped_views(list@[i as int].mapped@),
                mapped_views(out@) == start + more.take(k as int),
            decreases list[i as int].mapped.len() - k,
        {
            let ghost before = out@;
            let x = MappedStore { source: list[i].mapped[k].source.copy(), store: list[i].mapped[k].store.copy() };
            out.push(x);
            proof {
                assert(more[k as int] == x@);
                assert(mapped_views(out@) =~= mapped_views(before).push(x@));
                assert((start + more.take(k as int)).push(x@) =~= start + more.take(k + 1));
            }
            k += 1;
        }
        assert(more.take(k as int) =~= more);
        i += 1;
    }
    out
}

/// The first mapped store at or after the `i`th whose source is another spelling of a path.
pub open spec fn mapped_by_source(v: Seq<MappedModel>, files: Map<PathParts, FactModel>, source: PathParts, i: int) -> Option<MappedModel>
    decreases v.len() - i,
{
    if i < 0 || i >= v.len() {
        None
    } else if key_at(files, v[i].source) == key_at(files, source) {
        Some(v[i])
    } else {
        mapped_by_source(v, files, source, i + 1)
    }
}

/// The first mapped store at or after the `i`th that is another spelling of a path.
pub open spec fn mapped_by_store(v: Seq<MappedModel>, files: Map<PathParts, FactModel>, store: PathParts, i: int) -> Option<MappedModel>
    decreases v.len() - i,
{
    if i < 0 || i >= v.len() {
        None
    } else if key_at(files, v[i].store) == key_at(files, store) {
        Some(v[i])
    } else {
        mapped_by_store(v, files, store, i + 1)
    }
}

/// The store of a service, by its name.
pub open spec fn plain_store(instances: PathParts, service: Seq<char>) -> PathParts {
    below(instances, stem_of(service) + ".renium"@)
}

/// The store of a directory of scripts.
pub open spec fn settings_of(list: Seq<LayoutModel>, files: Map<PathParts, FactModel>, service_dir: PathParts) -> Option<PathParts> {
    match mapped_by_source(every_mapped(list), files, service_dir, 0) {
        Some(mapped) => Some(mapped.store),
        None => {
            let service = last_name(service_dir);
            if service.len() == 0 {
                None
            } else {
                match instances_root_of(
                    list,
                    files,
                    PathParts { rooted: service_dir.rooted, parts: service_dir.parts.drop_last() },
                ) {
                    Some(instances) => Some(plain_store(instances, service)),
                    None => None,
                }
            }
        },
    }
}

/// Finds the store of a directory of scripts.
pub fn settings_path(list: &Vec<StoreLayout>, files: &Files, service_dir: &FilePath) -> (r: Option<FilePath>)
    ensures
        match r {
            Some(path) => settings_of(layout_views(list@), files@, service_dir@) == Some(path@),
            None => settings_of(layout_views(list@), files@, service_dir@) is None,
        },
{
    let mapped = list_mapped(list);
    let ghost all = mapped_views(mapped@);
    let key = files.key(service_dir);
    let mut i: usize = 0;
    while i < mapped.len()
        invariant
            i <= mapped.len(),
            all == mapped_views(mapped@),
            all == every_mapped(layout_views(list@)),
            key@ == key_at(files@, service_dir@),
            mapped_by_source(all, files@, service_dir@, 0) == mapped_by_source(all, files@, service_dir@, i as int),
        decreases mapped.len() - i,
    {
        assert(all[i as int] == mapped@[i as int]@);
        let other = files.key(&mapped[i].source);
        if same(&other, &key) {
            return Some(mapped[i].store.copy());
        }
        i += 1;
    }
    let service = service_dir.file_name();
    if service.as_str().is_empty() {
        return None;
    }
    match service_dir.parent() {
        None => None,
        Some(parent) => match instances_root(list, files, &parent) {
            None => None,
            Some(instances) => {
                let (stem, _) = split_extension(&service);
                Some(instances.child(&joined(&stem, ".renium")))
            },
        },
    }
}

/// The directory of scripts that a store belongs to.
pub open spec fn source_directory_of(list: Seq<LayoutModel>, files: Map<PathParts, FactModel>, settings: PathParts) -> PathParts {
    let parent = PathParts {
        rooted: settings.rooted,
        parts: if settings.parts.len() == 0 {
            settings.parts
        } else {
            settings.parts.drop_last()
        },
    };
    match mapped_by_store(every_mapped(list), files, settings, 0) {
        Some(mapped) => mapped.source,
        None => match layout_with_instances(list, parent, 0) {
            Some(layout) if settings.parts.len() > 0 => below(layout.source, stem_of(last_name(settings))),
            _ => parent,
        },
    }
}

/// Finds the directory of scripts that a store belongs to.
pub fn source_directory(list: &Vec<StoreLayout>, files: &Files, settings: &FilePath) -> (r: FilePath)
    ensures
        r@ == source_directory_of(layout_views(list@), files@, settings@),
{
    let mapped = list_mapped(list);
    let ghost all = mapped_views(mapped@);
    let key = files.key(settings);
    let mut i: usize = 0;
    while i < mapped.len()
        invariant
            i <= mapped.len(),
            all == mapped_views(mapped@),
            all == every_mapped(layout_views(list@)),
            key@ == key_at(files@, settings@),
            mapped_by_store(all, files@, settings@, 0) == mapped_by_store(all, files@, settings@, i as int),
        decreases mapped.len() - i,
    {
        assert(all[i as int] == mapped@[i as int]@);
        let other = files.key(&mapped[i].store);
        if same(&other, &key) {
            return mapped[i].source.copy();
        }
        i += 1;
    }
    match settings.parent() {
        None => settings.copy(),
        Some(parent) => match source_for_instances(list, &parent) {
            Some(source) => {
                let name = settings.file_name();
                let (stem, _) = split_extension(&name);
                source.child(&stem)
            },
            None => parent,
        },
    }
}

proof fn lemma_last_dot_renium(stem: Seq<char>)
    ensures
        last_dot(stem + ".renium"@) == stem.len(),
{
    reveal_strlit(".renium");
    reveal_with_fuel(last_dot, 8);
    let s = stem + ".renium"@;
    assert(s.drop_last() =~= stem + seq!['.', 'r', 'e', 'n', 'i', 'u']);
    assert(s.drop_last().drop_last() =~= stem + seq!['.', 'r', 'e', 'n', 'i']);
    assert(s.drop_last().drop_last().drop_last() =~= stem + seq!['.', 'r', 'e', 'n']);
    assert(s.drop_last().drop_last().drop_last().drop_last() =~= stem + seq!['.', 'r', 'e']);
    assert(s.drop_last().drop_last().drop_last().drop_last().drop_last() =~= stem + seq!['.', 'r']);
    assert(s.drop_last().drop_last().drop_last().drop_last().drop_last().drop_last() =~= stem + seq!['.']);
}

/// No mapped source of a project is spelled like a directory, and no mapped store like a store.
pub open spec fn leaves_free(layout: LayoutModel, files: Map<PathParts, FactModel>, dir: PathParts, store: PathParts) -> bool {
    forall|j: int|
        0 <= j < layout.mapped.len() ==> key_at(files, (#[trigger] layout.mapped[j]).source) != key_at(files, dir) && key_at(
            files,
            layout.mapped[j].store,
        ) != key_at(files, store)
}

/// A project is in a list, and no other there has its sources or its directory of stores.
pub open spec fn is_only_layout(list: Seq<LayoutModel>, files: Map<PathParts, FactModel>, layout: LayoutModel) -> bool {
    &&& list.contains(layout)
    &&& forall|j: int|
        0 <= j < list.len() && (key_at(files, (#[trigger] list[j]).source) == key_at(files, layout.source) || instances_of(
            list[j].project,
        ) == instances_of(layout.project)) ==> list[j] == layout
}

proof fn lemma_mapped_free(list: Seq<LayoutModel>, files: Map<PathParts, FactModel>, dir: PathParts, store: PathParts, n: nat, k: int)
    requires
        n <= list.len(),
        forall|i: int| 0 <= i < list.len() ==> leaves_free(#[trigger] list[i], files, dir, store),
        0 <= k < all_mapped(list, n).len(),
    ensures
        key_at(files, all_mapped(list, n)[k].source) != key_at(files, dir),
        key_at(files, all_mapped(list, n)[k].store) != key_at(files, store),
    decreases n,
{
    if n > 0 {
        let before = all_mapped(list, (n - 1) as nat);
        if k < before.len() {
            lemma_mapped_free(list, files, dir, store, (n - 1) as nat, k);
        } else {
            assert(leaves_free(list[n - 1], files, dir, store));
            let m = list[n - 1].mapped[k - before.len()];
            assert(all_mapped(list, n)[k] == m);
        }
    }
}

proof fn lemma_none_mapped(v: Seq<MappedModel>, files: Map<PathParts, FactModel>, dir: PathParts, store: PathParts, i: int)
    requires
        0 <= i <= v.len(),
        forall|k: int|
            0 <= k < v.len() ==> key_at(files, (#[trigger] v[k]).source) != key_at(files, dir) && key_at(files, v[k].store)
                != key_at(files, store),
    ensures
        mapped_by_source(v, files, dir, i) is None,
        mapped_by_store(v, files, store, i) is None,
    decreases v.len() - i,
{
    if i < v.len() {
        lemma_none_mapped(v, files, dir, store, i + 1);
    }
}

proof fn lemma_only_layout_found(list: Seq<LayoutModel>, files: Map<PathParts, FactModel>, layout: LayoutModel, i: int, k: int)
    requires
        is_only_layout(list, files, layout),
        0 <= i <= k < list.len(),
        list[k] == layout,
    ensures
        layout_at(list, files, layout.source, i) == Some(layout),
        layout_with_instances(list, instances_of(layout.project), i) == Some(layout),
    decreases k - i,
{
    if i < k && list[i] != layout {
        lemma_only_layout_found(list, files, layout, i + 1, k);
    }
}

/// The store of a service's directory is the one of its name, and belongs to that directory, in a project
/// among several where no other project has its sources or stores, no mapped source or store is spelled like
/// either, and the service's name has no extension.
pub proof fn law_store_leads_back(
    list: Seq<LayoutModel>,
    files: Map<PathParts, FactModel>,
    layout: LayoutModel,
    service: Seq<char>,
)
    requires
        is_only_layout(list, files, layout),
        service.len() > 0,
        service != ".."@,
        service != "."@,
        extension_of(service) is None,
        forall|i: int|
            0 <= i < list.len() ==> leaves_free(
                #[trigger] list[i],
                files,
                below(layout.source, service),
                plain_store(instances_of(layout.project), service),
            ),
    ensures
        settings_of(list, files, below(layout.source, service)) == Some(plain_store(instances_of(layout.project), service)),
        source_directory_of(list, files, plain_store(instances_of(layout.project), service)) == below(layout.source, service),
{
    let dir = below(layout.source, service);
    let store = plain_store(instances_of(layout.project), service);
    let all = every_mapped(list);
    assert forall|k: int| 0 <= k < all.len() implies key_at(files, (#[trigger] all[k]).source) != key_at(files, dir)
        && key_at(files, all[k].store) != key_at(files, store) by {
        lemma_mapped_free(list, files, dir, store, list.len(), k);
    }
    lemma_none_mapped(all, files, dir, store, 0);
    let k = choose|k: int| 0 <= k < list.len() && list[k] == layout;
    lemma_only_layout_found(list, files, layout, 0, k);
    assert(PathParts { rooted: dir.rooted, parts: dir.parts.drop_last() } =~= layout.source);
    assert(last_name(dir) == service);
    assert(settings_of(list, files, dir) == Some(store));
    let name = service + ".renium"@;
    assert(stem_of(service) =~= service);
    assert(store.parts.last() == name);
    assert(PathParts { rooted: store.rooted, parts: store.parts.drop_last() } =~= instances_of(layout.project));
    lemma_last_dot_renium(service);
    reveal_strlit(".renium");
    reveal_strlit("..");
    reveal_strlit(".");
    assert(name.len() == service.len() + 7);
    assert(name.take(service.len() as int) =~= service);
    assert(last_name(store) == name);
}

proof fn lemma_layouts_apart(list: Seq<LayoutModel>, files: Map<PathParts, FactModel>, second: LayoutModel, n: nat)
    requires
        n <= list.len(),
    ensures
        forall|j: int|
            0 <= j < layouts_apart(list, files, second, n).len() ==> list.contains(
                #[trigger] layouts_apart(list, files, second, n)[j],
            ),
        forall|i: int|
            0 <= i < n && (#[trigger] list[i]).project != second.project && key_at(files, list[i].source) != key_at(
                files,
                second.source,
            ) ==> layouts_apart(list, files, second, n).contains(list[i]),
    decreases n,
{
    if n > 0 {
        lemma_layouts_apart(list, files, second, (n - 1) as nat);
        let before = layouts_apart(list, files, second, (n - 1) as nat);
        let after = layouts_apart(list, files, second, n);
        assert forall|j: int| 0 <= j < after.len() implies list.contains(#[trigger] after[j]) by {
            if j < before.len() {
                assert(after[j] == before[j]);
            } else {
                assert(after[j] == list[n - 1]);
            }
        }
        assert forall|i: int|
            0 <= i < n && (#[trigger] list[i]).project != second.project && key_at(files, list[i].source) != key_at(
                files,
                second.source,
            ) implies after.contains(list[i]) by {
            if i < n - 1 {
                assert(before.contains(list[i]));
                let j = choose|j: int| 0 <= j < before.len() && before[j] == list[i];
                assert(after[j] == list[i]);
            } else {
                assert(after.last() == list[i]);
            }
        }
    }
}

/// Noting a second project, with a root and sources of its own, changes neither where a service's store is
/// nor to which directory it belongs.
pub proof fn law_second_project_changes_nothing(
    list: Seq<LayoutModel>,
    files: Map<PathParts, FactModel>,
    layout: LayoutModel,
    second: LayoutModel,
    service: Seq<char>,
)
    requires
        is_only_layout(list, files, layout),
        second.project != layout.project,
        key_at(files, second.source) != key_at(files, layout.source),
        service.len() > 0,
        service != ".."@,
        service != "."@,
        extension_of(service) is None,
        forall|i: int|
            0 <= i < list.len() ==> leaves_free(
                #[trigger] list[i],
                files,
                below(layout.source, service),
                plain_store(instances_of(layout.project), service),
            ),
        leaves_free(second, files, below(layout.source, service), plain_store(instances_of(layout.project), service)),
    ensures
        ({
            let after = layouts_apart(list, files, second, list.len()).push(second);
            let dir = below(layout.source, service);
            let store = plain_store(instances_of(layout.project), service);
            &&& settings_of(after, files, dir) == settings_of(list, files, dir)
            &&& settings_of(after, files, dir) == Some(store)
            &&& source_directory_of(after, files, store) == source_directory_of(list, files, store)
            &&& source_directory_of(after, files, store) == dir
        }),
{
    let kept = layouts_apart(list, files, second, list.len());
    let after = kept.push(second);
    let dir = below(layout.source, service);
    let store = plain_store(instances_of(layout.project), service);
    lemma_layouts_apart(list, files, second, list.len());
    assert(instances_of(second.project) != instances_of(layout.project)) by {
        let a = instances_of(second.project);
        let b = instances_of(layout.project);
        assert(a.parts.drop_last() =~= second.project.parts);
        assert(b.parts.drop_last() =~= layout.project.parts);
    }
    let i = choose|i: int| 0 <= i < list.len() && list[i] == layout;
    assert(kept.contains(list[i]));
    let j = choose|j: int| 0 <= j < kept.len() && kept[j] == layout;
    assert(after[j] == layout);
    assert forall|k: int|
        0 <= k < after.len() && (key_at(files, (#[trigger] after[k]).source) == key_at(files, layout.source) || instances_of(
            after[k].project,
        ) == instances_of(layout.project)) implies after[k] == layout by {
        if k < kept.len() {
            assert(after[k] == kept[k]);
            assert(list.contains(kept[k]));
            let x = choose|x: int| 0 <= x < list.len() && list[x] == kept[k];
            assert(list[x] == after[k]);
        }
    }
    assert forall|k: int| 0 <= k < after.len() implies leaves_free(#[trigger] after[k], files, dir, store) by {
        if k < kept.len() {
            assert(after[k] == kept[k]);
            assert(list.contains(kept[k]));
            let x = choose|x: int| 0 <= x < list.len() && list[x] == kept[k];
            assert(leaves_free(list[x], files, dir, store));
        }
    }
    law_store_leads_back(list, files, layout, service);
    law_store_leads_back(after, files, layout, service);
}

/// The path of the store that a store beside scripts, named by its place below a directory, moved to.
pub open spec fn relocated(list: Seq<LayoutModel>, files: Map<PathParts, FactModel>, root: PathParts, relative: PathParts) -> Option<
    PathParts,
> {
    let whole = joined_path(root, relative);
    if last_name(relative) != SERVICE_SETTINGS_FILE_NAME@ {
        None
    } else {
        match settings_of(list, files, PathParts { rooted: whole.rooted, parts: whole.parts.drop_last() }) {
            None => None,
            Some(store) => if path_starts_with(store, root) {
                Some(path_after(store, root))
            } else {
                None
            },
        }
    }
}

/// Finds where a store beside scripts moved to, both seen from a directory.
pub fn relocated_legacy_path(list: &Vec<StoreLayout>, files: &Files, root: &FilePath, relative: &FilePath) -> (r: Option<FilePath>)
    ensures
        match r {
            Some(path) => relocated(layout_views(list@), files@, root@, relative@) == Some(path@),
            None => relocated(layout_views(list@), files@, root@, relative@) is None,
        },
{
    let name = relative.file_name();
    if !same(&name, SERVICE_SETTINGS_FILE_NAME) {
        return None;
    }
    let whole = root.join(relative);
    proof {
        reveal_strlit("__roblox_sync_settings.renium");
        assert(name@ == "__roblox_sync_settings.renium"@);
        assert(last_name(relative@).len() == 29);
    }
    match whole.parent() {
        None => None,
        Some(parent) => match settings_path(list, files, &parent) {
            None => None,
            Some(store) => store.strip_prefix(root),
        },
    }
}

/// Whether a directory of scripts is there, or only its store.
pub fn source_directory_exists(list: &Vec<StoreLayout>, files: &Files, source: &FilePath) -> (r: bool)
    ensures
        r == (kind_at(files@, source@) == SourceKind::Directory || ({
            let store = settings_of(layout_views(list@), files@, source@);
            store is Some && kind_at(files@, store->0) == SourceKind::File && source_directory_of(
                layout_views(list@),
                files@,
                store->0,
            ) == source@
        })),
{
    if files.kind(source) == SourceKind::Directory {
        return true;
    }
    match settings_path(list, files, source) {
        None => false,
        Some(store) => {
            if files.kind(&store) != SourceKind::File {
                return false;
            }
            let back = source_directory(list, files, &store);
            back.is_same(source)
        },
    }
}

/// Lists the directories of services: those that are there and those with a store, in the order of
/// their names.
pub fn service_directories(source: &FilePath, directories: &Vec<String>, stores: &Vec<String>) -> (r: Vec<FilePath>)
    ensures
        exists|names: Seq<Seq<char>>|
            {
                &&& #[trigger] ascending::<String>(names)
                &&& forall|name: Seq<char>| #[trigger]
                    names.contains(name) <==> texts(directories@).contains(name) || is_store_of(texts(stores@), name)
                &&& path_views(r@) == Seq::new(names.len(), |i: int| below(source@, names[i]))
            },
{
    let ghost listed = texts(directories@);
    let ghost stored = texts(stores@);
    let mut names: SortedSet<String> = SortedSet::new();
    let mut i: usize = 0;
    while i < directories.len()
        invariant
            i <= directories.len(),
            listed == texts(directories@),
            ascending::<String>(names@),
            forall|name: Seq<char>| #[trigger] names@.contains(name) <==> listed.take(i as int).contains(name),
        decreases directories.len() - i,
    {
        let ghost before = names@;
        names.insert(directories[i].clone());
        proof {
            crate::naming::lemma_take_contains(listed, i as int);
            assert(listed[i as int] == directories@[i as int]@);
            assert forall|name: Seq<char>| #[trigger] names@.contains(name) <==> listed.take(i + 1).contains(name) by {
                assert(before.contains(name) <==> listed.take(i as int).contains(name));
            }
        }
        i += 1;
    }
    assert(listed.take(i as int) =~= listed);
    let mut k: usize = 0;
    while k < stores.len()
        invariant
            k <= stores.len(),
            stored == texts(stores@),
            ascending::<String>(names@),
            forall|name: Seq<char>| #[trigger]
                names@.contains(name) <==> listed.contains(name) || is_store_of(stored.take(k as int), name),
        decreases stores.len() - k,
    {
        let ghost before = names@;
        let (stem, extension) = split_extension(&stores[k]);
        let fits = match &extension {
            Some(extension) => same(extension, "renium"),
            None => false,
        };
        let ghost at = stores@[k as int]@;
        assert(stored[k as int] == at);
        assert(fits == is_store_name(at));
        let ghost stem_text = stem@;
        if fits {
            names.insert(stem);
        }
        proof {
            lemma_store_of_more(stored, k as int);
            assert forall|name: Seq<char>| #[trigger]
                names@.contains(name) <==> listed.contains(name) || is_store_of(stored.take(k + 1), name) by {
                assert(before.contains(name) <==> listed.contains(name) || is_store_of(stored.take(k as int), name));
                assert(is_store_of(stored.take(k + 1), name) <==> is_store_of(stored.take(k as int), name) || (
                is_store_name(stored[k as int]) && stem_of(stored[k as int]) == name));
            }
        }
        k += 1;
    }
    assert(stored.take(k as int) =~= stored);
    let names = names.into_items();
    let ghost found = key_views(names@);
    let mut out: Vec<FilePath> = Vec::new();
    let mut n: usize = 0;
    while n < names.len()
        invariant
            n <= names.len(),
            found == key_views(names@),
            path_views(out@) =~= Seq::new(n as nat, |i: int| below(source@, found[i])),
        decreases names.len() - n,
    {
        let ghost before = out@;
        let x = source.child(&names[n]);
        out.push(x);
        assert(found[n as int] == names@[n as int]@);
        assert(path_views(out@) =~= path_views(before).push(x@));
        n += 1;
    }
    proof {
        assert(ascending::<String>(found));
        assert(path_views(out@) =~= Seq::new(found.len(), |i: int| below(source@, found[i])));
    }
    out
}

/// A file that is a store.
pub open spec fn is_store_name(file: Seq<char>) -> bool {
    extension_of(file) == Some("renium"@)
}

/// Some file is the store of a service.
pub open spec fn is_store_of(files: Seq<Seq<char>>, service: Seq<char>) -> bool {
    exists|i: int| 0 <= i < files.len() && is_store_name(#[trigger] files[i]) && stem_of(files[i]) == service
}

proof fn lemma_store_of_more(files: Seq<Seq<char>>, k: int)
    requires
        0 <= k < files.len(),
    ensures
        forall|name: Seq<char>| #[trigger]
            is_store_of(files.take(k + 1), name) <==> is_store_of(files.take(k), name) || (is_store_name(files[k]) && stem_of(
                files[k],
            ) == name),
{
    assert forall|name: Seq<char>| #[trigger]
        is_store_of(files.take(k + 1), name) <==> is_store_of(files.take(k), name) || (is_store_name(files[k]) && stem_of(
            files[k],
        ) == name) by {
        let now = files.take(k + 1);
        let before = files.take(k);
        if is_store_of(now, name) {
            let i = choose|i: int| 0 <= i < now.len() && is_store_name(#[trigger] now[i]) && stem_of(now[i]) == name;
            if i < k {
                assert(before[i] == now[i]);
            }
        }
        if is_store_of(before, name) {
            let i = choose|i: int| 0 <= i < before.len() && is_store_name(#[trigger] before[i]) && stem_of(before[i]) == name;
            assert(now[i] == before[i]);
        }
        assert(now[k] == files[k]);
    }
}

} // verus!
