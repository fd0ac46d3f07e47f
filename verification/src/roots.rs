//! Where a project is found, and what of the file system belongs to it.
use vstd::prelude::*;

use crate::link_apply::value_of;
use crate::mapping::ProjectTree;
use crate::order::{ascending, in_order, sorted_once, SortedSet};
use crate::paths::{ends_in, ends_with_ignore_ascii_case, joined_path, FilePath, PathParts};
use crate::project::{
    all_tree_nodes, kind_at, project_tree_nodes, tree_views, AdapterDirection, FactModel, Files, LoadedProject, SourceKind,
    TreeNodeModel, PROJECT_FILE_NAME, PROJECT_JSON_FILE_NAME,
};
use crate::table::{key_views, Table};
use crate::text::{ascii_lower, lemma_texts_push, same, texts, to_ascii_lower};

verus! {

broadcast use vstd::seq_lib::group_seq_properties;

/// A project and those inside it.
pub open spec fn inner_trees(tree: ProjectTree) -> Seq<ProjectTree>
    decreases tree, tree.nested@.len() + 1,
{
    seq![tree] + nested_trees(tree, tree.nested@.len())
}

/// The projects inside the first `n` holders of a project.
pub open spec fn nested_trees(tree: ProjectTree, n: nat) -> Seq<ProjectTree>
    decreases tree, n,
{
    if n == 0 || n > tree.nested@.len() {
        Seq::empty()
    } else {
        nested_trees(tree, (n - 1) as nat) + match tree.nested@[n - 1] {
            Some(inner) => inner_trees(inner),
            None => Seq::empty(),
        }
    }
}

pub open spec fn tree_values(v: Seq<&ProjectTree>) -> Seq<ProjectTree> {
    Seq::new(v.len(), |i: int| *v[i])
}

fn append_trees<'a>(tree: &'a ProjectTree, out: &mut Vec<&'a ProjectTree>)
    ensures
        tree_values(final(out)@) == tree_values(old(out)@) + inner_trees(*tree),
    decreases tree,
{
    let ghost start = tree_values(out@);
    let ghost given = out@;
    out.push(tree);
    let ghost own = seq![*tree];
    assert(tree_values(out@) =~= start + own);
    let mut i: usize = 0;
    assert(start + own + nested_trees(*tree, 0) =~= start + own);
    while i < tree.nested.len()
        invariant
            i <= tree.nested.len(),
            start == tree_values(old(out)@),
            own == seq![*tree],
            tree_values(out@) == start + own + nested_trees(*tree, i as nat),
        decreases tree.nested.len() - i,
    {
        let ghost before = nested_trees(*tree, i as nat);
        match &tree.nested[i] {
            Some(inner) => {
                append_trees(inner, out);
                assert(start + own + before + inner_trees(*inner) =~= start + own + (before + inner_trees(*inner)));
            },
            None => {
                assert(before + Seq::<ProjectTree>::empty() =~= before);
            },
        }
        i += 1;
    }
    proof {
        let all = nested_trees(*tree, tree.nested@.len());
        assert(start + own + all =~= start + (own + all));
    }
}

/// Lists a project and those inside it.
pub fn list_trees<'a>(tree: &'a ProjectTree) -> (r: Vec<&'a ProjectTree>)
    ensures
        tree_values(r@) == inner_trees(*tree),
{
    let mut out: Vec<&'a ProjectTree> = Vec::new();
    assert(tree_values(out@) =~= Seq::empty());
    append_trees(tree, &mut out);
    assert(Seq::<ProjectTree>::empty() + inner_trees(*tree) =~= inner_trees(*tree));
    out
}

/// A project comes first among itself and those inside it.
pub proof fn law_a_project_comes_first(tree: ProjectTree)
    ensures
        inner_trees(tree).len() > 0,
        inner_trees(tree)[0] == tree,
{
}

/// The directory of a path, or a directory where the path has none.
pub open spec fn parent_or(path: PathParts, otherwise: PathParts) -> PathParts {
    if path.parts.len() == 0 {
        otherwise
    } else {
        PathParts { rooted: path.rooted, parts: path.parts.drop_last() }
    }
}

fn find_parent(path: &FilePath, otherwise: &FilePath) -> (r: FilePath)
    ensures
        r@ == parent_or(path@, otherwise@),
{
    match path.parent() {
        Some(parent) => parent,
        None => otherwise.copy(),
    }
}

/// The directory that is watched for a source: its own, where it is a file.
pub open spec fn watched_root(loaded: LoadedProject, files: Map<PathParts, FactModel>, source: PathParts) -> PathParts {
    let path = joined_path(loaded.root@, source);
    if kind_at(files, path) == SourceKind::File {
        parent_or(path, loaded.root@)
    } else {
        path
    }
}

pub open spec fn tree_root(loaded: LoadedProject, files: Map<PathParts, FactModel>, nodes: Seq<TreeNodeModel>, p: PathParts, n: nat) -> bool {
    exists|i: int|
        0 <= i < n && (#[trigger] nodes[i]).node.path is Some && p == watched_root(loaded, files, nodes[i].node.path->0@)
}

pub open spec fn mount_root(loaded: LoadedProject, files: Map<PathParts, FactModel>, p: PathParts, n: nat) -> bool {
    exists|i: int| 0 <= i < n && p == watched_root(loaded, files, (#[trigger] loaded.project.mounts@[i]).source@)
}

/// The directories of what an adapter reads and writes.
pub open spec fn adapter_has_root(loaded: LoadedProject, i: int, p: PathParts) -> bool {
    let adapter = loaded.project.adapters@[i];
    &&& adapter.direction != AdapterDirection::FromProject
    &&& p == parent_or(joined_path(loaded.root@, adapter.source@), loaded.root@) || (adapter.output is Some && p == parent_or(
        joined_path(loaded.root@, adapter.output->0@),
        loaded.root@,
    ))
}

pub open spec fn adapter_root(loaded: LoadedProject, p: PathParts, n: nat) -> bool {
    exists|i: int| 0 <= i < n && #[trigger] adapter_has_root(loaded, i, p)
}

/// A directory that holds sources of a project.
pub open spec fn is_source_root(loaded: LoadedProject, files: Map<PathParts, FactModel>, p: PathParts) -> bool {
    let nodes = all_tree_nodes(loaded.project);
    ||| p == joined_path(loaded.root@, loaded.project.source_root@)
    ||| tree_root(loaded, files, nodes, p, nodes.len())
    ||| mount_root(loaded, files, p, loaded.project.mounts@.len())
    ||| adapter_root(loaded, p, loaded.project.adapters@.len())
}

pub open spec fn is_some_source_root(trees: Seq<ProjectTree>, files: Map<PathParts, FactModel>, p: PathParts, n: nat) -> bool {
    exists|i: int| 0 <= i < n && #[trigger] is_source_root(trees[i].loaded, files, p)
}

fn find_watched(loaded: &LoadedProject, files: &Files, source: &FilePath) -> (r: FilePath)
    ensures
        r@ == watched_root(*loaded, files@, source@),
{
    let path = loaded.root.join(source);
    if files.kind(&path) == SourceKind::File {
        find_parent(&path, &loaded.root)
    } else {
        path
    }
}

fn insert_roots(loaded: &LoadedProject, files: &Files, out: &mut SortedSet<FilePath>)
    requires
        ascending::<FilePath>(old(out)@),
    ensures
        ascending::<FilePath>(final(out)@),
        forall|p: PathParts| #[trigger]
            final(out)@.contains(p) <==> old(out)@.contains(p) || is_source_root(*loaded, files@, p),
{
    let ghost start = out@;
    let ghost own = joined_path(loaded.root@, loaded.project.source_root@);
    out.insert(loaded.root.join(&loaded.project.source_root));
    let nodes = project_tree_nodes(&loaded.project.tree);
    let ghost all = tree_views(nodes@);
    assert(all.len() == nodes@.len());
    let mut i: usize = 0;
    while i < nodes.len()
        invariant
            i <= nodes.len(),
            all == tree_views(nodes@),
            ascending::<FilePath>(out@),
            forall|p: PathParts| #[trigger]
                out@.contains(p) <==> start.contains(p) || p == own || tree_root(*loaded, files@, all, p, i as nat),
        decreases nodes.len() - i,
    {
        let ghost before = out@;
        assert(all[i as int] == nodes@[i as int]@);
        let ghost mut added: Option<PathParts> = None;
        match &nodes[i].node.path {
            Some(path) => {
                let root = find_watched(loaded, files, path);
                proof {
                    added = Some(root@);
                }
                out.insert(root);
            },
            None => {},
        }
        assert forall|p: PathParts| #[trigger]
            out@.contains(p) <==> start.contains(p) || p == own || tree_root(*loaded, files@, all, p, (i + 1) as nat) by {
            assert(before.contains(p) <==> start.contains(p) || p == own || tree_root(*loaded, files@, all, p, i as nat));
            if tree_root(*loaded, files@, all, p, (i + 1) as nat) {
                let j = choose|j: int|
                    0 <= j < i + 1 && (#[trigger] all[j]).node.path is Some && p == watched_root(
                        *loaded,
                        files@,
                        all[j].node.path->0@,
                    );
                if j < i {
                    assert(tree_root(*loaded, files@, all, p, i as nat));
                }
            }
            if tree_root(*loaded, files@, all, p, i as nat) {
                let j = choose|j: int|
                    0 <= j < i && (#[trigger] all[j]).node.path is Some && p == watched_root(
                        *loaded,
                        files@,
                        all[j].node.path->0@,
                    );
                assert(tree_root(*loaded, files@, all, p, (i + 1) as nat));
            }
            if added == Some(p) {
                assert(tree_root(*loaded, files@, all, p, (i + 1) as nat));
            }
        }
        i += 1;
    }
    let ghost grown = out@;
    let mut m: usize = 0;
    while m < loaded.project.mounts.len()
        invariant
            m <= loaded.project.mounts@.len(),
            ascending::<FilePath>(out@),
            forall|p: PathParts| #[trigger]
                out@.contains(p) <==> grown.contains(p) || mount_root(*loaded, files@, p, m as nat),
        decreases loaded.project.mounts@.len() - m,
    {
        let ghost before = out@;
        let ghost mount = loaded.project.mounts@[m as int];
        out.insert(find_watched(loaded, files, &loaded.project.mounts[m].source));
        assert forall|p: PathParts| #[trigger]
            out@.contains(p) <==> grown.contains(p) || mount_root(*loaded, files@, p, (m + 1) as nat) by {
            assert(before.contains(p) <==> grown.contains(p) || mount_root(*loaded, files@, p, m as nat));
            if mount_root(*loaded, files@, p, (m + 1) as nat) {
                let j = choose|j: int|
                    0 <= j < m + 1 && p == watched_root(*loaded, files@, (#[trigger] loaded.project.mounts@[j]).source@);
                if j < m {
                    assert(mount_root(*loaded, files@, p, m as nat));
                }
            }
            if mount_root(*loaded, files@, p, m as nat) {
                let j = choose|j: int|
                    0 <= j < m && p == watched_root(*loaded, files@, (#[trigger] loaded.project.mounts@[j]).source@);
                assert(mount_root(*loaded, files@, p, (m + 1) as nat));
            }
            if p == watched_root(*loaded, files@, mount.source@) {
                assert(mount_root(*loaded, files@, p, (m + 1) as nat));
            }
        }
        m += 1;
    }
    let ghost mounted = out@;
    let mut a: usize = 0;
    while a < loaded.project.adapters.len()
        invariant
            a <= loaded.project.adapters@.len(),
            ascending::<FilePath>(out@),
            forall|p: PathParts| #[trigger] out@.contains(p) <==> mounted.contains(p) || adapter_root(*loaded, p, a as nat),
        decreases loaded.project.adapters@.len() - a,
    {
        let ghost before = out@;
        let adapter = &loaded.project.adapters[a];
        if adapter.direction != AdapterDirection::FromProject {
            out.insert(find_parent(&loaded.root.join(&adapter.source), &loaded.root));
            match &adapter.output {
                Some(output) => {
                    out.insert(find_parent(&loaded.root.join(output), &loaded.root));
                },
                None => {},
            }
        }
        assert forall|p: PathParts| #[trigger]
            out@.contains(p) <==> mounted.contains(p) || adapter_root(*loaded, p, (a + 1) as nat) by {
            assert(before.contains(p) <==> mounted.contains(p) || adapter_root(*loaded, p, a as nat));
            assert(out@.contains(p) <==> before.contains(p) || adapter_has_root(*loaded, a as int, p));
            if adapter_root(*loaded, p, (a + 1) as nat) {
                let j = choose|j: int| 0 <= j < a + 1 && #[trigger] adapter_has_root(*loaded, j, p);
                if j < a {
                    assert(adapter_root(*loaded, p, a as nat));
                }
            }
            if adapter_root(*loaded, p, a as nat) {
                let j = choose|j: int| 0 <= j < a && #[trigger] adapter_has_root(*loaded, j, p);
                assert(adapter_root(*loaded, p, (a + 1) as nat));
            }
            if adapter_has_root(*loaded, a as int, p) {
                assert(adapter_root(*loaded, p, (a + 1) as nat));
            }
        }
        a += 1;
    }
}

/// Lists the directories that hold sources of a project or of one inside it, in order and each once.
pub fn project_source_roots(tree: &ProjectTree, files: &Files) -> (r: Vec<FilePath>)
    ensures
        ascending::<FilePath>(key_views(r@)),
        forall|p: PathParts| #[trigger]
            key_views(r@).contains(p) <==> is_some_source_root(inner_trees(*tree), files@, p, inner_trees(*tree).len()),
{
    let trees = list_trees(tree);
    let ghost all = tree_values(trees@);
    assert(all.len() == trees@.len());
    let mut out: SortedSet<FilePath> = SortedSet::new();
    let mut i: usize = 0;
    while i < trees.len()
        invariant
            i <= trees.len(),
            all == tree_values(trees@),
            ascending::<FilePath>(out@),
            forall|p: PathParts| #[trigger] out@.contains(p) <==> is_some_source_root(all, files@, p, i as nat),
        decreases trees.len() - i,
    {
        let ghost before = out@;
        assert(all[i as int] == *trees@[i as int]);
        insert_roots(&trees[i].loaded, files, &mut out);
        assert forall|p: PathParts| #[trigger] out@.contains(p) <==> is_some_source_root(all, files@, p, (i + 1) as nat) by {
            assert(before.contains(p) <==> is_some_source_root(all, files@, p, i as nat));
            if is_some_source_root(all, files@, p, (i + 1) as nat) {
                let j = choose|j: int| 0 <= j < i + 1 && #[trigger] is_source_root(all[j].loaded, files@, p);
                if j < i {
                    assert(is_some_source_root(all, files@, p, i as nat));
                }
            }
            if is_some_source_root(all, files@, p, i as nat) {
                let j = choose|j: int| 0 <= j < i && #[trigger] is_source_root(all[j].loaded, files@, p);
                assert(is_some_source_root(all, files@, p, (i + 1) as nat));
            }
            if is_source_root(all[i as int].loaded, files@, p) {
                assert(is_some_source_root(all, files@, p, (i + 1) as nat));
            }
        }
        i += 1;
    }
    out.into_items()
}

/// The file of a project or of one inside it.
pub open spec fn is_project_file(trees: Seq<ProjectTree>, p: PathParts, n: nat) -> bool {
    exists|i: int| 0 <= i < n && (#[trigger] trees[i]).loaded.path@ == p
}

/// Lists the files of a project and of those inside it, in order and each once.
pub fn project_config_paths(tree: &ProjectTree) -> (r: Vec<FilePath>)
    ensures
        ascending::<FilePath>(key_views(r@)),
        forall|p: PathParts| #[trigger]
            key_views(r@).contains(p) <==> is_project_file(inner_trees(*tree), p, inner_trees(*tree).len()),
{
    let trees = list_trees(tree);
    let ghost all = tree_values(trees@);
    assert(all.len() == trees@.len());
    let mut out: SortedSet<FilePath> = SortedSet::new();
    let mut i: usize = 0;
    while i < trees.len()
        invariant
            i <= trees.len(),
            all == tree_values(trees@),
            ascending::<FilePath>(out@),
            forall|p: PathParts| #[trigger] out@.contains(p) <==> is_project_file(all, p, i as nat),
        decreases trees.len() - i,
    {
        let ghost before = out@;
        assert(all[i as int] == *trees@[i as int]);
        out.insert(trees[i].loaded.path.copy());
        assert forall|p: PathParts| #[trigger] out@.contains(p) <==> is_project_file(all, p, (i + 1) as nat) by {
            assert(before.contains(p) <==> is_project_file(all, p, i as nat));
            if is_project_file(all, p, (i + 1) as nat) {
                let j = choose|j: int| 0 <= j < i + 1 && (#[trigger] all[j]).loaded.path@ == p;
                if j < i {
                    assert(is_project_file(all, p, i as nat));
                }
            }
            if is_project_file(all, p, i as nat) {
                let j = choose|j: int| 0 <= j < i && (#[trigger] all[j]).loaded.path@ == p;
                assert(is_project_file(all, p, (i + 1) as nat));
            }
            if all[i as int].loaded.path@ == p {
                assert(is_project_file(all, p, (i + 1) as nat));
            }
        }
        i += 1;
    }
    out.into_items()
}

/// The names in a directory.
pub struct DirectoryNames {
    pub names: Vec<String>,
}

impl View for DirectoryNames {
    type V = Seq<Seq<char>>;

    open spec fn view(&self) -> Seq<Seq<char>> {
        texts(self.names@)
    }
}

/// The name of a project of another tool.
pub open spec fn is_foreign_project(name: Seq<char>) -> bool {
    ends_in(name, ".project.json"@) && ascii_lower(name) != ascii_lower(PROJECT_JSON_FILE_NAME@)
}

/// The first `n` of some names that are projects of another tool.
pub open spec fn foreign_projects(names: Seq<Seq<char>>, n: nat) -> Seq<Seq<char>>
    decreases n,
{
    if n == 0 {
        Seq::empty()
    } else {
        let before = foreign_projects(names, (n - 1) as nat);
        if is_foreign_project(names[n - 1]) {
            before.push(names[n - 1])
        } else {
            before
        }
    }
}

/// The projects of another tool in a directory, in order.
pub open spec fn foreign_in(listings: Map<PathParts, Seq<Seq<char>>>, directory: PathParts) -> Seq<Seq<char>> {
    match value_of(listings, directory) {
        Some(names) => in_order(foreign_projects(names, names.len())),
        None => in_order(Seq::empty()),
    }
}

/// Lists the projects of another tool in a directory, in order.
pub fn rojo_project_files(listings: &Table<FilePath, DirectoryNames>, directory: &FilePath) -> (r: Vec<String>)
    ensures
        texts(r@) == foreign_in(listings@, directory@),
{
    let mut found: Vec<String> = Vec::new();
    assert(texts(found@) =~= Seq::empty());
    match listings.get(directory) {
        Some(listing) => {
            let ghost all = texts(listing.names@);
            let mut i: usize = 0;
            while i < listing.names.len()
                invariant
                    i <= listing.names.len(),
                    all == texts(listing.names@),
                    texts(found@) == foreign_projects(all, i as nat),
                decreases listing.names.len() - i,
            {
                assert(all[i as int] == listing.names@[i as int]@);
                let name = &listing.names[i];
                if ends_with_ignore_ascii_case(name, ".project.json") && !same(
                    &to_ascii_lower(name),
                    &to_ascii_lower(PROJECT_JSON_FILE_NAME),
                ) {
                    let copy = name.clone();
                    proof {
                        lemma_texts_push(found@, copy);
                    }
                    found.push(copy);
                }
                i += 1;
            }
            assert(all.len() == listing.names@.len());
        },
        None => {},
    }
    sorted_once(&found)
}

/// Why no project is found.
#[derive(PartialEq, Eq, Structural, Clone, Copy, Debug)]
pub enum ResolveError {
    /// A directory has two project files.
    BothFiles,
    /// A directory has none.
    NoProject,
    /// A directory has several projects of another tool.
    ManyForeign,
    /// The file that was named is not there.
    MissingFile,
    /// No directory above has one.
    NotFound,
}

pub open spec fn has_file(files: Map<PathParts, FactModel>, directory: PathParts, name: Seq<char>) -> bool {
    kind_at(files, PathParts { rooted: directory.rooted, parts: directory.parts.push(name) }) == SourceKind::File
}

/// The project file of a directory.
pub open spec fn project_in(
    files: Map<PathParts, FactModel>,
    listings: Map<PathParts, Seq<Seq<char>>>,
    directory: PathParts,
) -> Result<PathParts, ResolveError> {
    let commented = has_file(files, directory, PROJECT_FILE_NAME@);
    let plain = has_file(files, directory, PROJECT_JSON_FILE_NAME@);
    if commented && plain {
        Err(ResolveError::BothFiles)
    } else if commented {
        Ok(PathParts { rooted: directory.rooted, parts: directory.parts.push(PROJECT_FILE_NAME@) })
    } else if plain {
        Ok(PathParts { rooted: directory.rooted, parts: directory.parts.push(PROJECT_JSON_FILE_NAME@) })
    } else {
        let foreign = foreign_in(listings, directory);
        if foreign.len() == 1 {
            Ok(PathParts { rooted: directory.rooted, parts: directory.parts.push(foreign[0]) })
        } else if foreign.len() == 0 {
            Err(ResolveError::NoProject)
        } else {
            Err(ResolveError::ManyForeign)
        }
    }
}

pub open spec fn path_of(r: Result<FilePath, ResolveError>) -> Result<PathParts, ResolveError> {
    match r {
        Ok(path) => Ok(path@),
        Err(e) => Err(e),
    }
}

/// Finds the project file of a directory.
pub fn project_file_in_directory(files: &Files, listings: &Table<FilePath, DirectoryNames>, directory: &FilePath) -> (r: Result<
    FilePath,
    ResolveError,
>)
    ensures
        path_of(r) == project_in(files@, listings@, directory@),
{
    let commented = directory.child(PROJECT_FILE_NAME);
    let plain = directory.child(PROJECT_JSON_FILE_NAME);
    let has_commented = files.kind(&commented) == SourceKind::File;
    let has_plain = files.kind(&plain) == SourceKind::File;
    if has_commented && has_plain {
        return Err(ResolveError::BothFiles);
    }
    if has_commented {
        return Ok(commented);
    }
    if has_plain {
        return Ok(plain);
    }
    let foreign = rojo_project_files(listings, directory);
    assert(texts(foreign@).len() == foreign@.len());
    if foreign.len() == 1 {
        assert(texts(foreign@)[0] == foreign@[0]@);
        Ok(directory.child(&foreign[0]))
    } else if foreign.len() == 0 {
        Err(ResolveError::NoProject)
    } else {
        Err(ResolveError::ManyForeign)
    }
}

/// A directory has a project.
pub open spec fn holds_project(files: Map<PathParts, FactModel>, listings: Map<PathParts, Seq<Seq<char>>>, directory: PathParts) -> bool {
    has_file(files, directory, PROJECT_FILE_NAME@) || has_file(files, directory, PROJECT_JSON_FILE_NAME@) || foreign_in(
        listings,
        directory,
    ).len() > 0
}

/// The project of the first directory, from one upward, that has one.
pub open spec fn project_above(
    files: Map<PathParts, FactModel>,
    listings: Map<PathParts, Seq<Seq<char>>>,
    directory: PathParts,
) -> Result<Option<PathParts>, ResolveError>
    decreases directory.parts.len(),
{
    if holds_project(files, listings, directory) {
        match project_in(files, listings, directory) {
            Ok(path) => Ok(Some(path)),
            Err(e) => Err(e),
        }
    } else if directory.parts.len() == 0 {
        Ok(None)
    } else {
        project_above(files, listings, PathParts { rooted: directory.rooted, parts: directory.parts.drop_last() })
    }
}

/// The project that is meant: one that was named, by its file or directory, or the nearest above a
/// start.
pub open spec fn project_meant(
    files: Map<PathParts, FactModel>,
    listings: Map<PathParts, Seq<Seq<char>>>,
    named: Option<PathParts>,
    start: PathParts,
) -> Result<Option<PathParts>, ResolveError> {
    match named {
        Some(named) => {
            let path = if kind_at(files, named) == SourceKind::Directory {
                project_in(files, listings, named)
            } else {
                Ok(named)
            };
            match path {
                Err(e) => Err(e),
                Ok(path) => if kind_at(files, path) == SourceKind::File {
                    Ok(Some(path))
                } else {
                    Err(ResolveError::MissingFile)
                },
            }
        },
        None => project_above(
            files,
            listings,
            if kind_at(files, start) == SourceKind::File {
                parent_or(start, PathParts { rooted: false, parts: Seq::empty() })
            } else {
                start
            },
        ),
    }
}

/// Finds the project that is meant, if there is one.
pub fn try_resolve_project_path(
    files: &Files,
    listings: &Table<FilePath, DirectoryNames>,
    named: &Option<FilePath>,
    start: &FilePath,
) -> (r: Result<Option<FilePath>, ResolveError>)
    ensures
        match r {
            Ok(found) => project_meant(files@, listings@, crate::paths::opt_path(*named), start@) == Ok::<
                Option<PathParts>,
                ResolveError,
            >(crate::paths::opt_path(found)),
            Err(e) => project_meant(files@, listings@, crate::paths::opt_path(*named), start@) == Err::<
                Option<PathParts>,
                ResolveError,
            >(e),
        },
{
    match named {
        Some(explicit) => {
            let path = if files.kind(explicit) == SourceKind::Directory {
                match project_file_in_directory(files, listings, explicit) {
                    Ok(path) => path,
                    Err(e) => {
                        return Err(e);
                    },
                }
            } else {
                explicit.copy()
            };
            if files.kind(&path) != SourceKind::File {
                return Err(ResolveError::MissingFile);
            }
            return Ok(Some(path));
        },
        None => {},
    }
    let here = FilePath::relative(Vec::new());
    assert(here@ =~= (PathParts { rooted: false, parts: Seq::empty() }));
    let mut current = if files.kind(start) == SourceKind::File {
        find_parent(start, &here)
    } else {
        start.copy()
    };
    let ghost from = current@;
    loop
        invariant
            *named is None,
            from == if kind_at(files@, start@) == SourceKind::File {
                parent_or(start@, PathParts { rooted: false, parts: Seq::empty() })
            } else {
                start@
            },
            project_above(files@, listings@, from) == project_above(files@, listings@, current@),
        decreases current@.parts.len(),
    {
        let commented = current.child(PROJECT_FILE_NAME);
        let plain = current.child(PROJECT_JSON_FILE_NAME);
        let foreign = rojo_project_files(listings, &current);
        assert(texts(foreign@).len() == foreign@.len());
        if files.kind(&commented) == SourceKind::File || files.kind(&plain) == SourceKind::File || foreign.len() > 0 {
            return match project_file_in_directory(files, listings, &current) {
                Ok(path) => Ok(Some(path)),
                Err(e) => Err(e),
            };
        }
        match current.parent() {
            Some(parent) => {
                current = parent;
            },
            None => {
                return Ok(None);
            },
        }
    }
}

/// Finds the project that is meant.
pub fn resolve_project_path(
    files: &Files,
    listings: &Table<FilePath, DirectoryNames>,
    named: &Option<FilePath>,
    start: &FilePath,
) -> (r: Result<FilePath, ResolveError>)
    ensures
        path_of(r) == match project_meant(files@, listings@, crate::paths::opt_path(*named), start@) {
            Ok(Some(path)) => Ok::<PathParts, ResolveError>(path),
            Ok(None) => Err(ResolveError::NotFound),
            Err(e) => Err(e),
        },
{
    match try_resolve_project_path(files, listings, named, start) {
        Ok(Some(path)) => Ok(path),
        Ok(None) => Err(ResolveError::NotFound),
        Err(e) => Err(e),
    }
}

/// A project that is found stands at or above the start.
pub proof fn law_project_is_found_above(
    files: Map<PathParts, FactModel>,
    listings: Map<PathParts, Seq<Seq<char>>>,
    directory: PathParts,
)
    requires
        project_above(files, listings, directory) is Ok,
        project_above(files, listings, directory)->Ok_0 is Some,
    ensures
        ({
            let found = project_above(files, listings, directory)->Ok_0->0;
            found.parts.len() > 0 && found.rooted == directory.rooted && found.parts.drop_last().is_prefix_of(directory.parts)
        }),
    decreases directory.parts.len(),
{
    let found = project_above(files, listings, directory)->Ok_0->0;
    if holds_project(files, listings, directory) {
        assert(found.parts.drop_last() =~= directory.parts);
        assert(directory.parts.subrange(0, directory.parts.len() as int) =~= directory.parts);
    } else {
        let upper = PathParts { rooted: directory.rooted, parts: directory.parts.drop_last() };
        law_project_is_found_above(files, listings, upper);
        let above = found.parts.drop_last();
        assert(above =~= upper.parts.subrange(0, above.len() as int));
        assert(above =~= directory.parts.subrange(0, above.len() as int));
    }
}

} // verus!
