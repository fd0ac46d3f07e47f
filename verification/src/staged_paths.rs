//! From the sources of a project to the files of its stage.
use vstd::prelude::*;

use crate::link_apply::value_of;
use crate::mapping::joined_target;
use crate::order::{ascending, SortedSet};
use crate::paths::{joined_path, last_name, opt_path, path_after, path_starts_with, path_views, FilePath, PathParts};
use crate::project::{
    all_tree_nodes, kind_at, project_naming, project_script_naming, project_tree_nodes, target_checked, tree_views,
    validate_instance_target, AdapterDirection, FactModel, Files, LoadedProject, SourceKind, TargetProblem, TreeNodeModel,
};
use crate::projects::{placed_views, PlacedProject, PlacedProjectModel};
use crate::rules::{adapter_script_path, adapter_target_script_path, destination_of, file_target_destination, opt_len};
use crate::table::{key_views, Table};
use crate::text::texts;

verus! {

broadcast use vstd::seq_lib::group_seq_properties;

/// The sources of the first `n` declared instances.
pub open spec fn node_sources(root: PathParts, nodes: Seq<TreeNodeModel>, n: nat) -> Seq<PathParts>
    decreases n,
{
    if n == 0 {
        Seq::empty()
    } else {
        let before = node_sources(root, nodes, (n - 1) as nat);
        match opt_path(nodes[n - 1].node.path) {
            Some(path) => before.push(joined_path(root, path)),
            None => before,
        }
    }
}

/// The sources of a project: its source root, those of its tree and of its mounts.
pub open spec fn rule_roots(loaded: LoadedProject) -> Seq<PathParts> {
    let nodes = all_tree_nodes(loaded.project);
    seq![joined_path(loaded.root@, loaded.project.source_root@)] + node_sources(loaded.root@, nodes, nodes.len()) + Seq::new(
        loaded.project.mounts@.len(),
        |i: int| joined_path(loaded.root@, loaded.project.mounts@[i].source@),
    )
}

/// A path as it stands below a source: the name of a file, the rest below a directory.
pub open spec fn below_source(files: Map<PathParts, FactModel>, root: PathParts, path: PathParts) -> Option<PathParts> {
    if kind_at(files, root) == SourceKind::File {
        if path == root {
            let name = last_name(root);
            Some(
                PathParts {
                    rooted: false,
                    parts: if name.len() == 0 {
                        Seq::empty()
                    } else {
                        seq![name]
                    },
                },
            )
        } else {
            None
        }
    } else if path_starts_with(path, root) {
        Some(path_after(path, root))
    } else {
        None
    }
}

/// `i` is the deepest source that holds a path, the first of those.
pub open spec fn is_nearest_source(files: Map<PathParts, FactModel>, roots: Seq<PathParts>, path: PathParts, i: int) -> bool {
    &&& 0 <= i < roots.len()
    &&& below_source(files, roots[i], path) is Some
    &&& forall|j: int|
        0 <= j < roots.len() && below_source(files, #[trigger] roots[j], path) is Some ==> roots[j].parts.len()
            < roots[i].parts.len() || (roots[j].parts.len() == roots[i].parts.len() && i <= j)
}

/// `r` is a path as rules see it: below the deepest source that holds it.
pub open spec fn is_rule_path(files: Map<PathParts, FactModel>, roots: Seq<PathParts>, path: PathParts, r: Option<PathParts>) -> bool {
    match r {
        Some(p) => exists|i: int| #[trigger]
            is_nearest_source(files, roots, path, i) && below_source(files, roots[i], path) == Some(p),
        None => forall|j: int| 0 <= j < roots.len() ==> below_source(files, #[trigger] roots[j], path) is None,
    }
}

fn push_path(list: &mut Vec<FilePath>, path: FilePath)
    ensures
        path_views(final(list)@) == path_views(old(list)@).push(path@),
{
    let ghost before = list@;
    list.push(path);
    assert(path_views(list@) =~= path_views(before).push(path@));
}

fn list_rule_roots(loaded: &LoadedProject) -> (r: Vec<FilePath>)
    ensures
        path_views(r@) == rule_roots(*loaded),
{
    let nodes = project_tree_nodes(&loaded.project.tree);
    let ghost all = tree_views(nodes@);
    assert(all.len() == nodes@.len());
    let mut out: Vec<FilePath> = Vec::new();
    let own = loaded.root.join(&loaded.project.source_root);
    let ghost first = seq![own@];
    assert(path_views(out@).push(own@) =~= first);
    push_path(&mut out, own);
    let mut i: usize = 0;
    assert(first + node_sources(loaded.root@, all, 0) =~= first);
    while i < nodes.len()
        invariant
            i <= nodes.len(),
            all == tree_views(nodes@),
            path_views(out@) == first + node_sources(loaded.root@, all, i as nat),
        decreases nodes.len() - i,
    {
        assert(all[i as int] == nodes@[i as int]@);
        match &nodes[i].node.path {
            Some(path) => {
                let source = loaded.root.join(path);
                assert((first + node_sources(loaded.root@, all, i as nat)).push(source@) =~= first + node_sources(
                    loaded.root@,
                    all,
                    i as nat,
                ).push(source@));
                push_path(&mut out, source);
            },
            None => {},
        }
        i += 1;
    }
    let ghost second = path_views(out@);
    let ghost mounts = Seq::new(
        loaded.project.mounts@.len(),
        |i: int| joined_path(loaded.root@, loaded.project.mounts@[i].source@),
    );
    let mut m: usize = 0;
    assert(second + mounts.take(0) =~= second);
    while m < loaded.project.mounts.len()
        invariant
            m <= loaded.project.mounts@.len(),
            mounts == Seq::new(
                loaded.project.mounts@.len(),
                |i: int| joined_path(loaded.root@, loaded.project.mounts@[i].source@),
            ),
            path_views(out@) == second + mounts.take(m as int),
        decreases loaded.project.mounts@.len() - m,
    {
        let source = loaded.root.join(&loaded.project.mounts[m].source);
        assert((second + mounts.take(m as int)).push(source@) =~= second + mounts.take(m + 1));
        push_path(&mut out, source);
        m += 1;
    }
    assert(mounts.take(m as int) =~= mounts);
    out
}

fn find_below(files: &Files, root: &FilePath, path: &FilePath) -> (r: Option<FilePath>)
    ensures
        opt_path(r) == below_source(files@, root@, path@),
{
    if files.kind(root) == SourceKind::File {
        if path.is_same(root) {
            let name = root.file_name();
            let mut parts: Vec<String> = Vec::new();
            if !name.as_str().is_empty() {
                let ghost kept = name@;
                parts.push(name);
                assert(texts(parts@) =~= seq![kept]);
            } else {
                assert(texts(parts@) =~= Seq::empty());
            }
            Some(FilePath::relative(parts))
        } else {
            None
        }
    } else {
        path.strip_prefix(root)
    }
}

/// A path as rules see it: below the deepest source of a project that holds it.
pub fn source_owner_relative_path(loaded: &LoadedProject, files: &Files, path: &FilePath) -> (r: Option<FilePath>)
    ensures
        is_rule_path(files@, rule_roots(*loaded), path@, opt_path(r)),
{
    let roots = list_rule_roots(loaded);
    let ghost all = path_views(roots@);
    assert(all.len() == roots@.len());
    let mut best: Option<usize> = None;
    let mut found: Option<FilePath> = None;
    let mut i: usize = 0;
    while i < roots.len()
        invariant
            i <= roots.len(),
            all == path_views(roots@),
            match best {
                Some(b) => 0 <= b < i && below_source(files@, all[b as int], path@) is Some && below_source(
                    files@,
                    all[b as int],
                    path@,
                ) == opt_path(found) && forall|j: int|
                    0 <= j < i && below_source(files@, #[trigger] all[j], path@) is Some ==> all[j].parts.len()
                        < all[b as int].parts.len() || (all[j].parts.len() == all[b as int].parts.len() && b <= j),
                None => found is None && forall|j: int| 0 <= j < i ==> below_source(files@, #[trigger] all[j], path@) is None,
            },
        decreases roots.len() - i,
    {
        assert(all[i as int] == roots@[i as int]@);
        assert(all[i as int].parts.len() == roots@[i as int].parts@.len());
        let deeper = match best {
            Some(b) => {
                assert(all[b as int] == roots@[b as int]@);
                assert(all[b as int].parts.len() == roots@[b as int].parts@.len());
                roots[i].parts.len() > roots[b].parts.len()
            },
            None => true,
        };
        let answer = find_below(files, &roots[i], path);
        if deeper && answer.is_some() {
            best = Some(i);
            found = answer;
        }
        i += 1;
    }
    proof {
        match best {
            Some(b) => {
                assert(is_nearest_source(files@, all, path@, b as int));
            },
            None => {},
        }
    }
    found
}

/// The file of the script that an adapter writes, if the adapter carries the source and makes a module.
pub open spec fn generated_by(
    placed: PlacedProjectModel,
    a: int,
    makes: bool,
    stage: PathParts,
    source: PathParts,
) -> Result<Option<PathParts>, TargetProblem> {
    let loaded = placed.tree.loaded;
    let adapter = loaded.project.adapters@[a];
    if adapter.direction != AdapterDirection::FromProject && joined_path(loaded.root@, adapter.source@) == source && makes {
        match target_checked(adapter.target@) {
            Err(e) => Err(e),
            Ok(_) => Ok(
                Some(
                    adapter_script_path(
                        stage,
                        placed.prefix + adapter.target@.segments,
                        project_naming(loaded.project).module_suffix,
                        project_naming(loaded.project).extension,
                    ),
                ),
            ),
        }
    } else {
        Ok(None)
    }
}

/// The scripts there are that the adapters of a project from `a` on write for a source, after others.
pub open spec fn generated_from(
    placed: PlacedProjectModel,
    makes: Seq<bool>,
    files: Map<PathParts, FactModel>,
    stage: PathParts,
    source: PathParts,
    done: Seq<PathParts>,
    a: int,
) -> Result<Seq<PathParts>, TargetProblem>
    decreases placed.tree.loaded.project.adapters@.len() - a,
{
    if a < 0 || a >= placed.tree.loaded.project.adapters@.len() {
        Ok(done)
    } else {
        match generated_by(placed, a, a < makes.len() && makes[a], stage, source) {
            Err(e) => Err(e),
            Ok(path) => {
                let next = if path is Some && kind_at(files, path->0) == SourceKind::File {
                    done.push(path->0)
                } else {
                    done
                };
                generated_from(placed, makes, files, stage, source, next, a + 1)
            },
        }
    }
}

/// The scripts there are that the adapters of projects from `k` on write for a source, after others.
pub open spec fn all_generated_from(
    list: Seq<PlacedProjectModel>,
    makes: Seq<Seq<bool>>,
    files: Map<PathParts, FactModel>,
    stage: PathParts,
    source: PathParts,
    done: Seq<PathParts>,
    k: int,
) -> Result<Seq<PathParts>, TargetProblem>
    decreases list.len() - k,
{
    if k < 0 || k >= list.len() {
        Ok(done)
    } else {
        let own = if k < makes.len() {
            makes[k]
        } else {
            Seq::empty()
        };
        match generated_from(list[k], own, files, stage, source, done, 0) {
            Err(e) => Err(e),
            Ok(next) => all_generated_from(list, makes, files, stage, source, next, k + 1),
        }
    }
}

pub open spec fn answers(v: Seq<Vec<bool>>) -> Seq<Seq<bool>> {
    Seq::new(v.len(), |i: int| v[i]@)
}

/// Lists the scripts there are that adapters write for a source. `makes` says of each adapter of each
/// project whether it makes a module.
pub fn generated_staged_paths(
    list: &Vec<PlacedProject<'_>>,
    makes: &Vec<Vec<bool>>,
    files: &Files,
    stage: &FilePath,
    source: &FilePath,
) -> (r: Result<Vec<FilePath>, TargetProblem>)
    ensures
        match all_generated_from(placed_views(list@), answers(makes@), files@, stage@, source@, Seq::empty(), 0) {
            Ok(found) => r is Ok && path_views(r->Ok_0@) == found,
            Err(e) => r is Err && r->Err_0 == e,
        },
{
    let ghost all = placed_views(list@);
    let ghost given = answers(makes@);
    let ghost whole = all_generated_from(all, given, files@, stage@, source@, Seq::empty(), 0);
    assert(all.len() == list@.len());
    let none: Vec<bool> = Vec::new();
    assert(none@ =~= Seq::empty());
    let mut out: Vec<FilePath> = Vec::new();
    assert(path_views(out@) =~= Seq::empty());
    let mut k: usize = 0;
    while k < list.len()
        invariant
            k <= list.len(),
            all == placed_views(list@),
            given == answers(makes@),
            none@ == Seq::<bool>::empty(),
            whole == all_generated_from(all, given, files@, stage@, source@, Seq::empty(), 0),
            whole == all_generated_from(all, given, files@, stage@, source@, path_views(out@), k as int),
        decreases list.len() - k,
    {
        assert(all[k as int] == list@[k as int]@);
        let own = if k < makes.len() {
            assert(given[k as int] == makes@[k as int]@);
            &makes[k]
        } else {
            &none
        };
        let placed = &list[k];
        let loaded = &placed.tree.loaded;
        let naming = project_script_naming(&loaded.project);
        let ghost start = path_views(out@);
        let ghost inner = generated_from(all[k as int], own@, files@, stage@, source@, start, 0);
        let mut a: usize = 0;
        while a < loaded.project.adapters.len()
            invariant
                a <= loaded.project.adapters@.len(),
                *loaded == all[k as int].tree.loaded,
                placed@ == all[k as int],
                naming@ == project_naming(loaded.project),
                inner == generated_from(all[k as int], own@, files@, stage@, source@, path_views(out@), a as int),
                inner == generated_from(all[k as int], own@, files@, stage@, source@, start, 0),
                k < list@.len(),
                all == placed_views(list@),
                given == answers(makes@),
                own@ == if k < makes@.len() {
                    given[k as int]
                } else {
                    Seq::<bool>::empty()
                },
                whole == all_generated_from(all, given, files@, stage@, source@, Seq::empty(), 0),
                whole == all_generated_from(all, given, files@, stage@, source@, start, k as int),
            decreases loaded.project.adapters@.len() - a,
        {
            let adapter = &loaded.project.adapters[a];
            let makes_module = a < own.len() && own[a];
            if adapter.direction != AdapterDirection::FromProject && makes_module && loaded.root.join(&adapter.source).is_same(
                source,
            ) {
                match validate_instance_target(&adapter.target) {
                    Err(e) => {
                        return Err(e);
                    },
                    Ok(_) => {},
                }
                let segments = adapter.target.segments();
                let target = joined_target(&placed.prefix, &segments);
                let path = adapter_target_script_path(stage, &target, &naming.module_suffix, naming.extension);
                if files.kind(&path) == SourceKind::File {
                    push_path(&mut out, path);
                }
            }
            a += 1;
        }
        k += 1;
    }
    Ok(out)
}

/// A file of the stage that stands for a source under one of its staged paths: the file there, or the
/// one that it was copied to, or the settings of the service.
pub open spec fn stands_for(
    files: Map<PathParts, FactModel>,
    settings: Map<Seq<char>, PathParts>,
    stage: PathParts,
    source: PathParts,
    script: Option<int>,
    relative: PathParts,
    p: PathParts,
) -> bool {
    let mapped = joined_path(stage, relative);
    let here = kind_at(files, mapped) == SourceKind::File;
    &&& kind_at(files, p) == SourceKind::File
    &&& {
        ||| here && p == mapped
        ||| !here && kind_at(files, source) == SourceKind::File && p == destination_of(mapped, last_name(source), script)
        ||| relative.parts.len() > 0 && value_of(settings, relative.parts[0]) == Some(p)
    }
}

/// A file of the stage that stands for a source.
pub open spec fn is_staged_file(
    files: Map<PathParts, FactModel>,
    settings: Map<Seq<char>, PathParts>,
    stage: PathParts,
    source: PathParts,
    script: Option<int>,
    relatives: Seq<PathParts>,
    p: PathParts,
    n: nat,
) -> bool {
    exists|i: int| 0 <= i < n && stands_for(files, settings, stage, source, script, #[trigger] relatives[i], p)
}

/// Lists the files of a stage that stand for a source: those under its staged paths and the scripts
/// that were made of it. `script` is the length of the name part of a script's file name.
pub fn project_source_to_staged_paths(
    files: &Files,
    settings: &Table<String, FilePath>,
    stage: &FilePath,
    source: &FilePath,
    script: Option<usize>,
    relatives: &Vec<FilePath>,
    generated: &Vec<FilePath>,
) -> (r: Vec<FilePath>)
    requires
        script is Some ==> script->0 <= last_name(source@).len(),
    ensures
        ascending::<FilePath>(key_views(r@)),
        forall|p: PathParts| #[trigger]
            key_views(r@).contains(p) <==> path_views(generated@).contains(p) || is_staged_file(
                files@,
                settings@,
                stage@,
                source@,
                opt_len(script),
                path_views(relatives@),
                p,
                relatives@.len(),
            ),
{
    let name = source.file_name();
    let source_is_file = files.kind(source) == SourceKind::File;
    let ghost list = path_views(relatives@);
    let ghost len = opt_len(script);
    let mut out: SortedSet<FilePath> = SortedSet::new();
    let mut i: usize = 0;
    while i < relatives.len()
        invariant
            i <= relatives.len(),
            list == path_views(relatives@),
            len == opt_len(script),
            name@ == last_name(source@),
            source_is_file == (kind_at(files@, source@) == SourceKind::File),
            script is Some ==> script->0 <= last_name(source@).len(),
            ascending::<FilePath>(out@),
            forall|p: PathParts| #[trigger]
                out@.contains(p) <==> is_staged_file(files@, settings@, stage@, source@, len, list, p, i as nat),
        decreases relatives.len() - i,
    {
        let ghost before = out@;
        assert(list[i as int] == relatives@[i as int]@);
        let relative = &relatives[i];
        let mapped = stage.join(relative);
        if files.kind(&mapped) == SourceKind::File {
            out.insert(mapped);
        } else if source_is_file {
            let copied = file_target_destination(&mapped, &name, script);
            if files.kind(&copied) == SourceKind::File {
                out.insert(copied);
            }
        }
        if relative.parts.len() > 0 {
            assert(relative@.parts[0] == relative.parts@[0]@);
            match settings.get(&relative.parts[0]) {
                Some(path) => {
                    if files.kind(path) == SourceKind::File {
                        out.insert(path.copy());
                    }
                },
                None => {},
            }
        }
        assert forall|p: PathParts| #[trigger]
            out@.contains(p) <==> is_staged_file(files@, settings@, stage@, source@, len, list, p, (i + 1) as nat) by {
            assert(before.contains(p) <==> is_staged_file(files@, settings@, stage@, source@, len, list, p, i as nat));
            assert(out@.contains(p) <==> before.contains(p) || stands_for(
                files@,
                settings@,
                stage@,
                source@,
                len,
                list[i as int],
                p,
            ));
            if is_staged_file(files@, settings@, stage@, source@, len, list, p, i as nat) {
                let j = choose|j: int| 0 <= j < i && stands_for(files@, settings@, stage@, source@, len, #[trigger] list[j], p);
                assert(stands_for(files@, settings@, stage@, source@, len, list[j], p));
            }
            if is_staged_file(files@, settings@, stage@, source@, len, list, p, (i + 1) as nat) {
                let j = choose|j: int|
                    0 <= j < i + 1 && stands_for(files@, settings@, stage@, source@, len, #[trigger] list[j], p);
                if j < i {
                    assert(is_staged_file(files@, settings@, stage@, source@, len, list, p, i as nat));
                }
            }
        }
        i += 1;
    }
    let ghost found = out@;
    let ghost made = path_views(generated@);
    let mut g: usize = 0;
    while g < generated.len()
        invariant
            g <= generated.len(),
            made == path_views(generated@),
            ascending::<FilePath>(out@),
            forall|p: PathParts| #[trigger] out@.contains(p) <==> found.contains(p) || made.take(g as int).contains(p),
        decreases generated.len() - g,
    {
        assert(made[g as int] == generated@[g as int]@);
        assert(made.take(g + 1) =~= made.take(g as int).push(made[g as int]));
        out.insert(generated[g].copy());
        g += 1;
    }
    assert(made.take(g as int) =~= made);
    out.into_items()
}

} // verus!
