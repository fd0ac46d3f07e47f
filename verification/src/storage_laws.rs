//! Where the stores of a project stand, and how they get there.
use vstd::prelude::*;

use crate::paths::{PathParts, extension_of, joined_path, last_name, path_starts_with, stem_of};
use crate::project::{FactModel, LoadedProject, SourceKind, key_at, kind_at};
use crate::storage::{
    LayoutModel, MappedModel, SERVICE_SETTINGS_FILE_NAME, ScriptSourceModel, layout_at, layout_of,
    layouts_apart, layouts_outside, mapped_from, script_sources_of,
};
use crate::store_moves::{
    MoveFactModel, MoveModel, copies_from, directory_moves, planned_moves, with_mapped_moves,
};

verus! {

/// The store of a target: a file below the directory of stores, named by the target.
pub open spec fn is_store_of(root: PathParts, target: Seq<Seq<char>>, names: Map<Seq<char>, Seq<char>>, store: PathParts) -> bool {
    &&& store.rooted == root.rooted
    &&& store.parts.len() == root.parts.len() + 1 + target.len()
    &&& root.parts.push("instances"@).is_prefix_of(store.parts) || target.len() == 0
    &&& forall|i: int|
        0 <= i < target.len() ==> #[trigger] store.parts[root.parts.len() + 1 + i] == {
            let name = if names.dom().contains(target[i]) {
                names[target[i]]
            } else {
                target[i]
            };
            if i == target.len() - 1 {
                name + ".renium"@
            } else {
                name
            }
        }
}

/// A source that is a single file: one, or, where nothing is there, one with an extension.
pub open spec fn stands_for_file(files: Map<PathParts, FactModel>, source: PathParts) -> bool {
    kind_at(files, source) == SourceKind::File || (kind_at(files, source) != SourceKind::Directory && extension_of(
        last_name(source),
    ) is Some)
}

#[verifier::rlimit(50)]
proof fn lemma_mapped_from(
    root: PathParts,
    layout_source: PathParts,
    sources: Seq<ScriptSourceModel>,
    files: Map<PathParts, FactModel>,
    names: Map<Seq<char>, Seq<char>>,
    from: int,
    i: int,
)
    requires
        0 <= from <= i < sources.len(),
        mapped_from(root, layout_source, sources, files, names, from) is Ok,
        !stands_for_file(files, joined_path(root, sources[i].source)),
    ensures
        exists|store: PathParts| #[trigger]
            is_store_of(root, sources[i].target, names, store) && (mapped_from(
                root,
                layout_source,
                sources,
                files,
                names,
                from,
            )->Ok_0.contains(MappedModel { source: joined_path(root, sources[i].source), store }) || joined_path(
                root,
                sources[i].source,
            ) == (PathParts {
                rooted: layout_source.rooted,
                parts: layout_source.parts.push(stem_of(last_name(store))),
            })),
        !path_starts_with(joined_path(root, sources[i].source), crate::storage::instances_of(root)),
    decreases i - from,
{
    let x = sources[from];
    let source = joined_path(root, x.source);
    let instances = crate::storage::instances_of(root);
    let rest = mapped_from(root, layout_source, sources, files, names, from + 1);
    let out = mapped_from(root, layout_source, sources, files, names, from)->Ok_0;
    if from == i {
        let store = crate::storage::store_of(instances, x.target, names);
        let parts = instances.parts + Seq::new(x.target.len(), |k: int| crate::storage::file_name_of(names, x.target[k]));
        assert(is_store_of(root, x.target, names, store)) by {
            assert forall|k: int| 0 <= k < x.target.len() implies #[trigger] store.parts[root.parts.len() + 1 + k] == {
                let name = if names.dom().contains(x.target[k]) {
                    names[x.target[k]]
                } else {
                    x.target[k]
                };
                if k == x.target.len() - 1 {
                    name + ".renium"@
                } else {
                    name
                }
            } by {
                assert(parts[root.parts.len() + 1 + k] == crate::storage::file_name_of(names, x.target[k]));
            }
            if x.target.len() > 0 {
                assert(root.parts.push("instances"@) =~= store.parts.subrange(0, (root.parts.len() + 1) as int));
            }
        }
        let one = MappedModel { source, store };
        if source != crate::storage::below(layout_source, stem_of(last_name(store))) {
            assert(out[0] == one);
        }
    } else {
        lemma_mapped_from(root, layout_source, sources, files, names, from + 1, i);
        let store = choose|store: PathParts| #[trigger]
            is_store_of(root, sources[i].target, names, store) && (rest->Ok_0.contains(
                MappedModel { source: joined_path(root, sources[i].source), store },
            ) || joined_path(root, sources[i].source) == (PathParts {
                rooted: layout_source.rooted,
                parts: layout_source.parts.push(stem_of(last_name(store))),
            }));
        let one = MappedModel { source: joined_path(root, sources[i].source), store };
        if rest->Ok_0.contains(one) {
            let k = choose|k: int| 0 <= k < rest->Ok_0.len() && rest->Ok_0[k] == one;
            let shift: int = out.len() - rest->Ok_0.len();
            assert(out[k + shift] == one);
        }
    }
}

/// The layout of a project stands at its root, with the root of its sources. Every source of
/// scripts that is a directory has a store named by its target, whether it stands where the name
/// of the store says or is mapped to it, and none lies among the stores.
pub proof fn law_sources_have_their_stores(
    loaded: LoadedProject,
    files: Map<PathParts, FactModel>,
    names: Map<Seq<char>, Seq<char>>,
    i: int,
)
    requires
        layout_of(loaded, files, names) is Ok,
    ensures
        layout_of(loaded, files, names)->Ok_0.project == loaded.root@,
        layout_of(loaded, files, names)->Ok_0.source == joined_path(loaded.root@, loaded.project.source_root@),
        0 <= i < script_sources_of(loaded.project).len() && !stands_for_file(
            files,
            joined_path(loaded.root@, script_sources_of(loaded.project)[i].source),
        ) ==> exists|store: PathParts| #[trigger]
            is_store_of(loaded.root@, script_sources_of(loaded.project)[i].target, names, store) && (layout_of(
                loaded,
                files,
                names,
            )->Ok_0.mapped.contains(
                MappedModel { source: joined_path(loaded.root@, script_sources_of(loaded.project)[i].source), store },
            ) || joined_path(loaded.root@, script_sources_of(loaded.project)[i].source) == (PathParts {
                rooted: layout_of(loaded, files, names)->Ok_0.source.rooted,
                parts: layout_of(loaded, files, names)->Ok_0.source.parts.push(stem_of(last_name(store))),
            })),
{
    let sources = script_sources_of(loaded.project);
    if 0 <= i < sources.len() && !stands_for_file(files, joined_path(loaded.root@, sources[i].source)) {
        lemma_mapped_from(
            loaded.root@,
            joined_path(loaded.root@, loaded.project.source_root@),
            sources,
            files,
            names,
            0,
            i,
        );
    }
}

proof fn lemma_apart(list: Seq<LayoutModel>, files: Map<PathParts, FactModel>, layout: LayoutModel, n: nat, x: LayoutModel)
    requires
        n <= list.len(),
    ensures
        layouts_apart(list, files, layout, n).contains(x) <==> (exists|i: int| 0 <= i < n && #[trigger] list[i] == x)
            && x.project != layout.project && key_at(files, x.source) != key_at(files, layout.source),
    decreases n,
{
    if n > 0 {
        lemma_apart(list, files, layout, (n - 1) as nat, x);
        let before = layouts_apart(list, files, layout, (n - 1) as nat);
        let after = layouts_apart(list, files, layout, n);
        if exists|i: int| 0 <= i < n - 1 && #[trigger] list[i] == x {
            let i = choose|i: int| 0 <= i < n - 1 && #[trigger] list[i] == x;
            assert(0 <= i < n && list[i] == x);
        }
        if before.contains(x) {
            let k = choose|k: int| 0 <= k < before.len() && before[k] == x;
            assert(after[k] == x);
        }
        if after.contains(x) {
            let k = choose|k: int| 0 <= k < after.len() && after[k] == x;
            if k < before.len() {
                assert(before[k] == x);
                assert(before.contains(x));
            } else {
                assert(list[n - 1] == x);
            }
        }
        if list[n - 1] == x && after.len() > before.len() {
            assert(after[before.len() as int] == x);
        }
        if (exists|i: int| 0 <= i < n && #[trigger] list[i] == x) && list[n - 1] != x {
            let i = choose|i: int| 0 <= i < n && #[trigger] list[i] == x;
            assert(0 <= i < n - 1 && list[i] == x);
        }
    }
}

/// A layout that was registered is the one of its sources. It takes the place of those of its
/// project and of its sources, and leaves the others.
pub proof fn law_registered_layout_is_found(
    list: Seq<LayoutModel>,
    files: Map<PathParts, FactModel>,
    layout: LayoutModel,
    x: LayoutModel,
)
    ensures
        layout_at(layouts_apart(list, files, layout, list.len()).push(layout), files, layout.source, 0) == Some(layout),
        list.contains(x) && x.project != layout.project && key_at(files, x.source) != key_at(files, layout.source)
            ==> layouts_apart(list, files, layout, list.len()).push(layout).contains(x),
        layouts_apart(list, files, layout, list.len()).push(layout).contains(x) && x != layout ==> list.contains(x)
            && x.project != layout.project && key_at(files, x.source) != key_at(files, layout.source),
{
    let kept = layouts_apart(list, files, layout, list.len());
    let all = kept.push(layout);
    lemma_apart(list, files, layout, list.len(), x);
    if list.contains(x) && kept.contains(x) {
        let k = choose|k: int| 0 <= k < kept.len() && kept[k] == x;
        assert(all[k] == x);
    }
    if all.contains(x) && x != layout {
        let k = choose|k: int| 0 <= k < all.len() && all[k] == x;
        assert(kept[k] == x);
        assert(kept.contains(x));
    }
    if list.contains(x) {
        let k = choose|k: int| 0 <= k < list.len() && list[k] == x;
        assert(0 <= k < list.len() && list[k] == x);
    }
    assert forall|k: int| 0 <= k < kept.len() implies key_at(files, (#[trigger] kept[k]).source) != key_at(
        files,
        layout.source,
    ) by {
        lemma_apart(list, files, layout, list.len(), kept[k]);
        assert(kept.contains(kept[k]));
    }
    lemma_found_last(all, files, layout, 0);
}

proof fn lemma_found_last(all: Seq<LayoutModel>, files: Map<PathParts, FactModel>, layout: LayoutModel, i: int)
    requires
        0 <= i < all.len(),
        all.last() == layout,
        forall|k: int|
            0 <= k < all.len() - 1 ==> key_at(files, (#[trigger] all[k]).source) != key_at(files, layout.source),
    ensures
        layout_at(all, files, layout.source, i) == Some(layout),
    decreases all.len() - i,
{
    if i < all.len() - 1 {
        assert(key_at(files, all[i].source) != key_at(files, layout.source));
        lemma_found_last(all, files, layout, i + 1);
    }
}

/// Forgetting a directory forgets the layouts of the projects in it, and no other.
pub proof fn law_forgotten_layouts_go(list: Seq<LayoutModel>, root: PathParts, n: nat, x: LayoutModel)
    requires
        n <= list.len(),
    ensures
        layouts_outside(list, root, n).contains(x) <==> (exists|i: int| 0 <= i < n && #[trigger] list[i] == x)
            && !path_starts_with(x.project, root),
    decreases n,
{
    if n > 0 {
        law_forgotten_layouts_go(list, root, (n - 1) as nat, x);
        let before = layouts_outside(list, root, (n - 1) as nat);
        let after = layouts_outside(list, root, n);
        if exists|i: int| 0 <= i < n - 1 && #[trigger] list[i] == x {
            let i = choose|i: int| 0 <= i < n - 1 && #[trigger] list[i] == x;
            assert(0 <= i < n && list[i] == x);
        }
        if before.contains(x) {
            let k = choose|k: int| 0 <= k < before.len() && before[k] == x;
            assert(after[k] == x);
        }
        if after.contains(x) {
            let k = choose|k: int| 0 <= k < after.len() && after[k] == x;
            if k < before.len() {
                assert(before[k] == x);
                assert(before.contains(x));
            } else {
                assert(list[n - 1] == x);
            }
        }
        if list[n - 1] == x && after.len() > before.len() {
            assert(after[before.len() as int] == x);
        }
        if (exists|i: int| 0 <= i < n && #[trigger] list[i] == x) && list[n - 1] != x {
            let i = choose|i: int| 0 <= i < n && #[trigger] list[i] == x;
            assert(0 <= i < n - 1 && list[i] == x);
        }
    }
}

/// The old place of the store of a directory.
pub open spec fn old_place(directory: PathParts) -> PathParts {
    PathParts { rooted: directory.rooted, parts: directory.parts.push(SERVICE_SETTINGS_FILE_NAME@) }
}

/// A directory below another.
pub open spec fn directory_in(path: PathParts, name: Seq<char>) -> PathParts {
    PathParts { rooted: path.rooted, parts: path.parts.push(name) }
}

proof fn lemma_directory_moves(layout: LayoutModel, files: Map<PathParts, FactModel>, names: Seq<Seq<char>>, from: int, i: int)
    requires
        0 <= from <= i < names.len(),
        directory_moves(layout, files, names, from) is Ok,
        kind_at(files, old_place(directory_in(layout.source, names[i]))) == SourceKind::File,
    ensures
        exists|k: int|
            0 <= k < directory_moves(layout, files, names, from)->Ok_0.len() && (#[trigger] directory_moves(
                layout,
                files,
                names,
                from,
            )->Ok_0[k]).old == old_place(directory_in(layout.source, names[i])) && directory_moves(
                layout,
                files,
                names,
                from,
            )->Ok_0[k].new == crate::store_moves::new_place(layout, names[i]),
        !crate::project::link_at(files, old_place(directory_in(layout.source, names[i]))),
    decreases i - from,
{
    let out = directory_moves(layout, files, names, from)->Ok_0;
    if from == i {
        assert(out[0].old == old_place(directory_in(layout.source, names[i])));
    } else {
        lemma_directory_moves(layout, files, names, from + 1, i);
        let rest = directory_moves(layout, files, names, from + 1)->Ok_0;
        let k = choose|k: int|
            0 <= k < rest.len() && (#[trigger] rest[k]).old == old_place(directory_in(layout.source, names[i]))
                && rest[k].new == crate::store_moves::new_place(layout, names[i]);
        let shift: int = out.len() - rest.len();
        assert(out[k + shift] == rest[k]);
    }
}

proof fn lemma_more_moves(moves: Seq<MoveModel>, files: Map<PathParts, FactModel>, mapped: Seq<MappedModel>, n: nat, i: int)
    requires
        n <= mapped.len(),
    ensures
        moves.is_prefix_of(with_mapped_moves(moves, files, mapped, n)),
        0 <= i < n && kind_at(files, old_place(mapped[i].source)) == SourceKind::File ==> exists|k: int|
            0 <= k < with_mapped_moves(moves, files, mapped, n).len() && (#[trigger] with_mapped_moves(
                moves,
                files,
                mapped,
                n,
            )[k]).old == old_place(mapped[i].source),
    decreases n,
{
    if n > 0 {
        lemma_more_moves(moves, files, mapped, (n - 1) as nat, i);
        let before = with_mapped_moves(moves, files, mapped, (n - 1) as nat);
        let after = with_mapped_moves(moves, files, mapped, n);
        assert(moves =~= after.subrange(0, moves.len() as int));
        if 0 <= i < n && kind_at(files, old_place(mapped[i].source)) == SourceKind::File {
            if i < n - 1 {
                let k = choose|k: int|
                    0 <= k < before.len() && (#[trigger] before[k]).old == old_place(mapped[i].source);
                assert(after[k].old == old_place(mapped[i].source));
            } else if crate::store_moves::moves_from(before, old_place(mapped[i].source)) {
                let k = choose|k: int|
                    0 <= k < before.len() && (#[trigger] before[k]).old == old_place(mapped[i].source);
                assert(after[k].old == old_place(mapped[i].source));
            } else {
                assert(after[before.len() as int].old == old_place(mapped[i].source));
            }
        }
    }
}

/// Every store that stands at its old place is moved, to the store that its directory is mapped
/// to or else to the one named after it. A store that is a link stops it.
pub proof fn law_old_stores_are_moved(layout: LayoutModel, files: Map<PathParts, FactModel>, names: Seq<Seq<char>>, i: int, m: int)
    requires
        planned_moves(layout, files, names) is Ok,
    ensures
        0 <= i < names.len() && kind_at(files, old_place(directory_in(layout.source, names[i]))) == SourceKind::File
            ==> exists|k: int|
            0 <= k < planned_moves(layout, files, names)->Ok_0.len() && (#[trigger] planned_moves(
                layout,
                files,
                names,
            )->Ok_0[k]).old == old_place(directory_in(layout.source, names[i])) && planned_moves(
                layout,
                files,
                names,
            )->Ok_0[k].new == crate::store_moves::new_place(layout, names[i]),
        0 <= m < layout.mapped.len() && kind_at(files, old_place(layout.mapped[m].source)) == SourceKind::File
            ==> exists|k: int|
            0 <= k < planned_moves(layout, files, names)->Ok_0.len() && (#[trigger] planned_moves(
                layout,
                files,
                names,
            )->Ok_0[k]).old == old_place(layout.mapped[m].source),
{
    let moves = directory_moves(layout, files, names, 0)->Ok_0;
    let all = planned_moves(layout, files, names)->Ok_0;
    lemma_more_moves(moves, files, layout.mapped, layout.mapped.len(), m);
    if 0 <= i < names.len() && kind_at(files, old_place(directory_in(layout.source, names[i]))) == SourceKind::File {
        lemma_directory_moves(layout, files, names, 0, i);
        let k = choose|k: int|
            0 <= k < moves.len() && (#[trigger] moves[k]).old == old_place(directory_in(layout.source, names[i]))
                && moves[k].new == crate::store_moves::new_place(layout, names[i]);
        assert(moves[k] == all[k]);
    }
}

/// The new place of a store is where its directory is mapped to, else among the stores by its name.
pub proof fn law_new_place_follows_the_mapping(layout: LayoutModel, name: Seq<char>)
    ensures
        (forall|i: int|
            0 <= i < layout.mapped.len() ==> (#[trigger] layout.mapped[i]).source != directory_in(layout.source, name))
            ==> crate::store_moves::new_place(layout, name) == (PathParts {
            rooted: layout.project.rooted,
            parts: layout.project.parts.push("instances"@).push(stem_of(name) + ".renium"@),
        }),
        (exists|i: int|
            0 <= i < layout.mapped.len() && (#[trigger] layout.mapped[i]).source == directory_in(layout.source, name))
            ==> exists|i: int|
            0 <= i < layout.mapped.len() && (#[trigger] layout.mapped[i]).source == directory_in(layout.source, name)
                && layout.mapped[i].store == crate::store_moves::new_place(layout, name),
{
    lemma_mapped_exactly(layout.mapped, directory_in(layout.source, name), 0);
}

proof fn lemma_mapped_exactly(v: Seq<MappedModel>, source: PathParts, i: int)
    requires
        0 <= i <= v.len(),
    ensures
        crate::store_moves::mapped_exactly(v, source, i) is None <==> forall|k: int|
            i <= k < v.len() ==> (#[trigger] v[k]).source != source,
        crate::store_moves::mapped_exactly(v, source, i) matches Some(store) ==> exists|k: int|
            i <= k < v.len() && (#[trigger] v[k]).source == source && v[k].store == store,
    decreases v.len() - i,
{
    if i < v.len() {
        lemma_mapped_exactly(v, source, i + 1);
    }
}

proof fn lemma_copied(facts: Seq<MoveFactModel>, from: int, i: int)
    requires
        0 <= from <= facts.len() <= usize::MAX,
        copies_from(facts, from) is Ok,
        0 <= i < facts.len(),
    ensures
        copies_from(facts, from)->Ok_0.contains(i as usize) <==> i >= from && facts[i].old is Some,
    decreases facts.len() - from,
{
    if from < facts.len() {
        let rest = copies_from(facts, from + 1)->Ok_0;
        let out = copies_from(facts, from)->Ok_0;
        lemma_copied(facts, from + 1, i);
        if facts[from].old is Some {
            assert(out =~= seq![from as usize] + rest);
            if rest.contains(i as usize) {
                let k = choose|k: int| 0 <= k < rest.len() && rest[k] == i as usize;
                assert(out[k + 1] == i as usize);
            }
            if i == from {
                assert(out[0] == i as usize);
            }
            if out.contains(i as usize) {
                let k = choose|k: int| 0 <= k < out.len() && out[k] == i as usize;
                if k > 0 {
                    assert(rest[k - 1] == i as usize);
                }
            }
        }
    }
}

/// Every store that is still at its old place is copied, where none stops the moving.
pub proof fn law_every_old_store_is_copied(facts: Seq<MoveFactModel>, i: int)
    requires
        facts.len() <= usize::MAX,
        copies_from(facts, 0) is Ok,
        0 <= i < facts.len(),
    ensures
        copies_from(facts, 0)->Ok_0.contains(i as usize) <==> facts[i].old is Some,
{
    lemma_copied(facts, 0, i);
}

} // verus!
