//! Moving stores: out of script directories into their own, and into a projection.
use vstd::prelude::*;

use crate::link_apply::value_of;
use crate::order::{ascending, SortedSet};
use crate::paths::{last_name, path_after, path_starts_with, path_views, split_extension, FilePath, PathParts};
use crate::project::{kind_at, link_at, FactModel, Files, SourceKind};
use crate::storage::{
    below, instances_of, instances_root, instances_root_of, layout_views, mapped_views, plain_store, settings_of, settings_path,
    source_directory, source_directory_of, LayoutModel, MappedModel, StoreLayout, SERVICE_SETTINGS_FILE_NAME,
};
use crate::table::{key_views, Table};
use crate::text::{joined, texts};

verus! {

broadcast use vstd::seq_lib::group_seq_properties;

/// A store with the place that it has, or had, and the one that it gets.
pub struct StoreMove {
    pub old: FilePath,
    pub new: FilePath,
}

#[verifier::ext_equal]
pub struct MoveModel {
    pub old: PathParts,
    pub new: PathParts,
}

impl View for StoreMove {
    type V = MoveModel;

    open spec fn view(&self) -> MoveModel {
        MoveModel { old: self.old@, new: self.new@ }
    }
}

pub open spec fn move_views(v: Seq<StoreMove>) -> Seq<MoveModel> {
    Seq::new(v.len(), |i: int| v[i]@)
}

fn push_move(out: &mut Vec<StoreMove>, x: StoreMove)
    ensures
        move_views(final(out)@) == move_views(old(out)@).push(x@),
{
    let ghost before = out@;
    out.push(x);
    assert(move_views(out@) =~= move_views(before).push(x@));
}

/// The store of a directory, where it is that directory's own.
pub open spec fn own_store(list: Seq<LayoutModel>, files: Map<PathParts, FactModel>, source: PathParts) -> Option<PathParts> {
    match settings_of(list, files, source) {
        Some(store) => if source_directory_of(list, files, store) == source {
            Some(store)
        } else {
            None
        },
        None => None,
    }
}

fn find_own_store(list: &Vec<StoreLayout>, files: &Files, source: &FilePath) -> (r: Option<FilePath>)
    ensures
        match r {
            Some(store) => own_store(layout_views(list@), files@, source@) == Some(store@),
            None => own_store(layout_views(list@), files@, source@) is None,
        },
{
    match settings_path(list, files, source) {
        None => None,
        Some(store) => {
            let back = source_directory(list, files, &store);
            if back.is_same(source) {
                Some(store)
            } else {
                None
            }
        },
    }
}

/// Where the stores of the first `n` directories stood and stand now, both seen from a directory; nothing
/// where one is not below it.
pub open spec fn legacy_moves(
    list: Seq<LayoutModel>,
    files: Map<PathParts, FactModel>,
    root: PathParts,
    sources: Seq<PathParts>,
    n: nat,
) -> Option<Map<PathParts, PathParts>>
    decreases n,
{
    if n == 0 {
        Some(Map::empty())
    } else {
        match legacy_moves(list, files, root, sources, (n - 1) as nat) {
            None => None,
            Some(before) => {
                let old = below(sources[n - 1], SERVICE_SETTINGS_FILE_NAME@);
                match own_store(list, files, sources[n - 1]) {
                    None => Some(before),
                    Some(store) => if path_starts_with(old, root) && path_starts_with(store, root) {
                        Some(before.insert(path_after(old, root), path_after(store, root)))
                    } else {
                        None
                    },
                }
            },
        }
    }
}

proof fn lemma_outside_stays(
    list: Seq<LayoutModel>,
    files: Map<PathParts, FactModel>,
    root: PathParts,
    sources: Seq<PathParts>,
    a: nat,
    b: nat,
)
    requires
        a <= b,
        legacy_moves(list, files, root, sources, a) is None,
    ensures
        legacy_moves(list, files, root, sources, b) is None,
    decreases b,
{
    if a < b {
        lemma_outside_stays(list, files, root, sources, a, (b - 1) as nat);
    }
}

/// The list is a map's entries, in the order of its keys.
pub open spec fn lists(v: Seq<MoveModel>, m: Map<PathParts, PathParts>) -> bool {
    &&& ascending::<FilePath>(Seq::new(v.len(), |i: int| v[i].old))
    &&& forall|k: PathParts| #[trigger] m.dom().contains(k) <==> Seq::new(v.len(), |i: int| v[i].old).contains(k)
    &&& forall|i: int| 0 <= i < v.len() ==> value_of(m, (#[trigger] v[i]).old) == Some(v[i].new)
}

/// Lists where the stores of directories stood, beside the scripts, and where they stand now, both
/// seen from a directory that holds them all; nothing where one is not below it.
pub fn legacy_store_paths(list: &Vec<StoreLayout>, files: &Files, root: &FilePath, sources: &Vec<FilePath>) -> (r: Option<
    Vec<StoreMove>,
>)
    ensures
        match r {
            Some(v) => {
                let m = legacy_moves(layout_views(list@), files@, root@, path_views(sources@), sources@.len());
                m is Some && lists(move_views(v@), m->0)
            },
            None => legacy_moves(layout_views(list@), files@, root@, path_views(sources@), sources@.len()) is None,
        },
{
    let ghost layouts = layout_views(list@);
    let ghost all = path_views(sources@);
    assert(all.len() == sources@.len());
    let mut moves: Table<FilePath, FilePath> = Table::new();
    let mut i: usize = 0;
    while i < sources.len()
        invariant
            i <= sources.len(),
            layouts == layout_views(list@),
            all == path_views(sources@),
            legacy_moves(layouts, files@, root@, all, i as nat) == Some(moves@),
        decreases sources.len() - i,
    {
        assert(all[i as int] == sources@[i as int]@);
        let old = sources[i].child(SERVICE_SETTINGS_FILE_NAME);
        match find_own_store(list, files, &sources[i]) {
            None => {},
            Some(store) => {
                match (old.strip_prefix(root), store.strip_prefix(root)) {
                    (Some(a), Some(b)) => {
                        moves.put(a, b);
                    },
                    _ => {
                        proof {
                            lemma_outside_stays(layouts, files@, root@, all, (i + 1) as nat, sources@.len());
                        }
                        return None;
                    },
                }
            },
        }
        i += 1;
    }
    let keys = moves.keys();
    let ghost listed = key_views(keys@);
    let mut ordered: SortedSet<FilePath> = SortedSet::new();
    let mut k: usize = 0;
    while k < keys.len()
        invariant
            k <= keys.len(),
            listed == key_views(keys@),
            ascending::<FilePath>(ordered@),
            forall|x: PathParts| #[trigger] ordered@.contains(x) <==> listed.take(k as int).contains(x),
        decreases keys.len() - k,
    {
        let ghost before = ordered@;
        ordered.insert(keys[k].copy());
        proof {
            crate::naming::lemma_take_contains(listed, k as int);
            assert(listed[k as int] == keys@[k as int]@);
            assert forall|x: PathParts| #[trigger] ordered@.contains(x) <==> listed.take(k + 1).contains(x) by {
                assert(before.contains(x) <==> listed.take(k as int).contains(x));
            }
        }
        k += 1;
    }
    assert(listed.take(k as int) =~= listed);
    let ghost wanted = ordered@;
    let mut out: Vec<StoreMove> = Vec::new();
    let mut n: usize = 0;
    assert(move_views(out@) =~= Seq::empty());
    while n < ordered.len()
        invariant
            n <= wanted.len(),
            wanted == ordered@,
            out@.len() == n,
            forall|x: PathParts| #[trigger] wanted.contains(x) <==> moves@.dom().contains(x),
            forall|j: int|
                0 <= j < n ==> (#[trigger] move_views(out@)[j]).old == wanted[j] && value_of(moves@, wanted[j]) == Some(
                    move_views(out@)[j].new,
                ),
        decreases wanted.len() - n,
    {
        let key = ordered.at(n);
        assert(wanted.contains(wanted[n as int]));
        match moves.get(key) {
            Some(new) => {
                let ghost before = move_views(out@);
                let x = StoreMove { old: key.copy(), new: new.copy() };
                assert(before.len() == out@.len());
                push_move(&mut out, x);
                assert(move_views(out@).len() == out@.len());
                assert forall|j: int| 0 <= j < n + 1 implies (#[trigger] move_views(out@)[j]).old == wanted[j] && value_of(
                    moves@,
                    wanted[j],
                ) == Some(move_views(out@)[j].new) by {
                    if j < n {
                        assert(move_views(out@)[j] == before[j]);
                    }
                }
            },
            None => {},
        }
        n += 1;
    }
    proof {
        let v = move_views(out@);
        assert(Seq::new(v.len(), |i: int| v[i].old) =~= wanted);
    }
    Some(out)
}

/// The copies of the first `n` services' own stores into a projection.
pub open spec fn stage_copies(
    list: Seq<LayoutModel>,
    files: Map<PathParts, FactModel>,
    instances: PathParts,
    services: Seq<PathParts>,
    destination: PathParts,
    n: nat,
) -> Seq<MoveModel>
    decreases n,
{
    if n == 0 {
        Seq::empty()
    } else {
        let before = stage_copies(list, files, instances, services, destination, (n - 1) as nat);
        let service = services[n - 1];
        let name = last_name(service);
        match own_store(list, files, service) {
            Some(store) => if kind_at(files, store) == SourceKind::File && store == plain_store(instances, name) {
                before.push(
                    MoveModel { old: store, new: below(below(destination, name), SERVICE_SETTINGS_FILE_NAME@) },
                )
            } else {
                before
            },
            None => before,
        }
    }
}

/// The copies of the stores of some sources, a project's or a single directory's, into a projection.
pub open spec fn copies_to_stage(
    list: Seq<LayoutModel>,
    files: Map<PathParts, FactModel>,
    source: PathParts,
    services: Seq<PathParts>,
    destination: PathParts,
) -> Seq<MoveModel> {
    match instances_root_of(list, files, source) {
        Some(instances) => stage_copies(list, files, instances, services, destination, services.len()),
        None => match settings_of(list, files, source) {
            Some(store) if kind_at(files, store) == SourceKind::File => seq![
                MoveModel { old: store, new: below(destination, SERVICE_SETTINGS_FILE_NAME@) },
            ],
            _ => Seq::empty(),
        },
    }
}

/// Lists the copies of the stores of some sources into a projection. The directories of the services
/// are given.
pub fn copy_stores_to_stage(
    list: &Vec<StoreLayout>,
    files: &Files,
    source: &FilePath,
    services: &Vec<FilePath>,
    destination: &FilePath,
) -> (r: Vec<StoreMove>)
    ensures
        move_views(r@) == copies_to_stage(layout_views(list@), files@, source@, path_views(services@), destination@),
{
    let ghost layouts = layout_views(list@);
    let ghost all = path_views(services@);
    assert(all.len() == services@.len());
    let mut out: Vec<StoreMove> = Vec::new();
    assert(move_views(out@) =~= Seq::empty());
    let instances = match instances_root(list, files, source) {
        Some(instances) => instances,
        None => {
            match settings_path(list, files, source) {
                Some(store) => {
                    if files.kind(&store) == SourceKind::File {
                        let x = StoreMove { old: store, new: destination.child(SERVICE_SETTINGS_FILE_NAME) };
                        push_move(&mut out, x);
                        assert(move_views(out@) =~= seq![x@]);
                    }
                },
                None => {},
            }
            return out;
        },
    };
    let mut i: usize = 0;
    while i < services.len()
        invariant
            i <= services.len(),
            layouts == layout_views(list@),
            all == path_views(services@),
            move_views(out@) == stage_copies(layouts, files@, instances@, all, destination@, i as nat),
        decreases services.len() - i,
    {
        assert(all[i as int] == services@[i as int]@);
        match find_own_store(list, files, &services[i]) {
            Some(store) => {
                let name = services[i].file_name();
                let (stem, _) = split_extension(&name);
                let expected = instances.child(&joined(&stem, ".renium"));
                if files.kind(&store) == SourceKind::File && store.is_same(&expected) {
                    let new = destination.child(&name).child(SERVICE_SETTINGS_FILE_NAME);
                    push_move(&mut out, StoreMove { old: store, new });
                }
            },
            None => {},
        }
        i += 1;
    }
    out
}

/// Why stores are not moved.
#[derive(PartialEq, Eq, Structural, Clone, Copy, Debug)]
pub enum MigrationError {
    /// A store that is a link to another file.
    Linked(usize),
    /// A store whose new place holds something else.
    Conflict(usize),
}

/// The store of the first mapping at or after the `i`th from a directory.
pub open spec fn mapped_exactly(v: Seq<MappedModel>, source: PathParts, i: int) -> Option<PathParts>
    decreases v.len() - i,
{
    if i < 0 || i >= v.len() {
        None
    } else if v[i].source == source {
        Some(v[i].store)
    } else {
        mapped_exactly(v, source, i + 1)
    }
}

/// The new place of the store in a directory of a project's sources.
pub open spec fn new_place(layout: LayoutModel, name: Seq<char>) -> PathParts {
    match mapped_exactly(layout.mapped, below(layout.source, name), 0) {
        Some(store) => store,
        None => plain_store(instances_of(layout.project), name),
    }
}

/// The moves of the stores in the directories from the `i`th on; a store that is a link stops them.
pub open spec fn directory_moves(layout: LayoutModel, files: Map<PathParts, FactModel>, names: Seq<Seq<char>>, i: int) -> Result<
    Seq<MoveModel>,
    MigrationError,
>
    decreases names.len() - i,
{
    if i < 0 || i >= names.len() {
        Ok(Seq::empty())
    } else {
        let old = below(below(layout.source, names[i]), SERVICE_SETTINGS_FILE_NAME@);
        let rest = directory_moves(layout, files, names, i + 1);
        if kind_at(files, old) != SourceKind::File {
            rest
        } else if link_at(files, old) {
            Err(MigrationError::Linked(i as usize))
        } else {
            match rest {
                Ok(rest) => Ok(seq![MoveModel { old, new: new_place(layout, names[i]) }] + rest),
                Err(e) => Err(e),
            }
        }
    }
}

pub open spec fn moves_from(v: Seq<MoveModel>, old: PathParts) -> bool {
    exists|i: int| 0 <= i < v.len() && (#[trigger] v[i]).old == old
}

/// The moves, with those of the first `n` mapped sources that are not among them.
pub open spec fn with_mapped_moves(
    moves: Seq<MoveModel>,
    files: Map<PathParts, FactModel>,
    mapped: Seq<MappedModel>,
    n: nat,
) -> Seq<MoveModel>
    decreases n,
{
    if n == 0 {
        moves
    } else {
        let before = with_mapped_moves(moves, files, mapped, (n - 1) as nat);
        let old = below(mapped[n - 1].source, SERVICE_SETTINGS_FILE_NAME@);
        if kind_at(files, old) == SourceKind::File && !moves_from(before, old) {
            before.push(MoveModel { old, new: mapped[n - 1].store })
        } else {
            before
        }
    }
}

/// The moves of all stores that stand beside a project's scripts.
pub open spec fn planned_moves(layout: LayoutModel, files: Map<PathParts, FactModel>, names: Seq<Seq<char>>) -> Result<
    Seq<MoveModel>,
    MigrationError,
> {
    match directory_moves(layout, files, names, 0) {
        Ok(moves) => Ok(with_mapped_moves(moves, files, layout.mapped, layout.mapped.len())),
        Err(e) => Err(e),
    }
}

fn place_for(layout: &StoreLayout, name: &str) -> (r: FilePath)
    ensures
        r@ == new_place(layout@, name@),
{
    let directory = layout.source.child(name);
    let ghost all = mapped_views(layout.mapped@);
    let mut i: usize = 0;
    while i < layout.mapped.len()
        invariant
            i <= layout.mapped.len(),
            all == mapped_views(layout.mapped@),
            directory@ == below(layout@.source, name@),
            mapped_exactly(all, directory@, 0) == mapped_exactly(all, directory@, i as int),
        decreases layout.mapped.len() - i,
    {
        assert(all[i as int] == layout.mapped@[i as int]@);
        if layout.mapped[i].source.is_same(&directory) {
            return layout.mapped[i].store.copy();
        }
        i += 1;
    }
    let (stem, _) = split_extension(name);
    layout.project.child("instances").child(&joined(&stem, ".renium"))
}

fn has_move_from(moves: &Vec<StoreMove>, old: &FilePath) -> (r: bool)
    ensures
        r == moves_from(move_views(moves@), old@),
{
    let ghost all = move_views(moves@);
    let mut i: usize = 0;
    while i < moves.len()
        invariant
            i <= moves.len(),
            all == move_views(moves@),
            forall|j: int| 0 <= j < i ==> (#[trigger] all[j]).old != old@,
        decreases moves.len() - i,
    {
        assert(all[i as int] == moves@[i as int]@);
        if moves[i].old.is_same(old) {
            return true;
        }
        i += 1;
    }
    false
}

/// Plans the moves of all stores that stand beside a project's scripts. The names of the directories
/// in the source root are given.
pub fn plan_migration(layout: &StoreLayout, files: &Files, names: &Vec<String>) -> (r: Result<Vec<StoreMove>, MigrationError>)
    ensures
        match r {
            Ok(v) => planned_moves(layout@, files@, texts(names@)) == Ok::<Seq<MoveModel>, MigrationError>(move_views(v@)),
            Err(e) => planned_moves(layout@, files@, texts(names@)) == Err::<Seq<MoveModel>, MigrationError>(e),
        },
{
    let ghost all = texts(names@);
    let ghost whole = directory_moves(layout@, files@, all, 0);
    let mut out: Vec<StoreMove> = Vec::new();
    assert(move_views(out@) =~= Seq::empty());
    assert(whole is Ok ==> move_views(out@) + whole->Ok_0 =~= whole->Ok_0);
    let mut i: usize = 0;
    while i < names.len()
        invariant
            i <= names.len(),
            all == texts(names@),
            whole == directory_moves(layout@, files@, all, 0),
            whole == match directory_moves(layout@, files@, all, i as int) {
                Ok(rest) => Ok(move_views(out@) + rest),
                Err(e) => Err(e),
            },
        decreases names.len() - i,
    {
        assert(all[i as int] == names@[i as int]@);
        let ghost rest = directory_moves(layout@, files@, all, i + 1);
        let old = layout.source.child(&names[i]).child(SERVICE_SETTINGS_FILE_NAME);
        if files.kind(&old) == SourceKind::File {
            if files.is_link(&old) {
                return Err(MigrationError::Linked(i));
            }
            let ghost before = move_views(out@);
            let x = StoreMove { old, new: place_for(layout, &names[i]) };
            push_move(&mut out, x);
            proof {
                if rest is Ok {
                    assert(before + (seq![x@] + rest->Ok_0) =~= move_views(out@) + rest->Ok_0);
                }
            }
        }
        i += 1;
    }
    assert(move_views(out@) + Seq::<MoveModel>::empty() =~= move_views(out@));
    let ghost moves = move_views(out@);
    let ghost mapped = mapped_views(layout.mapped@);
    let mut k: usize = 0;
    while k < layout.mapped.len()
        invariant
            k <= layout.mapped.len(),
            mapped == mapped_views(layout.mapped@),
            move_views(out@) == with_mapped_moves(moves, files@, mapped, k as nat),
        decreases layout.mapped.len() - k,
    {
        assert(mapped[k as int] == layout.mapped@[k as int]@);
        let old = layout.mapped[k].source.child(SERVICE_SETTINGS_FILE_NAME);
        if files.kind(&old) == SourceKind::File && !has_move_from(&out, &old) {
            push_move(&mut out, StoreMove { old, new: layout.mapped[k].store.copy() });
        }
        k += 1;
    }
    assert(mapped.len() == layout.mapped@.len());
    Ok(out)
}

/// The paths that are locked while stores are moved, each once and in order.
pub fn migration_locks(moves: &Vec<StoreMove>) -> (r: Vec<FilePath>)
    ensures
        ascending::<FilePath>(key_views(r@)),
        forall|path: PathParts| #[trigger]
            key_views(r@).contains(path) <==> exists|i: int|
                0 <= i < moves@.len() && ((#[trigger] moves@[i])@.old == path || moves@[i]@.new == path),
{
    let mut locks: SortedSet<FilePath> = SortedSet::new();
    let mut i: usize = 0;
    while i < moves.len()
        invariant
            i <= moves.len(),
            ascending::<FilePath>(locks@),
            forall|path: PathParts| #[trigger]
                locks@.contains(path) <==> exists|j: int|
                    0 <= j < i && ((#[trigger] moves@[j])@.old == path || moves@[j]@.new == path),
        decreases moves.len() - i,
    {
        let ghost before = locks@;
        locks.insert(moves[i].old.copy());
        locks.insert(moves[i].new.copy());
        assert forall|path: PathParts| #[trigger]
            locks@.contains(path) <==> exists|j: int|
                0 <= j < i + 1 && ((#[trigger] moves@[j])@.old == path || moves@[j]@.new == path) by {
            assert(before.contains(path) <==> exists|j: int|
                0 <= j < i && ((#[trigger] moves@[j])@.old == path || moves@[j]@.new == path));
            let now = moves@[i as int];
            if exists|j: int| 0 <= j < i + 1 && ((#[trigger] moves@[j])@.old == path || moves@[j]@.new == path) {
                let j = choose|j: int|
                    0 <= j < i + 1 && ((#[trigger] moves@[j])@.old == path || moves@[j]@.new == path);
                if j < i {
                    assert(before.contains(path));
                }
            }
        }
        i += 1;
    }
    locks.into_items()
}

/// What is found at the two places of a store.
pub struct MoveFact {
    pub linked: bool,
    pub old: Option<Vec<u8>>,
    pub new: Option<Vec<u8>>,
}

#[verifier::ext_equal]
pub struct MoveFactModel {
    pub linked: bool,
    pub old: Option<Seq<u8>>,
    pub new: Option<Seq<u8>>,
}

pub open spec fn opt_bytes(v: Option<Vec<u8>>) -> Option<Seq<u8>> {
    match v {
        Some(v) => Some(v@),
        None => None,
    }
}

impl View for MoveFact {
    type V = MoveFactModel;

    open spec fn view(&self) -> MoveFactModel {
        MoveFactModel { linked: self.linked, old: opt_bytes(self.old), new: opt_bytes(self.new) }
    }
}

pub open spec fn fact_views(v: Seq<MoveFact>) -> Seq<MoveFactModel> {
    Seq::new(v.len(), |i: int| v[i]@)
}

/// The stores from the `i`th on that are copied; one that differs from what stands at its new place
/// stops all of them.
pub open spec fn copies_from(facts: Seq<MoveFactModel>, i: int) -> Result<Seq<usize>, MigrationError>
    decreases facts.len() - i,
{
    if i < 0 || i >= facts.len() {
        Ok(Seq::empty())
    } else {
        let fact = facts[i];
        let rest = copies_from(facts, i + 1);
        if fact.linked {
            Err(MigrationError::Linked(i as usize))
        } else if fact.old is None {
            rest
        } else if fact.new is Some && fact.new != fact.old {
            Err(MigrationError::Conflict(i as usize))
        } else {
            match rest {
                Ok(rest) => Ok(seq![i as usize] + rest),
                Err(e) => Err(e),
            }
        }
    }
}

fn same_bytes(a: &Vec<u8>, b: &Vec<u8>) -> (r: bool)
    ensures
        r == (a@ == b@),
{
    if a.len() != b.len() {
        return false;
    }
    let mut i: usize = 0;
    while i < a.len()
        invariant
            i <= a.len(),
            a@.len() == b@.len(),
            forall|j: int| 0 <= j < i ==> a@[j] == #[trigger] b@[j],
        decreases a.len() - i,
    {
        if a[i] != b[i] {
            assert(a@[i as int] != b@[i as int]);
            return false;
        }
        i += 1;
    }
    assert(a@ =~= b@);
    true
}

/// Decides which stores are copied, once everything that was found is known.
pub fn check_migration(facts: &Vec<MoveFact>) -> (r: Result<Vec<usize>, MigrationError>)
    ensures
        match r {
            Ok(v) => copies_from(fact_views(facts@), 0) == Ok::<Seq<usize>, MigrationError>(v@),
            Err(e) => copies_from(fact_views(facts@), 0) == Err::<Seq<usize>, MigrationError>(e),
        },
{
    let ghost all = fact_views(facts@);
    let ghost whole = copies_from(all, 0);
    let mut out: Vec<usize> = Vec::new();
    assert(whole is Ok ==> out@ + whole->Ok_0 =~= whole->Ok_0);
    let mut i: usize = 0;
    while i < facts.len()
        invariant
            i <= facts.len(),
            all == fact_views(facts@),
            whole == copies_from(all, 0),
            whole == match copies_from(all, i as int) {
                Ok(rest) => Ok(out@ + rest),
                Err(e) => Err(e),
            },
        decreases facts.len() - i,
    {
        let fact = &facts[i];
        assert(all[i as int] == fact@);
        let ghost rest = copies_from(all, i + 1);
        if fact.linked {
            return Err(MigrationError::Linked(i));
        }
        match &fact.old {
            None => {},
            Some(old) => {
                match &fact.new {
                    Some(new) => {
                        if !same_bytes(new, old) {
                            return Err(MigrationError::Conflict(i));
                        }
                    },
                    None => {},
                }
                let ghost before = out@;
                out.push(i);
                proof {
                    if rest is Ok {
                        assert(before + (seq![i] + rest->Ok_0) =~= out@ + rest->Ok_0);
                    }
                }
            },
        }
        i += 1;
    }
    assert(out@ + Seq::<usize>::empty() =~= out@);
    Ok(out)
}

/// Whether a store that was copied may be removed from its old place: both places still hold what was
/// copied.
pub fn may_remove_old(copied: &Vec<u8>, old_now: &Vec<u8>, new_now: &Vec<u8>) -> (r: bool)
    ensures
        r == (old_now@ == copied@ && new_now@ == copied@),
{
    same_bytes(old_now, copied) && same_bytes(new_now, copied)
}

/// A store that differs from what stands at its new place, or is a link, keeps every store where it is.
pub proof fn law_conflict_stops_all(facts: Seq<MoveFactModel>, from: int, i: int)
    requires
        0 <= from <= i < facts.len(),
        facts[i].linked || (facts[i].old is Some && facts[i].new is Some && facts[i].new != facts[i].old),
    ensures
        copies_from(facts, from) is Err,
    decreases i - from,
{
    if from < i {
        law_conflict_stops_all(facts, from + 1, i);
    }
}

/// What is copied never replaces something else.
pub proof fn law_copies_replace_nothing(facts: Seq<MoveFactModel>, from: int, k: int)
    requires
        0 <= from <= facts.len() <= usize::MAX,
        copies_from(facts, from) is Ok,
        0 <= k < copies_from(facts, from)->Ok_0.len(),
    ensures
        ({
            let i = copies_from(facts, from)->Ok_0[k] as int;
            from <= i < facts.len() && !facts[i].linked && facts[i].old is Some && (facts[i].new is None || facts[i].new
                == facts[i].old)
        }),
    decreases facts.len() - from,
{
    if from < facts.len() {
        let rest = copies_from(facts, from + 1);
        let fact = facts[from];
        if fact.old is None {
            law_copies_replace_nothing(facts, from + 1, k);
        } else if k > 0 {
            law_copies_replace_nothing(facts, from + 1, k - 1);
        }
    }
}

} // verus!
