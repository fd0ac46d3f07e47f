//! Putting the instances of one document into another.
use vstd::prelude::*;

use crate::digest::{projection_settings_id, settings_id_for};
use crate::document::{
    copy_instances, document_target, find_document_target_optional_with_ordinals, instance_path_parts, lemma_models_push,
    lemma_models_update, named_children, path_names, path_ordinals, select_named_child, Instance, InstanceModel, SettingsDocument,
    TargetError,
};
use crate::json::{
    entries, entry_before, extend_members, find_key, is_entry, lemma_entry, lemma_entry_before_step, lemma_entry_of, put,
    JsonModel, Member,
};
use crate::link_apply::value_of;
use crate::references::{remap_fails, remapped, MountedReferenceRemapper, OrdinalLists, ReferenceError, RemapModel};
use crate::stage_document::{instance_staged, update_stage_instance, StageError, StageFields};
use crate::table::Table;
use crate::text::{clone_numbers, clone_texts, decimal, join_texts, joined, joined_by, ones, same, texts, to_decimal};
use crate::wally_sync::PathKey;

verus! {

broadcast use vstd::seq_lib::group_seq_properties;

/// Why a document can not be put into another.
#[derive(PartialEq, Eq, Structural, Clone, Copy, Debug)]
pub enum MountError {
    Stage(StageError),
    Target(TargetError),
    /// The target names nothing, or no place below a service.
    NoTarget,
    /// More than one instance carries the name of the one at this index.
    DuplicateTarget { index: usize },
    Reference(ReferenceError),
}

/// The indices of the instances without a parent, among the first `n`.
pub open spec fn roots_before(doc: Seq<InstanceModel>, n: nat) -> Seq<int>
    decreases n,
{
    if n == 0 {
        Seq::empty()
    } else if doc[n - 1].parent is None {
        roots_before(doc, (n - 1) as nat).push(n - 1)
    } else {
        roots_before(doc, (n - 1) as nat)
    }
}

/// The first root and how many there are.
pub fn document_roots(doc: &SettingsDocument) -> (r: (Option<usize>, usize))
    ensures
        r.1 == roots_before(doc@, doc@.len()).len(),
        match r.0 {
            Some(i) => r.1 > 0 && i == roots_before(doc@, doc@.len())[0] && i < doc@.len(),
            None => r.1 == 0,
        },
{
    let mut first: Option<usize> = None;
    let mut count: usize = 0;
    let mut i: usize = 0;
    while i < doc.instances.len()
        invariant
            i <= doc.instances.len(),
            count == roots_before(doc@, i as nat).len(),
            count <= i,
            match first {
                Some(at) => count > 0 && at == roots_before(doc@, i as nat)[0] && at < i,
                None => count == 0,
            },
        decreases doc.instances.len() - i,
    {
        assert(doc@[i as int] == doc.instances@[i as int]@);
        if doc.instances[i].parent_index.is_none() {
            if first.is_none() {
                first = Some(i);
            }
            count += 1;
        }
        i += 1;
    }
    (first, count)
}

/// The state of putting one document into another: the document so far, where each instance went and what
/// it is called, and the settings ids in use.
#[verifier::ext_equal]
pub struct MountModel {
    pub doc: Seq<InstanceModel>,
    pub indices: Map<usize, usize>,
    pub ids: Map<Seq<char>, Seq<char>>,
    pub used: Set<Seq<char>>,
}

/// All settings ids of a document.
pub open spec fn id_set(doc: Seq<InstanceModel>) -> Set<Seq<char>> {
    Set::new(|id: Seq<char>| exists|i: int| 0 <= i < doc.len() && (#[trigger] doc[i]).id == id)
}

/// The place of an instance below another: the one child with its name, or a new one.
pub open spec fn child_place(doc: Seq<InstanceModel>, parent: int, x: InstanceModel) -> Option<(Seq<InstanceModel>, int)> {
    let matches = named_children(doc, Some(parent as usize), x.name);
    if matches.len() == 1 {
        Some((doc, matches[0]))
    } else if matches.len() == 0 {
        Some(
            (
                doc.push(
                    InstanceModel {
                        id: Seq::empty(),
                        name: x.name,
                        class_name: x.class_name,
                        parent: Some(parent as usize),
                        properties: Map::empty(),
                        attributes: Map::empty(),
                    },
                ),
                doc.len() as int,
            ),
        )
    } else {
        None
    }
}

/// A target and an index in it, in words.
pub open spec fn numbered(target: Seq<char>, i: int) -> Seq<char> {
    target + ":"@ + decimal(i as nat)
}

fn numbered_text(target: &str, i: usize) -> (r: String)
    ensures
        r@ == numbered(target@, i as int),
{
    let a = joined(target, ":");
    let n = to_decimal(i as u128);
    joined(&a, &n)
}

/// One instance of `mounted` put into the document. The root goes to the target where it is the only
/// one; the others go below where their parents went.
pub open spec fn merge_one(
    m: MountModel,
    mounted: Seq<InstanceModel>,
    single_root: bool,
    target_index: int,
    target: Seq<char>,
    i: int,
) -> Result<MountModel, MountError> {
    let x = mounted[i];
    let place = if x.parent is None && single_root {
        Some((m.doc, target_index))
    } else {
        let parent = if x.parent is Some && m.indices.dom().contains(x.parent->0) {
            m.indices[x.parent->0] as int
        } else {
            target_index
        };
        child_place(m.doc, parent, x)
    };
    match place {
        None => Err(MountError::DuplicateTarget { index: i as usize }),
        Some((doc, at)) => {
            let current = doc[at].id;
            let id = if x.id != current && m.used.contains(x.id) {
                settings_id_for("settings-source"@, numbered(target, i))
            } else {
                x.id
            };
            Ok(
                MountModel {
                    doc: doc.update(
                        at,
                        InstanceModel {
                            id,
                            name: doc[at].name,
                            class_name: x.class_name,
                            parent: doc[at].parent,
                            properties: doc[at].properties.union_prefer_right(x.properties),
                            attributes: doc[at].attributes.union_prefer_right(x.attributes),
                        },
                    ),
                    indices: m.indices.insert(i as usize, at as usize),
                    ids: m.ids.insert(x.id, id),
                    used: m.used.remove(current).insert(id),
                },
            )
        },
    }
}

/// The first `n` instances of `mounted` put into the document.
pub open spec fn merge_all(
    m: MountModel,
    mounted: Seq<InstanceModel>,
    single_root: bool,
    target_index: int,
    target: Seq<char>,
    n: nat,
) -> Result<MountModel, MountError>
    decreases n,
{
    if n == 0 {
        Ok(m)
    } else {
        match merge_all(m, mounted, single_root, target_index, target, (n - 1) as nat) {
            Ok(before) => merge_one(before, mounted, single_root, target_index, target, n - 1),
            Err(e) => Err(e),
        }
    }
}

proof fn lemma_merge_error_stays(
    m: MountModel,
    mounted: Seq<InstanceModel>,
    single_root: bool,
    target_index: int,
    target: Seq<char>,
    k: nat,
    n: nat,
)
    requires
        k <= n,
        merge_all(m, mounted, single_root, target_index, target, k) is Err,
    ensures
        merge_all(m, mounted, single_root, target_index, target, n) == merge_all(
            m,
            mounted,
            single_root,
            target_index,
            target,
            k,
        ),
    decreases n,
{
    if k < n {
        lemma_merge_error_stays(m, mounted, single_root, target_index, target, k, (n - 1) as nat);
    }
}

/// The exec state of putting one document into another.
pub struct MountWork {
    pub doc: SettingsDocument,
    pub indices: Table<usize, usize>,
    pub ids: Table<String, String>,
    pub used: Table<String, bool>,
}

impl View for MountWork {
    type V = MountModel;

    open spec fn view(&self) -> MountModel {
        MountModel { doc: self.doc@, indices: self.indices@, ids: self.ids@, used: self.used@.dom() }
    }
}

impl MountWork {
    /// Every new place is in the document.
    pub open spec fn wf(&self) -> bool {
        forall|i: usize| #[trigger] self@.indices.dom().contains(i) ==> self@.indices[i] < self@.doc.len()
    }
}

/// Work on a copy of a document.
fn start_work(doc: &SettingsDocument) -> (r: MountWork)
    ensures
        r@ == (MountModel { doc: doc@, indices: Map::empty(), ids: Map::empty(), used: id_set(doc@) }),
        r.wf(),
{
    let mut used: Table<String, bool> = Table::new();
    let mut i: usize = 0;
    while i < doc.instances.len()
        invariant
            i <= doc.instances.len(),
            forall|id: Seq<char>| #[trigger]
                used@.dom().contains(id) <==> (exists|j: int| 0 <= j < i && (#[trigger] doc@[j]).id == id),
        decreases doc.instances.len() - i,
    {
        assert(doc@[i as int] == doc.instances@[i as int]@);
        let ghost before = used@;
        used.put(doc.instances[i].settings_id.clone(), true);
        assert forall|id: Seq<char>| #[trigger]
            used@.dom().contains(id) <==> (exists|j: int| 0 <= j < i + 1 && (#[trigger] doc@[j]).id == id) by {
            assert(used@.dom().contains(id) <==> before.dom().contains(id) || id == doc@[i as int].id);
            if before.dom().contains(id) {
                let j = choose|j: int| 0 <= j < i && (#[trigger] doc@[j]).id == id;
                assert(0 <= j < i + 1 && doc@[j].id == id);
            }
            if id == doc@[i as int].id {
                assert(0 <= i < i + 1 && doc@[i as int].id == id);
            }
        }
        i += 1;
    }
    let work = MountWork {
        doc: SettingsDocument { instances: copy_instances(&doc.instances) },
        indices: Table::new(),
        ids: Table::new(),
        used,
    };
    assert(work@.used =~= id_set(doc@));
    work
}

/// Puts one instance into the document.
fn merge_step(work: &mut MountWork, mounted: &SettingsDocument, single_root: bool, target_index: usize, target: &str, i: usize) -> (r:
    Result<(), MountError>)
    requires
        old(work).wf(),
        i < mounted@.len(),
        target_index < old(work)@.doc.len(),
        old(work)@.doc.len() < usize::MAX,
    ensures
        match r {
            Ok(()) => {
                &&& merge_one(old(work)@, mounted@, single_root, target_index as int, target@, i as int) == Ok::<
                    MountModel,
                    MountError,
                >(final(work)@)
                &&& final(work).wf()
                &&& old(work)@.doc.len() <= final(work)@.doc.len() <= old(work)@.doc.len() + 1
            },
            Err(e) => merge_one(old(work)@, mounted@, single_root, target_index as int, target@, i as int) == Err::<
                MountModel,
                MountError,
            >(e),
        },
{
    let ghost start = work@;
    let x = &mounted.instances[i];
    assert(mounted@[i as int] == x@);
    let at: usize = if x.parent_index.is_none() && single_root {
        target_index
    } else {
        let parent: usize = match x.parent_index {
            Some(p) => match work.indices.get(&p) {
                Some(at) => *at,
                None => target_index,
            },
            None => target_index,
        };
        let (found, count) = select_named_child(&work.doc, Some(parent), &x.name, 1);
        if count > 1 {
            return Err(MountError::DuplicateTarget { index: i });
        }
        match found {
            Some(at) => at,
            None => {
                let at = work.doc.instances.len();
                let fresh = Instance::new(String::new(), x.name.clone(), x.class_name.clone(), Some(parent));
                proof {
                    lemma_models_push(work.doc.instances@, fresh);
                }
                work.doc.instances.push(fresh);
                at
            },
        }
    };
    let ghost placed = work.doc@;
    let mut y = work.doc.instances[at].copy();
    assert(y@ == placed[at as int]);
    let conflict = !same(&x.settings_id, &y.settings_id) && work.used.contains(&x.settings_id);
    let id = if conflict {
        let label = numbered_text(target, i);
        projection_settings_id("settings-source", &label)
    } else {
        x.settings_id.clone()
    };
    let ghost used = work.used@;
    work.used.take(&y.settings_id);
    work.used.put(id.clone(), true);
    assert(work.used@.dom() =~= used.dom().remove(placed[at as int].id).insert(id@));
    y.settings_id = id.clone();
    y.class_name = x.class_name.clone();
    extend_members(&mut y.properties, &x.properties);
    extend_members(&mut y.attributes, &x.attributes);
    proof {
        lemma_models_update(work.doc.instances@, at as int, y);
    }
    work.doc.instances.set(at, y);
    work.indices.put(i, at);
    work.ids.put(x.settings_id.clone(), id);
    Ok(())
}

/// All references in a record renamed.
pub open spec fn record_remapped(r: RemapModel, m: Map<Seq<char>, JsonModel>) -> Map<Seq<char>, JsonModel> {
    Map::new(|k: Seq<char>| m.dom().contains(k), |k: Seq<char>| remapped(r, m[k]))
}

/// Some reference in a record can not be renamed.
pub open spec fn record_fails(r: RemapModel, m: Map<Seq<char>, JsonModel>, e: ReferenceError) -> bool {
    exists|k: Seq<char>| #[trigger] m.dom().contains(k) && remap_fails(r, m[k], e)
}

/// Renames all references in a record.
pub fn remap_record(remapper: &MountedReferenceRemapper, m: &Vec<Member>) -> (r: Result<Vec<Member>, ReferenceError>)
    requires
        remapper.wf(),
    ensures
        match r {
            Ok(out) => entries(out@) == record_remapped(remapper@, entries(m@)) && (forall|e: ReferenceError|
                !#[trigger] record_fails(remapper@, entries(m@), e)),
            Err(e) => record_fails(remapper@, entries(m@), e),
        },
{
    let ghost o = entries(m@);
    let mut out: Vec<Member> = Vec::new();
    let mut i: usize = 0;
    while i < m.len()
        invariant
            remapper.wf(),
            i <= m.len(),
            o == entries(m@),
            forall|k: Seq<char>| #[trigger] entries(out@).dom().contains(k) <==> entry_before(m@, k, i as int),
            forall|k: Seq<char>| #[trigger]
                entries(out@).dom().contains(k) ==> entries(out@)[k] == remapped(remapper@, o[k]) && (forall|
                    e: ReferenceError,
                | !#[trigger] remap_fails(remapper@, o[k], e)),
        decreases m.len() - i,
    {
        let ghost before = entries(out@);
        let ghost key = m@[i as int].key@;
        let found = find_key(m, &m[i].key);
        let counts = match found {
            Some(at) => at == i,
            None => false,
        };
        proof {
            lemma_entry_before_step(m@, i as int);
            if !counts && is_entry(m@, key, i as int) {
                lemma_entry(m@, key, i as int);
                let at = found->0;
                assert(m@[at as int].key@ == key && m@[i as int].key@ == key);
            }
            assert(counts == is_entry(m@, key, i as int));
        }
        if counts {
            proof {
                lemma_entry(m@, key, i as int);
            }
            match remapper.remap_value(&m[i].value) {
                Ok(v) => {
                    put(&mut out, m[i].key.clone(), v);
                    assert(entries(out@) == before.insert(key, remapped(remapper@, o[key])));
                },
                Err(e) => {
                    assert(o.dom().contains(key) && remap_fails(remapper@, o[key], e));
                    return Err(e);
                },
            }
        }
        i += 1;
    }
    assert forall|k: Seq<char>| entry_before(m@, k, m@.len() as int) == o.dom().contains(k) by {
        if o.dom().contains(k) {
            let j = lemma_entry_of(m@, k);
            assert(0 <= j < m@.len() && is_entry(m@, k, j));
        }
        if entry_before(m@, k, m@.len() as int) {
            let j = choose|j: int| 0 <= j < m@.len() && #[trigger] is_entry(m@, k, j);
            lemma_entry(m@, k, j);
        }
    }
    assert(entries(out@) =~= record_remapped(remapper@, o));
    assert forall|e: ReferenceError| !#[trigger] record_fails(remapper@, o, e) by {
        if record_fails(remapper@, o, e) {
            let k = choose|k: Seq<char>| #[trigger] o.dom().contains(k) && remap_fails(remapper@, o[k], e);
            assert(entries(out@).dom().contains(k));
        }
    }
    Ok(out)
}

/// The ordinals of the first `n` instances whose path is this.
pub open spec fn ordinals_at_path(doc: Seq<InstanceModel>, path: Seq<Seq<char>>, n: nat) -> Seq<Seq<usize>>
    decreases n,
{
    if n == 0 {
        Seq::empty()
    } else if path_names(doc, n - 1) == path {
        ordinals_at_path(doc, path, (n - 1) as nat).push(path_ordinals(doc, n - 1))
    } else {
        ordinals_at_path(doc, path, (n - 1) as nat)
    }
}

/// The paths inside a document, with the ordinals of the instances at each.
pub open spec fn inside_paths(doc: Seq<InstanceModel>, n: nat) -> Map<Seq<Seq<char>>, Seq<Seq<usize>>> {
    Map::new(
        |path: Seq<Seq<char>>| ordinals_at_path(doc, path, n).len() > 0,
        |path: Seq<Seq<char>>| ordinals_at_path(doc, path, n),
    )
}

/// Lists the paths inside a document.
pub fn document_paths(doc: &SettingsDocument) -> (r: Table<PathKey, OrdinalLists>)
    ensures
        r@ == inside_paths(doc@, doc@.len()),
{
    let mut out: Table<PathKey, OrdinalLists> = Table::new();
    let mut i: usize = 0;
    assert(out@ =~= inside_paths(doc@, 0));
    while i < doc.instances.len()
        invariant
            i <= doc.instances.len(),
            out@ == inside_paths(doc@, i as nat),
        decreases doc.instances.len() - i,
    {
        let ghost before = out@;
        let (names, ordinals) = instance_path_parts(doc, i);
        let key = PathKey { segments: names };
        let mut lists = match out.take(&key) {
            Some(lists) => lists,
            None => {
                let none = OrdinalLists { lists: Vec::new() };
                assert(none@ =~= Seq::<Seq<usize>>::empty());
                none
            },
        };
        let ghost had = lists@;
        assert(had =~= ordinals_at_path(doc@, key@, i as nat)) by {
            if !before.dom().contains(key@) {
                assert(ordinals_at_path(doc@, key@, i as nat).len() == 0);
            }
        }
        lists.lists.push(ordinals);
        assert(lists@ =~= had.push(ordinals@));
        let ghost path = key@;
        out.put(key, lists);
        assert(out@ =~= inside_paths(doc@, (i + 1) as nat));
        i += 1;
    }
    out
}

/// The ordinals of a target, one for each segment where none are given.
pub open spec fn full_ordinals(target: Seq<Seq<char>>, ordinals: Seq<usize>) -> Seq<usize> {
    if ordinals.len() == 0 {
        Seq::new(target.len(), |i: int| 1usize)
    } else {
        ordinals
    }
}

/// How the instances of a document that was put below a target are renamed.
pub open spec fn mounted_remap(
    mounted: Seq<InstanceModel>,
    indices: Map<usize, usize>,
    ids: Map<Seq<char>, Seq<char>>,
    target: Seq<Seq<char>>,
    ordinals: Seq<usize>,
    single_root: bool,
) -> RemapModel {
    RemapModel {
        ids,
        indices,
        target,
        target_ordinals: full_ordinals(target, ordinals),
        internal_paths: inside_paths(mounted, mounted.len()),
        path_root_components: if single_root {
            1
        } else {
            0
        },
    }
}

/// The references of one instance renamed.
pub open spec fn instance_remapped(r: RemapModel, x: InstanceModel) -> InstanceModel {
    InstanceModel {
        properties: record_remapped(r, x.properties),
        attributes: record_remapped(r, x.attributes),
        ..x
    }
}

/// The references of the instances that the first `n` of `mounted` went to, renamed.
pub open spec fn references_renamed(
    r: RemapModel,
    doc: Seq<InstanceModel>,
    n: nat,
) -> Seq<InstanceModel>
    decreases n,
{
    if n == 0 {
        doc
    } else {
        let before = references_renamed(r, doc, (n - 1) as nat);
        if r.indices.dom().contains((n - 1) as usize) {
            let at = r.indices[(n - 1) as usize] as int;
            before.update(at, instance_remapped(r, before[at]))
        } else {
            before
        }
    }
}

/// Renaming the references of the instances up to the `n`th fails at the `n`th.
pub open spec fn references_fail(r: RemapModel, doc: Seq<InstanceModel>, n: nat, e: ReferenceError) -> bool {
    let before = references_renamed(r, doc, n);
    r.indices.dom().contains(n as usize) && ({
        let x = before[r.indices[n as usize] as int];
        record_fails(r, x.properties, e) || record_fails(r, x.attributes, e)
    })
}

proof fn lemma_renamed_len(r: RemapModel, doc: Seq<InstanceModel>, n: nat)
    requires
        n <= usize::MAX,
        forall|i: usize| #[trigger] r.indices.dom().contains(i) ==> r.indices[i] < doc.len(),
    ensures
        references_renamed(r, doc, n).len() == doc.len(),
    decreases n,
{
    if n > 0 {
        lemma_renamed_len(r, doc, (n - 1) as nat);
    }
}

fn rename_references(remapper: &MountedReferenceRemapper, doc: &mut SettingsDocument, count: usize) -> (r: Result<
    (),
    ReferenceError,
>)
    requires
        remapper.wf(),
        forall|i: usize| #[trigger] remapper@.indices.dom().contains(i) ==> remapper@.indices[i] < old(doc)@.len(),
    ensures
        match r {
            Ok(()) => final(doc)@ == references_renamed(remapper@, old(doc)@, count as nat) && (forall|
                n: nat,
                e: ReferenceError,
            | n < count ==> !#[trigger] references_fail(remapper@, old(doc)@, n, e)),
            Err(e) => exists|n: nat| n < count && #[trigger] references_fail(remapper@, old(doc)@, n, e),
        },
{
    let ghost start = doc@;
    let mut i: usize = 0;
    while i < count
        invariant
            i <= count,
            remapper.wf(),
            start == old(doc)@,
            forall|i: usize| #[trigger] remapper@.indices.dom().contains(i) ==> remapper@.indices[i] < start.len(),
            doc@ == references_renamed(remapper@, start, i as nat),
            forall|n: nat, e: ReferenceError| n < i ==> !#[trigger] references_fail(remapper@, start, n, e),
        decreases count - i,
    {
        proof {
            lemma_renamed_len(remapper@, start, i as nat);
        }
        match remapper.indices.get(&i) {
            Some(at) => {
                let at: usize = *at;
                assert(at < doc@.len());
                let x = &doc.instances[at];
                assert(doc@[at as int] == x@);
                let properties = match remap_record(remapper, &x.properties) {
                    Ok(m) => m,
                    Err(e) => {
                        assert(references_fail(remapper@, start, i as nat, e));
                        return Err(e);
                    },
                };
                let attributes = match remap_record(remapper, &x.attributes) {
                    Ok(m) => m,
                    Err(e) => {
                        assert(references_fail(remapper@, start, i as nat, e));
                        return Err(e);
                    },
                };
                let mut y = x.copy();
                y.properties = properties;
                y.attributes = attributes;
                proof {
                    lemma_models_update(doc.instances@, at as int, y);
                    assert(y@ =~= instance_remapped(remapper@, doc@[at as int]));
                }
                doc.instances.set(at, y);
            },
            None => {},
        }
        i += 1;
    }
    Ok(())
}

/// The class of the first root of a document, or that of a folder.
pub open spec fn root_class(mounted: Seq<InstanceModel>) -> Seq<char> {
    let roots = roots_before(mounted, mounted.len());
    if roots.len() > 0 {
        mounted[roots[0]].class_name
    } else {
        "Folder"@
    }
}

/// `r` is what merging a document at a target gives: the target is made with the class of the document's
/// root; each instance goes to the target, or below where its parent went, to the instance with its
/// name; and references among the instances follow them.
pub open spec fn is_merged_at(
    doc: Seq<InstanceModel>,
    mounted: Seq<InstanceModel>,
    target: Seq<Seq<char>>,
    ordinals: Seq<usize>,
    r: Result<Seq<InstanceModel>, MountError>,
) -> bool {
    let single = roots_before(mounted, mounted.len()).len() == 1;
    match instance_staged(doc, target, ordinals, crate::stage_document::class_fields(root_class(mounted))) {
        Err(e) => r == Err::<Seq<InstanceModel>, MountError>(MountError::Stage(e)),
        Ok(staged) => match document_target(staged, target, ordinals) {
            Err(e) => r == Err::<Seq<InstanceModel>, MountError>(MountError::Target(e)),
            Ok(None) => r == Err::<Seq<InstanceModel>, MountError>(MountError::NoTarget),
            Ok(Some(at)) => match merge_all(
                MountModel { doc: staged, indices: Map::empty(), ids: Map::empty(), used: id_set(staged) },
                mounted,
                single,
                at as int,
                joined_by(target, "."@),
                mounted.len(),
            ) {
                Err(e) => r == Err::<Seq<InstanceModel>, MountError>(e),
                Ok(m) => is_renamed(
                    mounted_remap(mounted, m.indices, m.ids, target, ordinals, single),
                    m.doc,
                    mounted.len(),
                    r,
                ),
            },
        },
    }
}

/// `r` is a document with its references renamed, or why that can not be done.
pub open spec fn is_renamed(
    remap: RemapModel,
    doc: Seq<InstanceModel>,
    n: nat,
    r: Result<Seq<InstanceModel>, MountError>,
) -> bool {
    match r {
        Ok(out) => out == references_renamed(remap, doc, n) && (forall|k: nat, e: ReferenceError|
            k < n ==> !#[trigger] references_fail(remap, doc, k, e)),
        Err(MountError::Reference(e)) => exists|k: nat| k < n && #[trigger] references_fail(remap, doc, k, e),
        Err(_) => false,
    }
}

fn make_remapper(
    mounted: &SettingsDocument,
    indices: Table<usize, usize>,
    ids: Table<String, String>,
    target: &Vec<String>,
    ordinals: &Vec<usize>,
    single_root: bool,
) -> (r: MountedReferenceRemapper)
    ensures
        r@ == mounted_remap(mounted@, indices@, ids@, texts(target@), ordinals@, single_root),
{
    let target_ordinals = if ordinals.len() == 0 {
        ones(target.len())
    } else {
        clone_numbers(ordinals)
    };
    assert(target@.len() == texts(target@).len());
    let path_root_components: usize = if single_root {
        1
    } else {
        0
    };
    MountedReferenceRemapper {
        ids,
        indices,
        target: clone_texts(target),
        target_ordinals,
        internal_paths: document_paths(mounted),
        path_root_components,
    }
}

/// The models of a document, or why there is none.
pub open spec fn doc_result(r: Result<(), MountError>, doc: Seq<InstanceModel>) -> Result<Seq<InstanceModel>, MountError> {
    match r {
        Ok(()) => Ok(doc),
        Err(e) => Err(e),
    }
}

/// Merges the instances of a document at a target of another. On an error nothing changes.
pub fn merge_settings_document_at_target(
    doc: &mut SettingsDocument,
    mounted: &SettingsDocument,
    target: &Vec<String>,
    ordinals: &Vec<usize>,
) -> (r: Result<(), MountError>)
    requires
        old(doc)@.len() > 0,
        old(doc)@.len() + target@.len() + mounted@.len() < usize::MAX,
    ensures
        is_merged_at(old(doc)@, mounted@, texts(target@), ordinals@, doc_result(r, final(doc)@)),
        r is Err ==> final(doc)@ == old(doc)@,
{
    let (first, count) = document_roots(mounted);
    let class_name = match first {
        Some(i) => {
            assert(mounted@[i as int] == mounted.instances@[i as int]@);
            mounted.instances[i].class_name.clone()
        },
        None => "Folder".to_owned(),
    };
    assert(class_name@ == root_class(mounted@));
    let single = count == 1;
    let fields = StageFields::of_class(class_name);
    let mut staged = SettingsDocument { instances: copy_instances(&doc.instances) };
    assert(staged@ == doc@);
    match update_stage_instance(&mut staged, target, ordinals, &fields) {
        Ok(()) => {},
        Err(e) => {
            return Err(MountError::Stage(e));
        },
    }
    proof {
        crate::stage_document::law_staging_only_adds(doc@, texts(target@), ordinals@, fields@);
        assert(texts(target@).len() == target@.len());
    }
    let at = match find_document_target_optional_with_ordinals(&staged, target, ordinals) {
        Ok(Some(at)) => at,
        Ok(None) => {
            return Err(MountError::NoTarget);
        },
        Err(e) => {
            return Err(MountError::Target(e));
        },
    };
    let label = join_texts(target, ".");
    let mut work = start_work(&staged);
    let ghost start = work@;
    let ghost base = staged@.len();
    let mut i: usize = 0;
    while i < mounted.instances.len()
        invariant
            i <= mounted.instances.len(),
            work.wf(),
            at < base,
            base <= work@.doc.len() <= base + i,
            base + mounted@.len() < usize::MAX,
            label@ == joined_by(texts(target@), "."@),
            merge_all(start, mounted@, single, at as int, label@, i as nat) == Ok::<MountModel, MountError>(work@),
            doc@ == old(doc)@,
            instance_staged(
                old(doc)@,
                texts(target@),
                ordinals@,
                crate::stage_document::class_fields(root_class(mounted@)),
            ) == Ok::<Seq<InstanceModel>, StageError>(staged@),
            document_target(staged@, texts(target@), ordinals@) == Ok::<Option<usize>, TargetError>(Some(at)),
            single == (roots_before(mounted@, mounted@.len()).len() == 1),
            start == (MountModel {
                doc: staged@,
                indices: Map::empty(),
                ids: Map::empty(),
                used: id_set(staged@),
            }),
        decreases mounted.instances.len() - i,
    {
        match merge_step(&mut work, mounted, single, at, &label, i) {
            Ok(()) => {},
            Err(e) => {
                proof {
                    lemma_merge_error_stays(start, mounted@, single, at as int, label@, (i + 1) as nat, mounted@.len());
                }
                return Err(e);
            },
        }
        i += 1;
    }
    let ghost end = work@;
    assert(forall|i: usize| #[trigger] end.indices.dom().contains(i) ==> end.indices[i] < end.doc.len());
    let MountWork { doc: mut merged, indices, ids, used } = work;
    assert(merged@ == end.doc && indices@ == end.indices && ids@ == end.ids);
    let remapper = make_remapper(mounted, indices, ids, target, ordinals, single);
    assert(merged@.len() == merged.instances.len());
    assert forall|i: usize| #[trigger] remapper@.indices.dom().contains(i) implies remapper@.indices[i] < merged@.len() by {}
    match rename_references(&remapper, &mut merged, mounted.instances.len()) {
        Ok(()) => {
            doc.instances = merged.instances;
            Ok(())
        },
        Err(e) => Err(MountError::Reference(e)),
    }
}

/// One instance of `mounted` put at the end of the document. A root goes below `parent`; a single root
/// takes the name of the target.
pub open spec fn append_one(
    m: MountModel,
    mounted: Seq<InstanceModel>,
    single_root: bool,
    parent: int,
    target: Seq<Seq<char>>,
    i: int,
) -> MountModel {
    let x = mounted[i];
    let id = if id_set(m.doc).contains(x.id) {
        settings_id_for("mounted"@, numbered(joined_by(target, "."@), i))
    } else {
        x.id
    };
    MountModel {
        doc: m.doc.push(
            InstanceModel {
                id,
                name: if single_root && x.parent is None {
                    target.last()
                } else {
                    x.name
                },
                class_name: x.class_name,
                parent: match x.parent {
                    None => Some(parent as usize),
                    Some(p) => value_of(m.indices, p),
                },
                properties: x.properties,
                attributes: x.attributes,
            },
        ),
        indices: m.indices.insert(i as usize, m.doc.len() as usize),
        ids: m.ids.insert(x.id, id),
        used: m.used,
    }
}

pub open spec fn append_all(
    m: MountModel,
    mounted: Seq<InstanceModel>,
    single_root: bool,
    parent: int,
    target: Seq<Seq<char>>,
    n: nat,
) -> MountModel
    decreases n,
{
    if n == 0 {
        m
    } else {
        append_one(append_all(m, mounted, single_root, parent, target, (n - 1) as nat), mounted, single_root, parent, target, n - 1)
    }
}

/// The document with the parent of a target made: a service keeps its class, anything else is a folder.
pub open spec fn parent_staged(doc: Seq<InstanceModel>, target: Seq<Seq<char>>, parent_ordinals: Seq<usize>) -> Result<
    Seq<InstanceModel>,
    StageError,
> {
    let parent = target.drop_last();
    instance_staged(
        doc,
        parent,
        parent_ordinals,
        crate::stage_document::class_fields(
            if parent.len() == 1 {
                parent[0]
            } else {
                "Folder"@
            },
        ),
    )
}

/// The document with a place for what is mounted, and the index of that place: the target's parent, or,
/// for more than one root, a folder at the target.
pub open spec fn mount_place(
    doc: Seq<InstanceModel>,
    target: Seq<Seq<char>>,
    ordinals: Seq<usize>,
    parent_ordinals: Seq<usize>,
    roots: nat,
) -> Result<(Seq<InstanceModel>, usize), MountError> {
    if target.len() < 2 {
        Err(MountError::NoTarget)
    } else {
        match parent_staged(doc, target, parent_ordinals) {
            Err(e) => Err(MountError::Stage(e)),
            Ok(with_parent) => if roots > 1 {
                match instance_staged(with_parent, target, ordinals, crate::stage_document::class_fields("Folder"@)) {
                    Err(e) => Err(MountError::Stage(e)),
                    Ok(staged) => place_in(staged, target, ordinals),
                }
            } else {
                place_in(with_parent, target.drop_last(), parent_ordinals)
            },
        }
    }
}

/// A document and the index that a target names in it.
pub open spec fn place_in(doc: Seq<InstanceModel>, target: Seq<Seq<char>>, ordinals: Seq<usize>) -> Result<
    (Seq<InstanceModel>, usize),
    MountError,
> {
    match document_target(doc, target, ordinals) {
        Err(e) => Err(MountError::Target(e)),
        Ok(None) => Err(MountError::NoTarget),
        Ok(Some(at)) => Ok((doc, at)),
    }
}

/// `r` is what mounting a document at a target gives.
pub open spec fn is_mounted(
    doc: Seq<InstanceModel>,
    mounted: Seq<InstanceModel>,
    target: Seq<Seq<char>>,
    ordinals: Seq<usize>,
    parent_ordinals: Seq<usize>,
    r: Result<Seq<InstanceModel>, MountError>,
) -> bool {
    let roots = roots_before(mounted, mounted.len()).len();
    match mount_place(doc, target, ordinals, parent_ordinals, roots) {
        Err(e) => r == Err::<Seq<InstanceModel>, MountError>(e),
        Ok((staged, at)) => {
            let m = append_all(
                MountModel { doc: staged, indices: Map::empty(), ids: Map::empty(), used: Set::empty() },
                mounted,
                roots == 1,
                at as int,
                target,
                mounted.len(),
            );
            is_renamed(
                mounted_remap(mounted, m.indices, m.ids, target, ordinals, roots == 1),
                m.doc,
                mounted.len(),
                r,
            )
        },
    }
}

fn holds_id(doc: &SettingsDocument, id: &str) -> (r: bool)
    ensures
        r == id_set(doc@).contains(id@),
{
    let mut i: usize = 0;
    while i < doc.instances.len()
        invariant
            i <= doc.instances.len(),
            forall|j: int| 0 <= j < i ==> (#[trigger] doc@[j]).id != id@,
        decreases doc.instances.len() - i,
    {
        assert(doc@[i as int] == doc.instances@[i as int]@);
        if same(&doc.instances[i].settings_id, id) {
            return true;
        }
        i += 1;
    }
    false
}

fn append_step(work: &mut MountWork, mounted: &SettingsDocument, single_root: bool, parent: usize, target: &Vec<String>, i: usize)
    requires
        old(work).wf(),
        i < mounted@.len(),
        target@.len() > 0,
    ensures
        final(work)@ == append_one(old(work)@, mounted@, single_root, parent as int, texts(target@), i as int),
        final(work).wf(),
        final(work)@.doc.len() == old(work)@.doc.len() + 1,
{
    let ghost start = work@;
    let x = &mounted.instances[i];
    assert(mounted@[i as int] == x@);
    let mut y = x.copy();
    y.parent_index = match x.parent_index {
        None => Some(parent),
        Some(p) => match work.indices.get(&p) {
            Some(at) => Some(*at),
            None => None,
        },
    };
    if single_root && x.parent_index.is_none() {
        y.name = target[target.len() - 1].clone();
        assert(texts(target@).last() == target@[target@.len() - 1]@);
    }
    if holds_id(&work.doc, &x.settings_id) {
        let label = join_texts(target, ".");
        let numbered_label = numbered_text(&label, i);
        y.settings_id = projection_settings_id("mounted", &numbered_label);
    }
    let next = work.doc.instances.len();
    work.ids.put(x.settings_id.clone(), y.settings_id.clone());
    proof {
        lemma_models_push(work.doc.instances@, y);
    }
    work.doc.instances.push(y);
    work.indices.put(i, next);
}

fn find_place(doc: &SettingsDocument, target: &Vec<String>, ordinals: &Vec<usize>) -> (r: Result<usize, MountError>)
    ensures
        match r {
            Ok(at) => place_in(doc@, texts(target@), ordinals@) == Ok::<(Seq<InstanceModel>, usize), MountError>(
                (doc@, at),
            ) && at < doc@.len(),
            Err(e) => place_in(doc@, texts(target@), ordinals@) == Err::<(Seq<InstanceModel>, usize), MountError>(e),
        },
{
    match find_document_target_optional_with_ordinals(doc, target, ordinals) {
        Ok(Some(at)) => Ok(at),
        Ok(None) => Err(MountError::NoTarget),
        Err(e) => Err(MountError::Target(e)),
    }
}

fn make_place(
    staged: &mut SettingsDocument,
    target: &Vec<String>,
    ordinals: &Vec<usize>,
    parent_ordinals: &Vec<usize>,
    roots: usize,
) -> (r: Result<usize, MountError>)
    requires
        old(staged)@.len() > 0,
        old(staged)@.len() + 2 * target@.len() < usize::MAX,
    ensures
        match r {
            Ok(at) => mount_place(old(staged)@, texts(target@), ordinals@, parent_ordinals@, roots as nat) == Ok::<
                (Seq<InstanceModel>, usize),
                MountError,
            >((final(staged)@, at)) && at < final(staged)@.len() && final(staged)@.len() <= old(staged)@.len() + 2
                * target@.len(),
            Err(e) => mount_place(old(staged)@, texts(target@), ordinals@, parent_ordinals@, roots as nat) == Err::<
                (Seq<InstanceModel>, usize),
                MountError,
            >(e),
        },
{
    if target.len() < 2 {
        return Err(MountError::NoTarget);
    }
    let ghost start = staged@;
    let parent = crate::text::subtexts(target, 0, target.len() - 1);
    assert(texts(parent@) =~= texts(target@).drop_last());
    assert(parent@.len() == texts(parent@).len());
    let class_name = if parent.len() == 1 {
        parent[0].clone()
    } else {
        "Folder".to_owned()
    };
    let fields = StageFields::of_class(class_name);
    assert(parent@.len() == 1 ==> texts(parent@)[0] == parent@[0]@);
    match update_stage_instance(staged, &parent, parent_ordinals, &fields) {
        Ok(()) => {},
        Err(e) => {
            return Err(MountError::Stage(e));
        },
    }
    proof {
        crate::stage_document::law_staging_only_adds(start, texts(parent@), parent_ordinals@, fields@);
    }
    if roots > 1 {
        let ghost with_parent = staged@;
        let folder = StageFields::of_class("Folder".to_owned());
        match update_stage_instance(staged, target, ordinals, &folder) {
            Ok(()) => {},
            Err(e) => {
                return Err(MountError::Stage(e));
            },
        }
        proof {
            crate::stage_document::law_staging_only_adds(with_parent, texts(target@), ordinals@, folder@);
        }
        find_place(staged, target, ordinals)
    } else {
        find_place(staged, &parent, parent_ordinals)
    }
}

/// Mounts a document at a target of another: all its instances are added below the target's parent, a
/// single root under the target's name; several roots go into a folder at the target. References among
/// the instances follow them. On an error nothing changes.
pub fn merge_settings_mount(
    doc: &mut SettingsDocument,
    mounted: &SettingsDocument,
    target: &Vec<String>,
    ordinals: &Vec<usize>,
    parent_ordinals: &Vec<usize>,
) -> (r: Result<(), MountError>)
    requires
        old(doc)@.len() > 0,
        old(doc)@.len() + 2 * target@.len() + mounted@.len() < usize::MAX,
    ensures
        is_mounted(
            old(doc)@,
            mounted@,
            texts(target@),
            ordinals@,
            parent_ordinals@,
            doc_result(r, final(doc)@),
        ),
        r is Err ==> final(doc)@ == old(doc)@,
{
    let (first, count) = document_roots(mounted);
    let single = count == 1;
    let mut staged = SettingsDocument { instances: copy_instances(&doc.instances) };
    assert(staged@ == doc@);
    let at = match make_place(&mut staged, target, ordinals, parent_ordinals, count) {
        Ok(at) => at,
        Err(e) => {
            return Err(e);
        },
    };
    let mut work = MountWork { doc: staged, indices: Table::new(), ids: Table::new(), used: Table::new() };
    let ghost start = work@;
    let ghost base = start.doc.len();
    assert(start =~= (MountModel { doc: start.doc, indices: Map::empty(), ids: Map::empty(), used: Set::empty() }));
    let mut i: usize = 0;
    while i < mounted.instances.len()
        invariant
            i <= mounted.instances.len(),
            work.wf(),
            target@.len() > 0,
            work@.doc.len() == base + i,
            base + mounted@.len() < usize::MAX,
            work@ == append_all(start, mounted@, single, at as int, texts(target@), i as nat),
        decreases mounted.instances.len() - i,
    {
        append_step(&mut work, mounted, single, at, target, i);
        i += 1;
    }
    let ghost end = work@;
    assert(forall|i: usize| #[trigger] end.indices.dom().contains(i) ==> end.indices[i] < end.doc.len());
    let MountWork { doc: mut merged, indices, ids, used } = work;
    assert(merged@ == end.doc && indices@ == end.indices && ids@ == end.ids);
    let remapper = make_remapper(mounted, indices, ids, target, ordinals, single);
    assert(merged@.len() == merged.instances.len());
    assert forall|i: usize| #[trigger] remapper@.indices.dom().contains(i) implies remapper@.indices[i] < merged@.len() by {}
    match rename_references(&remapper, &mut merged, mounted.instances.len()) {
        Ok(()) => {
            doc.instances = merged.instances;
            Ok(())
        },
        Err(e) => Err(MountError::Reference(e)),
    }
}

/// Giving an instance another class or settings id in a document.
pub open spec fn is_identity_overridden(
    doc: Seq<InstanceModel>,
    target: Seq<Seq<char>>,
    ordinals: Seq<usize>,
    class_name: Option<Seq<char>>,
    id: Option<Seq<char>>,
    r: Result<Seq<InstanceModel>, MountError>,
) -> bool {
    match document_target(doc, target, ordinals) {
        Err(e) => r == Err::<Seq<InstanceModel>, MountError>(MountError::Target(e)),
        Ok(None) => r == Ok::<Seq<InstanceModel>, MountError>(doc),
        Ok(Some(at)) => if id is Some && (exists|i: int|
            0 <= i < doc.len() && i != at && (#[trigger] doc[i]).id == id->0) {
            r == Err::<Seq<InstanceModel>, MountError>(MountError::Stage(StageError::DuplicateId))
        } else {
            r == Ok::<Seq<InstanceModel>, MountError>(
                doc.update(
                    at as int,
                    InstanceModel {
                        id: if id is Some {
                            id->0
                        } else {
                            doc[at as int].id
                        },
                        class_name: if class_name is Some {
                            class_name->0
                        } else {
                            doc[at as int].class_name
                        },
                        ..doc[at as int]
                    },
                ),
            )
        },
    }
}

/// Gives the instance that a target names another class or settings id; one that is not there is left.
/// A settings id that another instance has is refused. On an error nothing changes.
pub fn override_stage_identity(
    doc: &mut SettingsDocument,
    target: &Vec<String>,
    ordinals: &Vec<usize>,
    class_name: &Option<String>,
    settings_id: &Option<String>,
) -> (r: Result<(), MountError>)
    ensures
        is_identity_overridden(
            old(doc)@,
            texts(target@),
            ordinals@,
            crate::links::opt_text(*class_name),
            crate::links::opt_text(*settings_id),
            doc_result(r, final(doc)@),
        ),
        r is Err ==> final(doc)@ == old(doc)@,
{
    let at = match find_document_target_optional_with_ordinals(doc, target, ordinals) {
        Ok(Some(at)) => at,
        Ok(None) => {
            return Ok(());
        },
        Err(e) => {
            return Err(MountError::Target(e));
        },
    };
    match settings_id {
        Some(id) => {
            let mut i: usize = 0;
            while i < doc.instances.len()
                invariant
                    i <= doc.instances.len(),
                    *doc == *old(doc),
                    document_target(doc@, texts(target@), ordinals@) == Ok::<Option<usize>, TargetError>(Some(at)),
                    crate::links::opt_text(*settings_id) == Some(id@),
                    forall|j: int| 0 <= j < i && j != at ==> (#[trigger] doc@[j]).id != id@,
                decreases doc.instances.len() - i,
            {
                assert(doc@[i as int] == doc.instances@[i as int]@);
                if i != at && same(&doc.instances[i].settings_id, id) {
                    return Err(MountError::Stage(StageError::DuplicateId));
                }
                i += 1;
            }
        },
        None => {},
    }
    let mut x = doc.instances[at].copy();
    assert(x@ == doc@[at as int]);
    match settings_id {
        Some(id) => {
            x.settings_id = id.clone();
        },
        None => {},
    }
    match class_name {
        Some(class_name) => {
            x.class_name = class_name.clone();
        },
        None => {},
    }
    proof {
        lemma_models_update(doc.instances@, at as int, x);
    }
    doc.instances.set(at, x);
    Ok(())
}

} // verus!
