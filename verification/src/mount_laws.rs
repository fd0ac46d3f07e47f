//! What mounting a document keeps.
use vstd::prelude::*;

use crate::digest::settings_id_for;
use crate::document::{InstanceModel, named_children};
use crate::json::JsonModel;
use crate::mount::{
    MountError, MountModel, append_all, append_one, child_place, id_set, instance_remapped, is_mounted,
    merge_all, merge_one, mount_place, mounted_remap, numbered, record_remapped, references_renamed,
    roots_before,
};
use crate::references::{RemapModel, ReferenceError, is_reference, remap_fails, remapped, remapped_items};
use crate::text::joined_by;

verus! {

/// A value is a text.
pub open spec fn is_text(v: JsonModel, s: Seq<char>) -> bool {
    v == JsonModel::Text(s)
}

/// A value holds no reference, at any depth.
pub open spec fn no_reference(v: JsonModel) -> bool
    decreases v,
{
    match v {
        JsonModel::Array(items) => forall|i: int| 0 <= i < items.len() ==> no_reference(#[trigger] items[i]),
        JsonModel::Object(o) => !is_reference(o) && forall|k: Seq<char>| #[trigger]
            o.dom().contains(k) ==> no_reference(o[k]),
        _ => true,
    }
}

/// What holds no reference is mounted as it is, and never fails.
pub proof fn law_other_values_are_left(r: RemapModel, v: JsonModel)
    requires
        no_reference(v),
    ensures
        remapped(r, v) == v,
        forall|e: ReferenceError| !remap_fails(r, v, e),
    decreases v,
{
    match v {
        JsonModel::Array(items) => {
            assert forall|i: int| 0 <= i < items.len() implies remapped(r, #[trigger] items[i]) == items[i] && (forall|
                e: ReferenceError,
            | !remap_fails(r, items[i], e)) by {
                law_other_values_are_left(r, items[i]);
            }
            assert(remapped_items(r, items) =~= items);
            assert forall|e: ReferenceError| !remap_fails(r, v, e) by {
                if remap_fails(r, v, e) {
                    let i = choose|i: int| 0 <= i < items.len() && remap_fails(r, #[trigger] items[i], e);
                    assert(remapped(r, items[i]) == items[i]);
                }
            }
        },
        JsonModel::Object(o) => {
            assert forall|k: Seq<char>| #[trigger] o.dom().contains(k) implies remapped(r, o[k]) == o[k] && (forall|
                e: ReferenceError,
            | !remap_fails(r, o[k], e)) by {
                law_other_values_are_left(r, o[k]);
            }
            let out = remapped(r, v)->Object_0;
            assert(out =~= o);
            assert forall|e: ReferenceError| !remap_fails(r, v, e) by {
                if remap_fails(r, v, e) {
                    let k = choose|k: Seq<char>| #[trigger] o.dom().contains(k) && remap_fails(r, o[k], e);
                    assert(o.dom().contains(k) && remap_fails(r, o[k], e));
                }
            }
        },
        _ => {},
    }
}

proof fn lemma_field_names()
    ensures
        "settingsId"@ != "pathOrdinals"@,
        "instanceId"@ != "pathOrdinals"@,
        "instanceIndex"@ != "pathOrdinals"@,
        "pathSegments"@ != "pathOrdinals"@,
        "settingsId"@ != "instanceIndex"@,
        "settingsId"@ != "instanceId"@,
        "instanceId"@ != "instanceIndex"@,
        "pathSegments"@ != "settingsId"@,
        "pathSegments"@ != "instanceId"@,
        "pathSegments"@ != "instanceIndex"@,
{
    reveal_strlit("settingsId");
    reveal_strlit("instanceId");
    reveal_strlit("instanceIndex");
    reveal_strlit("pathSegments");
    reveal_strlit("pathOrdinals");
    assert("settingsId"@.len() == 10 && "settingsId"@[0] == 's');
    assert("instanceId"@.len() == 10 && "instanceId"@[0] == 'i');
    assert("instanceIndex"@.len() == 13);
    assert("pathSegments"@.len() == 12 && "pathSegments"@[4] == 'S');
    assert("pathOrdinals"@.len() == 12 && "pathOrdinals"@[4] == 'O');
}

/// A reference that names an instance of the mounted document by an id names it by the id that the
/// instance has where it was mounted.
pub proof fn law_references_follow_the_ids(r: RemapModel, o: Map<Seq<char>, JsonModel>, key: Seq<char>, id: Seq<char>)
    requires
        is_reference(o),
        key == "settingsId"@ || key == "instanceId"@,
        o.dom().contains(key),
        o[key] == JsonModel::Text(id),
        forall|e: ReferenceError| !remap_fails(r, JsonModel::Object(o), e),
    ensures
        remapped(r, JsonModel::Object(o)) is Object,
        remapped(r, JsonModel::Object(o))->Object_0.dom().contains(key),
        r.ids.dom().contains(id) ==> remapped(r, JsonModel::Object(o))->Object_0[key] == JsonModel::Text(r.ids[id]),
        !r.ids.dom().contains(id) ==> remapped(r, JsonModel::Object(o))->Object_0[key] == JsonModel::Text(id),
{
    lemma_field_names();
    lemma_signals_ok(r, o);
    reveal_with_fuel(remapped, 2);
}

proof fn lemma_signals_ok(r: RemapModel, o: Map<Seq<char>, JsonModel>)
    requires
        forall|e: ReferenceError| !remap_fails(r, JsonModel::Object(o), e),
    ensures
        crate::references::own_signals(r, o) is Ok,
{
    match crate::references::own_signals(r, o) {
        Err(e) => {
            assert(remap_fails(r, JsonModel::Object(o), e));
        },
        Ok(_) => {},
    }
}

/// A reference that names an instance of the mounted document by its number names it by the number
/// that the instance has where it was mounted.
pub proof fn law_references_follow_the_indices(r: RemapModel, o: Map<Seq<char>, JsonModel>, i: usize)
    requires
        is_reference(o),
        o.dom().contains("instanceIndex"@),
        i < usize::MAX,
        i < u64::MAX,
        o["instanceIndex"@] == JsonModel::Number(crate::json::NumberModel::Unsigned((i + 1) as u64)),
        forall|e: ReferenceError| !remap_fails(r, JsonModel::Object(o), e),
        r.indices.dom().contains(i),
    ensures
        remapped(r, JsonModel::Object(o)) is Object,
        remapped(r, JsonModel::Object(o))->Object_0.dom().contains("instanceIndex"@),
        remapped(r, JsonModel::Object(o))->Object_0["instanceIndex"@] == JsonModel::Number(
            crate::json::NumberModel::Unsigned((r.indices[i] + 1) as u64),
        ),
{
    lemma_field_names();
    lemma_signals_ok(r, o);
}

/// A reference that names an instance of the mounted document by its path names it below the
/// place where the document was mounted. Where the path picks one of several instances the
/// ordinals follow.
#[verifier::rlimit(50)]
pub proof fn law_references_follow_the_paths(
    r: RemapModel,
    o: Map<Seq<char>, JsonModel>,
    items: Seq<JsonModel>,
    path: Seq<Seq<char>>,
)
    requires
        is_reference(o),
        o.dom().contains("pathSegments"@),
        o["pathSegments"@] == JsonModel::Array(items),
        items.len() == path.len(),
        forall|i: int| 0 <= i < items.len() ==> is_text(#[trigger] items[i], path[i]),
        r.internal_paths.dom().contains(path),
        r.internal_paths[path].len() == 1,
        !o.dom().contains("pathOrdinals"@),
        r.path_root_components <= path.len(),
        r.path_root_components <= r.internal_paths[path][0].len(),
        forall|e: ReferenceError| !remap_fails(r, JsonModel::Object(o), e),
    ensures
        ({
            let out = remapped(r, JsonModel::Object(o));
            let moved = r.target + path.skip(r.path_root_components as int);
            let ordinals = r.target_ordinals + r.internal_paths[path][0].skip(r.path_root_components as int);
            &&& out is Object
            &&& out->Object_0.dom().contains("pathSegments"@)
            &&& out->Object_0["pathSegments"@] is Array
            &&& out->Object_0["pathSegments"@]->Array_0.len() == moved.len()
            &&& forall|i: int|
                0 <= i < moved.len() ==> is_text(
                    out->Object_0["pathSegments"@]->Array_0[i],
                    #[trigger] moved[i],
                )
            &&& out->Object_0.dom().contains("pathOrdinals"@)
            &&& out->Object_0["pathOrdinals"@] is Array
            &&& out->Object_0["pathOrdinals"@]->Array_0.len() == ordinals.len()
            &&& forall|i: int|
                0 <= i < ordinals.len() ==> out->Object_0["pathOrdinals"@]->Array_0[i] == crate::references::number_model(
                    #[trigger] ordinals[i] as int,
                )
        }),
{
    lemma_field_names();
    lemma_signals_ok(r, o);
    assert(crate::references::texts_in(items) =~= path);
    assert forall|i: int| 0 <= i < items.len() implies (#[trigger] items[i]) is Text by {}
    assert(crate::references::all_texts(items));
    assert(crate::references::path_field(o) == Some(path));
    let out = remapped(r, JsonModel::Object(o))->Object_0;
    let moved = r.target + path.skip(r.path_root_components as int);
    let told = remapped_items(r, items);
    assert forall|i: int| 0 <= i < items.len() implies is_text(told[i], #[trigger] path[i]) by {
        assert(items[i] is Text);
    }
    let got = out["pathSegments"@]->Array_0;
    assert(got =~= crate::references::texts_model(r.target) + told.skip(r.path_root_components as int));
    assert forall|i: int| 0 <= i < moved.len() implies is_text(got[i], #[trigger] moved[i]) by {
        if i >= r.target.len() {
            let k = i - r.target.len() + r.path_root_components;
            assert(moved[i] == path[k]);
            assert(got[i] == told[k]);
        }
    }
}

#[verifier::rlimit(50)]
proof fn lemma_renamed(r: RemapModel, doc: Seq<InstanceModel>, n: nat, k: int)
    requires
        n <= usize::MAX,
        0 <= k < doc.len(),
        forall|i: usize| #[trigger] r.indices.dom().contains(i) ==> r.indices[i] < doc.len(),
    ensures
        ({
            let out = references_renamed(r, doc, n);
            &&& out.len() == doc.len()
            &&& out[k].id == doc[k].id && out[k].name == doc[k].name && out[k].class_name == doc[k].class_name
                && out[k].parent == doc[k].parent
            &&& out[k].properties.dom() == doc[k].properties.dom()
            &&& out[k].attributes.dom() == doc[k].attributes.dom()
            &&& (forall|i: usize| i < n && #[trigger] r.indices.dom().contains(i) ==> r.indices[i] != k) ==> out[k]
                == doc[k]
            &&& (exists|i: usize|
                i < n && #[trigger] r.indices.dom().contains(i) && r.indices[i] == k && (forall|j: usize|
                    j < n && j != i && #[trigger] r.indices.dom().contains(j) ==> r.indices[j] != k)) ==> out[k]
                == instance_remapped(r, doc[k])
        }),
    decreases n,
{
    if n > 0 {
        let p = (n - 1) as nat;
        lemma_renamed(r, doc, p, k);
        let before = references_renamed(r, doc, p);
        lemma_renamed_len(r, doc, p);
        let out = references_renamed(r, doc, n);
        if r.indices.dom().contains(p as usize) {
            let at = r.indices[p as usize] as int;
            if at == k {
                assert(out[k].properties.dom() =~= doc[k].properties.dom());
                assert(out[k].attributes.dom() =~= doc[k].attributes.dom());
            }
        }
        if exists|i: usize|
            i < n && #[trigger] r.indices.dom().contains(i) && r.indices[i] == k && (forall|j: usize|
                j < n && j != i && #[trigger] r.indices.dom().contains(j) ==> r.indices[j] != k) {
            let i = choose|i: usize|
                i < n && #[trigger] r.indices.dom().contains(i) && r.indices[i] == k && (forall|j: usize|
                    j < n && j != i && #[trigger] r.indices.dom().contains(j) ==> r.indices[j] != k);
            if i == p {
                assert(before[k] == doc[k]);
            } else {
                assert(i < p && r.indices.dom().contains(i) && r.indices[i] == k);
                assert(before[k] == instance_remapped(r, doc[k]));
                if r.indices.dom().contains(p as usize) {
                    assert(r.indices[p as usize] != k);
                }
            }
        }
    }
}

proof fn lemma_renamed_len(r: RemapModel, doc: Seq<InstanceModel>, n: nat)
    requires
        forall|i: usize| #[trigger] r.indices.dom().contains(i) ==> r.indices[i] < doc.len(),
    ensures
        references_renamed(r, doc, n).len() == doc.len(),
    decreases n,
{
    if n > 0 {
        lemma_renamed_len(r, doc, (n - 1) as nat);
    }
}

/// What an appended instance takes from the mounted document.
pub open spec fn is_appended(
    doc: Seq<InstanceModel>,
    base: nat,
    mounted: Seq<InstanceModel>,
    single_root: bool,
    parent: int,
    target: Seq<Seq<char>>,
    i: int,
) -> bool {
    let x = mounted[i];
    let y = doc[base + i];
    &&& y.class_name == x.class_name
    &&& y.name == if single_root && x.parent is None {
        target.last()
    } else {
        x.name
    }
    &&& x.parent is None ==> y.parent == Some(parent as usize)
    &&& x.parent is Some && x.parent->0 < i ==> y.parent == Some((base + x.parent->0) as usize)
    &&& (forall|k: int| 0 <= k < base + i ==> (#[trigger] doc[k]).id != x.id) ==> y.id == x.id
    &&& (exists|k: int| 0 <= k < base + i && (#[trigger] doc[k]).id == x.id) ==> y.id == settings_id_for(
        "mounted"@,
        numbered(joined_by(target, "."@), i),
    )
}

#[verifier::rlimit(50)]
proof fn lemma_append(
    m: MountModel,
    mounted: Seq<InstanceModel>,
    single_root: bool,
    parent: int,
    target: Seq<Seq<char>>,
    n: nat,
)
    requires
        n <= mounted.len(),
        m.doc.len() + mounted.len() <= usize::MAX,
        m.indices == Map::<usize, usize>::empty(),
    ensures
        ({
            let f = append_all(m, mounted, single_root, parent, target, n);
            let base = m.doc.len();
            &&& f.doc.len() == base + n
            &&& forall|k: int| 0 <= k < base ==> #[trigger] f.doc[k] == m.doc[k]
            &&& forall|j: usize| #[trigger] f.indices.dom().contains(j) <==> j < n
            &&& forall|j: usize| #[trigger] f.indices.dom().contains(j) ==> f.indices[j] == base + j
            &&& forall|i: int| #![trigger mounted[i]]
                0 <= i < n ==> is_appended(f.doc, base, mounted, single_root, parent, target, i)
                    && f.doc[base + i].properties == mounted[i].properties && f.doc[base + i].attributes
                    == mounted[i].attributes
        }),
    decreases n,
{
    if n > 0 {
        let p = (n - 1) as nat;
        lemma_append(m, mounted, single_root, parent, target, p);
        let before = append_all(m, mounted, single_root, parent, target, p);
        let f = append_one(before, mounted, single_root, parent, target, p as int);
        let base = m.doc.len();
        assert(f.doc.len() == base + n);
        let x = mounted[p as int];
        assert(id_set(before.doc).contains(x.id) <==> exists|k: int|
            0 <= k < base + p && (#[trigger] before.doc[k]).id == x.id);
        assert forall|k: int| 0 <= k < base + p implies #[trigger] f.doc[k] == before.doc[k] by {}
        assert forall|i: int| #![trigger mounted[i]] 0 <= i < n implies is_appended(
            f.doc,
            base,
            mounted,
            single_root,
            parent,
            target,
            i,
        ) && f.doc[base + i].properties == mounted[i].properties && f.doc[base + i].attributes
            == mounted[i].attributes by {
            if i < p {
                assert(is_appended(before.doc, base, mounted, single_root, parent, target, i));
                assert(f.doc[base + i] == before.doc[base + i]);
                assert forall|k: int| 0 <= k < base + i implies #[trigger] f.doc[k] == before.doc[k] by {}
                if exists|k: int| 0 <= k < base + i && (#[trigger] f.doc[k]).id == mounted[i].id {
                    let k = choose|k: int| 0 <= k < base + i && (#[trigger] f.doc[k]).id == mounted[i].id;
                    assert(before.doc[k].id == mounted[i].id);
                } else {
                    assert forall|k: int| 0 <= k < base + i implies (#[trigger] before.doc[k]).id != mounted[i].id by {
                        assert(f.doc[k] == before.doc[k]);
                    }
                }
            } else {
                if x.parent is Some && x.parent->0 < p {
                    assert(before.indices.dom().contains(x.parent->0));
                }
                if exists|k: int| 0 <= k < base + i && (#[trigger] f.doc[k]).id == x.id {
                    let k = choose|k: int| 0 <= k < base + i && (#[trigger] f.doc[k]).id == x.id;
                    assert(before.doc[k].id == x.id);
                } else {
                    assert forall|k: int| 0 <= k < base + p implies (#[trigger] before.doc[k]).id != x.id by {
                        assert(f.doc[k] == before.doc[k]);
                    }
                }
            }
        }
    }
}

#[verifier::rlimit(50)]
proof fn lemma_appended_renamed(
    r: RemapModel,
    doc: Seq<InstanceModel>,
    base: nat,
    mounted: Seq<InstanceModel>,
    single_root: bool,
    parent: int,
    target: Seq<Seq<char>>,
    i: int,
)
    requires
        0 <= i < mounted.len() <= usize::MAX,
        doc.len() == base + mounted.len(),
        is_appended(doc, base, mounted, single_root, parent, target, i),
        doc[base + i].properties == mounted[i].properties,
        doc[base + i].attributes == mounted[i].attributes,
        forall|j: usize| #[trigger] r.indices.dom().contains(j) <==> j < mounted.len(),
        forall|j: usize| #[trigger] r.indices.dom().contains(j) ==> r.indices[j] == base + j,
    ensures
        is_appended(references_renamed(r, doc, mounted.len()), base, mounted, single_root, parent, target, i),
        references_renamed(r, doc, mounted.len())[base + i].properties == record_remapped(r, mounted[i].properties),
        references_renamed(r, doc, mounted.len())[base + i].attributes == record_remapped(r, mounted[i].attributes),
{
    let out = references_renamed(r, doc, mounted.len());
    let k = base + i;
    assert forall|j: usize| #[trigger] r.indices.dom().contains(j) implies r.indices[j] < doc.len() by {}
    assert(r.indices.dom().contains(i as usize));
    lemma_renamed(r, doc, mounted.len(), k);
    assert(out[k] == instance_remapped(r, doc[k]));
    if exists|q: int| 0 <= q < k && (#[trigger] out[q]).id == mounted[i].id {
        let q = choose|q: int| 0 <= q < k && (#[trigger] out[q]).id == mounted[i].id;
        lemma_renamed(r, doc, mounted.len(), q);
        assert(doc[q].id == mounted[i].id);
    }
    if exists|q: int| 0 <= q < k && (#[trigger] doc[q]).id == mounted[i].id {
        let q = choose|q: int| 0 <= q < k && (#[trigger] doc[q]).id == mounted[i].id;
        lemma_renamed(r, doc, mounted.len(), q);
        assert(out[q].id == mounted[i].id);
    }
}

/// A mounted document stands at its place: its instances come after those that were there, which
/// stay as they are. Each has the class, the properties and the attributes of the document, its
/// root stands under the place with the target's name, and the others stand under what was made
/// of their parents. References between them follow.
#[verifier::rlimit(50)]
pub proof fn law_mounted_document_stands_at_its_place(
    doc: Seq<InstanceModel>,
    mounted: Seq<InstanceModel>,
    target: Seq<Seq<char>>,
    ordinals: Seq<usize>,
    parent_ordinals: Seq<usize>,
    out: Seq<InstanceModel>,
    staged: Seq<InstanceModel>,
    at: usize,
) -> (r: RemapModel)
    requires
        is_mounted(doc, mounted, target, ordinals, parent_ordinals, Ok(out)),
        mount_place(doc, target, ordinals, parent_ordinals, roots_before(mounted, mounted.len()).len()) == Ok::<
            (Seq<InstanceModel>, usize),
            MountError,
        >((staged, at)),
        staged.len() + mounted.len() <= usize::MAX,
    ensures
        out.len() == staged.len() + mounted.len(),
        forall|k: int| 0 <= k < staged.len() ==> #[trigger] out[k] == staged[k],
        forall|i: int| #![trigger mounted[i]]
            0 <= i < mounted.len() ==> is_appended(
                out,
                staged.len(),
                mounted,
                roots_before(mounted, mounted.len()).len() == 1,
                at as int,
                target,
                i,
            ) && out[staged.len() + i].properties == record_remapped(r, mounted[i].properties) && out[staged.len()
                + i].attributes == record_remapped(r, mounted[i].attributes),
        forall|j: usize| #[trigger] r.indices.dom().contains(j) <==> j < mounted.len(),
        forall|j: usize| #[trigger] r.indices.dom().contains(j) ==> r.indices[j] == staged.len() + j,
        r.target == target,
{
    let single = roots_before(mounted, mounted.len()).len() == 1;
    let start = MountModel { doc: staged, indices: Map::empty(), ids: Map::empty(), used: Set::empty() };
    let m = append_all(start, mounted, single, at as int, target, mounted.len());
    let r = mounted_remap(mounted, m.indices, m.ids, target, ordinals, single);
    let base = staged.len();
    lemma_append(start, mounted, single, at as int, target, mounted.len());
    assert(out == references_renamed(r, m.doc, mounted.len()));
    assert forall|i: usize| #[trigger] r.indices.dom().contains(i) implies r.indices[i] < m.doc.len() by {}
    lemma_renamed_len(r, m.doc, mounted.len());
    assert forall|k: int| 0 <= k < base implies #[trigger] out[k] == staged[k] by {
        lemma_renamed(r, m.doc, mounted.len(), k);
        assert(m.doc[k] == start.doc[k]);
    }
    assert forall|i: int| #![trigger mounted[i]] 0 <= i < mounted.len() implies is_appended(
        out,
        base,
        mounted,
        single,
        at as int,
        target,
        i,
    ) && out[base + i].properties == record_remapped(r, mounted[i].properties) && out[base + i].attributes
        == record_remapped(r, mounted[i].attributes) by {
        assert(is_appended(m.doc, base, mounted, single, at as int, target, i));
        lemma_appended_renamed(r, m.doc, base, mounted, single, at as int, target, i);
    }
    r
}

/// The parent that a merged instance stands under.
pub open spec fn merged_parent(
    indices: Map<usize, usize>,
    mounted: Seq<InstanceModel>,
    target_index: int,
    i: int,
) -> Option<usize> {
    match mounted[i].parent {
        Some(p) => if p < i {
            Some(indices[p])
        } else {
            Some(target_index as usize)
        },
        None => Some(target_index as usize),
    }
}

/// Where a mounted instance was merged.
pub open spec fn is_placed(
    doc: Seq<InstanceModel>,
    indices: Map<usize, usize>,
    mounted: Seq<InstanceModel>,
    single_root: bool,
    target_index: int,
    i: int,
) -> bool {
    let x = mounted[i];
    &&& indices.dom().contains(i as usize)
    &&& indices[i as usize] < doc.len()
    &&& if single_root && x.parent is None {
        indices[i as usize] == target_index
    } else {
        doc[indices[i as usize] as int].name == x.name && doc[indices[i as usize] as int].parent == merged_parent(
            indices,
            mounted,
            target_index,
            i,
        )
    }
}

/// An instance stands for one of the first `n` mounted ones.
pub open spec fn stands_for_some(indices: Map<usize, usize>, n: nat, q: int) -> bool {
    exists|j: usize| j < n && #[trigger] indices[j] == q
}

/// Everything that an instance declares stands in another.
pub open spec fn declares(y: InstanceModel, x: InstanceModel) -> bool {
    &&& y.class_name == x.class_name
    &&& forall|k: Seq<char>| #[trigger]
        x.properties.dom().contains(k) ==> y.properties.dom().contains(k) && y.properties[k] == x.properties[k]
    &&& forall|k: Seq<char>| #[trigger]
        x.attributes.dom().contains(k) ==> y.attributes.dom().contains(k) && y.attributes[k] == x.attributes[k]
}

/// What an instance had, it has, but for what another declares too.
pub open spec fn keeps_beside(y: InstanceModel, before: InstanceModel, x: InstanceModel) -> bool {
    &&& forall|k: Seq<char>| #[trigger]
        before.properties.dom().contains(k) ==> y.properties.dom().contains(k) && (!x.properties.dom().contains(k)
            ==> y.properties[k] == before.properties[k])
    &&& forall|k: Seq<char>| #[trigger]
        before.attributes.dom().contains(k) ==> y.attributes.dom().contains(k) && (!x.attributes.dom().contains(k)
            ==> y.attributes[k] == before.attributes[k])
}

#[verifier::rlimit(50)]
proof fn lemma_merge_one(
    m: MountModel,
    mounted: Seq<InstanceModel>,
    single_root: bool,
    target_index: int,
    target: Seq<char>,
    i: int,
)
    requires
        0 <= i < mounted.len(),
        mounted.len() <= usize::MAX,
        0 <= target_index < m.doc.len(),
        m.doc.len() < usize::MAX,
        forall|j: usize| #[trigger] m.indices.dom().contains(j) <==> j < i,
        forall|j: usize| #[trigger] m.indices.dom().contains(j) ==> m.indices[j] < m.doc.len(),
        merge_one(m, mounted, single_root, target_index, target, i) is Ok,
    ensures
        ({
            let f = merge_one(m, mounted, single_root, target_index, target, i)->Ok_0;
            let at = f.indices[i as usize] as int;
            &&& m.doc.len() <= f.doc.len() <= m.doc.len() + 1
            &&& f.indices == m.indices.insert(i as usize, at as usize)
            &&& is_placed(f.doc, f.indices, mounted, single_root, target_index, i)
            &&& declares(f.doc[at], mounted[i])
            &&& forall|q: int|
                0 <= q < m.doc.len() ==> (#[trigger] f.doc[q]).name == m.doc[q].name && f.doc[q].parent
                    == m.doc[q].parent && (q != at ==> f.doc[q] == m.doc[q])
            &&& at < m.doc.len() ==> keeps_beside(f.doc[at], m.doc[at], mounted[i])
            &&& at >= m.doc.len() ==> at == m.doc.len() && f.doc.len() == m.doc.len() + 1 && f.doc[at].properties
                == mounted[i].properties && f.doc[at].attributes == mounted[i].attributes
            &&& f.doc.len() > m.doc.len() ==> at == m.doc.len()
        }),
{
    let x = mounted[i];
    let f = merge_one(m, mounted, single_root, target_index, target, i)->Ok_0;
    if !(x.parent is None && single_root) {
        let parent = if x.parent is Some && m.indices.dom().contains(x.parent->0) {
            m.indices[x.parent->0] as int
        } else {
            target_index
        };
        let matches = named_children(m.doc, Some(parent as usize), x.name);
        if matches.len() == 1 {
            crate::document::lemma_named_under(m.doc, Some(parent as usize), x.name, m.doc.len(), 0);
        }
        let (doc, at) = child_place(m.doc, parent, x)->0;
        if at >= m.doc.len() {
            assert(f.doc[at].properties =~= x.properties);
            assert(f.doc[at].attributes =~= x.attributes);
        }
    }
}

#[verifier::rlimit(50)]
proof fn lemma_merge(
    m: MountModel,
    mounted: Seq<InstanceModel>,
    single_root: bool,
    target_index: int,
    target: Seq<char>,
    n: nat,
)
    requires
        n <= mounted.len(),
        m.doc.len() + mounted.len() < usize::MAX,
        0 <= target_index < m.doc.len(),
        m.indices == Map::<usize, usize>::empty(),
        merge_all(m, mounted, single_root, target_index, target, n) is Ok,
    ensures
        ({
            let f = merge_all(m, mounted, single_root, target_index, target, n)->Ok_0;
            &&& m.doc.len() <= f.doc.len() <= m.doc.len() + n
            &&& forall|j: usize| #[trigger] f.indices.dom().contains(j) <==> j < n
            &&& forall|j: usize| #[trigger] f.indices.dom().contains(j) ==> f.indices[j] < f.doc.len()
            &&& forall|i: int| #![trigger mounted[i]]
                0 <= i < n ==> is_placed(f.doc, f.indices, mounted, single_root, target_index, i)
            &&& forall|i: int| #![trigger mounted[i]]
                0 <= i < n && (forall|j: usize| i < j < n ==> #[trigger] f.indices[j] != f.indices[i as usize])
                    ==> declares(f.doc[f.indices[i as usize] as int], mounted[i])
            &&& forall|q: int|
                0 <= q < m.doc.len() ==> (#[trigger] f.doc[q]).name == m.doc[q].name && f.doc[q].parent
                    == m.doc[q].parent
            &&& forall|q: int|
                0 <= q < m.doc.len() && (forall|j: usize| j < n ==> #[trigger] f.indices[j] != q)
                    ==> #[trigger] f.doc[q] == m.doc[q]
            &&& forall|q: int, i: usize|
                0 <= q < m.doc.len() && i < n && f.indices[i] == q && (forall|j: usize|
                    j < n && j != i ==> #[trigger] f.indices[j] != q) ==> #[trigger] keeps_beside(
                    f.doc[q],
                    m.doc[q],
                    mounted[i as int],
                )
            &&& forall|q: int| m.doc.len() <= q < f.doc.len() ==> #[trigger] stands_for_some(f.indices, n, q)
        }),
    decreases n,
{
    if n > 0 {
        let p = (n - 1) as nat;
        lemma_merge(m, mounted, single_root, target_index, target, p);
        let b = merge_all(m, mounted, single_root, target_index, target, p)->Ok_0;
        lemma_merge_one(b, mounted, single_root, target_index, target, p as int);
        let f = merge_one(b, mounted, single_root, target_index, target, p as int)->Ok_0;
        let at = f.indices[p as usize] as int;
        assert forall|j: usize| j < p implies #[trigger] f.indices[j] == b.indices[j] by {
            assert(b.indices.dom().contains(j));
        }
        assert forall|i: int| #![trigger mounted[i]] 0 <= i < n implies is_placed(
            f.doc,
            f.indices,
            mounted,
            single_root,
            target_index,
            i,
        ) by {
            if i < p {
                assert(is_placed(b.doc, b.indices, mounted, single_root, target_index, i));
                assert(f.indices[i as usize] == b.indices[i as usize]);
                let q = b.indices[i as usize] as int;
                assert(f.doc[q].name == b.doc[q].name);
                match mounted[i].parent {
                    Some(par) => {
                        if par < i {
                            assert(f.indices[par] == b.indices[par]);
                        }
                    },
                    None => {},
                }
            }
        }
        assert forall|i: int| #![trigger mounted[i]]
            0 <= i < n && (forall|j: usize| i < j < n ==> #[trigger] f.indices[j] != f.indices[i as usize]) implies declares(
            f.doc[f.indices[i as usize] as int],
            mounted[i],
        ) by {
            if i < p {
                assert(f.indices[i as usize] == b.indices[i as usize]);
                assert(f.indices[p as usize] != f.indices[i as usize]);
                assert forall|j: usize| i < j < p implies #[trigger] b.indices[j] != b.indices[i as usize] by {
                    assert(f.indices[j] == b.indices[j]);
                }
                assert(b.indices.dom().contains(i as usize));
            }
        }
        assert forall|q: int|
            0 <= q < m.doc.len() && (forall|j: usize| j < n ==> #[trigger] f.indices[j] != q) implies #[trigger] f.doc[q]
            == m.doc[q] by {
            assert(f.indices[p as usize] != q);
            assert forall|j: usize| j < p implies #[trigger] b.indices[j] != q by {
                assert(f.indices[j] == b.indices[j]);
            }
            assert(b.doc[q] == m.doc[q]);
        }
        assert forall|q: int, i: usize|
            0 <= q < m.doc.len() && i < n && f.indices[i] == q && (forall|j: usize|
                j < n && j != i ==> #[trigger] f.indices[j] != q) implies #[trigger] keeps_beside(
            f.doc[q],
            m.doc[q],
            mounted[i as int],
        ) by {
            if i < p {
                assert(f.indices[p as usize] != q);
                assert forall|j: usize| j < p && j != i implies #[trigger] b.indices[j] != q by {
                    assert(f.indices[j] == b.indices[j]);
                }
                assert(f.indices[i] == b.indices[i]);
                assert(keeps_beside(b.doc[q], m.doc[q], mounted[i as int]));
                assert(f.doc[q] == b.doc[q]);
            } else {
                assert forall|j: usize| j < p implies #[trigger] b.indices[j] != q by {
                    assert(f.indices[j] == b.indices[j]);
                }
                assert(b.doc[q] == m.doc[q]);
            }
        }
        assert forall|q: int| m.doc.len() <= q < f.doc.len() implies #[trigger] stands_for_some(f.indices, n, q) by {
            if q < b.doc.len() {
                assert(stands_for_some(b.indices, p, q));
                let j = choose|j: usize| j < p && #[trigger] b.indices[j] == q;
                assert(f.indices[j] == q);
            } else {
                assert(f.indices[p as usize] == q);
            }
        }
    }
}

/// A merged document stands at its target: its root is the instance there, the others are found by
/// their names under what was made of their parents, or are made there. What was there keeps its
/// name and its parent, and what no merged instance stands for stays as it was. Each merged
/// instance has the class that the document gives it, and what it declares.
pub proof fn law_merged_document_stands_at_its_target(
    start: MountModel,
    mounted: Seq<InstanceModel>,
    single_root: bool,
    target_index: int,
    target: Seq<char>,
)
    requires
        start.doc.len() + mounted.len() < usize::MAX,
        0 <= target_index < start.doc.len(),
        start.indices == Map::<usize, usize>::empty(),
        merge_all(start, mounted, single_root, target_index, target, mounted.len()) is Ok,
    ensures
        ({
            let f = merge_all(start, mounted, single_root, target_index, target, mounted.len())->Ok_0;
            &&& forall|i: int| #![trigger mounted[i]]
                0 <= i < mounted.len() ==> is_placed(f.doc, f.indices, mounted, single_root, target_index, i)
            &&& forall|i: int| #![trigger mounted[i]]
                0 <= i < mounted.len() && (forall|j: usize|
                    i < j < mounted.len() ==> #[trigger] f.indices[j] != f.indices[i as usize]) ==> declares(
                    f.doc[f.indices[i as usize] as int],
                    mounted[i],
                )
            &&& forall|q: int|
                0 <= q < start.doc.len() ==> (#[trigger] f.doc[q]).name == start.doc[q].name && f.doc[q].parent
                    == start.doc[q].parent
            &&& forall|q: int|
                0 <= q < start.doc.len() && (forall|j: usize| j < mounted.len() ==> #[trigger] f.indices[j] != q)
                    ==> #[trigger] f.doc[q] == start.doc[q]
            &&& forall|q: int, i: usize|
                0 <= q < start.doc.len() && i < mounted.len() && f.indices[i] == q && (forall|j: usize|
                    j < mounted.len() && j != i ==> #[trigger] f.indices[j] != q) ==> #[trigger] keeps_beside(
                    f.doc[q],
                    start.doc[q],
                    mounted[i as int],
                )
            &&& forall|q: int|
                start.doc.len() <= q < f.doc.len() ==> #[trigger] stands_for_some(f.indices, mounted.len(), q)
        }),
{
    lemma_merge(start, mounted, single_root, target_index, target, mounted.len());
}

} // verus!
