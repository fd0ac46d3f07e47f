//! Changes to the documents of a projection: taking up generated instances, settling an imported model
//! and clearing a target.
use vstd::prelude::*;

use crate::digest::{projection_settings_id, settings_id_for};
use crate::document::{below, lemma_models_push, lemma_models_update, models, same_parent, Instance, InstanceModel, SettingsDocument};
use crate::structure::{find_id, with_id};
use crate::text::{decimal, join_texts, joined, joined_by, holds_text, same, texts, to_decimal};

verus! {

broadcast use vstd::seq_lib::group_seq_properties;

/// The last of the first `n` instances below a parent whose files go by a key.
pub open spec fn last_with_key(doc: Seq<InstanceModel>, keys: Seq<Seq<char>>, parent: Option<usize>, key: Seq<char>, n: nat) -> Option<
    usize,
>
    decreases n,
{
    if n == 0 {
        None
    } else if doc[n - 1].parent == parent && keys[n - 1] == key {
        Some((n - 1) as usize)
    } else {
        last_with_key(doc, keys, parent, key, (n - 1) as nat)
    }
}

/// A document that takes up generated instances, with the keys that its files go by and the places that
/// the generated instances got.
#[verifier::ext_equal]
pub struct MergeModel {
    pub doc: Seq<InstanceModel>,
    pub keys: Seq<Seq<char>>,
    pub places: Seq<usize>,
}

pub open spec fn has_id(doc: Seq<InstanceModel>, id: Seq<char>) -> bool {
    exists|i: int| 0 <= i < doc.len() && (#[trigger] doc[i]).id == id
}

/// The parent that a generated instance gets.
pub open spec fn new_parent(parent: Option<usize>, places: Seq<usize>) -> Option<usize> {
    match parent {
        Some(p) => if p < places.len() {
            Some(places[p as int])
        } else {
            None
        },
        None => None,
    }
}

/// The id of a generated instance that is appended.
pub open spec fn appended_id(doc: Seq<InstanceModel>, id: Seq<char>, index: nat) -> Seq<char> {
    if has_id(doc, id) {
        settings_id_for("source"@, id + ":"@ + decimal(index))
    } else {
        id
    }
}

/// The document after the first `n` generated instances: one that is there stays, others are appended.
pub open spec fn sources_taken(
    start: MergeModel,
    generated: Seq<InstanceModel>,
    root_keys: Seq<Seq<char>>,
    child_keys: Seq<Seq<char>>,
    n: nat,
) -> MergeModel
    decreases n,
{
    if n == 0 {
        start
    } else {
        let m = sources_taken(start, generated, root_keys, child_keys, (n - 1) as nat);
        let x = generated[n - 1];
        let parent = new_parent(x.parent, m.places);
        let key = if parent is None {
            root_keys[n - 1]
        } else {
            child_keys[n - 1]
        };
        match last_with_key(m.doc, m.keys, parent, key, m.doc.len()) {
            Some(i) => MergeModel { places: m.places.push(i), ..m },
            None => MergeModel {
                doc: m.doc.push(InstanceModel { id: appended_id(m.doc, x.id, (n - 1) as nat), parent, ..x }),
                keys: m.keys.push(key),
                places: m.places.push(m.doc.len() as usize),
            },
        }
    }
}

fn find_key(doc: &SettingsDocument, keys: &Vec<String>, parent: Option<usize>, key: &str) -> (r: Option<usize>)
    requires
        doc@.len() == keys@.len(),
    ensures
        r == last_with_key(doc@, texts(keys@), parent, key@, doc@.len()),
{
    let ghost all = texts(keys@);
    let mut i: usize = doc.instances.len();
    while i > 0
        invariant
            i <= doc.instances.len(),
            doc@.len() == keys@.len(),
            all == texts(keys@),
            last_with_key(doc@, all, parent, key@, doc@.len()) == last_with_key(doc@, all, parent, key@, i as nat),
        decreases i,
    {
        i -= 1;
        assert(doc@[i as int] == doc.instances@[i as int]@);
        assert(all[i as int] == keys@[i as int]@);
        if same_parent(doc.instances[i].parent_index, parent) && same(&keys[i], key) {
            return Some(i);
        }
    }
    None
}

proof fn lemma_with_id(doc: Seq<InstanceModel>, id: Seq<char>, i: int)
    requires
        0 <= i <= doc.len(),
    ensures
        with_id(doc, id, i) is Some <==> exists|k: int| i <= k < doc.len() && (#[trigger] doc[k]).id == id,
    decreases doc.len() - i,
{
    if i < doc.len() {
        lemma_with_id(doc, id, i + 1);
    }
}

fn holds_id(doc: &SettingsDocument, id: &str) -> (r: bool)
    ensures
        r == has_id(doc@, id@),
{
    proof {
        lemma_with_id(doc@, id@, 0);
    }
    find_id(doc, id).is_some()
}

/// Takes generated instances up into a document. The keys that its files go by are given, and for each
/// generated instance the key that it would go by at the top and the one below another.
pub fn merge_source_only_document(
    doc: &mut SettingsDocument,
    keys: &Vec<String>,
    generated: &SettingsDocument,
    root_keys: &Vec<String>,
    child_keys: &Vec<String>,
)
    requires
        old(doc)@.len() == keys@.len(),
        generated@.len() == root_keys@.len(),
        generated@.len() == child_keys@.len(),
    ensures
        final(doc)@ == if old(doc)@.len() == 0 {
            generated@
        } else {
            sources_taken(
                MergeModel { doc: old(doc)@, keys: texts(keys@), places: Seq::empty() },
                generated@,
                texts(root_keys@),
                texts(child_keys@),
                generated@.len(),
            ).doc
        },
{
    if doc.instances.len() == 0 {
        doc.instances = crate::document::copy_instances(&generated.instances);
        return;
    }
    let ghost start = MergeModel { doc: doc@, keys: texts(keys@), places: Seq::empty() };
    let ghost given = generated@;
    let ghost tops = texts(root_keys@);
    let ghost belows = texts(child_keys@);
    let mut names = crate::text::clone_texts(keys);
    let mut places: Vec<usize> = Vec::new();
    let mut n: usize = 0;
    assert(texts(names@).len() == names@.len());
    assert(texts(keys@).len() == keys@.len());
    while n < generated.instances.len()
        invariant
            n <= generated.instances.len(),
            n == places@.len(),
            given == generated@,
            tops == texts(root_keys@),
            belows == texts(child_keys@),
            given.len() == root_keys@.len(),
            given.len() == child_keys@.len(),
            doc@.len() == names@.len(),
            sources_taken(start, given, tops, belows, n as nat) == (MergeModel {
                doc: doc@,
                keys: texts(names@),
                places: places@,
            }),
        decreases generated.instances.len() - n,
    {
        let x = &generated.instances[n];
        assert(given[n as int] == x@);
        assert(tops[n as int] == root_keys@[n as int]@);
        assert(belows[n as int] == child_keys@[n as int]@);
        let parent = match x.parent_index {
            Some(p) => if p < places.len() {
                Some(places[p])
            } else {
                None
            },
            None => None,
        };
        let key = if parent.is_none() {
            root_keys[n].clone()
        } else {
            child_keys[n].clone()
        };
        match find_key(doc, &names, parent, &key) {
            Some(i) => {
                places.push(i);
            },
            None => {
                let id = if holds_id(doc, &x.settings_id) {
                    let opened = joined(&x.settings_id, ":");
                    projection_settings_id("source", &joined(&opened, &to_decimal(n as u128)))
                } else {
                    x.settings_id.clone()
                };
                let mut fresh = x.copy();
                fresh.settings_id = id;
                fresh.parent_index = parent;
                let at: usize = doc.instances.len();
                proof {
                    assert(fresh@ =~= (InstanceModel { id: appended_id(doc@, x@.id, n as nat), parent, ..x@ }));
                    lemma_models_push(doc.instances@, fresh);
                    crate::text::lemma_texts_push(names@, key);
                }
                doc.instances.push(fresh);
                names.push(key);
                places.push(at);
            },
        }
        n += 1;
    }
}

/// Instances that were there before generated ones were taken up stay as they were.
pub proof fn law_taking_up_keeps_instances(
    start: MergeModel,
    generated: Seq<InstanceModel>,
    root_keys: Seq<Seq<char>>,
    child_keys: Seq<Seq<char>>,
    n: nat,
)
    requires
        n <= generated.len(),
    ensures
        start.doc.is_prefix_of(sources_taken(start, generated, root_keys, child_keys, n).doc),
    decreases n,
{
    let doc = start.doc;
    if n == 0 {
        assert(doc =~= doc.subrange(0, doc.len() as int));
    } else {
        law_taking_up_keeps_instances(start, generated, root_keys, child_keys, (n - 1) as nat);
        let before = sources_taken(start, generated, root_keys, child_keys, (n - 1) as nat).doc;
        let after = sources_taken(start, generated, root_keys, child_keys, n).doc;
        assert(doc =~= before.subrange(0, doc.len() as int));
        assert(doc =~= after.subrange(0, doc.len() as int));
    }
}

/// The id of a folder for a model of several instances: the `k`th that is tried.
pub open spec fn container_id(target: Seq<Seq<char>>, k: nat) -> Seq<char> {
    let base = joined_by(target, "."@);
    if k == 0 {
        settings_id_for("model-container"@, base)
    } else {
        settings_id_for("model-container"@, base + ":"@ + decimal(k + 1))
    }
}

/// The first of the ids that are tried, from the `k`th to before the `n`th, that is free.
pub open spec fn free_container_id(doc: Seq<InstanceModel>, target: Seq<Seq<char>>, k: nat, n: nat) -> Option<Seq<char>>
    decreases n - k,
{
    if k >= n {
        None
    } else if has_id(doc, container_id(target, k)) {
        free_container_id(doc, target, k + 1, n)
    } else {
        Some(container_id(target, k))
    }
}

/// The instances, with those of some ids below another.
pub open spec fn reparented(doc: Seq<InstanceModel>, ids: Seq<Seq<char>>, parent: usize) -> Seq<InstanceModel> {
    Seq::new(
        doc.len(),
        |i: int|
            if ids.contains(doc[i].id) {
                InstanceModel { parent: Some(parent), ..doc[i] }
            } else {
                doc[i]
            },
    )
}

/// A document into which a model was imported, with the model at a target: a single instance gets the
/// target's name, and several get a folder of that name.
pub open spec fn model_settled(doc: Seq<InstanceModel>, target: Seq<Seq<char>>, parent: usize, ids: Seq<Seq<char>>) -> Option<
    Seq<InstanceModel>,
> {
    if ids.len() == 1 {
        match with_id(doc, ids[0], 0) {
            Some(i) => Some(doc.update(i, InstanceModel { name: target.last(), ..doc[i] })),
            None => Some(doc),
        }
    } else if ids.len() == 0 {
        Some(doc)
    } else {
        match free_container_id(doc, target, 0, doc.len() + 1) {
            None => None,
            Some(id) => Some(
                reparented(doc, ids, doc.len() as usize).push(
                    InstanceModel {
                        id,
                        name: target.last(),
                        class_name: "Folder"@,
                        parent: Some(parent),
                        properties: Map::empty(),
                        attributes: Map::empty(),
                    },
                ),
            ),
        }
    }
}

fn find_free_id(doc: &SettingsDocument, target: &Vec<String>) -> (r: Option<String>)
    requires
        doc@.len() < usize::MAX,
    ensures
        match r {
            Some(id) => free_container_id(doc@, texts(target@), 0, doc@.len() + 1) == Some(id@),
            None => free_container_id(doc@, texts(target@), 0, doc@.len() + 1) is None,
        },
{
    let base = join_texts(target, ".");
    let count: usize = doc.instances.len() + 1;
    let mut k: usize = 0;
    while k < count
        invariant
            k <= count,
            count == doc@.len() + 1,
            base@ == joined_by(texts(target@), "."@),
            free_container_id(doc@, texts(target@), 0, doc@.len() + 1) == free_container_id(
                doc@,
                texts(target@),
                k as nat,
                doc@.len() + 1,
            ),
        decreases count - k,
    {
        let id = if k == 0 {
            projection_settings_id("model-container", &base)
        } else {
            let opened = joined(&base, ":");
            projection_settings_id("model-container", &joined(&opened, &to_decimal(k as u128 + 1)))
        };
        assert(id@ == container_id(texts(target@), k as nat));
        if !holds_id(doc, &id) {
            return Some(id);
        }
        k += 1;
    }
    None
}

/// Puts an imported model at a target: a single instance gets the target's name, and several get a
/// folder of that name. Whether an id for the folder was found.
pub fn settle_imported_model(doc: &mut SettingsDocument, target: &Vec<String>, parent: usize, ids: &Vec<String>) -> (r: bool)
    requires
        target@.len() > 0,
        old(doc)@.len() < usize::MAX,
    ensures
        match model_settled(old(doc)@, texts(target@), parent, texts(ids@)) {
            Some(after) => r && final(doc)@ == after,
            None => !r && final(doc)@ == old(doc)@,
        },
{
    let ghost start = doc@;
    let ghost wanted = texts(ids@);
    assert(wanted.len() == ids@.len());
    assert(texts(target@).len() == target@.len());
    let name = target[target.len() - 1].clone();
    assert(texts(target@).last() == name@);
    if ids.len() == 1 {
        assert(wanted[0] == ids@[0]@);
        match find_id(doc, &ids[0]) {
            Some(i) => {
                assert(doc@[i as int] == doc.instances@[i as int]@);
                let mut x = doc.instances[i].copy();
                x.name = name;
                proof {
                    lemma_models_update(doc.instances@, i as int, x);
                    assert(x@ =~= (InstanceModel { name: texts(target@).last(), ..start[i as int] }));
                }
                doc.instances.set(i, x);
            },
            None => {},
        }
        return true;
    }
    if ids.len() == 0 {
        return true;
    }
    let id = match find_free_id(doc, target) {
        Some(id) => id,
        None => {
            return false;
        },
    };
    let count: usize = doc.instances.len();
    let ghost moved = reparented(start, wanted, count);
    let mut i: usize = 0;
    while i < count
        invariant
            i <= count,
            count == doc.instances@.len(),
            count == start.len(),
            wanted == texts(ids@),
            moved == reparented(start, wanted, count),
            forall|k: int| 0 <= k < i ==> #[trigger] doc@[k] == moved[k],
            forall|k: int| i <= k < count ==> #[trigger] doc@[k] == start[k],
        decreases count - i,
    {
        assert(doc@[i as int] == doc.instances@[i as int]@);
        if holds_text(ids, &doc.instances[i].settings_id) {
            let ghost before = doc@;
            let mut x = doc.instances[i].copy();
            x.parent_index = Some(count);
            proof {
                lemma_models_update(doc.instances@, i as int, x);
                assert(x@ =~= moved[i as int]);
            }
            doc.instances.set(i, x);
            assert(doc@ =~= before.update(i as int, x@));
        }
        i += 1;
    }
    assert(doc@ =~= moved);
    let container = Instance::new(id, name, "Folder".to_owned(), Some(parent));
    proof {
        lemma_models_push(doc.instances@, container);
    }
    doc.instances.push(container);
    true
}

/// An instance that goes when a target is cleared: one below it.
pub open spec fn is_cleared(doc: Seq<InstanceModel>, target: int, i: int) -> bool {
    i != target && below(doc, target, i, doc.len())
}

fn lies_below(doc: &SettingsDocument, target: usize, i: usize, levels: usize) -> (r: bool)
    ensures
        r == below(doc@, target as int, i as int, levels as nat),
    decreases levels,
{
    if i >= doc.instances.len() || levels == 0 {
        return false;
    }
    assert(doc@[i as int] == doc.instances@[i as int]@);
    if i == target {
        return true;
    }
    match doc.instances[i].parent_index {
        Some(p) => lies_below(doc, target, p, levels - 1),
        None => false,
    }
}

/// Which of the first `n` instances stay when a target is cleared.
pub open spec fn staying(doc: Seq<InstanceModel>, target: int, n: nat) -> Seq<usize>
    decreases n,
{
    if n == 0 {
        Seq::empty()
    } else {
        let before = staying(doc, target, (n - 1) as nat);
        if is_cleared(doc, target, n - 1) {
            before
        } else {
            before.push((n - 1) as usize)
        }
    }
}

/// The last of the first `n` places of a list whose instance has an id.
pub open spec fn last_place(doc: Seq<InstanceModel>, places: Seq<usize>, id: Seq<char>, n: nat) -> Option<usize>
    decreases n,
{
    if n == 0 {
        None
    } else if doc[places[n - 1] as int].id == id {
        Some((n - 1) as usize)
    } else {
        last_place(doc, places, id, (n - 1) as nat)
    }
}

/// The parent that an instance that stays gets: the one with its parent's id.
pub open spec fn kept_parent(doc: Seq<InstanceModel>, places: Seq<usize>, x: InstanceModel) -> Option<usize> {
    match x.parent {
        Some(p) => if p < doc.len() {
            last_place(doc, places, doc[p as int].id, places.len())
        } else {
            None
        },
        None => None,
    }
}

/// A document without what is below a target.
pub open spec fn cleared(doc: Seq<InstanceModel>, target: int) -> Seq<InstanceModel> {
    let places = staying(doc, target, doc.len());
    Seq::new(
        places.len(),
        |k: int|
            InstanceModel { parent: kept_parent(doc, places, doc[places[k] as int]), ..doc[places[k] as int] },
    )
}

fn find_place(doc: &SettingsDocument, places: &Vec<usize>, id: &str) -> (r: Option<usize>)
    requires
        forall|k: int| 0 <= k < places@.len() ==> #[trigger] places@[k] < doc@.len(),
    ensures
        r == last_place(doc@, places@, id@, places@.len()),
{
    let mut i: usize = places.len();
    while i > 0
        invariant
            i <= places.len(),
            forall|k: int| 0 <= k < places@.len() ==> #[trigger] places@[k] < doc@.len(),
            last_place(doc@, places@, id@, places@.len()) == last_place(doc@, places@, id@, i as nat),
        decreases i,
    {
        i -= 1;
        let at = places[i];
        assert(places@[i as int] < doc@.len());
        assert(doc@[at as int] == doc.instances@[at as int]@);
        if same(&doc.instances[at].settings_id, id) {
            return Some(i);
        }
    }
    None
}

/// Makes a document without what is below a target. References by index have to be made anew.
pub fn clear_target_children(doc: &SettingsDocument, target: usize) -> (r: SettingsDocument)
    ensures
        r@ == cleared(doc@, target as int),
{
    let count: usize = doc.instances.len();
    let mut places: Vec<usize> = Vec::new();
    let mut i: usize = 0;
    while i < count
        invariant
            i <= count,
            count == doc@.len(),
            places@ == staying(doc@, target as int, i as nat),
            forall|k: int| 0 <= k < places@.len() ==> #[trigger] places@[k] < i,
        decreases count - i,
    {
        if !(i != target && lies_below(doc, target, i, count)) {
            places.push(i);
        }
        i += 1;
    }
    let ghost wanted = cleared(doc@, target as int);
    let mut out: Vec<Instance> = Vec::new();
    let mut k: usize = 0;
    assert(models(out@) =~= wanted.take(0));
    while k < places.len()
        invariant
            k <= places.len(),
            places@ == staying(doc@, target as int, doc@.len()),
            forall|j: int| 0 <= j < places@.len() ==> #[trigger] places@[j] < doc@.len(),
            wanted == cleared(doc@, target as int),
            models(out@) == wanted.take(k as int),
        decreases places.len() - k,
    {
        let at = places[k];
        assert(places@[k as int] < doc@.len());
        assert(doc@[at as int] == doc.instances@[at as int]@);
        let mut x = doc.instances[at].copy();
        x.parent_index = match doc.instances[at].parent_index {
            Some(p) => if p < doc.instances.len() {
                assert(doc@[p as int] == doc.instances@[p as int]@);
                find_place(doc, &places, &doc.instances[p].settings_id)
            } else {
                None
            },
            None => None,
        };
        proof {
            assert(x@ =~= wanted[k as int]);
            lemma_models_push(out@, x);
            assert(wanted.take(k + 1) =~= wanted.take(k as int).push(x@));
        }
        out.push(x);
        k += 1;
    }
    assert(wanted.take(k as int) =~= wanted);
    SettingsDocument { instances: out }
}

/// What stays when a target is cleared keeps its place in the order and its fields.
pub proof fn law_clearing_keeps_the_rest(doc: Seq<InstanceModel>, target: int, i: int, n: nat)
    requires
        0 <= i < n <= doc.len() <= usize::MAX,
        !is_cleared(doc, target, i),
    ensures
        staying(doc, target, n).contains(i as usize),
    decreases n,
{
    let before = staying(doc, target, (n - 1) as nat);
    if i < n - 1 {
        law_clearing_keeps_the_rest(doc, target, i, (n - 1) as nat);
        let k = choose|k: int| 0 <= k < before.len() && before[k] == i as usize;
        assert(staying(doc, target, n)[k] == i as usize);
    } else {
        assert(before.push(i as usize)[before.len() as int] == i as usize);
    }
}

} // verus!
