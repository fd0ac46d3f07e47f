//! Taking instances out of a document, and saving a subtree of it as a document of its own.
use vstd::prelude::*;

use crate::document::{
    as_ints, collect_settings_subtree_preorder, instance_path_parts, lemma_models_push, lemma_models_update,
    lemma_preorder_in_range, models, path_names, path_ordinals, subtree, Instance, InstanceModel, SettingsDocument,
};
use crate::json::{
    elements, entries, entry_before, find_key, get, is_entry, lemma_entry, lemma_entry_before_step, lemma_entry_of, put,
    remove_key, Json, JsonModel, Member, Number,
};
use crate::references::{
    index_field, index_of, is_reference, is_reference_object, lemma_element, number_model, ordinals_field, ordinals_of,
    path_field, path_of, text_field, text_of, ReferenceError,
};
use crate::table::Table;
use crate::text::{decimal, joined, same, same_numbers, same_texts, texts, to_decimal};

verus! {

broadcast use vstd::seq_lib::group_seq_properties;

/// How many of the first `n` instances stay.
pub open spec fn staying(removed: Seq<bool>, n: nat) -> nat
    decreases n,
{
    if n == 0 {
        0
    } else if removed[n - 1] {
        staying(removed, (n - 1) as nat)
    } else {
        staying(removed, (n - 1) as nat) + 1
    }
}

/// The parent of an instance that stays: where its parent stands afterwards, or none where that goes.
pub open spec fn parent_after(removed: Seq<bool>, parent: Option<usize>) -> Option<usize> {
    match parent {
        Some(p) => if p < removed.len() && !removed[p as int] {
            Some(staying(removed, p as nat) as usize)
        } else {
            None
        },
        None => None,
    }
}

/// The first `n` instances of a document without those that go.
pub open spec fn without(doc: Seq<InstanceModel>, removed: Seq<bool>, n: nat) -> Seq<InstanceModel>
    decreases n,
{
    if n == 0 {
        Seq::empty()
    } else if removed[n - 1] {
        without(doc, removed, (n - 1) as nat)
    } else {
        without(doc, removed, (n - 1) as nat).push(
            InstanceModel { parent: parent_after(removed, doc[n - 1].parent), ..doc[n - 1] },
        )
    }
}

proof fn lemma_staying(removed: Seq<bool>, n: nat)
    ensures
        staying(removed, n) <= n,
    decreases n,
{
    if n > 0 {
        lemma_staying(removed, (n - 1) as nat);
    }
}

proof fn lemma_without_at(doc: Seq<InstanceModel>, removed: Seq<bool>, n: nat, i: int)
    requires
        n <= doc.len(),
        doc.len() == removed.len(),
        0 <= i < n,
        !removed[i],
    ensures
        without(doc, removed, n).len() == staying(removed, n),
        staying(removed, i as nat) < staying(removed, n),
        without(doc, removed, n)[staying(removed, i as nat) as int] == (InstanceModel {
            parent: parent_after(removed, doc[i].parent),
            ..doc[i]
        }),
    decreases n,
{
    lemma_without_len(doc, removed, n);
    lemma_without_len(doc, removed, (n - 1) as nat);
    if i < n - 1 {
        lemma_without_at(doc, removed, (n - 1) as nat, i);
    }
}

proof fn lemma_without_len(doc: Seq<InstanceModel>, removed: Seq<bool>, n: nat)
    ensures
        without(doc, removed, n).len() == staying(removed, n),
    decreases n,
{
    if n > 0 {
        lemma_without_len(doc, removed, (n - 1) as nat);
    }
}

/// An instance that stays with its parent is still its child, and keeps its name, class, id and fields.
pub proof fn law_removal_keeps_the_rest(doc: Seq<InstanceModel>, removed: Seq<bool>, i: int)
    requires
        doc.len() == removed.len(),
        doc.len() <= usize::MAX,
        0 <= i < doc.len(),
        !removed[i],
        doc[i].parent is Some,
        doc[i].parent->0 < doc.len(),
        !removed[doc[i].parent->0 as int],
    ensures
        ({
            let after = without(doc, removed, doc.len());
            let at = staying(removed, i as nat) as int;
            let parent_at = staying(removed, doc[i].parent->0 as nat) as int;
            &&& 0 <= at < after.len()
            &&& 0 <= parent_at < after.len()
            &&& after[at].parent == Some(parent_at as usize)
            &&& after[at].id == doc[i].id
            &&& after[at].name == doc[i].name
            &&& after[at].class_name == doc[i].class_name
            &&& after[at].properties == doc[i].properties
            &&& after[at].attributes == doc[i].attributes
            &&& after[parent_at].id == doc[doc[i].parent->0 as int].id
        }),
{
    lemma_without_at(doc, removed, doc.len(), i);
    lemma_without_at(doc, removed, doc.len(), doc[i].parent->0 as int);
}

/// Takes instances out of a document. Parents that stay are found again where they stand afterwards.
pub fn remove_marked(doc: &mut SettingsDocument, removed: &Vec<bool>)
    requires
        removed@.len() == old(doc)@.len(),
    ensures
        final(doc)@ == without(old(doc)@, removed@, old(doc)@.len()),
{
    let ghost start = doc@;
    let mut places: Vec<usize> = Vec::new();
    let mut count: usize = 0;
    let mut i: usize = 0;
    while i < removed.len()
        invariant
            i <= removed.len(),
            places@.len() == i,
            count == staying(removed@, i as nat),
            count <= i,
            forall|j: int| 0 <= j < i ==> #[trigger] places@[j] == staying(removed@, j as nat),
        decreases removed.len() - i,
    {
        places.push(count);
        if !removed[i] {
            count += 1;
        }
        i += 1;
    }
    let mut out: Vec<Instance> = Vec::new();
    let mut k: usize = 0;
    assert(models(out@) =~= without(start, removed@, 0));
    while k < doc.instances.len()
        invariant
            k <= doc.instances.len(),
            start == doc@,
            start == old(doc)@,
            removed@.len() == start.len(),
            places@.len() == removed@.len(),
            forall|j: int| 0 <= j < places@.len() ==> #[trigger] places@[j] == staying(removed@, j as nat),
            models(out@) == without(start, removed@, k as nat),
        decreases doc.instances.len() - k,
    {
        assert(doc@[k as int] == doc.instances@[k as int]@);
        if !removed[k] {
            let mut x = doc.instances[k].copy();
            x.parent_index = match x.parent_index {
                Some(p) => {
                    if p < removed.len() && !removed[p] {
                        Some(places[p])
                    } else {
                        None
                    }
                },
                None => None,
            };
            proof {
                lemma_models_push(out@, x);
            }
            out.push(x);
        }
        k += 1;
    }
    doc.instances = out;
}

/// The instances whose indices are in a list.
pub open spec fn marked(at: Seq<int>, len: nat) -> Seq<bool> {
    Seq::new(len, |i: int| at.contains(i))
}

fn mark(at: &Vec<usize>, len: usize) -> (r: Vec<bool>)
    ensures
        r@ == marked(as_ints(at@), len as nat),
{
    let mut out: Vec<bool> = Vec::new();
    let mut i: usize = 0;
    while i < len
        invariant
            i <= len,
            out@.len() == i,
            forall|j: int| 0 <= j < i ==> #[trigger] out@[j] == as_ints(at@).contains(j),
        decreases len - i,
    {
        let mut hit = false;
        let mut k: usize = 0;
        while k < at.len()
            invariant
                k <= at.len(),
                hit == (exists|j: int| 0 <= j < k && #[trigger] as_ints(at@)[j] == i),
            decreases at.len() - k,
        {
            assert(as_ints(at@)[k as int] == at@[k as int]);
            if at[k] == i {
                hit = true;
            }
            k += 1;
        }
        assert(hit == as_ints(at@).contains(i as int)) by {
            if as_ints(at@).contains(i as int) {
                let j = choose|j: int| 0 <= j < as_ints(at@).len() && as_ints(at@)[j] == i;
                assert(0 <= j < k && as_ints(at@)[j] == i);
            }
        }
        out.push(hit);
        i += 1;
    }
    assert(out@ =~= marked(as_ints(at@), len as nat));
    out
}

/// The document without an instance and all below it.
pub open spec fn without_subtree(doc: Seq<InstanceModel>, root: int) -> Seq<InstanceModel> {
    without(doc, marked(subtree(doc, root), doc.len()), doc.len())
}

/// The document without anything below an instance.
pub open spec fn without_descendants(doc: Seq<InstanceModel>, root: int) -> Seq<InstanceModel> {
    without(doc, marked(subtree(doc, root).skip(1), doc.len()), doc.len())
}

/// Takes an instance out of a document, with all below it. The answer is the indices that went.
pub fn remove_instance(doc: &mut SettingsDocument, root: usize) -> (r: Vec<usize>)
    requires
        root < old(doc)@.len(),
    ensures
        final(doc)@ == without_subtree(old(doc)@, root as int),
        as_ints(r@) == subtree(old(doc)@, root as int),
{
    let at = collect_settings_subtree_preorder(doc, root);
    let removed = mark(&at, doc.instances.len());
    remove_marked(doc, &removed);
    at
}

/// Takes everything below an instance out of a document.
pub fn clear_children(doc: &mut SettingsDocument, root: usize)
    requires
        root < old(doc)@.len(),
    ensures
        final(doc)@ == without_descendants(old(doc)@, root as int),
{
    let mut at = collect_settings_subtree_preorder(doc, root);
    assert(subtree(doc@, root as int).len() > 0);
    assert(as_ints(at@).len() == at@.len());
    let rest = at.split_off(1);
    assert(as_ints(rest@) =~= subtree(doc@, root as int).skip(1));
    let removed = mark(&rest, doc.instances.len());
    remove_marked(doc, &removed);
}

/// The classes whose instances hold source code.
pub open spec fn is_script_class(class_name: Seq<char>) -> bool {
    class_name == "Script"@ || class_name == "LocalScript"@ || class_name == "ModuleScript"@
}

pub fn is_lua_source_class(class_name: &str) -> (r: bool)
    ensures
        r == is_script_class(class_name@),
{
    same(class_name, "Script") || same(class_name, "LocalScript") || same(class_name, "ModuleScript")
}

/// What stands in a script's source where the source is a file of its own.
pub open spec fn external_source() -> Seq<char> {
    "__SOURCE_EXTERNAL__"@
}

/// The document with the sources of some scripts in files of their own: those at the first `n` indices that
/// have a file.
pub open spec fn externalized(doc: Seq<InstanceModel>, at: Seq<int>, has_file: Seq<bool>, n: nat) -> Seq<InstanceModel>
    decreases n,
{
    if n == 0 {
        doc
    } else {
        let before = externalized(doc, at, has_file, (n - 1) as nat);
        let i = at[n - 1];
        if 0 <= i < doc.len() && is_script_class(doc[i].class_name) && 0 <= i < has_file.len() && has_file[i] {
            before.update(
                i,
                InstanceModel {
                    properties: before[i].properties.insert("Source"@, JsonModel::Text(external_source())),
                    ..before[i]
                },
            )
        } else {
            before
        }
    }
}

proof fn lemma_externalized(doc: Seq<InstanceModel>, at: Seq<int>, has_file: Seq<bool>, n: nat)
    ensures
        externalized(doc, at, has_file, n).len() == doc.len(),
        forall|i: int|
            0 <= i < doc.len() ==> (#[trigger] externalized(doc, at, has_file, n)[i]).class_name == doc[i].class_name,
    decreases n,
{
    if n > 0 {
        lemma_externalized(doc, at, has_file, (n - 1) as nat);
        let before = externalized(doc, at, has_file, (n - 1) as nat);
        assert forall|i: int| 0 <= i < doc.len() implies (#[trigger] externalized(doc, at, has_file, n)[i]).class_name
            == doc[i].class_name by {
            assert(before[i].class_name == doc[i].class_name);
        }
    }
}

/// The indices, of the first `n`, whose sources go to files.
pub open spec fn externalized_indices(doc: Seq<InstanceModel>, at: Seq<int>, has_file: Seq<bool>, n: nat) -> Seq<int>
    decreases n,
{
    if n == 0 {
        Seq::empty()
    } else {
        let before = externalized_indices(doc, at, has_file, (n - 1) as nat);
        let i = at[n - 1];
        if 0 <= i < doc.len() && is_script_class(doc[i].class_name) && 0 <= i < has_file.len() && has_file[i] {
            before.push(i)
        } else {
            before
        }
    }
}

/// Marks the sources of scripts as kept in files of their own, and answers whose they are.
pub fn externalize_sources(doc: &mut SettingsDocument, at: &Vec<usize>, has_file: &Vec<bool>) -> (r: Vec<usize>)
    ensures
        final(doc)@ == externalized(old(doc)@, as_ints(at@), has_file@, at@.len()),
        as_ints(r@) == externalized_indices(old(doc)@, as_ints(at@), has_file@, at@.len()),
{
    let ghost start = doc@;
    let ghost list = as_ints(at@);
    let mut out: Vec<usize> = Vec::new();
    let mut n: usize = 0;
    assert(as_ints(out@) =~= Seq::<int>::empty());
    while n < at.len()
        invariant
            n <= at.len(),
            start == old(doc)@,
            list == as_ints(at@),
            doc@ == externalized(start, list, has_file@, n as nat),
            as_ints(out@) == externalized_indices(start, list, has_file@, n as nat),
        decreases at.len() - n,
    {
        proof {
            lemma_externalized(start, list, has_file@, n as nat);
        }
        let i = at[n];
        assert(list[n as int] == i);
        if i < doc.instances.len() && i < has_file.len() && has_file[i] {
            assert(doc@[i as int] == doc.instances@[i as int]@);
            assert(doc@[i as int].class_name == start[i as int].class_name);
            if is_lua_source_class(&doc.instances[i].class_name) {
                let mut x = doc.instances[i].copy();
                put(&mut x.properties, "Source".to_owned(), Json::Text("__SOURCE_EXTERNAL__".to_owned()));
                proof {
                    lemma_models_update(doc.instances@, i as int, x);
                    crate::document::lemma_as_ints_push(out@, i);
                }
                doc.instances.set(i, x);
                out.push(i);
            }
        }
        n += 1;
    }
    out
}

/// The id of the `n`th instance of a package.
pub open spec fn package_id(n: int) -> Seq<char> {
    "pkg:"@ + decimal(n as nat)
}

/// The place of an index in a list.
pub open spec fn place_of(at: Seq<int>, i: int, n: nat) -> Option<usize>
    decreases n,
{
    if n == 0 {
        None
    } else if at[n - 1] == i {
        Some((n - 1) as usize)
    } else {
        place_of(at, i, (n - 1) as nat)
    }
}

/// The instances of a package: those of a subtree, numbered, each below the place of its parent, and
/// scripts with their sources.
pub open spec fn packed(
    doc: Seq<InstanceModel>,
    at: Seq<int>,
    sources: Map<usize, Seq<char>>,
    n: nat,
) -> Seq<InstanceModel>
    decreases n,
{
    if n == 0 {
        Seq::empty()
    } else {
        let k = n - 1;
        let x = doc[at[k]];
        packed(doc, at, sources, (n - 1) as nat).push(
            InstanceModel {
                id: package_id(k),
                name: x.name,
                class_name: x.class_name,
                parent: if k == 0 || x.parent is None {
                    None
                } else {
                    place_of(at, x.parent->0 as int, k as nat)
                },
                properties: if is_script_class(x.class_name) && sources.dom().contains(at[k] as usize) {
                    x.properties.insert("Source"@, JsonModel::Text(sources[at[k] as usize]))
                } else {
                    x.properties
                },
                attributes: x.attributes,
            },
        )
    }
}

proof fn lemma_packed_len(doc: Seq<InstanceModel>, at: Seq<int>, sources: Map<usize, Seq<char>>, n: nat)
    ensures
        packed(doc, at, sources, n).len() == n,
    decreases n,
{
    if n > 0 {
        lemma_packed_len(doc, at, sources, (n - 1) as nat);
    }
}

fn find_place(at: &Vec<usize>, i: usize, n: usize) -> (r: Option<usize>)
    requires
        n <= at.len(),
    ensures
        r == place_of(as_ints(at@), i as int, n as nat),
{
    let mut k: usize = n;
    while k > 0
        invariant
            k <= n <= at.len(),
            place_of(as_ints(at@), i as int, k as nat) == place_of(as_ints(at@), i as int, n as nat),
        decreases k,
    {
        assert(as_ints(at@)[k - 1] == at@[k - 1]);
        if at[k - 1] == i {
            return Some(k - 1);
        }
        k -= 1;
    }
    None
}

/// Numbers the instances of a subtree as those of a package.
fn pack_instances(doc: &SettingsDocument, at: &Vec<usize>, sources: &Table<usize, String>) -> (r: SettingsDocument)
    requires
        forall|k: int| 0 <= k < at@.len() ==> #[trigger] at@[k] < doc@.len(),
    ensures
        r@ == packed(doc@, as_ints(at@), sources@, at@.len()),
{
    let ghost list = as_ints(at@);
    let mut out: Vec<Instance> = Vec::new();
    let mut k: usize = 0;
    assert(models(out@) =~= packed(doc@, list, sources@, 0));
    while k < at.len()
        invariant
            k <= at.len(),
            list == as_ints(at@),
            forall|k: int| 0 <= k < at@.len() ==> #[trigger] at@[k] < doc@.len(),
            models(out@) == packed(doc@, list, sources@, k as nat),
        decreases at.len() - k,
    {
        let i = at[k];
        assert(list[k as int] == i);
        let mut x = doc.instances[i].copy();
        assert(x@ == doc@[i as int]);
        let number = to_decimal(k as u128);
        x.settings_id = joined("pkg:", &number);
        x.parent_index = if k == 0 {
            None
        } else {
            match x.parent_index {
                Some(p) => find_place(at, p, k),
                None => None,
            }
        };
        if is_lua_source_class(&doc.instances[i].class_name) {
            match sources.get(&i) {
                Some(source) => {
                    put(&mut x.properties, "Source".to_owned(), Json::Text(source.clone()));
                },
                None => {},
            }
        }
        proof {
            lemma_models_push(out@, x);
        }
        out.push(x);
        k += 1;
    }
    SettingsDocument { instances: out }
}

/// The first script of a subtree, from its `k`th instance on, whose source was not found.
pub open spec fn first_unsourced(doc: Seq<InstanceModel>, at: Seq<int>, sources: Map<usize, Seq<char>>, k: int) -> Option<int>
    decreases at.len() - k,
{
    if k < 0 || k >= at.len() {
        None
    } else if is_script_class(doc[at[k]].class_name) && !sources.dom().contains(at[k] as usize) {
        Some(at[k])
    } else {
        first_unsourced(doc, at, sources, k + 1)
    }
}

fn find_unsourced(doc: &SettingsDocument, at: &Vec<usize>, sources: &Table<usize, String>) -> (r: Option<usize>)
    requires
        forall|k: int| 0 <= k < at@.len() ==> #[trigger] at@[k] < doc@.len(),
    ensures
        match r {
            Some(i) => first_unsourced(doc@, as_ints(at@), sources@, 0) == Some(i as int),
            None => first_unsourced(doc@, as_ints(at@), sources@, 0) is None,
        },
{
    let ghost list = as_ints(at@);
    let mut k: usize = 0;
    while k < at.len()
        invariant
            k <= at.len(),
            list == as_ints(at@),
            forall|k: int| 0 <= k < at@.len() ==> #[trigger] at@[k] < doc@.len(),
            first_unsourced(doc@, list, sources@, 0) == first_unsourced(doc@, list, sources@, k as int),
        decreases at.len() - k,
    {
        let i = at[k];
        assert(list[k as int] == i && i < doc@.len());
        assert(doc@[i as int] == doc.instances@[i as int]@);
        if is_lua_source_class(&doc.instances[i].class_name) && sources.get(&i).is_none() {
            return Some(i);
        }
        k += 1;
    }
    None
}

proof fn lemma_all_sourced(doc: Seq<InstanceModel>, at: Seq<int>, sources: Map<usize, Seq<char>>, from: int, k: int)
    requires
        0 <= from <= k < at.len(),
        first_unsourced(doc, at, sources, from) is None,
        is_script_class(doc[at[k]].class_name),
    ensures
        sources.dom().contains(at[k] as usize),
    decreases k - from,
{
    if from < k {
        lemma_all_sourced(doc, at, sources, from + 1, k);
    }
}

/// What a field of a reference names: nothing, one instance, or something that is not there.
#[derive(PartialEq, Eq, Structural, Clone, Copy, Debug)]
pub enum Pointer {
    Nothing,
    At(usize),
    Bad,
}

/// What two fields name together.
pub open spec fn both(a: Pointer, b: Pointer) -> Pointer {
    match (a, b) {
        (Pointer::Bad, _) => Pointer::Bad,
        (_, Pointer::Bad) => Pointer::Bad,
        (Pointer::Nothing, x) => x,
        (x, Pointer::Nothing) => x,
        (Pointer::At(i), Pointer::At(j)) => if i == j {
            Pointer::At(i)
        } else {
            Pointer::Bad
        },
    }
}

fn both_of(a: Pointer, b: Pointer) -> (r: Pointer)
    ensures
        r == both(a, b),
{
    match (a, b) {
        (Pointer::Bad, _) => Pointer::Bad,
        (_, Pointer::Bad) => Pointer::Bad,
        (Pointer::Nothing, x) => x,
        (x, Pointer::Nothing) => x,
        (Pointer::At(i), Pointer::At(j)) => if i == j {
            Pointer::At(i)
        } else {
            Pointer::Bad
        },
    }
}

/// The last of the first `n` instances with an id.
pub open spec fn last_with_id(doc: Seq<InstanceModel>, id: Seq<char>, n: nat) -> Pointer
    decreases n,
{
    if n == 0 {
        Pointer::Bad
    } else if doc[n - 1].id == id {
        Pointer::At((n - 1) as usize)
    } else {
        last_with_id(doc, id, (n - 1) as nat)
    }
}

/// What an id field names.
pub open spec fn id_pointer(doc: Seq<InstanceModel>, o: Map<Seq<char>, JsonModel>, key: Seq<char>) -> Pointer {
    match text_field(o, key) {
        Some(id) => if id.len() == 0 {
            Pointer::Nothing
        } else {
            last_with_id(doc, id, doc.len())
        },
        None => Pointer::Nothing,
    }
}

/// What the index field names.
pub open spec fn index_pointer(doc: Seq<InstanceModel>, o: Map<Seq<char>, JsonModel>) -> Pointer {
    match index_field(o) {
        Some(i) => if i < doc.len() {
            Pointer::At(i)
        } else {
            Pointer::Bad
        },
        None => Pointer::Nothing,
    }
}

/// An instance has a path, and the ordinals where they are given.
pub open spec fn has_path(doc: Seq<InstanceModel>, i: int, path: Seq<Seq<char>>, ordinals: Option<Seq<usize>>) -> bool {
    path_names(doc, i) == path && (ordinals is Some ==> path_ordinals(doc, i) == ordinals->0)
}

/// The one instance of the first `n` with a path; nothing where there is none, bad where there are more.
pub open spec fn only_at_path(
    doc: Seq<InstanceModel>,
    path: Seq<Seq<char>>,
    ordinals: Option<Seq<usize>>,
    n: nat,
) -> Pointer
    decreases n,
{
    if n == 0 {
        Pointer::Nothing
    } else {
        let before = only_at_path(doc, path, ordinals, (n - 1) as nat);
        if has_path(doc, n - 1, path, ordinals) {
            match before {
                Pointer::Nothing => Pointer::At((n - 1) as usize),
                _ => Pointer::Bad,
            }
        } else {
            before
        }
    }
}

/// What the path fields name.
pub open spec fn path_pointer(doc: Seq<InstanceModel>, o: Map<Seq<char>, JsonModel>) -> Pointer {
    match path_field(o) {
        Some(path) => if path.len() == 0 {
            Pointer::Nothing
        } else {
            match only_at_path(doc, path, ordinals_field(o), doc.len()) {
                Pointer::At(i) => Pointer::At(i),
                _ => Pointer::Bad,
            }
        },
        None => Pointer::Nothing,
    }
}

/// What a reference names: all its fields have to name one instance.
pub open spec fn pointer(doc: Seq<InstanceModel>, o: Map<Seq<char>, JsonModel>) -> Pointer {
    both(
        both(id_pointer(doc, o, "settingsId"@), id_pointer(doc, o, "instanceId"@)),
        both(index_pointer(doc, o), path_pointer(doc, o)),
    )
}

fn id_points(doc: &SettingsDocument, m: &Vec<Member>, key: &str) -> (r: Pointer)
    ensures
        r == id_pointer(doc@, entries(m@), key@),
{
    match text_of(m, key) {
        Some(id) => {
            if id.as_str().is_empty() {
                return Pointer::Nothing;
            }
            let mut i: usize = doc.instances.len();
            while i > 0
                invariant
                    i <= doc.instances.len(),
                    text_field(entries(m@), key@) == Some(id@),
                    id@.len() > 0,
                    last_with_id(doc@, id@, i as nat) == last_with_id(doc@, id@, doc@.len()),
                decreases i,
            {
                i -= 1;
                assert(doc@[i as int] == doc.instances@[i as int]@);
                if same(&doc.instances[i].settings_id, id) {
                    return Pointer::At(i);
                }
            }
            Pointer::Bad
        },
        None => Pointer::Nothing,
    }
}

/// The numbers of an optional list.
pub open spec fn opt_numbers(v: Option<Vec<usize>>) -> Option<Seq<usize>> {
    match v {
        Some(list) => Some(list@),
        None => None,
    }
}

fn path_points(doc: &SettingsDocument, m: &Vec<Member>) -> (r: Pointer)
    ensures
        r == path_pointer(doc@, entries(m@)),
{
    let path = match path_of(m) {
        Some(path) => path,
        None => {
            return Pointer::Nothing;
        },
    };
    assert(path@.len() == texts(path@).len());
    if path.len() == 0 {
        return Pointer::Nothing;
    }
    let ordinals = ordinals_of(m);
    let ghost want = opt_numbers(ordinals);
    assert(want == ordinals_field(entries(m@)));
    let mut found = Pointer::Nothing;
    let mut i: usize = 0;
    while i < doc.instances.len()
        invariant
            i <= doc.instances.len(),
            want == opt_numbers(ordinals),
            found == only_at_path(doc@, texts(path@), want, i as nat),
        decreases doc.instances.len() - i,
    {
        let (names, own) = instance_path_parts(doc, i);
        let matches = same_texts(&names, &path) && match &ordinals {
            Some(v) => same_numbers(&own, v),
            None => true,
        };
        if matches {
            found = match found {
                Pointer::Nothing => Pointer::At(i),
                _ => Pointer::Bad,
            };
        }
        i += 1;
    }
    match found {
        Pointer::At(i) => Pointer::At(i),
        _ => Pointer::Bad,
    }
}

/// What a reference names.
pub fn strict_ref_old_index(doc: &SettingsDocument, m: &Vec<Member>) -> (r: Pointer)
    ensures
        r == pointer(doc@, entries(m@)),
{
    let a = id_points(doc, m, "settingsId");
    let b = id_points(doc, m, "instanceId");
    let c = match index_of(m) {
        Some(i) => {
            if i < doc.instances.len() {
                Pointer::At(i)
            } else {
                Pointer::Bad
            }
        },
        None => Pointer::Nothing,
    };
    let d = path_points(doc, m);
    both_of(both_of(a, b), both_of(c, d))
}

/// A reference without any field that names an instance.
pub open spec fn without_selectors(o: Map<Seq<char>, JsonModel>) -> Map<Seq<char>, JsonModel> {
    o.remove("settingsId"@).remove("instanceId"@).remove("instanceIndex"@).remove("pathSegments"@).remove(
        "pathOrdinals"@,
    )
}

/// A reference in a package: by the place of its instance in the package, counted from one. One that names
/// nothing stays.
pub open spec fn packed_reference(doc: Seq<InstanceModel>, at: Seq<int>, o: Map<Seq<char>, JsonModel>) -> Result<
    Map<Seq<char>, JsonModel>,
    ReferenceError,
> {
    match pointer(doc, o) {
        Pointer::Bad => Err(ReferenceError::Invalid),
        Pointer::Nothing => Ok(o),
        Pointer::At(i) => match place_of(at, i as int, at.len()) {
            None => Err(ReferenceError::External { index: i }),
            Some(k) => Ok(without_selectors(o).insert("instanceIndex"@, number_model(k + 1))),
        },
    }
}

/// Some reference in a value can not be packed, for this reason.
pub open spec fn pack_fails(doc: Seq<InstanceModel>, at: Seq<int>, v: JsonModel, e: ReferenceError) -> bool
    decreases v,
{
    match v {
        JsonModel::Array(items) => exists|i: int| 0 <= i < items.len() && pack_fails(doc, at, #[trigger] items[i], e),
        JsonModel::Object(o) => if is_reference(o) {
            packed_reference(doc, at, o) == Err::<Map<Seq<char>, JsonModel>, ReferenceError>(e)
        } else {
            exists|k: Seq<char>| #[trigger]
                o.dom().contains(k) && if k == "Ref"@ {
                    match o[k] {
                        JsonModel::Object(inner) => packed_reference(doc, at, inner) == Err::<
                            Map<Seq<char>, JsonModel>,
                            ReferenceError,
                        >(e),
                        _ => false,
                    }
                } else {
                    pack_fails(doc, at, o[k], e)
                }
        },
        _ => false,
    }
}

pub open spec fn packed_items(doc: Seq<InstanceModel>, at: Seq<int>, items: Seq<JsonModel>) -> Seq<JsonModel>
    decreases items,
{
    Seq::new(
        items.len(),
        |i: int|
            if 0 <= i < items.len() {
                packed_value(doc, at, items[i])
            } else {
                JsonModel::Null
            },
    )
}

/// A value with its references as a package has them.
pub open spec fn packed_value(doc: Seq<InstanceModel>, at: Seq<int>, v: JsonModel) -> JsonModel
    decreases v,
{
    match v {
        JsonModel::Array(items) => JsonModel::Array(packed_items(doc, at, items)),
        JsonModel::Object(o) => if is_reference(o) {
            match packed_reference(doc, at, o) {
                Ok(new) => JsonModel::Object(new),
                Err(_) => v,
            }
        } else {
            JsonModel::Object(
                Map::new(
                    |k: Seq<char>| o.dom().contains(k),
                    |k: Seq<char>|
                        if o.dom().contains(k) {
                            if k == "Ref"@ {
                                match o[k] {
                                    JsonModel::Object(inner) => match packed_reference(doc, at, inner) {
                                        Ok(new) => JsonModel::Object(new),
                                        Err(_) => o[k],
                                    },
                                    _ => o[k],
                                }
                            } else {
                                packed_value(doc, at, o[k])
                            }
                        } else {
                            JsonModel::Null
                        },
                ),
            )
        },
        _ => v,
    }
}

fn pack_reference(doc: &SettingsDocument, at: &Vec<usize>, m: &Vec<Member>) -> (r: Result<Vec<Member>, ReferenceError>)
    ensures
        match r {
            Ok(out) => packed_reference(doc@, as_ints(at@), entries(m@)) == Ok::<
                Map<Seq<char>, JsonModel>,
                ReferenceError,
            >(entries(out@)),
            Err(e) => packed_reference(doc@, as_ints(at@), entries(m@)) == Err::<
                Map<Seq<char>, JsonModel>,
                ReferenceError,
            >(e),
        },
{
    assert(as_ints(at@).len() == at@.len());
    match strict_ref_old_index(doc, m) {
        Pointer::Bad => Err(ReferenceError::Invalid),
        Pointer::Nothing => Ok(crate::json::copy_members(m)),
        Pointer::At(i) => match find_place(at, i, at.len()) {
            None => Err(ReferenceError::External { index: i }),
            Some(k) => {
                let mut out = crate::json::copy_members(m);
                remove_key(&mut out, "settingsId");
                remove_key(&mut out, "instanceId");
                remove_key(&mut out, "instanceIndex");
                remove_key(&mut out, "pathSegments");
                remove_key(&mut out, "pathOrdinals");
                proof {
                    lemma_place_in_range(as_ints(at@), i as int, at@.len());
                }
                let n: u64 = (k + 1) as u64;
                put(&mut out, "instanceIndex".to_owned(), Json::Number(Number::Unsigned(n)));
                Ok(out)
            },
        },
    }
}

proof fn lemma_place_in_range(at: Seq<int>, i: int, n: nat)
    requires
        n <= usize::MAX,
    ensures
        place_of(at, i, n) is Some ==> place_of(at, i, n)->0 < n,
    decreases n,
{
    if n > 0 {
        lemma_place_in_range(at, i, (n - 1) as nat);
    }
}

proof fn lemma_packed_elements(doc: Seq<InstanceModel>, at: Seq<int>, items: Seq<Json>)
    ensures
        Seq::new(items.len(), |i: int| packed_value(doc, at, items[i]@)) == packed_items(doc, at, elements(items)),
{
    let a = Seq::new(items.len(), |i: int| packed_value(doc, at, items[i]@));
    let b = packed_items(doc, at, elements(items));
    assert forall|i: int| 0 <= i < items.len() implies a[i] == b[i] by {
        lemma_element(items, i);
    }
    assert(a =~= b);
}

fn pack_items(doc: &SettingsDocument, at: &Vec<usize>, items: &Vec<Json>) -> (r: Result<Vec<Json>, ReferenceError>)
    ensures
        match r {
            Ok(out) => elements(out@) == packed_items(doc@, as_ints(at@), elements(items@)) && (forall|
                i: int,
                e: ReferenceError,
            | 0 <= i < items@.len() ==> !#[trigger] pack_fails(doc@, as_ints(at@), elements(items@)[i], e)),
            Err(e) => exists|i: int|
                0 <= i < items@.len() && #[trigger] pack_fails(doc@, as_ints(at@), elements(items@)[i], e),
        },
    decreases items, 0nat,
{
    let ghost list = as_ints(at@);
    let ghost whole = Seq::new(items@.len(), |i: int| packed_value(doc@, list, items@[i]@));
    let mut out: Vec<Json> = Vec::new();
    let mut i: usize = 0;
    while i < items.len()
        invariant
            i <= items.len(),
            list == as_ints(at@),
            whole == Seq::new(items@.len(), |i: int| packed_value(doc@, list, items@[i]@)),
            out@.len() == i,
            forall|j: int| 0 <= j < i ==> (#[trigger] out@[j])@ == whole[j],
            forall|j: int, e: ReferenceError|
                0 <= j < i ==> !#[trigger] pack_fails(doc@, list, elements(items@)[j], e),
        decreases items.len() - i,
    {
        proof {
            lemma_element(items@, i as int);
        }
        match remap_package_reference_value(doc, at, &items[i]) {
            Ok(v) => {
                out.push(v);
            },
            Err(e) => {
                assert(pack_fails(doc@, list, elements(items@)[i as int], e));
                return Err(e);
            },
        }
        i += 1;
    }
    proof {
        assert forall|j: int| 0 <= j < out@.len() implies elements(out@)[j] == whole[j] by {
            assert(out@[j]@ == whole[j]);
        }
        assert(elements(out@) =~= whole);
        lemma_packed_elements(doc@, list, items@);
    }
    Ok(out)
}

fn pack_members(doc: &SettingsDocument, at: &Vec<usize>, m: &Vec<Member>) -> (r: Result<Vec<Member>, ReferenceError>)
    requires
        !is_reference(entries(m@)),
    ensures
        match r {
            Ok(out) => JsonModel::Object(entries(out@)) == packed_value(
                doc@,
                as_ints(at@),
                JsonModel::Object(entries(m@)),
            ) && (forall|e: ReferenceError| !#[trigger]
                pack_fails(doc@, as_ints(at@), JsonModel::Object(entries(m@)), e)),
            Err(e) => pack_fails(doc@, as_ints(at@), JsonModel::Object(entries(m@)), e),
        },
    decreases m, 0nat,
{
    let ghost list = as_ints(at@);
    let ghost o = entries(m@);
    let ghost value = JsonModel::Object(o);
    let ghost target = packed_value(doc@, list, value)->Object_0;
    let mut out: Vec<Member> = Vec::new();
    let mut i: usize = 0;
    while i < m.len()
        invariant
            i <= m.len(),
            list == as_ints(at@),
            o == entries(m@),
            !is_reference(o),
            value == JsonModel::Object(o),
            target == packed_value(doc@, list, value)->Object_0,
            forall|k: Seq<char>| #[trigger] entries(out@).dom().contains(k) <==> entry_before(m@, k, i as int),
            forall|k: Seq<char>| #[trigger]
                entries(out@).dom().contains(k) ==> entries(out@)[k] == target[k] && (forall|e: ReferenceError|
                    !#[trigger] pack_member_fails(doc@, list, o, k, e)),
        decreases m.len() - i,
    {
        let ghost before = entries(out@);
        let ghost key = m@[i as int].key@;
        let found = find_key(m, &m[i].key);
        let counts = match found {
            Some(at) => at == i,
            None => false,
        };
        proof {
            lemma_entry_before_step(m@, i as int);
            if !counts && is_entry(m@, key, i as int) {
                lemma_entry(m@, key, i as int);
                let at = found->0;
                assert(m@[at as int].key@ == key && m@[i as int].key@ == key);
            }
            assert(counts == is_entry(m@, key, i as int));
        }
        if counts {
            proof {
                lemma_entry(m@, key, i as int);
            }
            assert(o[key] == m@[i as int].value@);
            let result = if same(&m[i].key, "Ref") {
                match &m[i].value {
                    Json::Object(inner) => match pack_reference(doc, at, inner) {
                        Ok(new) => Ok(Json::Object(new)),
                        Err(e) => Err(e),
                    },
                    _ => Ok(m[i].value.copy()),
                }
            } else {
                remap_package_reference_value(doc, at, &m[i].value)
            };
            match result {
                Ok(v) => {
                    assert(v@ == target[key]);
                    assert forall|e: ReferenceError| !#[trigger] pack_member_fails(doc@, list, o, key, e) by {}
                    put(&mut out, m[i].key.clone(), v);
                    assert(entries(out@) == before.insert(key, target[key]));
                },
                Err(e) => {
                    assert(o.dom().contains(key));
                    assert(pack_member_fails(doc@, list, o, key, e));
                    assert(pack_fails(doc@, list, value, e));
                    return Err(e);
                },
            }
        }
        i += 1;
    }
    assert forall|k: Seq<char>| entry_before(m@, k, m@.len() as int) == o.dom().contains(k) by {
        if o.dom().contains(k) {
            let j = lemma_entry_of(m@, k);
            assert(0 <= j < m@.len() && is_entry(m@, k, j));
        }
        if entry_before(m@, k, m@.len() as int) {
            let j = choose|j: int| 0 <= j < m@.len() && #[trigger] is_entry(m@, k, j);
            lemma_entry(m@, k, j);
        }
    }
    assert(entries(out@) =~= target);
    assert forall|e: ReferenceError| !#[trigger] pack_fails(doc@, list, value, e) by {
        if pack_fails(doc@, list, value, e) {
            let k = choose|k: Seq<char>| #[trigger] o.dom().contains(k) && pack_member_fails(doc@, list, o, k, e);
            assert(entries(out@).dom().contains(k));
        }
    }
    Ok(out)
}

/// Something in the value of a key can not be packed, for this reason.
pub open spec fn pack_member_fails(
    doc: Seq<InstanceModel>,
    at: Seq<int>,
    o: Map<Seq<char>, JsonModel>,
    k: Seq<char>,
    e: ReferenceError,
) -> bool {
    if k == "Ref"@ {
        match o[k] {
            JsonModel::Object(inner) => packed_reference(doc, at, inner) == Err::<
                Map<Seq<char>, JsonModel>,
                ReferenceError,
            >(e),
            _ => false,
        }
    } else {
        pack_fails(doc, at, o[k], e)
    }
}

/// Turns every reference in a value into one inside the package.
pub fn remap_package_reference_value(doc: &SettingsDocument, at: &Vec<usize>, value: &Json) -> (r: Result<
    Json,
    ReferenceError,
>)
    ensures
        match r {
            Ok(out) => out@ == packed_value(doc@, as_ints(at@), value@) && (forall|e: ReferenceError| !#[trigger]
                pack_fails(doc@, as_ints(at@), value@, e)),
            Err(e) => pack_fails(doc@, as_ints(at@), value@, e),
        },
    decreases value, 0nat,
{
    let ghost list = as_ints(at@);
    match value {
        Json::Array(items) => {
            let ghost whole = elements(items@);
            assert(value@ == JsonModel::Array(whole));
            assert(whole.len() == items@.len());
            match pack_items(doc, at, items) {
                Ok(out) => {
                    assert forall|e: ReferenceError| !#[trigger] pack_fails(doc@, list, value@, e) by {
                        if pack_fails(doc@, list, value@, e) {
                            let i = choose|i: int| 0 <= i < whole.len() && pack_fails(doc@, list, #[trigger] whole[i], e);
                            assert(!pack_fails(doc@, list, elements(items@)[i], e));
                        }
                    }
                    let result = Json::Array(out);
                    assert(result@ == packed_value(doc@, list, value@));
                    Ok(result)
                },
                Err(e) => {
                    proof {
                        let i = choose|i: int|
                            0 <= i < items@.len() && #[trigger] pack_fails(doc@, list, elements(items@)[i], e);
                        assert(pack_fails(doc@, list, whole[i], e));
                    }
                    Err(e)
                },
            }
        },
        Json::Object(m) => {
            assert(value@ == JsonModel::Object(entries(m@)));
            if is_reference_object(m) {
                match pack_reference(doc, at, m) {
                    Ok(out) => {
                        let result = Json::Object(out);
                        assert(result@ == packed_value(doc@, list, value@));
                        Ok(result)
                    },
                    Err(e) => Err(e),
                }
            } else {
                match pack_members(doc, at, m) {
                    Ok(out) => {
                        let result = Json::Object(out);
                        assert(result@ == JsonModel::Object(entries(out@)));
                        Ok(result)
                    },
                    Err(e) => Err(e),
                }
            }
        },
        Json::Null => Ok(Json::Null),
        Json::Bool(b) => Ok(Json::Bool(*b)),
        Json::Number(_) => Ok(value.copy()),
        Json::Text(_) => Ok(value.copy()),
    }
}

/// A record with its references as a package has them.
pub open spec fn packed_record(doc: Seq<InstanceModel>, at: Seq<int>, m: Map<Seq<char>, JsonModel>) -> Map<
    Seq<char>,
    JsonModel,
> {
    Map::new(|k: Seq<char>| m.dom().contains(k), |k: Seq<char>| packed_value(doc, at, m[k]))
}

/// Some reference in a record can not be packed.
pub open spec fn record_pack_fails(
    doc: Seq<InstanceModel>,
    at: Seq<int>,
    m: Map<Seq<char>, JsonModel>,
    e: ReferenceError,
) -> bool {
    exists|k: Seq<char>| #[trigger] m.dom().contains(k) && pack_fails(doc, at, m[k], e)
}

fn pack_record(doc: &SettingsDocument, at: &Vec<usize>, m: &Vec<Member>) -> (r: Result<Vec<Member>, ReferenceError>)
    ensures
        match r {
            Ok(out) => entries(out@) == packed_record(doc@, as_ints(at@), entries(m@)) && (forall|e: ReferenceError|
                !#[trigger] record_pack_fails(doc@, as_ints(at@), entries(m@), e)),
            Err(e) => record_pack_fails(doc@, as_ints(at@), entries(m@), e),
        },
{
    let ghost list = as_ints(at@);
    let ghost o = entries(m@);
    let mut out: Vec<Member> = Vec::new();
    let mut i: usize = 0;
    while i < m.len()
        invariant
            i <= m.len(),
            list == as_ints(at@),
            o == entries(m@),
            forall|k: Seq<char>| #[trigger] entries(out@).dom().contains(k) <==> entry_before(m@, k, i as int),
            forall|k: Seq<char>| #[trigger]
                entries(out@).dom().contains(k) ==> entries(out@)[k] == packed_value(doc@, list, o[k]) && (forall|
                    e: ReferenceError,
                | !#[trigger] pack_fails(doc@, list, o[k], e)),
        decreases m.len() - i,
    {
        let ghost before = entries(out@);
        let ghost key = m@[i as int].key@;
        let found = find_key(m, &m[i].key);
        let counts = match found {
            Some(at) => at == i,
            None => false,
        };
        proof {
            lemma_entry_before_step(m@, i as int);
            if !counts && is_entry(m@, key, i as int) {
                lemma_entry(m@, key, i as int);
                let at = found->0;
                assert(m@[at as int].key@ == key && m@[i as int].key@ == key);
            }
            assert(counts == is_entry(m@, key, i as int));
        }
        if counts {
            proof {
                lemma_entry(m@, key, i as int);
            }
            match remap_package_reference_value(doc, at, &m[i].value) {
                Ok(v) => {
                    put(&mut out, m[i].key.clone(), v);
                    assert(entries(out@) == before.insert(key, packed_value(doc@, list, o[key])));
                },
                Err(e) => {
                    assert(o.dom().contains(key) && pack_fails(doc@, list, o[key], e));
                    return Err(e);
                },
            }
        }
        i += 1;
    }
    assert forall|k: Seq<char>| entry_before(m@, k, m@.len() as int) == o.dom().contains(k) by {
        if o.dom().contains(k) {
            let j = lemma_entry_of(m@, k);
            assert(0 <= j < m@.len() && is_entry(m@, k, j));
        }
        if entry_before(m@, k, m@.len() as int) {
            let j = choose|j: int| 0 <= j < m@.len() && #[trigger] is_entry(m@, k, j);
            lemma_entry(m@, k, j);
        }
    }
    assert(entries(out@) =~= packed_record(doc@, list, o));
    assert forall|e: ReferenceError| !#[trigger] record_pack_fails(doc@, list, o, e) by {
        if record_pack_fails(doc@, list, o, e) {
            let k = choose|k: Seq<char>| #[trigger] o.dom().contains(k) && pack_fails(doc@, list, o[k], e);
            assert(entries(out@).dom().contains(k));
        }
    }
    Ok(out)
}

/// An instance of a package with its references.
pub open spec fn packed_instance(doc: Seq<InstanceModel>, at: Seq<int>, x: InstanceModel) -> InstanceModel {
    InstanceModel {
        properties: packed_record(doc, at, x.properties),
        attributes: packed_record(doc, at, x.attributes),
        ..x
    }
}

/// Some reference of an instance can not be packed.
pub open spec fn instance_pack_fails(doc: Seq<InstanceModel>, at: Seq<int>, x: InstanceModel, e: ReferenceError) -> bool {
    record_pack_fails(doc, at, x.properties, e) || record_pack_fails(doc, at, x.attributes, e)
}

/// The package of a subtree.
pub open spec fn package_of(doc: Seq<InstanceModel>, root: int, sources: Map<usize, Seq<char>>) -> Seq<InstanceModel> {
    let at = subtree(doc, root);
    let plain = packed(doc, at, sources, at.len());
    Seq::new(plain.len(), |k: int| packed_instance(doc, at, plain[k]))
}

/// Some reference in a subtree can not be packed: it names an instance outside, or is not valid.
pub open spec fn package_fails(doc: Seq<InstanceModel>, root: int, sources: Map<usize, Seq<char>>, e: ReferenceError) -> bool {
    let at = subtree(doc, root);
    let plain = packed(doc, at, sources, at.len());
    exists|k: int| 0 <= k < plain.len() && instance_pack_fails(doc, at, #[trigger] plain[k], e)
}

/// Why a subtree is not saved as a package.
#[derive(PartialEq, Eq, Structural, Clone, Copy, Debug)]
pub enum PackError {
    /// The source of a script was not found.
    NoSource(usize),
    /// A reference can not be packed.
    Reference(ReferenceError),
}

/// Saves a subtree as a package: its instances in order, parents first, the scripts with their sources,
/// and all references inside the package. The sources that were found are given by the places of the
/// scripts; every script of the subtree needs one.
pub fn pack_subtree_to_bytecode(doc: &SettingsDocument, root: usize, sources: &Table<usize, String>) -> (r: Result<
    SettingsDocument,
    PackError,
>)
    requires
        root < doc@.len(),
    ensures
        match r {
            Ok(package) => {
                &&& first_unsourced(doc@, subtree(doc@, root as int), sources@, 0) is None
                &&& package@ == package_of(doc@, root as int, sources@)
                &&& forall|e: ReferenceError| !#[trigger] package_fails(doc@, root as int, sources@, e)
            },
            Err(PackError::NoSource(i)) => first_unsourced(doc@, subtree(doc@, root as int), sources@, 0) == Some(i as int),
            Err(PackError::Reference(e)) => first_unsourced(doc@, subtree(doc@, root as int), sources@, 0) is None
                && package_fails(doc@, root as int, sources@, e),
        },
{
    let at = collect_settings_subtree_preorder(doc, root);
    let ghost list = subtree(doc@, root as int);
    assert(as_ints(at@) == list);
    assert(list.len() == at@.len());
    assert forall|k: int| 0 <= k < at@.len() implies #[trigger] at@[k] < doc@.len() by {
        lemma_preorder_in_range(doc@, root as int, doc@.len(), k);
        assert(as_ints(at@)[k] == at@[k]);
    }
    match find_unsourced(doc, &at, sources) {
        Some(i) => {
            return Err(PackError::NoSource(i));
        },
        None => {},
    }
    let plain = pack_instances(doc, &at, sources);
    let mut out: Vec<Instance> = Vec::new();
    let mut k: usize = 0;
    while k < plain.instances.len()
        invariant
            k <= plain.instances.len(),
            as_ints(at@) == list,
            list == subtree(doc@, root as int),
            first_unsourced(doc@, list, sources@, 0) is None,
            plain@ == packed(doc@, list, sources@, list.len()),
            out@.len() == k,
            forall|j: int| 0 <= j < k ==> (#[trigger] out@[j])@ == packed_instance(doc@, list, plain@[j]),
            forall|j: int, e: ReferenceError|
                0 <= j < k ==> !#[trigger] instance_pack_fails(doc@, list, plain@[j], e),
        decreases plain.instances.len() - k,
    {
        let x = &plain.instances[k];
        assert(plain@[k as int] == x@);
        let properties = match pack_record(doc, &at, &x.properties) {
            Ok(m) => m,
            Err(e) => {
                assert(instance_pack_fails(doc@, list, plain@[k as int], e));
                return Err(PackError::Reference(e));
            },
        };
        let attributes = match pack_record(doc, &at, &x.attributes) {
            Ok(m) => m,
            Err(e) => {
                assert(instance_pack_fails(doc@, list, plain@[k as int], e));
                return Err(PackError::Reference(e));
            },
        };
        let mut y = x.copy();
        y.properties = properties;
        y.attributes = attributes;
        assert(y@ =~= packed_instance(doc@, list, plain@[k as int]));
        out.push(y);
        k += 1;
    }
    let package = SettingsDocument { instances: out };
    assert(package@ =~= package_of(doc@, root as int, sources@));
    assert forall|e: ReferenceError| !#[trigger] package_fails(doc@, root as int, sources@, e) by {
        if package_fails(doc@, root as int, sources@, e) {
            let j = choose|j: int| 0 <= j < plain@.len() && instance_pack_fails(doc@, list, #[trigger] plain@[j], e);
            assert(!instance_pack_fails(doc@, list, plain@[j], e));
        }
    }
    Ok(package)
}

/// A package has one instance for each of the subtree, with the same names and classes, and its root has no
/// parent.
pub proof fn law_package_keeps_the_subtree(doc: Seq<InstanceModel>, root: int, sources: Map<usize, Seq<char>>, k: int)
    requires
        0 <= k < subtree(doc, root).len(),
    ensures
        ({
            let package = package_of(doc, root, sources);
            let x = doc[subtree(doc, root)[k]];
            &&& package.len() == subtree(doc, root).len()
            &&& package[k].id == package_id(k)
            &&& package[k].name == x.name
            &&& package[k].class_name == x.class_name
            &&& k == 0 ==> package[k].parent is None
        }),
{
    let at = subtree(doc, root);
    lemma_packed_len(doc, at, sources, at.len());
    lemma_packed_at(doc, at, sources, at.len(), k);
}

proof fn lemma_packed_at(doc: Seq<InstanceModel>, at: Seq<int>, sources: Map<usize, Seq<char>>, n: nat, k: int)
    requires
        0 <= k < n <= at.len(),
    ensures
        packed(doc, at, sources, n).len() == n,
        packed(doc, at, sources, n)[k].id == package_id(k),
        packed(doc, at, sources, n)[k].name == doc[at[k]].name,
        packed(doc, at, sources, n)[k].class_name == doc[at[k]].class_name,
        k == 0 ==> packed(doc, at, sources, n)[k].parent is None,
    decreases n,
{
    lemma_packed_len(doc, at, sources, n);
    lemma_packed_len(doc, at, sources, (n - 1) as nat);
    if k < n - 1 {
        lemma_packed_at(doc, at, sources, (n - 1) as nat, k);
    }
}

/// Every script of a package holds its source.
pub proof fn law_packed_scripts_hold_their_sources(doc: Seq<InstanceModel>, root: int, sources: Map<usize, Seq<char>>, k: int)
    requires
        0 <= k < subtree(doc, root).len(),
        is_script_class(doc[subtree(doc, root)[k]].class_name),
        first_unsourced(doc, subtree(doc, root), sources, 0) is None,
    ensures
        ({
            let i = subtree(doc, root)[k] as usize;
            let properties = package_of(doc, root, sources)[k].properties;
            &&& sources.dom().contains(i)
            &&& properties.dom().contains("Source"@)
            &&& properties["Source"@] == JsonModel::Text(sources[i])
        }),
{
    let at = subtree(doc, root);
    lemma_packed_len(doc, at, sources, at.len());
    lemma_all_sourced(doc, at, sources, 0, k);
    lemma_packed_source(doc, at, sources, at.len(), k);
}

proof fn lemma_packed_source(doc: Seq<InstanceModel>, at: Seq<int>, sources: Map<usize, Seq<char>>, n: nat, k: int)
    requires
        0 <= k < n <= at.len(),
        is_script_class(doc[at[k]].class_name),
        sources.dom().contains(at[k] as usize),
    ensures
        packed(doc, at, sources, n).len() == n,
        packed(doc, at, sources, n)[k].properties == doc[at[k]].properties.insert(
            "Source"@,
            JsonModel::Text(sources[at[k] as usize]),
        ),
    decreases n,
{
    lemma_packed_len(doc, at, sources, n);
    lemma_packed_len(doc, at, sources, (n - 1) as nat);
    if k < n - 1 {
        lemma_packed_source(doc, at, sources, (n - 1) as nat, k);
    }
}

} // verus!
