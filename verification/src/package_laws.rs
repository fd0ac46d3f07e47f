//! What a subtree holds, and what packing or removing one keeps.
use vstd::prelude::*;

use crate::document::{InstanceModel, parents_first, preorder, preorder_of_children, subtree};
use crate::json::JsonModel;
use crate::pack::{
    externalized, marked, packed, packed_reference, place_of, staying, without, without_descendants, without_subtree,
};

verus! {

/// An instance is another or stands below it.
pub open spec fn leads_up(doc: Seq<InstanceModel>, i: int, root: int) -> bool
    decreases i,
{
    0 <= i < doc.len() && (i == root || (doc[i].parent is Some && doc[i].parent->0 < i && leads_up(
        doc,
        doc[i].parent->0 as int,
        root,
    )))
}

proof fn lemma_leads_on(doc: Seq<InstanceModel>, i: int, c: int, root: int)
    requires
        leads_up(doc, i, c),
        0 <= c < doc.len(),
        doc[c].parent == Some(root as usize),
        0 <= root < c,
        root <= usize::MAX,
    ensures
        leads_up(doc, i, root),
    decreases i,
{
    if i == c {
        assert(leads_up(doc, root, root));
    } else {
        lemma_leads_on(doc, doc[i].parent->0 as int, c, root);
    }
}

proof fn lemma_leads_through(doc: Seq<InstanceModel>, i: int, root: int) -> (c: int)
    requires
        leads_up(doc, i, root),
        i != root,
        0 <= root < doc.len() <= usize::MAX,
    ensures
        0 <= c < doc.len(),
        doc[c].parent == Some(root as usize),
        root < c,
        leads_up(doc, i, c),
    decreases i,
{
    let p = doc[i].parent->0 as int;
    if p == root {
        i
    } else {
        lemma_leads_through(doc, p, root)
    }
}

proof fn lemma_preorder_in(doc: Seq<InstanceModel>, root: int, levels: nat, i: int)
    requires
        parents_first(doc),
        0 <= root < doc.len() <= usize::MAX,
        preorder(doc, root, levels).contains(i),
    ensures
        leads_up(doc, i, root),
    decreases levels, doc.len() + 2,
{
    let all = preorder(doc, root, levels);
    let k = choose|k: int| 0 <= k < all.len() && all[k] == i;
    if k > 0 {
        let rest = preorder_of_children(doc, root, levels, doc.len());
        assert(rest[k - 1] == i);
        assert(rest.contains(i));
        lemma_children_in(doc, root, levels, doc.len(), i);
    }
}

proof fn lemma_children_in(doc: Seq<InstanceModel>, root: int, levels: nat, n: nat, i: int)
    requires
        parents_first(doc),
        0 <= root < doc.len() <= usize::MAX,
        n <= doc.len(),
        preorder_of_children(doc, root, levels, n).contains(i),
    ensures
        leads_up(doc, i, root),
    decreases levels, n + 1,
{
    if n > 0 && levels > 0 {
        let all = preorder_of_children(doc, root, levels, n);
        let before = preorder_of_children(doc, root, levels, (n - 1) as nat);
        let k = choose|k: int| 0 <= k < all.len() && all[k] == i;
        if k < before.len() {
            assert(before[k] == i);
            assert(before.contains(i));
            lemma_children_in(doc, root, levels, (n - 1) as nat, i);
        } else {
            let more = preorder(doc, n - 1, (levels - 1) as nat);
            assert(more[k - before.len()] == i);
            assert(more.contains(i));
            lemma_preorder_in(doc, n - 1, (levels - 1) as nat, i);
            lemma_leads_on(doc, i, n - 1, root);
        }
    }
}

proof fn lemma_preorder_has(doc: Seq<InstanceModel>, root: int, levels: nat, i: int)
    requires
        parents_first(doc),
        0 <= root < doc.len() <= usize::MAX,
        levels >= doc.len() - root,
        leads_up(doc, i, root),
    ensures
        preorder(doc, root, levels).contains(i),
    decreases levels, doc.len() + 2,
{
    let all = preorder(doc, root, levels);
    if i == root {
        assert(all[0] == i);
    } else {
        let c = lemma_leads_through(doc, i, root);
        lemma_children_have(doc, root, levels, doc.len(), i, c);
        let rest = preorder_of_children(doc, root, levels, doc.len());
        let k = choose|k: int| 0 <= k < rest.len() && rest[k] == i;
        assert(all[k + 1] == i);
    }
}

#[verifier::rlimit(50)]
proof fn lemma_children_have(doc: Seq<InstanceModel>, root: int, levels: nat, n: nat, i: int, c: int)
    requires
        parents_first(doc),
        0 <= root < c < n <= doc.len() <= usize::MAX,
        levels >= doc.len() - root,
        doc[c].parent == Some(root as usize),
        leads_up(doc, i, c),
    ensures
        preorder_of_children(doc, root, levels, n).contains(i),
    decreases levels, n + 1,
{
    let all = preorder_of_children(doc, root, levels, n);
    let before = preorder_of_children(doc, root, levels, (n - 1) as nat);
    if c == n - 1 {
        lemma_preorder_has(doc, c, (levels - 1) as nat, i);
        let more = preorder(doc, c, (levels - 1) as nat);
        let k = choose|k: int| 0 <= k < more.len() && more[k] == i;
        assert(all[before.len() + k] == i);
    } else {
        lemma_children_have(doc, root, levels, (n - 1) as nat, i, c);
        let k = choose|k: int| 0 <= k < before.len() && before[k] == i;
        assert(all[k] == i);
    }
}

/// A subtree holds its root and what stands below it, and nothing else; its root comes first.
pub proof fn law_subtree_holds_what_is_below(doc: Seq<InstanceModel>, root: int, i: int)
    requires
        parents_first(doc),
        0 <= root < doc.len() <= usize::MAX,
    ensures
        subtree(doc, root).contains(i) <==> leads_up(doc, i, root),
        subtree(doc, root).len() > 0,
        subtree(doc, root)[0] == root,
{
    if subtree(doc, root).contains(i) {
        lemma_preorder_in(doc, root, doc.len(), i);
    }
    if leads_up(doc, i, root) {
        lemma_preorder_has(doc, root, doc.len(), i);
    }
}

proof fn lemma_without(doc: Seq<InstanceModel>, removed: Seq<bool>, n: nat, i: int, k: int)
    requires
        n <= doc.len() <= usize::MAX,
        removed.len() == doc.len(),
    ensures
        without(doc, removed, n).len() == staying(removed, n),
        0 <= i < n && !removed[i] ==> staying(removed, i as nat) < staying(removed, n) && same_fields(
            without(doc, removed, n)[staying(removed, i as nat) as int],
            doc[i],
        ),
        0 <= k < without(doc, removed, n).len() ==> exists|j: int|
            0 <= j < n && !removed[j] && #[trigger] same_fields(without(doc, removed, n)[k], doc[j]),
    decreases n,
{
    if n > 0 {
        lemma_without(doc, removed, (n - 1) as nat, i, k);
        let before = without(doc, removed, (n - 1) as nat);
        let after = without(doc, removed, n);
        if 0 <= k < after.len() {
            if k < before.len() {
                let j = choose|j: int| 0 <= j < n - 1 && !removed[j] && #[trigger] same_fields(before[k], doc[j]);
                assert(same_fields(after[k], doc[j]));
            } else {
                assert(same_fields(after[k], doc[n - 1]));
            }
        }
    }
}

/// Two instances are the same but for the number of their parent.
pub open spec fn same_fields(a: InstanceModel, b: InstanceModel) -> bool {
    a.id == b.id && a.name == b.name && a.class_name == b.class_name && a.properties == b.properties && a.attributes
        == b.attributes
}

/// Removing an instance removes it with all that stands below it. Everything else stays, in its
/// order, with its name, its class and its fields.
pub proof fn law_removed_subtree_is_gone(doc: Seq<InstanceModel>, root: int, i: int, k: int)
    requires
        parents_first(doc),
        0 <= root < doc.len() <= usize::MAX,
    ensures
        ({
            let out = without_subtree(doc, root);
            &&& 0 <= i < doc.len() && !leads_up(doc, i, root) ==> exists|q: int|
                0 <= q < out.len() && #[trigger] same_fields(out[q], doc[i])
            &&& 0 <= k < out.len() ==> exists|j: int|
                0 <= j < doc.len() && !leads_up(doc, j, root) && #[trigger] same_fields(out[k], doc[j])
        }),
{
    let removed = marked(subtree(doc, root), doc.len());
    let out = without_subtree(doc, root);
    lemma_without(doc, removed, doc.len(), i, k);
    if 0 <= i < doc.len() && !leads_up(doc, i, root) {
        law_subtree_holds_what_is_below(doc, root, i);
        assert(!removed[i]);
        let q = staying(removed, i as nat) as int;
        assert(same_fields(out[q], doc[i]));
    }
    if 0 <= k < out.len() {
        let j = choose|j: int| 0 <= j < doc.len() && !removed[j] && #[trigger] same_fields(out[k], doc[j]);
        law_subtree_holds_what_is_below(doc, root, j);
        assert(same_fields(out[k], doc[j]));
    }
}

/// Clearing an instance keeps it and removes what stands below it; everything else stays.
pub proof fn law_cleared_instance_stays(doc: Seq<InstanceModel>, root: int, i: int)
    requires
        parents_first(doc),
        0 <= root < doc.len() <= usize::MAX,
        0 <= i < doc.len(),
        !leads_up(doc, i, root) || i == root,
    ensures
        exists|q: int|
            0 <= q < without_descendants(doc, root).len() && #[trigger] same_fields(
                without_descendants(doc, root)[q],
                doc[i],
            ),
{
    let below = subtree(doc, root).skip(1);
    let removed = marked(below, doc.len());
    lemma_without(doc, removed, doc.len(), i, 0);
    law_subtree_holds_what_is_below(doc, root, i);
    if below.contains(i) {
        let k = choose|k: int| 0 <= k < below.len() && below[k] == i;
        assert(subtree(doc, root)[k + 1] == i);
        assert(subtree(doc, root).contains(i));
        lemma_root_once(doc, root, k + 1);
    }
    assert(!removed[i]);
    let q = staying(removed, i as nat) as int;
    assert(same_fields(without_descendants(doc, root)[q], doc[i]));
}

proof fn lemma_root_once(doc: Seq<InstanceModel>, root: int, k: int)
    requires
        parents_first(doc),
        0 <= root < doc.len() <= usize::MAX,
        0 < k < subtree(doc, root).len(),
    ensures
        subtree(doc, root)[k] != root,
{
    let rest = preorder_of_children(doc, root, doc.len(), doc.len());
    assert(subtree(doc, root)[k] == rest[k - 1]);
    lemma_children_above(doc, root, doc.len(), doc.len(), k - 1);
}

proof fn lemma_above(doc: Seq<InstanceModel>, root: int, levels: nat, k: int)
    requires
        parents_first(doc),
        0 <= root < doc.len() <= usize::MAX,
        0 <= k < preorder(doc, root, levels).len(),
    ensures
        preorder(doc, root, levels)[k] >= root,
    decreases levels, doc.len() + 2,
{
    if k > 0 {
        lemma_children_above(doc, root, levels, doc.len(), k - 1);
    }
}

proof fn lemma_children_above(doc: Seq<InstanceModel>, root: int, levels: nat, n: nat, k: int)
    requires
        parents_first(doc),
        0 <= root < doc.len() <= usize::MAX,
        n <= doc.len(),
        0 <= k < preorder_of_children(doc, root, levels, n).len(),
    ensures
        preorder_of_children(doc, root, levels, n)[k] > root,
    decreases levels, n + 1,
{
    if n > 0 && levels > 0 {
        let before = preorder_of_children(doc, root, levels, (n - 1) as nat);
        if k < before.len() {
            lemma_children_above(doc, root, levels, (n - 1) as nat, k);
        } else {
            lemma_above(doc, n - 1, (levels - 1) as nat, k - before.len());
        }
    }
}

#[verifier::rlimit(50)]
proof fn lemma_packed(doc: Seq<InstanceModel>, at: Seq<int>, sources: Map<usize, Seq<char>>, n: nat, k: int)
    requires
        n <= at.len(),
        0 <= k < n,
    ensures
        ({
            let out = packed(doc, at, sources, n);
            let x = doc[at[k]];
            let script = x.class_name == "Script"@ || x.class_name == "LocalScript"@ || x.class_name == "ModuleScript"@;
            &&& out.len() == n
            &&& out[k].name == x.name && out[k].class_name == x.class_name && out[k].attributes == x.attributes
            &&& k == 0 ==> out[k].parent is None
            &&& k > 0 && x.parent is Some ==> out[k].parent == place_of(at, x.parent->0 as int, k as nat)
            &&& !script ==> out[k].properties == x.properties
            &&& script && sources.dom().contains(at[k] as usize) ==> out[k].properties.dom().contains("Source"@)
                && out[k].properties["Source"@] == JsonModel::Text(sources[at[k] as usize])
            &&& forall|name: Seq<char>|
                name != "Source"@ ==> #[trigger] out[k].properties.dom().contains(name) == x.properties.dom().contains(
                    name,
                ) && (x.properties.dom().contains(name) ==> out[k].properties[name] == x.properties[name])
        }),
    decreases n,
{
    lemma_packed_len(doc, at, sources, (n - 1) as nat);
    if k < n - 1 {
        lemma_packed(doc, at, sources, (n - 1) as nat, k);
    }
}

proof fn lemma_packed_len(doc: Seq<InstanceModel>, at: Seq<int>, sources: Map<usize, Seq<char>>, n: nat)
    ensures
        packed(doc, at, sources, n).len() == n,
    decreases n,
{
    if n > 0 {
        lemma_packed_len(doc, at, sources, (n - 1) as nat);
    }
}

proof fn lemma_place_of(at: Seq<int>, i: int, n: nat)
    requires
        n <= at.len() <= usize::MAX,
    ensures
        place_of(at, i, n) is None <==> forall|k: int| 0 <= k < n ==> #[trigger] at[k] != i,
        place_of(at, i, n) matches Some(k) ==> k < n && at[k as int] == i,
    decreases n,
{
    if n > 0 {
        lemma_place_of(at, i, (n - 1) as nat);
    }
}

/// The instances of a package are those of the subtree that was packed: their names, classes,
/// attributes and properties, with the sources of scripts, each under what its own parent became.
pub proof fn law_packed_instances_are_those_of_the_subtree(
    doc: Seq<InstanceModel>,
    at: Seq<int>,
    sources: Map<usize, Seq<char>>,
    k: int,
)
    requires
        0 <= k < at.len() <= usize::MAX,
    ensures
        ({
            let out = packed(doc, at, sources, at.len());
            let x = doc[at[k]];
            let script = x.class_name == "Script"@ || x.class_name == "LocalScript"@ || x.class_name == "ModuleScript"@;
            &&& out.len() == at.len()
            &&& out[k].name == x.name && out[k].class_name == x.class_name && out[k].attributes == x.attributes
            &&& k == 0 ==> out[k].parent is None
            &&& k > 0 && x.parent is Some && (exists|p: int| 0 <= p < k && #[trigger] at[p] == x.parent->0) ==> out[k].parent
                is Some && out[k].parent->0 < k && at[out[k].parent->0 as int] == x.parent->0
            &&& !script ==> out[k].properties == x.properties
            &&& script && sources.dom().contains(at[k] as usize) ==> out[k].properties.dom().contains("Source"@)
                && out[k].properties["Source"@] == JsonModel::Text(sources[at[k] as usize])
            &&& forall|name: Seq<char>|
                name != "Source"@ ==> #[trigger] out[k].properties.dom().contains(name) == x.properties.dom().contains(
                    name,
                ) && (x.properties.dom().contains(name) ==> out[k].properties[name] == x.properties[name])
        }),
{
    lemma_packed(doc, at, sources, at.len(), k);
    let x = doc[at[k]];
    if x.parent is Some {
        lemma_place_of(at, x.parent->0 as int, k as nat);
    }
}

proof fn lemma_externalized(doc: Seq<InstanceModel>, at: Seq<int>, has_file: Seq<bool>, n: nat, i: int)
    requires
        n <= at.len(),
        0 <= i < doc.len(),
    ensures
        ({
            let out = externalized(doc, at, has_file, n);
            let x = doc[i];
            let script = x.class_name == "Script"@ || x.class_name == "LocalScript"@ || x.class_name == "ModuleScript"@;
            let asked = (exists|k: int| 0 <= k < n && #[trigger] at[k] == i) && script && i < has_file.len()
                && has_file[i];
            &&& out.len() == doc.len()
            &&& !asked ==> out[i] == x
            &&& asked ==> out[i].properties == x.properties.insert("Source"@, JsonModel::Text("__SOURCE_EXTERNAL__"@))
            &&& out[i].id == x.id && out[i].name == x.name && out[i].class_name == x.class_name && out[i].parent
                == x.parent && out[i].attributes == x.attributes
        }),
    decreases n,
{
    if n > 0 {
        lemma_externalized(doc, at, has_file, (n - 1) as nat, i);
        let before = externalized(doc, at, has_file, (n - 1) as nat);
        let out = externalized(doc, at, has_file, n);
        if (exists|k: int| 0 <= k < n && #[trigger] at[k] == i) && at[n - 1] != i {
            let k = choose|k: int| 0 <= k < n && #[trigger] at[k] == i;
            assert(0 <= k < n - 1 && at[k] == i);
        }
        if exists|k: int| 0 <= k < n - 1 && #[trigger] at[k] == i {
            let k = choose|k: int| 0 <= k < n - 1 && #[trigger] at[k] == i;
            assert(0 <= k < n && at[k] == i);
        }
        if at[n - 1] == i {
            assert(doc[i].properties.insert("Source"@, JsonModel::Text("__SOURCE_EXTERNAL__"@)).insert(
                "Source"@,
                JsonModel::Text("__SOURCE_EXTERNAL__"@),
            ) =~= doc[i].properties.insert("Source"@, JsonModel::Text("__SOURCE_EXTERNAL__"@)));
        }
    }
}

/// The scripts that were asked for and have files hold only a mark that their sources are there;
/// all else stays.
pub proof fn law_sources_move_to_files(doc: Seq<InstanceModel>, at: Seq<int>, has_file: Seq<bool>, i: int)
    requires
        0 <= i < doc.len(),
    ensures
        ({
            let out = externalized(doc, at, has_file, at.len());
            let x = doc[i];
            let script = x.class_name == "Script"@ || x.class_name == "LocalScript"@ || x.class_name == "ModuleScript"@;
            let asked = (exists|k: int| 0 <= k < at.len() && #[trigger] at[k] == i) && script && i < has_file.len()
                && has_file[i];
            &&& out.len() == doc.len()
            &&& !asked ==> out[i] == x
            &&& asked ==> out[i].properties == x.properties.insert("Source"@, JsonModel::Text("__SOURCE_EXTERNAL__"@))
            &&& out[i].id == x.id && out[i].name == x.name && out[i].class_name == x.class_name && out[i].parent
                == x.parent && out[i].attributes == x.attributes
        }),
{
    lemma_externalized(doc, at, has_file, at.len(), i);
}

/// A reference to an instance of the package goes by the number of the instance in it; one to an
/// instance outside is refused. Selectors by which the instance was named before are gone.
pub proof fn law_references_stay_in_the_package(
    doc: Seq<InstanceModel>,
    at: Seq<int>,
    o: Map<Seq<char>, JsonModel>,
    i: usize,
)
    requires
        crate::pack::pointer(doc, o) == crate::pack::Pointer::At(i),
        at.len() < usize::MAX,
    ensures
        ({
            let r = packed_reference(doc, at, o);
            &&& r is Ok <==> exists|k: int| 0 <= k < at.len() && #[trigger] at[k] == i
            &&& r is Ok ==> exists|k: int|
                0 <= k < at.len() && #[trigger] at[k] == i && r->Ok_0.dom().contains("instanceIndex"@)
                    && r->Ok_0["instanceIndex"@] == crate::references::number_model(k + 1)
            &&& r is Ok ==> !r->Ok_0.dom().contains("settingsId"@) && !r->Ok_0.dom().contains("instanceId"@)
                && !r->Ok_0.dom().contains("pathSegments"@) && !r->Ok_0.dom().contains("pathOrdinals"@)
        }),
{
    lemma_place_of(at, i as int, at.len());
    reveal_strlit("settingsId");
    reveal_strlit("instanceId");
    reveal_strlit("instanceIndex");
    reveal_strlit("pathSegments");
    reveal_strlit("pathOrdinals");
    assert("settingsId"@.len() == 10 && "instanceId"@.len() == 10 && "instanceIndex"@.len() == 13);
    assert("pathSegments"@.len() == 12 && "pathOrdinals"@.len() == 12);
    match place_of(at, i as int, at.len()) {
        Some(k) => {
            assert(at[k as int] == i);
        },
        None => {},
    }
}

} // verus!
