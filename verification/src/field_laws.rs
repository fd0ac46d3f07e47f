//! What a project owns of an instance, and what speaks of a path.
use vstd::prelude::*;

use crate::document::InstanceModel;
use crate::explain::{MatchModel, is_at_or_below, mount_matches, tree_matches};
use crate::fields::{
    FieldOwnerModel, OwnershipError, ProjectionFieldOwner, field_owners, first_difference, instance_checked,
    owner_checked, owners_checked, project_field_owners, unordered, unsorted_owners,
};
use crate::json::{JsonModel, same_opt};
use crate::link_apply::value_of;
use crate::order::sorted;
use crate::paths::slash_text;
use crate::place::PlaceProperty;
use crate::place_omit::{saved_properties, unsaved_names};
use crate::project::{LoadedProject, TreeNodeModel, all_tree_nodes};
use crate::projects::PlacedProjectModel;
use crate::references::is_reference;
use crate::settle::settled_value;
use crate::source_counts::{TargetSources, linked_instances, most_instances};
use crate::text::joined_by;

verus! {

proof fn lemma_first_difference(
    names: Seq<Seq<char>>,
    a: Map<Seq<char>, JsonModel>,
    b: Map<Seq<char>, JsonModel>,
    from: int,
)
    requires
        0 <= from <= names.len(),
    ensures
        first_difference(names, a, b, from) is None <==> forall|i: int|
            from <= i < names.len() ==> same_opt(value_of(a, #[trigger] names[i]), value_of(b, names[i])),
        first_difference(names, a, b, from) matches Some(i) ==> from <= i < names.len() && !same_opt(
            value_of(a, names[i]),
            value_of(b, names[i]),
        ),
    decreases names.len() - from,
{
    if from < names.len() {
        lemma_first_difference(names, a, b, from + 1);
    }
}

/// An instance has everything that a project says of it.
pub open spec fn is_as_owned(owner: FieldOwnerModel, changed: InstanceModel, original: InstanceModel) -> bool {
    &&& owner.class_name ==> changed.class_name == original.class_name
    &&& owner.settings_id ==> changed.id == original.id
    &&& forall|i: int|
        0 <= i < owner.properties.len() ==> same_opt(
            value_of(changed.properties, #[trigger] owner.properties[i]),
            value_of(original.properties, owner.properties[i]),
        )
    &&& forall|i: int|
        0 <= i < owner.attributes.len() ==> same_opt(
            value_of(changed.attributes, #[trigger] owner.attributes[i]),
            value_of(original.attributes, owner.attributes[i]),
        )
    &&& owner.tags ==> same_opt(value_of(changed.properties, "Tags"@), value_of(original.properties, "Tags"@))
}

proof fn lemma_instance_checked(owner: FieldOwnerModel, changed: InstanceModel, original: InstanceModel)
    ensures
        instance_checked(owner, changed, original) is Ok <==> is_as_owned(owner, changed, original),
{
    lemma_first_difference(owner.properties, changed.properties, original.properties, 0);
    lemma_first_difference(owner.attributes, changed.attributes, original.attributes, 0);
}

/// What a project says of a target is there, in the services, as it was.
pub open spec fn owner_is_kept(
    owner: FieldOwnerModel,
    documents: Map<Seq<char>, Seq<InstanceModel>>,
    baseline: Map<Seq<char>, Seq<InstanceModel>>,
) -> bool {
    &&& owner.target.len() > 0
    &&& documents.dom().contains(owner.target[0])
    &&& baseline.dom().contains(owner.target[0])
    &&& unordered(baseline[owner.target[0]], owner.target) is Some
    &&& unordered(documents[owner.target[0]], owner.target) is Some
    &&& is_as_owned(
        owner,
        documents[owner.target[0]][unordered(documents[owner.target[0]], owner.target)->0 as int],
        baseline[owner.target[0]][unordered(baseline[owner.target[0]], owner.target)->0 as int],
    )
}

proof fn lemma_owners_checked(
    owners: Seq<FieldOwnerModel>,
    documents: Map<Seq<char>, Seq<InstanceModel>>,
    baseline: Map<Seq<char>, Seq<InstanceModel>>,
    from: int,
)
    requires
        0 <= from <= owners.len() <= usize::MAX,
    ensures
        owners_checked(owners, documents, baseline, from) is Ok <==> forall|i: int|
            from <= i < owners.len() ==> owner_is_kept(#[trigger] owners[i], documents, baseline),
        owners_checked(owners, documents, baseline, from) matches Err(e) ==> from <= e.owner < owners.len()
            && !owner_is_kept(owners[e.owner as int], documents, baseline) && owner_checked(
            owners[e.owner as int],
            documents,
            baseline,
        ) == Err::<(), OwnershipError>(e.error),
    decreases owners.len() - from,
{
    if from < owners.len() {
        lemma_owners_checked(owners, documents, baseline, from + 1);
        let owner = owners[from];
        if owner.target.len() > 0 && documents.dom().contains(owner.target[0]) && baseline.dom().contains(
            owner.target[0],
        ) && unordered(baseline[owner.target[0]], owner.target) is Some && unordered(
            documents[owner.target[0]],
            owner.target,
        ) is Some {
            lemma_instance_checked(
                owner,
                documents[owner.target[0]][unordered(documents[owner.target[0]], owner.target)->0 as int],
                baseline[owner.target[0]][unordered(baseline[owner.target[0]], owner.target)->0 as int],
            );
        }
        assert(owner_checked(owner, documents, baseline) is Ok <==> owner_is_kept(owner, documents, baseline));
    }
}

/// Services are accepted when every instance that a project speaks of is there and has the class,
/// the id, the properties, the attributes and the tags that the project gives it. The first that
/// is not so is told.
pub proof fn law_owned_fields_may_not_change(
    owners: Seq<FieldOwnerModel>,
    documents: Map<Seq<char>, Seq<InstanceModel>>,
    baseline: Map<Seq<char>, Seq<InstanceModel>>,
)
    requires
        owners.len() <= usize::MAX,
    ensures
        owners_checked(owners, documents, baseline, 0) is Ok <==> forall|i: int|
            0 <= i < owners.len() ==> owner_is_kept(#[trigger] owners[i], documents, baseline),
        owners_checked(owners, documents, baseline, 0) matches Err(e) ==> e.owner < owners.len() && !owner_is_kept(
            owners[e.owner as int],
            documents,
            baseline,
        ),
{
    lemma_owners_checked(owners, documents, baseline, 0);
}

proof fn lemma_unsorted(list: Seq<PlacedProjectModel>, with_root: bool, n: nat, p: int, k: int)
    requires
        n <= list.len(),
        0 <= p < n,
        0 <= k < project_field_owners(list[p], with_root || p > 0).len(),
    ensures
        unsorted_owners(list, with_root, n).contains(project_field_owners(list[p], with_root || p > 0)[k]),
    decreases n,
{
    let before = unsorted_owners(list, with_root, (n - 1) as nat);
    let after = unsorted_owners(list, with_root, n);
    let x = project_field_owners(list[p], with_root || p > 0)[k];
    if p == n - 1 {
        assert(after[before.len() + k] == x);
    } else {
        lemma_unsorted(list, with_root, (n - 1) as nat, p, k);
        let j = choose|j: int| 0 <= j < before.len() && before[j] == x;
        assert(after[j] == x);
    }
}

proof fn lemma_sorted_has(v: Seq<FieldOwnerModel>, e: FieldOwnerModel)
    requires
        v.contains(e),
    ensures
        sorted::<ProjectionFieldOwner>(v, v.len()).contains(e),
{
    broadcast use vstd::seq_lib::group_to_multiset_ensures;

    crate::order::law_sorting_orders::<ProjectionFieldOwner>(v, v.len());
    assert(v.take(v.len() as int) =~= v);
    let s = sorted::<ProjectionFieldOwner>(v, v.len());
    assert(v.to_multiset().count(e) > 0);
    assert(s.to_multiset().count(e) > 0);
}

/// Every node of every project owns, at its target below the place of the project, what it says.
pub proof fn law_nodes_own_what_they_say(list: Seq<PlacedProjectModel>, with_root: bool, p: int, i: int)
    requires
        0 <= p < list.len(),
        0 <= i < all_tree_nodes(list[p].tree.loaded.project).len(),
    ensures
        exists|k: int|
            0 <= k < field_owners(list, with_root).len() && (#[trigger] field_owners(list, with_root)[k]).target
                == list[p].prefix + all_tree_nodes(list[p].tree.loaded.project)[i].target && field_owners(
                list,
                with_root,
            )[k].class_name == (all_tree_nodes(list[p].tree.loaded.project)[i].node.class_name is Some) && field_owners(
                list,
                with_root,
            )[k].settings_id == (all_tree_nodes(list[p].tree.loaded.project)[i].node.id is Some) && field_owners(
                list,
                with_root,
            )[k].tags == (all_tree_nodes(list[p].tree.loaded.project)[i].node.tags is Some) && field_owners(
                list,
                with_root,
            )[k].properties == crate::order::in_order(
                crate::fields::member_keys(all_tree_nodes(list[p].tree.loaded.project)[i].node.properties@),
            ) && field_owners(list, with_root)[k].attributes == crate::order::in_order(
                crate::fields::member_keys(all_tree_nodes(list[p].tree.loaded.project)[i].node.attributes@),
            ),
{
    let x = list[p];
    let nodes = all_tree_nodes(x.tree.loaded.project);
    let root = crate::fields::root_owners(x, with_root || p > 0);
    let mine = project_field_owners(x, with_root || p > 0);
    let at = root.len() + i;
    let owner = crate::fields::node_owner(
        nodes[i].node,
        x.prefix + nodes[i].target,
        crate::fields::tree_source(x.tree.loaded.path@, nodes[i].target),
    );
    assert(mine[at] == owner);
    lemma_unsorted(list, with_root, list.len(), p, at);
    let all = unsorted_owners(list, with_root, list.len());
    lemma_sorted_has(all, owner);
    let s = field_owners(list, with_root);
    let k = choose|k: int| 0 <= k < s.len() && s[k] == owner;
    assert(s[k].target == x.prefix + nodes[i].target);
}

/// A path belongs to a source that it is, or lies below.
pub proof fn law_paths_belong_to_what_is_above(path: Seq<char>, rest: Seq<char>)
    ensures
        is_at_or_below(path, path),
        is_at_or_below(path + "/"@ + rest, path),
{
    assert((path + "/"@ + rest).subrange(0, (path + "/"@).len() as int) =~= path + "/"@);
}

proof fn lemma_tree_matches(nodes: Seq<TreeNodeModel>, path: Seq<char>, n: nat, i: int)
    requires
        n <= nodes.len(),
        0 <= i < n,
        nodes[i].node.path is Some,
        is_at_or_below(path, slash_text(nodes[i].node.path->0@)),
    ensures
        tree_matches(nodes, path, n).contains(
            MatchModel::Tree { source: slash_text(nodes[i].node.path->0@), target: joined_by(nodes[i].target, "."@) },
        ),
    decreases n,
{
    let x = MatchModel::Tree { source: slash_text(nodes[i].node.path->0@), target: joined_by(nodes[i].target, "."@) };
    let before = tree_matches(nodes, path, (n - 1) as nat);
    let after = tree_matches(nodes, path, n);
    if i == n - 1 {
        assert(after[before.len() as int] == x);
    } else {
        lemma_tree_matches(nodes, path, (n - 1) as nat, i);
        let k = choose|k: int| 0 <= k < before.len() && before[k] == x;
        assert(after[k] == x);
    }
}

proof fn lemma_mount_matches(loaded: LoadedProject, path: Seq<char>, n: nat, i: int)
    requires
        n <= loaded.project.mounts@.len(),
        0 <= i < n,
        is_at_or_below(path, slash_text(loaded.project.mounts@[i].source@)),
    ensures
        mount_matches(loaded, path, n).contains(
            MatchModel::Mount {
                index: i,
                source: slash_text(loaded.project.mounts@[i].source@),
                target: loaded.project.mounts@[i].target@,
                ownership: loaded.project.mounts@[i].ownership,
            },
        ),
    decreases n,
{
    let x = MatchModel::Mount {
        index: i,
        source: slash_text(loaded.project.mounts@[i].source@),
        target: loaded.project.mounts@[i].target@,
        ownership: loaded.project.mounts@[i].ownership,
    };
    let before = mount_matches(loaded, path, (n - 1) as nat);
    let after = mount_matches(loaded, path, n);
    if i == n - 1 {
        assert(after[before.len() as int] == x);
    } else {
        lemma_mount_matches(loaded, path, (n - 1) as nat, i);
        let k = choose|k: int| 0 <= k < before.len() && before[k] == x;
        assert(after[k] == x);
    }
}

/// Every node and every mount whose source is a path, or lies above it, is told of the path.
pub proof fn law_paths_are_explained(loaded: LoadedProject, path: Seq<char>, i: int)
    ensures
        ({
            let nodes = all_tree_nodes(loaded.project);
            &&& 0 <= i < nodes.len() && nodes[i].node.path is Some && is_at_or_below(
                path,
                slash_text(nodes[i].node.path->0@),
            ) ==> tree_matches(nodes, path, nodes.len()).contains(
                MatchModel::Tree {
                    source: slash_text(nodes[i].node.path->0@),
                    target: joined_by(nodes[i].target, "."@),
                },
            )
            &&& 0 <= i < loaded.project.mounts@.len() && is_at_or_below(
                path,
                slash_text(loaded.project.mounts@[i].source@),
            ) ==> mount_matches(loaded, path, loaded.project.mounts@.len()).contains(
                MatchModel::Mount {
                    index: i,
                    source: slash_text(loaded.project.mounts@[i].source@),
                    target: loaded.project.mounts@[i].target@,
                    ownership: loaded.project.mounts@[i].ownership,
                },
            )
        }),
{
    let nodes = all_tree_nodes(loaded.project);
    if 0 <= i < nodes.len() && nodes[i].node.path is Some && is_at_or_below(path, slash_text(nodes[i].node.path->0@)) {
        lemma_tree_matches(nodes, path, nodes.len(), i);
    }
    if 0 <= i < loaded.project.mounts@.len() && is_at_or_below(path, slash_text(loaded.project.mounts@[i].source@)) {
        lemma_mount_matches(loaded, path, loaded.project.mounts@.len(), i);
    }
}

/// Settling a value names what it refers to by number by its id instead; a number that no
/// instance has is nothing, and what is no reference stays.
pub proof fn law_settled_references_go_by_id(o: Map<Seq<char>, JsonModel>, ids: Seq<Seq<char>>, i: usize)
    ensures
        is_reference(o) && crate::references::index_field(o) == Some(i) && i < ids.len() ==> settled_value(
            JsonModel::Object(o),
            ids,
        ) is Object && settled_value(JsonModel::Object(o), ids)->Object_0.dom().contains("settingsId"@) && settled_value(
            JsonModel::Object(o),
            ids,
        )->Object_0["settingsId"@] == JsonModel::Text(ids[i as int]),
        is_reference(o) && crate::references::index_field(o) == Some(i) && i >= ids.len() ==> settled_value(
            JsonModel::Object(o),
            ids,
        ) == JsonModel::Null,
        !is_reference(o) ==> settled_value(JsonModel::Object(o), ids) == JsonModel::Object(o),
{
}

/// The properties that are kept are those that a place file keeps; the names of the others are told.
pub proof fn law_unsaved_properties_are_told(list: Seq<PlaceProperty>, n: nat, i: int)
    requires
        n <= list.len(),
        0 <= i < n,
    ensures
        list[i].saved ==> saved_properties(list, n).contains(list[i]),
        !list[i].saved ==> unsaved_names(list, n).contains(list[i].name@),
        saved_properties(list, n).len() + unsaved_names(list, n).len() == n,
        forall|k: int| 0 <= k < saved_properties(list, n).len() ==> (#[trigger] saved_properties(list, n)[k]).saved,
    decreases n,
{
    let before = saved_properties(list, (n - 1) as nat);
    let after = saved_properties(list, n);
    let names = unsaved_names(list, (n - 1) as nat);
    let told = unsaved_names(list, n);
    if n > 1 {
        law_unsaved_properties_are_told(
            list,
            (n - 1) as nat,
            if i < n - 1 {
                i
            } else {
                0
            },
        );
    }
    if i < n - 1 {
        if list[i].saved {
            let k = choose|k: int| 0 <= k < before.len() && before[k] == list[i];
            assert(after[k] == list[i]);
        } else {
            let k = choose|k: int| 0 <= k < names.len() && names[k] == list[i].name@;
            assert(told[k] == list[i].name@);
        }
    } else {
        if list[i].saved {
            assert(after[before.len() as int] == list[i]);
        } else {
            assert(told[names.len() as int] == list[i].name@);
        }
    }
    assert forall|k: int| 0 <= k < after.len() implies (#[trigger] after[k]).saved by {
        if k < before.len() {
            assert(after[k] == before[k]);
        }
    }
}

/// The instances of a link are as many as those of its largest target.
pub proof fn law_the_largest_target_counts(all: Seq<TargetSources>, id: Seq<char>, n: nat, i: int)
    requires
        n <= all.len(),
    ensures
        0 <= i < n && all[i].link_id@ == id ==> most_instances(all, id, n) >= linked_instances(all[i]).len(),
        most_instances(all, id, n) > 0 ==> exists|k: int|
            0 <= k < n && (#[trigger] all[k]).link_id@ == id && linked_instances(all[k]).len() == most_instances(
                all,
                id,
                n,
            ),
    decreases n,
{
    if n > 0 {
        law_the_largest_target_counts(all, id, (n - 1) as nat, i);
        let before = most_instances(all, id, (n - 1) as nat);
        if most_instances(all, id, n) == before && before > 0 {
            let k = choose|k: int|
                0 <= k < n - 1 && (#[trigger] all[k]).link_id@ == id && linked_instances(all[k]).len() == before;
            assert(0 <= k < n && all[k].link_id@ == id);
        } else if most_instances(all, id, n) > 0 {
            assert(all[n - 1].link_id@ == id);
        }
    }
}

} // verus!
