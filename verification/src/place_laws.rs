//! What the document of a place holds.
use vstd::prelude::*;

use crate::json::{JsonModel, same_json};
use crate::place::{
    DocumentError, Place, PlaceNode, PlaceProperty, ValueKind, VisitModel, document_to, left_out,
    numbered_place, properties_added, property_json, reference_json, same_names, service_visits, visit_of,
    visited,
};
use crate::references::{number_model, texts_model};

verus! {

/// A visit is that of a child: the child at a number of some nodes, below a path.
pub open spec fn is_child_visit(x: VisitModel, nodes: Seq<PlaceNode>, path: Seq<Seq<char>>, ordinals: Seq<int>, c: int) -> bool {
    &&& 0 <= c < nodes.len()
    &&& x.node == nodes[c]
    &&& x.path == path.push(nodes[c].name@)
    &&& x.ordinals == ordinals.push(same_names(nodes, nodes[c].name@, (c + 1) as nat) as int)
}

/// A visit is that of a child of an earlier one.
pub open spec fn has_visited_parent(out: Seq<VisitModel>, start: int, k: int, q: int) -> bool {
    &&& 0 <= q < k
    &&& out[k].parent == Some(start + q)
    &&& exists|c: int| #[trigger] is_child_visit(out[k], out[q].node.children@, out[q].path, out[q].ordinals, c)
}

/// A visit is that of a child of some nodes, or of an earlier visit.
pub open spec fn comes_from(
    out: Seq<VisitModel>,
    nodes: Seq<PlaceNode>,
    above: VisitModel,
    start: int,
    k: int,
) -> bool {
    (out[k].parent == above.parent && exists|c: int| #[trigger]
        is_child_visit(out[k], nodes, above.path, above.ordinals, c)) || exists|q: int| #[trigger]
        has_visited_parent(out, start, k, q)
}

proof fn lemma_shifted(part: Seq<VisitModel>, all: Seq<VisitModel>, start: int, by: int, k: int, q: int)
    requires
        has_visited_parent(part, start + by, k, q),
        0 <= by,
        k < part.len(),
        forall|i: int| 0 <= i < part.len() ==> all[i + by] == #[trigger] part[i],
    ensures
        has_visited_parent(all, start, k + by, q + by),
{
    assert(all[k + by] == part[k]);
    assert(all[q + by] == part[q]);
    let c = choose|c: int| #[trigger]
        is_child_visit(part[k], part[q].node.children@, part[q].path, part[q].ordinals, c);
    assert(is_child_visit(all[k + by], all[q + by].node.children@, all[q + by].path, all[q + by].ordinals, c));
}

#[verifier::rlimit(50)]
proof fn lemma_from(nodes: Seq<PlaceNode>, n: nat, above: VisitModel, start: int, k: int)
    requires
        n <= nodes.len(),
        0 <= k < visited(nodes, n, above, start).len(),
    ensures
        comes_from(visited(nodes, n, above, start), nodes, above, start, k),
    decreases nodes, n,
{
    if n > 0 {
        let before = visited(nodes, (n - 1) as nat, above, start);
        let x = nodes[n - 1];
        let here = VisitModel {
            node: x,
            parent: above.parent,
            path: above.path.push(x.name@),
            ordinals: above.ordinals.push(same_names(nodes, x.name@, n) as int),
        };
        let at = start + before.len();
        let up = VisitModel { parent: Some(at), ..here };
        let inner = visited(x.children@, x.children@.len(), up, at + 1);
        let out = visited(nodes, n, above, start);
        let b = before.len() as int;
        assert(out == before.push(here) + inner);
        assert(out[b] == here);
        if k < b {
            lemma_from(nodes, (n - 1) as nat, above, start, k);
            if exists|q: int| #[trigger] has_visited_parent(before, start, k, q) {
                let q = choose|q: int| #[trigger] has_visited_parent(before, start, k, q);
                assert forall|i: int| 0 <= i < before.len() implies out[i + 0] == #[trigger] before[i] by {}
                lemma_shifted(before, out, start, 0, k, q);
            } else {
                assert(out[k] == before[k]);
            }
        } else if k == b {
            assert(is_child_visit(out[k], nodes, above.path, above.ordinals, n - 1));
        } else {
            let j = k - b - 1;
            assert(out[k] == inner[j]);
            lemma_from(x.children@, x.children@.len(), up, at + 1, j);
            if exists|q: int| #[trigger] has_visited_parent(inner, at + 1, j, q) {
                let q = choose|q: int| #[trigger] has_visited_parent(inner, at + 1, j, q);
                assert forall|i: int| 0 <= i < inner.len() implies out[i + (b + 1)] == #[trigger] inner[i] by {}
                lemma_shifted(inner, out, start, b + 1, j, q);
            } else {
                let c = choose|c: int| #[trigger] is_child_visit(inner[j], x.children@, up.path, up.ordinals, c);
                assert(is_child_visit(out[k], out[b].node.children@, out[b].path, out[b].ordinals, c));
                assert(has_visited_parent(out, start, k, b));
            }
        }
    }
}

proof fn lemma_reached(nodes: Seq<PlaceNode>, n: nat, above: VisitModel, start: int, c: int) -> (k: int)
    requires
        n <= nodes.len(),
        0 <= c < n,
    ensures
        0 <= k < visited(nodes, n, above, start).len(),
        visited(nodes, n, above, start)[k].parent == above.parent,
        visited(nodes, n, above, start)[k].node == nodes[c],
    decreases n,
{
    let before = visited(nodes, (n - 1) as nat, above, start);
    let out = visited(nodes, n, above, start);
    if c < n - 1 {
        let k = lemma_reached(nodes, (n - 1) as nat, above, start, c);
        assert(out[k] == before[k]);
        k
    } else {
        assert(out[before.len() as int].node == nodes[c]);
        before.len() as int
    }
}

#[verifier::rlimit(50)]
proof fn lemma_reached_below(nodes: Seq<PlaceNode>, n: nat, above: VisitModel, start: int, q: int, c: int) -> (k: int)
    requires
        n <= nodes.len(),
        0 <= q < visited(nodes, n, above, start).len(),
        0 <= c < visited(nodes, n, above, start)[q].node.children@.len(),
    ensures
        q < k < visited(nodes, n, above, start).len(),
        visited(nodes, n, above, start)[k].parent == Some(start + q),
        visited(nodes, n, above, start)[k].node == visited(nodes, n, above, start)[q].node.children@[c],
    decreases nodes, n,
{
    let before = visited(nodes, (n - 1) as nat, above, start);
    let x = nodes[n - 1];
    let here = VisitModel {
        node: x,
        parent: above.parent,
        path: above.path.push(x.name@),
        ordinals: above.ordinals.push(same_names(nodes, x.name@, n) as int),
    };
    let at = start + before.len();
    let up = VisitModel { parent: Some(at), ..here };
    let inner = visited(x.children@, x.children@.len(), up, at + 1);
    let out = visited(nodes, n, above, start);
    let b = before.len() as int;
    assert(out == before.push(here) + inner);
    if q < b {
        assert(out[q] == before[q]);
        let k = lemma_reached_below(nodes, (n - 1) as nat, above, start, q, c);
        assert(out[k] == before[k]);
        k
    } else if q == b {
        let k = lemma_reached(x.children@, x.children@.len(), up, at + 1, c);
        assert(out[k + b + 1] == inner[k]);
        k + b + 1
    } else {
        assert(out[q] == inner[q - b - 1]);
        let k = lemma_reached_below(x.children@, x.children@.len(), up, at + 1, q - b - 1, c);
        assert(out[k + b + 1] == inner[k]);
        k + b + 1
    }
}

/// A service is asked for where none are named, or it is.
pub open spec fn is_asked_service(services: Option<Seq<Seq<char>>>, name: Seq<char>) -> bool {
    services is None || services->0.contains(name)
}

/// A visit is that of a service that was asked for.
pub open spec fn is_service_visit(x: VisitModel, roots: Seq<PlaceNode>, services: Option<Seq<Seq<char>>>) -> bool {
    x.parent is None && exists|c: int| #[trigger]
        is_child_visit(x, roots, Seq::empty(), Seq::empty(), c) && is_asked_service(services, roots[c].name@)
}

#[verifier::rlimit(50)]
proof fn lemma_service_from(roots: Seq<PlaceNode>, services: Option<Seq<Seq<char>>>, n: nat, k: int)
    requires
        n <= roots.len(),
        0 <= k < service_visits(roots, services, n).len(),
    ensures
        is_service_visit(service_visits(roots, services, n)[k], roots, services) || exists|q: int| #[trigger]
            has_visited_parent(service_visits(roots, services, n), 0, k, q),
    decreases n,
{
    let before = service_visits(roots, services, (n - 1) as nat);
    let x = roots[n - 1];
    let out = service_visits(roots, services, n);
    if !is_asked_service(services, x.name@) {
        lemma_service_from(roots, services, (n - 1) as nat, k);
    } else {
        let b = before.len() as int;
        let here = VisitModel {
            node: x,
            parent: None,
            path: seq![x.name@],
            ordinals: seq![same_names(roots, x.name@, n) as int],
        };
        let up = VisitModel { parent: Some(b), ..here };
        let inner = visited(x.children@, x.children@.len(), up, b + 1);
        assert(out == before.push(here) + inner);
        assert(out[b] == here);
        if k < b {
            lemma_service_from(roots, services, (n - 1) as nat, k);
            assert(out[k] == before[k]);
            if exists|q: int| #[trigger] has_visited_parent(before, 0, k, q) {
                let q = choose|q: int| #[trigger] has_visited_parent(before, 0, k, q);
                assert forall|i: int| 0 <= i < before.len() implies out[i + 0] == #[trigger] before[i] by {}
                lemma_shifted(before, out, 0, 0, k, q);
            }
        } else if k == b {
            assert(Seq::<Seq<char>>::empty().push(x.name@) =~= seq![x.name@]);
            assert(Seq::<int>::empty().push(same_names(roots, x.name@, n) as int) =~= seq![
                same_names(roots, x.name@, n) as int,
            ]);
            assert(is_child_visit(out[k], roots, Seq::empty(), Seq::empty(), n - 1));
        } else {
            let j = k - b - 1;
            assert(out[k] == inner[j]);
            lemma_from(x.children@, x.children@.len(), up, b + 1, j);
            if exists|q: int| #[trigger] has_visited_parent(inner, b + 1, j, q) {
                let q = choose|q: int| #[trigger] has_visited_parent(inner, b + 1, j, q);
                assert forall|i: int| 0 <= i < inner.len() implies out[i + (b + 1)] == #[trigger] inner[i] by {}
                lemma_shifted(inner, out, 0, b + 1, j, q);
            } else {
                let c = choose|c: int| #[trigger] is_child_visit(inner[j], x.children@, up.path, up.ordinals, c);
                assert(is_child_visit(out[k], out[b].node.children@, out[b].path, out[b].ordinals, c));
                assert(has_visited_parent(out, 0, k, b));
            }
        }
    }
}

proof fn lemma_service_reached(roots: Seq<PlaceNode>, services: Option<Seq<Seq<char>>>, n: nat, c: int) -> (k: int)
    requires
        n <= roots.len(),
        0 <= c < n,
        is_asked_service(services, roots[c].name@),
    ensures
        0 <= k < service_visits(roots, services, n).len(),
        service_visits(roots, services, n)[k].parent is None,
        service_visits(roots, services, n)[k].node == roots[c],
    decreases n,
{
    let before = service_visits(roots, services, (n - 1) as nat);
    let out = service_visits(roots, services, n);
    if c < n - 1 {
        let k = lemma_service_reached(roots, services, (n - 1) as nat, c);
        assert(out[k] == before[k]);
        k
    } else {
        assert(out[before.len() as int].node == roots[c]);
        before.len() as int
    }
}

#[verifier::rlimit(50)]
proof fn lemma_service_below(roots: Seq<PlaceNode>, services: Option<Seq<Seq<char>>>, n: nat, q: int, c: int) -> (k: int)
    requires
        n <= roots.len(),
        0 <= q < service_visits(roots, services, n).len(),
        0 <= c < service_visits(roots, services, n)[q].node.children@.len(),
    ensures
        q < k < service_visits(roots, services, n).len(),
        service_visits(roots, services, n)[k].parent == Some(q),
        service_visits(roots, services, n)[k].node == service_visits(roots, services, n)[q].node.children@[c],
    decreases n,
{
    let before = service_visits(roots, services, (n - 1) as nat);
    let x = roots[n - 1];
    let out = service_visits(roots, services, n);
    let b = before.len() as int;
    if q < b {
        let k = lemma_service_below(roots, services, (n - 1) as nat, q, c);
        assert(out[q] == before[q]);
        assert(out[k] == before[k]);
        k
    } else {
        let here = VisitModel {
            node: x,
            parent: None,
            path: seq![x.name@],
            ordinals: seq![same_names(roots, x.name@, n) as int],
        };
        let up = VisitModel { parent: Some(b), ..here };
        let inner = visited(x.children@, x.children@.len(), up, b + 1);
        assert(out == before.push(here) + inner);
        if q == b {
            let k = lemma_reached(x.children@, x.children@.len(), up, b + 1, c);
            assert(out[k + b + 1] == inner[k]);
            k + b + 1
        } else {
            assert(out[q] == inner[q - b - 1]);
            let k = lemma_reached_below(x.children@, x.children@.len(), up, b + 1, q - b - 1, c);
            assert(out[k + b + 1] == inner[k]);
            k + b + 1
        }
    }
}

/// Every service that was asked for is visited, and every child of what is visited, each after its
/// parent, with the names and the ordinals on the way to it. Nothing else is.
pub proof fn law_services_are_visited_whole(roots: Seq<PlaceNode>, services: Option<Seq<Seq<char>>>, k: int, c: int)
    ensures
        ({
            let out = service_visits(roots, services, roots.len());
            &&& 0 <= k < out.len() ==> is_service_visit(out[k], roots, services) || exists|q: int| #[trigger]
                has_visited_parent(out, 0, k, q)
            &&& 0 <= c < roots.len() && is_asked_service(services, roots[c].name@) ==> exists|i: int|
                0 <= i < out.len() && (#[trigger] out[i]).parent is None && out[i].node == roots[c]
            &&& 0 <= k < out.len() && 0 <= c < out[k].node.children@.len() ==> exists|i: int|
                k < i < out.len() && (#[trigger] out[i]).parent == Some(k) && out[i].node == out[k].node.children@[c]
        }),
{
    let out = service_visits(roots, services, roots.len());
    if 0 <= k < out.len() {
        lemma_service_from(roots, services, roots.len(), k);
        if 0 <= c < out[k].node.children@.len() {
            let i = lemma_service_below(roots, services, roots.len(), k, c);
            assert(out[i].parent == Some(k));
        }
    }
    if 0 <= c < roots.len() && is_asked_service(services, roots[c].name@) {
        let i = lemma_service_reached(roots, services, roots.len(), c);
        assert(out[i].parent is None);
    }
}

proof fn lemma_document(
    inside: Seq<VisitModel>,
    all: Seq<VisitModel>,
    prefix: Seq<char>,
    compared: bool,
    n: nat,
    i: int,
)
    requires
        n <= inside.len(),
        0 <= i < n,
        document_to(inside, all, prefix, compared, n) is Ok,
    ensures
        ({
            let out = document_to(inside, all, prefix, compared, n)->Ok_0;
            let x = inside[i];
            let fields = properties_added(x.node.properties@, compared, inside, all, x.node.properties@.len());
            &&& out.len() == n
            &&& out[i].name == x.node.name@ && out[i].class_name == x.node.class_name@
            &&& x.parent is None ==> out[i].parent is None
            &&& x.parent is Some ==> out[i].parent == Some(x.parent->0 as usize)
            &&& fields is Ok && out[i].properties == fields->Ok_0.properties && out[i].attributes
                == fields->Ok_0.attributes
        }),
    decreases n,
{
    if i < n - 1 {
        lemma_document(inside, all, prefix, compared, (n - 1) as nat, i);
    } else if n > 1 {
        lemma_document(inside, all, prefix, compared, (n - 1) as nat, 0);
    }
}

/// The document of a place has an instance for each visit, with its name, its class and its parent.
pub proof fn law_document_holds_every_visit(
    place: Place,
    prefix: Seq<char>,
    services: Option<Seq<Seq<char>>>,
    compared: bool,
    i: int,
)
    requires
        numbered_place(place, prefix, services, compared) is Ok,
        0 <= i < service_visits(place.root.children@, services, place.root.children@.len()).len(),
    ensures
        ({
            let visits = service_visits(place.root.children@, services, place.root.children@.len());
            let out = numbered_place(place, prefix, services, compared)->Ok_0;
            &&& out.len() == visits.len()
            &&& out[i].name == visits[i].node.name@
            &&& out[i].class_name == visits[i].node.class_name@
            &&& visits[i].parent is None ==> out[i].parent is None
            &&& visits[i].parent is Some ==> out[i].parent == Some(visits[i].parent->0 as usize)
        }),
{
    let visits = service_visits(place.root.children@, services, place.root.children@.len());
    lemma_document(visits, crate::place::referable(place), prefix, compared, visits.len(), i);
}

proof fn lemma_fields(
    list: Seq<PlaceProperty>,
    inside: Seq<VisitModel>,
    all: Seq<VisitModel>,
    n: nat,
    i: int,
)
    requires
        n <= list.len(),
        0 <= i < n,
        properties_added(list, false, inside, all, n) is Ok,
        list[i].value is Value,
    ensures
        property_json(list[i], list[i].value->Value_0, false, inside, all) is Ok,
        properties_added(list, false, inside, all, n)->Ok_0.properties.dom().contains(list[i].name@),
        same_json(
            properties_added(list, false, inside, all, n)->Ok_0.properties[list[i].name@],
            property_json(list[i], list[i].value->Value_0, false, inside, all)->Ok_0,
        ),
    decreases n,
{
    if i < n - 1 {
        lemma_fields(list, inside, all, (n - 1) as nat, i);
    } else {
        crate::json::law_same_json_reflexive(
            property_json(list[i], list[i].value->Value_0, false, inside, all)->Ok_0,
        );
    }
}

/// A document that is not made for comparing has every property of an instance, under its name.
pub proof fn law_documents_keep_every_property(
    list: Seq<PlaceProperty>,
    inside: Seq<VisitModel>,
    all: Seq<VisitModel>,
    i: int,
)
    requires
        0 <= i < list.len(),
        properties_added(list, false, inside, all, list.len()) is Ok,
        list[i].value is Value,
    ensures
        property_json(list[i], list[i].value->Value_0, false, inside, all) is Ok,
        properties_added(list, false, inside, all, list.len())->Ok_0.properties.dom().contains(list[i].name@),
        same_json(
            properties_added(list, false, inside, all, list.len())->Ok_0.properties[list[i].name@],
            property_json(list[i], list[i].value->Value_0, false, inside, all)->Ok_0,
        ),
{
    lemma_fields(list, inside, all, list.len(), i);
}

/// What a document for comparing leaves out: what differs from place to place by itself, a
/// reference to nothing, and what a known property has anyway, but never a source or tags.
pub proof fn law_comparing_leaves_out_what_says_nothing(p: PlaceProperty)
    ensures
        !left_out(p, false),
        p.name@ == "UniqueId"@ || p.name@ == "HistoryId"@ ==> left_out(p, true),
        p.name@ != "UniqueId"@ && p.name@ != "HistoryId"@ && !p.known ==> !left_out(p, true),
        p.known && p.value is Value && p.value->Value_0.kind == ValueKind::Reference(None) ==> left_out(p, true),
        p.known && p.is_default && p.value is Value && p.name@ != "Source"@ && !(p.value->Value_0.kind is Tags)
            ==> left_out(p, true),
        p.name@ != "UniqueId"@ && p.name@ != "HistoryId"@ && !p.is_default && p.value is Value
            && p.value->Value_0.kind != ValueKind::Reference(None) ==> !left_out(p, true),
        p.name@ == "Source"@ && p.value is Value && p.value->Value_0.kind is Text ==> !left_out(p, true),
{
    reveal_strlit("Source");
    reveal_strlit("UniqueId");
    reveal_strlit("HistoryId");
    assert("Source"@.len() == 6 && "UniqueId"@.len() == 8 && "HistoryId"@.len() == 9);
}

proof fn lemma_visit_of(v: Seq<VisitModel>, id: usize, n: nat)
    requires
        n <= v.len(),
    ensures
        visit_of(v, id, n) is None <==> forall|k: int| 0 <= k < n ==> (#[trigger] v[k]).node.id != id,
        visit_of(v, id, n) matches Some(k) ==> 0 <= k < n && v[k].node.id == id,
    decreases n,
{
    if n > 0 {
        lemma_visit_of(v, id, (n - 1) as nat);
    }
}

/// A reference to nothing is null. One to an instance of the document names it by its number; one
/// to another instance of the place by its path; one that leads nowhere is refused.
pub proof fn law_references_lead_to_their_instances(id: usize, inside: Seq<VisitModel>, all: Seq<VisitModel>)
    ensures
        reference_json(None, inside, all) == Ok::<JsonModel, DocumentError>(JsonModel::Null),
        (exists|k: int| 0 <= k < inside.len() && (#[trigger] inside[k]).node.id == id) ==> exists|k: int|
            0 <= k < inside.len() && (#[trigger] inside[k]).node.id == id && reference_json(Some(id), inside, all) is Ok
                && reference_json(Some(id), inside, all)->Ok_0 is Object && reference_json(
                Some(id),
                inside,
                all,
            )->Ok_0->Object_0.dom().contains("instanceIndex"@) && reference_json(
                Some(id),
                inside,
                all,
            )->Ok_0->Object_0["instanceIndex"@] == number_model(k + 1),
        (forall|k: int| 0 <= k < inside.len() ==> (#[trigger] inside[k]).node.id != id) && (exists|k: int|
            0 <= k < all.len() && (#[trigger] all[k]).node.id == id) ==> exists|k: int|
            0 <= k < all.len() && (#[trigger] all[k]).node.id == id && reference_json(Some(id), inside, all) is Ok
                && reference_json(Some(id), inside, all)->Ok_0 is Object && reference_json(
                Some(id),
                inside,
                all,
            )->Ok_0->Object_0.dom().contains("path"@) && reference_json(Some(id), inside, all)->Ok_0->Object_0["path"@]
                == JsonModel::Array(texts_model(all[k].path)),
        (forall|k: int| 0 <= k < inside.len() ==> (#[trigger] inside[k]).node.id != id) && (forall|k: int|
            0 <= k < all.len() ==> (#[trigger] all[k]).node.id != id) ==> reference_json(Some(id), inside, all) == Err::<
            JsonModel,
            DocumentError,
        >(DocumentError::Dangling),
{
    lemma_visit_of(inside, id, inside.len());
    lemma_visit_of(all, id, all.len());
    reveal_strlit("path");
    reveal_strlit("ordinals");
    assert("path"@.len() == 4 && "ordinals"@.len() == 8);
    match visit_of(inside, id, inside.len()) {
        Some(k) => {
            assert(inside[k].node.id == id);
        },
        None => {
            match visit_of(all, id, all.len()) {
                Some(k) => {
                    assert(all[k].node.id == id);
                },
                None => {},
            }
        },
    }
}

} // verus!
