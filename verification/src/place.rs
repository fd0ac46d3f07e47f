//! Saved places: their instances in file order, and the settings document that they make.
use vstd::prelude::*;

use crate::document::{Instance, InstanceModel, SettingsDocument};
use crate::json::{entries, get, put, same_json, Json, JsonModel, Member, Number};
use crate::order::{in_order, sorted_once};
use crate::pack::{is_lua_source_class, is_script_class};
use crate::references::{number_model, texts_model};
use crate::settle::{settle, settled};
use crate::text::{
    ascii_lower, chars_of, clone_numbers, clone_texts, contains_part, decimal, holds_text, joined, lemma_texts_push, occurs, same,
    texts, to_ascii_lower, to_decimal, trim, trimmed,
};

verus! {

broadcast use vstd::seq_lib::group_seq_properties;

/// What kind of value a place holds, as far as the comparison tells kinds apart.
pub enum ValueKind {
    /// A reference to another instance, by its id in the place.
    Reference(Option<usize>),
    /// Content that is another instance.
    ContentReference(Option<usize>),
    Text(String),
    /// Bytes, and the text that they spell if they spell one.
    Bytes(Option<String>),
    Tags(Vec<String>),
    /// A choice of an enumeration, and how its number alone is written.
    Choice(Option<Json>),
    Plain,
}

/// A value of a place. References are written by the document; every other value comes with the way it
/// is written, if there is one.
pub struct PlaceValue {
    pub kind: ValueKind,
    pub json: Option<Json>,
}

pub struct PlaceAttribute {
    pub name: String,
    pub value: PlaceValue,
}

pub enum PropertyValue {
    Attributes(Vec<PlaceAttribute>),
    Value(PlaceValue),
}

/// A property as it was saved, with what is known of it.
pub struct PlaceProperty {
    pub name: String,
    /// The name that all its spellings share.
    pub canonical: String,
    /// Whether the property is known for the class.
    pub known: bool,
    /// Whether a place file keeps the property.
    pub saved: bool,
    pub value: PropertyValue,
    /// Whether the value is the class's default.
    pub is_default: bool,
    /// The class's default, as it is written.
    pub default: Option<Json>,
}

/// What is known of a default of a property against the value that was saved.
pub struct DefaultFact {
    /// The saved value is the default.
    pub held: bool,
    /// The default as it is written.
    pub written: Option<Json>,
}

/// The default of a property, from those of the name that all its spellings share and of its own name: the
/// first where there is one, else the second.
pub fn settle_default(shared: Option<DefaultFact>, own: Option<DefaultFact>) -> (r: (bool, Option<Json>))
    ensures
        r == match (shared, own) {
            (Some(d), _) => (d.held, d.written),
            (None, Some(d)) => (d.held, d.written),
            (None, None) => (false, None),
        },
{
    match (shared, own) {
        (Some(d), _) => (d.held, d.written),
        (None, Some(d)) => (d.held, d.written),
        (None, None) => (false, None),
    }
}

/// An instance of a place with all below it.
pub struct PlaceNode {
    pub id: usize,
    pub name: String,
    pub class_name: String,
    pub properties: Vec<PlaceProperty>,
    pub children: Vec<PlaceNode>,
}

/// A saved place: its root, whose children are the services, and the names and ordinals that a reference to
/// the root is written with.
pub struct Place {
    pub root: PlaceNode,
    pub path: Vec<String>,
    pub ordinals: Vec<usize>,
}

/// An instance in file order: its parent's place in that order, and the names and ordinals on the way
/// to it.
pub struct Visit<'a> {
    pub node: &'a PlaceNode,
    pub parent: Option<usize>,
    pub path: Vec<String>,
    pub ordinals: Vec<usize>,
}

#[verifier::ext_equal]
pub struct VisitModel {
    pub node: PlaceNode,
    pub parent: Option<int>,
    pub path: Seq<Seq<char>>,
    pub ordinals: Seq<int>,
}

pub open spec fn opt_int(v: Option<usize>) -> Option<int> {
    match v {
        Some(n) => Some(n as int),
        None => None,
    }
}

pub open spec fn numbers(v: Seq<usize>) -> Seq<int> {
    Seq::new(v.len(), |i: int| v[i] as int)
}

impl<'a> View for Visit<'a> {
    type V = VisitModel;

    open spec fn view(&self) -> VisitModel {
        VisitModel {
            node: *self.node,
            parent: opt_int(self.parent),
            path: texts(self.path@),
            ordinals: numbers(self.ordinals@),
        }
    }
}

pub open spec fn visits_of(v: Seq<Visit<'_>>) -> Seq<VisitModel> {
    Seq::new(v.len(), |i: int| v[i]@)
}

/// How many of the first `n` nodes have a name.
pub open spec fn same_names(nodes: Seq<PlaceNode>, name: Seq<char>, n: nat) -> nat
    decreases n,
{
    if n == 0 {
        0
    } else if nodes[n - 1].name@ == name {
        same_names(nodes, name, (n - 1) as nat) + 1
    } else {
        same_names(nodes, name, (n - 1) as nat)
    }
}

/// The first `n` nodes of a list with all below them, in file order from some place on.
pub open spec fn visited(
    nodes: Seq<PlaceNode>,
    n: nat,
    above: VisitModel,
    start: int,
) -> Seq<VisitModel>
    decreases nodes, n,
{
    if n == 0 || n > nodes.len() {
        Seq::empty()
    } else {
        let before = visited(nodes, (n - 1) as nat, above, start);
        let x = nodes[n - 1];
        let here = VisitModel {
            node: x,
            parent: above.parent,
            path: above.path.push(x.name@),
            ordinals: above.ordinals.push(same_names(nodes, x.name@, n) as int),
        };
        let at = start + before.len();
        before.push(here) + visited(
            x.children@,
            x.children@.len(),
            VisitModel { parent: Some(at), ..here },
            at + 1,
        )
    }
}

/// The first `n` services of a place that are asked for, with all below them.
pub open spec fn service_visits(roots: Seq<PlaceNode>, services: Option<Seq<Seq<char>>>, n: nat) -> Seq<VisitModel>
    decreases n,
{
    if n == 0 {
        Seq::empty()
    } else {
        let before = service_visits(roots, services, (n - 1) as nat);
        let x = roots[n - 1];
        if services is Some && !services->0.contains(x.name@) {
            before
        } else {
            let at = before.len() as int;
            let here = VisitModel {
                node: x,
                parent: None,
                path: seq![x.name@],
                ordinals: seq![same_names(roots, x.name@, n) as int],
            };
            before.push(here) + visited(x.children@, x.children@.len(), VisitModel { parent: Some(at), ..here }, at + 1)
        }
    }
}

fn count_names(nodes: &Vec<PlaceNode>, name: &str, n: usize) -> (r: usize)
    requires
        n <= nodes@.len(),
    ensures
        r == same_names(nodes@, name@, n as nat),
        r <= n,
{
    let mut count: usize = 0;
    let mut i: usize = 0;
    while i < n
        invariant
            i <= n <= nodes@.len(),
            count == same_names(nodes@, name@, i as nat),
            count <= i,
        decreases n - i,
    {
        if same(&nodes[i].name, name) {
            count += 1;
        }
        i += 1;
    }
    count
}

fn push_visit<'a>(out: &mut Vec<Visit<'a>>, visit: Visit<'a>)
    ensures
        visits_of(final(out)@) == visits_of(old(out)@).push(visit@),
        final(out)@.len() == old(out)@.len() + 1,
{
    let ghost before = out@;
    out.push(visit);
    assert(visits_of(out@) =~= visits_of(before).push(visit@));
}

fn below(path: &Vec<String>, ordinals: &Vec<usize>, name: &str, ordinal: usize) -> (r: (Vec<String>, Vec<usize>))
    ensures
        texts(r.0@) == texts(path@).push(name@),
        numbers(r.1@) == numbers(ordinals@).push(ordinal as int),
{
    let mut names = clone_texts(path);
    let last = name.to_owned();
    proof {
        lemma_texts_push(names@, last);
    }
    names.push(last);
    let mut all = clone_numbers(ordinals);
    all.push(ordinal);
    assert(numbers(all@) =~= numbers(ordinals@).push(ordinal as int));
    (names, all)
}

fn visit_children<'a>(
    nodes: &'a Vec<PlaceNode>,
    out: &mut Vec<Visit<'a>>,
    parent: Option<usize>,
    path: &Vec<String>,
    ordinals: &Vec<usize>,
    above: Ghost<VisitModel>,
)
    requires
        above@.parent == opt_int(parent),
        above@.path == texts(path@),
        above@.ordinals == numbers(ordinals@),
    ensures
        visits_of(final(out)@) == visits_of(old(out)@) + visited(
            nodes@,
            nodes@.len(),
            above@,
            old(out)@.len() as int,
        ),
    decreases nodes,
{
    let ghost start = out@;
    let ghost origin = start.len() as int;
    let mut i: usize = 0;
    assert(visits_of(start) =~= visits_of(start) + visited(nodes@, 0, above@, origin));
    while i < nodes.len()
        invariant
            i <= nodes.len(),
            origin == start.len(),
            above@.parent == opt_int(parent),
            above@.path == texts(path@),
            above@.ordinals == numbers(ordinals@),
            visits_of(out@) == visits_of(start) + visited(nodes@, i as nat, above@, origin),
        decreases nodes.len() - i,
    {
        let ghost before = visited(nodes@, i as nat, above@, origin);
        let ordinal = count_names(nodes, &nodes[i].name, i + 1);
        let (names, all) = below(path, ordinals, &nodes[i].name, ordinal);
        let at = out.len();
        proof {
            assert(visits_of(out@).len() == out@.len());
            assert(visits_of(start).len() == start.len());
        }
        let ghost here = VisitModel {
            node: nodes@[i as int],
            parent: above@.parent,
            path: above@.path.push(nodes@[i as int].name@),
            ordinals: above@.ordinals.push(same_names(nodes@, nodes@[i as int].name@, (i + 1) as nat) as int),
        };
        let ghost next = VisitModel { parent: Some(at as int), ..here };
        push_visit(
            out,
            Visit { node: &nodes[i], parent, path: clone_texts(&names), ordinals: clone_numbers(&all) },
        );
        let ghost pushed = out@;
        assert(visits_of(pushed) =~= visits_of(start) + before.push(here));
        visit_children(&nodes[i].children, out, Some(at), &names, &all, Ghost(next));
        proof {
            let children = nodes@[i as int].children@;
            assert(at == origin + before.len());
            assert(pushed.len() == at + 1);
            assert(visited(nodes@, (i + 1) as nat, above@, origin) == before.push(here) + visited(
                children,
                children.len(),
                next,
                at + 1,
            ));
            assert(visits_of(out@) =~= visits_of(start) + visited(nodes@, (i + 1) as nat, above@, origin));
        }
        i += 1;
    }
}

pub open spec fn opt_list(v: Option<&Vec<String>>) -> Option<Seq<Seq<char>>> {
    match v {
        Some(list) => Some(texts(list@)),
        None => None,
    }
}

/// The instances of the services that are asked for, in file order.
pub fn visit_services<'a>(roots: &'a Vec<PlaceNode>, services: Option<&Vec<String>>) -> (r: Vec<Visit<'a>>)
    ensures
        visits_of(r@) == service_visits(roots@, opt_list(services), roots@.len()),
{
    let mut out: Vec<Visit<'a>> = Vec::new();
    assert(visits_of(out@) =~= Seq::empty());
    let none: Vec<String> = Vec::new();
    let no_numbers: Vec<usize> = Vec::new();
    let mut i: usize = 0;
    while i < roots.len()
        invariant
            i <= roots.len(),
            none@.len() == 0,
            no_numbers@.len() == 0,
            visits_of(out@) == service_visits(roots@, opt_list(services), i as nat),
        decreases roots.len() - i,
    {
        let skipped = match services {
            Some(list) => !holds_text(list, &roots[i].name),
            None => false,
        };
        if !skipped {
            let ghost before = visits_of(out@);
            let ordinal = count_names(roots, &roots[i].name, i + 1);
            let (names, all) = below(&none, &no_numbers, &roots[i].name, ordinal);
            let at = out.len();
            proof {
                assert(before.len() == out@.len());
                assert(texts(names@) =~= seq![roots@[i as int].name@]);
                assert(numbers(all@) =~= seq![ordinal as int]);
            }
            let ghost here = VisitModel {
                node: roots@[i as int],
                parent: None,
                path: seq![roots@[i as int].name@],
                ordinals: seq![same_names(roots@, roots@[i as int].name@, (i + 1) as nat) as int],
            };
            let ghost next = VisitModel { parent: Some(at as int), ..here };
            push_visit(
                &mut out,
                Visit { node: &roots[i], parent: None, path: clone_texts(&names), ordinals: clone_numbers(&all) },
            );
            assert(visits_of(out@) =~= before.push(here));
            visit_children(&roots[i].children, &mut out, Some(at), &names, &all, Ghost(next));
        }
        i += 1;
    }
    out
}

/// Every instance but a service has a parent that comes before it.
pub proof fn law_parents_come_before(roots: Seq<PlaceNode>, services: Option<Seq<Seq<char>>>, n: nat, i: int)
    requires
        n <= roots.len(),
        0 <= i < service_visits(roots, services, n).len(),
    ensures
        match service_visits(roots, services, n)[i].parent {
            Some(p) => 0 <= p < i,
            None => service_visits(roots, services, n)[i].path.len() == 1,
        },
    decreases n,
{
    if n > 0 {
        let before = service_visits(roots, services, (n - 1) as nat);
        let x = roots[n - 1];
        if i < before.len() {
            law_parents_come_before(roots, services, (n - 1) as nat, i);
        } else if !(services is Some && !services->0.contains(x.name@)) {
            let at = before.len() as int;
            let here = VisitModel {
                node: x,
                parent: None,
                path: seq![x.name@],
                ordinals: seq![same_names(roots, x.name@, n) as int],
            };
            if i > at {
                lemma_visited_parents(
                    x.children@,
                    x.children@.len(),
                    VisitModel { parent: Some(at), ..here },
                    at + 1,
                    i - at - 1,
                );
            }
        }
    }
}

proof fn lemma_visited_parents(nodes: Seq<PlaceNode>, n: nat, above: VisitModel, start: int, i: int)
    requires
        n <= nodes.len(),
        above.parent is Some,
        0 <= above.parent->0 < start,
        0 <= i < visited(nodes, n, above, start).len(),
    ensures
        visited(nodes, n, above, start)[i].parent is Some,
        0 <= visited(nodes, n, above, start)[i].parent->0 < start + i,
    decreases nodes, n,
{
    if n > 0 {
        let before = visited(nodes, (n - 1) as nat, above, start);
        let x = nodes[n - 1];
        let here = VisitModel {
            node: x,
            parent: above.parent,
            path: above.path.push(x.name@),
            ordinals: above.ordinals.push(same_names(nodes, x.name@, n) as int),
        };
        let at = start + before.len();
        if i < before.len() {
            lemma_visited_parents(nodes, (n - 1) as nat, above, start, i);
        } else if i > before.len() {
            lemma_visited_parents(
                x.children@,
                x.children@.len(),
                VisitModel { parent: Some(at), ..here },
                at + 1,
                i - before.len() - 1,
            );
        }
    }
}

/// Why a place can not be written as a document.
#[derive(PartialEq, Eq, Structural, Clone, Copy, Debug)]
pub enum DocumentError {
    /// A reference leads nowhere.
    Dangling,
    /// A value has no way to be written.
    Unrepresentable,
    /// Two spellings of one property differ.
    ConflictingAliases,
}

/// Where an id stands among the first `n` visits.
pub open spec fn visit_of(v: Seq<VisitModel>, id: usize, n: nat) -> Option<int>
    decreases n,
{
    if n == 0 {
        None
    } else if v[n - 1].node.id == id {
        Some(n - 1)
    } else {
        visit_of(v, id, (n - 1) as nat)
    }
}

fn find_visit(v: &Vec<Visit<'_>>, id: usize) -> (r: Option<usize>)
    ensures
        opt_int(r) == visit_of(visits_of(v@), id, v@.len()),
        r is Some ==> r->0 < v@.len(),
{
    let mut i: usize = v.len();
    while i > 0
        invariant
            i <= v.len(),
            visit_of(visits_of(v@), id, v@.len()) == visit_of(visits_of(v@), id, i as nat),
        decreases i,
    {
        assert(visits_of(v@)[i - 1] == v@[i - 1]@);
        if v[i - 1].node.id == id {
            return Some(i - 1);
        }
        i -= 1;
    }
    None
}

pub open spec fn ints_model(v: Seq<int>) -> Seq<JsonModel> {
    Seq::new(v.len(), |i: int| number_model(v[i]))
}

/// How a reference is written: by the instance's number inside the document, by its path outside.
pub open spec fn reference_json(target: Option<usize>, inside: Seq<VisitModel>, all: Seq<VisitModel>) -> Result<
    JsonModel,
    DocumentError,
> {
    match target {
        None => Ok(JsonModel::Null),
        Some(id) => match visit_of(inside, id, inside.len()) {
            Some(i) => Ok(
                JsonModel::Object(
                    Map::empty().insert("_type"@, JsonModel::Text("Ref"@)).insert("instanceIndex"@, number_model(i + 1)),
                ),
            ),
            None => match visit_of(all, id, all.len()) {
                Some(i) => Ok(
                    JsonModel::Object(
                        Map::empty().insert("_type"@, JsonModel::Text("ExternalRef"@)).insert(
                            "path"@,
                            JsonModel::Array(texts_model(all[i].path)),
                        ).insert("ordinals"@, JsonModel::Array(ints_model(all[i].ordinals))),
                    ),
                ),
                None => Err(DocumentError::Dangling),
            },
        },
    }
}

pub open spec fn json_result(r: Result<Json, DocumentError>) -> Result<JsonModel, DocumentError> {
    match r {
        Ok(v) => Ok(v@),
        Err(e) => Err(e),
    }
}

/// A list of texts as JSON.
pub fn texts_to_json(v: &Vec<String>) -> (r: Json)
    ensures
        r@ == JsonModel::Array(texts_model(texts(v@))),
{
    let mut out: Vec<Json> = Vec::new();
    let mut i: usize = 0;
    while i < v.len()
        invariant
            i <= v.len(),
            out@.len() == i,
            forall|j: int| 0 <= j < i ==> (#[trigger] out@[j])@ == JsonModel::Text(v@[j]@),
        decreases v.len() - i,
    {
        out.push(Json::Text(v[i].clone()));
        i += 1;
    }
    assert(crate::json::elements(out@) =~= texts_model(texts(v@))) by {
        assert forall|j: int| 0 <= j < out@.len() implies crate::json::elements(out@)[j] == texts_model(texts(v@))[j] by {
            assert(out@[j]@ == JsonModel::Text(v@[j]@));
        }
    }
    Json::Array(out)
}

/// A list of numbers as JSON.
pub fn numbers_to_json(v: &Vec<usize>) -> (r: Json)
    ensures
        r@ == JsonModel::Array(ints_model(numbers(v@))),
{
    let mut out: Vec<Json> = Vec::new();
    let mut i: usize = 0;
    while i < v.len()
        invariant
            i <= v.len(),
            out@.len() == i,
            forall|j: int| 0 <= j < i ==> (#[trigger] out@[j])@ == number_model(v@[j] as int),
        decreases v.len() - i,
    {
        out.push(Json::Number(Number::Unsigned(v[i] as u64)));
        i += 1;
    }
    assert(crate::json::elements(out@) =~= ints_model(numbers(v@))) by {
        assert forall|j: int| 0 <= j < out@.len() implies crate::json::elements(out@)[j] == ints_model(numbers(v@))[j] by {
            assert(out@[j]@ == number_model(v@[j] as int));
        }
    }
    Json::Array(out)
}

fn write_reference(target: Option<usize>, inside: &Vec<Visit<'_>>, all: &Vec<Visit<'_>>) -> (r: Result<Json, DocumentError>)
    ensures
        json_result(r) == reference_json(target, visits_of(inside@), visits_of(all@)),
{
    assert(visits_of(inside@).len() == inside@.len());
    assert(visits_of(all@).len() == all@.len());
    match target {
        None => Ok(Json::Null),
        Some(id) => match find_visit(inside, id) {
            Some(i) => {
                let count = inside.len();
                assert(i < count);
                let mut m: Vec<Member> = Vec::new();
                put(&mut m, "_type".to_owned(), Json::Text("Ref".to_owned()));
                put(&mut m, "instanceIndex".to_owned(), Json::Number(Number::Unsigned((i + 1) as u64)));
                Ok(Json::Object(m))
            },
            None => match find_visit(all, id) {
                Some(i) => {
                    assert(visits_of(all@)[i as int] == all@[i as int]@);
                    let mut m: Vec<Member> = Vec::new();
                    put(&mut m, "_type".to_owned(), Json::Text("ExternalRef".to_owned()));
                    put(&mut m, "path".to_owned(), texts_to_json(&all[i].path));
                    put(&mut m, "ordinals".to_owned(), numbers_to_json(&all[i].ordinals));
                    Ok(Json::Object(m))
                },
                None => Err(DocumentError::Dangling),
            },
        },
    }
}

/// How a value is written.
pub open spec fn value_json(v: PlaceValue, inside: Seq<VisitModel>, all: Seq<VisitModel>) -> Result<JsonModel, DocumentError> {
    match v.kind {
        ValueKind::Reference(target) => reference_json(target, inside, all),
        ValueKind::ContentReference(target) => reference_json(target, inside, all),
        _ => match v.json {
            Some(json) => Ok(json@),
            None => Err(DocumentError::Unrepresentable),
        },
    }
}

fn write_value(v: &PlaceValue, inside: &Vec<Visit<'_>>, all: &Vec<Visit<'_>>) -> (r: Result<Json, DocumentError>)
    ensures
        json_result(r) == value_json(*v, visits_of(inside@), visits_of(all@)),
{
    match &v.kind {
        ValueKind::Reference(target) => write_reference(*target, inside, all),
        ValueKind::ContentReference(target) => write_reference(*target, inside, all),
        _ => match &v.json {
            Some(json) => Ok(json.copy()),
            None => Err(DocumentError::Unrepresentable),
        },
    }
}

/// The text of some bytes, where they spell one.
pub open spec fn spelled_text(kind: ValueKind) -> Option<Seq<char>> {
    match kind {
        ValueKind::Bytes(Some(text)) => Some(text@),
        _ => None,
    }
}

/// How an attribute is written; for a comparison, bytes that spell a text are that text.
pub open spec fn attribute_json(v: PlaceValue, compared: bool, inside: Seq<VisitModel>, all: Seq<VisitModel>) -> Result<
    JsonModel,
    DocumentError,
> {
    match spelled_text(v.kind) {
        Some(text) if compared => Ok(JsonModel::Text(text)),
        _ => value_json(v, inside, all),
    }
}

fn write_attribute(v: &PlaceValue, compared: bool, inside: &Vec<Visit<'_>>, all: &Vec<Visit<'_>>) -> (r: Result<
    Json,
    DocumentError,
>)
    ensures
        json_result(r) == attribute_json(*v, compared, visits_of(inside@), visits_of(all@)),
{
    if compared {
        match &v.kind {
            ValueKind::Bytes(Some(text)) => {
                return Ok(Json::Text(text.clone()));
            },
            _ => {},
        }
    }
    write_value(v, inside, all)
}

/// The first `n` elements of `s` with a line end of two elements written as one.
pub open spec fn with_plain_line_ends<A>(s: Seq<A>, cr: A, lf: A, n: nat) -> Seq<A>
    decreases n,
{
    if n == 0 {
        Seq::empty()
    } else {
        let before = with_plain_line_ends(s, cr, lf, (n - 1) as nat);
        if s[n - 1] == cr && n < s.len() && s[n as int] == lf {
            before
        } else {
            before.push(s[n - 1])
        }
    }
}

/// A source text with plain line ends.
pub fn normalized_source(text: &str) -> (r: String)
    ensures
        r@ == with_plain_line_ends(text@, '\r', '\n', text@.len()),
{
    let chars = chars_of(text);
    let mut out = String::new();
    let mut i: usize = 0;
    while i < chars.len()
        invariant
            i <= chars.len(),
            chars@ == text@,
            out@ == with_plain_line_ends(text@, '\r', '\n', i as nat),
        decreases chars.len() - i,
    {
        let c = chars[i];
        if !(c == '\r' && i + 1 < chars.len() && chars[i + 1] == '\n') {
            out.push(c);
        }
        i += 1;
    }
    out
}

/// How the value of a property is written.
pub open spec fn property_json(
    p: PlaceProperty,
    v: PlaceValue,
    compared: bool,
    inside: Seq<VisitModel>,
    all: Seq<VisitModel>,
) -> Result<JsonModel, DocumentError> {
    if p.name@ == "Source"@ {
        match v.kind {
            ValueKind::Text(text) => Ok(
                JsonModel::Text(
                    if compared {
                        with_plain_line_ends(text@, '\r', '\n', text@.len())
                    } else {
                        text@
                    },
                ),
            ),
            _ => value_json(v, inside, all),
        }
    } else {
        match v.kind {
            ValueKind::Tags(tags) if compared => Ok(JsonModel::Array(texts_model(in_order(texts(tags@))))),
            ValueKind::Bytes(Some(text)) if compared && !p.known => Ok(JsonModel::Text(text@)),
            ValueKind::Choice(number) if compared && !p.known => match number {
                Some(json) => Ok(json@),
                None => Err(DocumentError::Unrepresentable),
            },
            _ => value_json(v, inside, all),
        }
    }
}

fn write_property(
    p: &PlaceProperty,
    v: &PlaceValue,
    compared: bool,
    inside: &Vec<Visit<'_>>,
    all: &Vec<Visit<'_>>,
) -> (r: Result<Json, DocumentError>)
    ensures
        json_result(r) == property_json(*p, *v, compared, visits_of(inside@), visits_of(all@)),
{
    if same(&p.name, "Source") {
        return match &v.kind {
            ValueKind::Text(text) => {
                if compared {
                    Ok(Json::Text(normalized_source(text)))
                } else {
                    Ok(Json::Text(text.clone()))
                }
            },
            _ => write_value(v, inside, all),
        };
    }
    if compared {
        match &v.kind {
            ValueKind::Tags(tags) => {
                let sorted = sorted_once(tags);
                return Ok(texts_to_json(&sorted));
            },
            ValueKind::Bytes(Some(text)) => {
                if !p.known {
                    return Ok(Json::Text(text.clone()));
                }
            },
            ValueKind::Choice(number) => {
                if !p.known {
                    return match number {
                        Some(json) => Ok(json.copy()),
                        None => Err(DocumentError::Unrepresentable),
                    };
                }
            },
            _ => {},
        }
    }
    write_value(v, inside, all)
}

/// The fields that an instance has so far.
#[verifier::ext_equal]
pub struct RecordModel {
    pub properties: Map<Seq<char>, JsonModel>,
    pub attributes: Map<Seq<char>, JsonModel>,
}

/// The first `n` attributes are added.
pub open spec fn attributes_added(
    m: Map<Seq<char>, JsonModel>,
    list: Seq<PlaceAttribute>,
    compared: bool,
    inside: Seq<VisitModel>,
    all: Seq<VisitModel>,
    n: nat,
) -> Result<Map<Seq<char>, JsonModel>, DocumentError>
    decreases n,
{
    if n == 0 {
        Ok(m)
    } else {
        match attributes_added(m, list, compared, inside, all, (n - 1) as nat) {
            Err(e) => Err(e),
            Ok(before) => match attribute_json(list[n - 1].value, compared, inside, all) {
                Err(e) => Err(e),
                Ok(value) => Ok(before.insert(list[n - 1].name@, value)),
            },
        }
    }
}

/// A property that a comparison leaves out without writing it: identities, plain defaults, and known
/// references that lead nowhere.
pub open spec fn left_out(p: PlaceProperty, compared: bool) -> bool {
    compared && (p.name@ == "UniqueId"@ || p.name@ == "HistoryId"@ || (p.known && match p.value {
        PropertyValue::Attributes(_) => false,
        PropertyValue::Value(v) => v.kind == ValueKind::Reference(None) || (p.is_default && p.name@ != "Source"@ && !(
        v.kind is Tags)),
    }))
}

/// One property is added to a record.
pub open spec fn property_added(
    m: RecordModel,
    p: PlaceProperty,
    compared: bool,
    inside: Seq<VisitModel>,
    all: Seq<VisitModel>,
) -> Result<RecordModel, DocumentError> {
    if left_out(p, compared) {
        Ok(m)
    } else {
        match p.value {
            PropertyValue::Attributes(list) => match attributes_added(
                m.attributes,
                list@,
                compared,
                inside,
                all,
                list@.len(),
            ) {
                Ok(attributes) => Ok(RecordModel { attributes, ..m }),
                Err(e) => Err(e),
            },
            PropertyValue::Value(v) => match property_json(p, v, compared, inside, all) {
                Err(e) => Err(e),
                Ok(value) => {
                    let name = if compared {
                        p.canonical@
                    } else {
                        p.name@
                    };
                    if compared && p.default is Some && same_json(p.default->0@, value) {
                        Ok(m)
                    } else if m.properties.dom().contains(name) {
                        if same_json(m.properties[name], value) {
                            Ok(m)
                        } else {
                            Err(DocumentError::ConflictingAliases)
                        }
                    } else {
                        Ok(RecordModel { properties: m.properties.insert(name, value), ..m })
                    }
                },
            },
        }
    }
}

/// The first `n` properties are added.
pub open spec fn properties_added(
    list: Seq<PlaceProperty>,
    compared: bool,
    inside: Seq<VisitModel>,
    all: Seq<VisitModel>,
    n: nat,
) -> Result<RecordModel, DocumentError>
    decreases n,
{
    if n == 0 {
        Ok(RecordModel { properties: Map::empty(), attributes: Map::empty() })
    } else {
        match properties_added(list, compared, inside, all, (n - 1) as nat) {
            Err(e) => Err(e),
            Ok(m) => property_added(m, list[n - 1], compared, inside, all),
        }
    }
}

/// The id that an instance gets: a prefix and its number.
pub open spec fn visit_id(prefix: Seq<char>, i: int) -> Seq<char> {
    prefix + ":"@ + decimal(i as nat)
}

pub open spec fn small_parent(p: Option<int>) -> Option<usize> {
    match p {
        Some(n) => Some(n as usize),
        None => None,
    }
}

/// The first `n` instances of a document.
pub open spec fn document_to(
    inside: Seq<VisitModel>,
    all: Seq<VisitModel>,
    prefix: Seq<char>,
    compared: bool,
    n: nat,
) -> Result<Seq<InstanceModel>, DocumentError>
    decreases n,
{
    if n == 0 {
        Ok(Seq::empty())
    } else {
        match document_to(inside, all, prefix, compared, (n - 1) as nat) {
            Err(e) => Err(e),
            Ok(before) => {
                let x = inside[n - 1];
                match properties_added(x.node.properties@, compared, inside, all, x.node.properties@.len()) {
                    Err(e) => Err(e),
                    Ok(m) => Ok(
                        before.push(
                            InstanceModel {
                                id: visit_id(prefix, n - 1),
                                name: x.node.name@,
                                class_name: x.node.class_name@,
                                parent: small_parent(x.parent),
                                properties: m.properties,
                                attributes: m.attributes,
                            },
                        ),
                    ),
                }
            },
        }
    }
}

/// The root of a place, as a reference names it.
pub open spec fn root_visit(place: Place) -> VisitModel {
    VisitModel { node: place.root, parent: None, path: texts(place.path@), ordinals: numbers(place.ordinals@) }
}

/// All that a reference may name: the instances of every service, and the root.
pub open spec fn referable(place: Place) -> Seq<VisitModel> {
    let roots = place.root.children@;
    service_visits(roots, None, roots.len()).push(root_visit(place))
}

/// The document of the services of a place that are asked for, with references by number.
pub open spec fn numbered_place(
    place: Place,
    prefix: Seq<char>,
    services: Option<Seq<Seq<char>>>,
    compared: bool,
) -> Result<Seq<InstanceModel>, DocumentError> {
    let roots = place.root.children@;
    let inside = service_visits(roots, services, roots.len());
    document_to(inside, referable(place), prefix, compared, inside.len())
}

/// The document of the services of a place that are asked for.
pub open spec fn place_document(
    place: Place,
    prefix: Seq<char>,
    services: Option<Seq<Seq<char>>>,
    compared: bool,
) -> Result<Seq<InstanceModel>, DocumentError> {
    match numbered_place(place, prefix, services, compared) {
        Ok(doc) => Ok(settled(doc)),
        Err(e) => Err(e),
    }
}

fn add_attributes(
    m: &mut Vec<Member>,
    list: &Vec<PlaceAttribute>,
    compared: bool,
    inside: &Vec<Visit<'_>>,
    all: &Vec<Visit<'_>>,
) -> (r: Result<(), DocumentError>)
    ensures
        match attributes_added(entries(old(m)@), list@, compared, visits_of(inside@), visits_of(all@), list@.len()) {
            Ok(after) => r is Ok && entries(final(m)@) == after,
            Err(e) => r == Err::<(), DocumentError>(e),
        },
{
    let ghost start = entries(m@);
    let ghost a = visits_of(inside@);
    let ghost b = visits_of(all@);
    let mut i: usize = 0;
    while i < list.len()
        invariant
            i <= list.len(),
            start == entries(old(m)@),
            a == visits_of(inside@),
            b == visits_of(all@),
            attributes_added(start, list@, compared, a, b, i as nat) == Ok::<Map<Seq<char>, JsonModel>, DocumentError>(
                entries(m@),
            ),
        decreases list.len() - i,
    {
        match write_attribute(&list[i].value, compared, inside, all) {
            Ok(value) => {
                put(m, list[i].name.clone(), value);
            },
            Err(e) => {
                proof {
                    lemma_attribute_error(start, list@, compared, a, b, (i + 1) as nat, list@.len());
                }
                return Err(e);
            },
        }
        i += 1;
    }
    Ok(())
}

proof fn lemma_attribute_error(
    m: Map<Seq<char>, JsonModel>,
    list: Seq<PlaceAttribute>,
    compared: bool,
    inside: Seq<VisitModel>,
    all: Seq<VisitModel>,
    k: nat,
    n: nat,
)
    requires
        k <= n,
        attributes_added(m, list, compared, inside, all, k) is Err,
    ensures
        attributes_added(m, list, compared, inside, all, n) == attributes_added(m, list, compared, inside, all, k),
    decreases n,
{
    if k < n {
        lemma_attribute_error(m, list, compared, inside, all, k, (n - 1) as nat);
    }
}

fn is_left_out(p: &PlaceProperty, compared: bool) -> (r: bool)
    ensures
        r == left_out(*p, compared),
{
    if !compared {
        return false;
    }
    if same(&p.name, "UniqueId") || same(&p.name, "HistoryId") {
        return true;
    }
    if !p.known {
        return false;
    }
    match &p.value {
        PropertyValue::Attributes(_) => false,
        PropertyValue::Value(v) => match &v.kind {
            ValueKind::Reference(None) => true,
            ValueKind::Tags(_) => false,
            _ => p.is_default && !same(&p.name, "Source"),
        },
    }
}

pub open spec fn record_of(properties: Seq<Member>, attributes: Seq<Member>) -> RecordModel {
    RecordModel { properties: entries(properties), attributes: entries(attributes) }
}

fn add_property(
    record: &mut Instance,
    p: &PlaceProperty,
    compared: bool,
    inside: &Vec<Visit<'_>>,
    all: &Vec<Visit<'_>>,
) -> (r: Result<(), DocumentError>)
    ensures
        final(record)@.id == old(record)@.id,
        final(record)@.name == old(record)@.name,
        final(record)@.class_name == old(record)@.class_name,
        final(record)@.parent == old(record)@.parent,
        match property_added(
            record_of(old(record).properties@, old(record).attributes@),
            *p,
            compared,
            visits_of(inside@),
            visits_of(all@),
        ) {
            Ok(after) => r is Ok && record_of(final(record).properties@, final(record).attributes@) == after,
            Err(e) => r == Err::<(), DocumentError>(e),
        },
{
    if is_left_out(p, compared) {
        return Ok(());
    }
    match &p.value {
        PropertyValue::Attributes(list) => add_attributes(&mut record.attributes, list, compared, inside, all),
        PropertyValue::Value(v) => {
            let value = match write_property(p, v, compared, inside, all) {
                Ok(value) => value,
                Err(e) => {
                    return Err(e);
                },
            };
            if compared {
                match &p.default {
                    Some(default) => {
                        if default.same(&value) {
                            return Ok(());
                        }
                    },
                    None => {},
                }
            }
            let name = if compared {
                p.canonical.clone()
            } else {
                p.name.clone()
            };
            match get(&record.properties, &name) {
                Some(other) => {
                    if !other.same(&value) {
                        return Err(DocumentError::ConflictingAliases);
                    }
                    return Ok(());
                },
                None => {},
            }
            put(&mut record.properties, name, value);
            Ok(())
        },
    }
}

proof fn lemma_property_error(
    list: Seq<PlaceProperty>,
    compared: bool,
    inside: Seq<VisitModel>,
    all: Seq<VisitModel>,
    k: nat,
    n: nat,
)
    requires
        k <= n,
        properties_added(list, compared, inside, all, k) is Err,
    ensures
        properties_added(list, compared, inside, all, n) == properties_added(list, compared, inside, all, k),
    decreases n,
{
    if k < n {
        lemma_property_error(list, compared, inside, all, k, (n - 1) as nat);
    }
}

proof fn lemma_document_error(
    inside: Seq<VisitModel>,
    all: Seq<VisitModel>,
    prefix: Seq<char>,
    compared: bool,
    k: nat,
    n: nat,
)
    requires
        k <= n,
        document_to(inside, all, prefix, compared, k) is Err,
    ensures
        document_to(inside, all, prefix, compared, n) == document_to(inside, all, prefix, compared, k),
    decreases n,
{
    if k < n {
        lemma_document_error(inside, all, prefix, compared, k, (n - 1) as nat);
    }
}

fn write_instance(
    inside: &Vec<Visit<'_>>,
    all: &Vec<Visit<'_>>,
    prefix: &str,
    compared: bool,
    i: usize,
) -> (r: Result<Instance, DocumentError>)
    requires
        i < inside@.len(),
    ensures
        ({
            let x = inside@[i as int]@;
            match properties_added(
                x.node.properties@,
                compared,
                visits_of(inside@),
                visits_of(all@),
                x.node.properties@.len(),
            ) {
                Ok(m) => r is Ok && r->Ok_0@ == (InstanceModel {
                    id: visit_id(prefix@, i as int),
                    name: x.node.name@,
                    class_name: x.node.class_name@,
                    parent: small_parent(x.parent),
                    properties: m.properties,
                    attributes: m.attributes,
                }),
                Err(e) => r is Err && r->Err_0 == e,
            }
        }),
{
    let number = to_decimal(i as u128);
    let head = joined(prefix, ":");
    let id = joined(&head, &number);
    let node = inside[i].node;
    let mut record = Instance::new(id, node.name.clone(), node.class_name.clone(), inside[i].parent);
    let ghost a = visits_of(inside@);
    let ghost b = visits_of(all@);
    let ghost first = record@;
    let ghost x = inside@[i as int]@;
    let ghost list = node.properties@;
    let mut k: usize = 0;
    while k < node.properties.len()
        invariant
            k <= node.properties.len(),
            i < inside@.len(),
            inside@[i as int]@.node == *node,
            list == node.properties@,
            a == visits_of(inside@),
            b == visits_of(all@),
            record@.id == first.id,
            record@.name == first.name,
            record@.class_name == first.class_name,
            record@.parent == first.parent,
            properties_added(list, compared, a, b, k as nat) == Ok::<RecordModel, DocumentError>(
                record_of(record.properties@, record.attributes@),
            ),
        decreases node.properties.len() - k,
    {
        match add_property(&mut record, &node.properties[k], compared, inside, all) {
            Ok(()) => {},
            Err(e) => {
                proof {
                    lemma_property_error(list, compared, a, b, (k + 1) as nat, list.len());
                }
                return Err(e);
            },
        }
        k += 1;
    }
    Ok(record)
}

/// Writes the services of a place that are asked for as a document whose references go by number. For a
/// comparison, defaults and what only tells saved files apart are left out.
pub fn numbered_document(place: &Place, prefix: &str, services: Option<&Vec<String>>, compared: bool) -> (r: Result<
    SettingsDocument,
    DocumentError,
>)
    ensures
        match numbered_place(*place, prefix@, opt_list(services), compared) {
            Ok(doc) => r is Ok && r->Ok_0@ == doc,
            Err(e) => r is Err && r->Err_0 == e,
        },
{
    let roots = &place.root.children;
    let inside = visit_services(roots, services);
    let mut all = visit_services(roots, None);
    push_visit(
        &mut all,
        Visit {
            node: &place.root,
            parent: None,
            path: clone_texts(&place.path),
            ordinals: clone_numbers(&place.ordinals),
        },
    );
    let ghost a = visits_of(inside@);
    let ghost b = visits_of(all@);
    assert(b == referable(*place));
    let mut instances: Vec<Instance> = Vec::new();
    let mut i: usize = 0;
    assert(crate::document::models(instances@) =~= Seq::empty());
    assert(a.len() == inside@.len());
    while i < inside.len()
        invariant
            i <= inside.len(),
            a == visits_of(inside@),
            b == visits_of(all@),
            roots@ == place.root.children@,
            a == service_visits(roots@, opt_list(services), roots@.len()),
            b == referable(*place),
            document_to(a, b, prefix@, compared, i as nat) == Ok::<Seq<InstanceModel>, DocumentError>(
                crate::document::models(instances@),
            ),
        decreases inside.len() - i,
    {
        assert(a[i as int] == inside@[i as int]@);
        assert(small_parent(a[i as int].parent) == inside@[i as int].parent);
        match write_instance(&inside, &all, prefix, compared, i) {
            Ok(x) => {
                proof {
                    crate::document::lemma_models_push(instances@, x);
                }
                instances.push(x);
            },
            Err(e) => {
                proof {
                    lemma_document_error(a, b, prefix@, compared, (i + 1) as nat, a.len());
                }
                return Err(e);
            },
        }
        i += 1;
    }
    Ok(SettingsDocument { instances })
}

/// Writes the services of a place that are asked for as a document. For a comparison, defaults and what
/// only tells saved files apart are left out.
pub fn document(place: &Place, prefix: &str, services: Option<&Vec<String>>, compared: bool) -> (r: Result<
    SettingsDocument,
    DocumentError,
>)
    ensures
        match place_document(*place, prefix@, opt_list(services), compared) {
            Ok(doc) => r is Ok && r->Ok_0@ == doc,
            Err(e) => r is Err && r->Err_0 == e,
        },
{
    match numbered_document(place, prefix, services, compared) {
        Ok(doc) => Ok(settle(&doc)),
        Err(e) => Err(e),
    }
}

/// The order in which a search walks a place: the last first, each before those below it.
pub open spec fn walked(nodes: Seq<PlaceNode>, n: nat, above: VisitModel) -> Seq<VisitModel>
    decreases nodes, n,
{
    if n == 0 || n > nodes.len() {
        Seq::empty()
    } else {
        let x = nodes[n - 1];
        let here = VisitModel {
            node: x,
            parent: None,
            path: above.path.push(x.name@),
            ordinals: above.ordinals.push(same_names(nodes, x.name@, n) as int),
        };
        (seq![here] + walked(x.children@, x.children@.len(), here)) + walked(nodes, (n - 1) as nat, above)
    }
}

fn walk_children<'a>(
    nodes: &'a Vec<PlaceNode>,
    out: &mut Vec<Visit<'a>>,
    path: &Vec<String>,
    ordinals: &Vec<usize>,
    above: Ghost<VisitModel>,
)
    requires
        above@.path == texts(path@),
        above@.ordinals == numbers(ordinals@),
    ensures
        visits_of(final(out)@) == visits_of(old(out)@) + walked(nodes@, nodes@.len(), above@),
    decreases nodes,
{
    let ghost start = visits_of(out@);
    let ghost whole = walked(nodes@, nodes@.len(), above@);
    let mut i: usize = nodes.len();
    while i > 0
        invariant
            i <= nodes.len(),
            above@.path == texts(path@),
            above@.ordinals == numbers(ordinals@),
            whole == walked(nodes@, nodes@.len(), above@),
            visits_of(out@) + walked(nodes@, i as nat, above@) == start + whole,
        decreases i,
    {
        let ghost before = visits_of(out@);
        i -= 1;
        let ordinal = count_names(nodes, &nodes[i].name, i + 1);
        let (names, all) = below(path, ordinals, &nodes[i].name, ordinal);
        let ghost here = VisitModel {
            node: nodes@[i as int],
            parent: None,
            path: above@.path.push(nodes@[i as int].name@),
            ordinals: above@.ordinals.push(same_names(nodes@, nodes@[i as int].name@, (i + 1) as nat) as int),
        };
        push_visit(out, Visit { node: &nodes[i], parent: None, path: clone_texts(&names), ordinals: clone_numbers(&all) });
        assert(visits_of(out@) =~= before + seq![here]);
        walk_children(&nodes[i].children, out, &names, &all, Ghost(here));
        proof {
            let inner = walked(nodes@[i as int].children@, nodes@[i as int].children@.len(), here);
            let rest = walked(nodes@, i as nat, above@);
            assert(walked(nodes@, (i + 1) as nat, above@) == (seq![here] + inner) + rest);
            assert(visits_of(out@) =~= before + seq![here] + inner);
            assert(visits_of(out@) + rest =~= before + ((seq![here] + inner) + rest));
        }
    }
    assert(visits_of(out@) + Seq::<VisitModel>::empty() =~= visits_of(out@));
}

/// The instances of a place in the order of a search.
pub open spec fn place_walk(roots: Seq<PlaceNode>) -> Seq<VisitModel> {
    walked(roots, roots.len(), VisitModel { node: roots[0], parent: None, path: Seq::empty(), ordinals: Seq::empty() })
}

/// The instances of a place in the order of a search.
pub fn walk_place<'a>(roots: &'a Vec<PlaceNode>) -> (r: Vec<Visit<'a>>)
    ensures
        visits_of(r@) == place_walk(roots@),
{
    let mut out: Vec<Visit<'a>> = Vec::new();
    let none: Vec<String> = Vec::new();
    let no_numbers: Vec<usize> = Vec::new();
    assert(visits_of(out@) =~= Seq::empty());
    assert(texts(none@) =~= Seq::empty());
    assert(numbers(no_numbers@) =~= Seq::empty());
    let ghost above = VisitModel { node: roots@[0], parent: None, path: Seq::empty(), ordinals: Seq::empty() };
    walk_children(roots, &mut out, &none, &no_numbers, Ghost(above));
    assert(Seq::<VisitModel>::empty() + place_walk(roots@) =~= place_walk(roots@));
    out
}

/// The first of the first properties that are the source of a script.
pub open spec fn source_at(list: Seq<PlaceProperty>, i: int) -> bool {
    &&& 0 <= i < list.len()
    &&& list[i].name@ == "Source"@
    &&& forall|j: int| 0 <= j < i ==> (#[trigger] list[j]).name@ != "Source"@
}

/// The source of a script: empty where none is saved, none for anything else.
pub open spec fn source_of(node: PlaceNode) -> Option<Seq<char>> {
    if !is_script_class(node.class_name@) {
        None
    } else if exists|i: int| source_at(node.properties@, i) {
        let i = choose|i: int| source_at(node.properties@, i);
        match node.properties@[i].value {
            PropertyValue::Value(v) => match v.kind {
                ValueKind::Text(text) => Some(text@),
                _ => None,
            },
            PropertyValue::Attributes(_) => None,
        }
    } else {
        Some(Seq::empty())
    }
}

/// The source of a script.
pub fn script_source(node: &PlaceNode) -> (r: Option<String>)
    ensures
        r is Some <==> source_of(*node) is Some,
        r is Some ==> Some(r->0@) == source_of(*node),
{
    if !is_lua_source_class(&node.class_name) {
        return None;
    }
    let mut i: usize = 0;
    while i < node.properties.len()
        invariant
            i <= node.properties.len(),
            is_script_class(node.class_name@),
            forall|j: int| 0 <= j < i ==> (#[trigger] node.properties@[j]).name@ != "Source"@,
        decreases node.properties.len() - i,
    {
        if same(&node.properties[i].name, "Source") {
            proof {
                assert(source_at(node.properties@, i as int));
                let other = choose|other: int| source_at(node.properties@, other);
                if other < i {
                    assert(node.properties@[other].name@ != "Source"@);
                } else if i < other {
                    assert(node.properties@[i as int].name@ != "Source"@);
                }
            }
            return match &node.properties[i].value {
                PropertyValue::Value(v) => match &v.kind {
                    ValueKind::Text(text) => Some(text.clone()),
                    _ => None,
                },
                PropertyValue::Attributes(_) => None,
            };
        }
        i += 1;
    }
    let none = String::new();
    assert(none@ =~= Seq::<char>::empty());
    Some(none)
}

/// What is searched for: text in the name or class, an exact name or class, or text in a source.
pub struct PlaceQuery {
    pub query: Option<String>,
    pub name: Option<String>,
    pub class_name: Option<String>,
    pub source: Option<String>,
}

/// The text that is searched for, if any is left of it.
pub open spec fn query_text(q: PlaceQuery) -> Option<Seq<char>> {
    match q.query {
        Some(s) => if trimmed(s@).len() == 0 {
            None
        } else {
            Some(ascii_lower(trimmed(s@)))
        },
        None => None,
    }
}

/// A condition, unless it is empty.
pub open spec fn condition(v: Option<String>) -> Option<Seq<char>> {
    match v {
        Some(s) => if s@.len() == 0 {
            None
        } else {
            Some(s@)
        },
        None => None,
    }
}

/// Nothing is asked.
pub open spec fn asks_nothing(q: PlaceQuery) -> bool {
    query_text(q) is None && condition(q.name) is None && condition(q.class_name) is None && condition(q.source) is None
}

/// An instance is what is searched for.
pub open spec fn query_finds(q: PlaceQuery, node: PlaceNode) -> bool {
    &&& condition(q.name) is Some ==> node.name@ == condition(q.name)->0
    &&& condition(q.class_name) is Some ==> node.class_name@ == condition(q.class_name)->0
    &&& condition(q.source) is Some ==> source_of(node) is Some && occurs(source_of(node)->0, condition(q.source)->0)
    &&& query_text(q) is Some ==> occurs(ascii_lower(node.name@), query_text(q)->0) || occurs(
        ascii_lower(node.class_name@),
        query_text(q)->0,
    )
}

/// Those among the first `n` visits that are found.
pub open spec fn found_in(q: PlaceQuery, walk: Seq<VisitModel>, n: nat) -> Seq<VisitModel>
    decreases n,
{
    if n == 0 {
        Seq::empty()
    } else if query_finds(q, walk[n - 1].node) {
        found_in(q, walk, (n - 1) as nat).push(walk[n - 1])
    } else {
        found_in(q, walk, (n - 1) as nat)
    }
}

/// An instance that a search found.
pub struct QueryMatch {
    pub path: Vec<String>,
    pub name: String,
    pub class_name: String,
    /// The ordinals on the way, where one of them is not the first.
    pub ordinals: Option<Vec<usize>>,
}

#[verifier::ext_equal]
pub struct MatchModel {
    pub path: Seq<Seq<char>>,
    pub name: Seq<char>,
    pub class_name: Seq<char>,
    pub ordinals: Option<Seq<int>>,
}

pub open spec fn opt_ints(v: Option<Vec<usize>>) -> Option<Seq<int>> {
    match v {
        Some(list) => Some(numbers(list@)),
        None => None,
    }
}

impl View for QueryMatch {
    type V = MatchModel;

    open spec fn view(&self) -> MatchModel {
        MatchModel {
            path: texts(self.path@),
            name: self.name@,
            class_name: self.class_name@,
            ordinals: opt_ints(self.ordinals),
        }
    }
}

pub open spec fn match_of(v: VisitModel) -> MatchModel {
    MatchModel {
        path: v.path,
        name: v.node.name@,
        class_name: v.node.class_name@,
        ordinals: if exists|i: int| 0 <= i < v.ordinals.len() && #[trigger] v.ordinals[i] != 1 {
            Some(v.ordinals)
        } else {
            None
        },
    }
}

pub open spec fn matches_of(v: Seq<QueryMatch>) -> Seq<MatchModel> {
    Seq::new(v.len(), |i: int| v[i]@)
}

pub open spec fn all_matches(v: Seq<VisitModel>) -> Seq<MatchModel> {
    Seq::new(v.len(), |i: int| match_of(v[i]))
}

fn query_result(v: &Visit<'_>) -> (r: QueryMatch)
    ensures
        r@ == match_of(v@),
{
    let mut other = false;
    let mut i: usize = 0;
    while i < v.ordinals.len()
        invariant
            i <= v.ordinals.len(),
            other == (exists|j: int| 0 <= j < i && #[trigger] numbers(v.ordinals@)[j] != 1),
        decreases v.ordinals.len() - i,
    {
        assert(numbers(v.ordinals@)[i as int] == v.ordinals@[i as int]);
        if v.ordinals[i] != 1 {
            other = true;
        }
        i += 1;
    }
    QueryMatch {
        path: clone_texts(&v.path),
        name: v.node.name.clone(),
        class_name: v.node.class_name.clone(),
        ordinals: if other {
            Some(clone_numbers(&v.ordinals))
        } else {
            None
        },
    }
}

fn prepared_query(q: &PlaceQuery) -> (r: Option<String>)
    ensures
        r is Some <==> query_text(*q) is Some,
        r is Some ==> Some(r->0@) == query_text(*q),
{
    match &q.query {
        Some(s) => {
            let t = trim(s);
            if t.as_str().is_empty() {
                None
            } else {
                Some(to_ascii_lower(&t))
            }
        },
        None => None,
    }
}

fn given<'a>(v: &'a Option<String>) -> (r: Option<&'a String>)
    ensures
        r is Some <==> condition(*v) is Some,
        r is Some ==> Some(r->0@) == condition(*v),
{
    match v {
        Some(s) => if s.as_str().is_empty() {
            None
        } else {
            Some(s)
        },
        None => None,
    }
}

fn finds(q: &PlaceQuery, text: &Option<String>, node: &PlaceNode) -> (r: bool)
    requires
        text is Some <==> query_text(*q) is Some,
        text is Some ==> Some(text->0@) == query_text(*q),
    ensures
        r == query_finds(*q, *node),
{
    match given(&q.name) {
        Some(name) => {
            if !same(&node.name, name) {
                return false;
            }
        },
        None => {},
    }
    match given(&q.class_name) {
        Some(class_name) => {
            if !same(&node.class_name, class_name) {
                return false;
            }
        },
        None => {},
    }
    match given(&q.source) {
        Some(part) => match script_source(node) {
            Some(source) => {
                if !contains_part(&source, part) {
                    return false;
                }
            },
            None => {
                return false;
            },
        },
        None => {},
    }
    match text {
        Some(part) => {
            let name = to_ascii_lower(&node.name);
            let class_name = to_ascii_lower(&node.class_name);
            contains_part(&name, part) || contains_part(&class_name, part)
        },
        None => true,
    }
}

/// What a search found, and whether there was more of it than asked for.
pub struct QueryReport {
    pub matches: Vec<QueryMatch>,
    pub truncated: bool,
}

/// Searches a place for at most `limit` instances; nothing where nothing is asked.
pub fn query_place(roots: &Vec<PlaceNode>, q: &PlaceQuery, limit: usize) -> (r: Option<QueryReport>)
    ensures
        r is None <==> asks_nothing(*q),
        r is Some ==> ({
            let found = all_matches(found_in(*q, place_walk(roots@), place_walk(roots@).len()));
            &&& matches_of(r->0.matches@) == crate::place_diff::at_most(found, limit as int)
            &&& r->0.truncated == (found.len() > limit)
        }),
{
    let text = prepared_query(q);
    if text.is_none() && given(&q.name).is_none() && given(&q.class_name).is_none() && given(&q.source).is_none() {
        return None;
    }
    let walk = walk_place(roots);
    let ghost all = visits_of(walk@);
    let mut out: Vec<QueryMatch> = Vec::new();
    let mut more = false;
    let mut i: usize = 0;
    assert(matches_of(out@) =~= Seq::empty());
    assert(all_matches(found_in(*q, all, 0)) =~= Seq::empty());
    assert(all.len() == walk@.len());
    while i < walk.len()
        invariant
            i <= walk.len(),
            all == visits_of(walk@),
            text is Some <==> query_text(*q) is Some,
            text is Some ==> Some(text->0@) == query_text(*q),
            ({
                let found = all_matches(found_in(*q, all, i as nat));
                &&& matches_of(out@) == crate::place_diff::at_most(found, limit as int)
                &&& more == (found.len() > limit)
            }),
        decreases walk.len() - i,
    {
        assert(all[i as int] == walk@[i as int]@);
        let ghost before = found_in(*q, all, i as nat);
        if finds(q, &text, walk[i].node) {
            assert(all_matches(before.push(all[i as int])) =~= all_matches(before).push(match_of(all[i as int])));
            assert(matches_of(out@).len() == out@.len());
            if out.len() == limit {
                more = true;
                assert(all_matches(before).push(match_of(all[i as int])).take(limit as int) =~= matches_of(out@));
            } else {
                let ghost start = out@;
                let entry = query_result(&walk[i]);
                out.push(entry);
                assert(matches_of(out@) =~= matches_of(start).push(entry@));
            }
        }
        i += 1;
    }
    Some(QueryReport { matches: out, truncated: more })
}

} // verus!
