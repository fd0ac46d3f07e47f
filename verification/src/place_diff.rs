//! Comparing two saved places value by value.
use vstd::prelude::*;

use crate::document::{instance_path_parts, path_names, Instance, InstanceModel, SettingsDocument};
use crate::json::{
    entries, get, law_same_json_reflexive, law_same_json_symmetric, lemma_entry_of, lemma_key_counts, opt_json, same_json, same_opt,
    Json, JsonModel, Member,
};
use crate::link_apply::value_of;
use crate::order::{ascending, law_order_settles_the_list, SortedSet};
use crate::table::key_views;
use crate::text::{same, texts};

verus! {

broadcast use vstd::seq_lib::group_seq_properties;

/// A property or attribute that differs. The values are given only where they are asked for.
pub struct FieldChange {
    pub name: String,
    pub before: Option<Json>,
    pub after: Option<Json>,
}

#[verifier::ext_equal]
pub struct ChangeModel {
    pub name: Seq<char>,
    pub before: Option<JsonModel>,
    pub after: Option<JsonModel>,
}

impl View for FieldChange {
    type V = ChangeModel;

    open spec fn view(&self) -> ChangeModel {
        ChangeModel { name: self.name@, before: opt_json(self.before), after: opt_json(self.after) }
    }
}

pub open spec fn changes_of(v: Seq<FieldChange>) -> Seq<ChangeModel> {
    Seq::new(v.len(), |i: int| v[i]@)
}

pub open spec fn change_names(v: Seq<ChangeModel>) -> Seq<Seq<char>> {
    Seq::new(v.len(), |i: int| v[i].name)
}

/// `r` names, in order, the keys under which two records differ.
pub open spec fn is_field_changes(
    before: Map<Seq<char>, JsonModel>,
    after: Map<Seq<char>, JsonModel>,
    values: bool,
    r: Seq<ChangeModel>,
) -> bool {
    &&& ascending::<String>(change_names(r))
    &&& forall|k: Seq<char>| #[trigger] change_names(r).contains(k) <==> !same_opt(value_of(before, k), value_of(after, k))
    &&& forall|i: int|
        0 <= i < r.len() ==> (#[trigger] r[i]) == if values {
            ChangeModel { name: r[i].name, before: value_of(before, r[i].name), after: value_of(after, r[i].name) }
        } else {
            ChangeModel { name: r[i].name, before: None, after: None }
        }
}

/// The keys under which two records differ, in order.
pub open spec fn field_changes(
    before: Map<Seq<char>, JsonModel>,
    after: Map<Seq<char>, JsonModel>,
    values: bool,
) -> Seq<ChangeModel> {
    choose|r: Seq<ChangeModel>| is_field_changes(before, after, values, r)
}

proof fn lemma_field_changes(
    before: Map<Seq<char>, JsonModel>,
    after: Map<Seq<char>, JsonModel>,
    values: bool,
    r: Seq<ChangeModel>,
)
    requires
        is_field_changes(before, after, values, r),
    ensures
        field_changes(before, after, values) == r,
{
    let other = field_changes(before, after, values);
    assert(is_field_changes(before, after, values, other));
    assert forall|k: Seq<char>| #[trigger] change_names(other).contains(k) <==> change_names(r).contains(k) by {}
    law_order_settles_the_list::<String>(change_names(other), change_names(r));
    assert forall|i: int| 0 <= i < r.len() implies other[i] == r[i] by {
        assert(change_names(other)[i] == change_names(r)[i]);
        assert(other[i].name == r[i].name);
    }
    assert(other.len() == change_names(other).len() && r.len() == change_names(r).len());
    assert(other =~= r);
}

fn copy_value(m: &Vec<Member>, key: &str) -> (r: Option<Json>)
    ensures
        opt_json(r) == value_of(entries(m@), key@),
{
    match get(m, key) {
        Some(v) => Some(v.copy()),
        None => None,
    }
}

fn same_value(a: &Vec<Member>, b: &Vec<Member>, key: &str) -> (r: bool)
    ensures
        r == same_opt(value_of(entries(a@), key@), value_of(entries(b@), key@)),
{
    match (get(a, key), get(b, key)) {
        (Some(x), Some(y)) => x.same(y),
        (None, None) => true,
        _ => false,
    }
}

/// Adds the keys of `m` under which it differs from `other`.
fn add_differing(names: &mut SortedSet<String>, m: &Vec<Member>, other: &Vec<Member>)
    ensures
        forall|k: Seq<char>| #[trigger]
            final(names)@.contains(k) <==> old(names)@.contains(k) || (entries(m@).dom().contains(k) && !same_opt(
                value_of(entries(m@), k),
                value_of(entries(other@), k),
            )),
{
    let ghost start = names@;
    let mut i: usize = 0;
    while i < m.len()
        invariant
            i <= m.len(),
            forall|k: Seq<char>| #[trigger]
                names@.contains(k) <==> start.contains(k) || ((exists|j: int| 0 <= j < i && #[trigger] m@[j].key@ == k)
                    && !same_opt(value_of(entries(m@), k), value_of(entries(other@), k))),
        decreases m.len() - i,
    {
        let ghost before = names@;
        let ghost key = m@[i as int].key@;
        let differs = !same_value(m, other, &m[i].key);
        if differs {
            names.insert(m[i].key.clone());
        }
        assert forall|k: Seq<char>| #[trigger]
            names@.contains(k) <==> start.contains(k) || ((exists|j: int| 0 <= j < i + 1 && #[trigger] m@[j].key@ == k)
                && !same_opt(value_of(entries(m@), k), value_of(entries(other@), k))) by {
            assert(before.contains(k) <==> start.contains(k) || ((exists|j: int|
                0 <= j < i && #[trigger] m@[j].key@ == k) && !same_opt(value_of(entries(m@), k), value_of(entries(other@), k))));
            if k == key {
                assert(m@[i as int].key@ == k);
            }
        }
        i += 1;
    }
    assert forall|k: Seq<char>| #[trigger]
        names@.contains(k) <==> start.contains(k) || (entries(m@).dom().contains(k) && !same_opt(
            value_of(entries(m@), k),
            value_of(entries(other@), k),
        )) by {
        if exists|j: int| 0 <= j < m.len() && #[trigger] m@[j].key@ == k {
            let j = choose|j: int| 0 <= j < m.len() && #[trigger] m@[j].key@ == k;
            lemma_key_counts(m@, j);
        }
        if entries(m@).dom().contains(k) {
            let j = lemma_entry_of(m@, k);
            assert(m@[j].key@ == k);
        }
    }
}

/// The keys under which two records differ, in order.
pub fn changed_fields(before: &Vec<Member>, after: &Vec<Member>, values: bool) -> (r: Vec<FieldChange>)
    ensures
        changes_of(r@) == field_changes(entries(before@), entries(after@), values),
        is_field_changes(entries(before@), entries(after@), values, changes_of(r@)),
{
    let ghost a = entries(before@);
    let ghost b = entries(after@);
    let mut names: SortedSet<String> = SortedSet::new();
    add_differing(&mut names, before, after);
    add_differing(&mut names, after, before);
    let names = names.into_items();
    let ghost all = key_views(names@);
    let mut out: Vec<FieldChange> = Vec::new();
    let mut i: usize = 0;
    while i < names.len()
        invariant
            i <= names.len(),
            a == entries(before@),
            b == entries(after@),
            all == key_views(names@),
            out@.len() == i,
            forall|j: int|
                0 <= j < i ==> (#[trigger] out@[j])@ == if values {
                    ChangeModel { name: all[j], before: value_of(a, all[j]), after: value_of(b, all[j]) }
                } else {
                    ChangeModel { name: all[j], before: None, after: None }
                },
        decreases names.len() - i,
    {
        assert(all[i as int] == names@[i as int]@);
        let change = if values {
            FieldChange {
                name: names[i].clone(),
                before: copy_value(before, &names[i]),
                after: copy_value(after, &names[i]),
            }
        } else {
            FieldChange { name: names[i].clone(), before: None, after: None }
        };
        out.push(change);
        i += 1;
    }
    proof {
        let r = changes_of(out@);
        assert forall|j: int| 0 <= j < r.len() implies r[j] == #[trigger] out@[j]@ by {}
        assert(change_names(r) =~= all);
        assert forall|k: Seq<char>| #[trigger] change_names(r).contains(k) <==> !same_opt(
            value_of(a, k),
            value_of(b, k),
        ) by {
            assert(all.contains(k) <==> (a.dom().contains(k) && !same_opt(value_of(a, k), value_of(b, k))) || (
            b.dom().contains(k) && !same_opt(value_of(b, k), value_of(a, k))));
            if a.dom().contains(k) && b.dom().contains(k) {
                if same_json(a[k], b[k]) {
                    law_same_json_symmetric(a[k], b[k]);
                }
                if same_json(b[k], a[k]) {
                    law_same_json_symmetric(b[k], a[k]);
                }
            }
        }
        assert forall|j: int| 0 <= j < r.len() implies (#[trigger] r[j]) == if values {
            ChangeModel { name: r[j].name, before: value_of(a, r[j].name), after: value_of(b, r[j].name) }
        } else {
            ChangeModel { name: r[j].name, before: None, after: None }
        } by {
            assert(r[j] == out@[j]@);
        }
        lemma_field_changes(a, b, values, r);
    }
    out
}

/// Two records differ nowhere where they are the same.
pub proof fn law_same_records_have_no_changes(m: Map<Seq<char>, JsonModel>, values: bool)
    ensures
        field_changes(m, m, values) == Seq::<ChangeModel>::empty(),
{
    let none = Seq::<ChangeModel>::empty();
    assert(change_names(none) =~= Seq::empty());
    assert forall|k: Seq<char>| same_opt(#[trigger] value_of(m, k), value_of(m, k)) by {
        if m.dom().contains(k) {
            law_same_json_reflexive(m[k]);
        }
    }
    lemma_field_changes(m, m, values, none);
}

/// Where an instance stands: the names on the way to it, its class, and its number from one.
pub struct Location {
    pub path: Vec<String>,
    pub class_name: String,
    pub index: usize,
}

#[verifier::ext_equal]
pub struct LocationModel {
    pub path: Seq<Seq<char>>,
    pub class_name: Seq<char>,
    pub index: int,
}

impl View for Location {
    type V = LocationModel;

    open spec fn view(&self) -> LocationModel {
        LocationModel { path: texts(self.path@), class_name: self.class_name@, index: self.index as int }
    }
}

pub open spec fn location_of(doc: Seq<InstanceModel>, i: int) -> LocationModel {
    LocationModel { path: path_names(doc, i), class_name: doc[i].class_name, index: i + 1 }
}

/// Where an instance of a document stands.
pub fn location(doc: &SettingsDocument, index: usize) -> (r: Location)
    requires
        index < doc@.len(),
    ensures
        r@ == location_of(doc@, index as int),
{
    assert(doc@[index as int] == doc.instances@[index as int]@);
    let (path, _) = instance_path_parts(doc, index);
    let count = doc.instances.len();
    assert(index < count);
    Location { path, class_name: doc.instances[index].class_name.clone(), index: index + 1 }
}

/// What an instance holds.
pub struct Fields {
    pub properties: Vec<Member>,
    pub attributes: Vec<Member>,
}

#[verifier::ext_equal]
pub struct FieldsModel {
    pub properties: Map<Seq<char>, JsonModel>,
    pub attributes: Map<Seq<char>, JsonModel>,
}

impl View for Fields {
    type V = FieldsModel;

    open spec fn view(&self) -> FieldsModel {
        FieldsModel { properties: entries(self.properties@), attributes: entries(self.attributes@) }
    }
}

pub open spec fn opt_fields(v: Option<Fields>) -> Option<FieldsModel> {
    match v {
        Some(f) => Some(f@),
        None => None,
    }
}

/// What a report shows of an instance that stands in one place only: all it holds where the values
/// are asked for.
pub open spec fn shown(x: InstanceModel, values: bool) -> Option<FieldsModel> {
    if values {
        Some(FieldsModel { properties: x.properties, attributes: x.attributes })
    } else {
        None
    }
}

fn fields_of(x: &Instance, values: bool) -> (r: Option<Fields>)
    ensures
        opt_fields(r) == shown(x@, values),
{
    if values {
        let c = x.copy();
        Some(Fields { properties: c.properties, attributes: c.attributes })
    } else {
        None
    }
}

/// One difference between two places.
pub enum Difference {
    Added { after: Location, fields: Option<Fields> },
    Changed { before: Location, after: Location, properties: Vec<FieldChange>, attributes: Vec<FieldChange> },
    Removed { before: Location, fields: Option<Fields> },
}

#[verifier::ext_equal]
pub enum DifferenceModel {
    Added { after: LocationModel, fields: Option<FieldsModel> },
    Changed { before: LocationModel, after: LocationModel, properties: Seq<ChangeModel>, attributes: Seq<ChangeModel> },
    Removed { before: LocationModel, fields: Option<FieldsModel> },
}

impl View for Difference {
    type V = DifferenceModel;

    open spec fn view(&self) -> DifferenceModel {
        match self {
            Difference::Added { after, fields } => DifferenceModel::Added { after: after@, fields: opt_fields(*fields) },
            Difference::Changed { before, after, properties, attributes } => DifferenceModel::Changed {
                before: before@,
                after: after@,
                properties: changes_of(properties@),
                attributes: changes_of(attributes@),
            },
            Difference::Removed { before, fields } => DifferenceModel::Removed {
                before: before@,
                fields: opt_fields(*fields),
            },
        }
    }
}

pub open spec fn differences_of(v: Seq<Difference>) -> Seq<DifferenceModel> {
    Seq::new(v.len(), |i: int| v[i]@)
}

/// The last of the first `n` instances with an id.
pub open spec fn last_with_id(doc: Seq<InstanceModel>, id: Seq<char>, n: nat) -> Option<int>
    decreases n,
{
    if n == 0 {
        None
    } else if doc[n - 1].id == id {
        Some(n - 1)
    } else {
        last_with_id(doc, id, (n - 1) as nat)
    }
}

fn find_last_id(doc: &SettingsDocument, id: &str) -> (r: Option<usize>)
    ensures
        match r {
            Some(i) => i < doc@.len() && last_with_id(doc@, id@, doc@.len()) == Some(i as int),
            None => last_with_id(doc@, id@, doc@.len()) is None,
        },
{
    let mut i: usize = doc.instances.len();
    while i > 0
        invariant
            i <= doc.instances.len(),
            last_with_id(doc@, id@, doc@.len()) == last_with_id(doc@, id@, i as nat),
        decreases i,
    {
        assert(doc@[i - 1] == doc.instances@[i - 1]@);
        if same(&doc.instances[i - 1].settings_id, id) {
            return Some(i - 1);
        }
        i -= 1;
    }
    None
}

/// What has been found: how many instances are new, changed, the same and gone, and the differences.
#[verifier::ext_equal]
pub struct Tally {
    pub added: nat,
    pub changed: nat,
    pub unchanged: nat,
    pub removed: nat,
    pub differences: Seq<DifferenceModel>,
}

/// The first `n` instances of the later place, held against the former.
pub open spec fn after_tally(before: Seq<InstanceModel>, after: Seq<InstanceModel>, values: bool, n: nat) -> Tally
    decreases n,
{
    if n == 0 {
        Tally { added: 0, changed: 0, unchanged: 0, removed: 0, differences: Seq::empty() }
    } else {
        let t = after_tally(before, after, values, (n - 1) as nat);
        let x = after[n - 1];
        match last_with_id(before, x.id, before.len()) {
            None => Tally {
                added: t.added + 1,
                differences: t.differences.push(
                    DifferenceModel::Added { after: location_of(after, n - 1), fields: shown(x, values) },
                ),
                ..t
            },
            Some(p) => {
                let properties = field_changes(before[p].properties, x.properties, values);
                let attributes = field_changes(before[p].attributes, x.attributes, values);
                if properties.len() == 0 && attributes.len() == 0 {
                    Tally { unchanged: t.unchanged + 1, ..t }
                } else {
                    Tally {
                        changed: t.changed + 1,
                        differences: t.differences.push(
                            DifferenceModel::Changed {
                                before: location_of(before, p),
                                after: location_of(after, n - 1),
                                properties,
                                attributes,
                            },
                        ),
                        ..t
                    }
                }
            },
        }
    }
}

/// Some instance among the first `n` of the later place stands for instance `i` of the former.
pub open spec fn is_matched(before: Seq<InstanceModel>, after: Seq<InstanceModel>, n: nat, i: int) -> bool {
    exists|j: int|
        0 <= j < n && j < after.len() && last_with_id(before, (#[trigger] after[j]).id, before.len()) == Some(i)
}

/// And the first `n` instances of the former place that nothing stands for.
pub open spec fn whole_tally(before: Seq<InstanceModel>, after: Seq<InstanceModel>, values: bool, n: nat) -> Tally
    decreases n,
{
    if n == 0 {
        after_tally(before, after, values, after.len())
    } else {
        let t = whole_tally(before, after, values, (n - 1) as nat);
        if is_matched(before, after, after.len(), n - 1) {
            t
        } else {
            Tally {
                removed: t.removed + 1,
                differences: t.differences.push(
                    DifferenceModel::Removed {
                        before: location_of(before, n - 1),
                        fields: shown(before[n - 1], values),
                    },
                ),
                ..t
            }
        }
    }
}

/// The differences between two places.
pub open spec fn compared(before: Seq<InstanceModel>, after: Seq<InstanceModel>, values: bool) -> Tally {
    whole_tally(before, after, values, before.len())
}

/// The report of a comparison: every difference is counted, and so many are given as were asked for.
pub struct Comparison {
    /// How many instances there were, and how many there are.
    pub before_instances: usize,
    pub after_instances: usize,
    pub added: usize,
    pub removed: usize,
    pub changed: usize,
    pub unchanged: usize,
    pub differences: Vec<Difference>,
    pub truncated: bool,
}

pub open spec fn at_most<A>(s: Seq<A>, limit: int) -> Seq<A> {
    if s.len() <= limit {
        s
    } else {
        s.take(limit)
    }
}

proof fn lemma_at_most_push<A>(s: Seq<A>, limit: int, x: A)
    requires
        0 <= limit,
    ensures
        at_most(s.push(x), limit) == if s.len() < limit {
            at_most(s, limit).push(x)
        } else {
            at_most(s, limit)
        },
{
    if s.len() >= limit {
        assert(s.push(x).take(limit) =~= at_most(s, limit));
    }
}

proof fn lemma_after_counts(before: Seq<InstanceModel>, after: Seq<InstanceModel>, values: bool, n: nat)
    ensures
        ({
            let t = after_tally(before, after, values, n);
            &&& t.added + t.changed + t.unchanged == n
            &&& t.removed == 0
            &&& t.differences.len() == t.added + t.changed
        }),
    decreases n,
{
    if n > 0 {
        lemma_after_counts(before, after, values, (n - 1) as nat);
    }
}

proof fn lemma_whole_counts(before: Seq<InstanceModel>, after: Seq<InstanceModel>, values: bool, n: nat)
    ensures
        ({
            let t = whole_tally(before, after, values, n);
            &&& t.added + t.changed + t.unchanged == after.len()
            &&& t.removed <= n
            &&& t.differences.len() == t.added + t.changed + t.removed
        }),
    decreases n,
{
    if n > 0 {
        lemma_whole_counts(before, after, values, (n - 1) as nat);
    } else {
        lemma_after_counts(before, after, values, after.len());
    }
}

proof fn lemma_differences_push(v: Seq<Difference>, x: Difference)
    ensures
        differences_of(v.push(x)) == differences_of(v).push(x@),
{
    assert(differences_of(v.push(x)) =~= differences_of(v).push(x@));
}

/// Compares two documents whose ids stand for the same instances, and reports at most `limit`
/// differences.
pub fn compare_by_id(before: &SettingsDocument, after: &SettingsDocument, values: bool, limit: usize) -> (r: Comparison)
    ensures
        ({
            let t = compared(before@, after@, values);
            &&& r.before_instances == before@.len()
            &&& r.after_instances == after@.len()
            &&& r.added == t.added
            &&& r.changed == t.changed
            &&& r.unchanged == t.unchanged
            &&& r.removed == t.removed
            &&& differences_of(r.differences@) == at_most(t.differences, limit as int)
            &&& r.truncated == (t.differences.len() > limit)
        }),
{
    let ghost old_doc = before@;
    let ghost new_doc = after@;
    let mut matched: Vec<bool> = Vec::new();
    while matched.len() < before.instances.len()
        invariant
            matched@.len() <= before.instances@.len(),
            forall|j: int| 0 <= j < matched@.len() ==> !#[trigger] matched@[j],
        decreases before.instances.len() - matched.len(),
    {
        matched.push(false);
    }
    let mut added: usize = 0;
    let mut changed: usize = 0;
    let mut unchanged: usize = 0;
    let mut removed: usize = 0;
    let mut differences: Vec<Difference> = Vec::new();
    assert(differences_of(differences@) =~= Seq::empty());
    let mut i: usize = 0;
    while i < after.instances.len()
        invariant
            i <= after.instances.len(),
            old_doc == before@,
            new_doc == after@,
            matched@.len() == old_doc.len(),
            forall|j: int| 0 <= j < matched@.len() ==> #[trigger] matched@[j] == is_matched(old_doc, new_doc, i as nat, j),
            ({
                let t = after_tally(old_doc, new_doc, values, i as nat);
                &&& added == t.added
                &&& changed == t.changed
                &&& unchanged == t.unchanged
                &&& differences_of(differences@) == at_most(t.differences, limit as int)
            }),
        decreases after.instances.len() - i,
    {
        let ghost t = after_tally(old_doc, new_doc, values, i as nat);
        proof {
            lemma_after_counts(old_doc, new_doc, values, i as nat);
            assert(differences_of(differences@).len() == differences@.len());
        }
        assert(new_doc[i as int] == after.instances@[i as int]@);
        let ghost was = matched@;
        match find_last_id(before, &after.instances[i].settings_id) {
            None => {
                added += 1;
                let ghost found = DifferenceModel::Added {
                    after: location_of(new_doc, i as int),
                    fields: shown(new_doc[i as int], values),
                };
                proof {
                    lemma_at_most_push(t.differences, limit as int, found);
                }
                if differences.len() < limit {
                    let entry = Difference::Added {
                        after: location(after, i),
                        fields: fields_of(&after.instances[i], values),
                    };
                    proof {
                        lemma_differences_push(differences@, entry);
                    }
                    differences.push(entry);
                }
                assert forall|j: int| 0 <= j < matched@.len() implies #[trigger] matched@[j] == is_matched(
                    old_doc,
                    new_doc,
                    (i + 1) as nat,
                    j,
                ) by {
                    assert(was[j] == is_matched(old_doc, new_doc, i as nat, j));
                    lemma_matched_step(old_doc, new_doc, i as int, j);
                }
            },
            Some(previous) => {
                assert(old_doc[previous as int] == before.instances@[previous as int]@);
                let properties = changed_fields(
                    &before.instances[previous].properties,
                    &after.instances[i].properties,
                    values,
                );
                let attributes = changed_fields(
                    &before.instances[previous].attributes,
                    &after.instances[i].attributes,
                    values,
                );
                assert(changes_of(properties@).len() == properties@.len());
                assert(changes_of(attributes@).len() == attributes@.len());
                matched.set(previous, true);
                assert forall|j: int| 0 <= j < matched@.len() implies #[trigger] matched@[j] == is_matched(
                    old_doc,
                    new_doc,
                    (i + 1) as nat,
                    j,
                ) by {
                    assert(was[j] == is_matched(old_doc, new_doc, i as nat, j));
                    lemma_matched_step(old_doc, new_doc, i as int, j);
                }
                if properties.len() == 0 && attributes.len() == 0 {
                    unchanged += 1;
                } else {
                    changed += 1;
                    let ghost found = DifferenceModel::Changed {
                        before: location_of(old_doc, previous as int),
                        after: location_of(new_doc, i as int),
                        properties: changes_of(properties@),
                        attributes: changes_of(attributes@),
                    };
                    proof {
                        lemma_at_most_push(t.differences, limit as int, found);
                    }
                    if differences.len() < limit {
                        let entry = Difference::Changed {
                            before: location(before, previous),
                            after: location(after, i),
                            properties,
                            attributes,
                        };
                        proof {
                            lemma_differences_push(differences@, entry);
                        }
                        differences.push(entry);
                    }
                }
            },
        }
        i += 1;
    }
    proof {
        lemma_after_counts(old_doc, new_doc, values, new_doc.len());
    }
    let mut k: usize = 0;
    while k < before.instances.len()
        invariant
            k <= before.instances.len(),
            old_doc == before@,
            new_doc == after@,
            matched@.len() == old_doc.len(),
            forall|j: int|
                0 <= j < matched@.len() ==> #[trigger] matched@[j] == is_matched(old_doc, new_doc, new_doc.len(), j),
            ({
                let t = whole_tally(old_doc, new_doc, values, k as nat);
                &&& added == t.added
                &&& changed == t.changed
                &&& unchanged == t.unchanged
                &&& removed == t.removed
                &&& differences_of(differences@) == at_most(t.differences, limit as int)
            }),
        decreases before.instances.len() - k,
    {
        let ghost t = whole_tally(old_doc, new_doc, values, k as nat);
        proof {
            lemma_whole_counts(old_doc, new_doc, values, k as nat);
            assert(differences_of(differences@).len() == differences@.len());
        }
        if !matched[k] {
            removed += 1;
            assert(old_doc[k as int] == before.instances@[k as int]@);
            let ghost found = DifferenceModel::Removed {
                before: location_of(old_doc, k as int),
                fields: shown(old_doc[k as int], values),
            };
            proof {
                lemma_at_most_push(t.differences, limit as int, found);
            }
            if differences.len() < limit {
                let entry = Difference::Removed {
                    before: location(before, k),
                    fields: fields_of(&before.instances[k], values),
                };
                proof {
                    lemma_differences_push(differences@, entry);
                }
                differences.push(entry);
            }
        }
        k += 1;
    }
    proof {
        lemma_whole_counts(old_doc, new_doc, values, old_doc.len());
        assert(differences_of(differences@).len() == differences@.len());
    }
    let total = added as u128 + changed as u128 + removed as u128;
    Comparison {
        before_instances: before.instances.len(),
        after_instances: after.instances.len(),
        added,
        removed,
        changed,
        unchanged,
        differences,
        truncated: total > limit as u128,
    }
}

proof fn lemma_matched_step(before: Seq<InstanceModel>, after: Seq<InstanceModel>, n: int, i: int)
    requires
        0 <= n < after.len(),
    ensures
        is_matched(before, after, (n + 1) as nat, i) == (is_matched(before, after, n as nat, i) || last_with_id(
            before,
            after[n].id,
            before.len(),
        ) == Some(i)),
{
    if is_matched(before, after, (n + 1) as nat, i) {
        let j = choose|j: int|
            0 <= j < n + 1 && j < after.len() && last_with_id(before, (#[trigger] after[j]).id, before.len()) == Some(i);
        if j < n {
            assert(is_matched(before, after, n as nat, i));
        }
    }
    if is_matched(before, after, n as nat, i) {
        let j = choose|j: int|
            0 <= j < n && j < after.len() && last_with_id(before, (#[trigger] after[j]).id, before.len()) == Some(i);
        assert(0 <= j < n + 1 && last_with_id(before, after[j].id, before.len()) == Some(i));
    }
    if last_with_id(before, after[n].id, before.len()) == Some(i) {
        assert(0 <= n < n + 1);
    }
}

/// No id stands in a document twice.
pub open spec fn distinct_ids(doc: Seq<InstanceModel>) -> bool {
    forall|i: int, j: int| 0 <= i < j < doc.len() ==> (#[trigger] doc[i]).id != (#[trigger] doc[j]).id
}

proof fn lemma_last_with_id(doc: Seq<InstanceModel>, id: Seq<char>, n: nat)
    requires
        n <= doc.len(),
    ensures
        match last_with_id(doc, id, n) {
            Some(i) => 0 <= i < n && doc[i].id == id,
            None => forall|i: int| 0 <= i < n ==> (#[trigger] doc[i]).id != id,
        },
    decreases n,
{
    if n > 0 {
        lemma_last_with_id(doc, id, (n - 1) as nat);
    }
}

proof fn lemma_only_with_id(doc: Seq<InstanceModel>, i: int)
    requires
        distinct_ids(doc),
        0 <= i < doc.len(),
    ensures
        last_with_id(doc, doc[i].id, doc.len()) == Some(i),
{
    lemma_last_with_id(doc, doc[i].id, doc.len());
    let found = last_with_id(doc, doc[i].id, doc.len());
    if found is Some {
        let j = found->0;
        if j < i {
            assert(doc[j].id != doc[i].id);
        } else if j > i {
            assert(doc[i].id != doc[j].id);
        }
    }
}

/// A place compared with itself shows no difference.
pub proof fn law_place_equals_itself(doc: Seq<InstanceModel>, values: bool)
    requires
        distinct_ids(doc),
    ensures
        compared(doc, doc, values).differences.len() == 0,
        compared(doc, doc, values).unchanged == doc.len(),
{
    lemma_itself_after(doc, values, doc.len());
    lemma_itself_whole(doc, values, doc.len());
}

proof fn lemma_itself_after(doc: Seq<InstanceModel>, values: bool, n: nat)
    requires
        distinct_ids(doc),
        n <= doc.len(),
    ensures
        after_tally(doc, doc, values, n).differences.len() == 0,
        after_tally(doc, doc, values, n).unchanged == n,
    decreases n,
{
    if n > 0 {
        lemma_itself_after(doc, values, (n - 1) as nat);
        lemma_only_with_id(doc, n - 1);
        law_same_records_have_no_changes(doc[n - 1].properties, values);
        law_same_records_have_no_changes(doc[n - 1].attributes, values);
    }
}

proof fn lemma_itself_whole(doc: Seq<InstanceModel>, values: bool, n: nat)
    requires
        distinct_ids(doc),
        n <= doc.len(),
    ensures
        whole_tally(doc, doc, values, n) == after_tally(doc, doc, values, doc.len()),
    decreases n,
{
    if n > 0 {
        lemma_itself_whole(doc, values, (n - 1) as nat);
        lemma_only_with_id(doc, n - 1);
        assert(last_with_id(doc, doc[n - 1].id, doc.len()) == Some(n - 1));
        assert(is_matched(doc, doc, doc.len(), n - 1));
    }
}

/// What is new one way is gone the other way.
pub proof fn law_added_is_removed_the_other_way(before: Seq<InstanceModel>, after: Seq<InstanceModel>, values: bool)
    requires
        distinct_ids(after),
    ensures
        compared(before, after, values).added == compared(after, before, values).removed,
{
    lemma_added_kept(before, after, values, before.len());
    lemma_added_removed(before, after, values, after.len());
}

proof fn lemma_added_kept(before: Seq<InstanceModel>, after: Seq<InstanceModel>, values: bool, n: nat)
    ensures
        whole_tally(before, after, values, n).added == after_tally(before, after, values, after.len()).added,
    decreases n,
{
    if n > 0 {
        lemma_added_kept(before, after, values, (n - 1) as nat);
    }
}

proof fn lemma_added_removed(before: Seq<InstanceModel>, after: Seq<InstanceModel>, values: bool, n: nat)
    requires
        distinct_ids(after),
        n <= after.len(),
    ensures
        after_tally(before, after, values, n).added == whole_tally(after, before, values, n).removed,
    decreases n,
{
    if n == 0 {
        lemma_after_counts(after, before, values, before.len());
    } else {
        lemma_added_removed(before, after, values, (n - 1) as nat);
        let x = after[n - 1];
        lemma_last_with_id(before, x.id, before.len());
        lemma_only_with_id(after, n - 1);
        match last_with_id(before, x.id, before.len()) {
            Some(p) => {
                assert(last_with_id(after, before[p].id, after.len()) == Some(n - 1));
                assert(is_matched(after, before, before.len(), n - 1));
            },
            None => {
                if is_matched(after, before, before.len(), n - 1) {
                    let j = choose|j: int|
                        0 <= j < before.len() && last_with_id(after, (#[trigger] before[j]).id, after.len()) == Some(n - 1);
                    lemma_last_with_id(after, before[j].id, after.len());
                    assert(before[j].id == x.id);
                }
            },
        }
    }
}

} // verus!
