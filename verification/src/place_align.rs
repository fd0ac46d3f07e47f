//! Pairing the instances of two places, and comparing the places by the pairs.
//!
//! Instances are paired from the services down: a child of one of a pair with a child of the other
//! that has its name and class. Among several such children those that hold the same, references
//! aside, are paired first. One that is then left on each side is paired with the other. More than
//! that cannot be told apart, and no pairing is given.
use vstd::prelude::*;

use crate::document::{models, parents_first, same_parent, Instance, InstanceModel, SettingsDocument};
use crate::json::{entries, law_same_json_reflexive, same_json, Json, JsonModel, Member};
use crate::place::{
    document_to, law_parents_come_before, numbered_document, numbered_place, opt_list, referable, service_visits, small_parent, visit_id,
    DocumentError, Place, VisitModel,
};
use crate::place_diff::{at_most, compare_by_id, compared, differences_of, distinct_ids, law_place_equals_itself, Comparison};
use crate::settle::{settle, settle_fields, settled, settled_fields};
use crate::text::{decimal, law_decimal_is_injective, same, texts};

verus! {

/// The children of an instance, or the services, among the first `n` instances.
pub open spec fn children_to(doc: Seq<InstanceModel>, parent: Option<usize>, n: nat) -> Seq<usize>
    decreases n,
{
    if n == 0 {
        Seq::empty()
    } else if doc[n - 1].parent == parent {
        children_to(doc, parent, (n - 1) as nat).push((n - 1) as usize)
    } else {
        children_to(doc, parent, (n - 1) as nat)
    }
}

proof fn lemma_children(doc: Seq<InstanceModel>, parent: Option<usize>, n: nat, k: int)
    requires
        n <= doc.len() <= usize::MAX,
        0 <= k < children_to(doc, parent, n).len(),
    ensures
        children_to(doc, parent, n)[k] < n,
        doc[children_to(doc, parent, n)[k] as int].parent == parent,
    decreases n,
{
    let before = children_to(doc, parent, (n - 1) as nat);
    if k < before.len() {
        lemma_children(doc, parent, (n - 1) as nat, k);
    }
}

fn children(doc: &SettingsDocument, parent: Option<usize>) -> (r: Vec<usize>)
    ensures
        r@ == children_to(doc@, parent, doc@.len()),
{
    let mut out: Vec<usize> = Vec::new();
    let mut i: usize = 0;
    while i < doc.instances.len()
        invariant
            i <= doc.instances.len(),
            out@ == children_to(doc@, parent, i as nat),
        decreases doc.instances.len() - i,
    {
        assert(doc@[i as int] == doc.instances@[i as int]@);
        if same_parent(doc.instances[i].parent_index, parent) {
            out.push(i);
        }
        i += 1;
    }
    out
}

/// Two records with equal values.
pub open spec fn same_fields(x: Map<Seq<char>, JsonModel>, y: Map<Seq<char>, JsonModel>) -> bool {
    same_json(JsonModel::Object(x), JsonModel::Object(y))
}

/// Two instances with the same name and class that hold the same, references aside.
pub open spec fn alike(x: InstanceModel, y: InstanceModel) -> bool {
    let none = Seq::<Seq<char>>::empty();
    &&& x.name == y.name
    &&& x.class_name == y.class_name
    &&& same_fields(settled_fields(x.properties, none), settled_fields(y.properties, none))
    &&& same_fields(settled_fields(x.attributes, none), settled_fields(y.attributes, none))
}

fn are_same_fields(x: &Vec<Member>, y: &Vec<Member>) -> (r: bool)
    ensures
        r == same_fields(
            settled_fields(entries(x@), Seq::<Seq<char>>::empty()),
            settled_fields(entries(y@), Seq::<Seq<char>>::empty()),
        ),
{
    let none: Vec<String> = Vec::new();
    assert(texts(none@) =~= Seq::<Seq<char>>::empty());
    Json::Object(settle_fields(x, &none)).same(&Json::Object(settle_fields(y, &none)))
}

fn are_alike(x: &Instance, y: &Instance) -> (r: bool)
    ensures
        r == alike(x@, y@),
{
    same(&x.name, &y.name) && same(&x.class_name, &y.class_name) && are_same_fields(&x.properties, &y.properties)
        && are_same_fields(&x.attributes, &y.attributes)
}

/// Instance `b` of one place and instance `a` of the other hold the same, and so do their children, in
/// whatever order, down to `levels` levels.
pub open spec fn twins(before: Seq<InstanceModel>, b: int, after: Seq<InstanceModel>, a: int, levels: nat) -> bool
    decreases levels, 0nat, 0nat,
{
    if levels == 0 {
        false
    } else {
        alike(before[b], after[a]) && paired_off(
            before,
            children_to(before, Some(b as usize), before.len()),
            after,
            children_to(after, Some(a as usize), after.len()),
            (levels - 1) as nat,
        )
    }
}

/// Each of some instances has a twin among as many others, all different.
pub open spec fn paired_off(
    before: Seq<InstanceModel>,
    xs: Seq<usize>,
    after: Seq<InstanceModel>,
    ys: Seq<usize>,
    levels: nat,
) -> bool
    decreases levels, 2nat, xs.len(),
{
    if xs.len() == 0 {
        ys.len() == 0
    } else {
        match twin_among(before, xs[0], after, ys, levels, 0) {
            Some(j) => paired_off(before, xs.drop_first(), after, ys.remove(j), levels),
            None => false,
        }
    }
}

/// The place of the first twin of an instance among others, from the `j`th on.
pub open spec fn twin_among(
    before: Seq<InstanceModel>,
    x: usize,
    after: Seq<InstanceModel>,
    ys: Seq<usize>,
    levels: nat,
    j: nat,
) -> Option<int>
    decreases levels, 1nat, ys.len() - j,
{
    if j >= ys.len() {
        None
    } else if twins(before, x as int, after, ys[j as int] as int, levels) {
        Some(j as int)
    } else {
        twin_among(before, x, after, ys, levels, j + 1)
    }
}

fn are_twins(before: &SettingsDocument, b: usize, after: &SettingsDocument, a: usize, levels: usize) -> (r: bool)
    requires
        b < before@.len(),
        a < after@.len(),
    ensures
        r == twins(before@, b as int, after@, a as int, levels as nat),
    decreases levels, 0nat,
{
    if levels == 0 {
        return false;
    }
    assert(before@[b as int] == before.instances@[b as int]@);
    assert(after@[a as int] == after.instances@[a as int]@);
    let count_before: usize = before.instances.len();
    let count_after: usize = after.instances.len();
    if !are_alike(&before.instances[b], &after.instances[a]) {
        return false;
    }
    let xs = children(before, Some(b));
    let ys = children(after, Some(a));
    proof {
        assert(before@.len() == count_before && after@.len() == count_after);
        assert forall|k: int| 0 <= k < xs@.len() implies #[trigger] xs@[k] < before@.len() by {
            lemma_children(before@, Some(b), before@.len(), k);
        }
        assert forall|k: int| 0 <= k < ys@.len() implies #[trigger] ys@[k] < after@.len() by {
            lemma_children(after@, Some(a), after@.len(), k);
        }
    }
    pair_off(before, &xs, after, ys, levels - 1)
}

fn pair_off(before: &SettingsDocument, xs: &Vec<usize>, after: &SettingsDocument, ys: Vec<usize>, levels: usize) -> (r: bool)
    requires
        forall|k: int| 0 <= k < xs@.len() ==> #[trigger] xs@[k] < before@.len(),
        forall|k: int| 0 <= k < ys@.len() ==> #[trigger] ys@[k] < after@.len(),
    ensures
        r == paired_off(before@, xs@, after@, ys@, levels as nat),
    decreases levels, 2nat,
{
    let ghost whole = paired_off(before@, xs@, after@, ys@, levels as nat);
    let mut rest = ys;
    let mut i: usize = 0;
    assert(xs@.skip(0) =~= xs@);
    while i < xs.len()
        invariant
            i <= xs.len(),
            forall|k: int| 0 <= k < xs@.len() ==> #[trigger] xs@[k] < before@.len(),
            forall|k: int| 0 <= k < rest@.len() ==> #[trigger] rest@[k] < after@.len(),
            whole == paired_off(before@, xs@, after@, ys@, levels as nat),
            whole == paired_off(before@, xs@.skip(i as int), after@, rest@, levels as nat),
        decreases xs.len() - i,
    {
        assert(xs@.skip(i as int)[0] == xs@[i as int]);
        assert(xs@.skip(i as int).drop_first() =~= xs@.skip(i + 1));
        match find_among(before, xs[i], after, &rest, levels) {
            Some(j) => {
                let ghost old_rest = rest@;
                let _ = rest.remove(j);
                assert(forall|k: int| 0 <= k < rest@.len() ==> #[trigger] rest@[k] < after@.len()) by {
                    assert forall|k: int| 0 <= k < rest@.len() implies #[trigger] rest@[k] < after@.len() by {
                        assert(rest@[k] == if k < j {
                            old_rest[k]
                        } else {
                            old_rest[k + 1]
                        });
                    }
                }
            },
            None => {
                return false;
            },
        }
        i += 1;
    }
    rest.len() == 0
}

fn find_among(before: &SettingsDocument, x: usize, after: &SettingsDocument, ys: &Vec<usize>, levels: usize) -> (r: Option<usize>)
    requires
        x < before@.len(),
        forall|k: int| 0 <= k < ys@.len() ==> #[trigger] ys@[k] < after@.len(),
    ensures
        match r {
            Some(j) => j < ys@.len() && twin_among(before@, x, after@, ys@, levels as nat, 0) == Some(j as int),
            None => twin_among(before@, x, after@, ys@, levels as nat, 0) is None,
        },
    decreases levels, 1nat,
{
    let mut j: usize = 0;
    while j < ys.len()
        invariant
            j <= ys.len(),
            x < before@.len(),
            forall|k: int| 0 <= k < ys@.len() ==> #[trigger] ys@[k] < after@.len(),
            twin_among(before@, x, after@, ys@, levels as nat, 0) == twin_among(
                before@,
                x,
                after@,
                ys@,
                levels as nat,
                j as nat,
            ),
        decreases ys.len() - j,
    {
        assert(ys@[j as int] < after@.len());
        if are_twins(before, x, after, ys[j], levels) {
            return Some(j);
        }
        j += 1;
    }
    None
}

/// The instances of the former place that an instance may be paired with: those under the given
/// parent, with its name and class, that are not paired yet.
pub open spec fn choices(
    before: Seq<InstanceModel>,
    x: InstanceModel,
    parent: Option<usize>,
    pairs: Seq<Option<usize>>,
    n: nat,
) -> Seq<usize>
    decreases n,
{
    if n == 0 {
        Seq::empty()
    } else {
        let rest = choices(before, x, parent, pairs, (n - 1) as nat);
        let y = before[n - 1];
        if y.parent == parent && y.name == x.name && y.class_name == x.class_name && !pairs.contains(
            Some((n - 1) as usize),
        ) {
            rest.push((n - 1) as usize)
        } else {
            rest
        }
    }
}

proof fn lemma_choices(
    before: Seq<InstanceModel>,
    x: InstanceModel,
    parent: Option<usize>,
    pairs: Seq<Option<usize>>,
    n: nat,
    k: int,
)
    requires
        n <= before.len() <= usize::MAX,
        0 <= k < choices(before, x, parent, pairs, n).len(),
    ensures
        ({
            let b = choices(before, x, parent, pairs, n)[k];
            &&& b < n
            &&& before[b as int].parent == parent
            &&& before[b as int].name == x.name
            &&& before[b as int].class_name == x.class_name
            &&& !pairs.contains(Some(b))
        }),
    decreases n,
{
    let rest = choices(before, x, parent, pairs, (n - 1) as nat);
    if k < rest.len() {
        lemma_choices(before, x, parent, pairs, (n - 1) as nat, k);
    }
}

fn is_taken(pairs: &Vec<Option<usize>>, b: usize) -> (r: bool)
    ensures
        r == pairs@.contains(Some(b)),
{
    let mut i: usize = 0;
    while i < pairs.len()
        invariant
            i <= pairs.len(),
            forall|j: int| 0 <= j < i ==> #[trigger] pairs@[j] != Some(b),
        decreases pairs.len() - i,
    {
        if same_parent(pairs[i], Some(b)) {
            assert(pairs@[i as int] == Some(b));
            return true;
        }
        i += 1;
    }
    false
}

fn choose_among(before: &SettingsDocument, x: &Instance, parent: Option<usize>, pairs: &Vec<Option<usize>>) -> (r: Vec<
    usize,
>)
    ensures
        r@ == choices(before@, x@, parent, pairs@, before@.len()),
{
    let mut out: Vec<usize> = Vec::new();
    let mut i: usize = 0;
    while i < before.instances.len()
        invariant
            i <= before.instances.len(),
            out@ == choices(before@, x@, parent, pairs@, i as nat),
        decreases before.instances.len() - i,
    {
        assert(before@[i as int] == before.instances@[i as int]@);
        let y = &before.instances[i];
        if same_parent(y.parent_index, parent) && same(&y.name, &x.name) && same(&y.class_name, &x.class_name) && !is_taken(
            pairs,
            i,
        ) {
            out.push(i);
        }
        i += 1;
    }
    out
}

/// The first of the choices, from number `i` on, that is a twin of instance `a`.
pub open spec fn first_twin(
    before: Seq<InstanceModel>,
    list: Seq<usize>,
    after: Seq<InstanceModel>,
    a: int,
    i: nat,
) -> Option<usize>
    decreases list.len() - i,
{
    if i >= list.len() {
        None
    } else if twins(before, list[i as int] as int, after, a, after.len()) {
        Some(list[i as int])
    } else {
        first_twin(before, list, after, a, i + 1)
    }
}

proof fn lemma_first_twin(before: Seq<InstanceModel>, list: Seq<usize>, after: Seq<InstanceModel>, a: int, i: nat)
    ensures
        match first_twin(before, list, after, a, i) {
            Some(b) => list.contains(b),
            None => true,
        },
    decreases list.len() - i,
{
    if i < list.len() {
        lemma_first_twin(before, list, after, a, i + 1);
    }
}

fn find_twin(before: &SettingsDocument, list: &Vec<usize>, after: &SettingsDocument, a: usize) -> (r: Option<usize>)
    requires
        a < after@.len(),
        forall|k: int| 0 <= k < list@.len() ==> #[trigger] list@[k] < before@.len(),
    ensures
        r == first_twin(before@, list@, after@, a as int, 0),
{
    let levels = after.instances.len();
    let mut i: usize = 0;
    while i < list.len()
        invariant
            i <= list.len(),
            a < after@.len(),
            levels == after@.len(),
            forall|k: int| 0 <= k < list@.len() ==> #[trigger] list@[k] < before@.len(),
            first_twin(before@, list@, after@, a as int, 0) == first_twin(before@, list@, after@, a as int, i as nat),
        decreases list.len() - i,
    {
        assert(list@[i as int] < before@.len());
        if are_twins(before, list[i], after, a, levels) {
            return Some(list[i]);
        }
        i += 1;
    }
    None
}

/// The pairs after the first `n` instances of the later place have been held against their twins,
/// as far as they are children of `parent`, whose counterpart is `other`.
pub open spec fn twins_paired(
    before: Seq<InstanceModel>,
    after: Seq<InstanceModel>,
    parent: Option<usize>,
    other: Option<usize>,
    pairs: Seq<Option<usize>>,
    n: nat,
) -> Seq<Option<usize>>
    decreases n,
{
    if n == 0 {
        pairs
    } else {
        let p = twins_paired(before, after, parent, other, pairs, (n - 1) as nat);
        let x = after[n - 1];
        if x.parent == parent {
            p.update(n - 1, first_twin(before, choices(before, x, other, p, before.len()), after, n - 1, 0))
        } else {
            p
        }
    }
}

/// How many of the first `n` instances of the later place are children of `parent` with the name and
/// class of `x` and without a pair.
pub open spec fn rivals(
    after: Seq<InstanceModel>,
    x: InstanceModel,
    parent: Option<usize>,
    pairs: Seq<Option<usize>>,
    n: nat,
) -> nat
    decreases n,
{
    if n == 0 {
        0
    } else {
        let y = after[n - 1];
        rivals(after, x, parent, pairs, (n - 1) as nat) + if y.parent == parent && y.name == x.name && y.class_name
            == x.class_name && pairs[n - 1] is None {
            1nat
        } else {
            0nat
        }
    }
}

/// The pairs after the first `n` instances of the later place that have no twin have been paired, as
/// far as they are children of `parent`. None: one of them cannot be told apart.
pub open spec fn rest_paired(
    before: Seq<InstanceModel>,
    after: Seq<InstanceModel>,
    parent: Option<usize>,
    other: Option<usize>,
    pairs: Seq<Option<usize>>,
    n: nat,
) -> Option<Seq<Option<usize>>>
    decreases n,
{
    if n == 0 {
        Some(pairs)
    } else {
        match rest_paired(before, after, parent, other, pairs, (n - 1) as nat) {
            None => None,
            Some(p) => {
                let x = after[n - 1];
                let list = choices(before, x, other, p, before.len());
                if x.parent != parent || p[n - 1] is Some || list.len() == 0 {
                    Some(p)
                } else if list.len() == 1 && rivals(after, x, parent, p, after.len()) == 1 {
                    Some(p.update(n - 1, Some(list[0])))
                } else {
                    None
                }
            },
        }
    }
}

/// The pairs after the children of one instance, or the services, have been paired.
pub open spec fn group_paired(
    before: Seq<InstanceModel>,
    after: Seq<InstanceModel>,
    parent: Option<usize>,
    other: Option<usize>,
    pairs: Seq<Option<usize>>,
) -> Option<Seq<Option<usize>>> {
    rest_paired(before, after, parent, other, twins_paired(before, after, parent, other, pairs, after.len()), after.len())
}

/// The pairs after the services and the children of the first `n - 1` instances have been paired.
pub open spec fn pairs_to(before: Seq<InstanceModel>, after: Seq<InstanceModel>, n: nat) -> Option<Seq<Option<usize>>>
    decreases n,
{
    if n == 0 {
        Some(Seq::new(after.len(), |i: int| None))
    } else {
        match pairs_to(before, after, (n - 1) as nat) {
            None => None,
            Some(p) => if n == 1 {
                group_paired(before, after, None, None, p)
            } else {
                match p[n - 2] {
                    Some(b) => group_paired(before, after, Some((n - 2) as usize), Some(b), p),
                    None => Some(p),
                }
            },
        }
    }
}

/// For each instance of the later place the instance of the former that it is, if any. None: some
/// instances cannot be told apart.
pub open spec fn aligned(before: Seq<InstanceModel>, after: Seq<InstanceModel>) -> Option<Seq<Option<usize>>> {
    pairs_to(before, after, after.len() + 1)
}

pub open spec fn opt_pairs(v: Option<Vec<Option<usize>>>) -> Option<Seq<Option<usize>>> {
    match v {
        Some(p) => Some(p@),
        None => None,
    }
}

fn count_rivals(after: &SettingsDocument, x: &Instance, parent: Option<usize>, pairs: &Vec<Option<usize>>) -> (r: usize)
    requires
        pairs@.len() == after@.len(),
    ensures
        r == rivals(after@, x@, parent, pairs@, after@.len()),
{
    let mut count: usize = 0;
    let mut i: usize = 0;
    while i < after.instances.len()
        invariant
            i <= after.instances.len(),
            pairs@.len() == after@.len(),
            count <= i,
            count == rivals(after@, x@, parent, pairs@, i as nat),
        decreases after.instances.len() - i,
    {
        assert(after@[i as int] == after.instances@[i as int]@);
        let y = &after.instances[i];
        if same_parent(y.parent_index, parent) && same(&y.name, &x.name) && same(&y.class_name, &x.class_name)
            && pairs[i].is_none() {
            count += 1;
        }
        i += 1;
    }
    count
}

proof fn lemma_rest_refused(
    before: Seq<InstanceModel>,
    after: Seq<InstanceModel>,
    parent: Option<usize>,
    other: Option<usize>,
    pairs: Seq<Option<usize>>,
    n: nat,
    m: nat,
)
    requires
        n <= m,
        rest_paired(before, after, parent, other, pairs, n) is None,
    ensures
        rest_paired(before, after, parent, other, pairs, m) is None,
    decreases m,
{
    if n < m {
        lemma_rest_refused(before, after, parent, other, pairs, n, (m - 1) as nat);
    }
}

fn pair_group(
    before: &SettingsDocument,
    after: &SettingsDocument,
    parent: Option<usize>,
    other: Option<usize>,
    pairs: Vec<Option<usize>>,
) -> (r: Option<Vec<Option<usize>>>)
    requires
        pairs@.len() == after@.len(),
    ensures
        opt_pairs(r) == group_paired(before@, after@, parent, other, pairs@),
        r is Some ==> r->0@.len() == after@.len(),
{
    let ghost start = pairs@;
    let mut p = pairs;
    let count_before: usize = before.instances.len();
    let mut i: usize = 0;
    while i < after.instances.len()
        invariant
            i <= after.instances.len(),
            before@.len() == count_before,
            p@.len() == after@.len(),
            p@ == twins_paired(before@, after@, parent, other, start, i as nat),
        decreases after.instances.len() - i,
    {
        assert(after@[i as int] == after.instances@[i as int]@);
        if same_parent(after.instances[i].parent_index, parent) {
            let list = choose_among(before, &after.instances[i], other, &p);
            proof {
                assert forall|k: int| 0 <= k < list@.len() implies #[trigger] list@[k] < before@.len() by {
                    lemma_choices(before@, after@[i as int], other, p@, before@.len(), k);
                }
            }
            let found = find_twin(before, &list, after, i);
            p.set(i, found);
        }
        i += 1;
    }
    let ghost middle = p@;
    let mut k: usize = 0;
    while k < after.instances.len()
        invariant
            k <= after.instances.len(),
            p@.len() == after@.len(),
            start == pairs@,
            middle == twins_paired(before@, after@, parent, other, start, after@.len()),
            rest_paired(before@, after@, parent, other, middle, k as nat) == Some(p@),
        decreases after.instances.len() - k,
    {
        assert(after@[k as int] == after.instances@[k as int]@);
        if same_parent(after.instances[k].parent_index, parent) && p[k].is_none() {
            let list = choose_among(before, &after.instances[k], other, &p);
            if list.len() > 0 {
                if list.len() == 1 && count_rivals(after, &after.instances[k], parent, &p) == 1 {
                    p.set(k, Some(list[0]));
                } else {
                    proof {
                        lemma_rest_refused(before@, after@, parent, other, middle, (k + 1) as nat, after@.len());
                    }
                    return None;
                }
            }
        }
        k += 1;
    }
    Some(p)
}

proof fn lemma_pairs_refused(before: Seq<InstanceModel>, after: Seq<InstanceModel>, n: nat, m: nat)
    requires
        n <= m,
        pairs_to(before, after, n) is None,
    ensures
        pairs_to(before, after, m) is None,
    decreases m,
{
    if n < m {
        lemma_pairs_refused(before, after, n, (m - 1) as nat);
    }
}

/// Pairs the instances of two places. None: some instances cannot be told apart.
pub fn align(before: &SettingsDocument, after: &SettingsDocument) -> (r: Option<Vec<Option<usize>>>)
    ensures
        opt_pairs(r) == aligned(before@, after@),
        r is Some ==> r->0@.len() == after@.len(),
{
    let mut empty: Vec<Option<usize>> = Vec::new();
    while empty.len() < after.instances.len()
        invariant
            empty@.len() <= after@.len(),
            forall|j: int| 0 <= j < empty@.len() ==> #[trigger] empty@[j] is None,
        decreases after.instances.len() - empty.len(),
    {
        empty.push(None);
    }
    assert(pairs_to(before@, after@, 0) == Some(empty@)) by {
        assert(pairs_to(before@, after@, 0)->0 =~= empty@);
    }
    let services = pair_group(before, after, None, None, empty);
    assert(opt_pairs(services) == pairs_to(before@, after@, 1));
    let mut pairs = match services {
        Some(p) => p,
        None => {
            proof {
                lemma_pairs_refused(before@, after@, 1, after@.len() + 1);
            }
            return None;
        },
    };
    let mut i: usize = 0;
    while i < after.instances.len()
        invariant
            i <= after.instances.len(),
            pairs@.len() == after@.len(),
            pairs_to(before@, after@, (i + 1) as nat) == Some(pairs@),
        decreases after.instances.len() - i,
    {
        if let Some(b) = pairs[i] {
            let group = pair_group(before, after, Some(i), Some(b), pairs);
            assert(opt_pairs(group) == pairs_to(before@, after@, (i + 2) as nat));
            match group {
                Some(p) => {
                    pairs = p;
                },
                None => {
                    proof {
                        lemma_pairs_refused(before@, after@, (i + 2) as nat, after@.len() + 1);
                    }
                    return None;
                },
            }
        } else {
            assert(pairs_to(before@, after@, (i + 2) as nat) == Some(pairs@));
        }
        i += 1;
    }
    Some(pairs)
}

/// The later place with the ids of the former, where an instance has a pair.
pub open spec fn renamed(
    before: Seq<InstanceModel>,
    after: Seq<InstanceModel>,
    pairs: Seq<Option<usize>>,
) -> Seq<InstanceModel> {
    Seq::new(
        after.len(),
        |i: int|
            match pairs[i] {
                Some(b) => InstanceModel { id: before[b as int].id, ..after[i] },
                None => after[i],
            },
    )
}

/// Every pair names an instance of the former place.
pub open spec fn pairs_within(pairs: Seq<Option<usize>>, count: nat) -> bool {
    forall|i: int| 0 <= i < pairs.len() && (#[trigger] pairs[i]) is Some ==> pairs[i]->0 < count
}

fn rename(before: &SettingsDocument, after: &SettingsDocument, pairs: &Vec<Option<usize>>) -> (r: SettingsDocument)
    requires
        pairs@.len() == after@.len(),
        pairs_within(pairs@, before@.len()),
    ensures
        r@ == renamed(before@, after@, pairs@),
{
    let mut instances: Vec<Instance> = Vec::new();
    let mut i: usize = 0;
    assert(models(instances@) =~= renamed(before@, after@, pairs@).take(0));
    while i < after.instances.len()
        invariant
            i <= after.instances.len(),
            pairs@.len() == after@.len(),
            pairs_within(pairs@, before@.len()),
            models(instances@) == renamed(before@, after@, pairs@).take(i as int),
        decreases after.instances.len() - i,
    {
        assert(after@[i as int] == after.instances@[i as int]@);
        let mut x = after.instances[i].copy();
        if let Some(b) = pairs[i] {
            assert(pairs@[i as int] is Some);
            assert(before@[b as int] == before.instances@[b as int]@);
            x.settings_id = before.instances[b].settings_id.clone();
        }
        proof {
            crate::document::lemma_models_push(instances@, x);
            assert(x@ == renamed(before@, after@, pairs@)[i as int]);
            assert(renamed(before@, after@, pairs@).take(i + 1) =~= renamed(before@, after@, pairs@).take(
                i as int,
            ).push(x@));
        }
        instances.push(x);
        i += 1;
    }
    assert(renamed(before@, after@, pairs@).take(i as int) =~= renamed(before@, after@, pairs@));
    SettingsDocument { instances }
}

/// What holds of every pairing: each pair has one name and one class and stands under a pair, or both
/// are services, and no instance is in two pairs.
pub open spec fn sound_pairs(
    before: Seq<InstanceModel>,
    after: Seq<InstanceModel>,
    pairs: Seq<Option<usize>>,
) -> bool {
    &&& pairs.len() == after.len()
    &&& pairs_within(pairs, before.len())
    &&& forall|i: int| 0 <= i < pairs.len() && (#[trigger] pairs[i]) is Some ==> fits(before, after, pairs, i)
    &&& forall|i: int, j: int|
        0 <= i < j < pairs.len() && (#[trigger] pairs[i]) is Some ==> pairs[i] != (#[trigger] pairs[j])
}

/// Instance `i` of the later place fits its pair.
pub open spec fn fits(
    before: Seq<InstanceModel>,
    after: Seq<InstanceModel>,
    pairs: Seq<Option<usize>>,
    i: int,
) -> bool {
    let b = before[pairs[i]->0 as int];
    &&& b.name == after[i].name
    &&& b.class_name == after[i].class_name
    &&& match after[i].parent {
        None => b.parent is None,
        Some(q) => q < pairs.len() && b.parent is Some && pairs[q as int] == b.parent,
    }
}

/// The counterpart of an instance whose children are paired, or of the services.
spec fn counterpart(pairs: Seq<Option<usize>>, parent: Option<usize>, other: Option<usize>) -> bool {
    match parent {
        None => other is None,
        Some(q) => q < pairs.len() && other is Some && pairs[q as int] == other,
    }
}

/// No child of an instance is paired yet from number `n` on.
spec fn open_from(after: Seq<InstanceModel>, pairs: Seq<Option<usize>>, parent: Option<usize>, n: int) -> bool {
    forall|i: int| n <= i < after.len() && (#[trigger] after[i]).parent == parent ==> pairs[i] is None
}

/// Only children of an instance are paired anew.
spec fn changes_only(after: Seq<InstanceModel>, p: Seq<Option<usize>>, q: Seq<Option<usize>>, parent: Option<usize>) -> bool {
    &&& q.len() == p.len()
    &&& forall|i: int| 0 <= i < p.len() && after[i].parent != parent ==> #[trigger] q[i] == p[i]
}

proof fn lemma_one_paired(
    before: Seq<InstanceModel>,
    after: Seq<InstanceModel>,
    parent: Option<usize>,
    other: Option<usize>,
    p: Seq<Option<usize>>,
    a: int,
    b: usize,
)
    requires
        before.len() <= usize::MAX,
        sound_pairs(before, after, p),
        counterpart(p, parent, other),
        0 <= a < after.len(),
        after[a].parent == parent,
        p[a] is None,
        choices(before, after[a], other, p, before.len()).contains(b),
    ensures
        sound_pairs(before, after, p.update(a, Some(b))),
        counterpart(p.update(a, Some(b)), parent, other),
        changes_only(after, p, p.update(a, Some(b)), parent),
{
    let q = p.update(a, Some(b));
    let list = choices(before, after[a], other, p, before.len());
    let k = choose|k: int| 0 <= k < list.len() && list[k] == b;
    lemma_choices(before, after[a], other, p, before.len(), k);
    assert forall|i: int| 0 <= i < q.len() && (#[trigger] q[i]) is Some implies fits(before, after, q, i) by {
        if i != a {
            assert(p[i] is Some);
            assert(fits(before, after, p, i));
        }
    }
    assert forall|i: int, j: int| 0 <= i < j < q.len() && (#[trigger] q[i]) is Some implies q[i] != (#[trigger] q[j]) by {
        if i == a {
            if p[j] == Some(b) {
                assert(p.contains(Some(b)));
            }
        } else if j == a {
            if p[i] == Some(b) {
                assert(p.contains(Some(b)));
            }
        } else {
            assert(p[i] != p[j]);
        }
    }
    assert forall|i: int| 0 <= i < q.len() && (#[trigger] q[i]) is Some implies q[i]->0 < before.len() by {
        if i != a {
            assert(p[i] is Some);
        }
    }
}

proof fn lemma_twins_sound(
    before: Seq<InstanceModel>,
    after: Seq<InstanceModel>,
    parent: Option<usize>,
    other: Option<usize>,
    p: Seq<Option<usize>>,
    n: nat,
)
    requires
        before.len() <= usize::MAX,
        n <= after.len(),
        sound_pairs(before, after, p),
        counterpart(p, parent, other),
        open_from(after, p, parent, 0),
    ensures
        ({
            let q = twins_paired(before, after, parent, other, p, n);
            &&& sound_pairs(before, after, q)
            &&& counterpart(q, parent, other)
            &&& changes_only(after, p, q, parent)
            &&& open_from(after, q, parent, n as int)
        }),
    decreases n,
{
    if n > 0 {
        lemma_twins_sound(before, after, parent, other, p, (n - 1) as nat);
        let m = twins_paired(before, after, parent, other, p, (n - 1) as nat);
        let x = after[n - 1];
        if x.parent == parent {
            let list = choices(before, x, other, m, before.len());
            lemma_first_twin(before, list, after, n - 1, 0);
            assert(m[n - 1] is None);
            match first_twin(before, list, after, n - 1, 0) {
                Some(b) => {
                    lemma_one_paired(before, after, parent, other, m, n - 1, b);
                },
                None => {
                    assert(m.update(n - 1, None) =~= m);
                },
            }
        }
    }
}

proof fn lemma_rest_sound(
    before: Seq<InstanceModel>,
    after: Seq<InstanceModel>,
    parent: Option<usize>,
    other: Option<usize>,
    p: Seq<Option<usize>>,
    n: nat,
)
    requires
        before.len() <= usize::MAX,
        n <= after.len(),
        sound_pairs(before, after, p),
        counterpart(p, parent, other),
    ensures
        match rest_paired(before, after, parent, other, p, n) {
            Some(q) => sound_pairs(before, after, q) && counterpart(q, parent, other) && changes_only(
                after,
                p,
                q,
                parent,
            ),
            None => true,
        },
    decreases n,
{
    if n > 0 {
        lemma_rest_sound(before, after, parent, other, p, (n - 1) as nat);
        if let Some(m) = rest_paired(before, after, parent, other, p, (n - 1) as nat) {
            let x = after[n - 1];
            let list = choices(before, x, other, m, before.len());
            if x.parent == parent && m[n - 1] is None && list.len() == 1 {
                assert(list.contains(list[0]));
                lemma_one_paired(before, after, parent, other, m, n - 1, list[0]);
            }
        }
    }
}

/// The children of no instance from number `n - 1` on are paired.
spec fn later_open(after: Seq<InstanceModel>, pairs: Seq<Option<usize>>, n: nat) -> bool {
    forall|i: int|
        0 <= i < after.len() && (match (#[trigger] after[i]).parent {
            None => n == 0,
            Some(q) => q + 1 >= n,
        }) ==> pairs[i] is None
}

proof fn lemma_pairs_sound(before: Seq<InstanceModel>, after: Seq<InstanceModel>, n: nat)
    requires
        before.len() <= usize::MAX,
        after.len() <= usize::MAX,
        n <= after.len() + 1,
    ensures
        match pairs_to(before, after, n) {
            Some(p) => sound_pairs(before, after, p) && later_open(after, p, n),
            None => true,
        },
    decreases n,
{
    if n > 0 {
        lemma_pairs_sound(before, after, (n - 1) as nat);
        if let Some(p) = pairs_to(before, after, (n - 1) as nat) {
            if n == 1 {
                assert(open_from(after, p, None, 0));
                lemma_twins_sound(before, after, None, None, p, after.len());
                let m = twins_paired(before, after, None, None, p, after.len());
                lemma_rest_sound(before, after, None, None, m, after.len());
            } else if let Some(b) = p[n - 2] {
                let parent = Some((n - 2) as usize);
                assert(open_from(after, p, parent, 0));
                lemma_twins_sound(before, after, parent, Some(b), p, after.len());
                let m = twins_paired(before, after, parent, Some(b), p, after.len());
                lemma_rest_sound(before, after, parent, Some(b), m, after.len());
            }
        }
    }
}

/// Paired instances have one name and one class and stand under paired instances, and no instance is
/// in two pairs.
pub proof fn law_pairs_are_sound(before: Seq<InstanceModel>, after: Seq<InstanceModel>)
    requires
        before.len() <= usize::MAX,
        after.len() <= usize::MAX,
    ensures
        match aligned(before, after) {
            Some(p) => sound_pairs(before, after, p),
            None => true,
        },
{
    lemma_pairs_sound(before, after, after.len() + 1);
}

/// Two documents that differ in their ids alone.
pub open spec fn same_but_ids(x: Seq<InstanceModel>, y: Seq<InstanceModel>) -> bool {
    &&& x.len() == y.len()
    &&& forall|i: int| 0 <= i < x.len() ==> #[trigger] y[i] == (InstanceModel { id: y[i].id, ..x[i] })
}

proof fn lemma_same_children(x: Seq<InstanceModel>, y: Seq<InstanceModel>, parent: Option<usize>, n: nat)
    requires
        same_but_ids(x, y),
        n <= x.len(),
    ensures
        children_to(x, parent, n) == children_to(y, parent, n),
    decreases n,
{
    if n > 0 {
        lemma_same_children(x, y, parent, (n - 1) as nat);
        assert(y[n - 1].parent == x[n - 1].parent);
    }
}

proof fn lemma_own_twin(x: Seq<InstanceModel>, y: Seq<InstanceModel>, i: int, levels: nat)
    requires
        same_but_ids(x, y),
        parents_first(x),
        x.len() <= usize::MAX,
        0 <= i < x.len(),
        levels >= x.len() - i,
    ensures
        twins(x, i, y, i, levels),
    decreases levels, 0nat, 0nat,
{
    let list = children_to(x, Some(i as usize), x.len());
    lemma_same_children(x, y, Some(i as usize), x.len());
    assert(y[i] == (InstanceModel { id: y[i].id, ..x[i] }));
    law_same_json_reflexive(JsonModel::Object(settled_fields(x[i].properties, Seq::empty())));
    law_same_json_reflexive(JsonModel::Object(settled_fields(x[i].attributes, Seq::empty())));
    assert forall|k: int| 0 <= k < list.len() implies i < #[trigger] list[k] < x.len() by {
        lemma_children(x, Some(i as usize), x.len(), k);
        assert(x[list[k] as int].parent is Some);
    }
    lemma_own_children(x, y, i, list, (levels - 1) as nat);
}

proof fn lemma_own_children(x: Seq<InstanceModel>, y: Seq<InstanceModel>, i: int, list: Seq<usize>, levels: nat)
    requires
        same_but_ids(x, y),
        parents_first(x),
        x.len() <= usize::MAX,
        0 <= i < x.len(),
        levels + 1 >= x.len() - i,
        forall|k: int| 0 <= k < list.len() ==> i < #[trigger] list[k] < x.len(),
    ensures
        paired_off(x, list, y, list, levels),
    decreases levels, 2nat, list.len(),
{
    if list.len() > 0 {
        assert(i < list[0] < x.len());
        lemma_own_twin(x, y, list[0] as int, levels);
        assert(twin_among(x, list[0], y, list, levels, 0) == Some(0int));
        assert(list.remove(0) =~= list.drop_first());
        assert forall|k: int| 0 <= k < list.drop_first().len() implies i < #[trigger] list.drop_first()[k] < x.len() by {
            assert(list.drop_first()[k] == list[k + 1]);
        }
        lemma_own_children(x, y, i, list.drop_first(), levels);
    }
}

/// Each instance stands for itself or for none.
spec fn own_pairs(p: Seq<Option<usize>>) -> bool {
    forall|i: int| 0 <= i < p.len() && (#[trigger] p[i]) is Some ==> p[i]->0 == i
}

proof fn lemma_own_choice(x: Seq<InstanceModel>, v: InstanceModel, parent: Option<usize>, p: Seq<Option<usize>>, a: int, n: nat)
    requires
        own_pairs(p),
        p.len() == x.len() <= usize::MAX,
        0 <= a < x.len(),
        n <= x.len(),
        v.name == x[a].name,
        v.class_name == x[a].class_name,
        x[a].parent == parent,
        p[a] is None,
        forall|i: int| 0 <= i < a && (#[trigger] x[i]).parent == parent ==> p[i] is Some,
    ensures
        n <= a ==> choices(x, v, parent, p, n).len() == 0,
        n > a ==> choices(x, v, parent, p, n).len() > 0 && choices(x, v, parent, p, n)[0] == a,
    decreases n,
{
    if n > 0 {
        lemma_own_choice(x, v, parent, p, a, (n - 1) as nat);
        if n - 1 < a {
            if x[n - 1].parent == parent {
                assert(p[n - 1] == Some((n - 1) as usize));
            }
        } else if n - 1 == a {
            if p.contains(Some(a as usize)) {
                let k = choose|k: int| 0 <= k < p.len() && p[k] == Some(a as usize);
                assert(p[k] is Some);
            }
        }
    }
}

proof fn lemma_twins_own(x: Seq<InstanceModel>, y: Seq<InstanceModel>, parent: Option<usize>, p: Seq<Option<usize>>, n: nat)
    requires
        same_but_ids(x, y),
        parents_first(x),
        x.len() <= usize::MAX,
        n <= x.len(),
        p.len() == x.len(),
        own_pairs(p),
        open_from(x, p, parent, 0),
    ensures
        ({
            let q = twins_paired(x, y, parent, parent, p, n);
            &&& own_pairs(q)
            &&& changes_only(x, p, q, parent)
            &&& open_from(x, q, parent, n as int)
            &&& forall|i: int| 0 <= i < n && (#[trigger] x[i]).parent == parent ==> q[i] is Some
        }),
    decreases n,
{
    if n > 0 {
        lemma_twins_own(x, y, parent, p, (n - 1) as nat);
        let m = twins_paired(x, y, parent, parent, p, (n - 1) as nat);
        assert(y[n - 1] == (InstanceModel { id: y[n - 1].id, ..x[n - 1] }));
        if x[n - 1].parent == parent {
            assert(m[n - 1] is None);
            lemma_own_choice(x, y[n - 1], parent, m, n - 1, x.len());
            lemma_own_twin(x, y, n - 1, y.len());
            let list = choices(x, y[n - 1], parent, m, x.len());
            assert(first_twin(x, list, y, n - 1, 0) == Some((n - 1) as usize));
        }
    }
}

proof fn lemma_rest_own(x: Seq<InstanceModel>, y: Seq<InstanceModel>, parent: Option<usize>, p: Seq<Option<usize>>, n: nat)
    requires
        same_but_ids(x, y),
        n <= x.len(),
        forall|i: int| 0 <= i < x.len() && (#[trigger] x[i]).parent == parent ==> p[i] is Some,
    ensures
        rest_paired(x, y, parent, parent, p, n) == Some(p),
    decreases n,
{
    if n > 0 {
        lemma_rest_own(x, y, parent, p, (n - 1) as nat);
        assert(y[n - 1] == (InstanceModel { id: y[n - 1].id, ..x[n - 1] }));
        if x[n - 1].parent == parent {
            assert(p[n - 1] is Some);
        }
    }
}

proof fn lemma_pairs_own(x: Seq<InstanceModel>, y: Seq<InstanceModel>, n: nat)
    requires
        same_but_ids(x, y),
        parents_first(x),
        x.len() <= usize::MAX,
        n <= x.len() + 1,
    ensures
        match pairs_to(x, y, n) {
            Some(p) => {
                &&& p.len() == x.len()
                &&& own_pairs(p)
                &&& later_open(x, p, n)
                &&& forall|i: int|
                    0 <= i < x.len() && (match (#[trigger] x[i]).parent {
                        None => n >= 1,
                        Some(q) => q + 2 <= n,
                    }) ==> p[i] is Some
            },
            None => false,
        },
    decreases n,
{
    if n > 0 {
        lemma_pairs_own(x, y, (n - 1) as nat);
        let p = pairs_to(x, y, (n - 1) as nat)->0;
        let parent = if n == 1 {
            None
        } else {
            Some((n - 2) as usize)
        };
        if n > 1 {
            assert(x[n - 2].parent is Some ==> x[n - 2].parent->0 < n - 2);
            assert(p[n - 2] is Some);
        }
        assert(open_from(x, p, parent, 0));
        lemma_twins_own(x, y, parent, p, x.len());
        let q = twins_paired(x, y, parent, parent, p, x.len());
        lemma_rest_own(x, y, parent, q, x.len());
        assert(group_paired(x, y, parent, parent, p) == Some(q));
        assert(pairs_to(x, y, n) == Some(q));
        assert forall|i: int|
            0 <= i < x.len() && (match (#[trigger] x[i]).parent {
                None => n >= 1,
                Some(k) => k + 2 <= n,
            }) implies q[i] is Some by {
            if x[i].parent != parent {
                assert(q[i] == p[i]);
            }
        }
    }
}

/// A place compared with a copy of itself shows no difference, however its instances are numbered.
pub proof fn law_copy_shows_no_difference(x: Seq<InstanceModel>, y: Seq<InstanceModel>, values: bool)
    requires
        same_but_ids(x, y),
        parents_first(x),
        distinct_ids(x),
        x.len() <= usize::MAX,
    ensures
        match aligned(x, y) {
            Some(pairs) => {
                let t = compared(settled(x), settled(renamed(x, y, pairs)), values);
                t.differences.len() == 0 && t.unchanged == x.len()
            },
            None => false,
        },
{
    lemma_pairs_own(x, y, x.len() + 1);
    let p = aligned(x, y)->0;
    assert(renamed(x, y, p) =~= x) by {
        assert forall|i: int| 0 <= i < x.len() implies renamed(x, y, p)[i] == x[i] by {
            assert(x[i].parent is Some ==> x[i].parent->0 < i);
            assert(p[i] is Some);
            assert(y[i] == (InstanceModel { id: y[i].id, ..x[i] }));
        }
    }
    assert forall|i: int, j: int| 0 <= i < j < settled(x).len() implies (#[trigger] settled(x)[i]).id != (
    #[trigger] settled(x)[j]).id by {
        assert(x[i].id != x[j].id);
    }
    law_place_equals_itself(settled(x), values);
}

/// Why two places are not compared.
pub enum CompareError {
    /// A place cannot be written down.
    Document(DocumentError),
    /// Instances with one name and class under one parent cannot be told apart.
    Ambiguous,
}

/// The two documents that a comparison of two places holds against each other.
pub open spec fn aligned_documents(
    before: Place,
    after: Place,
    services: Option<Seq<Seq<char>>>,
) -> Result<(Seq<InstanceModel>, Seq<InstanceModel>), CompareError> {
    match numbered_place(before, "before"@, services, true) {
        Err(e) => Err(CompareError::Document(e)),
        Ok(x) => match numbered_place(after, "after"@, services, true) {
            Err(e) => Err(CompareError::Document(e)),
            Ok(y) => match aligned(x, y) {
                None => Err(CompareError::Ambiguous),
                Some(pairs) => Ok((settled(x), settled(renamed(x, y, pairs)))),
            },
        },
    }
}

/// Compares the services of two places that are asked for, and reports at most `limit` differences.
pub fn compare(
    before: &Place,
    after: &Place,
    services: Option<&Vec<String>>,
    values: bool,
    limit: usize,
) -> (r: Result<Comparison, CompareError>)
    ensures
        match aligned_documents(*before, *after, opt_list(services)) {
            Err(e) => r is Err && r->Err_0 == e,
            Ok((x, y)) => r is Ok && {
                let t = compared(x, y, values);
                let c = r->Ok_0;
                &&& c.before_instances == x.len()
                &&& c.after_instances == y.len()
                &&& c.added == t.added
                &&& c.changed == t.changed
                &&& c.unchanged == t.unchanged
                &&& c.removed == t.removed
                &&& differences_of(c.differences@) == at_most(t.differences, limit as int)
                &&& c.truncated == (t.differences.len() > limit)
            },
        },
{
    let former = match numbered_document(before, "before", services, true) {
        Ok(d) => d,
        Err(e) => {
            return Err(CompareError::Document(e));
        },
    };
    let later = match numbered_document(after, "after", services, true) {
        Ok(d) => d,
        Err(e) => {
            return Err(CompareError::Document(e));
        },
    };
    let count_former: usize = former.instances.len();
    let count_later: usize = later.instances.len();
    match align(&former, &later) {
        None => Err(CompareError::Ambiguous),
        Some(pairs) => {
            proof {
                assert(former@.len() == count_former && later@.len() == count_later);
                law_pairs_are_sound(former@, later@);
            }
            let named = rename(&former, &later, &pairs);
            Ok(compare_by_id(&settle(&former), &settle(&named), values, limit))
        },
    }
}

proof fn lemma_document_shape(
    inside: Seq<VisitModel>,
    all: Seq<VisitModel>,
    first: Seq<char>,
    second: Seq<char>,
    compared: bool,
    n: nat,
)
    ensures
        match document_to(inside, all, first, compared, n) {
            Ok(x) => document_to(inside, all, second, compared, n) is Ok && {
                let y = document_to(inside, all, second, compared, n)->Ok_0;
                &&& x.len() == n
                &&& same_but_ids(x, y)
                &&& forall|i: int|
                    0 <= i < n ==> (#[trigger] x[i]).id == visit_id(first, i) && x[i].parent == small_parent(
                        inside[i].parent,
                    )
            },
            Err(e) => document_to(inside, all, second, compared, n) == Err::<Seq<InstanceModel>, DocumentError>(e),
        },
    decreases n,
{
    if n > 0 {
        lemma_document_shape(inside, all, first, second, compared, (n - 1) as nat);
    }
}

/// A place compared with itself shows no difference: every instance stands for itself, with all its
/// references.
pub proof fn law_place_matches_itself(place: Place, services: Option<Seq<Seq<char>>>, values: bool)
    requires
        service_visits(place.root.children@, services, place.root.children@.len()).len() <= usize::MAX,
    ensures
        match aligned_documents(place, place, services) {
            Ok((x, y)) => compared(x, y, values).differences.len() == 0 && compared(x, y, values).unchanged == x.len(),
            Err(e) => e is Document,
        },
{
    let roots = place.root.children@;
    let inside = service_visits(roots, services, roots.len());
    let all = referable(place);
    lemma_document_shape(inside, all, "before"@, "after"@, true, inside.len());
    if let Ok(x) = numbered_place(place, "before"@, services, true) {
        let y = numbered_place(place, "after"@, services, true)->Ok_0;
        assert(parents_first(x)) by {
            assert forall|i: int| 0 <= i < x.len() && (#[trigger] x[i]).parent is Some implies x[i].parent->0 < i by {
                law_parents_come_before(roots, services, roots.len(), i);
            }
        }
        assert(distinct_ids(x)) by {
            assert forall|i: int, j: int| 0 <= i < j < x.len() implies (#[trigger] x[i]).id != (#[trigger] x[j]).id by {
                let start = "before"@ + ":"@;
                assert(x[i].id == start + decimal(i as nat));
                assert(x[j].id == start + decimal(j as nat));
                if x[i].id == x[j].id {
                    assert(x[i].id.skip(start.len() as int) =~= decimal(i as nat));
                    assert(x[j].id.skip(start.len() as int) =~= decimal(j as nat));
                    law_decimal_is_injective(i as nat, j as nat);
                }
            }
        }
        law_copy_shows_no_difference(x, y, values);
    }
}

} // verus!
