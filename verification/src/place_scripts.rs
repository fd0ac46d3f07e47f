//! Comparing the scripts of a project with those of a place.
use vstd::prelude::*;
use vstd::multiset::*;

use crate::order::{lemma_list_less_total, lemma_list_less_transitive, list_comes_before, list_less};
use crate::place::{script_source, source_of, visits_of, walk_place, place_walk, with_plain_line_ends, PlaceNode, VisitModel};
use crate::place_diff::at_most;
use crate::text::{clone_texts, holds_text, lemma_text_less_total, lemma_text_less_transitive, less, same, same_texts, text_less, texts};

verus! {

broadcast use {vstd::seq_lib::group_seq_properties, vstd::multiset::group_multiset_axioms};

/// A script: its class and its source, with plain line ends.
pub struct ScriptRecord {
    pub class_name: String,
    pub source: Vec<u8>,
}

#[verifier::ext_equal]
pub struct ScriptModel {
    pub class_name: Seq<char>,
    pub source: Seq<u8>,
}

impl View for ScriptRecord {
    type V = ScriptModel;

    open spec fn view(&self) -> ScriptModel {
        ScriptModel { class_name: self.class_name@, source: self.source@ }
    }
}

pub open spec fn scripts_of(v: Seq<ScriptRecord>) -> Seq<ScriptModel> {
    Seq::new(v.len(), |i: int| v[i]@)
}

/// The bytes of a source with plain line ends.
pub fn normalized_source_bytes(bytes: &Vec<u8>) -> (r: Vec<u8>)
    ensures
        r@ == with_plain_line_ends(bytes@, 13u8, 10u8, bytes@.len()),
{
    let mut out: Vec<u8> = Vec::new();
    let mut i: usize = 0;
    while i < bytes.len()
        invariant
            i <= bytes.len(),
            out@ == with_plain_line_ends(bytes@, 13u8, 10u8, i as nat),
        decreases bytes.len() - i,
    {
        let b = bytes[i];
        if !(b == 13 && i + 1 < bytes.len() && bytes[i + 1] == 10) {
            out.push(b);
        }
        i += 1;
    }
    out
}

/// Bytes with plain line ends stay as they are.
pub proof fn law_plain_line_ends_stay(s: Seq<u8>, n: nat)
    requires
        n <= s.len(),
        forall|i: int| 0 <= i < s.len() ==> #[trigger] s[i] != 13u8,
    ensures
        with_plain_line_ends(s, 13u8, 10u8, n) == s.take(n as int),
    decreases n,
{
    if n > 0 {
        law_plain_line_ends_stay(s, (n - 1) as nat);
        assert(s.take(n as int) =~= s.take(n - 1).push(s[n - 1]));
    } else {
        assert(s.take(0) =~= Seq::empty());
    }
}

/// Bytes in order.
pub open spec fn bytes_less(a: Seq<u8>, b: Seq<u8>) -> bool
    decreases a.len(),
{
    if a.len() == 0 {
        b.len() > 0
    } else if b.len() == 0 {
        false
    } else if a[0] == b[0] {
        bytes_less(a.drop_first(), b.drop_first())
    } else {
        a[0] < b[0]
    }
}

fn bytes_come_before(a: &Vec<u8>, b: &Vec<u8>) -> (r: bool)
    ensures
        r == bytes_less(a@, b@),
{
    let mut i: usize = 0;
    assert(a@.skip(0) =~= a@ && b@.skip(0) =~= b@);
    loop
        invariant
            i <= a.len(),
            i <= b.len(),
            bytes_less(a@.skip(i as int), b@.skip(i as int)) == bytes_less(a@, b@),
        decreases a.len() - i,
    {
        if i == b.len() {
            return false;
        }
        if i == a.len() {
            return true;
        }
        if a[i] != b[i] {
            return a[i] < b[i];
        }
        assert(a@.skip(i as int).drop_first() =~= a@.skip(i + 1));
        assert(b@.skip(i as int).drop_first() =~= b@.skip(i + 1));
        i += 1;
    }
}

proof fn lemma_bytes_total(a: Seq<u8>, b: Seq<u8>)
    ensures
        !(bytes_less(a, b) && bytes_less(b, a)),
        bytes_less(a, b) || bytes_less(b, a) || a == b,
        a == b ==> !bytes_less(a, b),
    decreases a.len(),
{
    if a.len() > 0 && b.len() > 0 && a[0] == b[0] {
        lemma_bytes_total(a.drop_first(), b.drop_first());
        assert(a =~= seq![a[0]] + a.drop_first());
        assert(b =~= seq![b[0]] + b.drop_first());
    } else if a.len() == 0 && b.len() == 0 {
        assert(a =~= b);
    }
}

proof fn lemma_bytes_transitive(a: Seq<u8>, b: Seq<u8>, c: Seq<u8>)
    requires
        bytes_less(a, b),
        bytes_less(b, c),
    ensures
        bytes_less(a, c),
    decreases a.len(),
{
    if a.len() > 0 && b.len() > 0 && c.len() > 0 && a[0] == b[0] && b[0] == c[0] {
        lemma_bytes_transitive(a.drop_first(), b.drop_first(), c.drop_first());
    }
}

/// Scripts in order: by class, then by source.
pub open spec fn script_less(a: ScriptModel, b: ScriptModel) -> bool {
    if a.class_name == b.class_name {
        bytes_less(a.source, b.source)
    } else {
        text_less(a.class_name, b.class_name)
    }
}

proof fn lemma_script_total(a: ScriptModel, b: ScriptModel)
    ensures
        !(script_less(a, b) && script_less(b, a)),
        script_less(a, b) || script_less(b, a) || a == b,
        a == b ==> !script_less(a, b),
{
    lemma_text_less_total(a.class_name, b.class_name);
    lemma_bytes_total(a.source, b.source);
}

proof fn lemma_script_transitive(a: ScriptModel, b: ScriptModel, c: ScriptModel)
    requires
        script_less(a, b),
        script_less(b, c),
    ensures
        script_less(a, c),
{
    if a.class_name == b.class_name && b.class_name == c.class_name {
        lemma_bytes_transitive(a.source, b.source, c.source);
    } else if a.class_name != b.class_name && b.class_name != c.class_name {
        lemma_text_less_transitive(a.class_name, b.class_name, c.class_name);
        lemma_text_less_total(a.class_name, c.class_name);
    }
}

fn script_comes_before(a: &ScriptRecord, b: &ScriptRecord) -> (r: bool)
    ensures
        r == script_less(a@, b@),
{
    if same(&a.class_name, &b.class_name) {
        bytes_come_before(&a.source, &b.source)
    } else {
        less(&a.class_name, &b.class_name)
    }
}

fn same_script(a: &ScriptRecord, b: &ScriptRecord) -> (r: bool)
    ensures
        r == (a@ == b@),
{
    proof {
        lemma_script_total(a@, b@);
    }
    !script_comes_before(a, b) && !script_comes_before(b, a)
}

/// Scripts none of which comes before one that precedes it.
pub open spec fn scripts_sorted(v: Seq<ScriptModel>) -> bool {
    forall|i: int, j: int| 0 <= i < j < v.len() ==> !script_less(#[trigger] v[j], #[trigger] v[i])
}

proof fn lemma_insert_multiset(v: Seq<ScriptModel>, i: int, x: ScriptModel)
    requires
        0 <= i <= v.len(),
    ensures
        v.insert(i, x).to_multiset() == v.to_multiset().insert(x),
{
    broadcast use vstd::seq_lib::group_to_multiset_ensures;

    let now = v.insert(i, x);
    assert(now[i] == x);
    assert(now.remove(i) =~= v);
    assert(now.contains(x));
    assert(now.remove(i).to_multiset() =~= now.to_multiset().remove(x));
    assert(now.to_multiset().count(x) > 0);
    assert(now.to_multiset() =~= v.to_multiset().insert(x));
}

/// Puts a script among sorted ones, after those that do not come after it.
fn insert_script(list: &mut Vec<ScriptRecord>, x: ScriptRecord)
    requires
        scripts_sorted(scripts_of(old(list)@)),
    ensures
        scripts_sorted(scripts_of(final(list)@)),
        scripts_of(final(list)@).to_multiset() == scripts_of(old(list)@).to_multiset().insert(x@),
{
    let ghost before = scripts_of(list@);
    let ghost value = x@;
    let mut at: usize = list.len();
    while at > 0 && script_comes_before(&x, &list[at - 1])
        invariant
            at <= list.len(),
            before == scripts_of(list@),
            value == x@,
            forall|j: int| at <= j < list.len() ==> script_less(value, #[trigger] before[j]),
        decreases at,
    {
        assert(before[at - 1] == list@[at - 1]@);
        at -= 1;
    }
    if at > 0 {
        assert(before[at - 1] == list@[at - 1]@);
        assert(!script_less(value, before[at - 1]));
    }
    list.insert(at, x);
    let ghost now = scripts_of(list@);
    proof {
        assert(now =~= before.insert(at as int, value));
        lemma_insert_multiset(before, at as int, value);
        assert forall|i: int, j: int| 0 <= i < j < now.len() implies !script_less(#[trigger] now[j], #[trigger] now[i]) by {
            if j == at {
                if i < at - 1 {
                    assert(!script_less(before[at - 1], before[i]));
                    lemma_script_total(value, before[at - 1]);
                    lemma_script_total(before[at - 1], before[i]);
                    if script_less(value, before[i]) {
                        if before[i] == before[at - 1] {
                        } else {
                            lemma_script_transitive(value, before[i], before[at - 1]);
                        }
                    }
                }
            } else if i == at {
                assert(script_less(value, before[j - 1]));
                lemma_script_total(value, before[j - 1]);
            } else {
                let a = if i < at {
                    i
                } else {
                    i - 1
                };
                let b = if j < at {
                    j
                } else {
                    j - 1
                };
                assert(!script_less(before[b], before[a]));
            }
        }
    }
}

/// Sorted lists of the same scripts are one.
pub proof fn law_sorting_settles_the_scripts(a: Seq<ScriptModel>, b: Seq<ScriptModel>)
    requires
        scripts_sorted(a),
        scripts_sorted(b),
        a.to_multiset() == b.to_multiset(),
    ensures
        a == b,
    decreases a.len(),
{
    broadcast use vstd::seq_lib::group_to_multiset_ensures;

    assert(a.len() == a.to_multiset().len());
    assert(b.len() == b.to_multiset().len());
    if a.len() > 0 {
        let x = a.last();
        let y = b.last();
        assert(a.to_multiset().contains(x));
        assert(b.to_multiset().contains(y));
        assert(b.contains(x));
        assert(a.contains(y));
        let i = choose|i: int| 0 <= i < b.len() && b[i] == x;
        let j = choose|j: int| 0 <= j < a.len() && a[j] == y;
        lemma_script_total(x, y);
        if x != y {
            assert(!script_less(y, x));
            assert(!script_less(x, y));
        }
        let p = a.drop_last();
        let q = b.drop_last();
        assert(a =~= p.push(x));
        assert(b =~= q.push(y));
        assert(a.to_multiset() =~= p.to_multiset().insert(x));
        assert(b.to_multiset() =~= q.to_multiset().insert(x));
        assert(p.to_multiset() =~= a.to_multiset().remove(x));
        assert(q.to_multiset() =~= b.to_multiset().remove(x));
        law_sorting_settles_the_scripts(p, q);
    } else {
        assert(a =~= b);
    }
}

/// What is left of two lists, and how much of them was the same.
#[verifier::ext_equal]
pub struct Leftover {
    pub project: Seq<ScriptModel>,
    pub place: Seq<ScriptModel>,
    pub matched: nat,
}

/// A list without the first occurrence of a script.
pub open spec fn without_first(v: Seq<ScriptModel>, x: ScriptModel) -> Seq<ScriptModel>
    decreases v.len(),
{
    if v.len() == 0 {
        v
    } else if v[0] == x {
        v.drop_first()
    } else {
        seq![v[0]] + without_first(v.drop_first(), x)
    }
}

proof fn lemma_without_first(v: Seq<ScriptModel>, x: ScriptModel, i: int)
    requires
        0 <= i < v.len(),
        v[i] == x,
        forall|j: int| 0 <= j < i ==> #[trigger] v[j] != x,
    ensures
        without_first(v, x) == v.remove(i),
    decreases v.len(),
{
    if i > 0 {
        assert(v[0] != x);
        let rest = v.drop_first();
        assert forall|j: int| 0 <= j < i - 1 implies #[trigger] rest[j] != x by {
            assert(v[j + 1] != x);
        }
        lemma_without_first(rest, x, i - 1);
        assert(seq![v[0]] + rest.remove(i - 1) =~= v.remove(i));
    } else {
        assert(v.drop_first() =~= v.remove(0));
    }
}

/// The first `n` scripts of a project, each taken out together with one of the place where there is one
/// like it.
pub open spec fn exact_leftover(project: Seq<ScriptModel>, place: Seq<ScriptModel>, n: nat) -> Leftover
    decreases n,
{
    if n == 0 {
        Leftover { project: Seq::empty(), place, matched: 0 }
    } else {
        let before = exact_leftover(project, place, (n - 1) as nat);
        let x = project[n - 1];
        if before.place.contains(x) {
            Leftover { place: without_first(before.place, x), matched: before.matched + 1, ..before }
        } else {
            Leftover { project: before.project.push(x), ..before }
        }
    }
}

fn find_script(list: &Vec<ScriptRecord>, x: &ScriptRecord) -> (r: Option<usize>)
    ensures
        match r {
            Some(i) => i < list@.len() && scripts_of(list@).contains(x@) && without_first(scripts_of(list@), x@)
                == scripts_of(list@).remove(i as int),
            None => !scripts_of(list@).contains(x@),
        },
{
    let ghost all = scripts_of(list@);
    let mut i: usize = 0;
    while i < list.len()
        invariant
            i <= list.len(),
            all == scripts_of(list@),
            forall|j: int| 0 <= j < i ==> #[trigger] all[j] != x@,
        decreases list.len() - i,
    {
        assert(all[i as int] == list@[i as int]@);
        if same_script(&list[i], x) {
            proof {
                lemma_without_first(all, x@, i as int);
            }
            return Some(i);
        }
        i += 1;
    }
    None
}

proof fn lemma_scripts_remove(v: Seq<ScriptRecord>, i: int)
    requires
        0 <= i < v.len(),
    ensures
        scripts_of(v.remove(i)) == scripts_of(v).remove(i),
{
    assert(scripts_of(v.remove(i)) =~= scripts_of(v).remove(i));
}

proof fn lemma_leftover_len(project: Seq<ScriptModel>, place: Seq<ScriptModel>, n: nat)
    requires
        n <= project.len(),
    ensures
        exact_leftover(project, place, n).project.len() + exact_leftover(project, place, n).matched == n,
    decreases n,
{
    if n > 0 {
        lemma_leftover_len(project, place, (n - 1) as nat);
    }
}

/// Takes out of two lists what stands in both, each script as often as in both, and counts it.
pub fn remove_exact_matches(project: &mut Vec<ScriptRecord>, place: &mut Vec<ScriptRecord>) -> (r: usize)
    ensures
        ({
            let left = exact_leftover(
                scripts_of(old(project)@),
                scripts_of(old(place)@),
                scripts_of(old(project)@).len(),
            );
            &&& scripts_of(final(project)@) == left.project
            &&& scripts_of(final(place)@) == left.place
            &&& r == left.matched
        }),
{
    let ghost a = scripts_of(project@);
    let ghost b = scripts_of(place@);
    let ghost mut n: nat = 0;
    let count = project.len();
    let mut matched: usize = 0;
    let mut index: usize = 0;
    while index < project.len()
        invariant
            index <= project@.len(),
            n <= a.len(),
            a == scripts_of(old(project)@),
            b == scripts_of(old(place)@),
            project@.len() - index == a.len() - n,
            matched + index == n,
            matched + project@.len() == a.len(),
            a.len() == count,
            scripts_of(project@).take(index as int) == exact_leftover(a, b, n).project,
            scripts_of(project@).skip(index as int) == a.skip(n as int),
            scripts_of(place@) == exact_leftover(a, b, n).place,
            matched == exact_leftover(a, b, n).matched,
        decreases project@.len() - index,
    {
        let ghost now = scripts_of(project@);
        let ghost kept = now.take(index as int);
        let ghost x = now[index as int];
        proof {
            assert(now.skip(index as int)[0] == x);
            assert(a.skip(n as int)[0] == a[n as int]);
            assert(x == project@[index as int]@);
            lemma_leftover_len(a, b, n);
        }
        match find_script(place, &project[index]) {
            Some(at) => {
                proof {
                    lemma_scripts_remove(project@, index as int);
                    lemma_scripts_remove(place@, at as int);
                }
                project.remove(index);
                place.remove(at);
                proof {
                    let after = scripts_of(project@);
                    assert(after == now.remove(index as int));
                    assert(after.take(index as int) =~= kept);
                    assert(after.skip(index as int) =~= now.skip(index as int).drop_first());
                    assert(now.skip(index as int).drop_first() =~= a.skip((n + 1) as int));
                    n = n + 1;
                }
                matched += 1;
            },
            None => {
                proof {
                    assert(now.take(index + 1) =~= kept.push(x));
                    assert(now.skip(index + 1) =~= now.skip(index as int).drop_first());
                    assert(now.skip(index as int).drop_first() =~= a.skip((n + 1) as int));
                    n = n + 1;
                }
                index += 1;
            },
        }
    }
    proof {
        assert(n == a.len());
        assert(scripts_of(project@).take(index as int) =~= scripts_of(project@));
    }
    matched
}

/// Nothing that is left in one list is left in the other, and both lost the same scripts: so how much
/// matches depends only on how often each script stands in each list, not on any order.
pub proof fn law_matching_ignores_order(project: Seq<ScriptModel>, place: Seq<ScriptModel>, n: nat) -> (taken: Multiset<
    ScriptModel,
>)
    requires
        n <= project.len(),
    ensures
        ({
            let left = exact_leftover(project, place, n);
            &&& project.take(n as int).to_multiset() == left.project.to_multiset().add(taken)
            &&& place.to_multiset() == left.place.to_multiset().add(taken)
            &&& taken.len() == left.matched
            &&& forall|x: ScriptModel| #[trigger] left.project.contains(x) ==> !left.place.contains(x)
        }),
    decreases n,
{
    broadcast use vstd::seq_lib::group_to_multiset_ensures;

    let left = exact_leftover(project, place, n);
    if n == 0 {
        let none = Multiset::<ScriptModel>::empty();
        assert(project.take(0) =~= Seq::empty());
        assert(project.take(0).to_multiset() =~= left.project.to_multiset().add(none));
        assert(place.to_multiset() =~= left.place.to_multiset().add(none));
        none
    } else {
        let before = exact_leftover(project, place, (n - 1) as nat);
        let taken = law_matching_ignores_order(project, place, (n - 1) as nat);
        let x = project[n - 1];
        assert(project.take(n as int) =~= project.take(n - 1).push(x));
        if before.place.contains(x) {
            let more = taken.insert(x);
            lemma_without_first_multiset(before.place, x);
            assert(project.take(n as int).to_multiset() =~= left.project.to_multiset().add(more));
            assert(place.to_multiset() =~= left.place.to_multiset().add(more));
            assert forall|y: ScriptModel| #[trigger] left.project.contains(y) implies !left.place.contains(y) by {
                assert(before.project.contains(y));
                assert(!before.place.contains(y));
                if left.place.contains(y) {
                    assert(left.place.to_multiset().contains(y));
                    assert(before.place.to_multiset().contains(y));
                }
            }
            more
        } else {
            assert(project.take(n as int).to_multiset() =~= left.project.to_multiset().add(taken));
            assert forall|y: ScriptModel| #[trigger] left.project.contains(y) implies !left.place.contains(y) by {
                if y != x {
                    let i = choose|i: int| 0 <= i < left.project.len() && left.project[i] == y;
                    assert(before.project[i] == y);
                    assert(before.project.contains(y));
                }
            }
            taken
        }
    }
}

proof fn lemma_without_first_multiset(v: Seq<ScriptModel>, x: ScriptModel)
    requires
        v.contains(x),
    ensures
        v.to_multiset() == without_first(v, x).to_multiset().insert(x),
    decreases v.len(),
{
    broadcast use vstd::seq_lib::group_to_multiset_ensures;

    let i = lemma_first_index(v, x);
    lemma_without_first(v, x, i);
    assert(v.remove(i).insert(i, x) =~= v);
    lemma_insert_multiset(v.remove(i), i, x);
}

proof fn lemma_first_index(v: Seq<ScriptModel>, x: ScriptModel) -> (i: int)
    requires
        v.contains(x),
    ensures
        0 <= i < v.len(),
        v[i] == x,
        forall|j: int| 0 <= j < i ==> #[trigger] v[j] != x,
    decreases v.len(),
{
    if v[0] == x {
        0
    } else {
        let rest = v.drop_first();
        let k = choose|k: int| 0 <= k < v.len() && v[k] == x;
        assert(rest[k - 1] == x);
        let i = lemma_first_index(rest, x);
        assert forall|j: int| 0 <= j < i + 1 implies #[trigger] v[j] != x by {
            if j > 0 {
                assert(rest[j - 1] != x);
            }
        }
        i + 1
    }
}

/// A script that differs, or that only one side has.
pub enum ScriptDifference {
    SourceChanged { path: Vec<String>, class_name: String },
    ClassChanged { path: Vec<String>, project_class: String, place_class: String },
    MissingFromPlace { path: Vec<String>, project_class: String },
    ExtraInPlace { path: Vec<String>, place_class: String },
}

#[verifier::ext_equal]
pub enum ScriptDifferenceModel {
    SourceChanged { path: Seq<Seq<char>>, class_name: Seq<char> },
    ClassChanged { path: Seq<Seq<char>>, project_class: Seq<char>, place_class: Seq<char> },
    MissingFromPlace { path: Seq<Seq<char>>, project_class: Seq<char> },
    ExtraInPlace { path: Seq<Seq<char>>, place_class: Seq<char> },
}

impl View for ScriptDifference {
    type V = ScriptDifferenceModel;

    open spec fn view(&self) -> ScriptDifferenceModel {
        match self {
            ScriptDifference::SourceChanged { path, class_name } => ScriptDifferenceModel::SourceChanged {
                path: texts(path@),
                class_name: class_name@,
            },
            ScriptDifference::ClassChanged { path, project_class, place_class } => ScriptDifferenceModel::ClassChanged {
                path: texts(path@),
                project_class: project_class@,
                place_class: place_class@,
            },
            ScriptDifference::MissingFromPlace { path, project_class } => ScriptDifferenceModel::MissingFromPlace {
                path: texts(path@),
                project_class: project_class@,
            },
            ScriptDifference::ExtraInPlace { path, place_class } => ScriptDifferenceModel::ExtraInPlace {
                path: texts(path@),
                place_class: place_class@,
            },
        }
    }
}

pub open spec fn script_differences(v: Seq<ScriptDifference>) -> Seq<ScriptDifferenceModel> {
    Seq::new(v.len(), |i: int| v[i]@)
}

/// The counts of a comparison and its differences so far.
#[verifier::ext_equal]
pub struct ScriptTally {
    pub matching: nat,
    pub changed: nat,
    pub missing: nat,
    pub extra: nat,
    pub differences: Seq<ScriptDifferenceModel>,
}

/// A list without the first script of a class, and whether there was one.
pub open spec fn class_taken(v: Seq<ScriptModel>, class_name: Seq<char>) -> Option<Seq<ScriptModel>>
    decreases v.len(),
{
    if v.len() == 0 {
        None
    } else if v[0].class_name == class_name {
        Some(v.drop_first())
    } else {
        match class_taken(v.drop_first(), class_name) {
            Some(rest) => Some(seq![v[0]] + rest),
            None => None,
        }
    }
}

proof fn lemma_class_taken(v: Seq<ScriptModel>, class_name: Seq<char>, i: int)
    requires
        0 <= i < v.len(),
        v[i].class_name == class_name,
        forall|j: int| 0 <= j < i ==> (#[trigger] v[j]).class_name != class_name,
    ensures
        class_taken(v, class_name) == Some(v.remove(i)),
    decreases v.len(),
{
    if i > 0 {
        assert(v[0].class_name != class_name);
        let rest = v.drop_first();
        assert forall|j: int| 0 <= j < i - 1 implies (#[trigger] rest[j]).class_name != class_name by {
            assert(v[j + 1].class_name != class_name);
        }
        lemma_class_taken(rest, class_name, i - 1);
        assert(seq![v[0]] + rest.remove(i - 1) =~= v.remove(i));
    } else {
        assert(v.drop_first() =~= v.remove(0));
    }
}

proof fn lemma_class_not_taken(v: Seq<ScriptModel>, class_name: Seq<char>)
    requires
        forall|j: int| 0 <= j < v.len() ==> (#[trigger] v[j]).class_name != class_name,
    ensures
        class_taken(v, class_name) is None,
    decreases v.len(),
{
    if v.len() > 0 {
        assert(v[0].class_name != class_name);
        let rest = v.drop_first();
        assert forall|j: int| 0 <= j < rest.len() implies (#[trigger] rest[j]).class_name != class_name by {
            assert(v[j + 1].class_name != class_name);
        }
        lemma_class_not_taken(rest, class_name);
    }
}

/// Takes the first script of a class out of a list.
pub fn take_same_class(scripts: &mut Vec<ScriptRecord>, class_name: &str) -> (r: bool)
    ensures
        match class_taken(scripts_of(old(scripts)@), class_name@) {
            Some(rest) => r && scripts_of(final(scripts)@) == rest,
            None => !r && scripts_of(final(scripts)@) == scripts_of(old(scripts)@),
        },
{
    let ghost all = scripts_of(scripts@);
    let mut i: usize = 0;
    while i < scripts.len()
        invariant
            i <= scripts.len(),
            *scripts == *old(scripts),
            all == scripts_of(scripts@),
            forall|j: int| 0 <= j < i ==> (#[trigger] all[j]).class_name != class_name@,
        decreases scripts.len() - i,
    {
        assert(all[i as int] == scripts@[i as int]@);
        if same(&scripts[i].class_name, class_name) {
            proof {
                lemma_class_taken(all, class_name@, i as int);
                lemma_scripts_remove(scripts@, i as int);
            }
            scripts.remove(i);
            return true;
        }
        i += 1;
    }
    proof {
        lemma_class_not_taken(all, class_name@);
    }
    false
}

/// What pairing leaves: scripts that found none of their class, those of the place that were not taken,
/// and what was found.
#[verifier::ext_equal]
pub struct Pairing {
    pub project: Seq<ScriptModel>,
    pub place: Seq<ScriptModel>,
    pub tally: ScriptTally,
}

/// The first `n` scripts of a project, each paired with the first of its class in the place.
pub open spec fn class_pairs(
    path: Seq<Seq<char>>,
    project: Seq<ScriptModel>,
    place: Seq<ScriptModel>,
    tally: ScriptTally,
    n: nat,
) -> Pairing
    decreases n,
{
    if n == 0 {
        Pairing { project: Seq::empty(), place, tally }
    } else {
        let before = class_pairs(path, project, place, tally, (n - 1) as nat);
        let x = project[n - 1];
        match class_taken(before.place, x.class_name) {
            Some(rest) => Pairing {
                place: rest,
                tally: ScriptTally {
                    changed: before.tally.changed + 1,
                    differences: before.tally.differences.push(
                        ScriptDifferenceModel::SourceChanged { path, class_name: x.class_name },
                    ),
                    ..before.tally
                },
                ..before
            },
            None => Pairing { project: before.project.push(x), ..before },
        }
    }
}

/// What is left is paired in order as far as both lists go; the rest is missing or extra.
pub open spec fn rest_pairs(
    path: Seq<Seq<char>>,
    project: Seq<ScriptModel>,
    place: Seq<ScriptModel>,
    tally: ScriptTally,
) -> ScriptTally
    decreases project.len() + place.len(),
{
    if project.len() > 0 && place.len() > 0 {
        rest_pairs(
            path,
            project.drop_first(),
            place.drop_first(),
            ScriptTally {
                changed: tally.changed + 1,
                differences: tally.differences.push(
                    ScriptDifferenceModel::ClassChanged {
                        path,
                        project_class: project[0].class_name,
                        place_class: place[0].class_name,
                    },
                ),
                ..tally
            },
        )
    } else if project.len() > 0 {
        rest_pairs(
            path,
            project.drop_first(),
            place,
            ScriptTally {
                missing: tally.missing + 1,
                differences: tally.differences.push(
                    ScriptDifferenceModel::MissingFromPlace { path, project_class: project[0].class_name },
                ),
                ..tally
            },
        )
    } else if place.len() > 0 {
        rest_pairs(
            path,
            project,
            place.drop_first(),
            ScriptTally {
                extra: tally.extra + 1,
                differences: tally.differences.push(
                    ScriptDifferenceModel::ExtraInPlace { path, place_class: place[0].class_name },
                ),
                ..tally
            },
        )
    } else {
        tally
    }
}

/// The scripts of one path, compared.
pub open spec fn path_compared(
    path: Seq<Seq<char>>,
    project: Seq<ScriptModel>,
    place: Seq<ScriptModel>,
    tally: ScriptTally,
) -> ScriptTally {
    let left = exact_leftover(project, place, project.len());
    let matched = ScriptTally { matching: tally.matching + left.matched, ..tally };
    let pairs = class_pairs(path, left.project, left.place, matched, left.project.len());
    rest_pairs(path, pairs.project, pairs.place, pairs.tally)
}

/// Scripts that share a path.
pub struct ScriptGroup {
    pub path: Vec<String>,
    pub scripts: Vec<ScriptRecord>,
}

#[verifier::ext_equal]
pub struct GroupModel {
    pub path: Seq<Seq<char>>,
    pub scripts: Seq<ScriptModel>,
}

impl View for ScriptGroup {
    type V = GroupModel;

    open spec fn view(&self) -> GroupModel {
        GroupModel { path: texts(self.path@), scripts: scripts_of(self.scripts@) }
    }
}

pub open spec fn groups_of(v: Seq<ScriptGroup>) -> Seq<GroupModel> {
    Seq::new(v.len(), |i: int| v[i]@)
}

/// Groups with paths in order.
pub open spec fn groups_sorted(v: Seq<GroupModel>) -> bool {
    forall|i: int, j: int| 0 <= i < j < v.len() ==> list_less((#[trigger] v[i]).path, (#[trigger] v[j]).path)
}

/// The scripts of a project and a place, path by path in order.
pub open spec fn groups_compared(project: Seq<GroupModel>, place: Seq<GroupModel>, tally: ScriptTally) -> ScriptTally
    decreases project.len() + place.len(),
{
    if project.len() == 0 && place.len() == 0 {
        tally
    } else if place.len() == 0 || (project.len() > 0 && list_less(project[0].path, place[0].path)) {
        groups_compared(
            project.drop_first(),
            place,
            path_compared(project[0].path, project[0].scripts, Seq::empty(), tally),
        )
    } else if project.len() == 0 || project[0].path != place[0].path {
        groups_compared(
            project,
            place.drop_first(),
            path_compared(place[0].path, Seq::empty(), place[0].scripts, tally),
        )
    } else {
        groups_compared(
            project.drop_first(),
            place.drop_first(),
            path_compared(project[0].path, project[0].scripts, place[0].scripts, tally),
        )
    }
}

pub open spec fn no_scripts() -> ScriptTally {
    ScriptTally { matching: 0, changed: 0, missing: 0, extra: 0, differences: Seq::empty() }
}

/// How many scripts there are in all.
pub open spec fn script_count(v: Seq<GroupModel>, n: nat) -> nat
    decreases n,
{
    if n == 0 {
        0
    } else {
        script_count(v, (n - 1) as nat) + v[n - 1].scripts.len()
    }
}

/// A script of one of some services: its path and record.
pub open spec fn script_visit(v: VisitModel, services: Seq<Seq<char>>) -> bool {
    &&& source_of(v.node) is Some
    &&& v.path.len() > 0
    &&& services.contains(v.path[0])
}

/// The text of a source as bytes.
pub open spec fn source_bytes(s: Seq<char>) -> Seq<u8> {
    vstd::utf8::encode_utf8(s)
}

/// The record of a script.
pub open spec fn script_record(v: VisitModel) -> ScriptModel {
    let bytes = source_bytes(source_of(v.node)->0);
    ScriptModel { class_name: v.node.class_name@, source: with_plain_line_ends(bytes, 13u8, 10u8, bytes.len()) }
}

/// The scripts at a path among the first `n` visits.
pub open spec fn scripts_at(walk: Seq<VisitModel>, services: Seq<Seq<char>>, path: Seq<Seq<char>>, n: nat) -> Multiset<
    ScriptModel,
>
    decreases n,
{
    if n == 0 {
        Multiset::empty()
    } else if script_visit(walk[n - 1], services) && walk[n - 1].path == path {
        scripts_at(walk, services, path, (n - 1) as nat).insert(script_record(walk[n - 1]))
    } else {
        scripts_at(walk, services, path, (n - 1) as nat)
    }
}

/// `groups` are the scripts among the first `n` visits, path by path.
pub open spec fn are_groups(walk: Seq<VisitModel>, services: Seq<Seq<char>>, n: nat, groups: Seq<GroupModel>) -> bool {
    &&& groups_sorted(groups)
    &&& forall|i: int|
        0 <= i < groups.len() ==> scripts_sorted((#[trigger] groups[i]).scripts) && groups[i].scripts.len() > 0
            && groups[i].scripts.to_multiset() == scripts_at(walk, services, groups[i].path, n)
    &&& forall|path: Seq<Seq<char>>|
        (forall|i: int| 0 <= i < groups.len() ==> (#[trigger] groups[i]).path != path) ==> #[trigger] scripts_at(
            walk,
            services,
            path,
            n,
        ) == Multiset::<ScriptModel>::empty()
}

/// The scripts of some services of a place, path by path.
pub open spec fn script_groups_of(roots: Seq<PlaceNode>, services: Seq<Seq<char>>) -> Seq<GroupModel> {
    let walk = place_walk(roots);
    choose|groups: Seq<GroupModel>| are_groups(walk, services, walk.len(), groups)
}

spec fn group_paths(v: Seq<GroupModel>) -> Seq<Seq<Seq<char>>> {
    Seq::new(v.len(), |i: int| v[i].path)
}

proof fn lemma_group_paths(walk: Seq<VisitModel>, services: Seq<Seq<char>>, n: nat, groups: Seq<GroupModel>, path: Seq<Seq<char>>)
    requires
        are_groups(walk, services, n, groups),
    ensures
        group_paths(groups).contains(path) <==> scripts_at(walk, services, path, n) != Multiset::<ScriptModel>::empty(),
{
    broadcast use vstd::seq_lib::group_to_multiset_ensures;

    if group_paths(groups).contains(path) {
        let i = choose|i: int| 0 <= i < group_paths(groups).len() && group_paths(groups)[i] == path;
        assert(groups[i].path == path);
        assert(groups[i].scripts.to_multiset().len() > 0);
    } else {
        assert forall|i: int| 0 <= i < groups.len() implies (#[trigger] groups[i]).path != path by {
            assert(group_paths(groups)[i] == groups[i].path);
        }
    }
}

proof fn lemma_groups_unique(walk: Seq<VisitModel>, services: Seq<Seq<char>>, n: nat, a: Seq<GroupModel>, b: Seq<GroupModel>)
    requires
        are_groups(walk, services, n, a),
        are_groups(walk, services, n, b),
    ensures
        a == b,
{
    let p = group_paths(a);
    let q = group_paths(b);
    assert forall|k: Seq<Seq<char>>| #[trigger] p.contains(k) <==> q.contains(k) by {
        lemma_group_paths(walk, services, n, a, k);
        lemma_group_paths(walk, services, n, b, k);
    }
    crate::order::law_order_settles_the_list::<crate::wally_sync::PathKey>(p, q);
    assert(a.len() == p.len() && b.len() == q.len());
    assert forall|i: int| 0 <= i < a.len() implies a[i] == b[i] by {
        assert(p[i] == q[i]);
        assert(a[i].path == b[i].path);
        law_sorting_settles_the_scripts(a[i].scripts, b[i].scripts);
    }
    assert(a =~= b);
}

proof fn lemma_groups_update(v: Seq<ScriptGroup>, i: int, x: ScriptGroup)
    requires
        0 <= i < v.len(),
    ensures
        groups_of(v.remove(i).insert(i, x)) == groups_of(v).update(i, x@),
{
    assert(groups_of(v.remove(i).insert(i, x)) =~= groups_of(v).update(i, x@));
}

/// Adds a script to its group.
fn add_script(groups: &mut Vec<ScriptGroup>, path: &Vec<String>, record: ScriptRecord, Ghost(walk): Ghost<Seq<VisitModel>>, Ghost(services): Ghost<Seq<Seq<char>>>, Ghost(n): Ghost<nat>)
    requires
        are_groups(walk, services, n, groups_of(old(groups)@)),
        n < walk.len(),
        script_visit(walk[n as int], services),
        walk[n as int].path == texts(path@),
        record@ == script_record(walk[n as int]),
    ensures
        are_groups(walk, services, n + 1, groups_of(final(groups)@)),
{
    broadcast use vstd::seq_lib::group_to_multiset_ensures;

    let ghost before = groups_of(groups@);
    let ghost here = texts(path@);
    let ghost value = record@;
    let mut at: usize = 0;
    while at < groups.len() && list_comes_before(&groups[at].path, path)
        invariant
            at <= groups.len(),
            before == groups_of(groups@),
            here == texts(path@),
            forall|j: int| 0 <= j < at ==> list_less((#[trigger] before[j]).path, here),
        decreases groups.len() - at,
    {
        assert(before[at as int] == groups@[at as int]@);
        at += 1;
    }
    if at < groups.len() {
        assert(before[at as int] == groups@[at as int]@);
    }
    if at < groups.len() && same_texts(&groups[at].path, path) {
        let ghost old_groups = groups@;
        let mut group = groups.remove(at);
        insert_script(&mut group.scripts, record);
        let ghost changed = group@;
        groups.insert(at, group);
        proof {
            lemma_groups_update(old_groups, at as int, group);
            let now = groups_of(groups@);
            assert(now == before.update(at as int, changed));
            assert forall|i: int| 0 <= i < now.len() implies scripts_sorted((#[trigger] now[i]).scripts)
                && now[i].scripts.len() > 0 && now[i].scripts.to_multiset() == scripts_at(walk, services, now[i].path, n + 1) by {
                assert(scripts_sorted(before[i].scripts));
                if i == at {
                    assert(changed.scripts.to_multiset().len() > 0);
                } else {
                    if i < at {
                        assert(list_less(before[i].path, before[at as int].path));
                    } else {
                        assert(list_less(before[at as int].path, before[i].path));
                    }
                    lemma_list_less_total(before[i].path, before[at as int].path);
                }
            }
            assert forall|other: Seq<Seq<char>>|
                (forall|i: int| 0 <= i < now.len() ==> (#[trigger] now[i]).path != other) implies #[trigger] scripts_at(
                walk,
                services,
                other,
                n + 1,
            ) == Multiset::<ScriptModel>::empty() by {
                assert(now[at as int].path != other);
                assert forall|i: int| 0 <= i < before.len() implies (#[trigger] before[i]).path != other by {
                    assert(now[i].path != other);
                }
                assert(scripts_at(walk, services, other, n) == Multiset::<ScriptModel>::empty());
            }
            assert forall|i: int, j: int| 0 <= i < j < now.len() implies list_less((#[trigger] now[i]).path, (#[trigger] now[j]).path) by {
                assert(list_less(before[i].path, before[j].path));
            }
        }
        return;
    }
    let mut scripts: Vec<ScriptRecord> = Vec::new();
    scripts.push(record);
    let group = ScriptGroup { path: clone_texts(path), scripts };
    let ghost added = group@;
    let ghost old_groups = groups@;
    groups.insert(at, group);
    proof {
        let now = groups_of(groups@);
        assert(now =~= before.insert(at as int, added));
        assert(added.scripts =~= seq![value]);
        assert(added.path == here);
        assert(seq![value] =~= Seq::<ScriptModel>::empty().push(value));
        assert(Seq::<ScriptModel>::empty().to_multiset() =~= Multiset::empty());
        assert(added.scripts.to_multiset() =~= Multiset::<ScriptModel>::empty().insert(value));
        assert forall|j: int| at <= j < before.len() implies list_less(here, (#[trigger] before[j]).path) by {
            lemma_list_less_total(before[at as int].path, here);
            if j > at {
                assert(list_less(before[at as int].path, before[j].path));
                lemma_list_less_transitive(here, before[at as int].path, before[j].path);
            }
        }
        assert forall|j: int| 0 <= j < before.len() implies (#[trigger] before[j]).path != here by {
            lemma_list_less_total(before[j].path, here);
        }
        assert(scripts_at(walk, services, here, n) == Multiset::<ScriptModel>::empty());
        assert forall|i: int| 0 <= i < now.len() implies scripts_sorted((#[trigger] now[i]).scripts) && now[i].scripts.len()
            > 0 && now[i].scripts.to_multiset() == scripts_at(walk, services, now[i].path, n + 1) by {
            if i < at {
                assert(now[i] == before[i]);
            } else if i > at {
                assert(now[i] == before[i - 1]);
            }
        }
        assert forall|other: Seq<Seq<char>>|
            (forall|i: int| 0 <= i < now.len() ==> (#[trigger] now[i]).path != other) implies #[trigger] scripts_at(
            walk,
            services,
            other,
            n + 1,
        ) == Multiset::<ScriptModel>::empty() by {
            assert(now[at as int].path != other);
            assert forall|i: int| 0 <= i < before.len() implies (#[trigger] before[i]).path != other by {
                let k = if i < at {
                    i
                } else {
                    i + 1
                };
                assert(now[k].path != other);
            }
            assert(scripts_at(walk, services, other, n) == Multiset::<ScriptModel>::empty());
        }
        assert forall|i: int, j: int| 0 <= i < j < now.len() implies list_less((#[trigger] now[i]).path, (#[trigger] now[j]).path) by {
            let a = if i < at {
                i
            } else {
                i - 1
            };
            let b = if j < at {
                j
            } else {
                j - 1
            };
            if i != at && j != at {
                assert(list_less(before[a].path, before[b].path));
            }
        }
    }
}

/// The scripts of some services of a place, path by path in order.
pub fn script_groups(roots: &Vec<PlaceNode>, services: &Vec<String>) -> (r: Vec<ScriptGroup>)
    ensures
        groups_of(r@) == script_groups_of(roots@, texts(services@)),
        are_groups(place_walk(roots@), texts(services@), place_walk(roots@).len(), groups_of(r@)),
        place_walk(roots@).len() <= usize::MAX,
{
    let walk = walk_place(roots);
    let ghost all = visits_of(walk@);
    let ghost wanted = texts(services@);
    let mut groups: Vec<ScriptGroup> = Vec::new();
    assert(groups_of(groups@) =~= Seq::empty());
    assert(all.len() == walk@.len());
    let mut i: usize = 0;
    while i < walk.len()
        invariant
            i <= walk.len(),
            all == visits_of(walk@),
            wanted == texts(services@),
            are_groups(all, wanted, i as nat, groups_of(groups@)),
        decreases walk.len() - i,
    {
        assert(all[i as int] == walk@[i as int]@);
        let ghost before = groups_of(groups@);
        let in_service = walk[i].path.len() > 0 && holds_text(services, &walk[i].path[0]);
        proof {
            if walk@[i as int].path@.len() > 0 {
                assert(all[i as int].path[0] == walk@[i as int].path@[0]@);
            }
            assert(all[i as int].path.len() == walk@[i as int].path@.len());
        }
        let mut added = false;
        if in_service {
            match script_source(walk[i].node) {
                Some(source) => {
                    let bytes = source.as_str().as_bytes_vec();
                    let record = ScriptRecord {
                        class_name: walk[i].node.class_name.clone(),
                        source: normalized_source_bytes(&bytes),
                    };
                    add_script(&mut groups, &walk[i].path, record, Ghost(all), Ghost(wanted), Ghost(i as nat));
                    added = true;
                },
                None => {},
            }
        }
        proof {
            if !added {
                assert forall|path: Seq<Seq<char>>| #[trigger]
                    scripts_at(all, wanted, path, (i + 1) as nat) == scripts_at(all, wanted, path, i as nat) by {}
                assert(groups_of(groups@) == before);
            }
        }
        i += 1;
    }
    proof {
        lemma_groups_unique(all, wanted, all.len(), groups_of(groups@), script_groups_of(roots@, wanted));
    }
    groups
}

/// The running counts of a comparison.
pub struct ScriptState {
    pub matching: usize,
    pub changed: usize,
    pub missing: usize,
    pub extra: usize,
    pub differences: Vec<ScriptDifference>,
}

/// The counts stand for a tally of which at most so many differences are kept.
pub open spec fn stands_for(s: ScriptState, t: ScriptTally, limit: usize) -> bool {
    &&& s.matching == t.matching
    &&& s.changed == t.changed
    &&& s.missing == t.missing
    &&& s.extra == t.extra
    &&& script_differences(s.differences@) == at_most(t.differences, limit as int)
}

fn record_difference(differences: &mut Vec<ScriptDifference>, d: ScriptDifference, limit: usize, Ghost(all): Ghost<Seq<ScriptDifferenceModel>>)
    requires
        script_differences(old(differences)@) == at_most(all, limit as int),
    ensures
        script_differences(final(differences)@) == at_most(all.push(d@), limit as int),
{
    let ghost before = differences@;
    let ghost value = d@;
    assert(script_differences(before).len() == before.len());
    if differences.len() < limit {
        differences.push(d);
        assert(script_differences(differences@) =~= script_differences(before).push(value));
    } else {
        assert(all.push(value).take(limit as int) =~= at_most(all, limit as int));
    }
}

proof fn lemma_class_taken_len(v: Seq<ScriptModel>, class_name: Seq<char>)
    ensures
        class_taken(v, class_name) is Some ==> class_taken(v, class_name)->0.len() + 1 == v.len(),
    decreases v.len(),
{
    if v.len() > 0 && v[0].class_name != class_name {
        lemma_class_taken_len(v.drop_first(), class_name);
    }
}

/// Compares the scripts of one path.
fn compare_path(state: &mut ScriptState, path: &Vec<String>, project: Vec<ScriptRecord>, place: Vec<ScriptRecord>, limit: usize, Ghost(tally): Ghost<ScriptTally>)
    requires
        stands_for(*old(state), tally, limit),
        tally.matching + tally.changed + tally.missing + project@.len() <= usize::MAX,
        tally.extra + place@.len() <= usize::MAX,
    ensures
        stands_for(
            *final(state),
            path_compared(texts(path@), scripts_of(project@), scripts_of(place@), tally),
            limit,
        ),
{
    let ghost here = texts(path@);
    let ghost a = scripts_of(project@);
    let ghost b = scripts_of(place@);
    let mut project = project;
    let mut place = place;
    proof {
        assert(a.len() == project@.len() && b.len() == place@.len());
        lemma_leftover_len(a, b, a.len());
        lemma_leftover_place_len(a, b, a.len());
    }
    let matched = remove_exact_matches(&mut project, &mut place);
    let ghost left = exact_leftover(a, b, a.len());
    let ghost p0 = left.project;
    let ghost q0 = left.place;
    let ghost t0 = ScriptTally { matching: tally.matching + left.matched, ..tally };
    assert(p0.len() == project@.len() && q0.len() == place@.len()) by {
        assert(scripts_of(project@).len() == project@.len());
        assert(scripts_of(place@).len() == place@.len());
    }
    state.matching = state.matching + matched;
    let ghost mut n: nat = 0;
    let mut index: usize = 0;
    assert(p0.skip(0) =~= p0);
    assert(p0.take(0) =~= Seq::empty());
    while index < project.len()
        invariant
            index <= project@.len(),
            n <= p0.len(),
            here == texts(path@),
            project@.len() - index == p0.len() - n,
            scripts_of(project@).take(index as int) == class_pairs(here, p0, q0, t0, n).project,
            scripts_of(project@).skip(index as int) == p0.skip(n as int),
            scripts_of(place@) == class_pairs(here, p0, q0, t0, n).place,
            stands_for(*state, class_pairs(here, p0, q0, t0, n).tally, limit),
            state.matching + state.changed + state.missing + project@.len() <= usize::MAX,
            state.extra + place@.len() <= usize::MAX,
        decreases project@.len() - index,
    {
        let ghost now = scripts_of(project@);
        let ghost kept = now.take(index as int);
        let ghost x = now[index as int];
        let ghost pairs = class_pairs(here, p0, q0, t0, n);
        proof {
            assert(now.skip(index as int)[0] == x);
            assert(p0.skip(n as int)[0] == p0[n as int]);
            assert(x == project@[index as int]@);
            lemma_class_taken_len(pairs.place, x.class_name);
            assert(scripts_of(place@).len() == place@.len());
        }
        let class_name = project[index].class_name.clone();
        if take_same_class(&mut place, &class_name) {
            proof {
                lemma_scripts_remove(project@, index as int);
                assert(scripts_of(place@).len() == place@.len());
            }
            project.remove(index);
            state.changed = state.changed + 1;
            let d = ScriptDifference::SourceChanged { path: clone_texts(path), class_name };
            record_difference(&mut state.differences, d, limit, Ghost(pairs.tally.differences));
            proof {
                let after = scripts_of(project@);
                assert(after.take(index as int) =~= kept);
                assert(after.skip(index as int) =~= now.skip(index as int).drop_first());
                assert(now.skip(index as int).drop_first() =~= p0.skip((n + 1) as int));
                n = n + 1;
            }
        } else {
            proof {
                assert(now.take(index + 1) =~= kept.push(x));
                assert(now.skip(index + 1) =~= now.skip(index as int).drop_first());
                assert(now.skip(index as int).drop_first() =~= p0.skip((n + 1) as int));
                assert(scripts_of(place@).len() == place@.len());
                n = n + 1;
            }
            index += 1;
        }
    }
    let ghost pairs = class_pairs(here, p0, q0, t0, p0.len());
    let ghost whole = rest_pairs(here, pairs.project, pairs.place, pairs.tally);
    proof {
        assert(n == p0.len());
        assert(scripts_of(project@).take(index as int) =~= scripts_of(project@));
    }
    let ghost mut t = pairs.tally;
    while project.len() > 0 && place.len() > 0
        invariant
            here == texts(path@),
            stands_for(*state, t, limit),
            whole == rest_pairs(here, scripts_of(project@), scripts_of(place@), t),
            state.matching + state.changed + state.missing + project@.len() <= usize::MAX,
            state.extra + place@.len() <= usize::MAX,
        decreases project@.len(),
    {
        proof {
            lemma_scripts_remove(project@, 0);
            lemma_scripts_remove(place@, 0);
            assert(scripts_of(project@).remove(0) =~= scripts_of(project@).drop_first());
            assert(scripts_of(place@).remove(0) =~= scripts_of(place@).drop_first());
        }
        let ghost p = scripts_of(project@);
        let ghost q = scripts_of(place@);
        let x = project.remove(0);
        let y = place.remove(0);
        state.changed = state.changed + 1;
        let d = ScriptDifference::ClassChanged {
            path: clone_texts(path),
            project_class: x.class_name,
            place_class: y.class_name,
        };
        let ghost found = d@;
        record_difference(&mut state.differences, d, limit, Ghost(t.differences));
        proof {
            assert(x@ == p[0] && y@ == q[0]);
            t = ScriptTally { changed: t.changed + 1, differences: t.differences.push(found), ..t };
        }
    }
    while project.len() > 0
        invariant
            here == texts(path@),
            project@.len() == 0 || place@.len() == 0,
            stands_for(*state, t, limit),
            whole == rest_pairs(here, scripts_of(project@), scripts_of(place@), t),
            state.matching + state.changed + state.missing + project@.len() <= usize::MAX,
            state.extra + place@.len() <= usize::MAX,
        decreases project@.len(),
    {
        proof {
            lemma_scripts_remove(project@, 0);
            assert(scripts_of(project@).remove(0) =~= scripts_of(project@).drop_first());
        }
        let ghost p = scripts_of(project@);
        let x = project.remove(0);
        state.missing = state.missing + 1;
        let d = ScriptDifference::MissingFromPlace { path: clone_texts(path), project_class: x.class_name };
        let ghost found = d@;
        record_difference(&mut state.differences, d, limit, Ghost(t.differences));
        proof {
            assert(x@ == p[0]);
            t = ScriptTally { missing: t.missing + 1, differences: t.differences.push(found), ..t };
        }
    }
    while place.len() > 0
        invariant
            here == texts(path@),
            project@.len() == 0,
            stands_for(*state, t, limit),
            whole == rest_pairs(here, scripts_of(project@), scripts_of(place@), t),
            state.extra + place@.len() <= usize::MAX,
        decreases place@.len(),
    {
        proof {
            lemma_scripts_remove(place@, 0);
            assert(scripts_of(place@).remove(0) =~= scripts_of(place@).drop_first());
        }
        let ghost q = scripts_of(place@);
        let y = place.remove(0);
        state.extra = state.extra + 1;
        let d = ScriptDifference::ExtraInPlace { path: clone_texts(path), place_class: y.class_name };
        let ghost found = d@;
        record_difference(&mut state.differences, d, limit, Ghost(t.differences));
        proof {
            assert(y@ == q[0]);
            t = ScriptTally { extra: t.extra + 1, differences: t.differences.push(found), ..t };
        }
    }
}

proof fn lemma_leftover_place_len(project: Seq<ScriptModel>, place: Seq<ScriptModel>, n: nat)
    requires
        n <= project.len(),
    ensures
        exact_leftover(project, place, n).place.len() <= place.len(),
    decreases n,
{
    if n > 0 {
        lemma_leftover_place_len(project, place, (n - 1) as nat);
        let before = exact_leftover(project, place, (n - 1) as nat);
        if before.place.contains(project[n - 1]) {
            let i = lemma_first_index(before.place, project[n - 1]);
            lemma_without_first(before.place, project[n - 1], i);
        }
    }
}

/// Every script of the project is matched, changed or missing; extra are some of the place's.
pub proof fn law_every_script_is_counted(path: Seq<Seq<char>>, project: Seq<ScriptModel>, place: Seq<ScriptModel>, tally: ScriptTally)
    ensures
        ({
            let t = path_compared(path, project, place, tally);
            &&& t.matching + t.changed + t.missing == tally.matching + tally.changed + tally.missing + project.len()
            &&& t.matching + t.changed + t.extra == tally.matching + tally.changed + tally.extra + place.len()
            &&& t.differences.len() - tally.differences.len() == (t.changed - tally.changed) + (t.missing - tally.missing) + (
            t.extra - tally.extra)
        }),
{
    let left = exact_leftover(project, place, project.len());
    lemma_leftover_len(project, place, project.len());
    lemma_leftover_taken(project, place, project.len());
    let matched = ScriptTally { matching: tally.matching + left.matched, ..tally };
    lemma_pairs_counted(path, left.project, left.place, matched, left.project.len());
    let pairs = class_pairs(path, left.project, left.place, matched, left.project.len());
    lemma_rest_counted(path, pairs.project, pairs.place, pairs.tally);
}

proof fn lemma_leftover_taken(project: Seq<ScriptModel>, place: Seq<ScriptModel>, n: nat)
    requires
        n <= project.len(),
    ensures
        exact_leftover(project, place, n).place.len() + exact_leftover(project, place, n).matched == place.len(),
    decreases n,
{
    if n > 0 {
        lemma_leftover_taken(project, place, (n - 1) as nat);
        let before = exact_leftover(project, place, (n - 1) as nat);
        if before.place.contains(project[n - 1]) {
            let i = lemma_first_index(before.place, project[n - 1]);
            lemma_without_first(before.place, project[n - 1], i);
        }
    }
}

proof fn lemma_pairs_counted(path: Seq<Seq<char>>, project: Seq<ScriptModel>, place: Seq<ScriptModel>, tally: ScriptTally, n: nat)
    requires
        n <= project.len(),
    ensures
        ({
            let p = class_pairs(path, project, place, tally, n);
            &&& p.tally.matching == tally.matching
            &&& p.tally.missing == tally.missing
            &&& p.tally.extra == tally.extra
            &&& p.tally.changed - tally.changed + p.project.len() == n
            &&& p.tally.changed - tally.changed + p.place.len() == place.len()
            &&& p.tally.differences.len() - tally.differences.len() == p.tally.changed - tally.changed
        }),
    decreases n,
{
    if n > 0 {
        lemma_pairs_counted(path, project, place, tally, (n - 1) as nat);
        let before = class_pairs(path, project, place, tally, (n - 1) as nat);
        lemma_class_taken_len(before.place, project[n - 1].class_name);
    }
}

proof fn lemma_rest_counted(path: Seq<Seq<char>>, project: Seq<ScriptModel>, place: Seq<ScriptModel>, tally: ScriptTally)
    ensures
        ({
            let t = rest_pairs(path, project, place, tally);
            &&& t.matching == tally.matching
            &&& t.changed + t.missing == tally.changed + tally.missing + project.len()
            &&& t.changed + t.extra == tally.changed + tally.extra + place.len()
            &&& t.differences.len() - tally.differences.len() == (t.changed - tally.changed) + (t.missing - tally.missing) + (
            t.extra - tally.extra)
        }),
    decreases project.len() + place.len(),
{
    if project.len() > 0 && place.len() > 0 {
        let t = ScriptTally {
            changed: tally.changed + 1,
            differences: tally.differences.push(
                ScriptDifferenceModel::ClassChanged {
                    path,
                    project_class: project[0].class_name,
                    place_class: place[0].class_name,
                },
            ),
            ..tally
        };
        lemma_rest_counted(path, project.drop_first(), place.drop_first(), t);
    } else if project.len() > 0 {
        let t = ScriptTally {
            missing: tally.missing + 1,
            differences: tally.differences.push(
                ScriptDifferenceModel::MissingFromPlace { path, project_class: project[0].class_name },
            ),
            ..tally
        };
        lemma_rest_counted(path, project.drop_first(), place, t);
    } else if place.len() > 0 {
        let t = ScriptTally {
            extra: tally.extra + 1,
            differences: tally.differences.push(
                ScriptDifferenceModel::ExtraInPlace { path, place_class: place[0].class_name },
            ),
            ..tally
        };
        lemma_rest_counted(path, project, place.drop_first(), t);
    }
}

/// What is compared of a project and a place, and what came of it.
pub struct ScriptComparison {
    pub project_scripts: usize,
    pub place_scripts: usize,
    pub state: ScriptState,
    pub truncated: bool,
}

proof fn lemma_count_skip(v: Seq<GroupModel>, n: nat)
    requires
        n < v.len(),
    ensures
        script_count(v.skip(n as int), v.skip(n as int).len()) == v[n as int].scripts.len() + script_count(
            v.skip((n + 1) as int),
            v.skip((n + 1) as int).len(),
        ),
{
    let whole = v.skip(n as int);
    assert(whole.drop_first() =~= v.skip((n + 1) as int));
    lemma_count_first(whole, whole.len());
}

proof fn lemma_count_first(v: Seq<GroupModel>, n: nat)
    requires
        0 < n <= v.len(),
    ensures
        script_count(v, n) == v[0].scripts.len() + script_count(v.drop_first(), (n - 1) as nat),
    decreases n,
{
    if n > 1 {
        lemma_count_first(v, (n - 1) as nat);
    } else {
        assert(script_count(v, 0) == 0);
        assert(script_count(v.drop_first(), 0) == 0);
    }
}

fn count_scripts(groups: &Vec<ScriptGroup>) -> (r: usize)
    requires
        script_count(groups_of(groups@), groups@.len()) <= usize::MAX,
    ensures
        r == script_count(groups_of(groups@), groups@.len()),
{
    let ghost all = groups_of(groups@);
    let mut count: usize = 0;
    let mut i: usize = 0;
    while i < groups.len()
        invariant
            i <= groups.len(),
            all == groups_of(groups@),
            script_count(all, groups@.len()) <= usize::MAX,
            count == script_count(all, i as nat),
        decreases groups.len() - i,
    {
        proof {
            assert(all[i as int] == groups@[i as int]@);
            assert(scripts_of(groups@[i as int].scripts@).len() == groups@[i as int].scripts@.len());
            lemma_count_monotonic(all, (i + 1) as nat, groups@.len());
        }
        count += groups[i].scripts.len();
        i += 1;
    }
    count
}

proof fn lemma_count_monotonic(v: Seq<GroupModel>, k: nat, n: nat)
    requires
        k <= n,
    ensures
        script_count(v, k) <= script_count(v, n),
    decreases n,
{
    if k < n {
        lemma_count_monotonic(v, k, (n - 1) as nat);
    }
}

fn copy_script(x: &ScriptRecord) -> (r: ScriptRecord)
    ensures
        r@ == x@,
{
    let mut source: Vec<u8> = Vec::new();
    let mut i: usize = 0;
    while i < x.source.len()
        invariant
            i <= x.source.len(),
            source@ == x.source@.take(i as int),
        decreases x.source.len() - i,
    {
        source.push(x.source[i]);
        assert(x.source@.take(i + 1) =~= x.source@.take(i as int).push(x.source@[i as int]));
        i += 1;
    }
    assert(x.source@.take(i as int) =~= x.source@);
    ScriptRecord { class_name: x.class_name.clone(), source }
}

fn copy_scripts(v: &Vec<ScriptRecord>) -> (r: Vec<ScriptRecord>)
    ensures
        scripts_of(r@) == scripts_of(v@),
{
    let mut out: Vec<ScriptRecord> = Vec::new();
    let mut i: usize = 0;
    while i < v.len()
        invariant
            i <= v.len(),
            out@.len() == i,
            forall|j: int| 0 <= j < i ==> (#[trigger] out@[j])@ == v@[j]@,
        decreases v.len() - i,
    {
        out.push(copy_script(&v[i]));
        i += 1;
    }
    assert(scripts_of(out@) =~= scripts_of(v@));
    out
}

/// Compares the scripts of a project with those of a place, path by path, and keeps at most `limit`
/// differences.
pub fn compare_groups(project: &Vec<ScriptGroup>, place: &Vec<ScriptGroup>, limit: usize) -> (r: ScriptState)
    requires
        script_count(groups_of(project@), project@.len()) <= usize::MAX,
        script_count(groups_of(place@), place@.len()) <= usize::MAX,
    ensures
        stands_for(r, groups_compared(groups_of(project@), groups_of(place@), no_scripts()), limit),
{
    let ghost a = groups_of(project@);
    let ghost b = groups_of(place@);
    let ghost whole = groups_compared(a, b, no_scripts());
    let mut state = ScriptState { matching: 0, changed: 0, missing: 0, extra: 0, differences: Vec::new() };
    let ghost mut t = no_scripts();
    let mut i: usize = 0;
    let mut j: usize = 0;
    assert(script_differences(state.differences@) =~= Seq::empty());
    assert(a.skip(0) =~= a && b.skip(0) =~= b);
    while i < project.len() || j < place.len()
        invariant
            i <= project.len(),
            j <= place.len(),
            a == groups_of(project@),
            b == groups_of(place@),
            whole == groups_compared(a.skip(i as int), b.skip(j as int), t),
            stands_for(state, t, limit),
            t.matching + t.changed + t.missing + script_count(a.skip(i as int), a.skip(i as int).len()) <= usize::MAX,
            t.matching + t.changed + t.extra + script_count(b.skip(j as int), b.skip(j as int).len()) <= usize::MAX,
        decreases project.len() - i + place.len() - j,
    {
        proof {
            if i < project.len() {
                assert(a.skip(i as int)[0] == project@[i as int]@);
                assert(a.skip(i as int).drop_first() =~= a.skip(i + 1));
                lemma_count_skip(a, i as nat);
                assert(scripts_of(project@[i as int].scripts@).len() == project@[i as int].scripts@.len());
            }
            if j < place.len() {
                assert(b.skip(j as int)[0] == place@[j as int]@);
                assert(b.skip(j as int).drop_first() =~= b.skip(j + 1));
                lemma_count_skip(b, j as nat);
                assert(scripts_of(place@[j as int].scripts@).len() == place@[j as int].scripts@.len());
            }
        }
        let none: Vec<ScriptRecord> = Vec::new();
        assert(scripts_of(none@) =~= Seq::<ScriptModel>::empty());
        if j == place.len() || (i < project.len() && list_comes_before(&project[i].path, &place[j].path)) {
            let scripts = copy_scripts(&project[i].scripts);
            assert(scripts_of(scripts@).len() == scripts@.len());
            let ghost left = project@[i as int]@;
            compare_path(&mut state, &project[i].path, scripts, none, limit, Ghost(t));
            proof {
                law_every_script_is_counted(left.path, left.scripts, Seq::empty(), t);
                t = path_compared(left.path, left.scripts, Seq::empty(), t);
            }
            i += 1;
        } else if i == project.len() || !same_texts(&project[i].path, &place[j].path) {
            let scripts = copy_scripts(&place[j].scripts);
            assert(scripts_of(scripts@).len() == scripts@.len());
            let ghost right = place@[j as int]@;
            compare_path(&mut state, &place[j].path, none, scripts, limit, Ghost(t));
            proof {
                law_every_script_is_counted(right.path, Seq::empty(), right.scripts, t);
                t = path_compared(right.path, Seq::empty(), right.scripts, t);
            }
            j += 1;
        } else {
            let left_scripts = copy_scripts(&project[i].scripts);
            let right_scripts = copy_scripts(&place[j].scripts);
            assert(scripts_of(left_scripts@).len() == left_scripts@.len());
            assert(scripts_of(right_scripts@).len() == right_scripts@.len());
            let ghost left = project@[i as int]@;
            let ghost right = place@[j as int]@;
            compare_path(&mut state, &project[i].path, left_scripts, right_scripts, limit, Ghost(t));
            proof {
                law_every_script_is_counted(left.path, left.scripts, right.scripts, t);
                t = path_compared(left.path, left.scripts, right.scripts, t);
            }
            i += 1;
            j += 1;
        }
    }
    state
}

proof fn lemma_group_count(walk: Seq<VisitModel>, services: Seq<Seq<char>>, n: nat, groups: Seq<GroupModel>, m: nat)
    requires
        are_groups(walk, services, n, groups),
        m <= groups.len(),
    ensures
        script_count(groups, m) == visits_at(walk, services, groups, n, m),
    decreases m,
{
    broadcast use vstd::seq_lib::group_to_multiset_ensures;

    if m > 0 {
        lemma_group_count(walk, services, n, groups, (m - 1) as nat);
        let last = groups[m - 1];
        assert(last.scripts.to_multiset().len() == last.scripts.len());
        assert(last.scripts.len() == scripts_at(walk, services, last.path, n).len());
    }
}

/// How many scripts stand at the paths of the first `m` groups.
spec fn visits_at(walk: Seq<VisitModel>, services: Seq<Seq<char>>, groups: Seq<GroupModel>, n: nat, m: nat) -> nat
    decreases m,
{
    if m == 0 {
        0
    } else {
        visits_at(walk, services, groups, n, (m - 1) as nat) + scripts_at(walk, services, groups[m - 1].path, n).len()
    }
}

/// Each visit counts for at most one group.
proof fn lemma_visits_bound(walk: Seq<VisitModel>, services: Seq<Seq<char>>, groups: Seq<GroupModel>, n: nat, m: nat)
    requires
        groups_sorted(groups),
        m <= groups.len(),
    ensures
        visits_at(walk, services, groups, n, m) <= n,
    decreases n,
{
    if n == 0 {
        lemma_no_visits(walk, services, groups, m);
    } else {
        lemma_visits_bound(walk, services, groups, (n - 1) as nat, m);
        lemma_visit_once(walk, services, groups, n, m);
    }
}

proof fn lemma_no_visits(walk: Seq<VisitModel>, services: Seq<Seq<char>>, groups: Seq<GroupModel>, m: nat)
    ensures
        visits_at(walk, services, groups, 0, m) == 0,
    decreases m,
{
    if m > 0 {
        lemma_no_visits(walk, services, groups, (m - 1) as nat);
    }
}

proof fn lemma_visit_once(walk: Seq<VisitModel>, services: Seq<Seq<char>>, groups: Seq<GroupModel>, n: nat, m: nat)
    requires
        groups_sorted(groups),
        m <= groups.len(),
        n > 0,
    ensures
        visits_at(walk, services, groups, n, m) <= visits_at(walk, services, groups, (n - 1) as nat, m) + 1,
        (forall|i: int| 0 <= i < m ==> (#[trigger] groups[i]).path != walk[n - 1].path) ==> visits_at(
            walk,
            services,
            groups,
            n,
            m,
        ) == visits_at(walk, services, groups, (n - 1) as nat, m),
    decreases m,
{
    if m > 0 {
        lemma_visit_once(walk, services, groups, n, (m - 1) as nat);
        if groups[m - 1].path == walk[n - 1].path {
            assert forall|i: int| 0 <= i < m - 1 implies (#[trigger] groups[i]).path != walk[n - 1].path by {
                assert(list_less(groups[i].path, groups[m - 1].path));
                lemma_list_less_total(groups[i].path, groups[m - 1].path);
            }
        }
    }
}

/// Compares the scripts of some services of a project with those of a place.
pub fn compare_place(project: &Vec<PlaceNode>, place: &Vec<PlaceNode>, services: &Vec<String>, limit: usize) -> (r:
    ScriptComparison)
    ensures
        ({
            let a = script_groups_of(project@, texts(services@));
            let b = script_groups_of(place@, texts(services@));
            let t = groups_compared(a, b, no_scripts());
            &&& r.project_scripts == script_count(a, a.len())
            &&& r.place_scripts == script_count(b, b.len())
            &&& stands_for(r.state, t, limit)
            &&& r.truncated == (t.differences.len() > limit)
        }),
{
    let left = script_groups(project, services);
    let right = script_groups(place, services);
    let ghost a = groups_of(left@);
    let ghost b = groups_of(right@);
    proof {
        let w = place_walk(project@);
        let v = place_walk(place@);
        lemma_group_count(w, texts(services@), w.len(), a, a.len());
        lemma_visits_bound(w, texts(services@), a, w.len(), a.len());
        lemma_group_count(v, texts(services@), v.len(), b, b.len());
        lemma_visits_bound(v, texts(services@), b, v.len(), b.len());
        assert(a.len() == left@.len() && b.len() == right@.len());
        lemma_groups_counted(a, b, no_scripts());
    }
    let project_scripts = count_scripts(&left);
    let place_scripts = count_scripts(&right);
    let state = compare_groups(&left, &right, limit);
    let total = state.changed as u128 + state.missing as u128 + state.extra as u128;
    ScriptComparison { project_scripts, place_scripts, truncated: total > limit as u128, state }
}

proof fn lemma_groups_counted(a: Seq<GroupModel>, b: Seq<GroupModel>, tally: ScriptTally)
    ensures
        ({
            let t = groups_compared(a, b, tally);
            t.differences.len() - tally.differences.len() == (t.changed - tally.changed) + (t.missing - tally.missing) + (t.extra
                - tally.extra)
        }),
    decreases a.len() + b.len(),
{
    if a.len() == 0 && b.len() == 0 {
    } else if b.len() == 0 || (a.len() > 0 && list_less(a[0].path, b[0].path)) {
        law_every_script_is_counted(a[0].path, a[0].scripts, Seq::empty(), tally);
        lemma_groups_counted(a.drop_first(), b, path_compared(a[0].path, a[0].scripts, Seq::empty(), tally));
    } else if a.len() == 0 || a[0].path != b[0].path {
        law_every_script_is_counted(b[0].path, Seq::empty(), b[0].scripts, tally);
        lemma_groups_counted(a, b.drop_first(), path_compared(b[0].path, Seq::empty(), b[0].scripts, tally));
    } else {
        law_every_script_is_counted(a[0].path, a[0].scripts, b[0].scripts, tally);
        lemma_groups_counted(
            a.drop_first(),
            b.drop_first(),
            path_compared(a[0].path, a[0].scripts, b[0].scripts, tally),
        );
    }
}

} // verus!
