//! JSON values, their merge, and access by dotted keys.
use vstd::prelude::*;

use crate::text::{pieces, same, split_at_char, texts, trim, trimmed};

verus! {

/// A number: an integer in the two ranges that JSON readers keep exactly, or the text of any
/// other number.
pub enum Number {
    Unsigned(u64),
    Negative(i64),
    Other(String),
}

/// A JSON value. Where an object names a key more than once, the last member counts.
pub enum Json {
    Null,
    Bool(bool),
    Number(Number),
    Text(String),
    Array(Vec<Json>),
    Object(Vec<Member>),
}

/// One key of an object with its value.
pub struct Member {
    pub key: String,
    pub value: Json,
}

pub enum NumberModel {
    Unsigned(u64),
    Negative(i64),
    Other(Seq<char>),
}

/// What a JSON value stands for: objects are maps, without an order of their keys.
#[verifier::ext_equal]
pub enum JsonModel {
    Null,
    Bool(bool),
    Number(NumberModel),
    Text(Seq<char>),
    Array(Seq<JsonModel>),
    Object(Map<Seq<char>, JsonModel>),
}

impl View for Number {
    type V = NumberModel;

    open spec fn view(&self) -> NumberModel {
        match self {
            Number::Unsigned(n) => NumberModel::Unsigned(*n),
            Number::Negative(n) => NumberModel::Negative(*n),
            Number::Other(s) => NumberModel::Other(s@),
        }
    }
}

impl Json {
    pub open spec fn model(self) -> JsonModel
        decreases self,
    {
        match self {
            Json::Null => JsonModel::Null,
            Json::Bool(b) => JsonModel::Bool(b),
            Json::Number(n) => JsonModel::Number(n@),
            Json::Text(s) => JsonModel::Text(s@),
            Json::Array(v) => JsonModel::Array(elements(v@)),
            Json::Object(m) => JsonModel::Object(entries(m@)),
        }
    }
}

/// The values of an array.
pub open spec fn elements(v: Seq<Json>) -> Seq<JsonModel>
    decreases v,
{
    Seq::new(
        v.len(),
        |i: int|
            if 0 <= i < v.len() {
                v[i].model()
            } else {
                JsonModel::Null
            },
    )
}

/// The map that the members of an object stand for.
pub open spec fn entries(m: Seq<Member>) -> Map<Seq<char>, JsonModel>
    decreases m,
{
    if m.len() == 0 {
        Map::empty()
    } else {
        entries(m.drop_last()).insert(m.last().key@, m.last().value.model())
    }
}

impl View for Json {
    type V = JsonModel;

    open spec fn view(&self) -> JsonModel {
        self.model()
    }
}

/// A value that may be missing.
pub open spec fn opt_json(v: Option<Json>) -> Option<JsonModel> {
    match v {
        Some(v) => Some(v@),
        None => None,
    }
}

/// `i` is the member that counts for `key`.
pub open spec fn is_entry(m: Seq<Member>, key: Seq<char>, i: int) -> bool {
    &&& 0 <= i < m.len()
    &&& m[i].key@ == key
    &&& forall|j: int| i < j < m.len() ==> #[trigger] m[j].key@ != key
}

pub proof fn lemma_entry(m: Seq<Member>, key: Seq<char>, i: int)
    requires
        is_entry(m, key, i),
    ensures
        entries(m).dom().contains(key),
        entries(m)[key] == m[i].value@,
    decreases m.len(),
{
    if i < m.len() - 1 {
        assert(m.last().key@ != key);
        assert(is_entry(m.drop_last(), key, i));
        lemma_entry(m.drop_last(), key, i);
    }
}

pub proof fn lemma_no_entry(m: Seq<Member>, key: Seq<char>)
    requires
        forall|j: int| 0 <= j < m.len() ==> #[trigger] m[j].key@ != key,
    ensures
        !entries(m).dom().contains(key),
    decreases m.len(),
{
    if m.len() > 0 {
        assert(m.last().key@ != key);
        assert forall|j: int| 0 <= j < m.drop_last().len() implies #[trigger] m.drop_last()[j].key@ != key by {
            assert(m[j].key@ != key);
        }
        lemma_no_entry(m.drop_last(), key);
    }
}

/// Every key of an object is the key of one of its members.
pub proof fn lemma_entry_of(m: Seq<Member>, key: Seq<char>) -> (i: int)
    requires
        entries(m).dom().contains(key),
    ensures
        is_entry(m, key, i),
    decreases m.len(),
{
    if m.last().key@ == key {
        m.len() - 1
    } else {
        let i = lemma_entry_of(m.drop_last(), key);
        assert forall|j: int| i < j < m.len() implies #[trigger] m[j].key@ != key by {
            if j < m.len() - 1 {
                assert(m.drop_last()[j].key@ != key);
            }
        }
        i
    }
}

pub proof fn lemma_entries_finite(m: Seq<Member>)
    ensures
        entries(m).dom().finite(),
    decreases m.len(),
{
    if m.len() > 0 {
        lemma_entries_finite(m.drop_last());
    }
}

pub proof fn lemma_entries_push(m: Seq<Member>, member: Member)
    ensures
        entries(m.push(member)) == entries(m).insert(member.key@, member.value@),
{
    assert(m.push(member).drop_last() =~= m);
}

/// Putting a new value where an entry is changes that entry alone.
pub proof fn lemma_entries_update(m: Seq<Member>, i: int, member: Member)
    requires
        is_entry(m, member.key@, i),
    ensures
        entries(m.update(i, member)) == entries(m).insert(member.key@, member.value@),
    decreases m.len(),
{
    let n = m.update(i, member);
    if i == m.len() - 1 {
        assert(n.drop_last() =~= m.drop_last());
        assert(entries(n) =~= entries(m).insert(member.key@, member.value@));
    } else {
        assert(n.drop_last() =~= m.drop_last().update(i, member));
        assert(is_entry(m.drop_last(), member.key@, i));
        lemma_entries_update(m.drop_last(), i, member);
        assert(m.last().key@ != member.key@);
        assert(n.last() == m.last());
        assert(entries(n) =~= entries(m).insert(member.key@, member.value@));
    }
}

/// Where in an object the value of a key is.
pub fn find_key(m: &Vec<Member>, key: &str) -> (r: Option<usize>)
    ensures
        match r {
            Some(i) => is_entry(m@, key@, i as int) && entries(m@).dom().contains(key@)
                && entries(m@)[key@] == m@[i as int].value@,
            None => !entries(m@).dom().contains(key@),
        },
{
    let mut i: usize = m.len();
    while i > 0
        invariant
            i <= m.len(),
            forall|j: int| i <= j < m.len() ==> #[trigger] m@[j].key@ != key@,
        decreases i,
    {
        i -= 1;
        if same(&m[i].key, key) {
            proof {
                lemma_entry(m@, key@, i as int);
            }
            return Some(i);
        }
    }
    proof {
        lemma_no_entry(m@, key@);
    }
    None
}

/// The value of a key.
pub fn get<'a>(m: &'a Vec<Member>, key: &str) -> (r: Option<&'a Json>)
    ensures
        match r {
            Some(v) => entries(m@).dom().contains(key@) && entries(m@)[key@] == v@,
            None => !entries(m@).dom().contains(key@),
        },
{
    match find_key(m, key) {
        Some(i) => Some(&m[i].value),
        None => None,
    }
}

/// Gives a key a value.
pub fn put(m: &mut Vec<Member>, key: String, value: Json)
    ensures
        entries(final(m)@) == entries(old(m)@).insert(key@, value@),
{
    let member = Member { key, value };
    match find_key(m, &member.key) {
        Some(i) => {
            proof {
                lemma_entries_update(m@, i as int, member);
            }
            m.set(i, member);
        },
        None => {
            proof {
                lemma_entries_push(m@, member);
            }
            m.push(member);
        },
    }
}

pub open spec fn without_key(m: Seq<Member>, key: Seq<char>) -> Seq<Member>
    decreases m.len(),
{
    if m.len() == 0 {
        m
    } else if m.last().key@ == key {
        without_key(m.drop_last(), key)
    } else {
        without_key(m.drop_last(), key).push(m.last())
    }
}

pub proof fn lemma_without_key(m: Seq<Member>, key: Seq<char>)
    ensures
        entries(without_key(m, key)) == entries(m).remove(key),
    decreases m.len(),
{
    if m.len() == 0 {
        assert(entries(m) =~= entries(m).remove(key));
    } else {
        lemma_without_key(m.drop_last(), key);
        if m.last().key@ == key {
            assert(entries(without_key(m, key)) =~= entries(m).remove(key));
        } else {
            lemma_entries_push(without_key(m.drop_last(), key), m.last());
            assert(entries(without_key(m, key)) =~= entries(m).remove(key));
        }
    }
}

/// Takes a key out, and says whether it was there.
pub fn remove_key(m: &mut Vec<Member>, key: &str) -> (r: bool)
    ensures
        r == entries(old(m)@).dom().contains(key@),
        entries(final(m)@) == entries(old(m)@).remove(key@),
{
    let found = find_key(m, key).is_some();
    if !found {
        assert(entries(m@) =~= entries(m@).remove(key@));
        return false;
    }
    let mut kept: Vec<Member> = Vec::new();
    let mut rest: Vec<Member> = Vec::new();
    rest.append(m);
    let ghost all = rest@;
    let mut i: usize = 0;
    proof {
        lemma_without_key(all, key@);
    }
    // Members leave from the end, so they are gathered in reverse and turned round.
    let mut reversed: Vec<Member> = Vec::new();
    while rest.len() > 0
        invariant
            rest@ == all.take(rest@.len() as int),
            rest@.len() <= all.len(),
            without_key(all, key@) == without_key(rest@, key@) + reversed@.reverse(),
        decreases rest.len(),
    {
        let ghost before = rest@;
        let ghost gathered = reversed@;
        let member = rest.pop().unwrap();
        assert(rest@ =~= before.drop_last());
        if !same(&member.key, key) {
            reversed.push(member);
            assert(reversed@.reverse() =~= seq![member] + gathered.reverse());
            assert(without_key(rest@, key@).push(member) + gathered.reverse() =~= without_key(rest@, key@)
                + reversed@.reverse());
        }
    }
    assert(without_key(rest@, key@) =~= Seq::empty());
    assert(without_key(all, key@) =~= reversed@.reverse());
    let ghost turned = reversed@.reverse();
    while reversed.len() > 0
        invariant
            kept@ + reversed@.reverse() == turned,
        decreases reversed.len(),
    {
        let ghost before = reversed@;
        let ghost done = kept@;
        let member = reversed.pop().unwrap();
        kept.push(member);
        assert(before.reverse() =~= seq![member] + reversed@.reverse());
        assert(done + before.reverse() =~= kept@ + reversed@.reverse());
    }
    assert(kept@ =~= turned);
    *m = kept;
    true
}

impl Json {
    /// A copy of a value.
    pub fn copy(&self) -> (r: Json)
        ensures
            r@ == self@,
        decreases self,
    {
        match self {
            Json::Null => Json::Null,
            Json::Bool(b) => Json::Bool(*b),
            Json::Number(n) => Json::Number(
                match n {
                    Number::Unsigned(n) => Number::Unsigned(*n),
                    Number::Negative(n) => Number::Negative(*n),
                    Number::Other(s) => Number::Other(s.clone()),
                },
            ),
            Json::Text(s) => Json::Text(s.clone()),
            Json::Array(v) => Json::Array(copy_array(v)),
            Json::Object(m) => Json::Object(copy_members(m)),
        }
    }
}

/// A copy of the values of an array.
pub fn copy_array(v: &Vec<Json>) -> (r: Vec<Json>)
    ensures
        elements(r@) == elements(v@),
    decreases v,
{
    let mut out: Vec<Json> = Vec::new();
    let mut i: usize = 0;
    while i < v.len()
        invariant
            i <= v.len(),
            out@.len() == i,
            forall|j: int| 0 <= j < i ==> #[trigger] out@[j]@ == v@[j]@,
        decreases v.len() - i,
    {
        out.push(v[i].copy());
        i += 1;
    }
    assert forall|j: int| 0 <= j < v.len() implies elements(out@)[j] == elements(v@)[j] by {
        assert(out@[j]@ == v@[j]@);
    }
    assert(elements(out@) =~= elements(v@));
    out
}

/// A copy of the members of an object.
pub fn copy_members(m: &Vec<Member>) -> (r: Vec<Member>)
    ensures
        entries(r@) == entries(m@),
    decreases m,
{
    let mut out: Vec<Member> = Vec::new();
    let mut i: usize = 0;
    assert(m@.take(0) =~= Seq::empty());
    while i < m.len()
        invariant
            i <= m.len(),
            entries(out@) == entries(m@.take(i as int)),
        decreases m.len() - i,
    {
        let member = Member { key: m[i].key.clone(), value: m[i].value.copy() };
        proof {
            lemma_entries_push(out@, member);
            assert(m@.take(i + 1).drop_last() =~= m@.take(i as int));
        }
        out.push(member);
        i += 1;
    }
    assert(m@.take(i as int) =~= m@);
    out
}

/// Gives an object all the members of another, over its own.
pub fn extend_members(m: &mut Vec<Member>, more: &Vec<Member>)
    ensures
        entries(final(m)@) == entries(old(m)@).union_prefer_right(entries(more@)),
{
    let ghost start = entries(m@);
    let mut i: usize = 0;
    assert(more@.take(0) =~= Seq::empty());
    assert(start.union_prefer_right(entries(more@.take(0))) =~= start);
    while i < more.len()
        invariant
            i <= more.len(),
            entries(m@) == start.union_prefer_right(entries(more@.take(i as int))),
        decreases more.len() - i,
    {
        let ghost before = entries(more@.take(i as int));
        assert(more@.take(i + 1).drop_last() =~= more@.take(i as int));
        put(m, more[i].key.clone(), more[i].value.copy());
        assert(start.union_prefer_right(before).insert(more@[i as int].key@, more@[i as int].value@)
            =~= start.union_prefer_right(entries(more@.take(i + 1))));
        i += 1;
    }
    assert(more@.take(i as int) =~= more@);
}

/// The value of a key, or null where the key is not there.
pub open spec fn or_null(m: Map<Seq<char>, JsonModel>, key: Seq<char>) -> JsonModel {
    if m.dom().contains(key) {
        m[key]
    } else {
        JsonModel::Null
    }
}

/// `overlay` laid over `base`: objects are merged key by key, a null in the overlay takes its key
/// out, and any other value replaces what was there.
pub open spec fn merged(base: JsonModel, overlay: JsonModel) -> JsonModel
    decreases overlay,
{
    match (base, overlay) {
        (JsonModel::Object(b), JsonModel::Object(o)) => JsonModel::Object(
            Map::new(
                |k: Seq<char>|
                    if o.dom().contains(k) {
                        o[k] != JsonModel::Null
                    } else {
                        b.dom().contains(k)
                    },
                |k: Seq<char>|
                    if o.dom().contains(k) {
                        merged(or_null(b, k), o[k])
                    } else {
                        b[k]
                    },
            ),
        ),
        _ => overlay,
    }
}

/// The keys that [`merged`] gives two objects.
pub open spec fn merged_entries(
    b: Map<Seq<char>, JsonModel>,
    o: Map<Seq<char>, JsonModel>,
) -> Map<Seq<char>, JsonModel> {
    merged(JsonModel::Object(b), JsonModel::Object(o))->Object_0
}

/// Lays `overlay` over `base`.
pub fn merge_json(base: &mut Json, overlay: &Json)
    ensures
        final(base)@ == merged(old(base)@, overlay@),
    decreases overlay,
{
    if let Json::Object(o) = overlay {
        if let Json::Object(b) = base {
            merge_members(b, o);
            return;
        }
    }
    *base = overlay.copy();
}

/// The entry of `key` is among the first `n` members.
pub open spec fn entry_before(m: Seq<Member>, key: Seq<char>, n: int) -> bool {
    exists|j: int| 0 <= j < n && #[trigger] is_entry(m, key, j)
}

/// The keys whose entries are among the first `n + 1` members are those among the first `n`, and the
/// key of the next member where it counts.
pub proof fn lemma_entry_before_step(m: Seq<Member>, n: int)
    requires
        0 <= n < m.len(),
    ensures
        forall|k: Seq<char>|
            #![trigger entry_before(m, k, n + 1)]
            entry_before(m, k, n + 1) == (entry_before(m, k, n) || (is_entry(m, m[n].key@, n) && k == m[n].key@)),
        is_entry(m, m[n].key@, n) ==> !entry_before(m, m[n].key@, n),
{
    assert forall|k: Seq<char>|
        #![trigger entry_before(m, k, n + 1)]
        entry_before(m, k, n + 1) == (entry_before(m, k, n) || (is_entry(m, m[n].key@, n) && k == m[n].key@)) by {
        if entry_before(m, k, n + 1) {
            let j = choose|j: int| 0 <= j < n + 1 && #[trigger] is_entry(m, k, j);
            if j < n {
                assert(entry_before(m, k, n));
            }
        }
        if entry_before(m, k, n) {
            let j = choose|j: int| 0 <= j < n && #[trigger] is_entry(m, k, j);
            assert(0 <= j < n + 1 && is_entry(m, k, j));
        }
        if is_entry(m, m[n].key@, n) && k == m[n].key@ {
            assert(0 <= n < n + 1 && is_entry(m, k, n));
        }
    }
    if is_entry(m, m[n].key@, n) && entry_before(m, m[n].key@, n) {
        let j = choose|j: int| 0 <= j < n && #[trigger] is_entry(m, m[n].key@, j);
        assert(m[n].key@ != m[n].key@);
    }
}

pub fn merge_members(b: &mut Vec<Member>, o: &Vec<Member>)
    ensures
        entries(final(b)@) == merged_entries(entries(old(b)@), entries(o@)),
    decreases o,
{
    let ghost start = entries(b@);
    let ghost target = merged_entries(start, entries(o@));
    let mut i: usize = 0;
    while i < o.len()
        invariant
            i <= o.len(),
            target == merged_entries(start, entries(o@)),
            forall|k: Seq<char>|
                #![trigger entries(b@).dom().contains(k)]
                #![trigger entries(b@)[k]]
                if entry_before(o@, k, i as int) {
                    entries(b@).dom().contains(k) == target.dom().contains(k) && (target.dom().contains(k)
                        ==> entries(b@)[k] == target[k])
                } else {
                    entries(b@).dom().contains(k) == start.dom().contains(k) && (start.dom().contains(k)
                        ==> entries(b@)[k] == start[k])
                },
        decreases o.len() - i,
    {
        let key = &o[i].key;
        let found = find_key(o, key);
        let counts = match found {
            Some(at) => at == i,
            None => false,
        };
        let ghost before = entries(b@);
        if counts {
            proof {
                assert(is_entry(o@, key@, i as int));
                assert(entry_before(o@, key@, i + 1));
                assert forall|j: int| 0 <= j < i implies !is_entry(o@, key@, j) by {
                    assert(o@[i as int].key@ == key@);
                }
                assert(!entry_before(o@, key@, i as int));
                assert(before.dom().contains(key@) == start.dom().contains(key@));
                assert(before.dom().contains(key@) ==> before[key@] == start[key@]);
            }
            let is_null = match &o[i].value {
                Json::Null => true,
                _ => false,
            };
            if is_null {
                remove_key(b, key);
                assert(entries(b@) == before.remove(key@));
            } else {
                let mut value = match find_key(b, key) {
                    Some(at) => b[at].value.copy(),
                    None => Json::Null,
                };
                merge_json(&mut value, &o[i].value);
                put(b, key.clone(), value);
                assert(entries(b@) == before.insert(key@, target[key@]));
            }
        } else {
            assert(!is_entry(o@, key@, i as int)) by {
                if is_entry(o@, key@, i as int) {
                    lemma_entry(o@, key@, i as int);
                    let at = found->0;
                    assert(o@[at as int].key@ == key@ && o@[i as int].key@ == key@);
                }
            }
        }
        assert forall|k: Seq<char>| entry_before(o@, k, i + 1) == (entry_before(o@, k, i as int) || (counts && k
            == key@)) by {
            if entry_before(o@, k, i + 1) {
                let j = choose|j: int| 0 <= j < i + 1 && #[trigger] is_entry(o@, k, j);
                if j == i {
                    assert(k == key@);
                } else {
                    assert(entry_before(o@, k, i as int));
                }
            }
            if entry_before(o@, k, i as int) {
                let j = choose|j: int| 0 <= j < i && #[trigger] is_entry(o@, k, j);
                assert(0 <= j < i + 1 && is_entry(o@, k, j));
            }
        }
        i += 1;
    }
    assert forall|k: Seq<char>| entry_before(o@, k, o@.len() as int) == entries(o@).dom().contains(k) by {
        if entries(o@).dom().contains(k) {
            let j = lemma_entry_of(o@, k);
            assert(0 <= j < o@.len() && is_entry(o@, k, j));
        }
        if entry_before(o@, k, o@.len() as int) {
            let j = choose|j: int| 0 <= j < o@.len() && #[trigger] is_entry(o@, k, j);
            lemma_entry(o@, k, j);
        }
    }
    assert(entries(b@) =~= target);
}

/// No null stands anywhere in the objects of a value.
pub open spec fn no_nulls(v: JsonModel) -> bool
    decreases v,
{
    match v {
        JsonModel::Null => false,
        JsonModel::Object(m) => forall|k: Seq<char>| m.dom().contains(k) ==> no_nulls(#[trigger] m[k]),
        _ => true,
    }
}

proof fn lemma_no_nulls_inside(v: JsonModel, k: Seq<char>)
    requires
        no_nulls(v),
        v is Object,
        v->Object_0.dom().contains(k),
    ensures
        no_nulls(v->Object_0[k]),
        v->Object_0[k] != JsonModel::Null,
{
    let m = v->Object_0;
    assert(forall|k: Seq<char>| m.dom().contains(k) ==> no_nulls(#[trigger] m[k]));
}

/// Laying the same overlay over a value twice is laying it over once, where the overlay takes
/// no key out.
pub proof fn law_merge_is_idempotent(base: JsonModel, overlay: JsonModel)
    requires
        no_nulls(overlay),
    ensures
        merged(merged(base, overlay), overlay) == merged(base, overlay),
    decreases overlay,
{
    match overlay {
        JsonModel::Object(o) => {
            match merged(base, overlay) {
                JsonModel::Object(once) => {
                    let twice = merged_entries(once, o);
                    assert forall|k: Seq<char>| o.dom().contains(k) implies once.dom().contains(k)
                        && twice.dom().contains(k) && twice[k] == once[k] by {
                        lemma_no_nulls_inside(overlay, k);
                        match base {
                            JsonModel::Object(b) => law_merge_is_idempotent(or_null(b, k), o[k]),
                            _ => law_merge_over_itself(o[k]),
                        }
                    }
                    assert(twice =~= once);
                },
                _ => {},
            }
        },
        _ => {},
    }
}

/// A value without nulls laid over itself stays as it is.
pub proof fn law_merge_over_itself(v: JsonModel)
    requires
        no_nulls(v),
    ensures
        merged(v, v) == v,
    decreases v,
{
    match v {
        JsonModel::Object(m) => {
            assert forall|k: Seq<char>| m.dom().contains(k) implies merged_entries(m, m).dom().contains(k)
                && merged_entries(m, m)[k] == m[k] by {
                lemma_no_nulls_inside(v, k);
                law_merge_over_itself(m[k]);
            }
            assert(merged_entries(m, m) =~= m);
        },
        _ => {},
    }
}

/// An empty overlay changes no object.
pub proof fn law_merge_empty(b: Map<Seq<char>, JsonModel>)
    ensures
        merged(JsonModel::Object(b), JsonModel::Object(Map::empty())) == JsonModel::Object(b),
{
    assert(merged_entries(b, Map::empty()) =~= b);
}

/// The value under a path of keys.
pub open spec fn value_at(v: JsonModel, path: Seq<Seq<char>>) -> Option<JsonModel>
    decreases path.len(),
{
    if path.len() == 0 {
        Some(v)
    } else {
        match v {
            JsonModel::Object(m) => if m.dom().contains(path[0]) {
                value_at(m[path[0]], path.drop_first())
            } else {
                None
            },
            _ => None,
        }
    }
}

/// A path of keys can be given a value: what stands on the way to its last key is an object or
/// is not there.
pub open spec fn can_set(v: JsonModel, path: Seq<Seq<char>>) -> bool
    decreases path.len(),
{
    match v {
        JsonModel::Object(m) => path.len() == 1 || (path.len() > 1 && (m.dom().contains(path[0]) ==> can_set(
            m[path[0]],
            path.drop_first(),
        ))),
        _ => false,
    }
}

/// `v` with `new` under a path of keys; objects on the way that are not there are made.
pub open spec fn with_value(v: JsonModel, path: Seq<Seq<char>>, new: JsonModel) -> JsonModel
    decreases path.len(),
{
    match v {
        JsonModel::Object(m) => if path.len() == 0 {
            v
        } else if path.len() == 1 {
            JsonModel::Object(m.insert(path[0], new))
        } else {
            let child = if m.dom().contains(path[0]) {
                m[path[0]]
            } else {
                JsonModel::Object(Map::empty())
            };
            JsonModel::Object(m.insert(path[0], with_value(child, path.drop_first(), new)))
        },
        _ => v,
    }
}

/// `v` without what stands under a path of keys.
pub open spec fn without_value(v: JsonModel, path: Seq<Seq<char>>) -> JsonModel
    decreases path.len(),
{
    match v {
        JsonModel::Object(m) => if path.len() == 0 {
            v
        } else if path.len() == 1 {
            JsonModel::Object(m.remove(path[0]))
        } else if m.dom().contains(path[0]) {
            JsonModel::Object(m.insert(path[0], without_value(m[path[0]], path.drop_first())))
        } else {
            v
        },
        _ => v,
    }
}

/// What was set under a path is what is then read there.
pub proof fn law_set_then_get(v: JsonModel, path: Seq<Seq<char>>, new: JsonModel)
    requires
        path.len() > 0,
        can_set(v, path),
    ensures
        value_at(with_value(v, path, new), path) == Some(new),
    decreases path.len(),
{
    let m = v->Object_0;
    if path.len() == 1 {
        assert(value_at(new, path.drop_first()) == Some(new));
    } else {
        let child = if m.dom().contains(path[0]) {
            m[path[0]]
        } else {
            JsonModel::Object(Map::empty())
        };
        assert(can_set(child, path.drop_first()));
        law_set_then_get(child, path.drop_first(), new);
    }
}

/// Two paths go apart: neither is the beginning of the other.
pub open spec fn paths_part(a: Seq<Seq<char>>, b: Seq<Seq<char>>) -> bool {
    exists|i: int| 0 <= i < a.len() && i < b.len() && a[i] != b[i]
}

proof fn lemma_paths_part_later(a: Seq<Seq<char>>, b: Seq<Seq<char>>)
    requires
        paths_part(a, b),
        a[0] == b[0],
    ensures
        paths_part(a.drop_first(), b.drop_first()),
{
    let i = choose|i: int| 0 <= i < a.len() && i < b.len() && a[i] != b[i];
    assert(a.drop_first()[i - 1] != b.drop_first()[i - 1]);
}

/// Setting one path leaves what stands under any path that goes apart from it.
pub proof fn law_set_keeps_other_keys(v: JsonModel, path: Seq<Seq<char>>, new: JsonModel, other: Seq<Seq<char>>)
    requires
        paths_part(path, other),
    ensures
        value_at(with_value(v, path, new), other) == value_at(v, other),
    decreases path.len(),
{
    if path[0] == other[0] {
        lemma_paths_part_later(path, other);
        if let JsonModel::Object(m) = v {
            if path.len() > 1 {
                let child = if m.dom().contains(path[0]) {
                    m[path[0]]
                } else {
                    JsonModel::Object(Map::empty())
                };
                law_set_keeps_other_keys(child, path.drop_first(), new, other.drop_first());
            }
        }
    }
}

/// Taking out one path leaves what stands under any path that goes apart from it.
pub proof fn law_remove_keeps_other_keys(v: JsonModel, path: Seq<Seq<char>>, other: Seq<Seq<char>>)
    requires
        paths_part(path, other),
    ensures
        value_at(without_value(v, path), other) == value_at(v, other),
    decreases path.len(),
{
    if path[0] == other[0] {
        lemma_paths_part_later(path, other);
        if let JsonModel::Object(m) = v {
            if path.len() > 1 && m.dom().contains(path[0]) {
                law_remove_keeps_other_keys(m[path[0]], path.drop_first(), other.drop_first());
            }
        }
    }
}

/// Nothing is read where a path was taken out.
pub proof fn law_remove_then_get(v: JsonModel, path: Seq<Seq<char>>)
    requires
        path.len() > 0,
    ensures
        value_at(without_value(v, path), path) is None,
    decreases path.len(),
{
    match v {
        JsonModel::Object(m) => {
            if path.len() > 1 && m.dom().contains(path[0]) {
                law_remove_then_get(m[path[0]], path.drop_first());
            }
        },
        _ => {},
    }
}

/// A value of an overlay that is neither null nor an object is read from the merged value,
/// whatever stood there before.
pub proof fn law_overlay_wins(base: JsonModel, overlay: JsonModel, path: Seq<Seq<char>>)
    requires
        value_at(overlay, path) is Some,
        value_at(overlay, path)->0 !is Null,
        value_at(overlay, path)->0 !is Object,
    ensures
        value_at(merged(base, overlay), path) == value_at(overlay, path),
    decreases path.len(),
{
    if path.len() > 0 {
        match (base, overlay) {
            (JsonModel::Object(b), JsonModel::Object(o)) => {
                if path.len() == 1 {
                    assert(value_at(o[path[0]], path.drop_first()) == Some(o[path[0]]));
                }
                assert(o[path[0]] != JsonModel::Null) by {
                    if o[path[0]] == JsonModel::Null {
                        assert(value_at(JsonModel::Null, path.drop_first()) == value_at(overlay, path));
                    }
                }
                law_overlay_wins(or_null(b, path[0]), o[path[0]], path.drop_first());
            },
            _ => {},
        }
    }
}

/// A key that the overlay does not name keeps its value.
pub proof fn law_merge_keeps_other_keys(base: JsonModel, overlay: JsonModel, path: Seq<Seq<char>>)
    requires
        base is Object,
        overlay is Object,
        path.len() > 0,
        !overlay->Object_0.dom().contains(path[0]),
    ensures
        value_at(merged(base, overlay), path) == value_at(base, path),
{
}

/// The text of a zero with a fraction, whatever its sign.
pub open spec fn is_zero_text(text: Seq<char>) -> bool {
    text == "0.0"@ || text == "-0.0"@
}

/// Two numbers of one value. Numbers with a fraction are given by their shortest text, so only the two
/// zeros have different texts and one value.
pub open spec fn same_number(a: NumberModel, b: NumberModel) -> bool {
    match (a, b) {
        (NumberModel::Other(x), NumberModel::Other(y)) => x == y || (is_zero_text(x) && is_zero_text(y)),
        _ => a == b,
    }
}

/// Two values that compare as equal.
pub open spec fn same_json(a: JsonModel, b: JsonModel) -> bool
    decreases a,
{
    match (a, b) {
        (JsonModel::Number(x), JsonModel::Number(y)) => same_number(x, y),
        (JsonModel::Array(x), JsonModel::Array(y)) => x.len() == y.len() && forall|i: int|
            0 <= i < x.len() ==> same_json(#[trigger] x[i], y[i]),
        (JsonModel::Object(x), JsonModel::Object(y)) => {
            &&& forall|k: Seq<char>| #[trigger] x.dom().contains(k) ==> y.dom().contains(k) && same_json(x[k], y[k])
            &&& forall|k: Seq<char>| #[trigger] y.dom().contains(k) ==> x.dom().contains(k)
        },
        _ => a == b,
    }
}

/// Two values that may be missing and compare as equal.
pub open spec fn same_opt(a: Option<JsonModel>, b: Option<JsonModel>) -> bool {
    match (a, b) {
        (Some(x), Some(y)) => same_json(x, y),
        _ => a == b,
    }
}

/// A value is equal to itself.
pub proof fn law_same_json_reflexive(a: JsonModel)
    ensures
        same_json(a, a),
    decreases a,
{
    match a {
        JsonModel::Array(x) => {
            assert forall|i: int| 0 <= i < x.len() implies same_json(#[trigger] x[i], x[i]) by {
                law_same_json_reflexive(x[i]);
            }
        },
        JsonModel::Object(x) => {
            assert forall|k: Seq<char>| #[trigger] x.dom().contains(k) implies x.dom().contains(k) && same_json(
                x[k],
                x[k],
            ) by {
                law_same_json_reflexive(x[k]);
            }
        },
        _ => {},
    }
}

/// Equality holds both ways.
pub proof fn law_same_json_symmetric(a: JsonModel, b: JsonModel)
    requires
        same_json(a, b),
    ensures
        same_json(b, a),
    decreases a,
{
    match (a, b) {
        (JsonModel::Array(x), JsonModel::Array(y)) => {
            assert forall|i: int| 0 <= i < y.len() implies same_json(#[trigger] y[i], x[i]) by {
                assert(same_json(x[i], y[i]));
                law_same_json_symmetric(x[i], y[i]);
            }
        },
        (JsonModel::Object(x), JsonModel::Object(y)) => {
            assert forall|k: Seq<char>| #[trigger] y.dom().contains(k) implies x.dom().contains(k) && same_json(
                y[k],
                x[k],
            ) by {
                assert(x.dom().contains(k));
                law_same_json_symmetric(x[k], y[k]);
            }
        },
        _ => {},
    }
}

proof fn lemma_same_objects(a: JsonModel, b: JsonModel)
    requires
        a is Object,
        b is Object,
        same_json(a, b),
    ensures
        forall|k: Seq<char>| #[trigger]
            a->Object_0.dom().contains(k) ==> b->Object_0.dom().contains(k) && same_json(a->Object_0[k], b->Object_0[k]),
        forall|k: Seq<char>| #[trigger] b->Object_0.dom().contains(k) ==> a->Object_0.dom().contains(k),
{
    match (a, b) {
        (JsonModel::Object(x), JsonModel::Object(y)) => {
            assert forall|k: Seq<char>| #[trigger] x.dom().contains(k) implies y.dom().contains(k) && same_json(x[k], y[k]) by {}
            assert forall|k: Seq<char>| #[trigger] y.dom().contains(k) implies x.dom().contains(k) by {}
        },
        _ => {},
    }
}

proof fn lemma_objects_compared(a: JsonModel, b: JsonModel, forth: bool, back: bool)
    requires
        a is Object,
        b is Object,
        forth == (forall|k: Seq<char>| #[trigger]
            a->Object_0.dom().contains(k) ==> b->Object_0.dom().contains(k) && same_json(a->Object_0[k], b->Object_0[k])),
        back == (forall|k: Seq<char>| #[trigger] b->Object_0.dom().contains(k) ==> a->Object_0.dom().contains(k)),
    ensures
        same_json(a, b) == (forth && back),
{
    if same_json(a, b) {
        lemma_same_objects(a, b);
    }
}

fn is_zero(text: &str) -> (r: bool)
    ensures
        r == is_zero_text(text@),
{
    same(text, "0.0") || same(text, "-0.0")
}

impl Json {
    /// Whether two values compare as equal.
    pub fn same(&self, other: &Json) -> (r: bool)
        ensures
            r == same_json(self@, other@),
        decreases self,
    {
        match (self, other) {
            (Json::Null, Json::Null) => true,
            (Json::Bool(a), Json::Bool(b)) => *a == *b,
            (Json::Number(a), Json::Number(b)) => match (a, b) {
                (Number::Unsigned(x), Number::Unsigned(y)) => *x == *y,
                (Number::Negative(x), Number::Negative(y)) => *x == *y,
                (Number::Other(x), Number::Other(y)) => same(x, y) || (is_zero(x) && is_zero(y)),
                _ => false,
            },
            (Json::Text(a), Json::Text(b)) => same(a, b),
            (Json::Array(a), Json::Array(b)) => same_elements(a, b),
            (Json::Object(a), Json::Object(b)) => {
                let all = members_within(a, b);
                let back = keys_within(b, a);
                proof {
                    let x = entries(a@);
                    let y = entries(b@);
                    assert(self@ == JsonModel::Object(x) && other@ == JsonModel::Object(y));
                    assert(all == (forall|k: Seq<char>| #[trigger]
                        x.dom().contains(k) ==> y.dom().contains(k) && same_json(x[k], y[k])));
                    let p = JsonModel::Object(x);
                    let q = JsonModel::Object(y);
                    assert(p->Object_0 == x && q->Object_0 == y);
                    assert forall|k: Seq<char>| x.dom().contains(k) == p->Object_0.dom().contains(k) by {}
                    lemma_objects_compared(p, q, all, back);
                }
                all && back
            },
            _ => false,
        }
    }
}

fn same_elements(a: &Vec<Json>, b: &Vec<Json>) -> (r: bool)
    ensures
        r == same_json(JsonModel::Array(elements(a@)), JsonModel::Array(elements(b@))),
    decreases a,
{
    if a.len() != b.len() {
        assert(elements(a@).len() != elements(b@).len());
        return false;
    }
    let mut i: usize = 0;
    while i < a.len()
        invariant
            i <= a.len() == b.len(),
            forall|j: int| 0 <= j < i ==> same_json(#[trigger] a@[j]@, b@[j]@),
        decreases a.len() - i,
    {
        if !a[i].same(&b[i]) {
            assert(elements(a@)[i as int] == a@[i as int]@);
            assert(elements(b@)[i as int] == b@[i as int]@);
            return false;
        }
        i += 1;
    }
    assert forall|j: int| 0 <= j < a.len() implies same_json(#[trigger] elements(a@)[j], elements(b@)[j]) by {
        assert(same_json(a@[j]@, b@[j]@));
    }
    true
}

/// Whether every key of `a` is a key of `b`.
fn keys_within(a: &Vec<Member>, b: &Vec<Member>) -> (r: bool)
    ensures
        r == (forall|k: Seq<char>| #[trigger] entries(a@).dom().contains(k) ==> entries(b@).dom().contains(k)),
{
    let mut i: usize = 0;
    while i < a.len()
        invariant
            i <= a.len(),
            forall|j: int| 0 <= j < i ==> entries(b@).dom().contains(#[trigger] a@[j].key@),
        decreases a.len() - i,
    {
        if find_key(b, &a[i].key).is_none() {
            let found = find_key(a, &a[i].key);
            proof {
                if found is None {
                    lemma_key_counts(a@, i as int);
                }
                assert(entries(a@).dom().contains(a@[i as int].key@));
            }
            return false;
        }
        i += 1;
    }
    assert forall|k: Seq<char>| #[trigger] entries(a@).dom().contains(k) implies entries(b@).dom().contains(k) by {
        let j = lemma_entry_of(a@, k);
        assert(entries(b@).dom().contains(a@[j].key@));
    }
    true
}

/// The key of each member is a key of the object.
pub proof fn lemma_key_counts(m: Seq<Member>, i: int)
    requires
        0 <= i < m.len(),
    ensures
        entries(m).dom().contains(m[i].key@),
    decreases m.len(),
{
    if i < m.len() - 1 {
        lemma_key_counts(m.drop_last(), i);
    }
}

/// Whether `b` has every key of `a` with the same value.
fn members_within(a: &Vec<Member>, b: &Vec<Member>) -> (r: bool)
    ensures
        r == (forall|k: Seq<char>|
            #[trigger] entries(a@).dom().contains(k) ==> entries(b@).dom().contains(k) && same_json(
                entries(a@)[k],
                entries(b@)[k],
            )),
    decreases a,
{
    let mut i: usize = 0;
    while i < a.len()
        invariant
            i <= a.len(),
            forall|j: int|
                0 <= j < i && is_entry(a@, a@[j].key@, j) ==> entries(b@).dom().contains(#[trigger] a@[j].key@)
                    && same_json(entries(a@)[a@[j].key@], entries(b@)[a@[j].key@]),
        decreases a.len() - i,
    {
        let counts = match find_key(a, &a[i].key) {
            Some(at) => at == i,
            None => false,
        };
        if counts {
            let ghost key = a@[i as int].key@;
            assert(entries(a@).dom().contains(key) && entries(a@)[key] == a@[i as int].value@);
            match find_key(b, &a[i].key) {
                None => {
                    return false;
                },
                Some(at) => {
                    if !a[i].value.same(&b[at].value) {
                        return false;
                    }
                },
            }
        } else {
            assert(!is_entry(a@, a@[i as int].key@, i as int)) by {
                if is_entry(a@, a@[i as int].key@, i as int) {
                    lemma_entry(a@, a@[i as int].key@, i as int);
                }
            }
        }
        i += 1;
    }
    assert forall|k: Seq<char>| #[trigger] entries(a@).dom().contains(k) implies entries(b@).dom().contains(k)
        && same_json(entries(a@)[k], entries(b@)[k]) by {
        let j = lemma_entry_of(a@, k);
        assert(is_entry(a@, a@[j].key@, j));
    }
    true
}

/// Why a dotted key cannot be used.
#[derive(PartialEq, Eq, Structural, Clone, Copy, Debug)]
pub enum KeyError {
    EmptySegment,
    ParentNotObject,
}

/// A dotted key has no segment that is empty or white space alone.
pub open spec fn segments_valid(segments: Seq<Seq<char>>) -> bool {
    forall|i: int| 0 <= i < segments.len() ==> trimmed(#[trigger] segments[i]).len() > 0
}

/// The segments of a dotted key.
pub fn dotted_segments(key: &str) -> (r: Result<Vec<String>, KeyError>)
    ensures
        match r {
            Ok(v) => texts(v@) == pieces(key@, '.') && segments_valid(pieces(key@, '.')) && v.len() > 0,
            Err(e) => e == KeyError::EmptySegment && !segments_valid(pieces(key@, '.')),
        },
{
    let segments = split_at_char(key, '.');
    let mut i: usize = 0;
    while i < segments.len()
        invariant
            i <= segments.len(),
            texts(segments@) == pieces(key@, '.'),
            forall|j: int| 0 <= j < i ==> trimmed(#[trigger] pieces(key@, '.')[j]).len() > 0,
        decreases segments.len() - i,
    {
        let segment = trim(&segments[i]);
        assert(segment@ == trimmed(pieces(key@, '.')[i as int]));
        if segment.as_str().is_empty() {
            return Err(KeyError::EmptySegment);
        }
        i += 1;
    }
    Ok(segments)
}

/// The value under a dotted key.
pub fn get_dotted<'a>(value: &'a Json, key: &str) -> (r: Option<&'a Json>)
    ensures
        match r {
            Some(v) => segments_valid(pieces(key@, '.')) && value_at(value@, pieces(key@, '.')) == Some(v@),
            None => !segments_valid(pieces(key@, '.')) || value_at(value@, pieces(key@, '.')) is None,
        },
{
    let segments = match dotted_segments(key) {
        Ok(segments) => segments,
        Err(_) => {
            return None;
        },
    };
    let ghost path = pieces(key@, '.');
    let mut current = value;
    let mut i: usize = 0;
    assert(path.skip(0) =~= path);
    while i < segments.len()
        invariant
            i <= segments.len(),
            path == texts(segments@),
            path == pieces(key@, '.'),
            segments_valid(path),
            value_at(value@, path) == value_at(current@, path.skip(i as int)),
        decreases segments.len() - i,
    {
        assert(path.skip(i as int).drop_first() =~= path.skip(i + 1));
        match current {
            Json::Object(m) => match get(m, &segments[i]) {
                Some(next) => {
                    current = next;
                },
                None => {
                    return None;
                },
            },
            _ => {
                return None;
            },
        }
        i += 1;
    }
    Some(current)
}

/// Gives a dotted key a value; a key that cannot be used leaves everything as it was.
pub fn set_dotted(value: &mut Json, key: &str, new_value: Json) -> (r: Result<(), KeyError>)
    ensures
        match r {
            Ok(()) => segments_valid(pieces(key@, '.')) && can_set(old(value)@, pieces(key@, '.')) && final(value)@
                == with_value(old(value)@, pieces(key@, '.'), new_value@),
            Err(KeyError::EmptySegment) => !segments_valid(pieces(key@, '.')) && final(value)@ == old(value)@,
            Err(KeyError::ParentNotObject) => segments_valid(pieces(key@, '.')) && !can_set(
                old(value)@,
                pieces(key@, '.'),
            ) && final(value)@ == old(value)@,
        },
{
    let segments = match dotted_segments(key) {
        Ok(segments) => segments,
        Err(e) => {
            return Err(e);
        },
    };
    assert(texts(segments@).skip(0) =~= texts(segments@));
    set_under(value, &segments, 0, new_value)
}

fn set_under(value: &mut Json, segments: &Vec<String>, at: usize, new_value: Json) -> (r: Result<(), KeyError>)
    requires
        at < segments.len(),
    ensures
        match r {
            Ok(()) => can_set(old(value)@, texts(segments@).skip(at as int)) && final(value)@ == with_value(
                old(value)@,
                texts(segments@).skip(at as int),
                new_value@,
            ),
            Err(e) => e == KeyError::ParentNotObject && !can_set(old(value)@, texts(segments@).skip(at as int))
                && final(value)@ == old(value)@,
        },
    decreases segments.len() - at,
{
    let ghost path = texts(segments@).skip(at as int);
    assert(path.drop_first() =~= texts(segments@).skip(at + 1));
    match value {
        Json::Object(m) => {
            if at + 1 == segments.len() {
                put(m, segments[at].clone(), new_value);
                return Ok(());
            }
            let mut child = match find_key(m, &segments[at]) {
                Some(i) => m[i].value.copy(),
                None => {
                    let object = Json::Object(Vec::new());
                    assert(object@ == JsonModel::Object(Map::empty()));
                    object
                },
            };
            match set_under(&mut child, segments, at + 1, new_value) {
                Ok(()) => {
                    put(m, segments[at].clone(), child);
                    Ok(())
                },
                Err(e) => Err(e),
            }
        },
        _ => Err(KeyError::ParentNotObject),
    }
}

/// What taking a path out meets: `Some(true)` where the last key is there, `Some(false)` where it or
/// an object on the way is not, `None` where the last object on the way is no object.
pub open spec fn removal(v: JsonModel, path: Seq<Seq<char>>) -> Option<bool>
    decreases path.len(),
{
    if path.len() <= 1 {
        match v {
            JsonModel::Object(m) => Some(path.len() == 1 && m.dom().contains(path[0])),
            _ => None,
        }
    } else {
        match v {
            JsonModel::Object(m) => if m.dom().contains(path[0]) {
                removal(m[path[0]], path.drop_first())
            } else {
                Some(false)
            },
            _ => Some(false),
        }
    }
}

/// Takes a dotted key out, and says whether it was there.
pub fn remove_dotted(value: &mut Json, key: &str) -> (r: Result<bool, KeyError>)
    ensures
        match r {
            Ok(found) => segments_valid(pieces(key@, '.')) && removal(old(value)@, pieces(key@, '.')) == Some(found)
                && final(value)@ == without_value(old(value)@, pieces(key@, '.')),
            Err(KeyError::EmptySegment) => !segments_valid(pieces(key@, '.')) && final(value)@ == old(value)@,
            Err(KeyError::ParentNotObject) => segments_valid(pieces(key@, '.')) && removal(
                old(value)@,
                pieces(key@, '.'),
            ) is None && final(value)@ == old(value)@,
        },
{
    let segments = match dotted_segments(key) {
        Ok(segments) => segments,
        Err(e) => {
            return Err(e);
        },
    };
    assert(texts(segments@).skip(0) =~= texts(segments@));
    remove_under(value, &segments, 0)
}

fn remove_under(value: &mut Json, segments: &Vec<String>, at: usize) -> (r: Result<bool, KeyError>)
    requires
        at < segments.len(),
    ensures
        match r {
            Ok(found) => removal(old(value)@, texts(segments@).skip(at as int)) == Some(found) && final(value)@
                == without_value(old(value)@, texts(segments@).skip(at as int)),
            Err(e) => e == KeyError::ParentNotObject && removal(old(value)@, texts(segments@).skip(at as int)) is None
                && final(value)@ == old(value)@,
        },
    decreases segments.len() - at,
{
    let ghost path = texts(segments@).skip(at as int);
    assert(path.drop_first() =~= texts(segments@).skip(at + 1));
    match value {
        Json::Object(m) => {
            if at + 1 == segments.len() {
                return Ok(remove_key(m, &segments[at]));
            }
            match find_key(m, &segments[at]) {
                Some(i) => {
                    let mut child = m[i].value.copy();
                    match remove_under(&mut child, segments, at + 1) {
                        Ok(found) => {
                            put(m, segments[at].clone(), child);
                            Ok(found)
                        },
                        Err(e) => Err(e),
                    }
                },
                None => Ok(false),
            }
        },
        _ => {
            if at + 1 == segments.len() {
                Err(KeyError::ParentNotObject)
            } else {
                Ok(false)
            }
        },
    }
}

} // verus!
