//! References between instances, kept as JSON objects, and what becomes of them when instances move.
use vstd::prelude::*;

use crate::json::{
    elements, entries, find_key, get, is_entry, lemma_entry, lemma_entry_of, put, Json, JsonModel, Member, Number, NumberModel,
};
use crate::link_apply::value_of;
use crate::table::Table;
use crate::text::{clone_numbers, same, same_numbers, texts};
use crate::wally_sync::PathKey;

verus! {

broadcast use vstd::seq_lib::group_seq_properties;

/// The ordinals of the instances that share a path.
pub struct OrdinalLists {
    pub lists: Vec<Vec<usize>>,
}

impl View for OrdinalLists {
    type V = Seq<Seq<usize>>;

    open spec fn view(&self) -> Seq<Seq<usize>> {
        Seq::new(self.lists@.len(), |i: int| self.lists@[i]@)
    }
}

/// How the instances of a document that is mounted somewhere are renamed.
pub struct MountedReferenceRemapper {
    /// The new settings id of each old one.
    pub ids: Table<String, String>,
    /// The new index of each old one.
    pub indices: Table<usize, usize>,
    /// Where the document is mounted.
    pub target: Vec<String>,
    pub target_ordinals: Vec<usize>,
    /// The paths inside the document, with the ordinals of the instances at each.
    pub internal_paths: Table<PathKey, OrdinalLists>,
    /// How many segments at the start of an inside path the target stands for.
    pub path_root_components: usize,
}

#[verifier::ext_equal]
pub struct RemapModel {
    pub ids: Map<Seq<char>, Seq<char>>,
    pub indices: Map<usize, usize>,
    pub target: Seq<Seq<char>>,
    pub target_ordinals: Seq<usize>,
    pub internal_paths: Map<Seq<Seq<char>>, Seq<Seq<usize>>>,
    pub path_root_components: usize,
}

impl View for MountedReferenceRemapper {
    type V = RemapModel;

    open spec fn view(&self) -> RemapModel {
        RemapModel {
            ids: self.ids@,
            indices: self.indices@,
            target: texts(self.target@),
            target_ordinals: self.target_ordinals@,
            internal_paths: self.internal_paths@,
            path_root_components: self.path_root_components,
        }
    }
}

/// Why a reference can not be renamed.
#[derive(PartialEq, Eq, Structural, Clone, Copy, Debug)]
pub enum ReferenceError {
    /// There is not one ordinal for each segment of a path.
    OrdinalCount,
    /// A path names several instances, and no ordinals pick one.
    Ambiguous,
    /// Some fields name an instance inside the document, and others one outside.
    Contradictory,
    /// A reference in a package names an instance outside it.
    External { index: usize },
    /// The fields of a reference name nothing, or different instances.
    Invalid,
}

/// An object that stands for a reference.
pub open spec fn is_reference(o: Map<Seq<char>, JsonModel>) -> bool {
    value_of(o, "_type"@) == Some(JsonModel::Text("Ref"@))
}

/// The text under a key.
pub open spec fn text_field(o: Map<Seq<char>, JsonModel>, key: Seq<char>) -> Option<Seq<char>> {
    match value_of(o, key) {
        Some(JsonModel::Text(s)) => Some(s),
        _ => None,
    }
}

/// The index, counted from nought, that an object gives counted from one.
pub open spec fn index_field(o: Map<Seq<char>, JsonModel>) -> Option<usize> {
    match value_of(o, "instanceIndex"@) {
        Some(JsonModel::Number(NumberModel::Unsigned(n))) => if 1 <= n && n <= usize::MAX {
            Some((n - 1) as usize)
        } else {
            None
        },
        _ => None,
    }
}

/// An array whose items are all texts.
pub open spec fn all_texts(items: Seq<JsonModel>) -> bool {
    forall|i: int| 0 <= i < items.len() ==> (#[trigger] items[i]) is Text
}

pub open spec fn texts_in(items: Seq<JsonModel>) -> Seq<Seq<char>> {
    Seq::new(items.len(), |i: int| items[i]->Text_0)
}

/// The path that an object gives.
pub open spec fn path_field(o: Map<Seq<char>, JsonModel>) -> Option<Seq<Seq<char>>> {
    match value_of(o, "pathSegments"@) {
        Some(JsonModel::Array(items)) => if all_texts(items) {
            Some(texts_in(items))
        } else {
            None
        },
        _ => None,
    }
}

/// A positive whole number that the machine can count to.
pub open spec fn is_ordinal(v: JsonModel) -> bool {
    v matches JsonModel::Number(NumberModel::Unsigned(n)) && 1 <= n && n <= usize::MAX
}

pub open spec fn all_ordinals(items: Seq<JsonModel>) -> bool {
    forall|i: int| 0 <= i < items.len() ==> is_ordinal(#[trigger] items[i])
}

pub open spec fn ordinals_in(items: Seq<JsonModel>) -> Seq<usize> {
    Seq::new(items.len(), |i: int| items[i]->Number_0->Unsigned_0 as usize)
}

/// The ordinals that an object gives.
pub open spec fn ordinals_field(o: Map<Seq<char>, JsonModel>) -> Option<Seq<usize>> {
    match value_of(o, "pathOrdinals"@) {
        Some(JsonModel::Array(items)) => if all_ordinals(items) {
            Some(ordinals_in(items))
        } else {
            None
        },
        _ => None,
    }
}

/// Whether fields name an instance inside the document, and whether they name one outside; and the
/// ordinals of the inside path, where one is named.
#[verifier::ext_equal]
pub struct Signals {
    pub internal: bool,
    pub external: bool,
    pub ordinals: Option<Seq<usize>>,
}

/// What an id field says.
pub open spec fn id_signal(r: RemapModel, o: Map<Seq<char>, JsonModel>, key: Seq<char>) -> (bool, bool) {
    match text_field(o, key) {
        Some(old_id) => (r.ids.dom().contains(old_id), !r.ids.dom().contains(old_id) && old_id.len() > 0),
        None => (false, false),
    }
}

/// What the index field says.
pub open spec fn index_signal(r: RemapModel, o: Map<Seq<char>, JsonModel>) -> (bool, bool) {
    match index_field(o) {
        Some(i) => (r.indices.dom().contains(i), !r.indices.dom().contains(i)),
        None => (false, false),
    }
}

/// What the path fields say.
pub open spec fn path_signal(r: RemapModel, o: Map<Seq<char>, JsonModel>) -> Result<Signals, ReferenceError> {
    let nothing = Signals { internal: false, external: false, ordinals: None };
    match path_field(o) {
        None => Ok(nothing),
        Some(path) => if r.internal_paths.dom().contains(path) {
            let candidates = r.internal_paths[path];
            match ordinals_field(o) {
                Some(ordinals) => if ordinals.len() != path.len() {
                    Err(ReferenceError::OrdinalCount)
                } else if candidates.contains(ordinals) {
                    Ok(Signals { internal: true, external: false, ordinals: Some(ordinals) })
                } else {
                    Ok(Signals { internal: false, external: true, ordinals: None })
                },
                None => if candidates.len() == 1 {
                    Ok(Signals { internal: true, external: false, ordinals: Some(candidates[0]) })
                } else {
                    Err(ReferenceError::Ambiguous)
                },
            }
        } else {
            Ok(Signals { internal: false, external: path.len() > 0, ordinals: None })
        },
    }
}

/// What all fields of a reference say. Fields that contradict each other are an error.
pub open spec fn signals(r: RemapModel, o: Map<Seq<char>, JsonModel>) -> Result<Signals, ReferenceError> {
    let a = id_signal(r, o, "settingsId"@);
    let b = id_signal(r, o, "instanceId"@);
    let c = index_signal(r, o);
    match path_signal(r, o) {
        Err(e) => Err(e),
        Ok(p) => {
            let internal = a.0 || b.0 || c.0 || p.internal;
            let external = a.1 || b.1 || c.1 || p.external;
            if internal && external {
                Err(ReferenceError::Contradictory)
            } else {
                Ok(Signals { internal, external, ordinals: p.ordinals })
            }
        },
    }
}

/// What an object says as a reference; nothing inside where it is none.
pub open spec fn own_signals(r: RemapModel, o: Map<Seq<char>, JsonModel>) -> Result<Signals, ReferenceError> {
    if is_reference(o) {
        signals(r, o)
    } else {
        Ok(Signals { internal: false, external: false, ordinals: None })
    }
}

/// The items of a sequence after the first `n`.
pub open spec fn after<A>(s: Seq<A>, n: int) -> Seq<A> {
    if n <= s.len() {
        s.skip(n)
    } else {
        Seq::empty()
    }
}

/// A whole number in JSON.
pub open spec fn number_model(n: int) -> JsonModel {
    JsonModel::Number(NumberModel::Unsigned(n as u64))
}

pub open spec fn numbers_model(v: Seq<usize>) -> Seq<JsonModel> {
    Seq::new(v.len(), |i: int| number_model(v[i] as int))
}

pub open spec fn texts_model(v: Seq<Seq<char>>) -> Seq<JsonModel> {
    Seq::new(v.len(), |i: int| JsonModel::Text(v[i]))
}

/// The path of a reference is written anew.
pub open spec fn path_moves(s: Signals, o: Map<Seq<char>, JsonModel>) -> bool {
    s.internal && value_of(o, "pathSegments"@) is Some && value_of(o, "pathSegments"@)->0 is Array
}

/// The ordinals of a reference are written anew.
pub open spec fn ordinals_move(s: Signals, o: Map<Seq<char>, JsonModel>) -> bool {
    path_moves(s, o) && s.ordinals is Some
}

/// Some reference inside a value can not be renamed, for this reason. The reason that an object itself
/// gives comes before those inside it.
pub open spec fn remap_fails(r: RemapModel, v: JsonModel, e: ReferenceError) -> bool
    decreases v,
{
    match v {
        JsonModel::Array(items) => exists|i: int| 0 <= i < items.len() && remap_fails(r, #[trigger] items[i], e),
        JsonModel::Object(o) => match own_signals(r, o) {
            Err(own) => e == own,
            Ok(s) => exists|k: Seq<char>| #[trigger]
                o.dom().contains(k) && !(ordinals_move(s, o) && k == "pathOrdinals"@) && match o[k] {
                    JsonModel::Array(items) => if s.internal && k == "pathSegments"@ {
                        exists|i: int|
                            r.path_root_components <= i < items.len() && remap_fails(r, #[trigger] items[i], e)
                    } else {
                        remap_fails(r, o[k], e)
                    },
                    _ => remap_fails(r, o[k], e),
                },
        },
        _ => false,
    }
}

/// Values with every reference in them renamed.
pub open spec fn remapped_items(r: RemapModel, items: Seq<JsonModel>) -> Seq<JsonModel>
    decreases items,
{
    Seq::new(
        items.len(),
        |i: int|
            if 0 <= i < items.len() {
                remapped(r, items[i])
            } else {
                JsonModel::Null
            },
    )
}

proof fn lemma_remapped_item(r: RemapModel, items: Seq<JsonModel>, i: int)
    requires
        0 <= i < items.len(),
    ensures
        remapped_items(r, items).len() == items.len(),
        remapped_items(r, items)[i] == remapped(r, items[i]),
{
}

/// The models of some values, each with its references renamed.
proof fn lemma_remapped_elements(r: RemapModel, items: Seq<Json>)
    ensures
        Seq::new(items.len(), |i: int| remapped(r, items[i]@)) == remapped_items(r, elements(items)),
{
    let a = Seq::new(items.len(), |i: int| remapped(r, items[i]@));
    let b = remapped_items(r, elements(items));
    assert forall|i: int| 0 <= i < items.len() implies a[i] == b[i] by {
        lemma_element(items, i);
        lemma_remapped_item(r, elements(items), i);
    }
    assert(a =~= b);
}

/// A value with every reference in it renamed.
pub open spec fn remapped(r: RemapModel, v: JsonModel) -> JsonModel
    decreases v,
{
    match v {
        JsonModel::Array(items) => JsonModel::Array(remapped_items(r, items)),
        JsonModel::Object(o) => {
            let s = own_signals(r, o)->Ok_0;
            JsonModel::Object(
                Map::new(
                    |k: Seq<char>|
                        o.dom().contains(k) || (ordinals_move(s, o) && k == "pathOrdinals"@),
                    |k: Seq<char>|
                        if ordinals_move(s, o) && k == "pathOrdinals"@ {
                            JsonModel::Array(
                                numbers_model(
                                    r.target_ordinals + after(s.ordinals->0, r.path_root_components as int),
                                ),
                            )
                        } else if o.dom().contains(k) {
                            if s.internal && (k == "settingsId"@ || k == "instanceId"@) && text_field(o, k) is Some
                                && r.ids.dom().contains(text_field(o, k)->0) {
                                JsonModel::Text(r.ids[text_field(o, k)->0])
                            } else if s.internal && k == "instanceIndex"@ && index_field(o) is Some
                                && r.indices.dom().contains(index_field(o)->0) {
                                number_model(r.indices[index_field(o)->0] + 1)
                            } else if path_moves(s, o) && k == "pathSegments"@ {
                                match o[k] {
                                    JsonModel::Array(items) => JsonModel::Array(
                                        texts_model(r.target) + after(
                                            remapped_items(r, items),
                                            r.path_root_components as int,
                                        ),
                                    ),
                                    _ => o[k],
                                }
                            } else {
                                remapped(r, o[k])
                            }
                        } else {
                            JsonModel::Null
                        },
                ),
            )
        },
        _ => v,
    }
}

pub fn text_of<'a>(m: &'a Vec<Member>, key: &str) -> (r: Option<&'a String>)
    ensures
        match r {
            Some(s) => text_field(entries(m@), key@) == Some(s@),
            None => text_field(entries(m@), key@) is None,
        },
{
    match get(m, key) {
        Some(Json::Text(s)) => Some(s),
        _ => None,
    }
}

pub fn index_of(m: &Vec<Member>) -> (r: Option<usize>)
    ensures
        r == index_field(entries(m@)),
{
    match get(m, "instanceIndex") {
        Some(Json::Number(Number::Unsigned(n))) => {
            let n: u64 = *n;
            if n >= 1 && n <= usize::MAX as u64 {
                Some((n - 1) as usize)
            } else {
                None
            }
        },
        _ => None,
    }
}

pub proof fn lemma_element(items: Seq<Json>, i: int)
    requires
        0 <= i < items.len(),
    ensures
        elements(items).len() == items.len(),
        elements(items)[i] == items[i]@,
{
}

pub fn path_of(m: &Vec<Member>) -> (r: Option<Vec<String>>)
    ensures
        match r {
            Some(path) => path_field(entries(m@)) == Some(texts(path@)),
            None => path_field(entries(m@)) is None,
        },
{
    let items = match get(m, "pathSegments") {
        Some(Json::Array(items)) => items,
        _ => {
            return None;
        },
    };
    let ghost models = elements(items@);
    let mut out: Vec<String> = Vec::new();
    let mut i: usize = 0;
    while i < items.len()
        invariant
            i <= items.len(),
            models == elements(items@),
            value_of(entries(m@), "pathSegments"@) == Some(JsonModel::Array(models)),
            out@.len() == i,
            forall|j: int| 0 <= j < i ==> (#[trigger] models[j]) is Text && models[j]->Text_0 == out@[j]@,
        decreases items.len() - i,
    {
        proof {
            lemma_element(items@, i as int);
        }
        match &items[i] {
            Json::Text(s) => {
                out.push(s.clone());
            },
            _ => {
                assert(!(models[i as int] is Text));
                return None;
            },
        }
        i += 1;
    }
    assert(all_texts(models));
    assert(texts(out@) =~= texts_in(models));
    Some(out)
}

pub fn ordinals_of(m: &Vec<Member>) -> (r: Option<Vec<usize>>)
    ensures
        match r {
            Some(v) => ordinals_field(entries(m@)) == Some(v@),
            None => ordinals_field(entries(m@)) is None,
        },
{
    let items = match get(m, "pathOrdinals") {
        Some(Json::Array(items)) => items,
        _ => {
            return None;
        },
    };
    let ghost models = elements(items@);
    let mut out: Vec<usize> = Vec::new();
    let mut i: usize = 0;
    while i < items.len()
        invariant
            i <= items.len(),
            models == elements(items@),
            value_of(entries(m@), "pathOrdinals"@) == Some(JsonModel::Array(models)),
            out@.len() == i,
            forall|j: int|
                0 <= j < i ==> is_ordinal(#[trigger] models[j]) && models[j]->Number_0->Unsigned_0 as usize == out@[j],
        decreases items.len() - i,
    {
        proof {
            lemma_element(items@, i as int);
        }
        match &items[i] {
            Json::Number(Number::Unsigned(n)) => {
                let n: u64 = *n;
                if n >= 1 && n <= usize::MAX as u64 {
                    out.push(n as usize);
                } else {
                    assert(!is_ordinal(models[i as int]));
                    return None;
                }
            },
            _ => {
                assert(!is_ordinal(models[i as int]));
                return None;
            },
        }
        i += 1;
    }
    assert(all_ordinals(models));
    assert(out@ =~= ordinals_in(models));
    Some(out)
}

fn holds_ordinals(lists: &OrdinalLists, ordinals: &Vec<usize>) -> (r: bool)
    ensures
        r == lists@.contains(ordinals@),
{
    let mut i: usize = 0;
    while i < lists.lists.len()
        invariant
            i <= lists.lists.len(),
            forall|j: int| 0 <= j < i ==> #[trigger] lists@[j] != ordinals@,
        decreases lists.lists.len() - i,
    {
        assert(lists@[i as int] == lists.lists@[i as int]@);
        if same_numbers(&lists.lists[i], ordinals) {
            return true;
        }
        i += 1;
    }
    false
}

/// What the fields of a reference say.
pub struct ReferenceSignals {
    pub internal: bool,
    pub external: bool,
    pub ordinals: Option<Vec<usize>>,
}

impl View for ReferenceSignals {
    type V = Signals;

    open spec fn view(&self) -> Signals {
        Signals {
            internal: self.internal,
            external: self.external,
            ordinals: match self.ordinals {
                Some(v) => Some(v@),
                None => None,
            },
        }
    }
}

pub open spec fn signals_result(r: Result<ReferenceSignals, ReferenceError>) -> Result<Signals, ReferenceError> {
    match r {
        Ok(s) => Ok(s@),
        Err(e) => Err(e),
    }
}

/// Whether an object stands for a reference.
pub fn is_reference_object(m: &Vec<Member>) -> (r: bool)
    ensures
        r == is_reference(entries(m@)),
{
    match text_of(m, "_type") {
        Some(s) => same(s, "Ref"),
        None => false,
    }
}

impl MountedReferenceRemapper {
    /// The new indices leave room for counting from one.
    pub open spec fn wf(&self) -> bool {
        forall|i: usize| #[trigger] self@.indices.dom().contains(i) ==> self@.indices[i] < usize::MAX
    }

    fn id_says(&self, m: &Vec<Member>, key: &str) -> (r: (bool, bool))
        ensures
            r == id_signal(self@, entries(m@), key@),
    {
        match text_of(m, key) {
            Some(old_id) => {
                let known = self.ids.contains(old_id);
                (known, !known && !old_id.as_str().is_empty())
            },
            None => (false, false),
        }
    }

    fn path_says(&self, m: &Vec<Member>) -> (r: Result<ReferenceSignals, ReferenceError>)
        ensures
            signals_result(r) == path_signal(self@, entries(m@)),
    {
        let path = match path_of(m) {
            Some(path) => path,
            None => {
                return Ok(ReferenceSignals { internal: false, external: false, ordinals: None });
            },
        };
        let length = path.len();
        let key = PathKey { segments: path };
        match self.internal_paths.get(&key) {
            Some(candidates) => match ordinals_of(m) {
                Some(ordinals) => {
                    if ordinals.len() != length {
                        Err(ReferenceError::OrdinalCount)
                    } else if holds_ordinals(candidates, &ordinals) {
                        Ok(ReferenceSignals { internal: true, external: false, ordinals: Some(ordinals) })
                    } else {
                        Ok(ReferenceSignals { internal: false, external: true, ordinals: None })
                    }
                },
                None => {
                    if candidates.lists.len() == 1 {
                        assert(candidates@[0] == candidates.lists@[0]@);
                        Ok(
                            ReferenceSignals {
                                internal: true,
                                external: false,
                                ordinals: Some(clone_numbers(&candidates.lists[0])),
                            },
                        )
                    } else {
                        Err(ReferenceError::Ambiguous)
                    }
                },
            },
            None => Ok(ReferenceSignals { internal: false, external: length > 0, ordinals: None }),
        }
    }

    /// What an object says as a reference.
    fn object_says(&self, m: &Vec<Member>) -> (r: Result<ReferenceSignals, ReferenceError>)
        ensures
            signals_result(r) == own_signals(self@, entries(m@)),
    {
        if !is_reference_object(m) {
            return Ok(ReferenceSignals { internal: false, external: false, ordinals: None });
        }
        let a = self.id_says(m, "settingsId");
        let b = self.id_says(m, "instanceId");
        let c = match index_of(m) {
            Some(i) => {
                let known = self.indices.contains(&i);
                (known, !known)
            },
            None => (false, false),
        };
        match self.path_says(m) {
            Err(e) => Err(e),
            Ok(p) => {
                let internal = a.0 || b.0 || c.0 || p.internal;
                let external = a.1 || b.1 || c.1 || p.external;
                if internal && external {
                    Err(ReferenceError::Contradictory)
                } else {
                    Ok(ReferenceSignals { internal, external, ordinals: p.ordinals })
                }
            },
        }
    }

    /// Renames the references in some items, after the first `from`.
    fn remap_items(&self, items: &Vec<Json>, from: usize) -> (r: Result<Vec<Json>, ReferenceError>)
        requires
            self.wf(),
        ensures
            match r {
                Ok(out) => {
                    &&& elements(out@) == after(
                        Seq::new(items@.len(), |i: int| remapped(self@, items@[i]@)),
                        from as int,
                    )
                    &&& forall|i: int, e: ReferenceError|
                        from <= i < items@.len() ==> !#[trigger] remap_fails(self@, items@[i]@, e)
                },
                Err(e) => exists|i: int| from <= i < items@.len() && #[trigger] remap_fails(self@, items@[i]@, e),
            },
        decreases items, 0nat,
    {
        let ghost whole = Seq::new(items@.len(), |i: int| remapped(self@, items@[i]@));
        let mut out: Vec<Json> = Vec::new();
        if from > items.len() {
            assert(elements(out@) =~= after(whole, from as int));
            return Ok(out);
        }
        let mut i: usize = from;
        while i < items.len()
            invariant
                self.wf(),
                from <= i <= items.len(),
                whole == Seq::new(items@.len(), |i: int| remapped(self@, items@[i]@)),
                out@.len() == i - from,
                forall|j: int| 0 <= j < out@.len() ==> (#[trigger] out@[j])@ == whole[from + j],
                forall|j: int, e: ReferenceError|
                    from <= j < i ==> !#[trigger] remap_fails(self@, items@[j]@, e),
            decreases items.len() - i,
        {
            match self.remap_value(&items[i]) {
                Ok(v) => {
                    out.push(v);
                },
                Err(e) => {
                    assert(remap_fails(self@, items@[i as int]@, e));
                    return Err(e);
                },
            }
            i += 1;
        }
        proof {
            let want = after(whole, from as int);
            assert forall|j: int| 0 <= j < out@.len() implies elements(out@)[j] == want[j] by {
                assert(out@[j]@ == whole[from + j]);
            }
            assert(elements(out@) =~= want);
        }
        Ok(out)
    }

    /// Renames every reference in a value.
    pub fn remap_value(&self, value: &Json) -> (r: Result<Json, ReferenceError>)
        requires
            self.wf(),
        ensures
            match r {
                Ok(out) => out@ == remapped(self@, value@) && (forall|e: ReferenceError| !#[trigger]
                    remap_fails(self@, value@, e)),
                Err(e) => remap_fails(self@, value@, e),
            },
        decreases value, 0nat,
    {
        match value {
            Json::Array(items) => {
                let ghost models = elements(items@);
                assert forall|i: int| 0 <= i < items@.len() implies #[trigger] models[i] == items@[i]@ by {}
                match self.remap_items(items, 0) {
                    Ok(out) => {
                        proof {
                            let whole = Seq::new(items@.len(), |i: int| remapped(self@, items@[i]@));
                            assert(after(whole, 0) =~= whole);
                            lemma_remapped_elements(self@, items@);
                            assert forall|e: ReferenceError| !#[trigger] remap_fails(self@, value@, e) by {
                                if remap_fails(self@, value@, e) {
                                    let i = choose|i: int|
                                        0 <= i < models.len() && remap_fails(self@, #[trigger] models[i], e);
                                    assert(remap_fails(self@, items@[i]@, e));
                                }
                            }
                        }
                        let result = Json::Array(out);
                        assert(result@ == remapped(self@, value@));
                        Ok(result)
                    },
                    Err(e) => {
                        proof {
                            let i = choose|i: int| 0 <= i < items@.len() && #[trigger] remap_fails(
                                self@,
                                items@[i]@,
                                e,
                            );
                            assert(remap_fails(self@, models[i], e));
                        }
                        Err(e)
                    },
                }
            },
            Json::Object(m) => match self.remap_members(m) {
                Ok(out) => {
                    assert(value@ == JsonModel::Object(entries(m@)));
                    let result = Json::Object(out);
                    assert(result@ == JsonModel::Object(entries(out@)));
                    Ok(result)
                },
                Err(e) => Err(e),
            },
            Json::Null => Ok(Json::Null),
            Json::Bool(b) => Ok(Json::Bool(*b)),
            Json::Number(_) => Ok(value.copy()),
            Json::Text(_) => Ok(value.copy()),
        }
    }

    /// The path of a reference, renamed: the target, and what comes after the part that it stands for.
    fn remap_path(&self, items: &Vec<Json>) -> (r: Result<Json, ReferenceError>)
        requires
            self.wf(),
        ensures
            match r {
                Ok(out) => {
                    &&& out@ == JsonModel::Array(
                        texts_model(self@.target) + after(
                            Seq::new(items@.len(), |i: int| remapped(self@, items@[i]@)),
                            self@.path_root_components as int,
                        ),
                    )
                    &&& forall|i: int, e: ReferenceError|
                        self@.path_root_components <= i < items@.len() ==> !#[trigger] remap_fails(
                            self@,
                            items@[i]@,
                            e,
                        )
                },
                Err(e) => exists|i: int|
                    self@.path_root_components <= i < items@.len() && #[trigger] remap_fails(self@, items@[i]@, e),
            },
        decreases items, 1nat,
    {
        let mut tail = match self.remap_items(items, self.path_root_components) {
            Ok(tail) => tail,
            Err(e) => {
                return Err(e);
            },
        };
        let mut out: Vec<Json> = Vec::new();
        let mut i: usize = 0;
        while i < self.target.len()
            invariant
                i <= self.target.len(),
                out@.len() == i,
                forall|j: int| 0 <= j < i ==> (#[trigger] out@[j])@ == JsonModel::Text(self.target@[j]@),
            decreases self.target.len() - i,
        {
            let item = Json::Text(self.target[i].clone());
            assert(item@ == JsonModel::Text(self.target@[i as int]@));
            out.push(item);
            i += 1;
        }
        let ghost head = out@;
        let ghost rest = tail@;
        out.append(&mut tail);
        proof {
            let want = texts_model(self@.target) + elements(rest);
            assert forall|j: int| 0 <= j < want.len() implies elements(out@)[j] == want[j] by {
                if j < head.len() {
                    assert(head[j]@ == JsonModel::Text(self.target@[j]@));
                    assert(out@[j] == head[j]);
                } else {
                    assert(out@[j] == rest[j - head.len()]);
                    lemma_element(rest, j - head.len());
                }
            }
            assert(elements(out@) =~= want);
        }
        Ok(Json::Array(out))
    }

    /// Renames the references in an object.
    fn remap_members(&self, m: &Vec<Member>) -> (r: Result<Vec<Member>, ReferenceError>)
        requires
            self.wf(),
        ensures
            match r {
                Ok(out) => JsonModel::Object(entries(out@)) == remapped(self@, JsonModel::Object(entries(m@))) && (
                forall|e: ReferenceError| !#[trigger] remap_fails(self@, JsonModel::Object(entries(m@)), e)),
                Err(e) => remap_fails(self@, JsonModel::Object(entries(m@)), e),
            },
        decreases m, 1nat,
    {
        let ghost o = entries(m@);
        let ghost value = JsonModel::Object(o);
        let s = match self.object_says(m) {
            Ok(s) => s,
            Err(e) => {
                return Err(e);
            },
        };
        let ghost target = remapped(self@, value)->Object_0;
        let path_is_array = match get(m, "pathSegments") {
            Some(Json::Array(_)) => true,
            _ => false,
        };
        let moves = s.internal && path_is_array && s.ordinals.is_some();
        assert(moves == ordinals_move(s@, o));
        let mut out: Vec<Member> = Vec::new();
        let mut i: usize = 0;
        while i < m.len()
            invariant
                self.wf(),
                i <= m.len(),
                o == entries(m@),
                value == JsonModel::Object(o),
                target == remapped(self@, value)->Object_0,
                own_signals(self@, o) == Ok::<Signals, ReferenceError>(s@),
                moves == ordinals_move(s@, o),
                forall|k: Seq<char>| #[trigger]
                    entries(out@).dom().contains(k) <==> crate::json::entry_before(m@, k, i as int) && !(moves && k
                        == "pathOrdinals"@),
                forall|k: Seq<char>| #[trigger]
                    entries(out@).dom().contains(k) ==> entries(out@)[k] == target[k] && (forall|e: ReferenceError|
                        !#[trigger] member_fails(self@, o, s@, k, e)),
            decreases m.len() - i,
        {
            let ghost before = entries(out@);
            let ghost key = m@[i as int].key@;
            let found = find_key(m, &m[i].key);
            let counts = match found {
                Some(at) => at == i,
                None => false,
            };
            proof {
                crate::json::lemma_entry_before_step(m@, i as int);
                if !counts && is_entry(m@, key, i as int) {
                    lemma_entry(m@, key, i as int);
                    let at = found->0;
                    assert(m@[at as int].key@ == key && m@[i as int].key@ == key);
                }
                assert(counts == is_entry(m@, key, i as int));
            }
            if counts && !(moves && same(&m[i].key, "pathOrdinals")) {
                proof {
                    lemma_entry(m@, key, i as int);
                }
                match self.remap_member(m, i, &s) {
                    Ok(v) => {
                        put(&mut out, m[i].key.clone(), v);
                        assert(entries(out@) == before.insert(key, target[key]));
                    },
                    Err(e) => {
                        assert(o.dom().contains(key));
                        assert(member_fails(self@, o, s@, key, e));
                        assert(remap_fails(self@, value, e));
                        return Err(e);
                    },
                }
            }
            i += 1;
        }
        assert forall|k: Seq<char>| crate::json::entry_before(m@, k, m@.len() as int) == o.dom().contains(k) by {
            if o.dom().contains(k) {
                let j = lemma_entry_of(m@, k);
                assert(0 <= j < m@.len() && is_entry(m@, k, j));
            }
            if crate::json::entry_before(m@, k, m@.len() as int) {
                let j = choose|j: int| 0 <= j < m@.len() && #[trigger] is_entry(m@, k, j);
                lemma_entry(m@, k, j);
            }
        }
        assert forall|e: ReferenceError| !#[trigger] remap_fails(self@, value, e) by {
            if remap_fails(self@, value, e) {
                let k = choose|k: Seq<char>| #[trigger]
                    o.dom().contains(k) && !(ordinals_move(s@, o) && k == "pathOrdinals"@) && member_fails(
                        self@,
                        o,
                        s@,
                        k,
                        e,
                    );
                assert(entries(out@).dom().contains(k));
                assert(!member_fails(self@, o, s@, k, e));
            }
        }
        if moves {
            match &s.ordinals {
                Some(ordinals) => {
                    let list = self.remap_ordinals(ordinals);
                    put(&mut out, "pathOrdinals".to_owned(), list);
                },
                None => {},
            }
        }
        assert(entries(out@) =~= target);
        Ok(out)
    }

    /// The ordinals of a reference, renamed: those of the target, and those after the part that it stands
    /// for.
    fn remap_ordinals(&self, ordinals: &Vec<usize>) -> (r: Json)
        ensures
            r@ == JsonModel::Array(
                numbers_model(self@.target_ordinals + after(ordinals@, self@.path_root_components as int)),
            ),
    {
        let ghost want = self@.target_ordinals + after(ordinals@, self@.path_root_components as int);
        let mut out: Vec<Json> = Vec::new();
        let mut i: usize = 0;
        while i < self.target_ordinals.len()
            invariant
                i <= self.target_ordinals.len(),
                want == self@.target_ordinals + after(ordinals@, self@.path_root_components as int),
                out@.len() == i,
                forall|j: int| 0 <= j < i ==> (#[trigger] out@[j])@ == number_model(want[j] as int),
            decreases self.target_ordinals.len() - i,
        {
            out.push(Json::Number(Number::Unsigned(self.target_ordinals[i] as u64)));
            i += 1;
        }
        let mut k: usize = if self.path_root_components <= ordinals.len() {
            self.path_root_components
        } else {
            ordinals.len()
        };
        let ghost start = k;
        assert(after(ordinals@, self@.path_root_components as int) =~= ordinals@.skip(start as int));
        while k < ordinals.len()
            invariant
                start <= k <= ordinals.len(),
                after(ordinals@, self@.path_root_components as int) == ordinals@.skip(start as int),
                want == self@.target_ordinals + after(ordinals@, self@.path_root_components as int),
                out@.len() == self.target_ordinals.len() + (k - start),
                forall|j: int| 0 <= j < out@.len() ==> (#[trigger] out@[j])@ == number_model(want[j] as int),
            decreases ordinals.len() - k,
        {
            out.push(Json::Number(Number::Unsigned(ordinals[k] as u64)));
            k += 1;
        }
        proof {
            assert forall|j: int| 0 <= j < want.len() implies elements(out@)[j] == numbers_model(want)[j] by {
                assert(out@[j]@ == number_model(want[j] as int));
            }
            assert(elements(out@) =~= numbers_model(want));
        }
        Json::Array(out)
    }

    /// The value of one member of an object, renamed.
    fn remap_member(&self, m: &Vec<Member>, at: usize, s: &ReferenceSignals) -> (r: Result<Json, ReferenceError>)
        requires
            self.wf(),
            is_entry(m@, m@[at as int].key@, at as int),
            own_signals(self@, entries(m@)) == Ok::<Signals, ReferenceError>(s@),
            !(ordinals_move(s@, entries(m@)) && m@[at as int].key@ == "pathOrdinals"@),
        ensures
            match r {
                Ok(out) => out@ == remapped(self@, JsonModel::Object(entries(m@)))->Object_0[m@[at as int].key@] && (
                forall|e: ReferenceError| !#[trigger] member_fails(self@, entries(m@), s@, m@[at as int].key@, e)),
                Err(e) => member_fails(self@, entries(m@), s@, m@[at as int].key@, e),
            },
        decreases m, 0nat,
    {
        let ghost o = entries(m@);
        let ghost key = m@[at as int].key@;
        proof {
            lemma_entry(m@, key, at as int);
        }
        let member = &m[at];
        assert(o[key] == member.value@);
        if s.internal {
            if same(&member.key, "settingsId") || same(&member.key, "instanceId") {
                match &member.value {
                    Json::Text(old_id) => match self.ids.get(old_id) {
                        Some(new_id) => {
                            return Ok(Json::Text(new_id.clone()));
                        },
                        None => {},
                    },
                    _ => {},
                }
            }
            if same(&member.key, "instanceIndex") {
                match index_of(m) {
                    Some(old_index) => match self.indices.get(&old_index) {
                        Some(new_index) => {
                            let n: u64 = (*new_index + 1) as u64;
                            return Ok(Json::Number(Number::Unsigned(n)));
                        },
                        None => {},
                    },
                    None => {},
                }
            }
            if same(&member.key, "pathSegments") {
                match &member.value {
                    Json::Array(items) => {
                        let ghost models = elements(items@);
                        proof {
                            assert(o[key] == JsonModel::Array(models));
                            assert(path_moves(s@, o));
                            assert(value_of(o, key) == Some(o[key]));
                            assert(text_field(o, key) is None);
                            assert(key == "instanceIndex"@ ==> index_field(o) is None);
                            assert forall|i: int| 0 <= i < items@.len() implies #[trigger] models[i] == items@[i]@ by {}
                            lemma_remapped_elements(self@, items@);
                        }
                        match self.remap_path(items) {
                            Ok(out) => {
                                assert forall|e: ReferenceError| !#[trigger] member_fails(self@, o, s@, key, e) by {
                                    if member_fails(self@, o, s@, key, e) {
                                        let i = choose|i: int|
                                            self@.path_root_components <= i < models.len() && remap_fails(
                                                self@,
                                                #[trigger] models[i],
                                                e,
                                            );
                                        assert(remap_fails(self@, items@[i]@, e));
                                    }
                                }
                                assert(remapped(self@, JsonModel::Object(o))->Object_0[key] == out@);
                                return Ok(out);
                            },
                            Err(e) => {
                                proof {
                                    let i = choose|i: int|
                                        self@.path_root_components <= i < items@.len() && #[trigger] remap_fails(
                                            self@,
                                            items@[i]@,
                                            e,
                                        );
                                    assert(remap_fails(self@, models[i], e));
                                }
                                return Err(e);
                            },
                        }
                    },
                    _ => {},
                }
            }
        }
        let ghost target = remapped(self@, JsonModel::Object(o))->Object_0;
        assert(target[key] == remapped(self@, o[key]));
        assert forall|e: ReferenceError| #[trigger] member_fails(self@, o, s@, key, e) == remap_fails(self@, o[key], e) by {}
        self.remap_value(&member.value)
    }
}

/// Something in the value of a key can not be renamed, for this reason.
pub open spec fn member_fails(
    r: RemapModel,
    o: Map<Seq<char>, JsonModel>,
    s: Signals,
    k: Seq<char>,
    e: ReferenceError,
) -> bool {
    match o[k] {
        JsonModel::Array(items) => if s.internal && k == "pathSegments"@ {
            exists|i: int| r.path_root_components <= i < items.len() && remap_fails(r, #[trigger] items[i], e)
        } else {
            remap_fails(r, o[k], e)
        },
        _ => remap_fails(r, o[k], e),
    }
}

} // verus!
