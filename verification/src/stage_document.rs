//! Changes that a projection makes to the document of a service.
use vstd::prelude::*;

use crate::digest::{projection_settings_id, settings_id_for};
use crate::document::{
    copy_instances, lemma_models_push, lemma_models_update, named_children, ordinal_at, select_named_child, Instance,
    InstanceModel, SettingsDocument, TargetError,
};
use crate::json::{elements, entries, extend_members, put, remove_key, Json, JsonModel, Member};
use crate::links::opt_text;
use crate::text::{decimal, join_texts, joined, joined_by, lemma_texts_push, same, texts, to_decimal};

verus! {

broadcast use vstd::seq_lib::group_seq_properties;

/// Why a projection can not be put into a document.
#[derive(PartialEq, Eq, Structural, Clone, Copy, Debug)]
pub enum StageError {
    /// The target names no service.
    NoService,
    /// A service is never one of several.
    ServiceOrdinal,
    /// More than one child carries the name at this depth, and no ordinal picks one.
    Ambiguous { depth: usize },
    /// An ordinal leaves a gap.
    OrdinalGap { depth: usize },
    /// The instance is there with another class.
    ClassMismatch,
    /// The class of a service can not change.
    ServiceClass,
    /// Another instance has the settings id.
    DuplicateId,
    /// The target can not be looked up.
    Target(TargetError),
    /// The target names nothing.
    NoTarget,
    /// More than one instance carries the name of one that is put there.
    DuplicateTarget { index: usize },
}

/// A segment with its ordinal in brackets.
pub open spec fn ordinal_segment(segment: Seq<char>, ordinal: int) -> Seq<char> {
    segment + "["@ + decimal(ordinal as nat) + "]"@
}

/// The first `n` segments of a target, each with its ordinal.
pub open spec fn identity(target: Seq<Seq<char>>, ordinals: Seq<usize>, n: nat) -> Seq<char> {
    joined_by(Seq::new(n, |i: int| ordinal_segment(target[i], ordinal_at(ordinals, i))), "."@)
}

fn identity_of(target: &Vec<String>, ordinals: &Vec<usize>, n: usize) -> (r: String)
    requires
        n <= target.len(),
    ensures
        r@ == identity(texts(target@), ordinals@, n as nat),
{
    let ghost want = Seq::new(n as nat, |i: int| ordinal_segment(texts(target@)[i], ordinal_at(ordinals@, i)));
    let mut parts: Vec<String> = Vec::new();
    let mut i: usize = 0;
    while i < n
        invariant
            i <= n <= target.len(),
            want == Seq::new(n as nat, |i: int| ordinal_segment(texts(target@)[i], ordinal_at(ordinals@, i))),
            texts(parts@) == want.take(i as int),
        decreases n - i,
    {
        let ordinal: usize = if i < ordinals.len() {
            ordinals[i]
        } else {
            1
        };
        let a = joined(&target[i], "[");
        let number = to_decimal(ordinal as u128);
        let b = joined(&a, &number);
        let part = joined(&b, "]");
        proof {
            lemma_texts_push(parts@, part);
            assert(want.take(i + 1) =~= want.take(i as int).push(part@));
        }
        parts.push(part);
        i += 1;
    }
    assert(want.take(i as int) =~= want);
    join_texts(&parts, ".")
}

/// The classes that a folder may turn into.
pub open spec fn folder_becomes(class_name: Seq<char>) -> bool {
    class_name == "Script"@ || class_name == "LocalScript"@ || class_name == "ModuleScript"@ || class_name
        == "StringValue"@ || class_name == "LocalizationTable"@
}

fn may_folder_become(class_name: &str) -> (r: bool)
    ensures
        r == folder_becomes(class_name@),
{
    same(class_name, "Script") || same(class_name, "LocalScript") || same(class_name, "ModuleScript") || same(
        class_name,
        "StringValue",
    ) || same(class_name, "LocalizationTable")
}

/// An instance with another class.
pub open spec fn with_class(x: InstanceModel, class_name: Seq<char>) -> InstanceModel {
    InstanceModel { class_name, ..x }
}

/// A new instance.
pub open spec fn fresh(id: Seq<char>, name: Seq<char>, class_name: Seq<char>, parent: int) -> InstanceModel {
    InstanceModel {
        id,
        name,
        class_name,
        parent: Some(parent as usize),
        properties: Map::empty(),
        attributes: Map::empty(),
    }
}

/// The document with the instances of a target from `position` on below `current`, and the index that
/// the target then names. Folders are made on the way.
pub open spec fn path_made(
    doc: Seq<InstanceModel>,
    target: Seq<Seq<char>>,
    ordinals: Seq<usize>,
    class_name: Seq<char>,
    explicit_id: Option<Seq<char>>,
    position: int,
    current: int,
) -> Result<(Seq<InstanceModel>, int), StageError>
    decreases target.len() - position,
{
    if position >= target.len() {
        Ok((doc, current))
    } else {
        let name = target[position];
        let is_last = position + 1 == target.len();
        let expected = if is_last {
            class_name
        } else {
            "Folder"@
        };
        let children = named_children(doc, Some(current as usize), name);
        let given = position < ordinals.len();
        let selected = ordinal_at(ordinals, position);
        if !given && children.len() > 1 {
            Err(StageError::Ambiguous { depth: position as usize })
        } else if selected > children.len() + 1 {
            Err(StageError::OrdinalGap { depth: position as usize })
        } else if 1 <= selected <= children.len() {
            let index = children[selected - 1];
            if is_last && doc[index].class_name != expected {
                if doc[index].class_name == "Folder"@ && folder_becomes(expected) {
                    path_made(
                        doc.update(index, with_class(doc[index], expected)),
                        target,
                        ordinals,
                        class_name,
                        explicit_id,
                        position + 1,
                        index,
                    )
                } else {
                    Err(StageError::ClassMismatch)
                }
            } else {
                path_made(doc, target, ordinals, class_name, explicit_id, position + 1, index)
            }
        } else {
            let path = identity(target, ordinals, (position + 1) as nat);
            let id = if !is_last {
                settings_id_for("folder"@, path)
            } else if explicit_id is Some {
                explicit_id->0
            } else {
                settings_id_for("instance"@, path)
            };
            path_made(
                doc.push(fresh(id, name, expected, current)),
                target,
                ordinals,
                class_name,
                explicit_id,
                position + 1,
                doc.len() as int,
            )
        }
    }
}

/// Strings as a JSON array.
pub open spec fn text_array(list: Seq<Seq<char>>) -> JsonModel {
    JsonModel::Array(Seq::new(list.len(), |i: int| JsonModel::Text(list[i])))
}

fn to_text_array(list: &Vec<String>) -> (r: Json)
    ensures
        r@ == text_array(texts(list@)),
{
    let mut out: Vec<Json> = Vec::new();
    let mut i: usize = 0;
    while i < list.len()
        invariant
            i <= list.len(),
            out@.len() == i,
            forall|j: int| 0 <= j < i ==> (#[trigger] out@[j])@ == JsonModel::Text(list@[j]@),
        decreases list.len() - i,
    {
        let item = Json::Text(list[i].clone());
        assert(item@ == JsonModel::Text(list@[i as int]@));
        out.push(item);
        i += 1;
    }
    let ghost want = Seq::new(list@.len(), |i: int| JsonModel::Text(texts(list@)[i]));
    assert forall|j: int| 0 <= j < list@.len() implies elements(out@)[j] == want[j] by {
        assert(out@[j]@ == JsonModel::Text(list@[j]@));
    }
    assert(elements(out@) =~= want);
    Json::Array(out)
}

/// The properties after tags are set: an empty list takes them out.
pub open spec fn with_tags(properties: Map<Seq<char>, JsonModel>, tags: Option<Seq<Seq<char>>>) -> Map<
    Seq<char>,
    JsonModel,
> {
    match tags {
        None => properties,
        Some(list) => if list.len() == 0 {
            properties.remove("Tags"@)
        } else {
            properties.insert("Tags"@, text_array(list))
        },
    }
}

/// The texts of an optional list.
pub open spec fn opt_texts(v: Option<Vec<String>>) -> Option<Seq<Seq<char>>> {
    match v {
        Some(list) => Some(texts(list@)),
        None => None,
    }
}

/// What a projection says of an instance.
pub struct StageFields {
    pub class_name: String,
    pub explicit_id: Option<String>,
    pub properties: Vec<Member>,
    pub attributes: Vec<Member>,
    pub tags: Option<Vec<String>>,
}

#[verifier::ext_equal]
pub struct FieldsModel {
    pub class_name: Seq<char>,
    pub explicit_id: Option<Seq<char>>,
    pub properties: Map<Seq<char>, JsonModel>,
    pub attributes: Map<Seq<char>, JsonModel>,
    pub tags: Option<Seq<Seq<char>>>,
}

impl View for StageFields {
    type V = FieldsModel;

    open spec fn view(&self) -> FieldsModel {
        FieldsModel {
            class_name: self.class_name@,
            explicit_id: opt_text(self.explicit_id),
            properties: entries(self.properties@),
            attributes: entries(self.attributes@),
            tags: opt_texts(self.tags),
        }
    }
}

/// A class and nothing else.
pub open spec fn class_fields(class_name: Seq<char>) -> FieldsModel {
    FieldsModel { class_name, explicit_id: None, properties: Map::empty(), attributes: Map::empty(), tags: None }
}

impl StageFields {
    /// A class and nothing else.
    pub fn of_class(class_name: String) -> (r: StageFields)
        ensures
            r@ == class_fields(class_name@),
    {
        StageFields {
            class_name,
            explicit_id: None,
            properties: Vec::new(),
            attributes: Vec::new(),
            tags: None,
        }
    }
}

/// The document after a projection was put into it.
pub open spec fn instance_staged(
    doc: Seq<InstanceModel>,
    target: Seq<Seq<char>>,
    ordinals: Seq<usize>,
    fields: FieldsModel,
) -> Result<Seq<InstanceModel>, StageError> {
    if target.len() == 0 {
        Err(StageError::NoService)
    } else if ordinal_at(ordinals, 0) != 1 {
        Err(StageError::ServiceOrdinal)
    } else {
        match path_made(doc, target, ordinals, fields.class_name, fields.explicit_id, 1, 0) {
            Err(e) => Err(e),
            Ok((made, index)) => if target.len() == 1 && made[index].class_name != fields.class_name {
                Err(StageError::ServiceClass)
            } else {
                let x = made[index];
                Ok(
                    made.update(
                        index,
                        InstanceModel {
                            properties: with_tags(
                                x.properties.union_prefer_right(fields.properties),
                                fields.tags,
                            ),
                            attributes: x.attributes.union_prefer_right(fields.attributes),
                            ..x
                        },
                    ),
                )
            },
        }
    }
}

/// Puts a projection into the document of a service: makes the instances that its target names where
/// they are not there, and gives the last one its fields. On an error nothing changes.
pub fn update_stage_instance(doc: &mut SettingsDocument, target: &Vec<String>, ordinals: &Vec<usize>, fields: &StageFields) -> (r:
    Result<(), StageError>)
    requires
        old(doc)@.len() > 0,
        old(doc)@.len() + target@.len() <= usize::MAX,
    ensures
        match r {
            Ok(()) => instance_staged(old(doc)@, texts(target@), ordinals@, fields@) == Ok::<
                Seq<InstanceModel>,
                StageError,
            >(final(doc)@),
            Err(e) => instance_staged(old(doc)@, texts(target@), ordinals@, fields@) == Err::<
                Seq<InstanceModel>,
                StageError,
            >(e) && final(doc)@ == old(doc)@,
        },
{
    if target.len() == 0 {
        return Err(StageError::NoService);
    }
    if ordinals.len() > 0 && ordinals[0] != 1 {
        return Err(StageError::ServiceOrdinal);
    }
    let ghost names = texts(target@);
    let ghost start = doc@;
    let ghost want = path_made(
        start,
        names,
        ordinals@,
        fields.class_name@,
        opt_text(fields.explicit_id),
        1,
        0,
    );
    let mut work = SettingsDocument { instances: copy_instances(&doc.instances) };
    let mut current: usize = 0;
    let mut position: usize = 1;
    while position < target.len()
        invariant
            1 <= position <= target.len(),
            names == texts(target@),
            start == doc@,
            start == old(doc)@,
            current < work@.len(),
            work@.len() <= start.len() + position - 1,
            start.len() + target@.len() <= usize::MAX,
            ordinal_at(ordinals@, 0) == 1,
            path_made(
                work@,
                names,
                ordinals@,
                fields.class_name@,
                opt_text(fields.explicit_id),
                position as int,
                current as int,
            ) == want,
            want == path_made(
                start,
                names,
                ordinals@,
                fields.class_name@,
                opt_text(fields.explicit_id),
                1,
                0,
            ),
        decreases target.len() - position,
    {
        let name = &target[position];
        let is_last = position + 1 == target.len();
        let given = position < ordinals.len();
        let selected: usize = if given {
            ordinals[position]
        } else {
            1
        };
        let (matched, count) = select_named_child(&work, Some(current), name, selected);
        if !given && count > 1 {
            return Err(StageError::Ambiguous { depth: position });
        }
        if selected > 0 && selected - 1 > count {
            return Err(StageError::OrdinalGap { depth: position });
        }
        match matched {
            Some(index) => {
                if is_last && !same(&work.instances[index].class_name, &fields.class_name) {
                    if same(&work.instances[index].class_name, "Folder") && may_folder_become(&fields.class_name) {
                        let mut x = work.instances[index].copy();
                        x.class_name = fields.class_name.clone();
                        proof {
                            lemma_models_update(work.instances@, index as int, x);
                        }
                        assert(x@ == with_class(work@[index as int], fields.class_name@));
                        work.instances.set(index, x);
                    } else {
                        return Err(StageError::ClassMismatch);
                    }
                }
                current = index;
            },
            None => {
                let path = identity_of(target, ordinals, position + 1);
                let id = if !is_last {
                    projection_settings_id("folder", &path)
                } else {
                    match &fields.explicit_id {
                        Some(id) => id.clone(),
                        None => projection_settings_id("instance", &path),
                    }
                };
                let class_name = if is_last {
                    fields.class_name.clone()
                } else {
                    "Folder".to_owned()
                };
                let index = work.instances.len();
                let x = Instance::new(id, name.clone(), class_name, Some(current));
                proof {
                    lemma_models_push(work.instances@, x);
                    assert(x@ == fresh(id@, name@, class_name@, current as int));
                }
                work.instances.push(x);
                current = index;
            },
        }
        position += 1;
    }
    if target.len() == 1 && !same(&work.instances[current].class_name, &fields.class_name) {
        return Err(StageError::ServiceClass);
    }
    let ghost made = work@;
    let mut x = work.instances[current].copy();
    assert(x@ == made[current as int]);
    extend_members(&mut x.properties, &fields.properties);
    extend_members(&mut x.attributes, &fields.attributes);
    match &fields.tags {
        Some(tags) => {
            if tags.len() == 0 {
                remove_key(&mut x.properties, "Tags");
            } else {
                let list = to_text_array(tags);
                put(&mut x.properties, "Tags".to_owned(), list);
            }
        },
        None => {},
    }
    proof {
        lemma_models_update(work.instances@, current as int, x);
    }
    work.instances.set(current, x);
    doc.instances = work.instances;
    Ok(())
}

proof fn lemma_path_made_grows(
    doc: Seq<InstanceModel>,
    target: Seq<Seq<char>>,
    ordinals: Seq<usize>,
    class_name: Seq<char>,
    explicit_id: Option<Seq<char>>,
    position: int,
    current: int,
)
    requires
        0 <= position,
        0 <= current < doc.len(),
        path_made(doc, target, ordinals, class_name, explicit_id, position, current) is Ok,
    ensures
        ({
            let (made, index) = path_made(doc, target, ordinals, class_name, explicit_id, position, current)->Ok_0;
            &&& doc.len() <= made.len()
            &&& made.len() <= doc.len() + if position < target.len() {
                target.len() - position
            } else {
                0
            }
            &&& 0 <= index < made.len()
        }),
    decreases target.len() - position,
{
    if position < target.len() {
        let name = target[position];
        let is_last = position + 1 == target.len();
        let expected = if is_last {
            class_name
        } else {
            "Folder"@
        };
        let children = named_children(doc, Some(current as usize), name);
        let selected = ordinal_at(ordinals, position);
        if 1 <= selected <= children.len() {
            crate::document::lemma_named_under(doc, Some(current as usize), name, doc.len(), selected - 1);
            let index = children[selected - 1];
            if is_last && doc[index].class_name != expected {
                lemma_path_made_grows(
                    doc.update(index, with_class(doc[index], expected)),
                    target,
                    ordinals,
                    class_name,
                    explicit_id,
                    position + 1,
                    index,
                );
            } else {
                lemma_path_made_grows(doc, target, ordinals, class_name, explicit_id, position + 1, index);
            }
        } else {
            let path = identity(target, ordinals, (position + 1) as nat);
            let id = if !is_last {
                settings_id_for("folder"@, path)
            } else if explicit_id is Some {
                explicit_id->0
            } else {
                settings_id_for("instance"@, path)
            };
            lemma_path_made_grows(
                doc.push(fresh(id, name, expected, current)),
                target,
                ordinals,
                class_name,
                explicit_id,
                position + 1,
                doc.len() as int,
            );
        }
    }
}

/// Putting a projection into a document takes no instance out of it, and adds at most one for each
/// segment of its target below the service.
pub proof fn law_staging_only_adds(
    doc: Seq<InstanceModel>,
    target: Seq<Seq<char>>,
    ordinals: Seq<usize>,
    fields: FieldsModel,
)
    requires
        doc.len() > 0,
        instance_staged(doc, target, ordinals, fields) is Ok,
    ensures
        doc.len() <= instance_staged(doc, target, ordinals, fields)->Ok_0.len(),
        instance_staged(doc, target, ordinals, fields)->Ok_0.len() <= doc.len() + target.len() - 1,
{
    lemma_path_made_grows(doc, target, ordinals, fields.class_name, fields.explicit_id, 1, 0);
}

/// `way` leads from an instance of a document down the names of a target, one child after the other.
pub open spec fn leads_along(doc: Seq<InstanceModel>, target: Seq<Seq<char>>, way: Seq<int>) -> bool {
    &&& way.len() == target.len()
    &&& forall|k: int| 0 <= k < way.len() ==> 0 <= #[trigger] way[k] < doc.len()
    &&& forall|k: int|
        1 <= k < way.len() ==> doc[#[trigger] way[k]].name == target[k] && doc[way[k]].parent == Some(way[k - 1] as usize)
}

/// An instance that was made on the way: a folder with nothing in it.
pub open spec fn is_plain_folder(x: InstanceModel) -> bool {
    x.class_name == "Folder"@ && x.properties == Map::<Seq<char>, JsonModel>::empty() && x.attributes == Map::<
        Seq<char>,
        JsonModel,
    >::empty()
}

/// Every parent is an instance of the document.
pub open spec fn parents_inside(doc: Seq<InstanceModel>) -> bool {
    forall|i: int| 0 <= i < doc.len() && (#[trigger] doc[i]).parent is Some ==> doc[i].parent->0 < doc.len()
}

/// The `k`th instance on a way is the one that the target picks in a document: of the children with its name
/// the one that the ordinal counts to, or one behind the last of them that was not there.
pub open spec fn is_picked(doc: Seq<InstanceModel>, target: Seq<Seq<char>>, ordinals: Seq<usize>, way: Seq<int>, k: int) -> bool {
    let selected = if k < ordinals.len() {
        ordinals[k] as int
    } else {
        1
    };
    let children = named_children(doc, Some(way[k - 1] as usize), target[k]);
    &&& way[k - 1] < doc.len() && way[k] < doc.len() ==> 1 <= selected <= children.len() && way[k] == children[selected - 1]
    &&& way[k - 1] < doc.len() && way[k] >= doc.len() ==> selected == 0 || selected == children.len() + 1
    &&& way[k - 1] < doc.len() && k >= ordinals.len() ==> children.len() <= 1
    &&& way[k - 1] >= doc.len() ==> way[k] >= doc.len()
}

/// A document that grew by folders alone.
spec fn grew_by_folders(doc: Seq<InstanceModel>, more: Seq<InstanceModel>) -> bool {
    &&& doc.len() <= more.len()
    &&& forall|i: int| 0 <= i < doc.len() ==> #[trigger] more[i] == doc[i]
    &&& forall|i: int| doc.len() <= i < more.len() ==> is_plain_folder(#[trigger] more[i])
}

proof fn lemma_path_made(
    doc: Seq<InstanceModel>,
    target: Seq<Seq<char>>,
    ordinals: Seq<usize>,
    class_name: Seq<char>,
    explicit_id: Option<Seq<char>>,
    position: int,
    current: int,
    first: Seq<InstanceModel>,
    begun: Seq<int>,
) -> (way: Seq<int>)
    requires
        1 <= position <= target.len(),
        position < target.len() || target.len() == 1,
        0 <= current < doc.len(),
        doc.len() + target.len() - position <= usize::MAX,
        path_made(doc, target, ordinals, class_name, explicit_id, position, current) is Ok,
        first.len() > 0,
        parents_inside(doc),
        grew_by_folders(first, doc),
        current < first.len() ==> doc == first,
        current >= first.len() ==> current == doc.len() - 1 && (forall|i: int|
            0 <= i < doc.len() ==> (#[trigger] doc[i]).parent != Some(current as usize)),
        forall|k: int| 1 <= k < begun.len() ==> is_picked(first, target, ordinals, begun, k),
        begun.len() == position,
        begun[0] == 0,
        begun.last() == current,
        leads_along(doc, target.take(position), begun),
    ensures
        ({
            let (made, index) = path_made(doc, target, ordinals, class_name, explicit_id, position, current)->Ok_0;
            &&& leads_along(made, target, way)
            &&& way[0] == 0
            &&& way.last() == index
            &&& first.len() <= made.len()
            &&& forall|i: int| 0 <= i < first.len() && i != index ==> #[trigger] made[i] == first[i]
            &&& forall|i: int| first.len() <= i < made.len() && i != index ==> is_plain_folder(#[trigger] made[i])
            &&& target.len() > 1 ==> made[index].class_name == class_name
            &&& index < first.len() ==> made[index] == with_class(first[index], made[index].class_name) && (
            first[index].class_name == made[index].class_name || first[index].class_name == "Folder"@)
            &&& target.len() == 1 ==> made == doc
            &&& index >= first.len() ==> {
                &&& made[index].properties == Map::<Seq<char>, JsonModel>::empty()
                &&& made[index].attributes == Map::<Seq<char>, JsonModel>::empty()
                &&& made[index].id == match explicit_id {
                    Some(id) => id,
                    None => settings_id_for("instance"@, identity(target, ordinals, target.len())),
                }
            }
            &&& forall|k: int| 1 <= k < way.len() ==> is_picked(first, target, ordinals, way, k)
        }),
    decreases target.len() - position,
{
    if position >= target.len() {
        assert(target.take(position) =~= target);
        begun
    } else {
        let name = target[position];
        let is_last = position + 1 == target.len();
        let expected = if is_last {
            class_name
        } else {
            "Folder"@
        };
        let children = named_children(doc, Some(current as usize), name);
        let selected = ordinal_at(ordinals, position);
        let next_names = target.take(position + 1);
        if current >= first.len() && children.len() > 0 {
            crate::document::lemma_named_under(doc, Some(current as usize), name, doc.len(), 0);
        }
        assert forall|way: Seq<int>|
            #![trigger way.last()]
            way.len() == position + 1 && way.take(position) == begun && (if 1 <= selected <= children.len() {
                way.last() == children[selected - 1]
            } else {
                way.last() == doc.len()
            }) implies forall|k: int| 1 <= k < way.len() ==> is_picked(first, target, ordinals, way, k) by {
            assert forall|k: int| 1 <= k < way.len() implies is_picked(first, target, ordinals, way, k) by {
                assert(way[k - 1] == way.take(position)[k - 1]);
                if k < position {
                    assert(way[k] == way.take(position)[k]);
                    assert(is_picked(first, target, ordinals, begun, k));
                } else if 1 <= selected <= children.len() {
                    crate::document::lemma_named_under(doc, Some(current as usize), name, doc.len(), selected - 1);
                }
            }
        }
        if 1 <= selected <= children.len() {
            crate::document::lemma_named_under(doc, Some(current as usize), name, doc.len(), selected - 1);
            let index = children[selected - 1];
            let way = begun.push(index);
            assert(way.take(position) =~= begun);
            assert(way.last() == index);
            if is_last && doc[index].class_name != expected {
                let made = doc.update(index, with_class(doc[index], expected));
                assert(path_made(doc, target, ordinals, class_name, explicit_id, position, current) == path_made(
                    made,
                    target,
                    ordinals,
                    class_name,
                    explicit_id,
                    position + 1,
                    index,
                ));
                assert forall|k: int| 1 <= k < way.len() implies made[#[trigger] way[k]].name == target[k] && made[way[k]].parent
                    == Some(way[k - 1] as usize) by {
                    if k < begun.len() {
                        assert(way[k] == begun[k]);
                        assert(doc[begun[k]].name == target.take(position)[k]);
                    }
                }
                way
            } else {
                assert(leads_along(doc, next_names, way)) by {
                    assert forall|k: int| 1 <= k < way.len() implies doc[#[trigger] way[k]].name == next_names[k] && doc[way[k]].parent
                        == Some(way[k - 1] as usize) by {
                        if k < begun.len() {
                            assert(way[k] == begun[k]);
                            assert(doc[begun[k]].name == target.take(position)[k]);
                        }
                    }
                }
                if is_last {
                    assert(next_names =~= target);
                    way
                } else {
                    lemma_path_made(doc, target, ordinals, class_name, explicit_id, position + 1, index, first, way)
                }
            }
        } else {
            let path = identity(target, ordinals, (position + 1) as nat);
            let id = if !is_last {
                settings_id_for("folder"@, path)
            } else if explicit_id is Some {
                explicit_id->0
            } else {
                settings_id_for("instance"@, path)
            };
            let made = doc.push(fresh(id, name, expected, current));
            let index = doc.len() as int;
            let way = begun.push(index);
            assert(way.take(position) =~= begun);
            assert(way.last() == index);
            assert(leads_along(made, next_names, way)) by {
                assert forall|k: int| 1 <= k < way.len() implies made[#[trigger] way[k]].name == next_names[k] && made[way[k]].parent
                    == Some(way[k - 1] as usize) by {
                    if k < begun.len() {
                        assert(way[k] == begun[k]);
                        assert(doc[begun[k]].name == target.take(position)[k]);
                    }
                }
            }
            if is_last {
                assert(next_names =~= target);
                way
            } else {
                lemma_path_made(made, target, ordinals, class_name, explicit_id, position + 1, index, first, way)
            }
        }
    }
}

/// What a projection declares of an instance is what the document then holds of it. There is a way from the
/// service along the names of the target; the instance at its end has the class, every property and every
/// attribute that is given, and keeps all others that it had. Tags that are given become the property `Tags`,
/// and an empty list takes it out. Every other instance that was there is as it was, and all that is new
/// above the instance are plain folders.
pub proof fn law_declared_fields_are_staged(
    doc: Seq<InstanceModel>,
    target: Seq<Seq<char>>,
    ordinals: Seq<usize>,
    fields: FieldsModel,
) -> (way: Seq<int>)
    requires
        doc.len() > 0,
        doc.len() + target.len() <= usize::MAX,
        parents_inside(doc),
        instance_staged(doc, target, ordinals, fields) is Ok,
    ensures
        ({
            let after = instance_staged(doc, target, ordinals, fields)->Ok_0;
            let x = after[way.last()];
            let was = way.last() < doc.len();
            let old_x = doc[way.last()];
            &&& target.len() > 0
            &&& leads_along(after, target, way)
            &&& way[0] == 0
            &&& forall|k: int| 1 <= k < way.len() ==> is_picked(doc, target, ordinals, way, k)
            &&& x.class_name == fields.class_name
            &&& forall|key: Seq<char>| #[trigger]
                fields.properties.dom().contains(key) && !(key == "Tags"@ && fields.tags is Some) ==> x.properties.dom().contains(key)
                    && x.properties[key] == fields.properties[key]
            &&& forall|key: Seq<char>| #[trigger]
                fields.attributes.dom().contains(key) ==> x.attributes.dom().contains(key) && x.attributes[key]
                    == fields.attributes[key]
            &&& forall|key: Seq<char>| #[trigger]
                x.properties.dom().contains(key) && !fields.properties.dom().contains(key) && !(key == "Tags"@
                    && fields.tags is Some) ==> was && old_x.properties.dom().contains(key) && x.properties[key]
                    == old_x.properties[key]
            &&& forall|key: Seq<char>| #[trigger]
                x.attributes.dom().contains(key) && !fields.attributes.dom().contains(key) ==> was && old_x.attributes.dom().contains(
                    key,
                ) && x.attributes[key] == old_x.attributes[key]
            &&& was ==> forall|key: Seq<char>| #[trigger]
                old_x.properties.dom().contains(key) && !(key == "Tags"@ && fields.tags is Some) ==> x.properties.dom().contains(key)
            &&& was ==> forall|key: Seq<char>| #[trigger]
                old_x.attributes.dom().contains(key) ==> x.attributes.dom().contains(key)
            &&& fields.tags is Some && fields.tags->0.len() == 0 ==> !x.properties.dom().contains("Tags"@)
            &&& fields.tags is Some && fields.tags->0.len() > 0 ==> {
                &&& x.properties.dom().contains("Tags"@)
                &&& x.properties["Tags"@] is Array
                &&& x.properties["Tags"@]->Array_0.len() == fields.tags->0.len()
                &&& forall|i: int|
                    0 <= i < fields.tags->0.len() ==> #[trigger] x.properties["Tags"@]->Array_0[i] == JsonModel::Text(
                        fields.tags->0[i],
                    )
            }
            &&& was ==> x.id == old_x.id && x.name == old_x.name && x.parent == old_x.parent && (old_x.class_name
                == fields.class_name || old_x.class_name == "Folder"@)
            &&& !was ==> x.id == match fields.explicit_id {
                Some(id) => id,
                None => settings_id_for("instance"@, identity(target, ordinals, target.len())),
            }
            &&& forall|i: int| 0 <= i < doc.len() && i != way.last() ==> #[trigger] after[i] == doc[i]
            &&& forall|i: int| doc.len() <= i < after.len() && i != way.last() ==> is_plain_folder(#[trigger] after[i])
        }),
{
    let begun = seq![0int];
    assert(target.take(1).len() == 1);
    let way = lemma_path_made(doc, target, ordinals, fields.class_name, fields.explicit_id, 1, 0, doc, begun);
    let (made, index) = path_made(doc, target, ordinals, fields.class_name, fields.explicit_id, 1, 0)->Ok_0;
    let after = instance_staged(doc, target, ordinals, fields)->Ok_0;
    assert forall|k: int| 1 <= k < way.len() implies after[#[trigger] way[k]].name == target[k] && after[way[k]].parent == Some(
        way[k - 1] as usize,
    ) by {
        assert(made[way[k]].name == target[k]);
    }
    assert(after[index].class_name == made[index].class_name);
    way
}

/// No two children of one instance have one name.
pub open spec fn siblings_named_apart(doc: Seq<InstanceModel>) -> bool {
    forall|i: int, j: int|
        0 <= i < j < doc.len() && (#[trigger] doc[i]).parent == (#[trigger] doc[j]).parent ==> doc[i].name != doc[j].name
}

proof fn lemma_named_ascend(doc: Seq<InstanceModel>, parent: Option<usize>, name: Seq<char>, n: nat, a: int, b: int)
    requires
        n <= doc.len(),
        0 <= a < b < crate::document::named_under(doc, parent, name, n).len(),
    ensures
        crate::document::named_under(doc, parent, name, n)[a] < crate::document::named_under(doc, parent, name, n)[b],
    decreases n,
{
    if n > 0 {
        let before = crate::document::named_under(doc, parent, name, (n - 1) as nat);
        if b < before.len() {
            lemma_named_ascend(doc, parent, name, (n - 1) as nat, a, b);
        } else {
            crate::document::lemma_named_under(doc, parent, name, (n - 1) as nat, a);
        }
    }
}

proof fn lemma_path_fails(
    doc: Seq<InstanceModel>,
    target: Seq<Seq<char>>,
    class_name: Seq<char>,
    explicit_id: Option<Seq<char>>,
    position: int,
    current: int,
    first: Seq<InstanceModel>,
)
    requires
        1 <= position,
        0 <= current < doc.len(),
        doc.len() + target.len() <= usize::MAX + position,
        position < target.len(),
        parents_inside(doc),
        grew_by_folders(first, doc),
        siblings_named_apart(first),
        current < first.len() ==> doc == first,
        current >= first.len() ==> forall|i: int| 0 <= i < doc.len() ==> (#[trigger] doc[i]).parent != Some(current as usize),
        path_made(doc, target, Seq::empty(), class_name, explicit_id, position, current) is Err,
    ensures
        path_made(doc, target, Seq::empty(), class_name, explicit_id, position, current)->Err_0 is ClassMismatch,
        exists|i: int|
            0 <= i < first.len() && (#[trigger] first[i]).name == target.last() && first[i].class_name != class_name && !(
            first[i].class_name == "Folder"@ && folder_becomes(class_name)),
    decreases target.len() - position,
{
    reveal_with_fuel(path_made, 2);
    let name = target[position];
    let is_last = position + 1 == target.len();
    let children = named_children(doc, Some(current as usize), name);
    if children.len() > 0 {
        crate::document::lemma_named_under(doc, Some(current as usize), name, doc.len(), 0);
    }
    if children.len() > 1 {
        crate::document::lemma_named_under(doc, Some(current as usize), name, doc.len(), 1);
        lemma_named_ascend(doc, Some(current as usize), name, doc.len(), 0, 1);
        assert(false);
    }
    if children.len() == 1 {
        let index = children[0];
        if is_last {
            if doc[index].class_name != class_name {
                assert(first[index].name == target.last());
            }
        } else {
            lemma_path_fails(doc, target, class_name, explicit_id, position + 1, index, first);
        }
    } else {
        let path = identity(target, Seq::empty(), (position + 1) as nat);
        let id = settings_id_for("folder"@, path);
        if !is_last {
            let made = doc.push(fresh(id, name, "Folder"@, current));
            lemma_path_fails(made, target, class_name, explicit_id, position + 1, doc.len() as int, first);
        }
    }
}

/// Where names tell all siblings apart and no ordinals are given, staging fails only for the class of what is
/// there: the service has another, or some instance with the target's last name has one that can not become
/// the class that is asked for. A target that names nothing is refused.
pub proof fn law_staging_fails_only_for_a_class(doc: Seq<InstanceModel>, target: Seq<Seq<char>>, fields: FieldsModel)
    requires
        doc.len() > 0,
        doc.len() + target.len() <= usize::MAX,
        parents_inside(doc),
        siblings_named_apart(doc),
    ensures
        match instance_staged(doc, target, Seq::empty(), fields) {
            Ok(_) => target.len() > 0,
            Err(StageError::NoService) => target.len() == 0,
            Err(StageError::ServiceClass) => target.len() == 1 && doc[0].class_name != fields.class_name,
            Err(StageError::ClassMismatch) => target.len() > 1 && exists|i: int|
                0 <= i < doc.len() && (#[trigger] doc[i]).name == target.last() && doc[i].class_name != fields.class_name && !(
                doc[i].class_name == "Folder"@ && folder_becomes(fields.class_name)),
            Err(_) => false,
        },
{
    if target.len() > 1 && path_made(doc, target, Seq::empty(), fields.class_name, fields.explicit_id, 1, 0) is Err {
        lemma_path_fails(doc, target, fields.class_name, fields.explicit_id, 1, 0, doc);
    }
}

} // verus!
