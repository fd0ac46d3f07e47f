//! References between instances of a document, written by id.
use vstd::prelude::*;

use crate::document::{lemma_models_push, models, Instance, InstanceModel, SettingsDocument};
use crate::json::{entries, lemma_entries_push, put, Json, JsonModel, Member};
use crate::references::{index_field, index_of, is_reference, is_reference_object};
use crate::text::{lemma_texts_push, texts};

verus! {

/// A value whose reference to an instance by number is written by id. A reference to an instance
/// without an id is written as nothing.
pub open spec fn settled_value(v: JsonModel, ids: Seq<Seq<char>>) -> JsonModel {
    match v {
        JsonModel::Object(o) => if is_reference(o) && index_field(o) is Some {
            let i = index_field(o)->0;
            if i < ids.len() {
                JsonModel::Object(
                    Map::empty().insert("_type"@, JsonModel::Text("Ref"@)).insert(
                        "settingsId"@,
                        JsonModel::Text(ids[i as int]),
                    ),
                )
            } else {
                JsonModel::Null
            }
        } else {
            v
        },
        _ => v,
    }
}

fn settle_value(v: &Json, ids: &Vec<String>) -> (r: Json)
    ensures
        r@ == settled_value(v@, texts(ids@)),
{
    if let Json::Object(o) = v {
        if is_reference_object(o) {
            if let Some(i) = index_of(o) {
                if i < ids.len() {
                    let mut m: Vec<Member> = Vec::new();
                    put(&mut m, "_type".to_owned(), Json::Text("Ref".to_owned()));
                    put(&mut m, "settingsId".to_owned(), Json::Text(ids[i].clone()));
                    return Json::Object(m);
                }
                return Json::Null;
            }
        }
    }
    v.copy()
}

/// The fields of an instance with their references written by id.
pub open spec fn settled_fields(m: Map<Seq<char>, JsonModel>, ids: Seq<Seq<char>>) -> Map<Seq<char>, JsonModel> {
    m.map_values(|v: JsonModel| settled_value(v, ids))
}

pub fn settle_fields(m: &Vec<Member>, ids: &Vec<String>) -> (r: Vec<Member>)
    ensures
        entries(r@) == settled_fields(entries(m@), texts(ids@)),
{
    let ghost names = texts(ids@);
    let mut out: Vec<Member> = Vec::new();
    let mut i: usize = 0;
    assert(m@.take(0) =~= Seq::empty());
    assert(entries(out@) =~= settled_fields(entries(m@.take(0)), names));
    while i < m.len()
        invariant
            i <= m.len(),
            names == texts(ids@),
            entries(out@) == settled_fields(entries(m@.take(i as int)), names),
        decreases m.len() - i,
    {
        let member = Member { key: m[i].key.clone(), value: settle_value(&m[i].value, ids) };
        proof {
            lemma_entries_push(out@, member);
            assert(m@.take(i + 1).drop_last() =~= m@.take(i as int));
            assert(settled_fields(entries(m@.take(i + 1)), names) =~= settled_fields(
                entries(m@.take(i as int)),
                names,
            ).insert(member.key@, member.value@));
        }
        out.push(member);
        i += 1;
    }
    assert(m@.take(i as int) =~= m@);
    out
}

/// The ids of a document.
pub open spec fn ids_of(doc: Seq<InstanceModel>) -> Seq<Seq<char>> {
    Seq::new(doc.len(), |i: int| doc[i].id)
}

/// An instance with its references written by id.
pub open spec fn settled_instance(x: InstanceModel, ids: Seq<Seq<char>>) -> InstanceModel {
    InstanceModel {
        properties: settled_fields(x.properties, ids),
        attributes: settled_fields(x.attributes, ids),
        ..x
    }
}

/// A document whose references are written by id.
pub open spec fn settled(doc: Seq<InstanceModel>) -> Seq<InstanceModel> {
    Seq::new(doc.len(), |i: int| settled_instance(doc[i], ids_of(doc)))
}

/// Writes the references of a document by id.
pub fn settle(doc: &SettingsDocument) -> (r: SettingsDocument)
    ensures
        r@ == settled(doc@),
{
    let mut ids: Vec<String> = Vec::new();
    let mut i: usize = 0;
    assert(texts(ids@) =~= ids_of(doc@).take(0));
    while i < doc.instances.len()
        invariant
            i <= doc.instances.len(),
            texts(ids@) == ids_of(doc@).take(i as int),
        decreases doc.instances.len() - i,
    {
        assert(doc@[i as int] == doc.instances@[i as int]@);
        let id = doc.instances[i].settings_id.clone();
        proof {
            lemma_texts_push(ids@, id);
            assert(ids_of(doc@).take(i + 1) =~= ids_of(doc@).take(i as int).push(id@));
        }
        ids.push(id);
        i += 1;
    }
    assert(texts(ids@) =~= ids_of(doc@));
    let mut instances: Vec<Instance> = Vec::new();
    let mut k: usize = 0;
    assert(models(instances@) =~= settled(doc@).take(0));
    while k < doc.instances.len()
        invariant
            k <= doc.instances.len(),
            texts(ids@) == ids_of(doc@),
            models(instances@) == settled(doc@).take(k as int),
        decreases doc.instances.len() - k,
    {
        assert(doc@[k as int] == doc.instances@[k as int]@);
        let x = &doc.instances[k];
        let y = Instance {
            settings_id: x.settings_id.clone(),
            name: x.name.clone(),
            class_name: x.class_name.clone(),
            parent_index: x.parent_index,
            properties: settle_fields(&x.properties, &ids),
            attributes: settle_fields(&x.attributes, &ids),
        };
        proof {
            lemma_models_push(instances@, y);
            assert(y@ == settled_instance(doc@[k as int], ids_of(doc@)));
            assert(settled(doc@).take(k + 1) =~= settled(doc@).take(k as int).push(y@));
        }
        instances.push(y);
        k += 1;
    }
    assert(settled(doc@).take(k as int) =~= settled(doc@));
    SettingsDocument { instances }
}

/// Writing references by id a second time changes nothing.
pub proof fn law_settled_stays(doc: Seq<InstanceModel>)
    ensures
        settled(settled(doc)) == settled(doc),
{
    let ids = ids_of(doc);
    assert(ids_of(settled(doc)) =~= ids);
    assert forall|i: int| 0 <= i < doc.len() implies settled(settled(doc))[i] == settled(doc)[i] by {
        lemma_fields_settled(doc[i].properties, ids);
        lemma_fields_settled(doc[i].attributes, ids);
    }
    assert(settled(settled(doc)) =~= settled(doc));
}

proof fn lemma_fields_settled(m: Map<Seq<char>, JsonModel>, ids: Seq<Seq<char>>)
    ensures
        settled_fields(settled_fields(m, ids), ids) == settled_fields(m, ids),
{
    assert forall|k: Seq<char>| m.dom().contains(k) implies settled_value(settled_value(m[k], ids), ids) == settled_value(
        m[k],
        ids,
    ) by {
        lemma_value_settled(m[k], ids);
    }
    assert(settled_fields(settled_fields(m, ids), ids) =~= settled_fields(m, ids));
}

proof fn lemma_value_settled(v: JsonModel, ids: Seq<Seq<char>>)
    ensures
        settled_value(settled_value(v, ids), ids) == settled_value(v, ids),
{
    reveal_strlit("_type");
    reveal_strlit("settingsId");
    reveal_strlit("instanceIndex");
    assert("instanceIndex"@.len() != "_type"@.len() && "instanceIndex"@.len() != "settingsId"@.len());
}

} // verus!
