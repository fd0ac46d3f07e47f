//! What a project of another tool says is what the project read from it says.
use vstd::prelude::*;

use crate::filter::texts_among;
use crate::json::JsonModel;
use crate::order::{ascending, Ordered};
use crate::paths::{joined_path, path_named, PathParts};
use crate::project::is_reserved_key;
use crate::rojo::{
    are_names, is_mounted_source, names_in_order, read_children, read_fields, read_node, read_project,
    read_services, values_at, ChildModel, ConvertedModel, MountModel, NodeModel, NormalModel, ReadNode,
    RojoErrorModel, SyncRuleModel, ValuesModel,
};
use crate::target::PathModel;
use crate::text::pieces;

verus! {

/// What stands at a path of names in an object.
pub open spec fn object_below(m: Map<Seq<char>, JsonModel>, path: Seq<Seq<char>>) -> Option<JsonModel>
    decreases path.len(),
{
    if path.len() == 0 || !m.dom().contains(path[0]) {
        None
    } else if path.len() == 1 {
        Some(m[path[0]])
    } else {
        match m[path[0]] {
            JsonModel::Object(inner) => object_below(inner, path.skip(1)),
            _ => None,
        }
    }
}

/// A declared instance among others.
pub open spec fn is_named(list: Seq<ChildModel>, name: Seq<char>, i: int) -> bool {
    0 <= i < list.len() && list[i].name == name && list[i].node is Some
}

/// The declared instance at a path of names below others.
pub open spec fn node_below(list: Seq<ChildModel>, path: Seq<Seq<char>>) -> Option<NodeModel>
    decreases path.len(),
{
    if path.len() == 0 || !(exists|i: int| is_named(list, path[0], i)) {
        None
    } else {
        let i = choose|i: int| is_named(list, path[0], i);
        if path.len() == 1 {
            list[i].node
        } else {
            node_below(list[i].node->0.children, path.skip(1))
        }
    }
}

/// No name starts with the sign that marks what is said of an instance itself.
pub open spec fn all_plain(path: Seq<Seq<char>>) -> bool {
    forall|k: int| 0 <= k < path.len() ==> (#[trigger] path[k]).len() == 0 || path[k][0] != '$'
}

/// Every object has finitely many members, as every one that was read has.
pub open spec fn members_finite(m: Map<Seq<char>, JsonModel>) -> bool {
    &&& m.dom().finite()
    &&& forall|path: Seq<Seq<char>>| #[trigger]
        object_below(m, path) is Some && object_below(m, path)->0 is Object ==> object_below(m, path)->0->Object_0.dom().finite()
}

/// The value that a name has: in its normal form, where one is given.
pub open spec fn is_normal(normal: Map<Seq<char>, NormalModel>, name: Seq<char>, raw: JsonModel, v: JsonModel) -> bool {
    if normal.dom().contains(name) && normal[name] is Value {
        v == normal[name]->Value_0
    } else {
        v == raw
    }
}

/// The object under a key; nothing where there is none.
pub open spec fn object_at(m: Map<Seq<char>, JsonModel>, key: Seq<char>) -> Map<Seq<char>, JsonModel> {
    if m.dom().contains(key) && m[key] is Object {
        m[key]->Object_0
    } else {
        Map::empty()
    }
}

/// A declared instance says what its JSON says: its class, id, tags and whether unknown instances are ignored,
/// each where the JSON has a value of that kind and nowhere else; its properties, but for attributes among
/// them; and its attributes, those of its own before those among the properties.
pub open spec fn says_what(m: Map<Seq<char>, JsonModel>, v: ValuesModel, node: NodeModel) -> bool {
    let p = object_at(m, "$properties"@);
    let among = object_at(p, "Attributes"@);
    let own = object_at(m, "$attributes"@);
    &&& node.class_name is Some <==> m.dom().contains("$className"@) && m["$className"@] is Text
    &&& m.dom().contains("$className"@) && m["$className"@] is Text ==> node.class_name == Some(m["$className"@]->Text_0)
    &&& node.id is Some <==> m.dom().contains("$id"@) && m["$id"@] is Text
    &&& m.dom().contains("$id"@) && m["$id"@] is Text ==> node.id == Some(m["$id"@]->Text_0)
    &&& node.ignore_unknown_instances is Some <==> m.dom().contains("$ignoreUnknownInstances"@)
        && m["$ignoreUnknownInstances"@] is Bool
    &&& node.ignore_unknown_instances is Some ==> m["$ignoreUnknownInstances"@] == JsonModel::Bool(
        node.ignore_unknown_instances->0,
    )
    &&& node.tags is Some <==> m.dom().contains("$tags"@) && m["$tags"@] is Array
    &&& node.tags is Some ==> are_the_texts(m["$tags"@]->Array_0, node.tags->0)
    &&& forall|key: Seq<char>| #[trigger]
        node.properties.dom().contains(key) <==> p.dom().contains(key) && !(key == "Attributes"@ && p[key] is Object)
    &&& forall|key: Seq<char>| #[trigger]
        node.properties.dom().contains(key) ==> is_normal(v.properties, key, p[key], node.properties[key])
    &&& forall|key: Seq<char>| #[trigger] node.attributes.dom().contains(key) <==> own.dom().contains(key) || among.dom().contains(key)
    &&& forall|key: Seq<char>| #[trigger]
        own.dom().contains(key) ==> is_normal(v.attributes, key, own[key], node.attributes[key])
    &&& forall|key: Seq<char>| #[trigger]
        among.dom().contains(key) && !own.dom().contains(key) ==> is_normal(
            v.property_attributes,
            key,
            among[key],
            node.attributes[key],
        )
}

/// A list holds the texts among some items, in their order.
pub open spec fn are_the_texts(items: Seq<JsonModel>, list: Seq<Seq<char>>) -> bool {
    list == items.filter(|x: JsonModel| x is Text).map_values(|x: JsonModel| x->Text_0)
}

proof fn lemma_texts_among(items: Seq<JsonModel>, n: nat)
    requires
        n <= items.len(),
    ensures
        are_the_texts(items.take(n as int), texts_among(items, n)),
    decreases n,
{
    let keep = |x: JsonModel| x is Text;
    let text = |x: JsonModel| x->Text_0;
    if n > 0 {
        lemma_texts_among(items, (n - 1) as nat);
        let before = items.take(n - 1);
        let x = items[n - 1];
        assert(items.take(n as int) =~= before.push(x));
        before.lemma_filter_push(x, keep);
        let kept = before.filter(keep);
        if x is Text {
            assert(kept.push(x).map_values(text) =~= kept.map_values(text).push(text(x)));
        }
    } else {
        reveal(Seq::filter);
        assert(items.take(0).filter(keep).map_values(text) =~= Seq::empty());
    }
}

proof fn lemma_fields_say(m: Map<Seq<char>, JsonModel>, v: ValuesModel, target: Option<Seq<char>>)
    requires
        read_fields(m, v, target) is Ok,
    ensures
        says_what(m, v, read_fields(m, v, target)->Ok_0),
{
    let node = read_fields(m, v, target)->Ok_0;
    if m.dom().contains("$tags"@) && m["$tags"@] is Array {
        let items = m["$tags"@]->Array_0;
        lemma_texts_among(items, items.len());
        assert(items.take(items.len() as int) =~= items);
    }
    assert(object_at(m, "$properties"@) =~= crate::rojo::json_object(crate::link_apply::value_of(m, "$properties"@)));
    assert(object_at(m, "$attributes"@) =~= crate::rojo::json_object(crate::link_apply::value_of(m, "$attributes"@)));
    let p = object_at(m, "$properties"@);
    assert(object_at(p, "Attributes"@) =~= crate::rojo::json_object(crate::link_apply::value_of(p, "Attributes"@)));
}

proof fn lemma_gap(list: Seq<Seq<char>>, x: Seq<char>, k: int) -> (at: int)
    requires
        ascending::<String>(list),
        !list.contains(x),
        0 <= k <= list.len(),
        forall|i: int| 0 <= i < k ==> String::before(#[trigger] list[i], x),
    ensures
        0 <= at <= list.len(),
        forall|i: int| 0 <= i < at ==> String::before(#[trigger] list[i], x),
        forall|i: int| at <= i < list.len() ==> String::before(x, #[trigger] list[i]),
    decreases list.len() - k,
{
    if k == list.len() {
        k
    } else {
        String::lemma_total(list[k], x);
        assert(list.contains(list[k]));
        if String::before(x, list[k]) {
            assert forall|i: int| k <= i < list.len() implies String::before(x, #[trigger] list[i]) by {
                if i > k {
                    assert(String::before(list[k], list[i]));
                    String::lemma_transitive(x, list[k], list[i]);
                }
            }
            k
        } else {
            lemma_gap(list, x, k + 1)
        }
    }
}

proof fn lemma_ordered_list(keys: Set<Seq<char>>) -> (list: Seq<Seq<char>>)
    requires
        keys.finite(),
    ensures
        ascending::<String>(list),
        forall|k: Seq<char>| #[trigger] list.contains(k) <==> keys.contains(k),
    decreases keys.len(),
{
    if keys.len() == 0 {
        assert(keys =~= Set::empty());
        Seq::empty()
    } else {
        let x = keys.choose();
        let rest = lemma_ordered_list(keys.remove(x));
        let at = lemma_gap(rest, x, 0);
        let list = rest.insert(at, x);
        assert forall|i: int, j: int| 0 <= i < j < list.len() implies String::before(#[trigger] list[i], #[trigger] list[j]) by {
            if i < at && j > at {
                assert(String::before(rest[i], rest[j - 1]));
            } else if j < at {
                assert(String::before(rest[i], rest[j]));
            } else if i > at {
                assert(String::before(rest[i - 1], rest[j - 1]));
            } else if i == at {
                assert(String::before(x, rest[j - 1]));
            } else {
                assert(String::before(rest[i], x));
            }
        }
        assert forall|k: Seq<char>| #[trigger] list.contains(k) <==> keys.contains(k) by {
            if list.contains(k) {
                let i = choose|i: int| 0 <= i < list.len() && list[i] == k;
                if i < at {
                    assert(rest.contains(rest[i]));
                } else if i > at {
                    assert(rest.contains(rest[i - 1]));
                }
            }
            if keys.contains(k) && k != x {
                assert(rest.contains(k));
                let i = choose|i: int| 0 <= i < rest.len() && rest[i] == k;
                if i < at {
                    assert(list[i] == k);
                } else {
                    assert(list[i + 1] == k);
                }
            }
            if k == x {
                assert(list[at] == x);
            }
        }
        list
    }
}

proof fn lemma_names(m: Map<Seq<char>, JsonModel>)
    requires
        m.dom().finite(),
    ensures
        are_names(m, names_in_order(m)),
{
    let list = lemma_ordered_list(m.dom());
    assert(are_names(m, list));
}

proof fn lemma_ascending_apart(list: Seq<Seq<char>>, i: int, j: int)
    requires
        ascending::<String>(list),
        0 <= i < list.len(),
        0 <= j < list.len(),
        list[i] == list[j],
    ensures
        i == j,
{
    if i < j {
        assert(String::before(list[i], list[j]));
        String::lemma_total(list[i], list[j]);
    } else if j < i {
        assert(String::before(list[j], list[i]));
        String::lemma_total(list[j], list[i]);
    }
}

/// The declared instances that were read are those of some names, each once.
spec fn is_child_list(
    root: PathParts,
    source_root: PathParts,
    values: Map<Seq<char>, ValuesModel>,
    prefix: Option<Seq<char>>,
    at: PathParts,
    m: Map<Seq<char>, JsonModel>,
    names: Seq<Seq<char>>,
    list: Seq<ChildModel>,
    mounts: Seq<MountModel>,
) -> bool {
    &&& forall|i: int|
        0 <= i < list.len() ==> {
            let name = (#[trigger] list[i]).name;
            &&& names.contains(name)
            &&& !is_reserved_key(name)
            &&& m.dom().contains(name)
            &&& child_read(root, source_root, values, prefix, at, m, name) is Ok
            &&& list[i].node == Some(child_read(root, source_root, values, prefix, at, m, name)->Ok_0.node)
        }
    &&& forall|name: Seq<char>| #[trigger]
        names.contains(name) && !is_reserved_key(name) && m.dom().contains(name) ==> (exists|i: int| is_named(list, name, i)) && (
        forall|mount: MountModel|
            child_read(root, source_root, values, prefix, at, m, name)->Ok_0.mounts.contains(mount) ==> #[trigger] mounts.contains(
                mount,
            ))
    &&& forall|mount: MountModel| #[trigger]
        mounts.contains(mount) ==> exists|name: Seq<char>|
            #![trigger m.dom().contains(name)]
            names.contains(name) && !is_reserved_key(name) && m.dom().contains(name) && child_read(
                root,
                source_root,
                values,
                prefix,
                at,
                m,
                name,
            )->Ok_0.mounts.contains(mount)
    &&& forall|i: int, j: int| 0 <= i < j < list.len() ==> (#[trigger] list[i]).name != (#[trigger] list[j]).name
}

/// The names on the way to a declared instance, with dots between them.
pub open spec fn dotted(target: Option<Seq<char>>, name: Seq<char>) -> Seq<char> {
    match target {
        Some(target) => target + "."@ + name,
        None => name,
    }
}

/// Where the source root has the files of a declared instance.
pub open spec fn placed_at(at: PathParts, service: bool, name: Seq<char>) -> PathParts {
    if service {
        path_named(name)
    } else {
        joined_path(at, path_named(name))
    }
}

spec fn child_read(
    root: PathParts,
    source_root: PathParts,
    values: Map<Seq<char>, ValuesModel>,
    prefix: Option<Seq<char>>,
    at: PathParts,
    m: Map<Seq<char>, JsonModel>,
    name: Seq<char>,
) -> Result<ReadNode, RojoErrorModel> {
    read_node(root, source_root, values, dotted(prefix, name), placed_at(at, prefix is None, name), m[name])
}

proof fn lemma_list_grows(
    root: PathParts,
    source_root: PathParts,
    values: Map<Seq<char>, ValuesModel>,
    prefix: Option<Seq<char>>,
    at: PathParts,
    m: Map<Seq<char>, JsonModel>,
    names: Seq<Seq<char>>,
    n: nat,
    list: Seq<ChildModel>,
    mounts: Seq<MountModel>,
)
    requires
        0 < n <= names.len(),
        ascending::<String>(names),
        is_child_list(root, source_root, values, prefix, at, m, names.take(n - 1), list, mounts),
    ensures
        is_reserved_key(names[n - 1]) || !m.dom().contains(names[n - 1]) ==> is_child_list(
            root,
            source_root,
            values,
            prefix,
            at,
            m,
            names.take(n as int),
            list,
            mounts,
        ),
        !is_reserved_key(names[n - 1]) && m.dom().contains(names[n - 1]) && child_read(
            root,
            source_root,
            values,
            prefix,
            at,
            m,
            names[n - 1],
        ) is Ok ==> is_child_list(
            root,
            source_root,
            values,
            prefix,
            at,
            m,
            names.take(n as int),
            list.push(
                ChildModel {
                    name: names[n - 1],
                    node: Some(child_read(root, source_root, values, prefix, at, m, names[n - 1])->Ok_0.node),
                },
            ),
            mounts + child_read(root, source_root, values, prefix, at, m, names[n - 1])->Ok_0.mounts,
        ),
{
    let before = names.take(n - 1);
    let after = names.take(n as int);
    let new = names[n - 1];
    assert forall|x: Seq<char>| #[trigger] after.contains(x) <==> before.contains(x) || x == new by {
        if after.contains(x) {
            let i = choose|i: int| 0 <= i < after.len() && after[i] == x;
            if i < n - 1 {
                assert(before[i] == x);
            }
        }
        if before.contains(x) {
            let i = choose|i: int| 0 <= i < before.len() && before[i] == x;
            assert(after[i] == x);
        }
        if x == new {
            assert(after[n - 1] == x);
        }
    }
    let read = child_read(root, source_root, values, prefix, at, m, new);
    if !is_reserved_key(new) && m.dom().contains(new) && read is Ok {
        let longer = list.push(ChildModel { name: new, node: Some(read->Ok_0.node) });
        let more = mounts + read->Ok_0.mounts;
        assert(!before.contains(new)) by {
            if before.contains(new) {
                let i = choose|i: int| 0 <= i < before.len() && before[i] == new;
                lemma_ascending_apart(names, i, n - 1);
            }
        }
        assert forall|mount: MountModel| #[trigger] more.contains(mount) <==> mounts.contains(mount)
            || read->Ok_0.mounts.contains(mount) by {
            if mounts.contains(mount) {
                let i = choose|i: int| 0 <= i < mounts.len() && mounts[i] == mount;
                assert(more[i] == mount);
            }
            if read->Ok_0.mounts.contains(mount) {
                let i = choose|i: int| 0 <= i < read->Ok_0.mounts.len() && read->Ok_0.mounts[i] == mount;
                assert(more[mounts.len() + i] == mount);
            }
            if more.contains(mount) {
                let i = choose|i: int| 0 <= i < more.len() && more[i] == mount;
                if i < mounts.len() {
                    assert(mounts[i] == mount);
                } else {
                    assert(read->Ok_0.mounts[i - mounts.len()] == mount);
                }
            }
        }
        assert forall|name: Seq<char>| #[trigger]
            after.contains(name) && !is_reserved_key(name) && m.dom().contains(name) implies exists|i: int|
            is_named(longer, name, i) by {
            if name == new {
                assert(is_named(longer, name, list.len() as int));
            } else {
                assert(before.contains(name));
                let i = choose|i: int| is_named(list, name, i);
                assert(is_named(longer, name, i));
            }
        }
        assert forall|i: int| 0 <= i < longer.len() implies {
            let name = (#[trigger] longer[i]).name;
            &&& after.contains(name)
            &&& !is_reserved_key(name)
            &&& m.dom().contains(name)
            &&& child_read(root, source_root, values, prefix, at, m, name) is Ok
            &&& longer[i].node == Some(child_read(root, source_root, values, prefix, at, m, name)->Ok_0.node)
        } by {
            if i < list.len() {
                assert(longer[i] == list[i]);
            }
        }
        assert forall|i: int, j: int| 0 <= i < j < longer.len() implies (#[trigger] longer[i]).name != (#[trigger] longer[j]).name by {
            assert(longer[i] == list[i]);
            if j < list.len() {
                assert(longer[j] == list[j]);
            }
        }
    }
}

proof fn lemma_children(
    root: PathParts,
    source_root: PathParts,
    values: Map<Seq<char>, ValuesModel>,
    target: Seq<char>,
    at: PathParts,
    m: Map<Seq<char>, JsonModel>,
    names: Seq<Seq<char>>,
    n: nat,
)
    requires
        n <= names.len(),
        ascending::<String>(names),
        read_children(root, source_root, values, target, at, JsonModel::Object(m), names, n) is Ok,
    ensures
        is_child_list(
            root,
            source_root,
            values,
            Some(target),
            at,
            m,
            names.take(n as int),
            read_children(root, source_root, values, target, at, JsonModel::Object(m), names, n)->Ok_0.0,
            read_children(root, source_root, values, target, at, JsonModel::Object(m), names, n)->Ok_0.1,
        ),
    decreases n,
{
    if n > 0 {
        lemma_children(root, source_root, values, target, at, m, names, (n - 1) as nat);
        let before = read_children(root, source_root, values, target, at, JsonModel::Object(m), names, (n - 1) as nat)->Ok_0;
        lemma_list_grows(root, source_root, values, Some(target), at, m, names, n, before.0, before.1);
    }
}

proof fn lemma_services(
    root: PathParts,
    source_root: PathParts,
    values: Map<Seq<char>, ValuesModel>,
    tree: Map<Seq<char>, JsonModel>,
    names: Seq<Seq<char>>,
    n: nat,
)
    requires
        n <= names.len(),
        ascending::<String>(names),
        read_services(root, source_root, values, tree, names, n) is Ok,
    ensures
        is_child_list(
            root,
            source_root,
            values,
            None,
            source_root,
            tree,
            names.take(n as int),
            read_services(root, source_root, values, tree, names, n)->Ok_0.0,
            read_services(root, source_root, values, tree, names, n)->Ok_0.1,
        ),
    decreases n,
{
    if n > 0 {
        lemma_services(root, source_root, values, tree, names, (n - 1) as nat);
        let before = read_services(root, source_root, values, tree, names, (n - 1) as nat)->Ok_0;
        lemma_list_grows(root, source_root, values, None, source_root, tree, names, n, before.0, before.1);
    }
}

/// The source that JSON names.
pub open spec fn named_source(m: Map<Seq<char>, JsonModel>) -> Option<PathParts> {
    if m.dom().contains("$path"@) && m["$path"@] is Text {
        Some(path_named(m["$path"@]->Text_0))
    } else {
        None
    }
}

/// A declared instance has the source that its JSON names, unless a mount stands for it or the source root has
/// it there anyway. One that is mounted is among the mounts, at the target of the instance.
pub open spec fn has_its_source(
    root: PathParts,
    source_root: PathParts,
    target: Seq<char>,
    at: PathParts,
    m: Map<Seq<char>, JsonModel>,
    node: NodeModel,
    mounts: Seq<MountModel>,
) -> bool {
    match named_source(m) {
        None => node.path is None,
        Some(source) => if is_mounted_source(joined_path(root, source)) {
            &&& node.path is None
            &&& exists|i: int|
                0 <= i < mounts.len() && (#[trigger] mounts[i]).source == source && mounts[i].target == (PathModel {
                    segments: pieces(target, '.'),
                    ordinals: Seq::empty(),
                }) && !mounts[i].optional
        } else if source == joined_path(source_root, at) {
            node.path is None
        } else {
            node.path == Some(source)
        },
    }
}

/// The target of what stands at a path of names.
pub open spec fn target_below(prefix: Option<Seq<char>>, path: Seq<Seq<char>>) -> Option<Seq<char>>
    decreases path.len(),
{
    if path.len() == 0 {
        prefix
    } else {
        target_below(Some(dotted(prefix, path[0])), path.skip(1))
    }
}

/// Where the source root has what stands at a path of names.
pub open spec fn place_below(prefix: Option<Seq<char>>, at: PathParts, path: Seq<Seq<char>>) -> PathParts
    decreases path.len(),
{
    if path.len() == 0 {
        at
    } else {
        place_below(Some(dotted(prefix, path[0])), placed_at(at, prefix is None, path[0]), path.skip(1))
    }
}

proof fn lemma_below(
    root: PathParts,
    source_root: PathParts,
    values: Map<Seq<char>, ValuesModel>,
    prefix: Option<Seq<char>>,
    at: PathParts,
    m: Map<Seq<char>, JsonModel>,
    list: Seq<ChildModel>,
    mounts: Seq<MountModel>,
    path: Seq<Seq<char>>,
)
    requires
        path.len() > 0,
        members_finite(m),
        is_child_list(root, source_root, values, prefix, at, m, names_in_order(m), list, mounts),
    ensures
        node_below(list, path) is Some <==> all_plain(path) && object_below(m, path) is Some,
        node_below(list, path) is Some ==> {
            let target = target_below(prefix, path)->0;
            &&& target_below(prefix, path) is Some
            &&& object_below(m, path)->0 is Object
            &&& says_what(object_below(m, path)->0->Object_0, values_at(values, target), node_below(list, path)->0)
            &&& has_its_source(
                root,
                source_root,
                target,
                place_below(prefix, at, path),
                object_below(m, path)->0->Object_0,
                node_below(list, path)->0,
                mounts,
            )
        },
    decreases path.len(),
{
    let name = path[0];
    let names = names_in_order(m);
    lemma_names(m);
    assert(names.contains(name) <==> m.dom().contains(name));
    if exists|i: int| is_named(list, name, i) {
        let i = choose|i: int| is_named(list, name, i);
        assert(list[i].name == name);
        let target = dotted(prefix, name);
        let inner_at = placed_at(at, prefix is None, name);
        let read = child_read(root, source_root, values, prefix, at, m, name);
        assert(read is Ok);
        assert(m[name] is Object);
        let o = m[name]->Object_0;
        let node = read->Ok_0.node;
        assert(list[i].node == Some(node));
        lemma_fields_say(o, values_at(values, target), Some(target));
        let rest = path.skip(1);
        assert(object_below(m, seq![name]) == Some(m[name]));
        assert(o.dom().finite());
        lemma_names(o);
        let inner = names_in_order(o);
        let below = read_children(root, source_root, values, target, inner_at, m[name], inner, inner.len())->Ok_0;
        assert(m[name] == JsonModel::Object(o));
        lemma_children(root, source_root, values, target, inner_at, o, inner, inner.len());
        assert(inner.take(inner.len() as int) =~= inner);
        assert(forall|k: int| 0 <= k < rest.len() ==> #[trigger] rest[k] == path[k + 1]);
        assert(all_plain(path) <==> all_plain(rest)) by {
            if all_plain(rest) {
                assert forall|k: int| 0 <= k < path.len() implies (#[trigger] path[k]).len() == 0 || path[k][0] != '$' by {
                    if k > 0 {
                        assert(rest[k - 1] == path[k]);
                    }
                }
            }
        }
        assert forall|mount: MountModel| read->Ok_0.mounts.contains(mount) implies #[trigger] mounts.contains(mount) by {}
        if path.len() == 1 {
            assert(target_below(prefix, path) == target_below(Some(target), rest));
            assert(place_below(prefix, at, path) == place_below(Some(target), inner_at, rest));
            assert(says_what(o, values_at(values, target), node));
            if named_source(o) is Some && is_mounted_source(joined_path(root, named_source(o)->0)) {
                let mount = read->Ok_0.mounts[0];
                assert(read->Ok_0.mounts.contains(mount));
                assert(mounts.contains(mount));
                let at_mount = choose|k: int| 0 <= k < mounts.len() && mounts[k] == mount;
                assert(mounts[at_mount].source == named_source(o)->0);
            }
        } else {
            assert forall|deeper: Seq<Seq<char>>| #[trigger]
                object_below(o, deeper) is Some && object_below(o, deeper)->0 is Object implies object_below(
                o,
                deeper,
            )->0->Object_0.dom().finite() by {
                let whole = seq![name] + deeper;
                assert(whole.skip(1) =~= deeper);
                assert(object_below(m, whole) == object_below(o, deeper));
            }
            let here = read->Ok_0.mounts;
            assert forall|mount: MountModel| #[trigger] below.1.contains(mount) implies here.contains(mount) by {
                let k = choose|k: int| 0 <= k < below.1.len() && below.1[k] == mount;
                let own = crate::rojo::own_mount(root, target, o);
                assert((own + below.1)[own.len() + k] == mount);
            }
            lemma_below(root, source_root, values, Some(target), inner_at, o, below.0, below.1, rest);
            assert(node.children == below.0);
            assert(node_below(list, path) == node_below(below.0, rest));
            assert(object_below(m, path) == object_below(o, rest));
            if node_below(list, path) is Some {
                let inner_json = object_below(o, rest)->0->Object_0;
                let inner_target = target_below(Some(target), rest)->0;
                if named_source(inner_json) is Some && is_mounted_source(joined_path(root, named_source(inner_json)->0)) {
                    let source = named_source(inner_json)->0;
                    let k = choose|k: int|
                        0 <= k < below.1.len() && (#[trigger] below.1[k]).source == source && below.1[k].target == (PathModel {
                            segments: pieces(inner_target, '.'),
                            ordinals: Seq::empty(),
                        }) && !below.1[k].optional;
                    assert(below.1.contains(below.1[k]));
                    assert(mounts.contains(below.1[k]));
                    let q = choose|q: int| 0 <= q < mounts.len() && mounts[q] == below.1[k];
                    assert(mounts[q].source == source);
                }
            }
        }
    } else {
        if all_plain(path) {
            assert(!is_reserved_key(path[0]));
            assert(!m.dom().contains(name));
        }
    }
}

/// A project that was read says what the JSON says. Its root says what the tree says of itself; a declared
/// instance stands at a path of names exactly where an object does that no reserved key leads to; and each one
/// says what its object says: its class exactly where a text stands under `$className`, its id, tags,
/// properties and attributes, and where its source is.
pub proof fn law_converted_project_says_what_the_json_says(
    root: PathParts,
    v: JsonModel,
    rules: Seq<SyncRuleModel>,
    root_values: ValuesModel,
    values: Map<Seq<char>, ValuesModel>,
    path: Seq<Seq<char>>,
)
    requires
        read_project(root, v, rules, root_values, values) is Ok,
        members_finite(v->Object_0["tree"@]->Object_0),
        path.len() > 0,
    ensures
        ({
            let p = read_project(root, v, rules, root_values, values)->Ok_0;
            let o = v->Object_0;
            let tree = o["tree"@]->Object_0;
            &&& v is Object && o.dom().contains("tree"@) && o["tree"@] is Object
            &&& says_what(tree, root_values, p.root)
            &&& p.root.path is None
            &&& o.dom().contains("name"@) && o["name"@] is Text ==> p.name == Some(o["name"@]->Text_0)
            &&& !(o.dom().contains("name"@) && o["name"@] is Text) ==> p.name is None
            &&& p.source_root == match named_source(tree) {
                Some(source) => source,
                None => PathParts { rooted: false, parts: seq!["src"@] },
            }
            &&& p.sync_rules == rules
            &&& o.dom().contains("globIgnorePaths"@) && o["globIgnorePaths"@] is Array ==> are_the_texts(
                o["globIgnorePaths"@]->Array_0,
                p.glob_ignore_paths,
            )
            &&& !(o.dom().contains("globIgnorePaths"@) && o["globIgnorePaths"@] is Array) ==> p.glob_ignore_paths.len() == 0
            &&& node_below(p.tree, path) is Some <==> all_plain(path) && object_below(tree, path) is Some
            &&& node_below(p.tree, path) is Some ==> {
                let target = target_below(None, path)->0;
                let at = object_below(tree, path)->0;
                &&& at is Object
                &&& says_what(at->Object_0, values_at(values, target), node_below(p.tree, path)->0)
                &&& has_its_source(
                    root,
                    p.source_root,
                    target,
                    place_below(None, p.source_root, path),
                    at->Object_0,
                    node_below(p.tree, path)->0,
                    p.mounts,
                )
            }
        }),
{
    let p = read_project(root, v, rules, root_values, values)->Ok_0;
    let o = v->Object_0;
    let tree = o["tree"@]->Object_0;
    lemma_fields_say(tree, root_values, None);
    lemma_names(tree);
    let names = names_in_order(tree);
    lemma_services(root, p.source_root, values, tree, names, names.len());
    assert(names.take(names.len() as int) =~= names);
    lemma_below(root, p.source_root, values, None, p.source_root, tree, p.tree, p.mounts, path);
    if o.dom().contains("globIgnorePaths"@) && o["globIgnorePaths"@] is Array {
        let items = o["globIgnorePaths"@]->Array_0;
        lemma_texts_among(items, items.len());
        assert(items.take(items.len() as int) =~= items);
    }
}

/// A root that is no object is refused as such, and only it; one without an object for a tree is refused for
/// that.
pub proof fn law_reading_fails_for_the_root_and_the_tree(
    root: PathParts,
    v: JsonModel,
    rules: Seq<SyncRuleModel>,
    root_values: ValuesModel,
    values: Map<Seq<char>, ValuesModel>,
)
    ensures
        v !is Object <==> read_project(root, v, rules, root_values, values) == Err::<ConvertedModel, RojoErrorModel>(
            RojoErrorModel::RootNotObject,
        ),
        v is Object && !(v->Object_0.dom().contains("tree"@) && v->Object_0["tree"@] is Object) ==> read_project(
            root,
            v,
            rules,
            root_values,
            values,
        ) == Err::<ConvertedModel, RojoErrorModel>(RojoErrorModel::NoTree),
{
    if v is Object && v->Object_0.dom().contains("tree"@) && v->Object_0["tree"@] is Object {
        let tree = v->Object_0["tree"@]->Object_0;
        let names = names_in_order(tree);
        let source_root = crate::rojo::read_source_root(tree);
        lemma_services_errors(root, source_root, values, tree, names, names.len());
    }
}

proof fn lemma_node_errors(
    root: PathParts,
    source_root: PathParts,
    values: Map<Seq<char>, ValuesModel>,
    target: Seq<char>,
    at: PathParts,
    v: JsonModel,
)
    requires
        read_node(root, source_root, values, target, at, v) is Err,
    ensures
        read_node(root, source_root, values, target, at, v)->Err_0 is NodeNotObject || read_node(
            root,
            source_root,
            values,
            target,
            at,
            v,
        )->Err_0 is InvalidValue,
    decreases
            v,
            (match v {
                JsonModel::Object(m) => names_in_order(m).len(),
                _ => 0,
            }) + 1,
{
    if v is Object {
        let m = v->Object_0;
        if read_fields(m, values_at(values, target), Some(target)) is Ok {
            lemma_children_errors(root, source_root, values, target, at, v, names_in_order(m), names_in_order(m).len());
        }
    }
}

proof fn lemma_children_errors(
    root: PathParts,
    source_root: PathParts,
    values: Map<Seq<char>, ValuesModel>,
    target: Seq<char>,
    at: PathParts,
    v: JsonModel,
    names: Seq<Seq<char>>,
    n: nat,
)
    requires
        read_children(root, source_root, values, target, at, v, names, n) is Err,
    ensures
        read_children(root, source_root, values, target, at, v, names, n)->Err_0 is NodeNotObject || read_children(
            root,
            source_root,
            values,
            target,
            at,
            v,
            names,
            n,
        )->Err_0 is InvalidValue,
    decreases v, n,
{
    if n > 0 && n <= names.len() {
        if read_children(root, source_root, values, target, at, v, names, (n - 1) as nat) is Err {
            lemma_children_errors(root, source_root, values, target, at, v, names, (n - 1) as nat);
        } else {
            let name = names[n - 1];
            let m = v->Object_0;
            lemma_node_errors(root, source_root, values, target + "."@ + name, joined_path(at, path_named(name)), m[name]);
        }
    }
}

proof fn lemma_services_errors(
    root: PathParts,
    source_root: PathParts,
    values: Map<Seq<char>, ValuesModel>,
    tree: Map<Seq<char>, JsonModel>,
    names: Seq<Seq<char>>,
    n: nat,
)
    ensures
        match read_services(root, source_root, values, tree, names, n) {
            Ok(_) => true,
            Err(e) => e is NodeNotObject || e is InvalidValue,
        },
    decreases n,
{
    if n > 0 && n <= names.len() {
        lemma_services_errors(root, source_root, values, tree, names, (n - 1) as nat);
        if read_services(root, source_root, values, tree, names, (n - 1) as nat) is Ok {
            let name = names[n - 1];
            if tree.dom().contains(name) && read_node(root, source_root, values, name, path_named(name), tree[name]) is Err {
                lemma_node_errors(root, source_root, values, name, path_named(name), tree[name]);
            }
        }
    }
}

/// No value is said to have no normal form.
pub open spec fn none_invalid(v: ValuesModel) -> bool {
    &&& forall|name: Seq<char>| #[trigger] v.properties.dom().contains(name) ==> v.properties[name] is Value
    &&& forall|name: Seq<char>| #[trigger] v.property_attributes.dom().contains(name) ==> v.property_attributes[name] is Value
    &&& forall|name: Seq<char>| #[trigger] v.attributes.dom().contains(name) ==> v.attributes[name] is Value
}

proof fn lemma_none_first(normal: Map<Seq<char>, NormalModel>, names: Seq<Seq<char>>, i: int)
    requires
        0 <= i,
        forall|name: Seq<char>| #[trigger] normal.dom().contains(name) ==> normal[name] is Value,
    ensures
        crate::rojo::first_invalid(normal, names, i) is None,
    decreases names.len() - i,
{
    if i < names.len() {
        lemma_none_first(normal, names, i + 1);
    }
}

proof fn lemma_none_property(p: Map<Seq<char>, JsonModel>, v: ValuesModel, names: Seq<Seq<char>>, i: int)
    requires
        0 <= i,
        none_invalid(v),
    ensures
        crate::rojo::invalid_property(p, v, names, i) is None,
    decreases names.len() - i,
{
    if i < names.len() {
        lemma_none_property(p, v, names, i + 1);
        let inner = crate::rojo::json_object(crate::link_apply::value_of(p, "Attributes"@));
        lemma_none_first(v.property_attributes, names_in_order(inner), 0);
    }
}

proof fn lemma_fields_read(m: Map<Seq<char>, JsonModel>, v: ValuesModel, target: Option<Seq<char>>)
    requires
        none_invalid(v),
    ensures
        read_fields(m, v, target) is Ok,
{
    let p = crate::rojo::json_object(crate::link_apply::value_of(m, "$properties"@));
    lemma_none_property(p, v, names_in_order(p), 0);
    let own = crate::rojo::json_object(crate::link_apply::value_of(m, "$attributes"@));
    lemma_none_first(v.attributes, names_in_order(own), 0);
}

/// Whatever names without the reserved sign lead to is an object.
pub open spec fn nodes_are_objects(m: Map<Seq<char>, JsonModel>) -> bool {
    forall|path: Seq<Seq<char>>| #[trigger]
        object_below(m, path) is Some && all_plain(path) ==> object_below(m, path)->0 is Object
}

proof fn lemma_inner_nodes(m: Map<Seq<char>, JsonModel>, name: Seq<char>)
    requires
        nodes_are_objects(m),
        m.dom().contains(name),
        !is_reserved_key(name),
    ensures
        m[name] is Object,
        nodes_are_objects(m[name]->Object_0),
{
    let one = seq![name];
    assert(all_plain(one));
    assert(object_below(m, one) == Some(m[name]));
    let o = m[name]->Object_0;
    assert forall|path: Seq<Seq<char>>| #[trigger] object_below(o, path) is Some && all_plain(path) implies object_below(
        o,
        path,
    )->0 is Object by {
        let whole = seq![name] + path;
        assert(whole.skip(1) =~= path);
        assert forall|k: int| 0 <= k < whole.len() implies (#[trigger] whole[k]).len() == 0 || whole[k][0] != '$' by {
            if k > 0 {
                assert(whole[k] == path[k - 1]);
            }
        }
        assert(object_below(m, whole) == object_below(o, path));
    }
}

proof fn lemma_node_read(
    root: PathParts,
    source_root: PathParts,
    values: Map<Seq<char>, ValuesModel>,
    target: Seq<char>,
    at: PathParts,
    v: JsonModel,
)
    requires
        forall|t: Seq<char>| #[trigger] values.dom().contains(t) ==> none_invalid(values[t]),
        v is Object,
        nodes_are_objects(v->Object_0),
    ensures
        read_node(root, source_root, values, target, at, v) is Ok,
    decreases
            v,
            (match v {
                JsonModel::Object(m) => names_in_order(m).len(),
                _ => 0,
            }) + 1,
{
    let m = v->Object_0;
    assert(none_invalid(values_at(values, target))) by {
        if values.dom().contains(target) {
            assert(none_invalid(values[target]));
        }
    }
    lemma_fields_read(m, values_at(values, target), Some(target));
    lemma_children_read(root, source_root, values, target, at, v, names_in_order(m), names_in_order(m).len());
}

proof fn lemma_children_read(
    root: PathParts,
    source_root: PathParts,
    values: Map<Seq<char>, ValuesModel>,
    target: Seq<char>,
    at: PathParts,
    v: JsonModel,
    names: Seq<Seq<char>>,
    n: nat,
)
    requires
        forall|t: Seq<char>| #[trigger] values.dom().contains(t) ==> none_invalid(values[t]),
        v is Object,
        nodes_are_objects(v->Object_0),
    ensures
        read_children(root, source_root, values, target, at, v, names, n) is Ok,
    decreases v, n,
{
    if n > 0 && n <= names.len() {
        lemma_children_read(root, source_root, values, target, at, v, names, (n - 1) as nat);
        let name = names[n - 1];
        let m = v->Object_0;
        if !is_reserved_key(name) && m.dom().contains(name) {
            lemma_inner_nodes(m, name);
            lemma_node_read(root, source_root, values, target + "."@ + name, joined_path(at, path_named(name)), m[name]);
        }
    }
}

proof fn lemma_services_read(
    root: PathParts,
    source_root: PathParts,
    values: Map<Seq<char>, ValuesModel>,
    tree: Map<Seq<char>, JsonModel>,
    names: Seq<Seq<char>>,
    n: nat,
)
    requires
        forall|t: Seq<char>| #[trigger] values.dom().contains(t) ==> none_invalid(values[t]),
        nodes_are_objects(tree),
    ensures
        read_services(root, source_root, values, tree, names, n) is Ok,
    decreases n,
{
    if n > 0 && n <= names.len() {
        lemma_services_read(root, source_root, values, tree, names, (n - 1) as nat);
        let name = names[n - 1];
        if !is_reserved_key(name) && tree.dom().contains(name) {
            lemma_inner_nodes(tree, name);
            lemma_node_read(root, source_root, values, name, path_named(name), tree[name]);
        }
    }
}

/// A project whose nodes are all objects is read, where no value is said to have no normal form.
pub proof fn law_readable_project_is_read(
    root: PathParts,
    v: JsonModel,
    rules: Seq<SyncRuleModel>,
    root_values: ValuesModel,
    values: Map<Seq<char>, ValuesModel>,
)
    requires
        v is Object,
        v->Object_0.dom().contains("tree"@),
        v->Object_0["tree"@] is Object,
        nodes_are_objects(v->Object_0["tree"@]->Object_0),
        none_invalid(root_values),
        forall|t: Seq<char>| #[trigger] values.dom().contains(t) ==> none_invalid(values[t]),
    ensures
        read_project(root, v, rules, root_values, values) is Ok,
{
    let tree = v->Object_0["tree"@]->Object_0;
    lemma_fields_read(tree, root_values, None);
    let names = names_in_order(tree);
    lemma_services_read(root, crate::rojo::read_source_root(tree), values, tree, names, names.len());
}

} // verus!
