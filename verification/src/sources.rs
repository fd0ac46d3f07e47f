//! The sources of scripts in documents, and what files and properties stand for.
use vstd::prelude::*;

use crate::document::{as_ints, lemma_models_update, InstanceModel, SettingsDocument};
use crate::json::{put, Json, JsonModel};
use crate::link_apply::value_of;
use crate::order::{ascending, SortedSet};
use crate::pack::{is_lua_source_class, is_script_class};
use crate::paths::{joined_path, opt_path, path_views, FilePath, PathParts};
use crate::project::{all_tree_nodes, key_at, project_tree_nodes, tree_views, FactModel, Files, LoadedProject, ReniumProject};
use crate::staged_paths::node_sources;
use crate::table::{key_views, Table};
use crate::text::{same, subtexts, texts, texts_start_with};
use crate::wally_sync::PathKey;

verus! {

broadcast use vstd::seq_lib::group_seq_properties;

/// The source of the script at an index is a file that goes into the document.
pub open spec fn takes_source(doc: Seq<InstanceModel>, has_file: Seq<bool>, i: int) -> bool {
    0 <= i < doc.len() && is_script_class(doc[i].class_name) && i < has_file.len() && has_file[i]
}

pub open spec fn with_source(doc: Seq<InstanceModel>, i: int, source: Seq<char>) -> Seq<InstanceModel> {
    doc.update(i, InstanceModel { properties: doc[i].properties.insert("Source"@, JsonModel::Text(source)), ..doc[i] })
}

/// The document with the sources of the scripts at indices from `k` on in it; `Err` is an index whose
/// source is not known.
pub open spec fn inlined_from(
    doc: Seq<InstanceModel>,
    at: Seq<int>,
    has_file: Seq<bool>,
    sources: Map<usize, Seq<char>>,
    k: int,
) -> Result<Seq<InstanceModel>, int>
    decreases at.len() - k,
{
    if k < 0 || k >= at.len() {
        Ok(doc)
    } else if !takes_source(doc, has_file, at[k]) {
        inlined_from(doc, at, has_file, sources, k + 1)
    } else {
        match value_of(sources, at[k] as usize) {
            None => Err(at[k]),
            Some(source) => inlined_from(with_source(doc, at[k], source), at, has_file, sources, k + 1),
        }
    }
}

/// The indices from `k` on whose sources go into the document.
pub open spec fn inlined_indices(doc: Seq<InstanceModel>, at: Seq<int>, has_file: Seq<bool>, n: nat) -> Seq<int>
    decreases n,
{
    if n == 0 {
        Seq::empty()
    } else {
        let before = inlined_indices(doc, at, has_file, (n - 1) as nat);
        if takes_source(doc, has_file, at[n - 1]) {
            before.push(at[n - 1])
        } else {
            before
        }
    }
}

/// Puts the sources of scripts that are files into the document, and answers whose they are.
pub fn inline_sources(doc: &mut SettingsDocument, at: &Vec<usize>, has_file: &Vec<bool>, sources: &Table<usize, String>) -> (r: Result<
    Vec<usize>,
    usize,
>)
    ensures
        match inlined_from(old(doc)@, as_ints(at@), has_file@, sources@, 0) {
            Ok(new) => r is Ok && final(doc)@ == new && as_ints(r->Ok_0@) == inlined_indices(
                old(doc)@,
                as_ints(at@),
                has_file@,
                at@.len(),
            ),
            Err(i) => r is Err && r->Err_0 == i,
        },
{
    let ghost start = doc@;
    let ghost list = as_ints(at@);
    let ghost whole = inlined_from(start, list, has_file@, sources@, 0);
    let mut out: Vec<usize> = Vec::new();
    assert(as_ints(out@) =~= Seq::<int>::empty());
    let mut n: usize = 0;
    while n < at.len()
        invariant
            n <= at.len(),
            start == old(doc)@,
            list == as_ints(at@),
            doc@.len() == start.len(),
            forall|i: int| 0 <= i < start.len() ==> (#[trigger] doc@[i]).class_name == start[i].class_name,
            whole == inlined_from(start, list, has_file@, sources@, 0),
            whole == inlined_from(doc@, list, has_file@, sources@, n as int),
            as_ints(out@) == inlined_indices(start, list, has_file@, n as nat),
        decreases at.len() - n,
    {
        let i = at[n];
        assert(list[n as int] == i);
        assert(takes_source(doc@, has_file@, i as int) == takes_source(start, has_file@, i as int)) by {
            if i < start.len() {
                assert(doc@[i as int].class_name == start[i as int].class_name);
            }
        }
        if i < doc.instances.len() && i < has_file.len() && has_file[i] {
            assert(doc@[i as int] == doc.instances@[i as int]@);
            if is_lua_source_class(&doc.instances[i].class_name) {
                match sources.get(&i) {
                    None => {
                        return Err(i);
                    },
                    Some(source) => {
                        let ghost before = doc@;
                        let mut x = doc.instances[i].copy();
                        put(&mut x.properties, "Source".to_owned(), Json::Text(source.clone()));
                        proof {
                            lemma_models_update(doc.instances@, i as int, x);
                            crate::document::lemma_as_ints_push(out@, i);
                        }
                        doc.instances.set(i, x);
                        assert(doc@ =~= with_source(before, i as int, source@));
                        out.push(i);
                    },
                }
            }
        }
        n += 1;
    }
    Ok(out)
}

/// Each script whose source is a file holds that source once it is in the document.
pub proof fn law_inlined_source_is_there(
    doc: Seq<InstanceModel>,
    at: Seq<int>,
    has_file: Seq<bool>,
    sources: Map<usize, Seq<char>>,
    k: int,
    i: int,
)
    requires
        0 <= k <= at.len(),
        inlined_from(doc, at, has_file, sources, k) is Ok,
        takes_source(doc, has_file, i),
        at.skip(k).contains(i) || (sources.dom().contains(i as usize) && value_of(doc[i].properties, "Source"@) == Some(
            JsonModel::Text(sources[i as usize]),
        )),
    ensures
        ({
            let new = inlined_from(doc, at, has_file, sources, k)->Ok_0;
            &&& new.len() == doc.len()
            &&& sources.dom().contains(i as usize)
            &&& value_of(new[i].properties, "Source"@) == Some(JsonModel::Text(sources[i as usize]))
        }),
    decreases at.len() - k,
{
    if k < at.len() {
        let rest = at.skip(k + 1);
        assert(at.skip(k) =~= seq![at[k]] + rest);
        if at.skip(k).contains(i) && at[k] != i {
            let j = choose|j: int| 0 <= j < at.skip(k).len() && at.skip(k)[j] == i;
            assert(rest[j - 1] == i);
        }
        if takes_source(doc, has_file, at[k]) {
            let next = with_source(doc, at[k], sources[at[k] as usize]);
            assert(takes_source(next, has_file, i));
            if at[k] == i {
                assert(value_of(next[i].properties, "Source"@) == Some(JsonModel::Text(sources[i as usize])));
            } else {
                assert(next[i] == doc[i]);
            }
            law_inlined_source_is_there(next, at, has_file, sources, k + 1, i);
        } else {
            law_inlined_source_is_there(doc, at, has_file, sources, k + 1, i);
        }
    } else {
        assert(at.skip(k) =~= Seq::empty());
    }
}

/// A path of names that stands at or below a target on the way to a source.
pub open spec fn is_linked_instance(target: Seq<Seq<char>>, specs: Seq<Seq<Seq<char>>>, p: Seq<Seq<char>>, n: nat) -> bool {
    exists|i: int|
        0 <= i < n && target.is_prefix_of(#[trigger] specs[i]) && target.len() <= p.len() && p.is_prefix_of(specs[i])
}

pub open spec fn key_paths(v: Seq<PathKey>) -> Seq<Seq<Seq<char>>> {
    key_views(v)
}

fn insert_prefix(out: &mut SortedSet<PathKey>, path: &Vec<String>, depth: usize)
    requires
        depth <= path@.len(),
        ascending::<PathKey>(old(out)@),
    ensures
        ascending::<PathKey>(final(out)@),
        forall|p: Seq<Seq<char>>| #[trigger]
            final(out)@.contains(p) <==> old(out)@.contains(p) || (p.len() == depth && p.is_prefix_of(texts(path@))),
{
    let ghost before = out@;
    let ghost whole = texts(path@);
    assert(whole.len() == path@.len());
    let segments = subtexts(path, 0, depth);
    let ghost added = texts(segments@);
    assert(added =~= whole.subrange(0, depth as int));
    out.insert(PathKey { segments });
    assert forall|p: Seq<Seq<char>>| #[trigger]
        out@.contains(p) <==> before.contains(p) || (p.len() == depth && p.is_prefix_of(whole)) by {
        assert(out@.contains(p) <==> before.contains(p) || p == added);
        if p.len() == depth && p.is_prefix_of(whole) {
            assert(p =~= added);
        }
    }
}

/// Lists the instances that the sources of a link make at or below its target, each once.
pub fn link_target_source_instances(target: &Vec<String>, specs: &Vec<PathKey>) -> (r: Vec<PathKey>)
    ensures
        ascending::<PathKey>(key_views(r@)),
        forall|p: Seq<Seq<char>>| #[trigger]
            key_views(r@).contains(p) <==> is_linked_instance(texts(target@), key_paths(specs@), p, specs@.len()),
{
    let ghost top = texts(target@);
    let ghost all = key_paths(specs@);
    assert(top.len() == target@.len());
    let mut out: SortedSet<PathKey> = SortedSet::new();
    let mut i: usize = 0;
    while i < specs.len()
        invariant
            i <= specs.len(),
            top == texts(target@),
            top.len() == target@.len(),
            all == key_paths(specs@),
            ascending::<PathKey>(out@),
            forall|p: Seq<Seq<char>>| #[trigger] out@.contains(p) <==> is_linked_instance(top, all, p, i as nat),
        decreases specs.len() - i,
    {
        let ghost before = out@;
        let spec_path = &specs[i].segments;
        assert(all[i as int] == texts(spec_path@));
        assert(all[i as int].len() == spec_path@.len());
        if texts_start_with(spec_path, target) {
            let mut depth: usize = target.len();
            while depth < spec_path.len()
                invariant
                    target@.len() <= depth <= spec_path@.len(),
                    top == texts(target@),
                    top.len() == target@.len(),
                    i < specs@.len(),
                    *spec_path == specs@[i as int].segments,
                    all == key_paths(specs@),
                    all[i as int] == texts(spec_path@),
                    all[i as int].len() == spec_path@.len(),
                    top.is_prefix_of(all[i as int]),
                    ascending::<PathKey>(out@),
                    forall|p: Seq<Seq<char>>| #[trigger]
                        out@.contains(p) <==> before.contains(p) || (top.len() <= p.len() < depth && p.is_prefix_of(all[i as int])),
                decreases spec_path@.len() - depth,
            {
                insert_prefix(&mut out, spec_path, depth);
                depth += 1;
            }
            insert_prefix(&mut out, spec_path, depth);
            assert forall|p: Seq<Seq<char>>| #[trigger]
                out@.contains(p) <==> before.contains(p) || (top.len() <= p.len() && p.is_prefix_of(all[i as int])) by {}
        }
        assert forall|p: Seq<Seq<char>>| #[trigger] out@.contains(p) <==> is_linked_instance(top, all, p, (i + 1) as nat) by {
            assert(before.contains(p) <==> is_linked_instance(top, all, p, i as nat));
            if is_linked_instance(top, all, p, (i + 1) as nat) {
                let j = choose|j: int|
                    0 <= j < i + 1 && top.is_prefix_of(#[trigger] all[j]) && top.len() <= p.len() && p.is_prefix_of(all[j]);
                if j < i {
                    assert(is_linked_instance(top, all, p, i as nat));
                }
            }
            if is_linked_instance(top, all, p, i as nat) {
                let j = choose|j: int|
                    0 <= j < i && top.is_prefix_of(#[trigger] all[j]) && top.len() <= p.len() && p.is_prefix_of(all[j]);
                assert(is_linked_instance(top, all, p, (i + 1) as nat));
            }
            if top.is_prefix_of(all[i as int]) && top.len() <= p.len() && p.is_prefix_of(all[i as int]) {
                assert(is_linked_instance(top, all, p, (i + 1) as nat));
            }
        }
        i += 1;
    }
    out.into_items()
}

/// How often a name stands among the first `n`.
pub open spec fn occurrences(names: Seq<Seq<char>>, name: Seq<char>, n: nat) -> nat
    decreases n,
{
    if n == 0 {
        0
    } else {
        occurrences(names, name, (n - 1) as nat) + if names[n - 1] == name {
            1nat
        } else {
            0nat
        }
    }
}

/// Counts, for each property that is left out, how often it is.
pub fn count_omitted(names: &Vec<String>) -> (r: Table<String, usize>)
    ensures
        forall|name: Seq<char>| #[trigger]
            value_of(r@, name) == if occurrences(texts(names@), name, names@.len()) == 0 {
                None::<usize>
            } else {
                Some(occurrences(texts(names@), name, names@.len()) as usize)
            },
{
    let ghost all = texts(names@);
    let mut out: Table<String, usize> = Table::new();
    let mut i: usize = 0;
    while i < names.len()
        invariant
            i <= names.len(),
            all == texts(names@),
            forall|name: Seq<char>| #[trigger] occurrences(all, name, i as nat) <= i,
            forall|name: Seq<char>| #[trigger]
                value_of(out@, name) == if occurrences(all, name, i as nat) == 0 {
                    None::<usize>
                } else {
                    Some(occurrences(all, name, i as nat) as usize)
                },
        decreases names.len() - i,
    {
        let ghost before = out@;
        assert(all[i as int] == names@[i as int]@);
        let known = match out.get(&names[i]) {
            Some(n) => *n,
            None => 0,
        };
        assert(value_of(before, all[i as int]) == if occurrences(all, all[i as int], i as nat) == 0 {
            None::<usize>
        } else {
            Some(occurrences(all, all[i as int], i as nat) as usize)
        });
        assert(occurrences(all, all[i as int], i as nat) <= i);
        assert(known == occurrences(all, all[i as int], i as nat));
        out.put(names[i].clone(), known + 1);
        assert forall|name: Seq<char>| #[trigger]
            value_of(out@, name) == if occurrences(all, name, (i + 1) as nat) == 0 {
                None::<usize>
            } else {
                Some(occurrences(all, name, (i + 1) as nat) as usize)
            } by {
            assert(value_of(before, name) == if occurrences(all, name, i as nat) == 0 {
                None::<usize>
            } else {
                Some(occurrences(all, name, i as nat) as usize)
            });
        }
        assert forall|name: Seq<char>| #[trigger] occurrences(all, name, (i + 1) as nat) <= i + 1 by {
            assert(occurrences(all, name, i as nat) <= i);
        }
        i += 1;
    }
    out
}

/// What the first `n` adapters read and write.
pub open spec fn adapter_paths(root: PathParts, project: ReniumProject, n: nat) -> Seq<PathParts>
    decreases n,
{
    if n == 0 {
        Seq::empty()
    } else {
        let adapter = project.adapters@[n - 1];
        let before = adapter_paths(root, project, (n - 1) as nat).push(joined_path(root, adapter.source@));
        match opt_path(adapter.output) {
            Some(output) => before.push(joined_path(root, output)),
            None => before,
        }
    }
}

/// The paths that a project takes content from or gives it to, besides its source root.
pub open spec fn owner_paths(loaded: LoadedProject) -> Seq<PathParts> {
    let nodes = all_tree_nodes(loaded.project);
    node_sources(loaded.root@, nodes, nodes.len()) + Seq::new(
        loaded.project.mounts@.len(),
        |i: int| joined_path(loaded.root@, loaded.project.mounts@[i].source@),
    ) + adapter_paths(loaded.root@, loaded.project, loaded.project.adapters@.len())
}

/// `p` is the first path of a list with a key.
pub open spec fn is_first_with_key(files: Map<PathParts, FactModel>, list: Seq<PathParts>, key: Seq<char>, i: int) -> bool {
    &&& 0 <= i < list.len()
    &&& key_at(files, list[i]) == key
    &&& forall|j: int| 0 <= j < i ==> key_at(files, #[trigger] list[j]) != key
}

/// `r` holds the first path of each key, in the order of keys.
pub open spec fn are_owner_paths(files: Map<PathParts, FactModel>, list: Seq<PathParts>, r: Seq<PathParts>) -> bool {
    &&& ascending::<String>(Seq::new(r.len(), |k: int| key_at(files, r[k])))
    &&& forall|k: int| 0 <= k < r.len() ==> is_some_first(files, list, #[trigger] r[k])
    &&& forall|i: int| 0 <= i < list.len() ==> has_key(files, r, key_at(files, #[trigger] list[i]))
}

pub open spec fn is_some_first(files: Map<PathParts, FactModel>, list: Seq<PathParts>, p: PathParts) -> bool {
    exists|i: int| #[trigger] is_first_with_key(files, list, key_at(files, p), i) && list[i] == p
}

pub open spec fn has_key(files: Map<PathParts, FactModel>, r: Seq<PathParts>, key: Seq<char>) -> bool {
    exists|k: int| 0 <= k < r.len() && key_at(files, #[trigger] r[k]) == key
}

fn push_owner(list: &mut Vec<FilePath>, path: FilePath)
    ensures
        path_views(final(list)@) == path_views(old(list)@).push(path@),
{
    let ghost before = list@;
    list.push(path);
    assert(path_views(list@) =~= path_views(before).push(path@));
}

fn list_owner_paths(loaded: &LoadedProject) -> (r: Vec<FilePath>)
    ensures
        path_views(r@) == owner_paths(*loaded),
{
    let nodes = project_tree_nodes(&loaded.project.tree);
    let ghost all = tree_views(nodes@);
    assert(all.len() == nodes@.len());
    let mut out: Vec<FilePath> = Vec::new();
    assert(path_views(out@) =~= Seq::empty());
    let mut i: usize = 0;
    while i < nodes.len()
        invariant
            i <= nodes.len(),
            all == tree_views(nodes@),
            path_views(out@) == node_sources(loaded.root@, all, i as nat),
        decreases nodes.len() - i,
    {
        assert(all[i as int] == nodes@[i as int]@);
        match &nodes[i].node.path {
            Some(path) => {
                push_owner(&mut out, loaded.root.join(path));
            },
            None => {},
        }
        i += 1;
    }
    let ghost first = path_views(out@);
    let ghost mounts = Seq::new(
        loaded.project.mounts@.len(),
        |i: int| joined_path(loaded.root@, loaded.project.mounts@[i].source@),
    );
    let mut m: usize = 0;
    assert(first + mounts.take(0) =~= first);
    while m < loaded.project.mounts.len()
        invariant
            m <= loaded.project.mounts@.len(),
            mounts == Seq::new(
                loaded.project.mounts@.len(),
                |i: int| joined_path(loaded.root@, loaded.project.mounts@[i].source@),
            ),
            path_views(out@) == first + mounts.take(m as int),
        decreases loaded.project.mounts@.len() - m,
    {
        let source = loaded.root.join(&loaded.project.mounts[m].source);
        assert((first + mounts.take(m as int)).push(source@) =~= first + mounts.take(m + 1));
        push_owner(&mut out, source);
        m += 1;
    }
    assert(mounts.take(m as int) =~= mounts);
    let ghost second = path_views(out@);
    let mut a: usize = 0;
    assert(second + adapter_paths(loaded.root@, loaded.project, 0) =~= second);
    while a < loaded.project.adapters.len()
        invariant
            a <= loaded.project.adapters@.len(),
            path_views(out@) == second + adapter_paths(loaded.root@, loaded.project, a as nat),
        decreases loaded.project.adapters@.len() - a,
    {
        let ghost before = adapter_paths(loaded.root@, loaded.project, a as nat);
        let adapter = &loaded.project.adapters[a];
        let source = loaded.root.join(&adapter.source);
        assert((second + before).push(source@) =~= second + before.push(source@));
        let ghost with_own = before.push(source@);
        push_owner(&mut out, source);
        match &adapter.output {
            Some(output) => {
                let path = loaded.root.join(output);
                assert((second + with_own).push(path@) =~= second + with_own.push(path@));
                push_owner(&mut out, path);
            },
            None => {},
        }
        a += 1;
    }
    out
}

fn first_with_key(files: &Files, list: &Vec<FilePath>, key: &str) -> (r: Option<usize>)
    ensures
        match r {
            Some(i) => is_first_with_key(files@, path_views(list@), key@, i as int),
            None => forall|j: int| 0 <= j < list@.len() ==> key_at(files@, #[trigger] path_views(list@)[j]) != key@,
        },
{
    let ghost all = path_views(list@);
    let mut i: usize = 0;
    while i < list.len()
        invariant
            i <= list.len(),
            all == path_views(list@),
            forall|j: int| 0 <= j < i ==> key_at(files@, #[trigger] all[j]) != key@,
        decreases list.len() - i,
    {
        assert(all[i as int] == list@[i as int]@);
        let own = files.key(&list[i]);
        if same(&own, key) {
            return Some(i);
        }
        i += 1;
    }
    None
}

/// Lists the paths that a project takes content from or gives it to, besides its source root: in the
/// order of their keys, and of several with one key the first.
pub fn projection_source_owner_paths(loaded: &LoadedProject, files: &Files) -> (r: Vec<FilePath>)
    ensures
        are_owner_paths(files@, owner_paths(*loaded), path_views(r@)),
{
    let list = list_owner_paths(loaded);
    let ghost all = path_views(list@);
    assert(all.len() == list@.len());
    let mut keys: SortedSet<String> = SortedSet::new();
    let mut i: usize = 0;
    while i < list.len()
        invariant
            i <= list.len(),
            all == path_views(list@),
            ascending::<String>(keys@),
            forall|j: int| 0 <= j < i ==> keys@.contains(key_at(files@, #[trigger] all[j])),
            forall|k: Seq<char>| #[trigger] keys@.contains(k) ==> exists|j: int| 0 <= j < i && key_at(files@, #[trigger] all[j]) == k,
        decreases list.len() - i,
    {
        let ghost before = keys@;
        assert(all[i as int] == list@[i as int]@);
        keys.insert(files.key(&list[i]));
        assert forall|k: Seq<char>| #[trigger] keys@.contains(k) implies exists|j: int|
            0 <= j < i + 1 && key_at(files@, #[trigger] all[j]) == k by {
            if before.contains(k) {
                let j = choose|j: int| 0 <= j < i && key_at(files@, #[trigger] all[j]) == k;
                assert(key_at(files@, all[j]) == k);
            } else {
                assert(key_at(files@, all[i as int]) == k);
            }
        }
        assert forall|j: int| 0 <= j < i + 1 implies keys@.contains(key_at(files@, #[trigger] all[j])) by {
            if j < i {
                assert(before.contains(key_at(files@, all[j])));
            }
        }
        i += 1;
    }
    let ghost set = keys@;
    let sorted = keys.into_items();
    assert(key_views(sorted@) == set);
    let mut out: Vec<FilePath> = Vec::new();
    let mut k: usize = 0;
    while k < sorted.len()
        invariant
            k <= sorted.len(),
            all == path_views(list@),
            all.len() == list@.len(),
            set == key_views(sorted@),
            out@.len() == k,
            forall|key: Seq<char>| #[trigger]
                set.contains(key) ==> exists|j: int| 0 <= j < all.len() && key_at(files@, #[trigger] all[j]) == key,
            forall|q: int| 0 <= q < k ==> key_at(files@, (#[trigger] out@[q])@) == set[q],
            forall|q: int| 0 <= q < k ==> is_some_first(files@, all, (#[trigger] out@[q])@),
        decreases sorted.len() - k,
    {
        let ghost before = out@;
        assert(set[k as int] == sorted@[k as int]@);
        assert(set.contains(set[k as int]));
        match first_with_key(files, &list, &sorted[k]) {
            Some(i) => {
                assert(all[i as int] == list@[i as int]@);
                out.push(list[i].copy());
                assert(is_first_with_key(files@, all, key_at(files@, all[i as int]), i as int));
                assert(is_some_first(files@, all, all[i as int]));
            },
            None => {
                proof {
                    let j = choose|j: int| 0 <= j < all.len() && key_at(files@, #[trigger] all[j]) == set[k as int];
                    assert(key_at(files@, all[j]) != sorted@[k as int]@);
                    assert(false);
                }
            },
        }
        k += 1;
    }
    proof {
        let r = path_views(out@);
        assert(r.len() == set.len());
        assert(Seq::new(r.len(), |q: int| key_at(files@, r[q])) =~= set) by {
            assert forall|q: int| 0 <= q < r.len() implies key_at(files@, r[q]) == set[q] by {
                assert(r[q] == out@[q]@);
            }
        }
        assert forall|q: int| 0 <= q < r.len() implies is_some_first(files@, all, #[trigger] r[q]) by {
            assert(r[q] == out@[q]@);
        }
        assert forall|i: int| 0 <= i < all.len() implies has_key(files@, r, key_at(files@, #[trigger] all[i])) by {
            let key = key_at(files@, all[i]);
            assert(set.contains(key));
            let q = choose|q: int| 0 <= q < set.len() && set[q] == key;
            assert(r[q] == out@[q]@);
            assert(key_at(files@, r[q]) == key);
        }
    }
    out
}

} // verus!
