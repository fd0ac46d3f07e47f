//! Settings documents: instances in a list, each naming its parent by index.
use vstd::prelude::*;

use crate::json::{copy_members, entries, JsonModel, Member};
use crate::text::{lemma_texts_push, same, texts};

verus! {

/// One instance of a settings document.
pub struct Instance {
    pub settings_id: String,
    pub name: String,
    pub class_name: String,
    pub parent_index: Option<usize>,
    pub properties: Vec<Member>,
    pub attributes: Vec<Member>,
}

/// The instances of one service, in a list.
pub struct SettingsDocument {
    pub instances: Vec<Instance>,
}

#[verifier::ext_equal]
pub struct InstanceModel {
    pub id: Seq<char>,
    pub name: Seq<char>,
    pub class_name: Seq<char>,
    pub parent: Option<usize>,
    pub properties: Map<Seq<char>, JsonModel>,
    pub attributes: Map<Seq<char>, JsonModel>,
}

impl View for Instance {
    type V = InstanceModel;

    open spec fn view(&self) -> InstanceModel {
        InstanceModel {
            id: self.settings_id@,
            name: self.name@,
            class_name: self.class_name@,
            parent: self.parent_index,
            properties: entries(self.properties@),
            attributes: entries(self.attributes@),
        }
    }
}

/// The models of a list of instances.
pub open spec fn models(v: Seq<Instance>) -> Seq<InstanceModel> {
    Seq::new(v.len(), |i: int| v[i]@)
}

impl View for SettingsDocument {
    type V = Seq<InstanceModel>;

    open spec fn view(&self) -> Seq<InstanceModel> {
        models(self.instances@)
    }
}

pub proof fn lemma_models_push(v: Seq<Instance>, x: Instance)
    ensures
        models(v.push(x)) == models(v).push(x@),
{
    assert(models(v.push(x)) =~= models(v).push(x@));
}

pub proof fn lemma_models_update(v: Seq<Instance>, i: int, x: Instance)
    requires
        0 <= i < v.len(),
    ensures
        models(v.update(i, x)) == models(v).update(i, x@),
{
    assert(models(v.update(i, x)) =~= models(v).update(i, x@));
}

impl Instance {
    /// An instance without properties or attributes.
    pub fn new(settings_id: String, name: String, class_name: String, parent_index: Option<usize>) -> (r: Instance)
        ensures
            r@ == (InstanceModel {
                id: settings_id@,
                name: name@,
                class_name: class_name@,
                parent: parent_index,
                properties: Map::empty(),
                attributes: Map::empty(),
            }),
    {
        Instance { settings_id, name, class_name, parent_index, properties: Vec::new(), attributes: Vec::new() }
    }

    pub fn copy(&self) -> (r: Instance)
        ensures
            r@ == self@,
    {
        Instance {
            settings_id: self.settings_id.clone(),
            name: self.name.clone(),
            class_name: self.class_name.clone(),
            parent_index: self.parent_index,
            properties: copy_members(&self.properties),
            attributes: copy_members(&self.attributes),
        }
    }
}

pub fn copy_instances(v: &Vec<Instance>) -> (r: Vec<Instance>)
    ensures
        models(r@) == models(v@),
{
    let mut out: Vec<Instance> = Vec::new();
    let mut i: usize = 0;
    while i < v.len()
        invariant
            i <= v.len(),
            models(out@) == models(v@).take(i as int),
        decreases v.len() - i,
    {
        let x = v[i].copy();
        proof {
            lemma_models_push(out@, x);
            assert(models(v@).take(i + 1) =~= models(v@).take(i as int).push(v@[i as int]@));
        }
        out.push(x);
        i += 1;
    }
    assert(models(v@).take(i as int) =~= models(v@));
    out
}

/// Whether two parent indices are the same.
pub fn same_parent(a: Option<usize>, b: Option<usize>) -> (r: bool)
    ensures
        r == (a == b),
{
    match (a, b) {
        (Some(x), Some(y)) => x == y,
        (None, None) => true,
        _ => false,
    }
}

/// The indices, among the first `n` instances, of those under `parent` with a name.
pub open spec fn named_under(doc: Seq<InstanceModel>, parent: Option<usize>, name: Seq<char>, n: nat) -> Seq<int>
    decreases n,
{
    if n == 0 {
        Seq::empty()
    } else {
        let before = named_under(doc, parent, name, (n - 1) as nat);
        if doc[n - 1].parent == parent && doc[n - 1].name == name {
            before.push(n - 1)
        } else {
            before
        }
    }
}

/// The indices of the instances under `parent` with a name, in order.
pub open spec fn named_children(doc: Seq<InstanceModel>, parent: Option<usize>, name: Seq<char>) -> Seq<int> {
    named_under(doc, parent, name, doc.len())
}

/// The named children are instances under the parent, with the name.
pub proof fn lemma_named_under(doc: Seq<InstanceModel>, parent: Option<usize>, name: Seq<char>, n: nat, k: int)
    requires
        n <= doc.len(),
        0 <= k < named_under(doc, parent, name, n).len(),
    ensures
        0 <= named_under(doc, parent, name, n)[k] < n,
        doc[named_under(doc, parent, name, n)[k]].parent == parent,
        doc[named_under(doc, parent, name, n)[k]].name == name,
    decreases n,
{
    if n > 0 && k < named_under(doc, parent, name, (n - 1) as nat).len() {
        lemma_named_under(doc, parent, name, (n - 1) as nat, k);
    }
}

pub proof fn lemma_named_under_len(doc: Seq<InstanceModel>, parent: Option<usize>, name: Seq<char>, n: nat)
    ensures
        named_under(doc, parent, name, n).len() <= n,
    decreases n,
{
    if n > 0 {
        lemma_named_under_len(doc, parent, name, (n - 1) as nat);
    }
}

/// The `selected`th (from one) child of a parent with a name, and how many there are.
pub fn select_named_child(
    doc: &SettingsDocument,
    parent: Option<usize>,
    name: &str,
    selected: usize,
) -> (r: (Option<usize>, usize))
    ensures
        r.1 == named_children(doc@, parent, name@).len(),
        match r.0 {
            Some(i) => 1 <= selected <= r.1 && i == named_children(doc@, parent, name@)[selected - 1] && i
                < doc@.len(),
            None => selected == 0 || selected > r.1,
        },
{
    let mut found: Option<usize> = None;
    let mut count: usize = 0;
    let mut i: usize = 0;
    while i < doc.instances.len()
        invariant
            i <= doc.instances.len(),
            count == named_under(doc@, parent, name@, i as nat).len(),
            count <= i,
            match found {
                Some(at) => 1 <= selected <= count && at == named_under(doc@, parent, name@, i as nat)[selected - 1]
                    && at < i,
                None => selected == 0 || selected > count,
            },
        decreases doc.instances.len() - i,
    {
        let x = &doc.instances[i];
        assert(doc@[i as int] == x@);
        if same_parent(x.parent_index, parent) && same(&x.name, name) {
            count += 1;
            if count == selected {
                found = Some(i);
            }
        }
        i += 1;
    }
    (found, count)
}

/// Why a target cannot be looked up.
#[derive(PartialEq, Eq, Structural, Clone, Copy, Debug)]
pub enum TargetError {
    /// The ordinals are given, but not one for each segment.
    OrdinalCount,
    /// More than one child carries the segment at this depth, and no ordinal picks one.
    Ambiguous { depth: usize },
}

/// The ordinal that is looked for at a depth.
pub open spec fn ordinal_at(ordinals: Seq<usize>, depth: int) -> int {
    if 0 <= depth < ordinals.len() {
        ordinals[depth] as int
    } else {
        1
    }
}

/// What a target names, from `depth` on, where the segments before it led to `found`.
pub open spec fn located(
    doc: Seq<InstanceModel>,
    target: Seq<Seq<char>>,
    ordinals: Seq<usize>,
    depth: int,
    found: Option<usize>,
) -> Result<Option<usize>, TargetError>
    decreases target.len() - depth,
{
    if depth >= target.len() {
        Ok(found)
    } else {
        let children = named_children(doc, found, target[depth]);
        let selected = ordinal_at(ordinals, depth);
        if children.len() == 0 {
            Ok(None)
        } else if depth >= ordinals.len() && children.len() > 1 {
            Err(TargetError::Ambiguous { depth: depth as usize })
        } else if selected > children.len() {
            Ok(None)
        } else {
            located(
                doc,
                target,
                ordinals,
                depth + 1,
                if selected >= 1 {
                    Some(children[selected - 1] as usize)
                } else {
                    None
                },
            )
        }
    }
}

/// What a target names in a document.
pub open spec fn document_target(
    doc: Seq<InstanceModel>,
    target: Seq<Seq<char>>,
    ordinals: Seq<usize>,
) -> Result<Option<usize>, TargetError> {
    if ordinals.len() > 0 && ordinals.len() != target.len() {
        Err(TargetError::OrdinalCount)
    } else {
        located(doc, target, ordinals, 0, None)
    }
}

/// Looks a target up, segment by segment from the roots. Without ordinals every segment has to
/// name one instance alone.
pub fn find_document_target_optional_with_ordinals(
    doc: &SettingsDocument,
    target: &Vec<String>,
    ordinals: &Vec<usize>,
) -> (r: Result<Option<usize>, TargetError>)
    ensures
        r == document_target(doc@, texts(target@), ordinals@),
        r is Ok && r->Ok_0 is Some ==> r->Ok_0->0 < doc@.len(),
{
    if ordinals.len() > 0 && ordinals.len() != target.len() {
        return Err(TargetError::OrdinalCount);
    }
    let mut found: Option<usize> = None;
    let mut depth: usize = 0;
    while depth < target.len()
        invariant
            depth <= target.len(),
            ordinals.len() == 0 || ordinals.len() == target.len(),
            located(doc@, texts(target@), ordinals@, depth as int, found) == located(
                doc@,
                texts(target@),
                ordinals@,
                0,
                None,
            ),
            found is Some ==> found->0 < doc@.len(),
        decreases target.len() - depth,
    {
        let given = depth < ordinals.len();
        let selected: usize = if given {
            ordinals[depth]
        } else {
            1
        };
        let (matched, count) = select_named_child(doc, found, &target[depth], selected);
        if count == 0 {
            return Ok(None);
        }
        if !given && count > 1 {
            return Err(TargetError::Ambiguous { depth });
        }
        if selected > count {
            return Ok(None);
        }
        found = matched;
        depth += 1;
    }
    Ok(found)
}

/// `i` and its parents carry the names of the first `depth` segments of a target.
pub open spec fn carries_names(doc: Seq<InstanceModel>, i: Option<usize>, target: Seq<Seq<char>>, depth: int) -> bool
    decreases depth,
{
    if depth <= 0 {
        i is None
    } else {
        &&& i is Some
        &&& i->0 < doc.len()
        &&& doc[i->0 as int].name == target[depth - 1]
        &&& carries_names(doc, doc[i->0 as int].parent, target, depth - 1)
    }
}

/// An instance that a target with ordinals from one names is reached through parents with the
/// names of the target's segments, up to a root.
pub proof fn law_located_carries_names(
    doc: Seq<InstanceModel>,
    target: Seq<Seq<char>>,
    ordinals: Seq<usize>,
    depth: int,
    found: Option<usize>,
)
    requires
        doc.len() <= usize::MAX,
        0 <= depth <= target.len(),
        carries_names(doc, found, target, depth),
        forall|k: int| 0 <= k < ordinals.len() ==> #[trigger] ordinals[k] >= 1,
        located(doc, target, ordinals, depth, found) is Ok,
        located(doc, target, ordinals, depth, found)->Ok_0 is Some,
    ensures
        carries_names(doc, located(doc, target, ordinals, depth, found)->Ok_0, target, target.len() as int),
    decreases target.len() - depth,
{
    if depth < target.len() {
        let children = named_children(doc, found, target[depth]);
        let selected = ordinal_at(ordinals, depth);
        assert(selected >= 1) by {
            if depth < ordinals.len() {
                assert(ordinals[depth] >= 1);
            }
        }
        lemma_named_under(doc, found, target[depth], doc.len(), selected - 1);
        let next = Some(children[selected - 1] as usize);
        assert(carries_names(doc, next, target, depth + 1));
        law_located_carries_names(doc, target, ordinals, depth + 1, next);
    }
}

/// Looking a name up from the roots, then its children, and so on: what every document target
/// gives is in the document.
pub proof fn lemma_located_in_range(
    doc: Seq<InstanceModel>,
    target: Seq<Seq<char>>,
    ordinals: Seq<usize>,
    depth: int,
    found: Option<usize>,
)
    requires
        doc.len() <= usize::MAX,
        0 <= depth,
        found is Some ==> found->0 < doc.len(),
    ensures
        located(doc, target, ordinals, depth, found) is Ok && located(doc, target, ordinals, depth, found)->Ok_0 is Some
            ==> located(doc, target, ordinals, depth, found)->Ok_0->0 < doc.len(),
    decreases target.len() - depth,
{
    if depth < target.len() {
        let children = named_children(doc, found, target[depth]);
        let selected = ordinal_at(ordinals, depth);
        if 1 <= selected <= children.len() {
            lemma_named_under(doc, found, target[depth], doc.len(), selected - 1);
            lemma_located_in_range(doc, target, ordinals, depth + 1, Some(children[selected - 1] as usize));
        } else if selected < 1 {
            lemma_located_in_range(doc, target, ordinals, depth + 1, None);
        }
    }
}

/// The root of a service: the first instance without a parent that carries the service's name.
pub open spec fn service_root(doc: Seq<InstanceModel>, service: Seq<char>) -> Option<int> {
    let roots = named_children(doc, None, service);
    if roots.len() == 0 {
        None
    } else {
        Some(roots[0])
    }
}

/// What the segments from `k` on name below `current`. Without ordinals each segment names the
/// first child with that name; an ordinal counts children with that name from one, and a missing
/// one is one.
pub open spec fn resolved_below(
    doc: Seq<InstanceModel>,
    current: int,
    segments: Seq<Seq<char>>,
    ordinals: Seq<usize>,
    k: int,
) -> Option<int>
    decreases segments.len() - k,
{
    if k >= segments.len() {
        Some(current)
    } else {
        let children = named_children(doc, Some(current as usize), segments[k]);
        let ordinal = ordinal_at(ordinals, k);
        if 1 <= ordinal <= children.len() {
            resolved_below(doc, children[ordinal - 1], segments, ordinals, k + 1)
        } else {
            None
        }
    }
}

/// What a path below a service names.
pub open spec fn resolved(
    doc: Seq<InstanceModel>,
    service: Seq<char>,
    segments: Seq<Seq<char>>,
    ordinals: Seq<usize>,
) -> Option<int> {
    match service_root(doc, service) {
        Some(root) => resolved_below(doc, root, segments, ordinals, 0),
        None => None,
    }
}

/// The root of a service.
pub fn editor_service_root_index(doc: &SettingsDocument, service: &str) -> (r: Option<usize>)
    ensures
        match r {
            Some(i) => service_root(doc@, service@) == Some(i as int) && i < doc@.len(),
            None => service_root(doc@, service@) is None,
        },
{
    select_named_child(doc, None, service, 1).0
}

/// Finds the instance that a path below a service names.
pub fn resolve_editor_instance_by_path_ordinals(
    doc: &SettingsDocument,
    service: &str,
    segments: &Vec<String>,
    ordinals: &Vec<usize>,
) -> (r: Option<usize>)
    ensures
        match r {
            Some(i) => resolved(doc@, service@, texts(segments@), ordinals@) == Some(i as int) && i < doc@.len(),
            None => resolved(doc@, service@, texts(segments@), ordinals@) is None,
        },
{
    let root = match editor_service_root_index(doc, service) {
        Some(root) => root,
        None => {
            return None;
        },
    };
    let mut current: usize = root;
    let mut k: usize = 0;
    while k < segments.len()
        invariant
            k <= segments.len(),
            current < doc@.len(),
            service_root(doc@, service@) == Some(root as int),
            resolved_below(doc@, current as int, texts(segments@), ordinals@, k as int) == resolved_below(
                doc@,
                root as int,
                texts(segments@),
                ordinals@,
                0,
            ),
        decreases segments.len() - k,
    {
        let ordinal: usize = if k < ordinals.len() {
            ordinals[k]
        } else {
            1
        };
        match select_named_child(doc, Some(current), &segments[k], ordinal).0 {
            Some(next) => {
                current = next;
            },
            None => {
                return None;
            },
        }
        k += 1;
    }
    Some(current)
}

/// An instance and everything below it, each parent before its children and children in order,
/// down to `levels` levels.
pub open spec fn preorder(doc: Seq<InstanceModel>, root: int, levels: nat) -> Seq<int>
    decreases levels, doc.len() + 2,
{
    if levels == 0 {
        Seq::empty()
    } else {
        seq![root] + preorder_of_children(doc, root, levels, doc.len())
    }
}

/// The subtrees of the children of `root` among the first `n` instances.
pub open spec fn preorder_of_children(doc: Seq<InstanceModel>, root: int, levels: nat, n: nat) -> Seq<int>
    decreases levels, n + 1,
{
    if n == 0 || levels == 0 {
        Seq::empty()
    } else if doc[n - 1].parent == Some(root as usize) {
        preorder_of_children(doc, root, levels, (n - 1) as nat) + preorder(doc, n - 1, (levels - 1) as nat)
    } else {
        preorder_of_children(doc, root, levels, (n - 1) as nat)
    }
}

/// An instance and everything below it.
pub open spec fn subtree(doc: Seq<InstanceModel>, root: int) -> Seq<int> {
    preorder(doc, root, doc.len())
}

/// The indices of a sequence as numbers of the machine.
pub open spec fn as_ints(v: Seq<usize>) -> Seq<int> {
    Seq::new(v.len(), |i: int| v[i] as int)
}

pub proof fn lemma_as_ints_push(v: Seq<usize>, x: usize)
    ensures
        as_ints(v.push(x)) == as_ints(v).push(x as int),
{
    assert(as_ints(v.push(x)) =~= as_ints(v).push(x as int));
}

/// Collects an instance and everything below it, down to `levels` levels.
fn collect_preorder(doc: &SettingsDocument, root: usize, levels: usize, out: &mut Vec<usize>)
    ensures
        as_ints(final(out)@) == as_ints(old(out)@) + preorder(doc@, root as int, levels as nat),
    decreases levels,
{
    if levels == 0 {
        assert(as_ints(out@) =~= as_ints(out@) + preorder(doc@, root as int, 0));
        return;
    }
    let ghost start = as_ints(out@);
    proof {
        lemma_as_ints_push(out@, root);
    }
    out.push(root);
    let mut i: usize = 0;
    assert(as_ints(out@) =~= start + (seq![root as int] + preorder_of_children(doc@, root as int, levels as nat, 0)));
    while i < doc.instances.len()
        invariant
            i <= doc.instances.len(),
            levels > 0,
            as_ints(out@) == start + (seq![root as int] + preorder_of_children(
                doc@,
                root as int,
                levels as nat,
                i as nat,
            )),
        decreases doc.instances.len() - i,
    {
        assert(doc@[i as int] == doc.instances@[i as int]@);
        let ghost before = as_ints(out@);
        if same_parent(doc.instances[i].parent_index, Some(root)) {
            collect_preorder(doc, i, levels - 1, out);
            assert(as_ints(out@) =~= start + (seq![root as int] + (preorder_of_children(
                doc@,
                root as int,
                levels as nat,
                i as nat,
            ) + preorder(doc@, i as int, (levels - 1) as nat))));
        }
        i += 1;
    }
}

/// Collects an instance and everything below it, parents first.
pub fn collect_settings_subtree_preorder(doc: &SettingsDocument, root: usize) -> (r: Vec<usize>)
    ensures
        as_ints(r@) == subtree(doc@, root as int),
{
    let mut out: Vec<usize> = Vec::new();
    collect_preorder(doc, root, doc.instances.len(), &mut out);
    assert(as_ints(out@) =~= subtree(doc@, root as int));
    out
}

/// Every parent comes before its children.
pub open spec fn parents_first(doc: Seq<InstanceModel>) -> bool {
    forall|i: int| 0 <= i < doc.len() && (#[trigger] doc[i]).parent is Some ==> doc[i].parent->0 < i
}

/// Where parents come first, no subtree is deeper than the instances from its root on: more
/// levels add nothing.
pub proof fn law_subtree_is_whole(doc: Seq<InstanceModel>, root: int, levels: nat)
    requires
        parents_first(doc),
        doc.len() <= usize::MAX,
        0 <= root < doc.len(),
        levels >= doc.len() - root,
    ensures
        preorder(doc, root, levels) == preorder(doc, root, (doc.len() - root) as nat),
    decreases levels,
{
    lemma_children_whole(doc, root, levels, doc.len());
}

proof fn lemma_children_whole(doc: Seq<InstanceModel>, root: int, levels: nat, n: nat)
    requires
        parents_first(doc),
        doc.len() <= usize::MAX,
        0 <= root < doc.len(),
        n <= doc.len(),
        levels >= doc.len() - root,
    ensures
        preorder_of_children(doc, root, levels, n) == preorder_of_children(doc, root, (doc.len() - root) as nat, n),
    decreases levels, n,
{
    if n > 0 {
        lemma_children_whole(doc, root, levels, (n - 1) as nat);
        if doc[n - 1].parent == Some(root as usize) {
            assert(root < n - 1);
            lemma_preorder_levels(doc, n - 1, (levels - 1) as nat);
            lemma_preorder_levels(doc, n - 1, (doc.len() - root - 1) as nat);
        }
    }
}

proof fn lemma_preorder_levels(doc: Seq<InstanceModel>, root: int, levels: nat)
    requires
        parents_first(doc),
        doc.len() <= usize::MAX,
        0 <= root < doc.len(),
        levels >= doc.len() - root,
    ensures
        preorder(doc, root, levels) == preorder(doc, root, (doc.len() - root) as nat),
    decreases levels,
{
    lemma_children_whole(doc, root, levels, doc.len());
}

/// `i` is `root` or lies below it, within `levels` steps up.
pub open spec fn below(doc: Seq<InstanceModel>, root: int, i: int, levels: nat) -> bool
    decreases levels,
{
    0 <= i < doc.len() && levels > 0 && (i == root || (doc[i].parent is Some && below(
        doc,
        root,
        doc[i].parent->0 as int,
        (levels - 1) as nat,
    )))
}

/// The settings ids of the subtree that a path names; none where it names nothing.
pub open spec fn target_ids(
    doc: Seq<InstanceModel>,
    service: Seq<char>,
    segments: Seq<Seq<char>>,
    ordinals: Seq<usize>,
) -> Seq<Seq<char>> {
    match resolved(doc, service, segments, ordinals) {
        Some(root) => ids_at(doc, subtree(doc, root)),
        None => Seq::empty(),
    }
}

/// The settings ids of the instances at some indices.
pub open spec fn ids_at(doc: Seq<InstanceModel>, at: Seq<int>) -> Seq<Seq<char>> {
    Seq::new(at.len(), |i: int| doc[at[i]].id)
}

/// Every index in a subtree is an index of the document.
pub proof fn lemma_preorder_in_range(doc: Seq<InstanceModel>, root: int, levels: nat, k: int)
    requires
        0 <= root < doc.len(),
        0 <= k < preorder(doc, root, levels).len(),
    ensures
        0 <= preorder(doc, root, levels)[k] < doc.len(),
    decreases levels, doc.len() + 2,
{
    if k > 0 {
        lemma_children_in_range(doc, root, levels, doc.len(), k - 1);
    }
}

proof fn lemma_children_in_range(doc: Seq<InstanceModel>, root: int, levels: nat, n: nat, k: int)
    requires
        0 <= root < doc.len(),
        n <= doc.len(),
        0 <= k < preorder_of_children(doc, root, levels, n).len(),
    ensures
        0 <= preorder_of_children(doc, root, levels, n)[k] < doc.len(),
    decreases levels, n + 1,
{
    if n > 0 && levels > 0 {
        let before = preorder_of_children(doc, root, levels, (n - 1) as nat);
        if k < before.len() {
            lemma_children_in_range(doc, root, levels, (n - 1) as nat, k);
        } else {
            lemma_preorder_in_range(doc, n - 1, (levels - 1) as nat, k - before.len());
        }
    }
}

/// The settings ids of the instances that a package target covers: the target and all below it.
pub fn package_target_settings_ids(
    doc: &SettingsDocument,
    service: &str,
    segments: &Vec<String>,
    ordinals: &Vec<usize>,
) -> (r: Vec<String>)
    ensures
        texts(r@) == target_ids(doc@, service@, texts(segments@), ordinals@),
{
    let root = match resolve_editor_instance_by_path_ordinals(doc, service, segments, ordinals) {
        Some(root) => root,
        None => {
            let none: Vec<String> = Vec::new();
            assert(texts(none@) =~= Seq::<Seq<char>>::empty());
            return none;
        },
    };
    let at = collect_settings_subtree_preorder(doc, root);
    assert forall|k: int| 0 <= k < at@.len() implies #[trigger] at@[k] < doc@.len() by {
        lemma_preorder_in_range(doc@, root as int, doc@.len(), k);
        assert(as_ints(at@)[k] == at@[k]);
    }
    settings_ids_at(doc, &at)
}

/// The settings ids of the instances at some indices.
pub fn settings_ids_at(doc: &SettingsDocument, at: &Vec<usize>) -> (r: Vec<String>)
    requires
        forall|k: int| 0 <= k < at@.len() ==> #[trigger] at@[k] < doc@.len(),
    ensures
        texts(r@) == ids_at(doc@, as_ints(at@)),
{
    let mut out: Vec<String> = Vec::new();
    let mut i: usize = 0;
    while i < at.len()
        invariant
            i <= at.len(),
            forall|k: int| 0 <= k < at@.len() ==> #[trigger] at@[k] < doc@.len(),
            texts(out@) == ids_at(doc@, as_ints(at@)).take(i as int),
        decreases at.len() - i,
    {
        let id = doc.instances[at[i]].settings_id.clone();
        assert(doc@[at@[i as int] as int] == doc.instances@[at@[i as int] as int]@);
        proof {
            lemma_texts_push(out@, id);
            assert(ids_at(doc@, as_ints(at@)).take(i + 1) =~= ids_at(doc@, as_ints(at@)).take(i as int).push(id@));
        }
        out.push(id);
        i += 1;
    }
    assert(ids_at(doc@, as_ints(at@)).take(i as int) =~= ids_at(doc@, as_ints(at@)));
    out
}

/// The number of an instance among those with its parent and name, counted from one.
pub open spec fn sibling_ordinal(doc: Seq<InstanceModel>, i: int) -> nat {
    named_under(doc, doc[i].parent, doc[i].name, (i + 1) as nat).len()
}

/// The indices on the way from a root to an instance, at most `levels` of them.
pub open spec fn path_indices(doc: Seq<InstanceModel>, i: int, levels: nat) -> Seq<int>
    decreases levels,
{
    if levels == 0 || !(0 <= i < doc.len()) {
        Seq::empty()
    } else {
        match doc[i].parent {
            Some(p) => path_indices(doc, p as int, (levels - 1) as nat).push(i),
            None => seq![i],
        }
    }
}

/// The names on the way from a root to an instance.
pub open spec fn path_names(doc: Seq<InstanceModel>, i: int) -> Seq<Seq<char>> {
    let at = path_indices(doc, i, doc.len());
    Seq::new(at.len(), |k: int| doc[at[k]].name)
}

/// The ordinals on the way from a root to an instance.
pub open spec fn path_ordinals(doc: Seq<InstanceModel>, i: int) -> Seq<usize> {
    let at = path_indices(doc, i, doc.len());
    Seq::new(at.len(), |k: int| sibling_ordinal(doc, at[k]) as usize)
}

fn collect_path(doc: &SettingsDocument, i: usize, levels: usize) -> (r: Vec<usize>)
    ensures
        as_ints(r@) == path_indices(doc@, i as int, levels as nat),
        forall|k: int| 0 <= k < r@.len() ==> #[trigger] r@[k] < doc@.len(),
    decreases levels,
{
    if levels == 0 || i >= doc.instances.len() {
        let none: Vec<usize> = Vec::new();
        assert(as_ints(none@) =~= Seq::<int>::empty());
        return none;
    }
    assert(doc@[i as int] == doc.instances@[i as int]@);
    match doc.instances[i].parent_index {
        Some(p) => {
            let mut r = collect_path(doc, p, levels - 1);
            proof {
                lemma_as_ints_push(r@, i);
            }
            r.push(i);
            r
        },
        None => {
            let mut r: Vec<usize> = Vec::new();
            r.push(i);
            assert(as_ints(r@) =~= seq![i as int]);
            r
        },
    }
}

fn ordinal_of(doc: &SettingsDocument, i: usize) -> (r: usize)
    requires
        i < doc@.len(),
    ensures
        r == sibling_ordinal(doc@, i as int),
        r <= i + 1,
{
    let mut count: usize = 0;
    let mut k: usize = 0;
    assert(doc@[i as int] == doc.instances@[i as int]@);
    while k <= i
        invariant
            k <= i + 1,
            i < doc.instances.len(),
            doc@[i as int] == doc.instances@[i as int]@,
            count == named_under(doc@, doc@[i as int].parent, doc@[i as int].name, k as nat).len(),
            count <= k,
        decreases i + 1 - k,
    {
        assert(doc@[k as int] == doc.instances@[k as int]@);
        if same_parent(doc.instances[k].parent_index, doc.instances[i].parent_index) && same(
            &doc.instances[k].name,
            &doc.instances[i].name,
        ) {
            count += 1;
        }
        k += 1;
    }
    count
}

/// The names and ordinals on the way from a root to an instance.
pub fn instance_path_parts(doc: &SettingsDocument, i: usize) -> (r: (Vec<String>, Vec<usize>))
    ensures
        texts(r.0@) == path_names(doc@, i as int),
        r.1@ == path_ordinals(doc@, i as int),
{
    let at = collect_path(doc, i, doc.instances.len());
    let mut names: Vec<String> = Vec::new();
    let mut ordinals: Vec<usize> = Vec::new();
    let mut k: usize = 0;
    while k < at.len()
        invariant
            k <= at.len(),
            as_ints(at@) == path_indices(doc@, i as int, doc@.len()),
            forall|j: int| 0 <= j < at@.len() ==> #[trigger] at@[j] < doc@.len(),
            texts(names@) == path_names(doc@, i as int).take(k as int),
            ordinals@ == path_ordinals(doc@, i as int).take(k as int),
        decreases at.len() - k,
    {
        let index = at[k];
        assert(as_ints(at@)[k as int] == index);
        assert(doc@[index as int] == doc.instances@[index as int]@);
        let name = doc.instances[index].name.clone();
        let ordinal = ordinal_of(doc, index);
        proof {
            lemma_texts_push(names@, name);
            assert(path_names(doc@, i as int).take(k + 1) =~= path_names(doc@, i as int).take(k as int).push(name@));
            assert(path_ordinals(doc@, i as int).take(k + 1) =~= path_ordinals(doc@, i as int).take(k as int).push(
                ordinal,
            ));
        }
        names.push(name);
        ordinals.push(ordinal);
        k += 1;
    }
    assert(path_names(doc@, i as int).take(k as int) =~= path_names(doc@, i as int));
    assert(path_ordinals(doc@, i as int).take(k as int) =~= path_ordinals(doc@, i as int));
    (names, ordinals)
}

} // verus!
