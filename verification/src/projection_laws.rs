//! What a projection holds.
use vstd::prelude::*;

use crate::digest::entry_id_for;
use crate::document::InstanceModel;
use crate::filter::FilterDirection;
use crate::order::sorted;
use crate::paths::{PathParts, slash_text};
use crate::project::{FactModel, ReniumProject, SourceKind, SyncRule, all_tree_nodes, key_at};
use crate::projection::{
    EntryModel, IdentityModel, ProjectionEntry, RuleStageError, RuleStageModel, TransformModel, compiled,
    is_transform_at, rule_staged, tree_entries, unsorted_entries,
};
use crate::projects::{
    PlacedProjectModel, RuleModel, all_rules, place_glob, placed_rule, placed_rules, rule_views,
};
use crate::rules::{middleware_class, middleware_name, rule_name};
use crate::stage_files::{EntryFact, copies_of, directories_of, first_link, ruled_of, sidecars_of};
use crate::stage_merge::{
    MergeModel, cleared, is_cleared, last_with_key, model_settled, new_parent, sources_taken, staying,
};
use crate::structure::{StructuralError, StructuralFacts, StructuralTarget, store_id, with_id};
use crate::target::target_json;
use crate::text::{joined_by, texts};

verus! {

/// An entry says what kind of thing a source is, and where it goes.
pub open spec fn tells(e: EntryModel, kind: Seq<char>, source: Seq<char>, target: Seq<char>) -> bool {
    e.kind == kind && e.source == source && e.target == target && e.id == entry_id_for(kind, source, target)
}

/// An entry is that of a part of a project.
pub open spec fn tells_of_a_part(project: ReniumProject, e: EntryModel) -> bool {
    let nodes = all_tree_nodes(project);
    ||| e.ownership is None && e.direction is None && exists|i: int|
        0 <= i < nodes.len() && (#[trigger] nodes[i]).node.path is Some && tells(
            e,
            "tree"@,
            slash_text(nodes[i].node.path->0@),
            joined_by(nodes[i].target, "."@),
        )
    ||| e.direction is None && exists|i: int|
        0 <= i < project.mounts@.len() && e.ownership == Some((#[trigger] project.mounts@[i]).ownership) && tells(
            e,
            "mount"@,
            slash_text(project.mounts@[i].source@),
            target_json(project.mounts@[i].target@.segments, project.mounts@[i].target@.ordinals),
        )
    ||| e.ownership is None && exists|i: int|
        0 <= i < project.adapters@.len() && e.direction == Some((#[trigger] project.adapters@[i]).direction) && tells(
            e,
            "adapter"@,
            slash_text(project.adapters@[i].source@),
            target_json(project.adapters@[i].target@.segments, project.adapters@[i].target@.ordinals),
        )
    ||| e.ownership is None && e.direction is None && exists|i: int|
        0 <= i < project.sync_rules@.len() && tells(
            e,
            "sync-rule"@,
            (#[trigger] project.sync_rules@[i]).pattern@,
            project.sync_rules@[i].middleware@,
        )
    ||| e.ownership is None && e.direction is None && exists|i: int|
        0 <= i < project.glob_ignore_paths@.len() && tells(
            e,
            "ignore"@,
            (#[trigger] project.glob_ignore_paths@[i])@,
            Seq::empty(),
        )
}

proof fn lemma_tree_entries(project: ReniumProject, n: nat, e: EntryModel)
    requires
        n <= all_tree_nodes(project).len(),
    ensures
        tree_entries(all_tree_nodes(project), n).contains(e) <==> e.ownership is None && e.direction is None && exists|
            i: int,
        |
            0 <= i < n && (#[trigger] all_tree_nodes(project)[i]).node.path is Some && tells(
                e,
                "tree"@,
                slash_text(all_tree_nodes(project)[i].node.path->0@),
                joined_by(all_tree_nodes(project)[i].target, "."@),
            ),
    decreases n,
{
    let nodes = all_tree_nodes(project);
    if n > 0 {
        lemma_tree_entries(project, (n - 1) as nat, e);
        let before = tree_entries(nodes, (n - 1) as nat);
        let after = tree_entries(nodes, n);
        if after.contains(e) {
            let k = choose|k: int| 0 <= k < after.len() && after[k] == e;
            if k < before.len() {
                assert(before[k] == e);
                assert(before.contains(e));
            } else {
                assert(nodes[n - 1].node.path is Some);
            }
        }
        if before.contains(e) {
            let k = choose|k: int| 0 <= k < before.len() && before[k] == e;
            assert(after[k] == e);
        }
        if after.len() > before.len() {
            assert(after.contains(after[before.len() as int]));
        }
    }
}

proof fn lemma_joined_contains(a: Seq<EntryModel>, b: Seq<EntryModel>, e: EntryModel)
    ensures
        (a + b).contains(e) <==> a.contains(e) || b.contains(e),
{
    let all = a + b;
    if a.contains(e) {
        let k = choose|k: int| 0 <= k < a.len() && a[k] == e;
        assert(all[k] == e);
    }
    if b.contains(e) {
        let k = choose|k: int| 0 <= k < b.len() && b[k] == e;
        assert(all[a.len() + k] == e);
    }
    if all.contains(e) {
        let k = choose|k: int| 0 <= k < all.len() && all[k] == e;
        if k < a.len() {
            assert(a[k] == e);
        } else {
            assert(b[k - a.len()] == e);
        }
    }
}

proof fn lemma_sorted_contains(v: Seq<EntryModel>, e: EntryModel)
    ensures
        sorted::<ProjectionEntry>(v, v.len()).contains(e) <==> v.contains(e),
        sorted::<ProjectionEntry>(v, v.len()).len() == v.len(),
{
    broadcast use vstd::seq_lib::group_to_multiset_ensures;

    crate::order::law_sorting_orders::<ProjectionEntry>(v, v.len());
    assert(v.take(v.len() as int) =~= v);
    let s = sorted::<ProjectionEntry>(v, v.len());
    assert(s.to_multiset() == v.to_multiset());
    assert(s.to_multiset().len() == s.len());
    assert(v.to_multiset().len() == v.len());
    assert(s.contains(e) <==> s.to_multiset().count(e) > 0);
    assert(v.contains(e) <==> v.to_multiset().count(e) > 0);
}

/// The projection of a project tells of each of its parts, where it comes from and where it goes,
/// and of nothing else, in the order of their targets and sources.
#[verifier::rlimit(50)]
pub proof fn law_projection_tells_of_every_part(project: ReniumProject, e: EntryModel)
    ensures
        compiled(project).contains(e) <==> tells_of_a_part(project, e),
        crate::order::in_rank::<ProjectionEntry>(compiled(project)),
{
    let all = unsorted_entries(project);
    let nodes = all_tree_nodes(project);
    crate::order::law_sorting_orders::<ProjectionEntry>(all, all.len());
    lemma_sorted_contains(all, e);
    lemma_tree_entries(project, nodes.len(), e);
    let a = tree_entries(nodes, nodes.len());
    let b = crate::projection::mount_entries(project);
    let c = crate::projection::adapter_entries(project);
    let d = crate::projection::rule_entries(project);
    let f = crate::projection::ignore_entries(project);
    lemma_joined_contains(a, b, e);
    lemma_joined_contains(a + b, c, e);
    lemma_joined_contains(a + b + c, d, e);
    lemma_joined_contains(a + b + c + d, f, e);
    assert(b.contains(e) <==> e.direction is None && exists|i: int|
        0 <= i < project.mounts@.len() && e.ownership == Some((#[trigger] project.mounts@[i]).ownership) && tells(
            e,
            "mount"@,
            slash_text(project.mounts@[i].source@),
            target_json(project.mounts@[i].target@.segments, project.mounts@[i].target@.ordinals),
        )) by {
        if b.contains(e) {
            let k = choose|k: int| 0 <= k < b.len() && b[k] == e;
            assert(e.ownership == Some(project.mounts@[k].ownership));
        }
        if e.direction is None && exists|i: int|
            0 <= i < project.mounts@.len() && e.ownership == Some((#[trigger] project.mounts@[i]).ownership) && tells(
                e,
                "mount"@,
                slash_text(project.mounts@[i].source@),
                target_json(project.mounts@[i].target@.segments, project.mounts@[i].target@.ordinals),
            ) {
            let i = choose|i: int|
                0 <= i < project.mounts@.len() && e.ownership == Some((#[trigger] project.mounts@[i]).ownership)
                    && tells(
                    e,
                    "mount"@,
                    slash_text(project.mounts@[i].source@),
                    target_json(project.mounts@[i].target@.segments, project.mounts@[i].target@.ordinals),
                );
            assert(b[i] == e);
        }
    }
    assert(c.contains(e) <==> e.ownership is None && exists|i: int|
        0 <= i < project.adapters@.len() && e.direction == Some((#[trigger] project.adapters@[i]).direction) && tells(
            e,
            "adapter"@,
            slash_text(project.adapters@[i].source@),
            target_json(project.adapters@[i].target@.segments, project.adapters@[i].target@.ordinals),
        )) by {
        if c.contains(e) {
            let k = choose|k: int| 0 <= k < c.len() && c[k] == e;
            assert(e.direction == Some(project.adapters@[k].direction));
        }
        if e.ownership is None && exists|i: int|
            0 <= i < project.adapters@.len() && e.direction == Some((#[trigger] project.adapters@[i]).direction) && tells(
                e,
                "adapter"@,
                slash_text(project.adapters@[i].source@),
                target_json(project.adapters@[i].target@.segments, project.adapters@[i].target@.ordinals),
            ) {
            let i = choose|i: int|
                0 <= i < project.adapters@.len() && e.direction == Some((#[trigger] project.adapters@[i]).direction)
                    && tells(
                    e,
                    "adapter"@,
                    slash_text(project.adapters@[i].source@),
                    target_json(project.adapters@[i].target@.segments, project.adapters@[i].target@.ordinals),
                );
            assert(c[i] == e);
        }
    }
    assert(d.contains(e) <==> e.ownership is None && e.direction is None && exists|i: int|
        0 <= i < project.sync_rules@.len() && tells(
            e,
            "sync-rule"@,
            (#[trigger] project.sync_rules@[i]).pattern@,
            project.sync_rules@[i].middleware@,
        )) by {
        if d.contains(e) {
            let k = choose|k: int| 0 <= k < d.len() && d[k] == e;
            assert(e.source == project.sync_rules@[k].pattern@);
        }
        if e.ownership is None && e.direction is None && exists|i: int|
            0 <= i < project.sync_rules@.len() && tells(
                e,
                "sync-rule"@,
                (#[trigger] project.sync_rules@[i]).pattern@,
                project.sync_rules@[i].middleware@,
            ) {
            let i = choose|i: int|
                0 <= i < project.sync_rules@.len() && tells(
                    e,
                    "sync-rule"@,
                    (#[trigger] project.sync_rules@[i]).pattern@,
                    project.sync_rules@[i].middleware@,
                );
            assert(d[i] == e);
        }
    }
    assert(f.contains(e) <==> e.ownership is None && e.direction is None && exists|i: int|
        0 <= i < project.glob_ignore_paths@.len() && tells(
            e,
            "ignore"@,
            (#[trigger] project.glob_ignore_paths@[i])@,
            Seq::empty(),
        )) by {
        if f.contains(e) {
            let k = choose|k: int| 0 <= k < f.len() && f[k] == e;
            assert(e.source == project.glob_ignore_paths@[k]@);
        }
        if e.ownership is None && e.direction is None && exists|i: int|
            0 <= i < project.glob_ignore_paths@.len() && tells(
                e,
                "ignore"@,
                (#[trigger] project.glob_ignore_paths@[i])@,
                Seq::empty(),
            ) {
            let i = choose|i: int|
                0 <= i < project.glob_ignore_paths@.len() && tells(
                    e,
                    "ignore"@,
                    (#[trigger] project.glob_ignore_paths@[i])@,
                    Seq::empty(),
                );
            assert(f[i] == e);
        }
    }
}

proof fn lemma_transform_at(v: Seq<TransformModel>, target: Seq<Seq<char>>, n: nat)
    requires
        n <= v.len(),
        exists|i: int| 0 <= i < n && (#[trigger] v[i]).target == target,
    ensures
        exists|i: int| is_transform_at(v, target, i),
    decreases n,
{
    if exists|i: int| 0 <= i < n - 1 && (#[trigger] v[i]).target == target {
        lemma_transform_at(v, target, (n - 1) as nat);
    } else {
        assert(is_transform_at(v, target, n - 1));
    }
}

/// A rule makes a script or what its format says of a file, at the name of the file below where it
/// lies, or right there for one named init. What it made is remembered. No two files make the
/// same target, and a rule that ignores makes nothing.
#[verifier::rlimit(50)]
pub proof fn law_rules_make_their_targets(
    transforms: Seq<TransformModel>,
    rule: SyncRule,
    file: Seq<char>,
    above: Seq<Seq<char>>,
    source: PathParts,
    formats: Seq<Seq<char>>,
    name: Seq<char>,
)
    requires
        rule_name(rule, file) == Ok::<Seq<char>, crate::rules::RuleNameError>(name),
    ensures
        ({
            let made = middleware_name(rule.middleware@);
            let target = if name == "init"@ {
                above
            } else {
                above.push(name)
            };
            let taken = exists|i: int| 0 <= i < transforms.len() && (#[trigger] transforms[i]).target == target;
            let (r, after) = rule_staged(transforms, rule, file, above, source, formats);
            let free = made != "ignore"@ && target.len() > 0 && !taken;
            &&& made == "ignore"@ ==> r == Ok::<RuleStageModel, RuleStageError>(RuleStageModel::Ignored) && after
                == transforms
            &&& made != "ignore"@ && taken && target.len() > 0 ==> r is Err && r->Err_0 is Taken && after == transforms
            &&& free && made == "modulescript"@ ==> r == Ok::<RuleStageModel, RuleStageError>(
                RuleStageModel::Script { target, class_name: "ModuleScript"@, plugin: false },
            )
            &&& free && made == "clientscript"@ ==> r == Ok::<RuleStageModel, RuleStageError>(
                RuleStageModel::Script { target, class_name: "LocalScript"@, plugin: false },
            )
            &&& free && made == "serverscript"@ ==> r == Ok::<RuleStageModel, RuleStageError>(
                RuleStageModel::Script { target, class_name: "Script"@, plugin: false },
            )
            &&& free && made == "pluginscript"@ ==> r == Ok::<RuleStageModel, RuleStageError>(
                RuleStageModel::Script { target, class_name: "Script"@, plugin: true },
            )
            &&& free && middleware_class(made) is None && formats.contains(made) ==> r == Ok::<
                RuleStageModel,
                RuleStageError,
            >(RuleStageModel::Adapted { target, format: made })
            &&& free && middleware_class(made) is None && !formats.contains(made) ==> r == Err::<
                RuleStageModel,
                RuleStageError,
            >(RuleStageError::Unsupported)
            &&& free ==> after.len() == transforms.len() + 1 && transforms.is_prefix_of(after) && after.last().target
                == target && after.last().source == source && after.last().script_class_name == middleware_class(made)
        }),
{
    crate::rule_laws::law_scripts_have_their_classes();
    let target = if name == "init"@ {
        above
    } else {
        above.push(name)
    };
    if exists|i: int| 0 <= i < transforms.len() && (#[trigger] transforms[i]).target == target {
        lemma_transform_at(transforms, target, transforms.len());
    }
    reveal_strlit("modulescript");
    reveal_strlit("serverscript");
    reveal_strlit("pluginscript");
    reveal_strlit("clientscript");
    assert("modulescript"@[0] == 'm' && "serverscript"@[0] == 's' && "pluginscript"@[0] == 'p' && "clientscript"@[0]
        == 'c');
    let after = rule_staged(transforms, rule, file, above, source, formats).1;
    if after.len() > transforms.len() {
        assert(transforms =~= after.subrange(0, transforms.len() as int));
    }
}

/// The filters of a project inside another speak only of what is below its place, and keep all
/// else that they say. Filters for the other direction are left out.
pub proof fn law_inner_filters_stay_inside(rule: RuleModel, prefix: Seq<Seq<char>>, i: int)
    ensures
        rule.direction == FilterDirection::StudioToFiles ==> placed_rule(rule, prefix).len() == 0,
        rule.direction != FilterDirection::StudioToFiles ==> placed_rule(rule, prefix).len() > 0,
        prefix.len() == 0 && rule.direction != FilterDirection::StudioToFiles ==> placed_rule(rule, prefix) == seq![rule],
        0 <= i < placed_rule(rule, prefix).len() ==> {
            let x = placed_rule(rule, prefix)[i];
            &&& x.action == rule.action && x.direction == rule.direction && x.name == rule.name && x.class == rule.class
                && x.tag == rule.tag && x.attribute == rule.attribute && x.property == rule.property && x.id == rule.id
            &&& prefix.len() > 0 ==> x.glob is Some && place_glob(prefix).is_prefix_of(x.glob->0)
            &&& prefix.len() > 0 && rule.glob is Some && rule.glob->0.len() > 0 && rule.glob->0[0] != '/' ==> x.glob->0
                == place_glob(prefix) + "/"@ + rule.glob->0
            &&& prefix.len() > 0 && rule.glob is None ==> x.glob->0 == place_glob(prefix) || x.glob->0 == place_glob(
                prefix,
            ) + "/**"@
        },
{
    if 0 <= i < placed_rule(rule, prefix).len() && prefix.len() > 0 {
        let x = placed_rule(rule, prefix)[i];
        let place = place_glob(prefix);
        assert(x.glob->0.subrange(0, place.len() as int) =~= place);
    }
}

proof fn lemma_placed_rules(rules: Seq<RuleModel>, prefix: Seq<Seq<char>>, n: nat, i: int, k: int)
    requires
        n <= rules.len(),
        0 <= i < n,
        0 <= k < placed_rule(rules[i], prefix).len(),
    ensures
        placed_rules(rules, prefix, n).contains(placed_rule(rules[i], prefix)[k]),
    decreases n,
{
    let before = placed_rules(rules, prefix, (n - 1) as nat);
    let after = placed_rules(rules, prefix, n);
    let x = placed_rule(rules[i], prefix)[k];
    if i == n - 1 {
        assert(after[before.len() + k] == x);
    } else {
        lemma_placed_rules(rules, prefix, (n - 1) as nat, i, k);
        let j = choose|j: int| 0 <= j < before.len() && before[j] == x;
        assert(after[j] == x);
    }
}

/// Every filter of every project is among those of the whole.
pub proof fn law_every_filter_counts(list: Seq<PlacedProjectModel>, n: nat, p: int, i: int, k: int)
    requires
        n <= list.len(),
        0 <= p < n,
        0 <= i < list[p].tree.loaded.project.filters@.len(),
        0 <= k < placed_rule(rule_views(list[p].tree.loaded.project.filters@)[i], list[p].prefix).len(),
    ensures
        all_rules(list, n).contains(placed_rule(rule_views(list[p].tree.loaded.project.filters@)[i], list[p].prefix)[k]),
    decreases n,
{
    let rules = rule_views(list[p].tree.loaded.project.filters@);
    let x = placed_rule(rules[i], list[p].prefix)[k];
    let before = all_rules(list, (n - 1) as nat);
    let after = all_rules(list, n);
    if p == n - 1 {
        lemma_placed_rules(rules, list[p].prefix, rules.len(), i, k);
        let mine = placed_rules(rules, list[p].prefix, rules.len());
        let j = choose|j: int| 0 <= j < mine.len() && mine[j] == x;
        assert(after[before.len() + j] == x);
    } else {
        law_every_filter_counts(list, (n - 1) as nat, p, i, k);
        let j = choose|j: int| 0 <= j < before.len() && before[j] == x;
        assert(after[j] == x);
    }
}

/// An instance is changed in its store only where nothing forbids it: no package for reading holds
/// it, it can be told from others of its name, no rule made it, and, where that counts, the
/// project does not name it. It then goes by the id that its own store gives it.
pub proof fn law_changes_go_to_the_own_store(
    transforms: Seq<TransformModel>,
    identities: Map<Seq<char>, IdentityModel>,
    files: Map<PathParts, FactModel>,
    target: StructuralTarget,
    id: Option<Seq<char>>,
    reject: bool,
    facts: StructuralFacts,
)
    ensures
        ({
            let r = store_id(transforms, identities, files, target, id, reject, facts);
            let ruled = exists|i: int|
                0 <= i < transforms.len() && (#[trigger] transforms[i]).target.is_prefix_of(texts(target.segments@));
            let twin = exists|i: int| 0 <= i < target.ordinals@.len() && #[trigger] target.ordinals@[i] > 1;
            let barred = facts.read_only || (id is None && twin) || ruled || (reject && facts.declarative);
            &&& barred ==> r is Err
            &&& facts.read_only ==> r == Err::<Option<Seq<char>>, StructuralError>(StructuralError::ReadOnly)
            &&& !barred && id is None ==> r == Ok::<Option<Seq<char>>, StructuralError>(None)
            &&& !barred && id is Some && identities.dom().contains(id->0) && key_at(
                files,
                identities[id->0].source,
            ) == key_at(files, facts.store@) ==> r == Ok::<Option<Seq<char>>, StructuralError>(
                Some(identities[id->0].settings_id),
            )
            &&& !barred && id is Some && identities.dom().contains(id->0) && key_at(
                files,
                identities[id->0].source,
            ) != key_at(files, facts.store@) ==> r == Err::<Option<Seq<char>>, StructuralError>(
                StructuralError::OtherStore,
            )
            &&& !barred && id is Some && !identities.dom().contains(id->0) && (exists|i: int|
                0 <= i < facts.document@.len() && (#[trigger] facts.document@[i]).id == id->0) ==> r == Ok::<
                Option<Seq<char>>,
                StructuralError,
            >(id)
            &&& !barred && id is Some && !identities.dom().contains(id->0) && (forall|i: int|
                0 <= i < facts.document@.len() ==> (#[trigger] facts.document@[i]).id != id->0) ==> r == Err::<
                Option<Seq<char>>,
                StructuralError,
            >(StructuralError::OnlyDescribed)
        }),
{
    if id is Some {
        lemma_with_id(facts.document@, id->0, 0);
    }
}

proof fn lemma_with_id(doc: Seq<InstanceModel>, id: Seq<char>, i: int)
    requires
        0 <= i <= doc.len(),
    ensures
        with_id(doc, id, i) is None <==> forall|k: int| i <= k < doc.len() ==> (#[trigger] doc[k]).id != id,
        with_id(doc, id, i) matches Some(k) ==> i <= k < doc.len() && doc[k].id == id,
    decreases doc.len() - i,
{
    if i < doc.len() {
        lemma_with_id(doc, id, i + 1);
    }
}

/// What is brought of a directory.
pub proof fn law_entries_are_brought(facts: Seq<EntryFact>, n: nat, i: int)
    requires
        n <= facts.len() <= usize::MAX,
        0 <= i < n,
    ensures
        ({
            let f = facts[i];
            let taken = !f.is_root && !f.ignored;
            &&& directories_of(facts, n).contains(i as usize) <==> taken && f.kind == SourceKind::Directory
            &&& sidecars_of(facts, n).contains(i as usize) <==> taken && f.kind == SourceKind::File && f.is_sidecar
            &&& ruled_of(facts, n).contains(i as usize) <==> taken && f.kind == SourceKind::File && !f.is_sidecar
                && f.rule is Some
            &&& copies_of(facts, n).contains(i as usize) <==> taken && f.kind == SourceKind::File && !f.is_sidecar
                && f.rule is None
        }),
    decreases n,
{
    lemma_listed(facts, n, i);
}

#[verifier::rlimit(50)]
proof fn lemma_listed(facts: Seq<EntryFact>, n: nat, i: int)
    requires
        n <= facts.len() <= usize::MAX,
        0 <= i < facts.len(),
    ensures
        ({
            let f = facts[i];
            let taken = i < n && !f.is_root && !f.ignored;
            &&& directories_of(facts, n).contains(i as usize) <==> taken && f.kind == SourceKind::Directory
            &&& sidecars_of(facts, n).contains(i as usize) <==> taken && f.kind == SourceKind::File && f.is_sidecar
            &&& ruled_of(facts, n).contains(i as usize) <==> taken && f.kind == SourceKind::File && !f.is_sidecar
                && f.rule is Some
            &&& copies_of(facts, n).contains(i as usize) <==> taken && f.kind == SourceKind::File && !f.is_sidecar
                && f.rule is None
        }),
    decreases n,
{
    if n > 0 {
        lemma_listed(facts, (n - 1) as nat, i);
        let p = (n - 1) as usize;
        lemma_pushed(directories_of(facts, (n - 1) as nat), p, i as usize);
        lemma_pushed(sidecars_of(facts, (n - 1) as nat), p, i as usize);
        lemma_pushed(ruled_of(facts, (n - 1) as nat), p, i as usize);
        lemma_pushed(copies_of(facts, (n - 1) as nat), p, i as usize);
    }
}

proof fn lemma_pushed(s: Seq<usize>, a: usize, x: usize)
    ensures
        s.push(a).contains(x) <==> s.contains(x) || x == a,
{
    let t = s.push(a);
    if s.contains(x) {
        let i = choose|i: int| 0 <= i < s.len() && s[i] == x;
        assert(t[i] == x);
    }
    if x == a {
        assert(t[s.len() as int] == x);
    }
    if t.contains(x) {
        let i = choose|i: int| 0 <= i < t.len() && t[i] == x;
        if i < s.len() {
            assert(s[i] == x);
        }
    }
}

/// A link in a directory stops the bringing, unless it is the directory itself.
pub proof fn law_links_are_not_followed(facts: Seq<EntryFact>, from: int)
    requires
        0 <= from <= facts.len(),
    ensures
        first_link(facts, from) is None <==> forall|i: int|
            from <= i < facts.len() ==> !((#[trigger] facts[i]).kind == SourceKind::Link && !facts[i].is_root),
        first_link(facts, from) matches Some(i) ==> from <= i < facts.len() && facts[i].kind == SourceKind::Link
            && !facts[i].is_root,
    decreases facts.len() - from,
{
    if from < facts.len() {
        law_links_are_not_followed(facts, from + 1);
    }
}

proof fn lemma_last_key(doc: Seq<InstanceModel>, keys: Seq<Seq<char>>, parent: Option<usize>, key: Seq<char>, n: nat)
    requires
        n <= doc.len() <= usize::MAX,
        keys.len() == doc.len(),
    ensures
        last_with_key(doc, keys, parent, key, n) matches Some(i) ==> i < n && doc[i as int].parent == parent
            && keys[i as int] == key,
        last_with_key(doc, keys, parent, key, n) is None ==> forall|i: int|
            0 <= i < n ==> !((#[trigger] doc[i]).parent == parent && keys[i] == key),
    decreases n,
{
    if n > 0 {
        lemma_last_key(doc, keys, parent, key, (n - 1) as nat);
    }
}

/// What became of a generated instance.
pub open spec fn is_taken_up(
    m: MergeModel,
    start: nat,
    generated: Seq<InstanceModel>,
    root_keys: Seq<Seq<char>>,
    child_keys: Seq<Seq<char>>,
    i: int,
) -> bool {
    let x = generated[i];
    let at = m.places[i] as int;
    let parent = if x.parent is Some && x.parent->0 < i {
        Some(m.places[x.parent->0 as int])
    } else {
        None
    };
    &&& 0 <= at < m.doc.len()
    &&& m.doc[at].parent == parent
    &&& m.keys[at] == if parent is None {
        root_keys[i]
    } else {
        child_keys[i]
    }
}

/// The instances of generated sources are found by the keys of their files below what their
/// parents became, or are added there as they were generated.
#[verifier::rlimit(50)]
pub proof fn law_generated_sources_are_taken_up(
    start: MergeModel,
    generated: Seq<InstanceModel>,
    root_keys: Seq<Seq<char>>,
    child_keys: Seq<Seq<char>>,
    n: nat,
)
    requires
        n <= generated.len(),
        start.doc.len() + generated.len() <= usize::MAX,
        start.keys.len() == start.doc.len(),
        start.places.len() == 0,
    ensures
        ({
            let m = sources_taken(start, generated, root_keys, child_keys, n);
            &&& m.places.len() == n
            &&& m.keys.len() == m.doc.len()
            &&& start.doc.len() <= m.doc.len() <= start.doc.len() + n
            &&& start.doc.is_prefix_of(m.doc)
            &&& forall|i: int| #![trigger generated[i]]
                0 <= i < n ==> is_taken_up(m, start.doc.len(), generated, root_keys, child_keys, i)
            &&& forall|q: int|
                start.doc.len() <= q < m.doc.len() ==> exists|i: int|
                    #![trigger generated[i]]
                    0 <= i < n && m.places[i] == q && (#[trigger] m.doc[q]).name == generated[i].name
                        && m.doc[q].class_name == generated[i].class_name && m.doc[q].properties
                        == generated[i].properties && m.doc[q].attributes == generated[i].attributes
        }),
    decreases n,
{
    if n > 0 {
        let p = n - 1;
        law_generated_sources_are_taken_up(start, generated, root_keys, child_keys, p as nat);
        let b = sources_taken(start, generated, root_keys, child_keys, p as nat);
        let m = sources_taken(start, generated, root_keys, child_keys, n);
        let x = generated[p];
        let parent = new_parent(x.parent, b.places);
        let key = if parent is None {
            root_keys[p]
        } else {
            child_keys[p]
        };
        lemma_last_key(b.doc, b.keys, parent, key, b.doc.len());
        assert(start.doc =~= m.doc.subrange(0, start.doc.len() as int)) by {
            assert(start.doc =~= b.doc.subrange(0, start.doc.len() as int));
        }
        assert forall|k: int| 0 <= k < p implies #[trigger] m.places[k] == b.places[k] by {}
        assert forall|k: int| 0 <= k < b.doc.len() implies #[trigger] m.doc[k] == b.doc[k] && m.keys[k] == b.keys[k] by {}
        assert forall|i: int| #![trigger generated[i]] 0 <= i < n implies is_taken_up(
            m,
            start.doc.len(),
            generated,
            root_keys,
            child_keys,
            i,
        ) by {
            if i < p {
                assert(is_taken_up(b, start.doc.len(), generated, root_keys, child_keys, i));
                assert(m.places[i] == b.places[i]);
                if generated[i].parent is Some && generated[i].parent->0 < i {
                    let q = generated[i].parent->0 as int;
                    assert(m.places[q] == b.places[q]);
                }
            } else {
                if x.parent is Some && x.parent->0 < p {
                    let q = x.parent->0 as int;
                    assert(m.places[q] == b.places[q]);
                }
            }
        }
        assert forall|q: int| start.doc.len() <= q < m.doc.len() implies exists|i: int|
            #![trigger generated[i]]
            0 <= i < n && m.places[i] == q && (#[trigger] m.doc[q]).name == generated[i].name && m.doc[q].class_name
                == generated[i].class_name && m.doc[q].properties == generated[i].properties && m.doc[q].attributes
                == generated[i].attributes by {
            if q < b.doc.len() {
                assert(m.doc[q] == b.doc[q]);
                let i = choose|i: int|
                    #![trigger generated[i]]
                    0 <= i < p && b.places[i] == q && b.doc[q].name == generated[i].name && b.doc[q].class_name
                        == generated[i].class_name && b.doc[q].properties == generated[i].properties
                        && b.doc[q].attributes == generated[i].attributes;
                assert(m.places[i] == b.places[i]);
                assert(generated[i].name == m.doc[q].name);
            } else {
                assert(m.places[p] == q);
                assert(generated[p].name == m.doc[q].name);
            }
        }
    }
}

/// An imported model stands at its target: a single root gets the target's name, several stand in
/// a folder of that name, and none changes nothing.
pub proof fn law_imported_models_get_the_name(
    doc: Seq<InstanceModel>,
    target: Seq<Seq<char>>,
    parent: usize,
    ids: Seq<Seq<char>>,
    i: int,
)
    requires
        model_settled(doc, target, parent, ids) is Some,
        doc.len() < usize::MAX,
    ensures
        ({
            let out = model_settled(doc, target, parent, ids)->0;
            &&& ids.len() == 0 ==> out == doc
            &&& ids.len() == 1 ==> out.len() == doc.len()
            &&& ids.len() == 1 && (exists|k: int| 0 <= k < doc.len() && (#[trigger] doc[k]).id == ids[0]) ==> exists|k: int|
                0 <= k < doc.len() && (#[trigger] doc[k]).id == ids[0] && out[k].name == target.last()
                    && out[k].class_name == doc[k].class_name && out[k].properties == doc[k].properties && out[k].parent
                    == doc[k].parent
            &&& ids.len() > 1 ==> out.len() == doc.len() + 1 && out.last().name == target.last()
                && out.last().class_name == "Folder"@ && out.last().parent == Some(parent)
            &&& ids.len() > 1 && 0 <= i < doc.len() && ids.contains(doc[i].id) ==> out[i].parent == Some(
                doc.len() as usize,
            ) && out[i].name == doc[i].name && out[i].properties == doc[i].properties && out[i].class_name
                == doc[i].class_name
            &&& ids.len() > 1 && 0 <= i < doc.len() && !ids.contains(doc[i].id) ==> out[i] == doc[i]
        }),
{
    if ids.len() == 1 {
        lemma_with_id(doc, ids[0], 0);
        match with_id(doc, ids[0], 0) {
            Some(k) => {
                assert(doc[k].id == ids[0]);
            },
            None => {},
        }
    }
}

proof fn lemma_staying(doc: Seq<InstanceModel>, target: int, n: nat, k: int)
    requires
        n <= doc.len() <= usize::MAX,
        0 <= k < staying(doc, target, n).len(),
    ensures
        staying(doc, target, n)[k] < n,
        !is_cleared(doc, target, staying(doc, target, n)[k] as int),
    decreases n,
{
    if n > 0 {
        let before = staying(doc, target, (n - 1) as nat);
        if k < before.len() {
            lemma_staying(doc, target, (n - 1) as nat, k);
        }
    }
}

/// Clearing a target takes what stands below it and nothing else; what stays is as it was, but
/// for the number of its parent.
pub proof fn law_clearing_takes_what_is_below(doc: Seq<InstanceModel>, target: int, k: int)
    requires
        doc.len() <= usize::MAX,
        0 <= k < cleared(doc, target).len(),
    ensures
        exists|i: int|
            0 <= i < doc.len() && (i == target || !crate::document::below(doc, target, i, doc.len())) && (
            #[trigger] doc[i]).id == cleared(doc, target)[k].id && doc[i].name == cleared(doc, target)[k].name
                && doc[i].class_name == cleared(doc, target)[k].class_name && doc[i].properties == cleared(
                doc,
                target,
            )[k].properties && doc[i].attributes == cleared(doc, target)[k].attributes,
{
    lemma_staying(doc, target, doc.len(), k);
    let i = staying(doc, target, doc.len())[k] as int;
    assert(doc[i].id == cleared(doc, target)[k].id);
}

} // verus!
