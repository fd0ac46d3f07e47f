//! A project and those inside it, each at its place: what they filter, what they leave alone, and what
//! they say of instances.
use vstd::prelude::*;

use crate::filter::{escape_glob, escaped_glob, escaped_segments, filter_path_segments, FilterAction, FilterDirection, FilterRule};
use crate::links::{copy_opt, opt_text};
use crate::mapping::{joined_target, ProjectTree};
use crate::order::{ascending, SortedSet};
use crate::project::{
    all_tree_nodes, project_tree_nodes, target_checked, tree_views, validate_instance_target, AdapterDirection, ReniumProject,
    Sidecar, TargetProblem, TreeNodeModel,
};
use crate::table::key_views;
use crate::text::{chars_of, clone_texts, joined, joined_by, text_from, texts};
use crate::wally_sync::PathKey;

verus! {

broadcast use vstd::seq_lib::group_seq_properties;

/// Something of a project that may hold another project: its target, and what is wrong with it.
pub struct OwnerTarget {
    pub target: Vec<String>,
    pub problem: Option<TargetProblem>,
}

#[verifier::ext_equal]
pub struct OwnerTargetModel {
    pub target: Seq<Seq<char>>,
    pub problem: Option<TargetProblem>,
}

impl View for OwnerTarget {
    type V = OwnerTargetModel;

    open spec fn view(&self) -> OwnerTargetModel {
        OwnerTargetModel { target: texts(self.target@), problem: self.problem }
    }
}

pub open spec fn owner_target_views(v: Seq<OwnerTarget>) -> Seq<OwnerTargetModel> {
    Seq::new(v.len(), |i: int| v[i]@)
}

/// The targets of the first `n` tree nodes with a source.
pub open spec fn tree_targets_with_source(nodes: Seq<TreeNodeModel>, n: nat) -> Seq<OwnerTargetModel>
    decreases n,
{
    if n == 0 {
        Seq::empty()
    } else {
        let before = tree_targets_with_source(nodes, (n - 1) as nat);
        match nodes[n - 1].node.path {
            Some(_) => before.push(OwnerTargetModel { target: nodes[n - 1].target, problem: None }),
            None => before,
        }
    }
}

pub open spec fn problem_of(r: Result<(), TargetProblem>) -> Option<TargetProblem> {
    match r {
        Ok(_) => None,
        Err(e) => Some(e),
    }
}

/// The targets of mounts.
pub open spec fn mount_target_list(project: ReniumProject) -> Seq<OwnerTargetModel> {
    Seq::new(
        project.mounts@.len(),
        |i: int|
            OwnerTargetModel {
                target: project.mounts@[i].target@.segments,
                problem: problem_of(target_checked(project.mounts@[i].target@)),
            },
    )
}

/// The targets of the first `n` adapters that carry content into a project.
pub open spec fn adapter_target_list(project: ReniumProject, n: nat) -> Seq<OwnerTargetModel>
    decreases n,
{
    if n == 0 {
        Seq::empty()
    } else {
        let before = adapter_target_list(project, (n - 1) as nat);
        let adapter = project.adapters@[n - 1];
        if adapter.direction == AdapterDirection::FromProject {
            before
        } else {
            before.push(
                OwnerTargetModel { target: adapter.target@.segments, problem: problem_of(target_checked(adapter.target@)) },
            )
        }
    }
}

/// What of a project may hold another project: its tree, its mounts and its adapters.
pub open spec fn holder_targets(project: ReniumProject) -> Seq<OwnerTargetModel> {
    let nodes = all_tree_nodes(project);
    tree_targets_with_source(nodes, nodes.len()) + mount_target_list(project) + adapter_target_list(
        project,
        project.adapters@.len(),
    )
}

fn push_holder(out: &mut Vec<OwnerTarget>, x: OwnerTarget)
    ensures
        owner_target_views(final(out)@) == owner_target_views(old(out)@).push(x@),
{
    let ghost before = out@;
    out.push(x);
    assert(owner_target_views(out@) =~= owner_target_views(before).push(x@));
}

fn find_problem(r: Result<(), TargetProblem>) -> (p: Option<TargetProblem>)
    ensures
        p == problem_of(r),
{
    match r {
        Ok(_) => None,
        Err(e) => Some(e),
    }
}

/// Lists what of a project may hold another project.
pub fn list_holders(project: &ReniumProject) -> (r: Vec<OwnerTarget>)
    ensures
        owner_target_views(r@) == holder_targets(*project),
{
    let nodes = project_tree_nodes(&project.tree);
    let ghost all = tree_views(nodes@);
    assert(all.len() == nodes@.len());
    let mut out: Vec<OwnerTarget> = Vec::new();
    assert(owner_target_views(out@) =~= Seq::empty());
    let mut i: usize = 0;
    while i < nodes.len()
        invariant
            i <= nodes.len(),
            all == tree_views(nodes@),
            owner_target_views(out@) == tree_targets_with_source(all, i as nat),
        decreases nodes.len() - i,
    {
        assert(all[i as int] == nodes@[i as int]@);
        if nodes[i].node.path.is_some() {
            push_holder(&mut out, OwnerTarget { target: clone_texts(&nodes[i].target), problem: None });
        }
        i += 1;
    }
    let ghost first = owner_target_views(out@);
    let ghost mounts = mount_target_list(*project);
    let mut m: usize = 0;
    assert(first + mounts.take(0) =~= first);
    while m < project.mounts.len()
        invariant
            m <= project.mounts.len(),
            mounts == mount_target_list(*project),
            owner_target_views(out@) == first + mounts.take(m as int),
        decreases project.mounts.len() - m,
    {
        let target = &project.mounts[m].target;
        let x = OwnerTarget { target: target.segments(), problem: find_problem(validate_instance_target(target)) };
        proof {
            assert(mounts[m as int] == x@);
            assert((first + mounts.take(m as int)).push(x@) =~= first + mounts.take(m + 1));
        }
        push_holder(&mut out, x);
        m += 1;
    }
    assert(mounts.take(m as int) =~= mounts);
    let ghost second = owner_target_views(out@);
    let mut a: usize = 0;
    assert(second + adapter_target_list(*project, 0) =~= second);
    while a < project.adapters.len()
        invariant
            a <= project.adapters.len(),
            owner_target_views(out@) == second + adapter_target_list(*project, a as nat),
        decreases project.adapters.len() - a,
    {
        let adapter = &project.adapters[a];
        if adapter.direction != AdapterDirection::FromProject {
            let ghost before = adapter_target_list(*project, a as nat);
            let x = OwnerTarget {
                target: adapter.target.segments(),
                problem: find_problem(validate_instance_target(&adapter.target)),
            };
            assert((second + before).push(x@) =~= second + before.push(x@));
            push_holder(&mut out, x);
        }
        a += 1;
    }
    out
}

/// A project at its place: the names on the way to it.
pub struct PlacedProject<'a> {
    pub prefix: Vec<String>,
    pub tree: &'a ProjectTree,
}

#[verifier::ext_equal]
pub struct PlacedProjectModel {
    pub prefix: Seq<Seq<char>>,
    pub tree: ProjectTree,
}

impl<'a> View for PlacedProject<'a> {
    type V = PlacedProjectModel;

    open spec fn view(&self) -> PlacedProjectModel {
        PlacedProjectModel { prefix: texts(self.prefix@), tree: *self.tree }
    }
}

pub open spec fn placed_views<'a>(v: Seq<PlacedProject<'a>>) -> Seq<PlacedProjectModel> {
    Seq::new(v.len(), |i: int| v[i]@)
}

/// The projects inside the first `n` holders of a project, each before those inside it.
pub open spec fn held_projects(tree: ProjectTree, holders: Seq<OwnerTargetModel>, prefix: Seq<Seq<char>>, n: nat) -> Result<
    Seq<PlacedProjectModel>,
    TargetProblem,
>
    decreases tree, n,
{
    if n == 0 {
        Ok(Seq::empty())
    } else {
        match held_projects(tree, holders, prefix, (n - 1) as nat) {
            Err(e) => Err(e),
            Ok(before) => if n - 1 < tree.nested@.len() && tree.nested@[n - 1] is Some {
                match holders[n - 1].problem {
                    Some(e) => Err(e),
                    None => match placed_projects(tree.nested@[n - 1]->0, prefix + holders[n - 1].target) {
                        Err(e) => Err(e),
                        Ok(inner) => Ok(before + inner),
                    },
                }
            } else {
                Ok(before)
            },
        }
    }
}

/// A project at its place and those inside it, each before those inside it.
pub open spec fn placed_projects(tree: ProjectTree, prefix: Seq<Seq<char>>) -> Result<Seq<PlacedProjectModel>, TargetProblem>
    decreases tree, holder_targets(tree.loaded.project).len() + 1,
{
    let holders = holder_targets(tree.loaded.project);
    match held_projects(tree, holders, prefix, holders.len()) {
        Err(e) => Err(e),
        Ok(inner) => Ok(seq![PlacedProjectModel { prefix, tree }] + inner),
    }
}

proof fn lemma_held_error(tree: ProjectTree, holders: Seq<OwnerTargetModel>, prefix: Seq<Seq<char>>, a: nat, b: nat)
    requires
        a <= b,
        held_projects(tree, holders, prefix, a) is Err,
    ensures
        held_projects(tree, holders, prefix, b) == held_projects(tree, holders, prefix, a),
    decreases b,
{
    if a < b {
        lemma_held_error(tree, holders, prefix, a, (b - 1) as nat);
    }
}

fn append_projects<'a>(tree: &'a ProjectTree, prefix: &Vec<String>, out: &mut Vec<PlacedProject<'a>>) -> (r: Result<(), TargetProblem>)
    ensures
        match placed_projects(*tree, texts(prefix@)) {
            Ok(list) => r is Ok && placed_views(final(out)@) == placed_views(old(out)@) + list,
            Err(e) => r is Err && r->Err_0 == e,
        },
    decreases tree,
{
    let holders = list_holders(&tree.loaded.project);
    let ghost all = owner_target_views(holders@);
    assert(all.len() == holders@.len());
    let ghost start = placed_views(out@);
    let own = PlacedProject { prefix: clone_texts(prefix), tree };
    let ghost first = seq![own@];
    let ghost given = out@;
    out.push(own);
    assert(placed_views(out@) =~= start + first);
    let mut i: usize = 0;
    assert(start + first + Seq::<PlacedProjectModel>::empty() =~= start + first);
    while i < holders.len()
        invariant
            i <= holders.len(),
            all == owner_target_views(holders@),
            all.len() == holders@.len(),
            all == holder_targets(tree.loaded.project),
            start == placed_views(old(out)@),
            first == seq![PlacedProjectModel { prefix: texts(prefix@), tree: *tree }],
            held_projects(*tree, all, texts(prefix@), i as nat) is Ok,
            placed_views(out@) == start + first + held_projects(*tree, all, texts(prefix@), i as nat)->Ok_0,
        decreases holders.len() - i,
    {
        assert(all[i as int] == holders@[i as int]@);
        if i < tree.nested.len() {
            match &tree.nested[i] {
                Some(inner) => {
                    let ghost before = held_projects(*tree, all, texts(prefix@), i as nat)->Ok_0;
                    match holders[i].problem {
                        Some(e) => {
                            proof {
                                lemma_held_error(*tree, all, texts(prefix@), (i + 1) as nat, all.len());
                            }
                            return Err(e);
                        },
                        None => {},
                    }
                    let target = joined_target(prefix, &holders[i].target);
                    match append_projects(inner, &target, out) {
                        Err(e) => {
                            proof {
                                lemma_held_error(*tree, all, texts(prefix@), (i + 1) as nat, all.len());
                            }
                            return Err(e);
                        },
                        Ok(_) => {
                            proof {
                                let more = placed_projects(*inner, texts(target@))->Ok_0;
                                assert(start + first + before + more =~= start + first + (before + more));
                            }
                        },
                    }
                },
                None => {},
            }
        }
        i += 1;
    }
    proof {
        let inner = held_projects(*tree, all, texts(prefix@), all.len())->Ok_0;
        assert(start + first + inner =~= start + (first + inner));
    }
    Ok(())
}

/// Lists a project and those inside it, each before those inside it.
pub fn list_projects<'a>(tree: &'a ProjectTree) -> (r: Result<Vec<PlacedProject<'a>>, TargetProblem>)
    ensures
        match placed_projects(*tree, Seq::empty()) {
            Ok(list) => r is Ok && placed_views(r->Ok_0@) == list,
            Err(e) => r is Err && r->Err_0 == e,
        },
{
    let none: Vec<String> = Vec::new();
    assert(texts(none@) =~= Seq::empty());
    let mut out: Vec<PlacedProject<'a>> = Vec::new();
    assert(placed_views(out@) =~= Seq::empty());
    match append_projects(tree, &none, &mut out) {
        Err(e) => Err(e),
        Ok(_) => {
            proof {
                let list = placed_projects(*tree, Seq::empty())->Ok_0;
                assert(Seq::<PlacedProjectModel>::empty() + list =~= list);
            }
            Ok(out)
        },
    }
}

#[verifier::ext_equal]
pub struct RuleModel {
    pub action: FilterAction,
    pub direction: FilterDirection,
    pub glob: Option<Seq<char>>,
    pub name: Option<Seq<char>>,
    pub class: Option<Seq<char>>,
    pub tag: Option<Seq<char>>,
    pub attribute: Option<Seq<char>>,
    pub property: Option<Seq<char>>,
    pub id: Option<Seq<char>>,
}

impl View for FilterRule {
    type V = RuleModel;

    open spec fn view(&self) -> RuleModel {
        RuleModel {
            action: self.action,
            direction: self.direction,
            glob: opt_text(self.glob),
            name: opt_text(self.name),
            class: opt_text(self.class),
            tag: opt_text(self.tag),
            attribute: opt_text(self.attribute),
            property: opt_text(self.property),
            id: opt_text(self.id),
        }
    }
}

pub open spec fn rule_views(v: Seq<FilterRule>) -> Seq<RuleModel> {
    Seq::new(v.len(), |i: int| v[i]@)
}

/// A text without the slashes that it starts with.
pub open spec fn without_slashes(s: Seq<char>) -> Seq<char>
    decreases s.len(),
{
    if s.len() > 0 && s[0] == '/' {
        without_slashes(s.skip(1))
    } else {
        s
    }
}

/// The glob of the place of a project.
pub open spec fn place_glob(prefix: Seq<Seq<char>>) -> Seq<char> {
    escaped_glob(joined_by(escaped_segments(prefix), "/"@))
}

/// What a rule of a project at some place comes to: a glob counts from that place, and a rule without
/// one is about the place and what is below it.
pub open spec fn placed_rule(rule: RuleModel, prefix: Seq<Seq<char>>) -> Seq<RuleModel> {
    if rule.direction == FilterDirection::StudioToFiles {
        Seq::empty()
    } else if prefix.len() == 0 {
        seq![rule]
    } else {
        match rule.glob {
            Some(glob) => seq![
                RuleModel { glob: Some(place_glob(prefix) + "/"@ + without_slashes(glob)), ..rule },
            ],
            None => seq![
                RuleModel { glob: Some(place_glob(prefix)), ..rule },
                RuleModel { glob: Some(place_glob(prefix) + "/**"@), ..rule },
            ],
        }
    }
}

/// What the first `n` rules of a project at some place come to.
pub open spec fn placed_rules(rules: Seq<RuleModel>, prefix: Seq<Seq<char>>, n: nat) -> Seq<RuleModel>
    decreases n,
{
    if n == 0 {
        Seq::empty()
    } else {
        placed_rules(rules, prefix, (n - 1) as nat) + placed_rule(rules[n - 1], prefix)
    }
}

/// What the rules of the first `n` projects come to.
pub open spec fn all_rules(list: Seq<PlacedProjectModel>, n: nat) -> Seq<RuleModel>
    decreases n,
{
    if n == 0 {
        Seq::empty()
    } else {
        let x = list[n - 1];
        let rules = rule_views(x.tree.loaded.project.filters@);
        all_rules(list, (n - 1) as nat) + placed_rules(rules, x.prefix, rules.len())
    }
}

fn trim_slashes(s: &str) -> (r: String)
    ensures
        r@ == without_slashes(s@),
{
    let chars = chars_of(s);
    let mut i: usize = 0;
    assert(s@.skip(0) =~= s@);
    while i < chars.len() && chars[i] == '/'
        invariant
            i <= chars.len(),
            chars@ == s@,
            without_slashes(s@) == without_slashes(s@.skip(i as int)),
        decreases chars.len() - i,
    {
        assert(s@.skip(i as int)[0] == '/');
        assert(s@.skip(i as int).skip(1) =~= s@.skip(i + 1));
        i += 1;
    }
    let r = text_from(&chars, i, chars.len());
    assert(r@ =~= s@.skip(i as int));
    proof {
        if i < chars.len() {
            assert(s@.skip(i as int)[0] == s@[i as int]);
        }
    }
    r
}

fn rule_with_glob(rule: &FilterRule, glob: Option<String>) -> (r: FilterRule)
    ensures
        r@ == (RuleModel { glob: opt_text(glob), ..rule@ }),
{
    FilterRule {
        action: rule.action,
        direction: rule.direction,
        glob,
        name: copy_opt(&rule.name),
        class: copy_opt(&rule.class),
        tag: copy_opt(&rule.tag),
        attribute: copy_opt(&rule.attribute),
        property: copy_opt(&rule.property),
        id: copy_opt(&rule.id),
    }
}

fn push_rule(out: &mut Vec<FilterRule>, x: FilterRule)
    ensures
        rule_views(final(out)@) == rule_views(old(out)@).push(x@),
{
    let ghost before = out@;
    out.push(x);
    assert(rule_views(out@) =~= rule_views(before).push(x@));
}

fn append_rule(rule: &FilterRule, prefix: &Vec<String>, out: &mut Vec<FilterRule>)
    ensures
        rule_views(final(out)@) == rule_views(old(out)@) + placed_rule(rule@, texts(prefix@)),
{
    let ghost start = rule_views(out@);
    assert(texts(prefix@).len() == prefix@.len());
    if rule.direction == FilterDirection::StudioToFiles {
        assert(start + Seq::<RuleModel>::empty() =~= start);
        return;
    }
    if prefix.len() == 0 {
        let x = rule_with_glob(rule, copy_opt(&rule.glob));
        push_rule(out, x);
        assert(start.push(x@) =~= start + seq![rule@]);
        return;
    }
    let place = escape_glob(&filter_path_segments(prefix));
    match &rule.glob {
        Some(glob) => {
            let opened = joined(&place, "/");
            let x = rule_with_glob(rule, Some(joined(&opened, &trim_slashes(glob))));
            push_rule(out, x);
            assert(start.push(x@) =~= start + seq![x@]);
        },
        None => {
            let root = rule_with_glob(rule, Some(place.clone()));
            let below = rule_with_glob(rule, Some(joined(&place, "/**")));
            push_rule(out, root);
            push_rule(out, below);
            assert(start.push(root@).push(below@) =~= start + seq![root@, below@]);
        },
    }
}

/// Lists the rules for a sync from files, of a project and of those inside it.
pub fn compiled_files_to_studio_filters(tree: &ProjectTree) -> (r: Result<Vec<FilterRule>, TargetProblem>)
    ensures
        match placed_projects(*tree, Seq::empty()) {
            Ok(list) => r is Ok && rule_views(r->Ok_0@) == all_rules(list, list.len()),
            Err(e) => r is Err && r->Err_0 == e,
        },
{
    let projects = match list_projects(tree) {
        Ok(projects) => projects,
        Err(e) => {
            return Err(e);
        },
    };
    let ghost list = placed_views(projects@);
    assert(list.len() == projects@.len());
    let mut out: Vec<FilterRule> = Vec::new();
    assert(rule_views(out@) =~= Seq::empty());
    let mut i: usize = 0;
    while i < projects.len()
        invariant
            i <= projects.len(),
            list == placed_views(projects@),
            rule_views(out@) == all_rules(list, i as nat),
        decreases projects.len() - i,
    {
        assert(list[i as int] == projects@[i as int]@);
        let filters = &projects[i].tree.loaded.project.filters;
        let ghost rules = rule_views(filters@);
        let ghost prefix = texts(projects@[i as int].prefix@);
        let ghost start = rule_views(out@);
        let mut k: usize = 0;
        assert(start + placed_rules(rules, prefix, 0) =~= start);
        while k < filters.len()
            invariant
                i < projects.len(),
                k <= filters@.len(),
                rules == rule_views(filters@),
                prefix == texts(projects@[i as int].prefix@),
                rule_views(out@) == start + placed_rules(rules, prefix, k as nat),
            decreases filters@.len() - k,
        {
            assert(rules[k as int] == filters@[k as int]@);
            append_rule(&filters[k], &projects[i].prefix, &mut out);
            proof {
                let before = placed_rules(rules, prefix, k as nat);
                let more = placed_rule(rules[k as int], prefix);
                assert(start + before + more =~= start + (before + more));
            }
            k += 1;
        }
        assert(rules.len() == filters@.len());
        i += 1;
    }
    Ok(out)
}

/// A target that a project at some place leaves what it does not know alone at, for its own sake.
pub open spec fn root_leaves_alone(x: PlacedProjectModel, services: Seq<Seq<char>>, target: Seq<Seq<char>>) -> bool {
    x.tree.loaded.project.root.ignore_unknown_instances == Some(true) && if x.prefix.len() == 0 {
        (exists|i: int|
            0 <= i < x.tree.loaded.project.tree@.len() && target == seq![(#[trigger] x.tree.loaded.project.tree@[i]).name@])
            || (exists|i: int| 0 <= i < services.len() && target == seq![#[trigger] services[i]])
    } else {
        target == x.prefix
    }
}

pub open spec fn tree_leaves_alone(nodes: Seq<TreeNodeModel>, prefix: Seq<Seq<char>>, target: Seq<Seq<char>>, n: nat) -> bool {
    exists|i: int|
        0 <= i < n && (#[trigger] nodes[i]).node.ignore_unknown_instances == Some(true) && target == prefix + nodes[i].target
}

pub open spec fn sidecars_leave_alone(sidecars: Seq<Sidecar>, prefix: Seq<Seq<char>>, target: Seq<Seq<char>>, n: nat) -> bool {
    exists|i: int|
        0 <= i < n && (#[trigger] sidecars[i]).metadata.ignore_unknown_instances == Some(true) && target == prefix + texts(
            sidecars[i].target@,
        )
}

/// A target that a project at some place leaves what it does not know alone at.
pub open spec fn leaves_alone(x: PlacedProjectModel, services: Seq<Seq<char>>, target: Seq<Seq<char>>) -> bool {
    let nodes = all_tree_nodes(x.tree.loaded.project);
    ||| root_leaves_alone(x, services, target)
    ||| tree_leaves_alone(nodes, x.prefix, target, nodes.len())
    ||| sidecars_leave_alone(x.tree.sidecars@, x.prefix, target, x.tree.sidecars@.len())
}

/// A target that some project leaves what it does not know alone at.
pub open spec fn is_left_alone(list: Seq<PlacedProjectModel>, services: Seq<Seq<char>>, target: Seq<Seq<char>>, n: nat) -> bool {
    exists|i: int| 0 <= i < n && #[trigger] leaves_alone(list[i], services, target)
}

fn insert_single(out: &mut SortedSet<PathKey>, name: &String)
    ensures
        forall|k: Seq<Seq<char>>| #[trigger] final(out)@.contains(k) <==> old(out)@.contains(k) || k == seq![name@],
        ascending::<PathKey>(final(out)@),
{
    let mut segments: Vec<String> = Vec::new();
    segments.push(name.clone());
    assert(texts(segments@) =~= seq![name@]);
    out.insert(PathKey { segments });
}

fn insert_project_targets(project: &PlacedProject<'_>, services: &Vec<String>, out: &mut SortedSet<PathKey>)
    requires
        ascending::<PathKey>(old(out)@),
    ensures
        ascending::<PathKey>(final(out)@),
        forall|k: Seq<Seq<char>>| #[trigger]
            final(out)@.contains(k) <==> old(out)@.contains(k) || leaves_alone(project@, texts(services@), k),
{
    let ghost x = project@;
    let ghost given = texts(services@);
    let ghost start = out@;
    let loaded = &project.tree.loaded;
    let root_says = match loaded.project.root.ignore_unknown_instances {
        Some(b) => b,
        None => false,
    };
    assert(x.prefix.len() == project.prefix@.len());
    if root_says {
        if project.prefix.len() == 0 {
            let mut i: usize = 0;
            while i < loaded.project.tree.len()
                invariant
                    i <= loaded.project.tree@.len(),
                    ascending::<PathKey>(out@),
                    forall|k: Seq<Seq<char>>| #[trigger]
                        out@.contains(k) <==> start.contains(k) || exists|j: int|
                            0 <= j < i && k == seq![(#[trigger] loaded.project.tree@[j]).name@],
                decreases loaded.project.tree@.len() - i,
            {
                let ghost before = out@;
                insert_single(out, &loaded.project.tree[i].name);
                let ghost now = loaded.project.tree@[i as int];
                assert forall|k: Seq<Seq<char>>| #[trigger]
                    out@.contains(k) <==> start.contains(k) || exists|j: int|
                        0 <= j < i + 1 && k == seq![(#[trigger] loaded.project.tree@[j]).name@] by {
                    assert(before.contains(k) <==> start.contains(k) || exists|j: int|
                        0 <= j < i && k == seq![(#[trigger] loaded.project.tree@[j]).name@]);
                    if exists|j: int| 0 <= j < i + 1 && k == seq![(#[trigger] loaded.project.tree@[j]).name@] {
                        let j = choose|j: int| 0 <= j < i + 1 && k == seq![(#[trigger] loaded.project.tree@[j]).name@];
                        if j < i {
                            assert(before.contains(k));
                        }
                    }
                }
                i += 1;
            }
            let ghost middle = out@;
            let mut s: usize = 0;
            while s < services.len()
                invariant
                    s <= services.len(),
                    given == texts(services@),
                    ascending::<PathKey>(out@),
                    forall|k: Seq<Seq<char>>| #[trigger]
                        out@.contains(k) <==> middle.contains(k) || exists|j: int| 0 <= j < s && k == seq![#[trigger] given[j]],
                decreases services.len() - s,
            {
                let ghost before = out@;
                assert(given[s as int] == services@[s as int]@);
                insert_single(out, &services[s]);
                assert forall|k: Seq<Seq<char>>| #[trigger]
                    out@.contains(k) <==> middle.contains(k) || exists|j: int| 0 <= j < s + 1 && k == seq![#[trigger] given[j]] by {
                    assert(before.contains(k) <==> middle.contains(k) || exists|j: int|
                        0 <= j < s && k == seq![#[trigger] given[j]]);
                    if exists|j: int| 0 <= j < s + 1 && k == seq![#[trigger] given[j]] {
                        let j = choose|j: int| 0 <= j < s + 1 && k == seq![#[trigger] given[j]];
                        if j < s {
                            assert(before.contains(k));
                        }
                    }
                }
                s += 1;
            }
            assert(given.len() == services@.len());
        } else {
            out.insert(PathKey { segments: clone_texts(&project.prefix) });
        }
    }
    let ghost rooted = out@;
    assert forall|k: Seq<Seq<char>>| #[trigger]
        rooted.contains(k) <==> start.contains(k) || root_leaves_alone(x, given, k) by {}
    let nodes = project_tree_nodes(&loaded.project.tree);
    let ghost all = tree_views(nodes@);
    assert(all.len() == nodes@.len());
    let mut i: usize = 0;
    while i < nodes.len()
        invariant
            i <= nodes.len(),
            all == tree_views(nodes@),
            x == project@,
            ascending::<PathKey>(out@),
            forall|k: Seq<Seq<char>>| #[trigger]
                out@.contains(k) <==> rooted.contains(k) || tree_leaves_alone(all, x.prefix, k, i as nat),
        decreases nodes.len() - i,
    {
        assert(all[i as int] == nodes@[i as int]@);
        let ghost before = out@;
        let says = match nodes[i].node.ignore_unknown_instances {
            Some(b) => b,
            None => false,
        };
        if says {
            out.insert(PathKey { segments: joined_target(&project.prefix, &nodes[i].target) });
        }
        assert forall|k: Seq<Seq<char>>| #[trigger]
            out@.contains(k) <==> rooted.contains(k) || tree_leaves_alone(all, x.prefix, k, (i + 1) as nat) by {
            assert(before.contains(k) <==> rooted.contains(k) || tree_leaves_alone(all, x.prefix, k, i as nat));
            if tree_leaves_alone(all, x.prefix, k, (i + 1) as nat) {
                let j = choose|j: int|
                    0 <= j < i + 1 && (#[trigger] all[j]).node.ignore_unknown_instances == Some(true) && k == x.prefix
                        + all[j].target;
                if j < i {
                    assert(tree_leaves_alone(all, x.prefix, k, i as nat));
                }
            }
            if tree_leaves_alone(all, x.prefix, k, i as nat) {
                let j = choose|j: int|
                    0 <= j < i && (#[trigger] all[j]).node.ignore_unknown_instances == Some(true) && k == x.prefix
                        + all[j].target;
                assert(tree_leaves_alone(all, x.prefix, k, (i + 1) as nat));
            }
            if says && k == x.prefix + all[i as int].target {
                assert(tree_leaves_alone(all, x.prefix, k, (i + 1) as nat));
            }
        }
        i += 1;
    }
    let ghost grown = out@;
    let sidecars = &project.tree.sidecars;
    let mut k: usize = 0;
    while k < sidecars.len()
        invariant
            k <= sidecars@.len(),
            x == project@,
            ascending::<PathKey>(out@),
            forall|t: Seq<Seq<char>>| #[trigger]
                out@.contains(t) <==> grown.contains(t) || sidecars_leave_alone(sidecars@, x.prefix, t, k as nat),
        decreases sidecars@.len() - k,
    {
        let ghost before = out@;
        let says = match sidecars[k].metadata.ignore_unknown_instances {
            Some(b) => b,
            None => false,
        };
        let ghost now = sidecars@[k as int];
        if says {
            out.insert(PathKey { segments: joined_target(&project.prefix, &sidecars[k].target) });
        }
        assert forall|t: Seq<Seq<char>>| #[trigger]
            out@.contains(t) <==> grown.contains(t) || sidecars_leave_alone(sidecars@, x.prefix, t, (k + 1) as nat) by {
            assert(before.contains(t) <==> grown.contains(t) || sidecars_leave_alone(sidecars@, x.prefix, t, k as nat));
            if sidecars_leave_alone(sidecars@, x.prefix, t, (k + 1) as nat) {
                let j = choose|j: int|
                    0 <= j < k + 1 && (#[trigger] sidecars@[j]).metadata.ignore_unknown_instances == Some(true) && t
                        == x.prefix + texts(sidecars@[j].target@);
                if j < k {
                    assert(sidecars_leave_alone(sidecars@, x.prefix, t, k as nat));
                }
            }
            if sidecars_leave_alone(sidecars@, x.prefix, t, k as nat) {
                let j = choose|j: int|
                    0 <= j < k && (#[trigger] sidecars@[j]).metadata.ignore_unknown_instances == Some(true) && t == x.prefix
                        + texts(sidecars@[j].target@);
                assert(sidecars_leave_alone(sidecars@, x.prefix, t, (k + 1) as nat));
            }
            if says && t == x.prefix + texts(now.target@) {
                assert(sidecars_leave_alone(sidecars@, x.prefix, t, (k + 1) as nat));
            }
        }
        k += 1;
    }
}

/// Lists the targets at which a sync from files leaves what it does not know alone, in order and each
/// once. Services that are reconciled count where the project as a whole leaves them alone.
pub fn compiled_files_to_studio_ignore_unknown_targets(tree: &ProjectTree, services: &Vec<String>) -> (r: Result<
    Vec<PathKey>,
    TargetProblem,
>)
    ensures
        match placed_projects(*tree, Seq::empty()) {
            Ok(list) => r is Ok && ascending::<PathKey>(key_views(r->Ok_0@)) && forall|t: Seq<Seq<char>>| #[trigger]
                key_views(r->Ok_0@).contains(t) <==> is_left_alone(list, texts(services@), t, list.len()),
            Err(e) => r is Err && r->Err_0 == e,
        },
{
    let projects = match list_projects(tree) {
        Ok(projects) => projects,
        Err(e) => {
            return Err(e);
        },
    };
    let ghost list = placed_views(projects@);
    let ghost given = texts(services@);
    assert(list.len() == projects@.len());
    let mut out: SortedSet<PathKey> = SortedSet::new();
    let mut i: usize = 0;
    while i < projects.len()
        invariant
            i <= projects.len(),
            list == placed_views(projects@),
            given == texts(services@),
            ascending::<PathKey>(out@),
            forall|t: Seq<Seq<char>>| #[trigger] out@.contains(t) <==> is_left_alone(list, given, t, i as nat),
        decreases projects.len() - i,
    {
        let ghost before = out@;
        assert(list[i as int] == projects@[i as int]@);
        insert_project_targets(&projects[i], services, &mut out);
        assert forall|t: Seq<Seq<char>>| #[trigger] out@.contains(t) <==> is_left_alone(list, given, t, (i + 1) as nat) by {
            assert(before.contains(t) <==> is_left_alone(list, given, t, i as nat));
            if is_left_alone(list, given, t, (i + 1) as nat) {
                let j = choose|j: int| 0 <= j < i + 1 && #[trigger] leaves_alone(list[j], given, t);
                if j < i {
                    assert(is_left_alone(list, given, t, i as nat));
                }
            }
            if is_left_alone(list, given, t, i as nat) {
                let j = choose|j: int| 0 <= j < i && #[trigger] leaves_alone(list[j], given, t);
                assert(is_left_alone(list, given, t, (i + 1) as nat));
            }
            if leaves_alone(list[i as int], given, t) {
                assert(is_left_alone(list, given, t, (i + 1) as nat));
            }
        }
        i += 1;
    }
    Ok(out.into_items())
}

} // verus!
