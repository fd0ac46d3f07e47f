//! What a project makes of one of its paths.
use vstd::prelude::*;

use crate::filter::{
    allowed_by, are_hits, filter_allows_with_hits, glob_hits, matches_rule, rule_matches, FilterCandidate, FilterDirection,
    FilterRule, FilterScope, InvalidGlob,
};
use crate::links::opt_text;
use crate::paths::{last_name, opt_path, slash_text, FilePath, PathParts};
use crate::project::{
    all_tree_nodes, project_tree_nodes, tree_views, AdapterDirection, LoadedProject, MountOwnership, SyncRule, TreeNodeModel,
};
use crate::rules::{are_taken, rule_answers, rule_name, sync_rule_instance_name, RuleNameError};
use crate::target::{PathModel, ProjectTarget};
use crate::text::{holds_text, join_texts, joined, joined_by, same, same_texts, starts_with, texts};

verus! {

broadcast use vstd::seq_lib::group_seq_properties;

/// What of a project speaks of a path.
pub enum PathMatch {
    /// A declared instance, with its source.
    Tree { source: String, target: String },
    /// A mount, with its source, its target and who owns what stands there.
    Mount { index: usize, source: String, target: ProjectTarget, ownership: MountOwnership },
    /// An adapter, with its source and output, its target and its direction.
    Adapter {
        index: usize,
        source: String,
        output: Option<String>,
        target: ProjectTarget,
        direction: AdapterDirection,
    },
    /// A rule, with the name of the instance that it makes. The last rule is selected.
    Rule { index: usize, selected: bool, name: String },
}

#[verifier::ext_equal]
pub enum MatchModel {
    Tree { source: Seq<char>, target: Seq<char> },
    Mount { index: int, source: Seq<char>, target: PathModel, ownership: MountOwnership },
    Adapter {
        index: int,
        source: Seq<char>,
        output: Option<Seq<char>>,
        target: PathModel,
        direction: AdapterDirection,
    },
    Rule { index: int, selected: bool, name: Seq<char> },
}

impl View for PathMatch {
    type V = MatchModel;

    open spec fn view(&self) -> MatchModel {
        match *self {
            PathMatch::Tree { source, target } => MatchModel::Tree { source: source@, target: target@ },
            PathMatch::Mount { index, source, target, ownership } => MatchModel::Mount {
                index: index as int,
                source: source@,
                target: target@,
                ownership,
            },
            PathMatch::Adapter { index, source, output, target, direction } => MatchModel::Adapter {
                index: index as int,
                source: source@,
                output: opt_text(output),
                target: target@,
                direction,
            },
            PathMatch::Rule { index, selected, name } => MatchModel::Rule { index: index as int, selected, name: name@ },
        }
    }
}

pub open spec fn match_views(v: Seq<PathMatch>) -> Seq<MatchModel> {
    Seq::new(v.len(), |i: int| v[i]@)
}

/// A path is a source or stands below it.
pub open spec fn is_at_or_below(path: Seq<char>, source: Seq<char>) -> bool {
    path == source || (source + "/"@).is_prefix_of(path)
}

/// The first `n` declared instances whose source holds a path.
pub open spec fn tree_matches(nodes: Seq<TreeNodeModel>, path: Seq<char>, n: nat) -> Seq<MatchModel>
    decreases n,
{
    if n == 0 {
        Seq::empty()
    } else {
        let before = tree_matches(nodes, path, (n - 1) as nat);
        let node = nodes[n - 1];
        match opt_path(node.node.path) {
            Some(source) => if is_at_or_below(path, slash_text(source)) {
                before.push(MatchModel::Tree { source: slash_text(source), target: joined_by(node.target, "."@) })
            } else {
                before
            },
            None => before,
        }
    }
}

/// The first `n` mounts whose source holds a path.
pub open spec fn mount_matches(loaded: LoadedProject, path: Seq<char>, n: nat) -> Seq<MatchModel>
    decreases n,
{
    if n == 0 {
        Seq::empty()
    } else {
        let before = mount_matches(loaded, path, (n - 1) as nat);
        let mount = loaded.project.mounts@[n - 1];
        let source = slash_text(mount.source@);
        if is_at_or_below(path, source) {
            before.push(
                MatchModel::Mount { index: n - 1, source, target: mount.target@, ownership: mount.ownership },
            )
        } else {
            before
        }
    }
}

pub open spec fn opt_slash(path: Option<FilePath>) -> Option<Seq<char>> {
    match path {
        Some(path) => Some(slash_text(path@)),
        None => None,
    }
}

/// The first `n` adapters whose source or output is a path.
pub open spec fn adapter_matches(loaded: LoadedProject, path: Seq<char>, n: nat) -> Seq<MatchModel>
    decreases n,
{
    if n == 0 {
        Seq::empty()
    } else {
        let before = adapter_matches(loaded, path, (n - 1) as nat);
        let adapter = loaded.project.adapters@[n - 1];
        let source = slash_text(adapter.source@);
        let output = opt_slash(adapter.output);
        if path == source || output == Some(path) {
            before.push(
                MatchModel::Adapter {
                    index: n - 1,
                    source,
                    output,
                    target: adapter.target@,
                    direction: adapter.direction,
                },
            )
        } else {
            before
        }
    }
}

/// Why a path can not be explained.
#[derive(PartialEq, Eq, Structural, Clone, Copy, Debug)]
pub enum ExplainError {
    /// The pattern of a rule can not be used.
    Pattern(usize),
    /// A rule makes no name of the file.
    Name(usize, RuleNameError),
    /// The glob of a filter can not be used.
    Glob(InvalidGlob),
}

/// The last of the first `n` rules that takes a path.
pub open spec fn selected_rule(takes: Seq<Option<bool>>, n: nat) -> Option<usize>
    decreases n,
{
    if n == 0 {
        None
    } else if takes[n - 1] == Some(true) {
        Some((n - 1) as usize)
    } else {
        selected_rule(takes, (n - 1) as nat)
    }
}

/// The rules from `i` on that take a path, after others.
pub open spec fn rule_matches_from(
    rules: Seq<SyncRule>,
    takes: Seq<Option<bool>>,
    file: Seq<char>,
    done: Seq<MatchModel>,
    i: int,
) -> Result<Seq<MatchModel>, ExplainError>
    decreases rules.len() - i,
{
    if i < 0 || i >= rules.len() {
        Ok(done)
    } else {
        match takes[i] {
            None => Err(ExplainError::Pattern(i as usize)),
            Some(false) => rule_matches_from(rules, takes, file, done, i + 1),
            Some(true) => match rule_name(rules[i], file) {
                Err(e) => Err(ExplainError::Name(i as usize, e)),
                Ok(name) => rule_matches_from(
                    rules,
                    takes,
                    file,
                    done.push(MatchModel::Rule { index: i, selected: selected_rule(takes, rules.len()) == Some(i as usize), name }),
                    i + 1,
                ),
            },
        }
    }
}

/// What of a project speaks of a path, given what each rule says to it.
pub open spec fn path_matches(loaded: LoadedProject, relative: PathParts, rule_path: PathParts, takes: Seq<Option<bool>>) -> Result<
    Seq<MatchModel>,
    ExplainError,
> {
    let path = slash_text(relative);
    let nodes = all_tree_nodes(loaded.project);
    let owned = tree_matches(nodes, path, nodes.len()) + mount_matches(loaded, path, loaded.project.mounts@.len())
        + adapter_matches(loaded, path, loaded.project.adapters@.len());
    rule_matches_from(loaded.project.sync_rules@, takes, last_name(rule_path), owned, 0)
}

/// What is said of a path.
pub struct PathReport {
    pub matches: Vec<PathMatch>,
    pub selected: Option<usize>,
    pub ignored: bool,
    pub owned: bool,
}

pub open spec fn is_path_report(
    loaded: LoadedProject,
    relative: PathParts,
    rule_path: PathParts,
    takes: Seq<Option<bool>>,
    ignored: bool,
    r: Result<PathReport, ExplainError>,
) -> bool {
    match path_matches(loaded, relative, rule_path, takes) {
        Err(e) => r is Err && r->Err_0 == e,
        Ok(matches) => r is Ok && ({
            let report = r->Ok_0;
            &&& match_views(report.matches@) == matches
            &&& report.selected == selected_rule(takes, takes.len())
            &&& report.ignored == ignored
            &&& report.owned == (matches.len() > 0 && !ignored)
        }),
    }
}

fn stands_at_or_below(path: &str, source: &str) -> (r: bool)
    ensures
        r == is_at_or_below(path@, source@),
{
    if same(path, source) {
        return true;
    }
    let directory = joined(source, "/");
    starts_with(path, &directory)
}

fn push_match(out: &mut Vec<PathMatch>, x: PathMatch)
    ensures
        match_views(final(out)@) == match_views(old(out)@).push(x@),
{
    let ghost before = out@;
    out.push(x);
    assert(match_views(out@) =~= match_views(before).push(x@));
}

fn push_tree_matches(loaded: &LoadedProject, path: &str, out: &mut Vec<PathMatch>)
    ensures
        match_views(final(out)@) == match_views(old(out)@) + tree_matches(
            all_tree_nodes(loaded.project),
            path@,
            all_tree_nodes(loaded.project).len(),
        ),
{
    let nodes = project_tree_nodes(&loaded.project.tree);
    let ghost all = tree_views(nodes@);
    let ghost start = match_views(out@);
    assert(all.len() == nodes@.len());
    let mut i: usize = 0;
    assert(start + tree_matches(all, path@, 0) =~= start);
    while i < nodes.len()
        invariant
            i <= nodes.len(),
            all == tree_views(nodes@),
            match_views(out@) == start + tree_matches(all, path@, i as nat),
        decreases nodes.len() - i,
    {
        assert(all[i as int] == nodes@[i as int]@);
        let ghost before = tree_matches(all, path@, i as nat);
        match &nodes[i].node.path {
            Some(source) => {
                let source = source.to_slash();
                if stands_at_or_below(path, &source) {
                    let x = PathMatch::Tree { source, target: join_texts(&nodes[i].target, ".") };
                    assert((start + before).push(x@) =~= start + before.push(x@));
                    push_match(out, x);
                }
            },
            None => {},
        }
        i += 1;
    }
}

fn push_mount_matches(loaded: &LoadedProject, path: &str, out: &mut Vec<PathMatch>)
    ensures
        match_views(final(out)@) == match_views(old(out)@) + mount_matches(*loaded, path@, loaded.project.mounts@.len()),
{
    let ghost start = match_views(out@);
    let mut i: usize = 0;
    assert(start + mount_matches(*loaded, path@, 0) =~= start);
    while i < loaded.project.mounts.len()
        invariant
            i <= loaded.project.mounts@.len(),
            match_views(out@) == start + mount_matches(*loaded, path@, i as nat),
        decreases loaded.project.mounts@.len() - i,
    {
        let ghost before = mount_matches(*loaded, path@, i as nat);
        let mount = &loaded.project.mounts[i];
        let source = mount.source.to_slash();
        if stands_at_or_below(path, &source) {
            let x = PathMatch::Mount { index: i, source, target: mount.target.copy(), ownership: mount.ownership };
            assert((start + before).push(x@) =~= start + before.push(x@));
            push_match(out, x);
        }
        i += 1;
    }
}

fn push_adapter_matches(loaded: &LoadedProject, path: &str, out: &mut Vec<PathMatch>)
    ensures
        match_views(final(out)@) == match_views(old(out)@) + adapter_matches(*loaded, path@, loaded.project.adapters@.len()),
{
    let ghost start = match_views(out@);
    let mut i: usize = 0;
    assert(start + adapter_matches(*loaded, path@, 0) =~= start);
    while i < loaded.project.adapters.len()
        invariant
            i <= loaded.project.adapters@.len(),
            match_views(out@) == start + adapter_matches(*loaded, path@, i as nat),
        decreases loaded.project.adapters@.len() - i,
    {
        let ghost before = adapter_matches(*loaded, path@, i as nat);
        let adapter = &loaded.project.adapters[i];
        let source = adapter.source.to_slash();
        let output = match &adapter.output {
            Some(output) => Some(output.to_slash()),
            None => None,
        };
        let written = match &output {
            Some(output) => same(output, path),
            None => false,
        };
        if written || same(path, &source) {
            let x = PathMatch::Adapter {
                index: i,
                source,
                output,
                target: adapter.target.copy(),
                direction: adapter.direction,
            };
            assert((start + before).push(x@) =~= start + before.push(x@));
            push_match(out, x);
        }
        i += 1;
    }
}

fn find_selected(takes: &Vec<Option<bool>>) -> (r: Option<usize>)
    ensures
        r == selected_rule(takes@, takes@.len()),
{
    let mut found: Option<usize> = None;
    let mut i: usize = 0;
    while i < takes.len()
        invariant
            i <= takes.len(),
            found == selected_rule(takes@, i as nat),
        decreases takes.len() - i,
    {
        match takes[i] {
            Some(true) => {
                found = Some(i);
            },
            _ => {},
        }
        i += 1;
    }
    found
}

/// Says what of a project speaks of a path, given what each rule says to it and whether it is ignored.
pub fn explain_path_with_answers(
    loaded: &LoadedProject,
    relative: &FilePath,
    rule_path: &FilePath,
    takes: &Vec<Option<bool>>,
    ignored: bool,
) -> (r: Result<PathReport, ExplainError>)
    requires
        takes@.len() == loaded.project.sync_rules@.len(),
    ensures
        is_path_report(*loaded, relative@, rule_path@, takes@, ignored, r),
{
    let path = relative.to_slash();
    let mut out: Vec<PathMatch> = Vec::new();
    assert(match_views(out@) =~= Seq::empty());
    push_tree_matches(loaded, &path, &mut out);
    push_mount_matches(loaded, &path, &mut out);
    push_adapter_matches(loaded, &path, &mut out);
    let ghost nodes = all_tree_nodes(loaded.project);
    let ghost owned = tree_matches(nodes, path@, nodes.len()) + mount_matches(*loaded, path@, loaded.project.mounts@.len())
        + adapter_matches(*loaded, path@, loaded.project.adapters@.len());
    assert(match_views(out@) =~= owned);
    let selected = find_selected(takes);
    let rules = &loaded.project.sync_rules;
    let ghost file = last_name(rule_path@);
    let ghost whole = rule_matches_from(rules@, takes@, file, owned, 0);
    let mut i: usize = 0;
    while i < rules.len()
        invariant
            i <= rules.len(),
            rules@ == loaded.project.sync_rules@,
            takes@.len() == rules@.len(),
            file == last_name(rule_path@),
            selected == selected_rule(takes@, takes@.len()),
            whole == path_matches(*loaded, relative@, rule_path@, takes@),
            whole == rule_matches_from(rules@, takes@, file, match_views(out@), i as int),
        decreases rules.len() - i,
    {
        match takes[i] {
            None => {
                return Err(ExplainError::Pattern(i));
            },
            Some(true) => {
                match sync_rule_instance_name(&rules[i], rule_path) {
                    Err(e) => {
                        return Err(ExplainError::Name(i, e));
                    },
                    Ok(name) => {
                        let is_selected = match selected {
                            Some(s) => s == i,
                            None => false,
                        };
                        push_match(&mut out, PathMatch::Rule { index: i, selected: is_selected, name });
                    },
                }
            },
            Some(false) => {},
        }
        i += 1;
    }
    assert(match_views(out@).len() == out@.len());
    let owned = out.len() > 0 && !ignored;
    Ok(PathReport { matches: out, selected, ignored, owned })
}

/// Says what of a project speaks of a path. `rule_path` is the path as rules see it.
pub fn explain_path(loaded: &LoadedProject, relative: &FilePath, rule_path: &FilePath, ignored: bool) -> (r: Result<
    PathReport,
    ExplainError,
>)
    ensures
        exists|takes: Seq<Option<bool>>| #[trigger]
            are_taken(loaded.project.sync_rules@, slash_text(rule_path@), takes) && is_path_report(
                *loaded,
                relative@,
                rule_path@,
                takes,
                ignored,
                r,
            ),
{
    let text = rule_path.to_slash();
    let takes = rule_answers(&loaded.project.sync_rules, &text);
    explain_path_with_answers(loaded, relative, rule_path, &takes, ignored)
}

/// Where an instance of a stage comes from.
pub struct StagedInstance {
    /// The file that holds its source, where one does, in the form that names a file once.
    pub source: Option<String>,
    /// The names on the way to it.
    pub path: Vec<String>,
}

/// An instance is told of with a path of the project: the path is staged as its source, or is a sidecar
/// that speaks of the instance.
pub open spec fn is_told(c: StagedInstance, staged: Seq<Seq<char>>, sidecar: Option<Seq<Seq<char>>>) -> bool {
    ||| c.source is Some && staged.contains(c.source->Some_0@)
    ||| sidecar == Some(texts(c.path@))
}

/// The places, among the first `n`, of the instances that are told of with a path.
pub open spec fn told_with(all: Seq<StagedInstance>, staged: Seq<Seq<char>>, sidecar: Option<Seq<Seq<char>>>, n: nat) -> Seq<
    usize,
>
    decreases n,
{
    if n == 0 {
        Seq::empty()
    } else {
        let before = told_with(all, staged, sidecar, (n - 1) as nat);
        if is_told(all[n - 1], staged, sidecar) {
            before.push((n - 1) as usize)
        } else {
            before
        }
    }
}

/// The instances of a stage that are told of with a path of the project: those whose source is one of the
/// files that the path is `staged` as, and the one that the path, being a sidecar, speaks of.
pub fn filter_candidates(all: &Vec<StagedInstance>, staged: &Vec<String>, sidecar: &Option<Vec<String>>) -> (r: Vec<usize>)
    ensures
        r@ == told_with(
            all@,
            texts(staged@),
            match *sidecar {
                Some(path) => Some(texts(path@)),
                None => None,
            },
            all@.len(),
        ),
{
    let ghost target = match sidecar {
        Some(path) => Some(texts(path@)),
        None => None,
    };
    let mut out: Vec<usize> = Vec::new();
    let mut i: usize = 0;
    while i < all.len()
        invariant
            i <= all.len(),
            target == (match *sidecar {
                Some(path) => Some(texts(path@)),
                None => None,
            }),
            out@ == told_with(all@, texts(staged@), target, i as nat),
        decreases all.len() - i,
    {
        let from_source = match &all[i].source {
            Some(source) => holds_text(staged, source),
            None => false,
        };
        let spoken_of = match sidecar {
            Some(path) => same_texts(path, &all[i].path),
            None => false,
        };
        if from_source || spoken_of {
            out.push(i);
        }
        i += 1;
    }
    out
}

/// What filters make of an instance.
pub struct CandidateReport {
    /// The filters that match it.
    pub matching: Vec<usize>,
    pub files_to_studio: bool,
    pub studio_to_files: bool,
}

/// The filters from `i` on that match an instance, after others, given what their globs answered.
pub open spec fn matching_from(
    rules: Seq<FilterRule>,
    c: FilterCandidate<'_>,
    hits: Seq<Option<bool>>,
    done: Seq<usize>,
    i: int,
) -> Result<Seq<usize>, InvalidGlob>
    decreases rules.len() - i,
{
    if i < 0 || i >= rules.len() {
        Ok(done)
    } else if rules[i].glob is Some && hits[i] is None {
        Err(InvalidGlob { rule: i as usize })
    } else if rule_matches(rules[i], c, FilterScope::Any, hits[i] == Some(true)) {
        matching_from(rules, c, hits, done.push(i as usize), i + 1)
    } else {
        matching_from(rules, c, hits, done, i + 1)
    }
}

pub open spec fn is_candidate_report(
    rules: Seq<FilterRule>,
    c: FilterCandidate<'_>,
    hits: Seq<Option<bool>>,
    r: Result<CandidateReport, ExplainError>,
) -> bool {
    let n = rules.len();
    let files = allowed_by(rules, FilterDirection::FilesToStudio, c, FilterScope::Instance, hits, n);
    let studio = allowed_by(rules, FilterDirection::StudioToFiles, c, FilterScope::Instance, hits, n);
    match matching_from(rules, c, hits, Seq::empty(), 0) {
        Err(e) => r is Err && r->Err_0 == ExplainError::Glob(e),
        Ok(matching) => match files {
            Err(e) => r is Err && r->Err_0 == ExplainError::Glob(e),
            Ok(files) => match studio {
                Err(e) => r is Err && r->Err_0 == ExplainError::Glob(e),
                Ok(studio) => r is Ok && r->Ok_0.matching@ == matching && r->Ok_0.files_to_studio == files && r->Ok_0.studio_to_files
                    == studio,
            },
        },
    }
}

/// Says what filters make of an instance, given what their globs answered.
pub fn explain_candidate_with_hits(rules: &Vec<FilterRule>, c: &FilterCandidate<'_>, hits: &Vec<Option<bool>>) -> (r: Result<
    CandidateReport,
    ExplainError,
>)
    requires
        hits@.len() == rules@.len(),
    ensures
        is_candidate_report(rules@, *c, hits@, r),
{
    let ghost whole = matching_from(rules@, *c, hits@, Seq::empty(), 0);
    let mut matching: Vec<usize> = Vec::new();
    assert(matching@ =~= Seq::empty());
    let mut i: usize = 0;
    while i < rules.len()
        invariant
            i <= rules.len(),
            hits@.len() == rules@.len(),
            whole == matching_from(rules@, *c, hits@, Seq::empty(), 0),
            whole == matching_from(rules@, *c, hits@, matching@, i as int),
        decreases rules.len() - i,
    {
        let hit = match hits[i] {
            Some(hit) => hit,
            None => {
                if rules[i].glob.is_some() {
                    return Err(ExplainError::Glob(InvalidGlob { rule: i }));
                }
                false
            },
        };
        if matches_rule(&rules[i], c, FilterScope::Any, hit) {
            matching.push(i);
        }
        i += 1;
    }
    let files_to_studio = match filter_allows_with_hits(rules, FilterDirection::FilesToStudio, c, FilterScope::Instance, hits) {
        Ok(allowed) => allowed,
        Err(e) => {
            return Err(ExplainError::Glob(e));
        },
    };
    let studio_to_files = match filter_allows_with_hits(rules, FilterDirection::StudioToFiles, c, FilterScope::Instance, hits) {
        Ok(allowed) => allowed,
        Err(e) => {
            return Err(ExplainError::Glob(e));
        },
    };
    Ok(CandidateReport { matching, files_to_studio, studio_to_files })
}

/// Says what filters make of an instance.
pub fn explain_candidate(rules: &Vec<FilterRule>, c: &FilterCandidate<'_>) -> (r: Result<CandidateReport, ExplainError>)
    ensures
        exists|hits: Seq<Option<bool>>| #[trigger] are_hits(rules@, c.path@, hits) && is_candidate_report(rules@, *c, hits, r),
{
    let hits = glob_hits(rules, c.path);
    explain_candidate_with_hits(rules, c, &hits)
}

/// The rule that is selected for a path is the last one that takes it.
pub proof fn law_selected_rule_is_the_last(takes: Seq<Option<bool>>, n: nat, i: int)
    requires
        n <= takes.len() <= usize::MAX,
        0 <= i < n,
        takes[i] == Some(true),
    ensures
        selected_rule(takes, n) is Some,
        i <= selected_rule(takes, n)->0 < n,
        takes[selected_rule(takes, n)->0 as int] == Some(true),
    decreases n,
{
    if takes[n - 1] != Some(true) {
        law_selected_rule_is_the_last(takes, (n - 1) as nat, i);
    }
}

} // verus!
