//! Projections: what a project puts where, and what is known of a staged one.
use vstd::prelude::*;

use crate::digest::{entry_id_for, projection_entry_id};
use crate::link_apply::value_of;
use crate::links::opt_text;
use crate::order::{
    list_comes_before, list_less, lemma_list_less_total, lemma_list_less_transitive, sort_ranked, sorted, views, Ranked,
};
use crate::paths::{joined_path, slash_text, FilePath, PathParts};
use crate::project::{
    all_tree_nodes, project_tree_nodes, tree_views, AdapterDirection, LoadedProject, MountOwnership, ReniumProject, TreeEntry,
    TreeNodeModel,
};
use crate::rules::{
    middleware_class, middleware_name, normalize_sync_middleware, rule_name, script_class_of, sync_rule_instance_name,
    RuleNameError,
};
use crate::project::SyncRule;
use crate::table::{key_views, Table};
use crate::target::target_json;
use crate::text::{
    clone_texts, join_texts, joined_by, lemma_text_less_total, lemma_text_less_transitive, less, same, same_texts, holds_text,
    text_less, texts, texts_start_with,
};

verus! {

broadcast use vstd::seq_lib::group_seq_properties;

/// One thing that a project puts somewhere.
pub struct ProjectionEntry {
    pub id: String,
    pub kind: String,
    pub source: String,
    pub target: String,
    pub ownership: Option<MountOwnership>,
    pub direction: Option<AdapterDirection>,
}

#[verifier::ext_equal]
pub struct EntryModel {
    pub id: Seq<char>,
    pub kind: Seq<char>,
    pub source: Seq<char>,
    pub target: Seq<char>,
    pub ownership: Option<MountOwnership>,
    pub direction: Option<AdapterDirection>,
}

impl View for ProjectionEntry {
    type V = EntryModel;

    open spec fn view(&self) -> EntryModel {
        EntryModel {
            id: self.id@,
            kind: self.kind@,
            source: self.source@,
            target: self.target@,
            ownership: self.ownership,
            direction: self.direction,
        }
    }
}

/// An entry, with an id made of its kind, source and target.
pub open spec fn entry_of(
    kind: Seq<char>,
    source: Seq<char>,
    target: Seq<char>,
    ownership: Option<MountOwnership>,
    direction: Option<AdapterDirection>,
) -> EntryModel {
    EntryModel { id: entry_id_for(kind, source, target), kind, source, target, ownership, direction }
}

impl Ranked for ProjectionEntry {
    open spec fn ranks_before(a: EntryModel, b: EntryModel) -> bool {
        if a.target == b.target {
            text_less(a.source, b.source)
        } else {
            text_less(a.target, b.target)
        }
    }

    fn is_before(&self, other: &Self) -> (r: bool) {
        if same(&self.target, &other.target) {
            less(&self.source, &other.source)
        } else {
            less(&self.target, &other.target)
        }
    }

    proof fn lemma_ranks(a: EntryModel, b: EntryModel, c: EntryModel) {
        lemma_text_less_total(a.target, b.target);
        lemma_text_less_total(b.target, c.target);
        lemma_text_less_total(a.target, c.target);
        lemma_text_less_total(a.source, b.source);
        lemma_text_less_total(b.source, c.source);
        lemma_text_less_total(a.source, c.source);
        if text_less(a.target, b.target) && text_less(b.target, c.target) {
            lemma_text_less_transitive(a.target, b.target, c.target);
        }
        if text_less(a.source, b.source) && text_less(b.source, c.source) {
            lemma_text_less_transitive(a.source, b.source, c.source);
        }
    }
}

/// The entries of the first `n` tree nodes.
pub open spec fn tree_entries(nodes: Seq<TreeNodeModel>, n: nat) -> Seq<EntryModel>
    decreases n,
{
    if n == 0 {
        Seq::empty()
    } else {
        let before = tree_entries(nodes, (n - 1) as nat);
        match nodes[n - 1].node.path {
            Some(path) => before.push(
                entry_of("tree"@, slash_text(path@), joined_by(nodes[n - 1].target, "."@), None, None),
            ),
            None => before,
        }
    }
}

/// The entries of mounts.
pub open spec fn mount_entries(project: ReniumProject) -> Seq<EntryModel> {
    Seq::new(
        project.mounts@.len(),
        |i: int|
            entry_of(
                "mount"@,
                slash_text(project.mounts@[i].source@),
                target_json(project.mounts@[i].target@.segments, project.mounts@[i].target@.ordinals),
                Some(project.mounts@[i].ownership),
                None,
            ),
    )
}

/// The entries of adapters.
pub open spec fn adapter_entries(project: ReniumProject) -> Seq<EntryModel> {
    Seq::new(
        project.adapters@.len(),
        |i: int|
            entry_of(
                "adapter"@,
                slash_text(project.adapters@[i].source@),
                target_json(project.adapters@[i].target@.segments, project.adapters@[i].target@.ordinals),
                None,
                Some(project.adapters@[i].direction),
            ),
    )
}

/// The entries of sync rules.
pub open spec fn rule_entries(project: ReniumProject) -> Seq<EntryModel> {
    Seq::new(
        project.sync_rules@.len(),
        |i: int|
            entry_of("sync-rule"@, project.sync_rules@[i].pattern@, project.sync_rules@[i].middleware@, None, None),
    )
}

/// The entries of ignore lines.
pub open spec fn ignore_entries(project: ReniumProject) -> Seq<EntryModel> {
    Seq::new(
        project.glob_ignore_paths@.len(),
        |i: int| entry_of("ignore"@, project.glob_ignore_paths@[i]@, Seq::empty(), None, None),
    )
}

/// Everything that a project puts somewhere, as it says it.
pub open spec fn unsorted_entries(project: ReniumProject) -> Seq<EntryModel> {
    let nodes = all_tree_nodes(project);
    tree_entries(nodes, nodes.len()) + mount_entries(project) + adapter_entries(project) + rule_entries(project) + ignore_entries(
        project,
    )
}

/// Everything that a project puts somewhere, by target and source.
pub open spec fn compiled(project: ReniumProject) -> Seq<EntryModel> {
    let all = unsorted_entries(project);
    sorted::<ProjectionEntry>(all, all.len())
}

fn make_entry(
    kind: &str,
    source: &str,
    target: &str,
    ownership: Option<MountOwnership>,
    direction: Option<AdapterDirection>,
) -> (r: ProjectionEntry)
    ensures
        r@ == entry_of(kind@, source@, target@, ownership, direction),
{
    ProjectionEntry {
        id: projection_entry_id(kind, source, target),
        kind: kind.to_owned(),
        source: source.to_owned(),
        target: target.to_owned(),
        ownership,
        direction,
    }
}

fn push_entry(out: &mut Vec<ProjectionEntry>, x: ProjectionEntry)
    ensures
        views(final(out)@) == views(old(out)@).push(x@),
{
    let ghost before = out@;
    out.push(x);
    assert(views(out@) =~= views(before).push(x@));
}

/// Lists everything that a project puts somewhere, by target and source.
pub fn compile_projection(project: &ReniumProject) -> (r: Vec<ProjectionEntry>)
    ensures
        views(r@) == compiled(*project),
{
    let mut out: Vec<ProjectionEntry> = Vec::new();
    assert(views(out@) =~= Seq::empty());
    let nodes = project_tree_nodes(&project.tree);
    let ghost all = tree_views(nodes@);
    assert(all.len() == nodes@.len());
    let mut i: usize = 0;
    while i < nodes.len()
        invariant
            i <= nodes.len(),
            all == tree_views(nodes@),
            views(out@) == tree_entries(all, i as nat),
        decreases nodes.len() - i,
    {
        assert(all[i as int] == nodes@[i as int]@);
        match &nodes[i].node.path {
            Some(path) => {
                let source = path.to_slash();
                let target = join_texts(&nodes[i].target, ".");
                push_entry(&mut out, make_entry("tree", &source, &target, None, None));
            },
            None => {},
        }
        i += 1;
    }
    let ghost first = views(out@);
    let ghost mounts = mount_entries(*project);
    let mut m: usize = 0;
    assert(first + mounts.take(0) =~= first);
    while m < project.mounts.len()
        invariant
            m <= project.mounts.len(),
            mounts == mount_entries(*project),
            views(out@) == first + mounts.take(m as int),
        decreases project.mounts.len() - m,
    {
        let mount = &project.mounts[m];
        let source = mount.source.to_slash();
        let target = mount.target.key();
        let entry = make_entry("mount", &source, &target, Some(mount.ownership), None);
        proof {
            assert(mounts[m as int] == entry@);
            assert(mounts.take(m + 1) =~= mounts.take(m as int).push(entry@));
            assert((first + mounts.take(m as int)).push(entry@) =~= first + mounts.take(m + 1));
        }
        push_entry(&mut out, entry);
        m += 1;
    }
    assert(mounts.take(m as int) =~= mounts);
    let ghost second = views(out@);
    let ghost adapters = adapter_entries(*project);
    let mut a: usize = 0;
    assert(second + adapters.take(0) =~= second);
    while a < project.adapters.len()
        invariant
            a <= project.adapters.len(),
            adapters == adapter_entries(*project),
            views(out@) == second + adapters.take(a as int),
        decreases project.adapters.len() - a,
    {
        let adapter = &project.adapters[a];
        let source = adapter.source.to_slash();
        let target = adapter.target.key();
        let entry = make_entry("adapter", &source, &target, None, Some(adapter.direction));
        proof {
            assert(adapters[a as int] == entry@);
            assert(adapters.take(a + 1) =~= adapters.take(a as int).push(entry@));
            assert((second + adapters.take(a as int)).push(entry@) =~= second + adapters.take(a + 1));
        }
        push_entry(&mut out, entry);
        a += 1;
    }
    assert(adapters.take(a as int) =~= adapters);
    let ghost third = views(out@);
    let ghost rules = rule_entries(*project);
    let mut k: usize = 0;
    assert(third + rules.take(0) =~= third);
    while k < project.sync_rules.len()
        invariant
            k <= project.sync_rules.len(),
            rules == rule_entries(*project),
            views(out@) == third + rules.take(k as int),
        decreases project.sync_rules.len() - k,
    {
        let rule = &project.sync_rules[k];
        let entry = make_entry("sync-rule", &rule.pattern, &rule.middleware, None, None);
        proof {
            assert(rules[k as int] == entry@);
            assert(rules.take(k + 1) =~= rules.take(k as int).push(entry@));
            assert((third + rules.take(k as int)).push(entry@) =~= third + rules.take(k + 1));
        }
        push_entry(&mut out, entry);
        k += 1;
    }
    assert(rules.take(k as int) =~= rules);
    let ghost fourth = views(out@);
    let ghost ignores = ignore_entries(*project);
    let mut g: usize = 0;
    assert(fourth + ignores.take(0) =~= fourth);
    while g < project.glob_ignore_paths.len()
        invariant
            g <= project.glob_ignore_paths.len(),
            ignores == ignore_entries(*project),
            views(out@) == fourth + ignores.take(g as int),
        decreases project.glob_ignore_paths.len() - g,
    {
        let none = "";
        proof {
            reveal_strlit("");
            assert(none@ =~= Seq::<char>::empty());
        }
        let entry = make_entry("ignore", &project.glob_ignore_paths[g], none, None, None);
        proof {
            assert(ignores[g as int] == entry@);
            assert(ignores.take(g + 1) =~= ignores.take(g as int).push(entry@));
            assert((fourth + ignores.take(g as int)).push(entry@) =~= fourth + ignores.take(g + 1));
        }
        push_entry(&mut out, entry);
        g += 1;
    }
    assert(ignores.take(g as int) =~= ignores);
    assert(views(out@) == unsorted_entries(*project));
    assert(views(out@).len() == out@.len());
    sort_ranked(out)
}

/// A script or other instance that was made of a file by a rule.
pub struct ProjectionTransform {
    pub target: Vec<String>,
    pub source: FilePath,
    pub script_class_name: Option<String>,
}

#[verifier::ext_equal]
pub struct TransformModel {
    pub target: Seq<Seq<char>>,
    pub source: PathParts,
    pub script_class_name: Option<Seq<char>>,
}

impl View for ProjectionTransform {
    type V = TransformModel;

    open spec fn view(&self) -> TransformModel {
        TransformModel {
            target: texts(self.target@),
            source: self.source@,
            script_class_name: opt_text(self.script_class_name),
        }
    }
}

impl Ranked for ProjectionTransform {
    open spec fn ranks_before(a: TransformModel, b: TransformModel) -> bool {
        list_less(a.target, b.target)
    }

    fn is_before(&self, other: &Self) -> (r: bool) {
        list_comes_before(&self.target, &other.target)
    }

    proof fn lemma_ranks(a: TransformModel, b: TransformModel, c: TransformModel) {
        lemma_list_less_total(a.target, b.target);
        lemma_list_less_total(b.target, c.target);
        lemma_list_less_total(a.target, c.target);
        if list_less(a.target, b.target) && list_less(b.target, c.target) {
            lemma_list_less_transitive(a.target, b.target, c.target);
        }
    }
}

/// Where a staged instance comes from, and its id there.
pub struct ProjectionIdentity {
    pub source: FilePath,
    pub settings_id: String,
}

#[verifier::ext_equal]
pub struct IdentityModel {
    pub source: PathParts,
    pub settings_id: Seq<char>,
}

impl View for ProjectionIdentity {
    type V = IdentityModel;

    open spec fn view(&self) -> IdentityModel {
        IdentityModel { source: self.source@, settings_id: self.settings_id@ }
    }
}

/// A staged projection: the directory that holds it, whether it was made for the occasion, and what is
/// known of how it was made.
pub struct ProjectionStage {
    pub root: FilePath,
    pub temporary: bool,
    pub cleanup: bool,
    pub transforms: Vec<ProjectionTransform>,
    pub identities: Table<String, ProjectionIdentity>,
}

/// A script that a rule made: its target, the file and its class.
pub struct TransformedScript {
    pub target: Vec<String>,
    pub source: FilePath,
    pub class_name: String,
}

#[verifier::ext_equal]
pub struct ScriptTransformModel {
    pub target: Seq<Seq<char>>,
    pub source: PathParts,
    pub class_name: Seq<char>,
}

impl View for TransformedScript {
    type V = ScriptTransformModel;

    open spec fn view(&self) -> ScriptTransformModel {
        ScriptTransformModel { target: texts(self.target@), source: self.source@, class_name: self.class_name@ }
    }
}

pub open spec fn script_views(v: Seq<TransformedScript>) -> Seq<ScriptTransformModel> {
    Seq::new(v.len(), |i: int| v[i]@)
}

/// The scripts among the first `n` transforms.
pub open spec fn scripts_among(v: Seq<TransformModel>, n: nat) -> Seq<ScriptTransformModel>
    decreases n,
{
    if n == 0 {
        Seq::empty()
    } else {
        let before = scripts_among(v, (n - 1) as nat);
        let x = v[n - 1];
        match x.script_class_name {
            Some(class_name) => before.push(ScriptTransformModel { target: x.target, source: x.source, class_name }),
            None => before,
        }
    }
}

/// `i` is the first transform at a target.
pub open spec fn is_transform_at(v: Seq<TransformModel>, target: Seq<Seq<char>>, i: int) -> bool {
    &&& 0 <= i < v.len()
    &&& v[i].target == target
    &&& forall|j: int| 0 <= j < i ==> (#[trigger] v[j]).target != target
}

fn find_transform(v: &Vec<ProjectionTransform>, target: &Vec<String>) -> (r: Option<usize>)
    ensures
        match r {
            Some(i) => i < v@.len() && is_transform_at(views(v@), texts(target@), i as int),
            None => forall|j: int| 0 <= j < v@.len() ==> (#[trigger] views(v@)[j]).target != texts(target@),
        },
{
    let ghost all = views(v@);
    let mut i: usize = 0;
    while i < v.len()
        invariant
            i <= v.len(),
            all == views(v@),
            forall|j: int| 0 <= j < i ==> (#[trigger] all[j]).target != texts(target@),
        decreases v.len() - i,
    {
        assert(all[i as int] == v@[i as int]@);
        if same_texts(&v[i].target, target) {
            return Some(i);
        }
        i += 1;
    }
    None
}

impl ProjectionStage {
    /// The directory that holds the projection.
    pub fn root(&self) -> (r: &FilePath)
        ensures
            *r == self.root,
    {
        &self.root
    }

    /// Whether the directory was made for the occasion.
    pub fn is_temporary(&self) -> (r: bool)
        ensures
            r == self.temporary,
    {
        self.temporary
    }

    /// The file that a rule made the instance at a target of.
    pub fn transformed_source_for_target(&self, target: &Vec<String>) -> (r: Option<&FilePath>)
        ensures
            match r {
                Some(source) => exists|i: int| #[trigger]
                    is_transform_at(views(self.transforms@), texts(target@), i) && source@ == views(self.transforms@)[i].source,
                None => forall|j: int|
                    0 <= j < self.transforms@.len() ==> (#[trigger] views(self.transforms@)[j]).target != texts(target@),
            },
    {
        match find_transform(&self.transforms, target) {
            Some(i) => {
                assert(views(self.transforms@)[i as int] == self.transforms@[i as int]@);
                Some(&self.transforms[i].source)
            },
            None => None,
        }
    }

    /// The scripts that rules made.
    pub fn transformed_scripts(&self) -> (r: Vec<TransformedScript>)
        ensures
            script_views(r@) == scripts_among(views(self.transforms@), self.transforms@.len()),
    {
        let ghost all = views(self.transforms@);
        let mut out: Vec<TransformedScript> = Vec::new();
        let mut i: usize = 0;
        assert(script_views(out@) =~= Seq::empty());
        while i < self.transforms.len()
            invariant
                i <= self.transforms.len(),
                all == views(self.transforms@),
                script_views(out@) == scripts_among(all, i as nat),
            decreases self.transforms.len() - i,
        {
            assert(all[i as int] == self.transforms@[i as int]@);
            match &self.transforms[i].script_class_name {
                Some(class_name) => {
                    let ghost before = out@;
                    let script = TransformedScript {
                        target: clone_texts(&self.transforms[i].target),
                        source: self.transforms[i].source.copy(),
                        class_name: class_name.clone(),
                    };
                    out.push(script);
                    assert(script_views(out@) =~= script_views(before).push(script@));
                },
                None => {},
            }
            i += 1;
        }
        out
    }

    /// Whether a target is what a rule made, or below it.
    pub fn target_is_transformed(&self, target: &Vec<String>) -> (r: bool)
        ensures
            r == exists|i: int|
                0 <= i < self.transforms@.len() && (#[trigger] views(self.transforms@)[i]).target.is_prefix_of(texts(target@)),
    {
        let ghost all = views(self.transforms@);
        let mut i: usize = 0;
        while i < self.transforms.len()
            invariant
                i <= self.transforms.len(),
                all == views(self.transforms@),
                forall|j: int| 0 <= j < i ==> !(#[trigger] all[j]).target.is_prefix_of(texts(target@)),
            decreases self.transforms.len() - i,
        {
            assert(all[i as int] == self.transforms@[i as int]@);
            if texts_start_with(target, &self.transforms[i].target) {
                return true;
            }
            i += 1;
        }
        false
    }

    /// Where a staged instance comes from, and its id there.
    pub fn canonical_identity(&self, staged_id: &String) -> (r: Option<&ProjectionIdentity>)
        ensures
            match r {
                Some(identity) => value_of(self.identities@, staged_id@) == Some(identity@),
                None => value_of(self.identities@, staged_id@) is None,
            },
    {
        self.identities.get(staged_id)
    }
}

/// Notes where a staged instance comes from.
pub fn record_projection_identity(identities: &mut Table<String, ProjectionIdentity>, staged_id: &str, source: &FilePath, settings_id: &str)
    ensures
        final(identities)@ == old(identities)@.insert(
            staged_id@,
            IdentityModel { source: source@, settings_id: settings_id@ },
        ),
{
    identities.put(
        staged_id.to_owned(),
        ProjectionIdentity { source: source.copy(), settings_id: settings_id.to_owned() },
    );
}

/// A service of a project's tree says something that the source root alone can not show.
pub open spec fn service_requires_stage(loaded: LoadedProject, entry: TreeEntry) -> bool {
    let node = entry.node;
    let root = joined_path(loaded.root@, loaded.project.source_root@);
    let direct = PathParts { rooted: root.rooted, parts: root.parts.push(entry.name@) };
    ||| node.path is Some && joined_path(loaded.root@, node.path->0@) != direct
    ||| node.id is Some
    ||| node.class_name is Some
    ||| node.properties@.len() > 0
    ||| node.attributes@.len() > 0
    ||| node.tags is Some
    ||| node.ignore_unknown_instances is Some
    ||| node.children@.len() > 0
}

/// Whether a project's tree says something that the source root alone can not show.
pub fn project_tree_requires_stage(loaded: &LoadedProject) -> (r: bool)
    ensures
        r == exists|i: int|
            0 <= i < loaded.project.tree@.len() && service_requires_stage(*loaded, #[trigger] loaded.project.tree@[i]),
{
    let source_root = loaded.root.join(&loaded.project.source_root);
    let ghost tree = loaded.project.tree@;
    let mut i: usize = 0;
    while i < loaded.project.tree.len()
        invariant
            i <= loaded.project.tree.len(),
            tree == loaded.project.tree@,
            source_root@ == joined_path(loaded.root@, loaded.project.source_root@),
            forall|j: int| 0 <= j < i ==> !service_requires_stage(*loaded, #[trigger] tree[j]),
        decreases loaded.project.tree.len() - i,
    {
        let entry = &loaded.project.tree[i];
        let direct = source_root.child(&entry.name);
        let moved = match &entry.node.path {
            Some(path) => {
                let source = loaded.root.join(path);
                !source.is_same(&direct)
            },
            None => false,
        };
        let node = &entry.node;
        if moved || node.id.is_some() || node.class_name.is_some() || node.properties.len() > 0 || node.attributes.len() > 0
            || node.tags.is_some() || node.ignore_unknown_instances.is_some() || node.children.len() > 0 {
            assert(service_requires_stage(*loaded, tree[i as int]));
            return true;
        }
        i += 1;
    }
    false
}

/// Whether a project needs a directory of its own to be staged in: it has mounts, adapters or a tree that
/// says more than the source root, or files there that describe others or that rules or ignore lines
/// touch.
pub fn project_requires_temporary_stage(loaded: &LoadedProject, has_sidecars: bool, files_need_stage: bool) -> (r: bool)
    ensures
        r == (loaded.project.mounts@.len() > 0 || loaded.project.adapters@.len() > 0 || (exists|i: int|
            0 <= i < loaded.project.tree@.len() && service_requires_stage(*loaded, #[trigger] loaded.project.tree@[i]))
            || has_sidecars || files_need_stage),
{
    loaded.project.mounts.len() > 0 || loaded.project.adapters.len() > 0 || project_tree_requires_stage(loaded)
        || has_sidecars || files_need_stage
}

/// What a rule makes of a file.
pub enum RuleStage {
    /// Nothing.
    Ignored,
    /// A script with the file's text as its source, perhaps one that runs as a plugin.
    Script { target: Vec<String>, class_name: String, plugin: bool },
    /// What an adapter of some format makes of it.
    Adapted { target: Vec<String>, format: String },
}

#[verifier::ext_equal]
pub enum RuleStageModel {
    Ignored,
    Script { target: Seq<Seq<char>>, class_name: Seq<char>, plugin: bool },
    Adapted { target: Seq<Seq<char>>, format: Seq<char> },
}

impl View for RuleStage {
    type V = RuleStageModel;

    open spec fn view(&self) -> RuleStageModel {
        match self {
            RuleStage::Ignored => RuleStageModel::Ignored,
            RuleStage::Script { target, class_name, plugin } => RuleStageModel::Script {
                target: texts(target@),
                class_name: class_name@,
                plugin: *plugin,
            },
            RuleStage::Adapted { target, format } => RuleStageModel::Adapted { target: texts(target@), format: format@ },
        }
    }
}

/// Why a rule makes nothing of a file.
#[derive(PartialEq, Eq, Structural, Clone, Copy, Debug)]
pub enum RuleStageError {
    Name(RuleNameError),
    OutsideService,
    /// Another file stands for the same target.
    Taken(usize),
    Unsupported,
}

/// The target of what a rule makes: a file called `init` stands for its directory.
pub open spec fn rule_target(above: Seq<Seq<char>>, name: Seq<char>) -> Seq<Seq<char>> {
    if name == "init"@ {
        above
    } else {
        above.push(name)
    }
}

/// What a rule makes of a file below some names, and the transforms after it.
pub open spec fn rule_staged(
    transforms: Seq<TransformModel>,
    rule: SyncRule,
    file: Seq<char>,
    above: Seq<Seq<char>>,
    source: PathParts,
    formats: Seq<Seq<char>>,
) -> (Result<RuleStageModel, RuleStageError>, Seq<TransformModel>) {
    let middleware = middleware_name(rule.middleware@);
    if middleware == "ignore"@ {
        (Ok(RuleStageModel::Ignored), transforms)
    } else {
        match rule_name(rule, file) {
            Err(e) => (Err(RuleStageError::Name(e)), transforms),
            Ok(name) => {
                let target = rule_target(above, name);
                if target.len() == 0 {
                    (Err(RuleStageError::OutsideService), transforms)
                } else if exists|i: int| is_transform_at(transforms, target, i) {
                    (
                        Err(RuleStageError::Taken((choose|i: int| is_transform_at(transforms, target, i)) as usize)),
                        transforms,
                    )
                } else {
                    let after = transforms.push(
                        TransformModel { target, source, script_class_name: middleware_class(middleware) },
                    );
                    match middleware_class(middleware) {
                        Some(class_name) => (
                            Ok(RuleStageModel::Script { target, class_name, plugin: middleware == "pluginscript"@ }),
                            after,
                        ),
                        None => if formats.contains(middleware) {
                            (Ok(RuleStageModel::Adapted { target, format: middleware }), after)
                        } else {
                            (Err(RuleStageError::Unsupported), after)
                        },
                    }
                }
            },
        }
    }
}

pub open spec fn stage_result(r: Result<RuleStage, RuleStageError>) -> Result<RuleStageModel, RuleStageError> {
    match r {
        Ok(x) => Ok(x@),
        Err(e) => Err(e),
    }
}

/// Decides what a rule makes of a file below some names, and notes it among the transforms.
pub fn stage_sync_rule(
    transforms: &mut Vec<ProjectionTransform>,
    rule: &SyncRule,
    relative: &FilePath,
    above: &Vec<String>,
    source: &FilePath,
    formats: &Vec<String>,
) -> (r: Result<RuleStage, RuleStageError>)
    ensures
        ({
            let (outcome, after) = rule_staged(
                views(old(transforms)@),
                *rule,
                crate::paths::last_name(relative@),
                texts(above@),
                source@,
                texts(formats@),
            );
            &&& stage_result(r) == outcome
            &&& views(final(transforms)@) == after
        }),
{
    let ghost before = views(transforms@);
    let middleware = normalize_sync_middleware(&rule.middleware);
    if same(&middleware, "ignore") {
        return Ok(RuleStage::Ignored);
    }
    let name = match sync_rule_instance_name(rule, relative) {
        Ok(name) => name,
        Err(e) => {
            return Err(RuleStageError::Name(e));
        },
    };
    let target = if same(&name, "init") {
        clone_texts(above)
    } else {
        crate::project::below_target(above, &name)
    };
    let ghost at = rule_target(texts(above@), name@);
    assert(texts(target@).len() == target@.len());
    if target.len() == 0 {
        return Err(RuleStageError::OutsideService);
    }
    match find_transform(transforms, &target) {
        Some(i) => {
            proof {
                assert(is_transform_at(before, at, i as int));
                let other = choose|other: int| is_transform_at(before, at, other);
                if other < i {
                    assert(before[other].target != at);
                } else if i < other {
                    assert(before[i as int].target != at);
                }
            }
            return Err(RuleStageError::Taken(i));
        },
        None => {
            assert forall|i: int| !is_transform_at(before, at, i) by {
                if is_transform_at(before, at, i) {
                    assert(before[i].target != at);
                }
            }
        },
    }
    let class_name = match script_class_of(&middleware) {
        Some(class_name) => Some(class_name.to_owned()),
        None => None,
    };
    let transform = ProjectionTransform {
        target: clone_texts(&target),
        source: source.copy(),
        script_class_name: crate::links::copy_opt(&class_name),
    };
    let ghost start = transforms@;
    transforms.push(transform);
    assert(views(transforms@) =~= before.push(transform@));
    match class_name {
        Some(class_name) => {
            let plugin = same(&middleware, "pluginscript");
            Ok(RuleStage::Script { target, class_name, plugin })
        },
        None => {
            if holds_text(formats, &middleware) {
                Ok(RuleStage::Adapted { target, format: middleware })
            } else {
                Err(RuleStageError::Unsupported)
            }
        },
    }
}

/// A staged target is made of one file alone.
pub proof fn law_rule_targets_stay_distinct(
    transforms: Seq<TransformModel>,
    rule: SyncRule,
    file: Seq<char>,
    above: Seq<Seq<char>>,
    source: PathParts,
    formats: Seq<Seq<char>>,
)
    requires
        forall|i: int, j: int| 0 <= i < j < transforms.len() ==> (#[trigger] transforms[i]).target != (#[trigger] transforms[j]).target,
    ensures
        ({
            let after = rule_staged(transforms, rule, file, above, source, formats).1;
            forall|i: int, j: int| 0 <= i < j < after.len() ==> (#[trigger] after[i]).target != (#[trigger] after[j]).target
        }),
{
    let after = rule_staged(transforms, rule, file, above, source, formats).1;
    if after != transforms {
        let target = after.last().target;
        assert forall|i: int| 0 <= i < transforms.len() implies (#[trigger] transforms[i]).target != target by {
            if transforms[i].target == target {
                let first = lemma_first_transform(transforms, target, i);
                assert(is_transform_at(transforms, target, first));
            }
        }
    }
}

proof fn lemma_first_transform(v: Seq<TransformModel>, target: Seq<Seq<char>>, i: int) -> (first: int)
    requires
        0 <= i < v.len(),
        v[i].target == target,
    ensures
        is_transform_at(v, target, first),
    decreases i,
{
    if exists|j: int| 0 <= j < i && (#[trigger] v[j]).target == target {
        let j = choose|j: int| 0 <= j < i && (#[trigger] v[j]).target == target;
        lemma_first_transform(v, target, j)
    } else {
        i
    }
}

/// The first `n` transforms outside some services.
pub open spec fn transforms_outside(v: Seq<TransformModel>, services: Seq<Seq<char>>, n: nat) -> Seq<TransformModel>
    decreases n,
{
    if n == 0 {
        Seq::empty()
    } else {
        let before = transforms_outside(v, services, (n - 1) as nat);
        let x = v[n - 1];
        if x.target.len() > 0 && services.contains(x.target[0]) {
            before
        } else {
            before.push(x)
        }
    }
}

fn copy_transform(x: &ProjectionTransform) -> (r: ProjectionTransform)
    ensures
        r@ == x@,
{
    ProjectionTransform {
        target: clone_texts(&x.target),
        source: x.source.copy(),
        script_class_name: crate::links::copy_opt(&x.script_class_name),
    }
}

/// The transforms after some services were staged anew, by target.
pub fn merge_transforms(previous: &Vec<ProjectionTransform>, refreshed: &Vec<ProjectionTransform>, services: &Vec<String>) -> (r: Vec<
    ProjectionTransform,
>)
    ensures
        ({
            let all = transforms_outside(views(previous@), texts(services@), previous@.len()) + views(refreshed@);
            views(r@) == sorted::<ProjectionTransform>(all, all.len())
        }),
{
    let ghost old_list = views(previous@);
    let ghost wanted = texts(services@);
    let mut out: Vec<ProjectionTransform> = Vec::new();
    assert(views(out@) =~= Seq::empty());
    let mut i: usize = 0;
    while i < previous.len()
        invariant
            i <= previous.len(),
            old_list == views(previous@),
            wanted == texts(services@),
            views(out@) == transforms_outside(old_list, wanted, i as nat),
        decreases previous.len() - i,
    {
        assert(old_list[i as int] == previous@[i as int]@);
        assert(old_list[i as int].target.len() == previous@[i as int].target@.len());
        let inside = previous[i].target.len() > 0 && holds_text(services, &previous[i].target[0]);
        proof {
            if previous@[i as int].target@.len() > 0 {
                assert(old_list[i as int].target[0] == previous@[i as int].target@[0]@);
            }
        }
        if !inside {
            let ghost before = out@;
            let x = copy_transform(&previous[i]);
            out.push(x);
            assert(views(out@) =~= views(before).push(x@));
        }
        i += 1;
    }
    let ghost kept = views(out@);
    let ghost fresh = views(refreshed@);
    let mut k: usize = 0;
    assert(kept + fresh.take(0) =~= kept);
    while k < refreshed.len()
        invariant
            k <= refreshed.len(),
            fresh == views(refreshed@),
            views(out@) == kept + fresh.take(k as int),
        decreases refreshed.len() - k,
    {
        let ghost before = out@;
        let x = copy_transform(&refreshed[k]);
        out.push(x);
        proof {
            assert(fresh[k as int] == x@);
            assert(fresh.take(k + 1) =~= fresh.take(k as int).push(x@));
            assert(views(out@) =~= views(before).push(x@));
            assert((kept + fresh.take(k as int)).push(x@) =~= kept + fresh.take(k + 1));
        }
        k += 1;
    }
    assert(fresh.take(k as int) =~= fresh);
    assert(views(out@).len() == out@.len());
    sort_ranked(out)
}

/// The identities after some instances were staged anew: theirs go, and the new ones count.
pub fn merge_identities(
    identities: &mut Table<String, ProjectionIdentity>,
    replaced: &Vec<String>,
    refreshed: &Table<String, ProjectionIdentity>,
)
    ensures
        forall|id: Seq<char>| #[trigger]
            value_of(final(identities)@, id) == match value_of(refreshed@, id) {
                Some(x) => Some(x),
                None => if texts(replaced@).contains(id) {
                    None
                } else {
                    value_of(old(identities)@, id)
                },
            },
{
    let ghost start = identities@;
    let ghost gone = texts(replaced@);
    let mut i: usize = 0;
    while i < replaced.len()
        invariant
            i <= replaced.len(),
            gone == texts(replaced@),
            forall|id: Seq<char>| #[trigger]
                value_of(identities@, id) == if gone.take(i as int).contains(id) {
                    None
                } else {
                    value_of(start, id)
                },
        decreases replaced.len() - i,
    {
        let ghost before = identities@;
        proof {
            crate::naming::lemma_take_contains(gone, i as int);
            assert(gone[i as int] == replaced@[i as int]@);
        }
        identities.take(&replaced[i]);
        assert forall|id: Seq<char>| #[trigger]
            value_of(identities@, id) == if gone.take(i + 1).contains(id) {
                None
            } else {
                value_of(start, id)
            } by {
            assert(value_of(before, id) == if gone.take(i as int).contains(id) {
                None
            } else {
                value_of(start, id)
            });
        }
        i += 1;
    }
    assert(gone.take(i as int) =~= gone);
    let ghost kept = identities@;
    let keys = refreshed.keys();
    let ghost all = key_views(keys@);
    let mut k: usize = 0;
    while k < keys.len()
        invariant
            k <= keys.len(),
            all == key_views(keys@),
            forall|x: Seq<char>| #[trigger] all.contains(x) <==> refreshed@.dom().contains(x),
            forall|id: Seq<char>| #[trigger]
                value_of(identities@, id) == if all.take(k as int).contains(id) {
                    value_of(refreshed@, id)
                } else {
                    value_of(kept, id)
                },
        decreases keys.len() - k,
    {
        let ghost before = identities@;
        proof {
            crate::naming::lemma_take_contains(all, k as int);
            assert(all[k as int] == keys@[k as int]@);
            assert(all.contains(all[k as int]));
        }
        match refreshed.get(&keys[k]) {
            Some(x) => {
                identities.put(
                    keys[k].clone(),
                    ProjectionIdentity { source: x.source.copy(), settings_id: x.settings_id.clone() },
                );
            },
            None => {},
        }
        assert forall|id: Seq<char>| #[trigger]
            value_of(identities@, id) == if all.take(k + 1).contains(id) {
                value_of(refreshed@, id)
            } else {
                value_of(kept, id)
            } by {
            assert(value_of(before, id) == if all.take(k as int).contains(id) {
                value_of(refreshed@, id)
            } else {
                value_of(kept, id)
            });
        }
        k += 1;
    }
    assert(all.take(k as int) =~= all);
    assert forall|id: Seq<char>| #[trigger]
        value_of(identities@, id) == match value_of(refreshed@, id) {
            Some(x) => Some(x),
            None => if gone.contains(id) {
                None
            } else {
                value_of(start, id)
            },
        } by {
        assert(all.contains(id) <==> refreshed@.dom().contains(id));
        assert(value_of(kept, id) == if gone.contains(id) {
            None
        } else {
            value_of(start, id)
        });
    }
}

} // verus!
