//! Projects: what their files say, and the targets and sources that they name.
use vstd::prelude::*;

use crate::filter::FilterRule;
use crate::json::{Json, JsonModel, Member};
use crate::links::opt_text;
use crate::naming::{ExportNaming, NamingModel, ProjectScriptNaming, ScriptExtensionPolicy, naming_of};
use crate::paths::{is_control_char, is_reserved_char, is_windows_reserved_name, is_device_name, slash_text, FilePath, PathParts};
use crate::table::Table;
use crate::target::{ordinal_or_one, PathModel, ProjectTarget};
use crate::text::{chars_of, clone_texts, lemma_texts_push, same, texts, trim, trimmed};

verus! {

broadcast use vstd::seq_lib::group_seq_properties;

/// The file that holds a project.
pub const PROJECT_FILE_NAME: &'static str = "renium.project.jsonc";

/// The file that holds a project without comments.
pub const PROJECT_JSON_FILE_NAME: &'static str = "renium.project.json";

/// The version of the schema that is understood.
pub const PROJECT_SCHEMA_VERSION: u32 = 1;

/// Who may write to the source of a mount.
#[derive(PartialEq, Eq, Structural, Clone, Copy, Debug)]
pub enum MountOwnership {
    Exclusive,
    Overlay,
    ReadOnly,
}

impl Default for MountOwnership {
    fn default() -> (r: Self)
        ensures
            r == MountOwnership::Exclusive,
    {
        MountOwnership::Exclusive
    }
}

/// Which way an adapter carries content.
#[derive(PartialEq, Eq, Structural, Clone, Copy, Debug)]
pub enum AdapterDirection {
    ToProject,
    FromProject,
    TwoWay,
}

impl Default for AdapterDirection {
    fn default() -> (r: Self)
        ensures
            r == AdapterDirection::ToProject,
    {
        AdapterDirection::ToProject
    }
}

/// A file or directory whose content stands at a target.
pub struct ProjectMount {
    pub source: FilePath,
    pub target: ProjectTarget,
    pub ownership: MountOwnership,
    pub optional: bool,
}

/// A file that is translated into an instance, or back.
pub struct AdapterSpec {
    pub source: FilePath,
    pub target: ProjectTarget,
    pub output: Option<FilePath>,
    pub format: Option<String>,
    pub direction: AdapterDirection,
    pub generated: bool,
}

/// How files of some pattern become instances.
pub struct SyncRule {
    pub pattern: String,
    pub exclude: Option<String>,
    pub middleware: String,
    pub suffix: Option<String>,
}

/// An instance that a project declares.
pub struct ProjectNode {
    pub id: Option<String>,
    pub path: Option<FilePath>,
    pub class_name: Option<String>,
    pub properties: Vec<Member>,
    pub attributes: Vec<Member>,
    pub tags: Option<Vec<String>>,
    pub ignore_unknown_instances: Option<bool>,
    /// What stands below it, in the order of names.
    pub children: Vec<ProjectChild>,
}

/// What a project writes under a name: an instance, unless it can not be read as one.
pub struct ProjectChild {
    pub name: String,
    pub node: Option<ProjectNode>,
}

/// A service that a project declares.
pub struct TreeEntry {
    pub name: String,
    pub node: ProjectNode,
}

/// A project.
pub struct ReniumProject {
    pub schema: Option<String>,
    pub schema_version: u32,
    pub name: Option<String>,
    pub source_root: FilePath,
    pub build_target: Option<ProjectTarget>,
    pub root: ProjectNode,
    /// The services, in the order of names.
    pub tree: Vec<TreeEntry>,
    pub mounts: Vec<ProjectMount>,
    pub adapters: Vec<AdapterSpec>,
    pub sync_rules: Vec<SyncRule>,
    pub glob_ignore_paths: Vec<String>,
    pub filters: Vec<FilterRule>,
    pub script_extension: ScriptExtensionPolicy,
    pub export_naming: ExportNaming,
    pub settings: Json,
}

/// A project with the file that it was read from and the directory of that file.
pub struct LoadedProject {
    pub path: FilePath,
    pub root: FilePath,
    pub project: ReniumProject,
}

/// What a file beside another says of the instance that the other stands for.
pub struct MetadataSidecar {
    pub schema_version: Option<u32>,
    pub id: Option<String>,
    pub class_name: Option<String>,
    pub properties: Vec<Member>,
    pub attributes: Vec<Member>,
    pub tags: Option<Vec<String>>,
    pub ignore_unknown_instances: Option<bool>,
}

/// A file that describes what another stands for, with the target of that in its project.
pub struct Sidecar {
    pub target: Vec<String>,
    pub source: FilePath,
    pub metadata: MetadataSidecar,
}

impl ProjectNode {
    /// Nothing is said of the instance.
    pub open spec fn is_blank(self) -> bool {
        &&& self.id is None
        &&& self.path is None
        &&& self.class_name is None
        &&& self.properties@.len() == 0
        &&& self.attributes@.len() == 0
        &&& self.tags is None
        &&& self.ignore_unknown_instances is None
        &&& self.children@.len() == 0
    }
}

impl Default for ProjectNode {
    fn default() -> (r: Self)
        ensures
            r.is_blank(),
    {
        ProjectNode {
            id: None,
            path: None,
            class_name: None,
            properties: Vec::new(),
            attributes: Vec::new(),
            tags: None,
            ignore_unknown_instances: None,
            children: Vec::new(),
        }
    }
}

/// The schema that a project names by itself.
pub const PROJECT_SCHEMA_URL: &'static str = "https://raw.githubusercontent.com/Superwheat/renium/main/tools/renium/schemas/renium.project.schema.json";

impl ReniumProject {
    /// Nothing but the schema and the source root is said.
    pub open spec fn is_blank(self) -> bool {
        &&& opt_text(self.schema) == Some(PROJECT_SCHEMA_URL@)
        &&& self.schema_version == PROJECT_SCHEMA_VERSION
        &&& self.name is None
        &&& self.source_root@ == (PathParts { rooted: false, parts: seq!["src"@] })
        &&& self.build_target is None
        &&& self.root.is_blank()
        &&& self.tree@.len() == 0
        &&& self.mounts@.len() == 0
        &&& self.adapters@.len() == 0
        &&& self.sync_rules@.len() == 0
        &&& self.glob_ignore_paths@.len() == 0
        &&& self.filters@.len() == 0
        &&& self.script_extension == ScriptExtensionPolicy::Preserve
        &&& self.settings@ == JsonModel::Object(Map::empty())
    }
}

impl Default for ReniumProject {
    fn default() -> (r: Self)
        ensures
            r.is_blank(),
            r.export_naming.server_suffix@ == ".server"@,
            r.export_naming.client_suffix@ == ".client"@,
            r.export_naming.module_suffix@ == Seq::<char>::empty(),
            r.export_naming.plugin_suffix@ == ".plugin"@,
            r.export_naming.client_run_context_suffix@ == ".run-client"@,
    {
        let name = "src".to_owned();
        let mut parts: Vec<String> = Vec::new();
        parts.push(name);
        assert(texts(parts@) =~= seq!["src"@]);
        let empty: Vec<Member> = Vec::new();
        ReniumProject {
            schema: Some(PROJECT_SCHEMA_URL.to_owned()),
            schema_version: PROJECT_SCHEMA_VERSION,
            name: None,
            source_root: FilePath::relative(parts),
            build_target: None,
            root: ProjectNode::default(),
            tree: Vec::new(),
            mounts: Vec::new(),
            adapters: Vec::new(),
            sync_rules: Vec::new(),
            glob_ignore_paths: Vec::new(),
            filters: Vec::new(),
            script_extension: ScriptExtensionPolicy::default(),
            export_naming: ExportNaming::default(),
            settings: Json::Object(empty),
        }
    }
}

/// How a project names the files of scripts.
pub open spec fn project_naming(project: ReniumProject) -> NamingModel {
    naming_of(project.script_extension, project.export_naming)
}

/// How a project names the files of scripts.
pub fn project_script_naming(project: &ReniumProject) -> (r: ProjectScriptNaming)
    ensures
        r@ == project_naming(*project),
{
    ProjectScriptNaming::from_export(project.script_extension, &project.export_naming)
}

/// An instance of a project's tree with the names on the way to it.
pub struct TreeNode<'a> {
    pub target: Vec<String>,
    pub node: &'a ProjectNode,
}

#[verifier::ext_equal]
pub struct TreeNodeModel {
    pub target: Seq<Seq<char>>,
    pub node: ProjectNode,
}

impl<'a> View for TreeNode<'a> {
    type V = TreeNodeModel;

    open spec fn view(&self) -> TreeNodeModel {
        TreeNodeModel { target: texts(self.target@), node: *self.node }
    }
}

pub open spec fn tree_views(v: Seq<TreeNode<'_>>) -> Seq<TreeNodeModel> {
    Seq::new(v.len(), |i: int| v[i]@)
}

/// A name that a project keeps for itself.
pub open spec fn is_reserved_key(name: Seq<char>) -> bool {
    name.len() > 0 && name[0] == '$'
}

pub fn has_reserved_key(name: &str) -> (r: bool)
    ensures
        r == is_reserved_key(name@),
{
    let chars = chars_of(name);
    chars.len() > 0 && chars[0] == '$'
}

/// The first `n` children of a node with all below them, each before those below it.
pub open spec fn child_nodes(children: Seq<ProjectChild>, prefix: Seq<Seq<char>>, n: nat) -> Seq<TreeNodeModel>
    decreases children, n,
{
    if n == 0 || n > children.len() {
        Seq::empty()
    } else {
        let before = child_nodes(children, prefix, (n - 1) as nat);
        let x = children[n - 1];
        if is_reserved_key(x.name@) {
            before
        } else {
            match x.node {
                Some(node) => {
                    let target = prefix.push(x.name@);
                    before.push(TreeNodeModel { target, node }) + child_nodes(node.children@, target, node.children@.len())
                },
                None => before,
            }
        }
    }
}

/// The instances of the first `n` services of a project's tree.
pub open spec fn tree_nodes(tree: Seq<TreeEntry>, n: nat) -> Seq<TreeNodeModel>
    decreases n,
{
    if n == 0 {
        Seq::empty()
    } else {
        let x = tree[n - 1];
        let target = seq![x.name@];
        tree_nodes(tree, (n - 1) as nat).push(TreeNodeModel { target, node: x.node }) + child_nodes(
            x.node.children@,
            target,
            x.node.children@.len(),
        )
    }
}

/// The instances of a project's tree.
pub open spec fn all_tree_nodes(project: ReniumProject) -> Seq<TreeNodeModel> {
    tree_nodes(project.tree@, project.tree@.len())
}

fn push_node<'a>(out: &mut Vec<TreeNode<'a>>, x: TreeNode<'a>)
    ensures
        tree_views(final(out)@) == tree_views(old(out)@).push(x@),
{
    let ghost before = out@;
    out.push(x);
    assert(tree_views(out@) =~= tree_views(before).push(x@));
}

/// A list of names with one more at the end.
pub fn below_target(prefix: &Vec<String>, name: &str) -> (r: Vec<String>)
    ensures
        texts(r@) == texts(prefix@).push(name@),
{
    let mut out = clone_texts(prefix);
    let last = name.to_owned();
    proof {
        lemma_texts_push(out@, last);
    }
    out.push(last);
    out
}

fn visit_children<'a>(children: &'a Vec<ProjectChild>, prefix: &Vec<String>, out: &mut Vec<TreeNode<'a>>)
    ensures
        tree_views(final(out)@) == tree_views(old(out)@) + child_nodes(children@, texts(prefix@), children@.len()),
    decreases children,
{
    let ghost start = tree_views(out@);
    let ghost at = texts(prefix@);
    let mut i: usize = 0;
    assert(start =~= start + child_nodes(children@, at, 0));
    while i < children.len()
        invariant
            i <= children.len(),
            at == texts(prefix@),
            tree_views(out@) == start + child_nodes(children@, at, i as nat),
        decreases children.len() - i,
    {
        let ghost before = child_nodes(children@, at, i as nat);
        if !has_reserved_key(&children[i].name) {
            match &children[i].node {
                Some(node) => {
                    let target = below_target(prefix, &children[i].name);
                    let ghost here = TreeNodeModel { target: texts(target@), node: *node };
                    push_node(out, TreeNode { target: clone_texts(&target), node });
                    assert(tree_views(out@) =~= start + before.push(here));
                    visit_children(&node.children, &target, out);
                    proof {
                        let inner = child_nodes(node.children@, texts(target@), node.children@.len());
                        assert(child_nodes(children@, at, (i + 1) as nat) == before.push(here) + inner);
                        assert(tree_views(out@) =~= start + (before.push(here) + inner));
                    }
                },
                None => {},
            }
        }
        i += 1;
    }
}

/// The instances of a project's tree, each before those below it.
pub fn project_tree_nodes<'a>(tree: &'a Vec<TreeEntry>) -> (r: Vec<TreeNode<'a>>)
    ensures
        tree_views(r@) == tree_nodes(tree@, tree@.len()),
{
    let mut out: Vec<TreeNode<'a>> = Vec::new();
    let mut i: usize = 0;
    assert(tree_views(out@) =~= Seq::empty());
    while i < tree.len()
        invariant
            i <= tree.len(),
            tree_views(out@) == tree_nodes(tree@, i as nat),
        decreases tree.len() - i,
    {
        let none: Vec<String> = Vec::new();
        let target = below_target(&none, &tree[i].name);
        assert(texts(none@) =~= Seq::empty());
        assert(texts(target@) =~= seq![tree@[i as int].name@]);
        push_node(&mut out, TreeNode { target: clone_texts(&target), node: &tree[i].node });
        visit_children(&tree[i].node.children, &target, &mut out);
        i += 1;
    }
    out
}

/// Every instance of a tree but a service stands below one that comes before it.
pub proof fn law_tree_parents_come_before(tree: Seq<TreeEntry>, n: nat, i: int)
    requires
        n <= tree.len(),
        0 <= i < tree_nodes(tree, n).len(),
        tree_nodes(tree, n)[i].target.len() != 1,
    ensures
        exists|j: int|
            0 <= j < i && (#[trigger] tree_nodes(tree, n)[j]).target == tree_nodes(tree, n)[i].target.drop_last(),
    decreases n,
{
    if n > 0 {
        let before = tree_nodes(tree, (n - 1) as nat);
        let x = tree[n - 1];
        let target = seq![x.name@];
        let here = TreeNodeModel { target, node: x.node };
        let inner = child_nodes(x.node.children@, target, x.node.children@.len());
        let all = tree_nodes(tree, n);
        assert(all == before.push(here) + inner);
        if i < before.len() {
            law_tree_parents_come_before(tree, (n - 1) as nat, i);
            let j = choose|j: int| 0 <= j < i && (#[trigger] before[j]).target == before[i].target.drop_last();
            assert(all[j] == before[j]);
        } else if i > before.len() {
            let k = i - before.len() - 1;
            assert(all[i] == inner[k]);
            lemma_child_parents(x.node.children@, target, x.node.children@.len(), k);
            if inner[k].target.drop_last() == target {
                assert(all[before.len() as int] == here);
            } else {
                let j = choose|j: int| 0 <= j < k && (#[trigger] inner[j]).target == inner[k].target.drop_last();
                assert(all[before.len() + 1 + j] == inner[j]);
            }
        }
    }
}

proof fn lemma_child_parents(children: Seq<ProjectChild>, prefix: Seq<Seq<char>>, n: nat, i: int)
    requires
        n <= children.len(),
        0 <= i < child_nodes(children, prefix, n).len(),
    ensures
        child_nodes(children, prefix, n)[i].target.len() > prefix.len(),
        child_nodes(children, prefix, n)[i].target.drop_last() == prefix || exists|j: int|
            0 <= j < i && (#[trigger] child_nodes(children, prefix, n)[j]).target == child_nodes(children, prefix, n)[i].target.drop_last(),
    decreases children, n,
{
    if n > 0 {
        let before = child_nodes(children, prefix, (n - 1) as nat);
        let x = children[n - 1];
        let all = child_nodes(children, prefix, n);
        if i < before.len() {
            lemma_child_parents(children, prefix, (n - 1) as nat, i);
            if before[i].target.drop_last() != prefix {
                let j = choose|j: int| 0 <= j < i && (#[trigger] before[j]).target == before[i].target.drop_last();
                assert(all[j] == before[j]);
            }
        } else if !is_reserved_key(x.name@) && x.node is Some {
            let node = x.node->0;
            let target = prefix.push(x.name@);
            let here = TreeNodeModel { target, node };
            let inner = child_nodes(node.children@, target, node.children@.len());
            assert(all == before.push(here) + inner);
            assert(target.drop_last() =~= prefix);
            if i > before.len() {
                let k = i - before.len() - 1;
                assert(all[i] == inner[k]);
                lemma_child_parents(node.children@, target, node.children@.len(), k);
                if inner[k].target.drop_last() == target {
                    assert(all[before.len() as int] == here);
                } else {
                    let j = choose|j: int| 0 <= j < k && (#[trigger] inner[j]).target == inner[k].target.drop_last();
                    assert(all[before.len() + 1 + j] == inner[j]);
                }
            }
        }
    }
}

/// What stands at a path.
#[derive(PartialEq, Eq, Structural, Clone, Copy, Debug)]
pub enum SourceKind {
    Missing,
    File,
    Directory,
    Link,
    Other,
}

/// What is known of a path: what stands there, links followed, whether it is a link itself, and the key
/// under which its spellings are one.
pub struct FileFact {
    pub kind: SourceKind,
    pub link: bool,
    pub key: String,
}

#[verifier::ext_equal]
pub struct FactModel {
    pub kind: SourceKind,
    pub link: bool,
    pub key: Seq<char>,
}

impl View for FileFact {
    type V = FactModel;

    open spec fn view(&self) -> FactModel {
        FactModel { kind: self.kind, link: self.link, key: self.key@ }
    }
}

/// What was found on disk: a fact for each path that was looked at.
pub struct Files {
    pub facts: Table<FilePath, FileFact>,
}

impl View for Files {
    type V = Map<PathParts, FactModel>;

    open spec fn view(&self) -> Map<PathParts, FactModel> {
        self.facts@
    }
}

/// What stands at a path, links followed; nothing where it was not looked at.
pub open spec fn kind_at(files: Map<PathParts, FactModel>, path: PathParts) -> SourceKind {
    if files.dom().contains(path) {
        files[path].kind
    } else {
        SourceKind::Missing
    }
}

/// The path is a link.
pub open spec fn link_at(files: Map<PathParts, FactModel>, path: PathParts) -> bool {
    files.dom().contains(path) && files[path].link
}

/// What stands at a path itself, links not followed.
pub open spec fn own_kind_at(files: Map<PathParts, FactModel>, path: PathParts) -> SourceKind {
    if link_at(files, path) {
        SourceKind::Link
    } else {
        kind_at(files, path)
    }
}

/// What a path leads to that is of a kind: a link that was not followed leads nowhere.
pub open spec fn followed(kind: SourceKind) -> SourceKind {
    if kind == SourceKind::Link {
        SourceKind::Missing
    } else {
        kind
    }
}

/// The key of a path: that which was found, or its own text.
pub open spec fn key_at(files: Map<PathParts, FactModel>, path: PathParts) -> Seq<char> {
    if files.dom().contains(path) {
        files[path].key
    } else {
        slash_text(path)
    }
}

impl Files {
    pub fn new() -> (r: Files)
        ensures
            r@ == Map::<PathParts, FactModel>::empty(),
    {
        Files { facts: Table::new() }
    }

    /// Notes what was found at a path. A link that leads nowhere is noted as a link.
    pub fn note(&mut self, path: FilePath, kind: SourceKind, key: String)
        ensures
            final(self)@ == old(self)@.insert(
                path@,
                (FactModel { kind: followed(kind), link: kind == SourceKind::Link, key: key@ }),
            ),
    {
        let link = kind == SourceKind::Link;
        let kind = if link {
            SourceKind::Missing
        } else {
            kind
        };
        self.facts.put(path, FileFact { kind, link, key });
    }

    /// Notes a link, with what it leads to.
    pub fn note_link(&mut self, path: FilePath, kind: SourceKind, key: String)
        ensures
            final(self)@ == old(self)@.insert(path@, (FactModel { kind: followed(kind), link: true, key: key@ })),
    {
        let kind = if kind == SourceKind::Link {
            SourceKind::Missing
        } else {
            kind
        };
        self.facts.put(path, FileFact { kind, link: true, key });
    }

    pub fn is_link(&self, path: &FilePath) -> (r: bool)
        ensures
            r == link_at(self@, path@),
    {
        match self.facts.get(path) {
            Some(fact) => fact.link,
            None => false,
        }
    }

    /// What stands at a path itself, links not followed.
    pub fn own_kind(&self, path: &FilePath) -> (r: SourceKind)
        ensures
            r == own_kind_at(self@, path@),
    {
        if self.is_link(path) {
            SourceKind::Link
        } else {
            self.kind(path)
        }
    }

    pub fn kind(&self, path: &FilePath) -> (r: SourceKind)
        ensures
            r == kind_at(self@, path@),
    {
        match self.facts.get(path) {
            Some(fact) => fact.kind,
            None => SourceKind::Missing,
        }
    }

    pub fn key(&self, path: &FilePath) -> (r: String)
        ensures
            r@ == key_at(self@, path@),
    {
        match self.facts.get(path) {
            Some(fact) => fact.key.clone(),
            None => path.to_slash(),
        }
    }
}

/// What is wrong with a target.
#[derive(PartialEq, Eq, Structural, Clone, Copy, Debug)]
pub enum TargetProblem {
    EmptyName,
    OrdinalCount,
    ZeroOrdinal,
    ServiceOrdinal,
    /// A sibling other than the first is selected where a file stands for the target.
    DuplicateSibling,
    /// Some name can not be that of a file.
    Name(usize),
}

/// Some name is empty or blank.
pub open spec fn has_blank_name(segments: Seq<Seq<char>>) -> bool {
    exists|i: int| 0 <= i < segments.len() && trimmed(#[trigger] segments[i]).len() == 0
}

/// Whether a target names an instance.
pub open spec fn target_checked(target: PathModel) -> Result<(), TargetProblem> {
    if target.segments.len() == 0 || has_blank_name(target.segments) {
        Err(TargetProblem::EmptyName)
    } else if target.ordinals.len() > 0 && target.ordinals.len() != target.segments.len() {
        Err(TargetProblem::OrdinalCount)
    } else if target.ordinals.contains(0) {
        Err(TargetProblem::ZeroOrdinal)
    } else if target.ordinals.len() > 0 && target.ordinals[0] != 1 {
        Err(TargetProblem::ServiceOrdinal)
    } else {
        Ok(())
    }
}

fn blank_name(segments: &Vec<String>) -> (r: bool)
    ensures
        r == has_blank_name(texts(segments@)),
{
    let mut i: usize = 0;
    while i < segments.len()
        invariant
            i <= segments.len(),
            forall|j: int| 0 <= j < i ==> trimmed(#[trigger] texts(segments@)[j]).len() > 0,
        decreases segments.len() - i,
    {
        assert(texts(segments@)[i as int] == segments@[i as int]@);
        let t = trim(&segments[i]);
        if t.as_str().is_empty() {
            return true;
        }
        i += 1;
    }
    false
}

fn holds_number(v: &Vec<usize>, x: usize) -> (r: bool)
    ensures
        r == v@.contains(x),
{
    let mut i: usize = 0;
    while i < v.len()
        invariant
            i <= v.len(),
            forall|j: int| 0 <= j < i ==> #[trigger] v@[j] != x,
        decreases v.len() - i,
    {
        if v[i] == x {
            return true;
        }
        i += 1;
    }
    false
}

/// Checks that a target names an instance.
pub fn validate_instance_target(target: &ProjectTarget) -> (r: Result<(), TargetProblem>)
    ensures
        r == target_checked(target@),
{
    let segments = target.segments();
    let ordinals = target.ordinals();
    assert(texts(segments@).len() == segments@.len());
    if segments.len() == 0 || blank_name(&segments) {
        return Err(TargetProblem::EmptyName);
    }
    if ordinals.len() > 0 && ordinals.len() != segments.len() {
        return Err(TargetProblem::OrdinalCount);
    }
    if holds_number(&ordinals, 0) {
        return Err(TargetProblem::ZeroOrdinal);
    }
    if ordinals.len() > 0 && ordinals[0] != 1 {
        return Err(TargetProblem::ServiceOrdinal);
    }
    Ok(())
}

/// A character that the name of a file may hold everywhere.
pub open spec fn is_file_char(c: char) -> bool {
    !is_control_char(c) && !is_reserved_char(c) && c != '/' && c != '\\'
}

pub open spec fn file_chars(s: Seq<char>) -> bool {
    forall|i: int| 0 <= i < s.len() ==> is_file_char(#[trigger] s[i])
}

/// A name that a file can have everywhere.
pub open spec fn is_file_name(s: Seq<char>) -> bool {
    &&& s.len() > 0 ==> s.last() != ' ' && s.last() != '.'
    &&& file_chars(s)
    &&& !is_device_name(s)
}

pub fn has_file_chars(s: &str) -> (r: bool)
    ensures
        r == file_chars(s@),
{
    let chars = chars_of(s);
    let mut i: usize = 0;
    while i < chars.len()
        invariant
            i <= chars.len(),
            chars@ == s@,
            forall|j: int| 0 <= j < i ==> is_file_char(#[trigger] s@[j]),
        decreases chars.len() - i,
    {
        let c = chars[i];
        let n = c as u32;
        if n <= 0x1f || (0x7f <= n && n <= 0x9f) || c == '<' || c == '>' || c == ':' || c == '"' || c == '|' || c == '?' || c
            == '*' || c == '/' || c == '\\' {
            assert(!is_file_char(s@[i as int]));
            return false;
        }
        i += 1;
    }
    true
}

fn can_be_file_name(s: &str) -> (r: bool)
    ensures
        r == is_file_name(s@),
{
    let chars = chars_of(s);
    let n = chars.len();
    if n > 0 && (chars[n - 1] == ' ' || chars[n - 1] == '.') {
        return false;
    }
    has_file_chars(s) && !is_windows_reserved_name(s)
}

/// The names from `i` on are those of files.
pub open spec fn names_checked(segments: Seq<Seq<char>>, i: int) -> Result<(), TargetProblem>
    decreases segments.len() - i,
{
    if i < 0 || i >= segments.len() {
        Ok(())
    } else if !is_file_name(segments[i]) {
        Err(TargetProblem::Name(i as usize))
    } else {
        names_checked(segments, i + 1)
    }
}

/// Whether a file can stand for a target.
pub open spec fn file_target_checked(target: PathModel) -> Result<(), TargetProblem> {
    if exists|i: int| 0 <= i < target.ordinals.len() && #[trigger] target.ordinals[i] > 1 {
        Err(TargetProblem::DuplicateSibling)
    } else {
        names_checked(target.segments, 0)
    }
}

/// Checks that a file can stand for a target.
pub fn validate_filesystem_target(target: &ProjectTarget) -> (r: Result<(), TargetProblem>)
    ensures
        r == file_target_checked(target@),
{
    let ordinals = target.ordinals();
    let mut i: usize = 0;
    while i < ordinals.len()
        invariant
            i <= ordinals.len(),
            ordinals@ == target@.ordinals,
            forall|j: int| 0 <= j < i ==> #[trigger] target@.ordinals[j] <= 1,
        decreases ordinals.len() - i,
    {
        if ordinals[i] > 1 {
            assert(target@.ordinals[i as int] > 1);
            return Err(TargetProblem::DuplicateSibling);
        }
        i += 1;
    }
    let segments = target.segments();
    let ghost all = target@.segments;
    let mut k: usize = 0;
    while k < segments.len()
        invariant
            k <= segments.len(),
            all == texts(segments@),
            file_target_checked(target@) == names_checked(all, k as int),
        decreases segments.len() - k,
    {
        assert(all[k as int] == segments@[k as int]@);
        if !can_be_file_name(&segments[k]) {
            return Err(TargetProblem::Name(k));
        }
        k += 1;
    }
    Ok(())
}

/// Two targets take the same step.
pub open spec fn same_step(a: PathModel, b: PathModel, i: int) -> bool {
    a.segments[i] == b.segments[i] && ordinal_or_one(a.ordinals, i) == ordinal_or_one(b.ordinals, i)
}

/// One target is the other, or an instance above or below it.
pub open spec fn targets_overlap(a: PathModel, b: PathModel) -> bool {
    forall|i: int| 0 <= i < a.segments.len() && i < b.segments.len() ==> #[trigger] same_step(a, b, i)
}

/// Whether one target is the other, or an instance above or below it.
pub fn instance_target_overlaps(left: &ProjectTarget, right: &ProjectTarget) -> (r: bool)
    ensures
        r == targets_overlap(left@, right@),
{
    let a = left.segments();
    let b = right.segments();
    let x = left.ordinals();
    let y = right.ordinals();
    let ghost p = left@;
    let ghost q = right@;
    assert(p.segments.len() == a@.len() && q.segments.len() == b@.len());
    let mut i: usize = 0;
    while i < a.len() && i < b.len()
        invariant
            i <= a.len(),
            i <= b.len(),
            p == left@,
            q == right@,
            texts(a@) == p.segments,
            texts(b@) == q.segments,
            x@ == p.ordinals,
            y@ == q.ordinals,
            p.segments.len() == a@.len() && q.segments.len() == b@.len(),
            forall|j: int| 0 <= j < i ==> #[trigger] same_step(p, q, j),
        decreases a.len() - i,
    {
        assert(p.segments[i as int] == a@[i as int]@ && q.segments[i as int] == b@[i as int]@);
        let m: usize = if i < x.len() {
            x[i]
        } else {
            1
        };
        let n: usize = if i < y.len() {
            y[i]
        } else {
            1
        };
        assert(m == ordinal_or_one(p.ordinals, i as int) && n == ordinal_or_one(q.ordinals, i as int));
        if !same(&a[i], &b[i]) || m != n {
            assert(!same_step(p, q, i as int));
            return false;
        }
        i += 1;
    }
    true
}

/// Overlapping goes both ways.
pub proof fn law_target_overlap_is_symmetric(a: PathModel, b: PathModel)
    ensures
        targets_overlap(a, b) == targets_overlap(b, a),
{
    assert forall|i: int| #[trigger] same_step(a, b, i) == same_step(b, a, i) by {}
    if targets_overlap(a, b) {
        assert forall|i: int| 0 <= i < b.segments.len() && i < a.segments.len() implies #[trigger] same_step(b, a, i) by {
            assert(same_step(a, b, i));
        }
    }
}

/// A target within another overlaps it.
pub proof fn law_inner_target_overlaps(target: PathModel, parent: PathModel)
    requires
        crate::target::within(target, parent),
        target.ordinals.len() == 0 || target.ordinals.len() == target.segments.len(),
        parent.ordinals.len() == parent.segments.len(),
    ensures
        targets_overlap(target, parent),
{
    assert forall|i: int| 0 <= i < target.segments.len() && i < parent.segments.len() implies #[trigger] same_step(
        target,
        parent,
        i,
    ) by {
        assert(parent.ordinals[i] == ordinal_or_one(parent.ordinals, i));
        assert(target.segments.take(parent.segments.len() as int)[i] == target.segments[i]);
    }
}

} // verus!
