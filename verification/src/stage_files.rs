//! What becomes of each file of a source directory in a projection, and what a projection that was
//! kept needs after a change.
use vstd::prelude::*;

use crate::link_apply::value_of;
use crate::links::opt_text;
use crate::order::{ascending, SortedSet};
use crate::paths::{has_extension, joined_path, path_extension_is, path_views, FilePath, PathParts};
use crate::project::{key_at, kind_at, own_kind_at, FactModel, Files, MetadataSidecar, SourceKind};
use crate::table::{key_views, Table};
use crate::text::{holds_text, same, texts};

verus! {

broadcast use vstd::seq_lib::group_seq_properties;

/// A path of a directory that is left out, since something else of the project claims it; the directory
/// itself is not, where it is claimed for itself.
pub open spec fn is_claimed_key(key: Seq<char>, claims: Seq<Seq<char>>, owned: bool, source_key: Seq<char>) -> bool {
    claims.contains(key) && (!owned || key != source_key)
}

/// Whether a path of a directory is left out, since something else of the project claims it.
pub fn is_claimed(key: &str, claims: &Vec<String>, owned: bool, source_key: &str) -> (r: bool)
    ensures
        r == is_claimed_key(key@, texts(claims@), owned, source_key@),
{
    holds_text(claims, key) && (!owned || !same(key, source_key))
}

/// What is known of a path of a source directory: whether ignore lines leave it out, and the rule that
/// takes it.
#[derive(Clone, Copy)]
pub struct EntryFact {
    pub kind: SourceKind,
    /// The directory itself.
    pub is_root: bool,
    pub ignored: bool,
    /// It describes another file.
    pub is_sidecar: bool,
    pub rule: Option<usize>,
}

/// What becomes of a path of a source directory.
#[derive(PartialEq, Eq, Structural, Clone, Copy, Debug)]
pub enum EntryAction {
    Skip,
    Directory,
    Sidecar,
    Rule(usize),
    Copy,
}

/// What becomes of a path; a link is refused.
pub open spec fn entry_action(fact: EntryFact) -> Option<EntryAction> {
    if fact.is_root {
        Some(EntryAction::Skip)
    } else if fact.kind == SourceKind::Link {
        None
    } else if fact.ignored {
        Some(EntryAction::Skip)
    } else if fact.kind == SourceKind::Directory {
        Some(EntryAction::Directory)
    } else if fact.kind != SourceKind::File {
        Some(EntryAction::Skip)
    } else if fact.is_sidecar {
        Some(EntryAction::Sidecar)
    } else {
        match fact.rule {
            Some(rule) => Some(EntryAction::Rule(rule)),
            None => Some(EntryAction::Copy),
        }
    }
}

/// The first link at or after the `i`th path.
pub open spec fn first_link(facts: Seq<EntryFact>, i: int) -> Option<int>
    decreases facts.len() - i,
{
    if i < 0 || i >= facts.len() {
        None
    } else if entry_action(facts[i]) is None {
        Some(i)
    } else {
        first_link(facts, i + 1)
    }
}

/// Which of the first `n` paths become directories.
pub open spec fn directories_of(facts: Seq<EntryFact>, n: nat) -> Seq<usize>
    decreases n,
{
    if n == 0 {
        Seq::empty()
    } else {
        let before = directories_of(facts, (n - 1) as nat);
        if entry_action(facts[n - 1]) == Some(EntryAction::Directory) {
            before.push((n - 1) as usize)
        } else {
            before
        }
    }
}

/// Which of the first `n` paths are copied.
pub open spec fn copies_of(facts: Seq<EntryFact>, n: nat) -> Seq<usize>
    decreases n,
{
    if n == 0 {
        Seq::empty()
    } else {
        let before = copies_of(facts, (n - 1) as nat);
        if entry_action(facts[n - 1]) == Some(EntryAction::Copy) {
            before.push((n - 1) as usize)
        } else {
            before
        }
    }
}

/// Which of the first `n` paths rules take.
pub open spec fn ruled_of(facts: Seq<EntryFact>, n: nat) -> Seq<usize>
    decreases n,
{
    if n == 0 {
        Seq::empty()
    } else {
        let before = ruled_of(facts, (n - 1) as nat);
        match entry_action(facts[n - 1]) {
            Some(EntryAction::Rule(_)) => before.push((n - 1) as usize),
            _ => before,
        }
    }
}

/// Which of the first `n` paths describe others.
pub open spec fn sidecars_of(facts: Seq<EntryFact>, n: nat) -> Seq<usize>
    decreases n,
{
    if n == 0 {
        Seq::empty()
    } else {
        let before = sidecars_of(facts, (n - 1) as nat);
        if entry_action(facts[n - 1]) == Some(EntryAction::Sidecar) {
            before.push((n - 1) as usize)
        } else {
            before
        }
    }
}

/// What becomes of the paths of a source directory: what is made and copied on the way, then what rules
/// take, and at last what describes others.
pub struct SourcePlan {
    pub directories: Vec<usize>,
    pub copies: Vec<usize>,
    pub ruled: Vec<usize>,
    pub sidecars: Vec<usize>,
}

/// Decides what becomes of a path; a link is refused.
pub fn act_on_entry(fact: &EntryFact) -> (r: Option<EntryAction>)
    ensures
        r == entry_action(*fact),
{
    if fact.is_root {
        Some(EntryAction::Skip)
    } else if fact.kind == SourceKind::Link {
        None
    } else if fact.ignored {
        Some(EntryAction::Skip)
    } else if fact.kind == SourceKind::Directory {
        Some(EntryAction::Directory)
    } else if fact.kind != SourceKind::File {
        Some(EntryAction::Skip)
    } else if fact.is_sidecar {
        Some(EntryAction::Sidecar)
    } else {
        match fact.rule {
            Some(rule) => Some(EntryAction::Rule(rule)),
            None => Some(EntryAction::Copy),
        }
    }
}

/// Plans what becomes of the paths of a source directory, in the order in which they were walked; or
/// tells which of them is a link.
pub fn plan_source_directory(facts: &Vec<EntryFact>) -> (r: Result<SourcePlan, usize>)
    ensures
        match r {
            Ok(plan) => {
                &&& first_link(facts@, 0) is None
                &&& plan.directories@ == directories_of(facts@, facts@.len())
                &&& plan.copies@ == copies_of(facts@, facts@.len())
                &&& plan.ruled@ == ruled_of(facts@, facts@.len())
                &&& plan.sidecars@ == sidecars_of(facts@, facts@.len())
            },
            Err(i) => first_link(facts@, 0) == Some(i as int),
        },
{
    let mut directories: Vec<usize> = Vec::new();
    let mut copies: Vec<usize> = Vec::new();
    let mut ruled: Vec<usize> = Vec::new();
    let mut sidecars: Vec<usize> = Vec::new();
    let mut i: usize = 0;
    while i < facts.len()
        invariant
            i <= facts.len(),
            first_link(facts@, 0) == first_link(facts@, i as int),
            directories@ == directories_of(facts@, i as nat),
            copies@ == copies_of(facts@, i as nat),
            ruled@ == ruled_of(facts@, i as nat),
            sidecars@ == sidecars_of(facts@, i as nat),
        decreases facts.len() - i,
    {
        match act_on_entry(&facts[i]) {
            None => {
                return Err(i);
            },
            Some(EntryAction::Skip) => {},
            Some(EntryAction::Directory) => {
                directories.push(i);
            },
            Some(EntryAction::Sidecar) => {
                sidecars.push(i);
            },
            Some(EntryAction::Rule(_)) => {
                ruled.push(i);
            },
            Some(EntryAction::Copy) => {
                copies.push(i);
            },
        }
        i += 1;
    }
    Ok(SourcePlan { directories, copies, ruled, sidecars })
}

/// Why a description of a file can not be used.
#[derive(PartialEq, Eq, Structural, Clone, Copy, Debug)]
pub enum DescriptionError {
    SchemaVersion,
    NoTarget,
    /// Nothing says what class the instance has.
    NoClass,
}

/// The class that a description gives: the one it names, the one that the instance has, or the one that
/// the file's name gives.
pub open spec fn described_class(
    metadata: MetadataSidecar,
    has_target: bool,
    existing: Option<Seq<char>>,
    inferred: Option<Seq<char>>,
) -> Result<Seq<char>, DescriptionError> {
    if metadata.schema_version is Some && metadata.schema_version->0 != 1 {
        Err(DescriptionError::SchemaVersion)
    } else if !has_target {
        Err(DescriptionError::NoTarget)
    } else {
        match metadata.class_name {
            Some(name) => Ok(name@),
            None => match existing {
                Some(name) => Ok(name),
                None => match inferred {
                    Some(name) => Ok(name),
                    None => Err(DescriptionError::NoClass),
                },
            },
        }
    }
}

/// Decides what class a description gives.
pub fn describe_class(metadata: &MetadataSidecar, has_target: bool, existing: &Option<String>, inferred: &Option<String>) -> (r: Result<
    String,
    DescriptionError,
>)
    ensures
        match r {
            Ok(name) => described_class(*metadata, has_target, opt_text(*existing), opt_text(*inferred)) == Ok::<
                Seq<char>,
                DescriptionError,
            >(name@),
            Err(e) => described_class(*metadata, has_target, opt_text(*existing), opt_text(*inferred)) == Err::<
                Seq<char>,
                DescriptionError,
            >(e),
        },
{
    match metadata.schema_version {
        Some(version) => {
            if version != 1 {
                return Err(DescriptionError::SchemaVersion);
            }
        },
        None => {},
    }
    if !has_target {
        return Err(DescriptionError::NoTarget);
    }
    match &metadata.class_name {
        Some(name) => Ok(name.clone()),
        None => match existing {
            Some(name) => Ok(name.clone()),
            None => match inferred {
                Some(name) => Ok(name.clone()),
                None => Err(DescriptionError::NoClass),
            },
        },
    }
}

/// What stood at a path, by its key.
pub open spec fn kind_then(shape: Map<Seq<char>, SourceKind>, key: Seq<char>) -> SourceKind {
    match value_of(shape, key) {
        Some(kind) => kind,
        None => SourceKind::Missing,
    }
}

impl View for SourceKind {
    type V = SourceKind;

    open spec fn view(&self) -> SourceKind {
        *self
    }
}

/// Some changed path is now of another kind than it was.
pub open spec fn shape_differs(shape: Map<Seq<char>, SourceKind>, files: Map<PathParts, FactModel>, changed: Seq<PathParts>) -> bool {
    exists|i: int|
        0 <= i < changed.len() && kind_then(shape, key_at(files, #[trigger] changed[i])) != own_kind_at(
            files,
            changed[i],
        )
}

/// Whether some changed path is now of another kind than it was.
pub fn source_shape_changed(shape: &Table<String, SourceKind>, files: &Files, changed: &Vec<FilePath>) -> (r: bool)
    ensures
        r == shape_differs(shape@, files@, path_views(changed@)),
{
    let ghost all = path_views(changed@);
    let mut i: usize = 0;
    while i < changed.len()
        invariant
            i <= changed.len(),
            all == path_views(changed@),
            forall|j: int|
                0 <= j < i ==> kind_then(shape@, key_at(files@, #[trigger] all[j])) == own_kind_at(files@, all[j]),
        decreases changed.len() - i,
    {
        assert(all[i as int] == changed@[i as int]@);
        let key = files.key(&changed[i]);
        let before = match shape.get(&key) {
            Some(kind) => *kind,
            None => SourceKind::Missing,
        };
        if before != files.own_kind(&changed[i]) {
            return true;
        }
        i += 1;
    }
    false
}

/// A path that changed: whether it is the project itself, and where it is staged.
pub struct ChangedSource {
    pub source: FilePath,
    pub is_project: bool,
    pub relatives: Vec<FilePath>,
}

/// A staged path is below a service.
pub open spec fn is_below_service(relative: PathParts) -> bool {
    !relative.rooted && relative.parts.len() > 0 && relative.parts[0] != ".."@ && relative.parts[0] != "."@
}

pub open spec fn all_below_services(relatives: Seq<PathParts>) -> bool {
    forall|i: int| 0 <= i < relatives.len() ==> is_below_service(#[trigger] relatives[i])
}

/// A change can be taken up by staging services anew.
pub open spec fn is_local(change: ChangedSource) -> bool {
    !change.is_project && change.relatives@.len() > 0 && all_below_services(path_views(change.relatives@))
}

/// A service that the first `n` changes touch.
pub open spec fn touches(changes: Seq<ChangedSource>, service: Seq<char>, n: nat) -> bool {
    exists|i: int, j: int|
        0 <= i < n && 0 <= j < changes[i].relatives@.len() && (#[trigger] changes[i].relatives@[j])@.parts[0] == service
}

fn insert_services(change: &ChangedSource, out: &mut SortedSet<String>) -> (r: bool)
    requires
        ascending::<String>(old(out)@),
    ensures
        r == all_below_services(path_views(change.relatives@)),
        ascending::<String>(final(out)@),
        r ==> forall|s: Seq<char>| #[trigger]
            final(out)@.contains(s) <==> old(out)@.contains(s) || exists|j: int|
                0 <= j < change.relatives@.len() && (#[trigger] change.relatives@[j])@.parts[0] == s,
{
    let ghost all = path_views(change.relatives@);
    let ghost start = out@;
    let mut j: usize = 0;
    while j < change.relatives.len()
        invariant
            j <= change.relatives.len(),
            all == path_views(change.relatives@),
            ascending::<String>(out@),
            forall|k: int| 0 <= k < j ==> is_below_service(#[trigger] all[k]),
            forall|s: Seq<char>| #[trigger]
                out@.contains(s) <==> start.contains(s) || exists|k: int|
                    0 <= k < j && (#[trigger] change.relatives@[k])@.parts[0] == s,
        decreases change.relatives.len() - j,
    {
        let relative = &change.relatives[j];
        assert(all[j as int] == relative@);
        assert(relative@.parts.len() == relative.parts@.len());
        if relative.rooted || relative.parts.len() == 0 {
            return false;
        }
        assert(relative@.parts[0] == relative.parts@[0]@);
        if same(&relative.parts[0], "..") || same(&relative.parts[0], ".") {
            return false;
        }
        let ghost before = out@;
        out.insert(relative.parts[0].clone());
        let ghost now = change.relatives@[j as int];
        assert forall|s: Seq<char>| #[trigger]
            out@.contains(s) <==> start.contains(s) || exists|k: int|
                0 <= k < j + 1 && (#[trigger] change.relatives@[k])@.parts[0] == s by {
            assert(before.contains(s) <==> start.contains(s) || exists|k: int|
                0 <= k < j && (#[trigger] change.relatives@[k])@.parts[0] == s);
            if exists|k: int| 0 <= k < j + 1 && (#[trigger] change.relatives@[k])@.parts[0] == s {
                let k = choose|k: int| 0 <= k < j + 1 && (#[trigger] change.relatives@[k])@.parts[0] == s;
                if k < j {
                    assert(before.contains(s));
                }
            }
        }
        j += 1;
    }
    true
}

/// Lists the services that changes touch, in order and each once; nothing where the whole projection
/// has to be built anew.
pub fn changed_services(changes: &Vec<ChangedSource>) -> (r: Option<Vec<String>>)
    ensures
        match r {
            Some(services) => {
                &&& forall|i: int| 0 <= i < changes@.len() ==> is_local(#[trigger] changes@[i])
                &&& ascending::<String>(key_views(services@))
                &&& forall|s: Seq<char>| #[trigger]
                    key_views(services@).contains(s) <==> touches(changes@, s, changes@.len())
            },
            None => exists|i: int| 0 <= i < changes@.len() && !is_local(#[trigger] changes@[i]),
        },
{
    let mut out: SortedSet<String> = SortedSet::new();
    let mut i: usize = 0;
    while i < changes.len()
        invariant
            i <= changes.len(),
            ascending::<String>(out@),
            forall|k: int| 0 <= k < i ==> is_local(#[trigger] changes@[k]),
            forall|s: Seq<char>| #[trigger] out@.contains(s) <==> touches(changes@, s, i as nat),
        decreases changes.len() - i,
    {
        let ghost before = out@;
        let ghost now = changes@[i as int];
        if changes[i].is_project || changes[i].relatives.len() == 0 {
            assert(!is_local(changes@[i as int]));
            return None;
        }
        if !insert_services(&changes[i], &mut out) {
            assert(!is_local(changes@[i as int]));
            return None;
        }
        assert forall|s: Seq<char>| #[trigger] out@.contains(s) <==> touches(changes@, s, (i + 1) as nat) by {
            assert(before.contains(s) <==> touches(changes@, s, i as nat));
            if touches(changes@, s, (i + 1) as nat) {
                let (a, b) = choose|a: int, b: int|
                    0 <= a < i + 1 && 0 <= b < changes@[a].relatives@.len() && (#[trigger] changes@[a].relatives@[b])@.parts[0]
                        == s;
                if a < i {
                    assert(changes@[a].relatives@[b]@.parts[0] == s);
                    assert(touches(changes@, s, i as nat));
                } else {
                    assert(now.relatives@[b]@.parts[0] == s);
                }
            }
            if touches(changes@, s, i as nat) {
                let (a, b) = choose|a: int, b: int|
                    0 <= a < i && 0 <= b < changes@[a].relatives@.len() && (#[trigger] changes@[a].relatives@[b])@.parts[0] == s;
                assert(changes@[a].relatives@[b]@.parts[0] == s);
                assert(touches(changes@, s, (i + 1) as nat));
            }
            if exists|b: int| 0 <= b < now.relatives@.len() && (#[trigger] now.relatives@[b])@.parts[0] == s {
                let b = choose|b: int| 0 <= b < now.relatives@.len() && (#[trigger] now.relatives@[b])@.parts[0] == s;
                assert(changes@[i as int].relatives@[b]@.parts[0] == s);
                assert(touches(changes@, s, (i + 1) as nat));
            }
        }
        i += 1;
    }
    Some(out.into_items())
}

/// What is done about a projection that was kept.
#[derive(PartialEq, Eq, Structural, Clone, Copy, Debug)]
pub enum CacheStep {
    /// It is built for the first time.
    Create,
    /// It is built anew.
    Recreate,
    /// It is kept, and changes are taken up.
    Keep,
}

/// Decides what is done about a projection that was kept: one of another state of the project, or whose
/// directory is gone, does not count.
pub fn cache_step(kept: bool, same_project: bool, root_is_there: bool, local: bool) -> (r: CacheStep)
    ensures
        r == if !(kept && same_project && root_is_there) {
            CacheStep::Create
        } else if !local {
            CacheStep::Recreate
        } else {
            CacheStep::Keep
        },
{
    if !(kept && same_project && root_is_there) {
        CacheStep::Create
    } else if !local {
        CacheStep::Recreate
    } else {
        CacheStep::Keep
    }
}

/// A script that is copied over its staged copy.
pub struct ScriptPatch {
    pub change: usize,
    pub destination: FilePath,
}

#[verifier::ext_equal]
pub struct PatchModel {
    pub change: usize,
    pub destination: PathParts,
}

impl View for ScriptPatch {
    type V = PatchModel;

    open spec fn view(&self) -> PatchModel {
        PatchModel { change: self.change, destination: self.destination@ }
    }
}

pub open spec fn patch_views(v: Seq<ScriptPatch>) -> Seq<PatchModel> {
    Seq::new(v.len(), |i: int| v[i]@)
}

pub open spec fn script_extensions() -> Seq<Seq<char>> {
    seq!["lua"@, "luau"@]
}

/// The copies for the staged places of a change from the `j`th on.
pub open spec fn change_patches(
    root: PathParts,
    files: Map<PathParts, FactModel>,
    change: usize,
    relatives: Seq<PathParts>,
    j: int,
) -> Option<Seq<PatchModel>>
    decreases relatives.len() - j,
{
    if j < 0 || j >= relatives.len() {
        Some(Seq::empty())
    } else {
        let destination = joined_path(root, relatives[j]);
        if !has_extension(relatives[j], script_extensions()) || kind_at(files, destination) != SourceKind::File {
            None
        } else {
            match change_patches(root, files, change, relatives, j + 1) {
                Some(rest) => Some(seq![PatchModel { change, destination }] + rest),
                None => None,
            }
        }
    }
}

/// The copies for the changes from the `i`th on; nothing where copying scripts is not enough.
pub open spec fn patches_from(root: PathParts, files: Map<PathParts, FactModel>, changes: Seq<ChangedSource>, i: int) -> Option<
    Seq<PatchModel>,
>
    decreases changes.len() - i,
{
    if i < 0 || i >= changes.len() {
        Some(Seq::empty())
    } else {
        let change = changes[i];
        if kind_at(files, change.source@) != SourceKind::File || !has_extension(change.source@, script_extensions())
            || change.relatives@.len() == 0 {
            None
        } else {
            match change_patches(root, files, i as usize, path_views(change.relatives@), 0) {
                None => None,
                Some(first) => match patches_from(root, files, changes, i + 1) {
                    Some(rest) => Some(first + rest),
                    None => None,
                },
            }
        }
    }
}

fn script_extension_list() -> (r: Vec<String>)
    ensures
        texts(r@) == script_extensions(),
{
    let mut r: Vec<String> = Vec::new();
    r.push("lua".to_owned());
    r.push("luau".to_owned());
    assert(texts(r@) =~= script_extensions());
    r
}

fn append_patches(root: &FilePath, files: &Files, change: usize, relatives: &Vec<FilePath>, out: &mut Vec<ScriptPatch>) -> (r: bool)
    ensures
        match change_patches(root@, files@, change, path_views(relatives@), 0) {
            Some(list) => r && patch_views(final(out)@) == patch_views(old(out)@) + list,
            None => !r,
        },
{
    let extensions = script_extension_list();
    let ghost all = path_views(relatives@);
    let ghost start = patch_views(out@);
    let ghost whole = change_patches(root@, files@, change, all, 0);
    let ghost mut done: Seq<PatchModel> = Seq::empty();
    let mut j: usize = 0;
    proof {
        assert(start + done =~= start);
        if whole is Some {
            assert(done + whole->0 =~= whole->0);
        }
    }
    while j < relatives.len()
        invariant
            j <= relatives.len(),
            all == path_views(relatives@),
            texts(extensions@) == script_extensions(),
            start == patch_views(old(out)@),
            patch_views(out@) == start + done,
            whole == change_patches(root@, files@, change, all, 0),
            whole == match change_patches(root@, files@, change, all, j as int) {
                Some(rest) => Some(done + rest),
                None => None,
            },
        decreases relatives.len() - j,
    {
        assert(all[j as int] == relatives@[j as int]@);
        let ghost rest = change_patches(root@, files@, change, all, j + 1);
        let destination = root.join(&relatives[j]);
        if !path_extension_is(&relatives[j], &extensions) || files.kind(&destination) != SourceKind::File {
            return false;
        }
        let ghost before = out@;
        let x = ScriptPatch { change, destination };
        out.push(x);
        proof {
            assert(patch_views(out@) =~= patch_views(before).push(x@));
            let earlier = done;
            assert(patch_views(out@) =~= start + earlier.push(x@));
            if rest is Some {
                assert(earlier + (seq![x@] + rest->0) =~= earlier.push(x@) + rest->0);
            }
            done = earlier.push(x@);
        }
        j += 1;
    }
    assert(done + Seq::<PatchModel>::empty() =~= done);
    true
}

/// Plans the copies of changed scripts over their staged copies; nothing where that is not enough.
pub fn plan_script_patches(root: &FilePath, files: &Files, changes: &Vec<ChangedSource>) -> (r: Option<Vec<ScriptPatch>>)
    ensures
        match patches_from(root@, files@, changes@, 0) {
            Some(list) => r is Some && patch_views(r->0@) == list,
            None => r is None,
        },
{
    let extensions = script_extension_list();
    let mut out: Vec<ScriptPatch> = Vec::new();
    assert(patch_views(out@) =~= Seq::empty());
    let ghost whole = patches_from(root@, files@, changes@, 0);
    let mut i: usize = 0;
    proof {
        if whole is Some {
            assert(patch_views(out@) + whole->0 =~= whole->0);
        }
    }
    while i < changes.len()
        invariant
            i <= changes.len(),
            texts(extensions@) == script_extensions(),
            whole == patches_from(root@, files@, changes@, 0),
            whole == match patches_from(root@, files@, changes@, i as int) {
                Some(rest) => Some(patch_views(out@) + rest),
                None => None,
            },
        decreases changes.len() - i,
    {
        let change = &changes[i];
        let ghost rest = patches_from(root@, files@, changes@, i + 1);
        if files.kind(&change.source) != SourceKind::File || !path_extension_is(&change.source, &extensions)
            || change.relatives.len() == 0 {
            return None;
        }
        let ghost before = patch_views(out@);
        if !append_patches(root, files, i, &change.relatives, &mut out) {
            return None;
        }
        proof {
            let first = change_patches(root@, files@, i, path_views(change.relatives@), 0)->0;
            if rest is Some {
                assert(before + (first + rest->0) =~= (before + first) + rest->0);
            }
        }
        i += 1;
    }
    assert(patch_views(out@) + Seq::<PatchModel>::empty() =~= patch_views(out@));
    Some(out)
}

} // verus!
