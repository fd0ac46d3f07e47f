//! Bringing the targets of links up to date with their sources.
use vstd::prelude::*;
use crate::table::Key;

use crate::link_remove::{paths_of, KeyedPath, PathModel};
use crate::links::{
    copy_opt, hold_target, opt_text, refs, targets_hold, LinkLockEntry, LinkManifest, LinkTargetRef, LockModel, ManifestModel,
    RefModel, TargetKey, TargetLock, TargetLockModel, TargetModel,
};
use crate::text::{holds_text, lemma_texts_push, same, texts};

verus! {

broadcast use vstd::seq_lib::group_seq_properties;

/// What is known of a target that a package fills, and of the package.
pub struct PackageFacts {
    /// The instance that the target names is there.
    pub target_exists: bool,
    /// It holds what the package holds.
    pub target_matches: bool,
    /// The hash of the package file, where it could be read.
    pub package_hash: Option<String>,
    pub package_fingerprint: String,
    /// The fingerprint of what the target holds.
    pub target_fingerprint: Option<String>,
}

#[verifier::ext_equal]
pub struct FactsModel {
    pub target_exists: bool,
    pub target_matches: bool,
    pub package_hash: Option<Seq<char>>,
    pub package_fingerprint: Seq<char>,
    pub target_fingerprint: Option<Seq<char>>,
}

impl View for PackageFacts {
    type V = FactsModel;

    open spec fn view(&self) -> FactsModel {
        FactsModel {
            target_exists: self.target_exists,
            target_matches: self.target_matches,
            package_hash: opt_text(self.package_hash),
            package_fingerprint: self.package_fingerprint@,
            target_fingerprint: opt_text(self.target_fingerprint),
        }
    }
}

/// How a link is applied to one target.
#[derive(PartialEq, Eq, Structural, Clone, Copy, Debug)]
pub struct ApplyMode {
    /// Only tell what would change.
    pub check: bool,
    /// Overwrite the target, whatever it holds.
    pub forced: bool,
    /// The target may not be edited.
    pub read_only: bool,
}

/// What is done with a target that a package fills.
#[derive(PartialEq, Eq, Structural, Clone, Copy, Debug)]
pub enum PackageStep {
    /// The target was applied before and is gone: it is marked broken.
    MarkDeleted,
    /// Only a check: whether it would change.
    Check { differs: bool },
    /// The package is put into the target, unless the target holds it already, and recorded.
    Fill { replace: bool },
    /// Nothing is changed, but the target counts as changed.
    Touch,
    /// The fingerprint of the package is recorded.
    Record,
    /// The edits in the target are kept; with a conflict both sides changed.
    Preserve { conflict: bool },
    /// The target is up to date.
    Keep,
}

/// What was decided for a target, and what is told of it.
#[derive(PartialEq, Eq, Structural, Clone, Copy, Debug)]
pub struct PackageDecision {
    pub step: PackageStep,
    pub skipped: bool,
    pub forced: bool,
    pub target_drift: bool,
    pub preserved_edits: bool,
    pub conflict: bool,
}

/// The value of a key, where it is there.
pub open spec fn value_of<K, V>(m: Map<K, V>, key: K) -> Option<V> {
    if m.dom().contains(key) {
        Some(m[key])
    } else {
        None
    }
}

/// The package was recorded with another hash.
pub open spec fn package_changed(facts: FactsModel, previous: Option<Seq<char>>) -> bool {
    previous is Some && facts.package_hash is Some && previous != facts.package_hash
}

/// The target holds something other than what was recorded.
pub open spec fn target_changed(facts: FactsModel, previous: Option<Seq<char>>) -> bool {
    previous is Some && facts.target_fingerprint != previous
}

/// The target holds the package, and the lock says so.
pub open spec fn package_unchanged(facts: FactsModel, previous: Option<Seq<char>>) -> bool {
    facts.target_exists && facts.target_matches && facts.package_hash is Some && previous == facts.package_hash
}

/// Both a package and its writable target changed since they were last the same.
pub open spec fn package_conflict(
    facts: FactsModel,
    read_only: bool,
    previous_hash: Option<Seq<char>>,
    previous_target: Option<Seq<char>>,
) -> bool {
    !read_only && previous_hash is Some && previous_target is Some && package_changed(facts, previous_hash)
        && target_changed(facts, previous_target) && !facts.target_matches
}

/// A writable target differs from its package by edits of its own: nothing is recorded to compare
/// with, or only the target changed, or both did.
pub open spec fn package_edits(
    facts: FactsModel,
    read_only: bool,
    previous_hash: Option<Seq<char>>,
    previous_target: Option<Seq<char>>,
) -> bool {
    !read_only && facts.target_exists && !facts.target_matches && ((previous_hash is None || previous_target is None)
        || (target_changed(facts, previous_target) && !package_changed(facts, previous_hash)) || package_conflict(
        facts,
        read_only,
        previous_hash,
        previous_target,
    ))
}

/// What is decided for a target.
pub open spec fn decided(
    facts: FactsModel,
    mode: ApplyMode,
    previous_hash: Option<Seq<char>>,
    previous_target: Option<Seq<char>>,
) -> PackageDecision {
    let unchanged = package_unchanged(facts, previous_hash);
    let conflict = package_conflict(facts, mode.read_only, previous_hash, previous_target);
    let edits = package_edits(facts, mode.read_only, previous_hash, previous_target);
    let step = if !facts.target_exists && previous_hash is Some && !mode.forced {
        PackageStep::MarkDeleted
    } else if mode.check {
        PackageStep::Check { differs: !unchanged }
    } else if !unchanged && (!edits || mode.forced) {
        PackageStep::Fill { replace: !facts.target_matches }
    } else if mode.forced {
        PackageStep::Touch
    } else if !edits && previous_target != Some(facts.package_fingerprint) {
        PackageStep::Record
    } else if edits {
        PackageStep::Preserve { conflict }
    } else {
        PackageStep::Keep
    };
    PackageDecision {
        step,
        skipped: unchanged || edits,
        forced: mode.forced && (unchanged || edits),
        target_drift: facts.target_exists && !facts.target_matches,
        preserved_edits: edits,
        conflict,
    }
}

fn same_opt(a: Option<&String>, b: Option<&String>) -> (r: bool)
    ensures
        r == (match a {
            Some(x) => Some(x@),
            None => None,
        } == match b {
            Some(x) => Some(x@),
            None => None,
        }),
{
    match (a, b) {
        (Some(x), Some(y)) => same(x, y),
        (None, None) => true,
        _ => false,
    }
}

/// Decides what to do with a target that a package fills.
pub fn decide_package(facts: &PackageFacts, mode: ApplyMode, lock: &LinkLockEntry, key: &TargetKey) -> (r: PackageDecision)
    ensures
        r == decided(facts@, mode, value_of(lock@.packages, key@), value_of(lock@.package_targets, key@)),
{
    let previous_hash = lock.packages.get(key);
    let previous_target = lock.package_targets.get(key);
    let unchanged = facts.target_exists && facts.target_matches && facts.package_hash.is_some() && same_opt(
        previous_hash,
        facts.package_hash.as_ref(),
    );
    let package_changed = previous_hash.is_some() && facts.package_hash.is_some() && !same_opt(
        previous_hash,
        facts.package_hash.as_ref(),
    );
    let target_changed = previous_target.is_some() && !same_opt(facts.target_fingerprint.as_ref(), previous_target);
    let baseline = previous_hash.is_some() && previous_target.is_some();
    let conflict = !mode.read_only && baseline && package_changed && target_changed && !facts.target_matches;
    let edits = !mode.read_only && facts.target_exists && !facts.target_matches && (!baseline || (target_changed
        && !package_changed) || conflict);
    let recorded = match previous_target {
        Some(previous) => same(previous, &facts.package_fingerprint),
        None => false,
    };
    let step = if !facts.target_exists && previous_hash.is_some() && !mode.forced {
        PackageStep::MarkDeleted
    } else if mode.check {
        PackageStep::Check { differs: !unchanged }
    } else if !unchanged && (!edits || mode.forced) {
        PackageStep::Fill { replace: !facts.target_matches }
    } else if mode.forced {
        PackageStep::Touch
    } else if !edits && !recorded {
        PackageStep::Record
    } else if edits {
        PackageStep::Preserve { conflict }
    } else {
        PackageStep::Keep
    };
    PackageDecision {
        step,
        skipped: unchanged || edits,
        forced: mode.forced && (unchanged || edits),
        target_drift: facts.target_exists && !facts.target_matches,
        preserved_edits: edits,
        conflict,
    }
}

/// A target that may not be edited is filled again whenever it differs from its package.
pub proof fn law_read_only_target_follows(
    facts: FactsModel,
    mode: ApplyMode,
    previous_hash: Option<Seq<char>>,
    previous_target: Option<Seq<char>>,
)
    requires
        mode.read_only,
        !mode.check,
        facts.target_exists,
        !facts.target_matches,
    ensures
        decided(facts, mode, previous_hash, previous_target).step == (PackageStep::Fill { replace: true }),
{
}

/// Edits in a writable target are never overwritten unless that was asked for.
pub proof fn law_edits_are_preserved(
    facts: FactsModel,
    mode: ApplyMode,
    previous_hash: Option<Seq<char>>,
    previous_target: Option<Seq<char>>,
)
    requires
        !mode.forced,
        package_edits(facts, mode.read_only, previous_hash, previous_target),
    ensures
        decided(facts, mode, previous_hash, previous_target).step !is Fill,
        decided(facts, mode, previous_hash, previous_target).preserved_edits,
{
}

/// An update of a package reaches every target that nobody touched: where both the package and the target
/// were recorded, the target is still what was recorded, and the package is another, the target is filled,
/// whether or not it may be edited, and no edits are told of.
pub proof fn law_untouched_target_takes_the_new_package(
    facts: FactsModel,
    mode: ApplyMode,
    previous_hash: Option<Seq<char>>,
    previous_target: Option<Seq<char>>,
)
    requires
        previous_hash is Some,
        previous_target is Some,
        facts.target_exists,
        facts.target_fingerprint == previous_target,
        facts.package_hash is Some,
        facts.package_hash != previous_hash,
        !mode.check,
        !mode.forced,
    ensures
        ({
            let d = decided(facts, mode, previous_hash, previous_target);
            &&& d.step == (PackageStep::Fill { replace: !facts.target_matches })
            &&& !d.preserved_edits
            &&& !d.conflict
            &&& !d.skipped
        }),
{
}

/// A target has edits of its own exactly where it may be edited, is there, is not what the package holds, and
/// is not known to be what was last put there. They stay, unless force is asked for, and a conflict is told
/// of exactly where both the package and the target are other than what was recorded.
pub proof fn law_edits_stay_where_the_target_was_touched(
    facts: FactsModel,
    mode: ApplyMode,
    previous_hash: Option<Seq<char>>,
    previous_target: Option<Seq<char>>,
)
    ensures
        ({
            let d = decided(facts, mode, previous_hash, previous_target);
            let as_recorded = previous_hash is Some && previous_target is Some && facts.target_fingerprint == previous_target;
            &&& d.preserved_edits <==> !mode.read_only && facts.target_exists && !facts.target_matches && !as_recorded
            &&& d.conflict <==> !mode.read_only && !facts.target_matches && previous_hash is Some && previous_target is Some
                && facts.package_hash is Some && facts.package_hash != previous_hash && facts.target_fingerprint
                != previous_target
            &&& d.step is Preserve <==> !mode.read_only && facts.target_exists && !facts.target_matches && !as_recorded
                && !mode.check && !mode.forced
            &&& d.step is Preserve ==> d.step == (PackageStep::Preserve { conflict: d.conflict })
        }),
{
}

/// A target that was applied before and is gone is marked, unless force is asked for; nothing else is.
pub proof fn law_gone_target_is_marked(
    facts: FactsModel,
    mode: ApplyMode,
    previous_hash: Option<Seq<char>>,
    previous_target: Option<Seq<char>>,
)
    ensures
        decided(facts, mode, previous_hash, previous_target).step is MarkDeleted <==> !facts.target_exists && previous_hash is Some
            && !mode.forced,
{
}

/// A check tells of a difference unless the target holds the package that was recorded, and does nothing.
pub proof fn law_a_check_tells_of_every_difference(
    facts: FactsModel,
    mode: ApplyMode,
    previous_hash: Option<Seq<char>>,
    previous_target: Option<Seq<char>>,
)
    requires
        mode.check,
    ensures
        ({
            let step = decided(facts, mode, previous_hash, previous_target).step;
            let up_to_date = facts.target_exists && facts.target_matches && facts.package_hash is Some && facts.package_hash
                == previous_hash;
            &&& step is MarkDeleted || step == (PackageStep::Check { differs: !up_to_date })
            &&& facts.target_exists || previous_hash is None ==> step is Check
        }),
{
}

/// A target that holds the package that was recorded is left as it is: it is counted as changed by force,
/// its fingerprint is recorded where another was, and else nothing happens.
pub proof fn law_up_to_date_target_is_left(
    facts: FactsModel,
    mode: ApplyMode,
    previous_hash: Option<Seq<char>>,
    previous_target: Option<Seq<char>>,
)
    requires
        facts.target_exists,
        facts.target_matches,
        facts.package_hash is Some,
        facts.package_hash == previous_hash,
        !mode.check,
    ensures
        ({
            let d = decided(facts, mode, previous_hash, previous_target);
            &&& mode.forced ==> d.step is Touch && d.forced
            &&& !mode.forced && previous_target != Some(facts.package_fingerprint) ==> d.step is Record
            &&& !mode.forced && previous_target == Some(facts.package_fingerprint) ==> d.step is Keep
            &&& d.skipped
            &&& !d.target_drift
        }),
{
}

/// Where the target is not up to date, force always fills it, and one that already holds the package, or is
/// not there and was never applied, is filled without it. Only a target that differs is replaced.
pub proof fn law_target_is_filled(
    facts: FactsModel,
    mode: ApplyMode,
    previous_hash: Option<Seq<char>>,
    previous_target: Option<Seq<char>>,
)
    requires
        !mode.check,
        !(facts.target_exists && facts.target_matches && facts.package_hash is Some && facts.package_hash == previous_hash),
        mode.forced || facts.target_exists && facts.target_matches || !facts.target_exists && previous_hash is None,
    ensures
        decided(facts, mode, previous_hash, previous_target).step == (PackageStep::Fill { replace: !facts.target_matches }),
        decided(facts, mode, previous_hash, previous_target).target_drift == (facts.target_exists && !facts.target_matches),
{
}

/// What is told of a target follows from what was found: it is skipped where it is up to date or has edits
/// that stay, forced where force met such a target, and has drifted where it is there and differs.
pub proof fn law_what_is_told_of_a_target(
    facts: FactsModel,
    mode: ApplyMode,
    previous_hash: Option<Seq<char>>,
    previous_target: Option<Seq<char>>,
)
    ensures
        ({
            let d = decided(facts, mode, previous_hash, previous_target);
            let up_to_date = facts.target_exists && facts.target_matches && facts.package_hash is Some && facts.package_hash
                == previous_hash;
            &&& d.skipped <==> up_to_date || d.preserved_edits
            &&& d.forced <==> mode.forced && (up_to_date || d.preserved_edits)
            &&& d.target_drift <==> facts.target_exists && !facts.target_matches
        }),
{
}

/// What a step leaves in the lock: the hash and the fingerprint of what the target was filled from,
/// and the settings id of the instance that it names.
pub open spec fn lock_after_step(
    entry: LockModel,
    key: TargetModel,
    step: PackageStep,
    facts: FactsModel,
    root_id: Option<Seq<char>>,
) -> LockModel {
    let fills = step is Fill;
    let records = fills || step is Record;
    let files = if entry.targets.dom().contains(key) {
        entry.targets[key].files
    } else {
        Map::empty()
    };
    if step is MarkDeleted {
        entry
    } else {
        LockModel {
            resolved_ref: entry.resolved_ref,
            packages: if fills && facts.package_hash is Some {
                entry.packages.insert(key, facts.package_hash->0)
            } else {
                entry.packages
            },
            package_targets: if records {
                entry.package_targets.insert(key, facts.package_fingerprint)
            } else {
                entry.package_targets
            },
            targets: entry.targets.insert(key, TargetLockModel { settings_id: root_id, files }),
        }
    }
}

/// Records a step in the lock.
pub fn record_package_step(
    entry: &mut LinkLockEntry,
    key: &TargetKey,
    step: PackageStep,
    facts: &PackageFacts,
    root_id: &Option<String>,
)
    ensures
        final(entry)@ == lock_after_step(old(entry)@, key@, step, facts@, opt_text(*root_id)),
{
    let ghost before = entry@;
    let (fills, records) = match step {
        PackageStep::MarkDeleted => {
            return;
        },
        PackageStep::Fill { replace } => (true, true),
        PackageStep::Record => (false, true),
        _ => (false, false),
    };
    if fills {
        match &facts.package_hash {
            Some(hash) => {
                entry.packages.put(key.copy_key(), hash.clone());
            },
            None => {},
        }
    }
    if records {
        entry.package_targets.put(key.copy_key(), facts.package_fingerprint.clone());
    }
    let mut target = match entry.targets.take(key) {
        Some(target) => target,
        None => TargetLock::new(),
    };
    target.settings_id = copy_opt(root_id);
    entry.targets.put(key.copy_key(), target);
    assert(entry@.targets =~= lock_after_step(before, key@, step, facts@, opt_text(*root_id)).targets);
}

/// Filling a target records the hash and the fingerprint of the package for it, and the instance that it now
/// names. What is recorded of other targets stays, whatever the step.
pub proof fn law_a_step_is_recorded_for_its_target(
    entry: LockModel,
    key: TargetModel,
    step: PackageStep,
    facts: FactsModel,
    root_id: Option<Seq<char>>,
    other: TargetModel,
)
    requires
        other != key,
    ensures
        ({
            let after = lock_after_step(entry, key, step, facts, root_id);
            &&& step is Fill && facts.package_hash is Some ==> value_of(after.packages, key) == facts.package_hash
            &&& step is Fill || step is Record ==> value_of(after.package_targets, key) == Some(facts.package_fingerprint)
            &&& !(step is Fill) ==> after.packages == entry.packages
            &&& !(step is Fill || step is Record) ==> after.package_targets == entry.package_targets
            &&& step is MarkDeleted ==> after == entry
            &&& !(step is MarkDeleted) ==> after.targets.dom().contains(key) && after.targets[key].settings_id == root_id
            &&& entry.targets.dom().contains(key) ==> after.targets.dom().contains(key) && after.targets[key].files
                == entry.targets[key].files
            &&& after.resolved_ref == entry.resolved_ref
            &&& value_of(after.packages, other) == value_of(entry.packages, other)
            &&& value_of(after.package_targets, other) == value_of(entry.package_targets, other)
            &&& value_of(after.targets, other) == value_of(entry.targets, other)
        }),
{
}

/// Once a target was filled from a package and holds it, applying the link again changes nothing.
pub proof fn law_filled_target_is_kept(
    entry: LockModel,
    key: TargetModel,
    facts: FactsModel,
    again: FactsModel,
    mode: ApplyMode,
    root_id: Option<Seq<char>>,
    replace: bool,
)
    requires
        facts.package_hash is Some,
        again.package_hash == facts.package_hash,
        again.package_fingerprint == facts.package_fingerprint,
        again.target_exists,
        again.target_matches,
        !mode.check,
        !mode.forced,
    ensures
        ({
            let after = lock_after_step(entry, key, PackageStep::Fill { replace }, facts, root_id);
            decided(again, mode, value_of(after.packages, key), value_of(after.package_targets, key)).step
                == PackageStep::Keep
        }),
{
}

/// What applying links changed so far.
pub struct LinkApplyChanges {
    pub changed_paths: Vec<KeyedPath>,
    pub settings_ids: Vec<String>,
    pub removals: Vec<KeyedPath>,
    pub processed_targets: u64,
    pub differences: u64,
    pub manifest_changed: bool,
}

#[verifier::ext_equal]
pub struct ChangesModel {
    pub changed_paths: Seq<PathModel>,
    pub settings_ids: Seq<Seq<char>>,
    pub removals: Seq<PathModel>,
    pub processed: nat,
    pub differences: nat,
    pub manifest_changed: bool,
}

impl View for LinkApplyChanges {
    type V = ChangesModel;

    open spec fn view(&self) -> ChangesModel {
        ChangesModel {
            changed_paths: paths_of(self.changed_paths@),
            settings_ids: texts(self.settings_ids@),
            removals: paths_of(self.removals@),
            processed: self.processed_targets as nat,
            differences: self.differences as nat,
            manifest_changed: self.manifest_changed,
        }
    }
}

/// Some paths with one more, unless one with its key is there.
pub open spec fn path_once(paths: Seq<PathModel>, p: PathModel) -> Seq<PathModel> {
    if crate::link_remove::has_path(paths, p.key) {
        paths
    } else {
        paths.push(p)
    }
}

/// A list with one more text, unless it is there.
pub open spec fn text_once(list: Seq<Seq<char>>, s: Seq<char>) -> Seq<Seq<char>> {
    if list.contains(s) {
        list
    } else {
        list.push(s)
    }
}

/// A list with the first `n` of some texts, each once.
pub open spec fn texts_once(list: Seq<Seq<char>>, more: Seq<Seq<char>>, n: nat) -> Seq<Seq<char>>
    decreases n,
{
    if n == 0 {
        list
    } else {
        text_once(texts_once(list, more, (n - 1) as nat), more[n - 1])
    }
}

pub fn copy_path(p: &KeyedPath) -> (r: KeyedPath)
    ensures
        r@ == p@,
{
    KeyedPath { path: p.path.clone(), key: p.key.clone() }
}

/// Adds a path to some paths, unless one with its key is there.
pub fn push_path_once(paths: &mut Vec<KeyedPath>, path: &KeyedPath)
    ensures
        paths_of(final(paths)@) == path_once(paths_of(old(paths)@), path@),
{
    let ghost all = paths_of(paths@);
    let mut i: usize = 0;
    while i < paths.len()
        invariant
            i <= paths.len(),
            all == paths_of(paths@),
            *paths == *old(paths),
            forall|j: int| 0 <= j < i ==> (#[trigger] all[j]).key != path@.key,
        decreases paths.len() - i,
    {
        if same(&paths[i].key, &path.key) {
            assert(all[i as int].key == path@.key);
            return;
        }
        i += 1;
    }
    let p = copy_path(path);
    assert(paths_of(paths@.push(p)) =~= all.push(p@));
    paths.push(p);
}

/// Adds some texts to a list, each once.
pub fn push_texts_once(list: &mut Vec<String>, more: &Vec<String>)
    ensures
        texts(final(list)@) == texts_once(texts(old(list)@), texts(more@), more@.len()),
{
    let ghost start = texts(list@);
    let mut i: usize = 0;
    while i < more.len()
        invariant
            i <= more.len(),
            texts(list@) == texts_once(start, texts(more@), i as nat),
            start == texts(old(list)@),
        decreases more.len() - i,
    {
        if !holds_text(list, &more[i]) {
            let s = more[i].clone();
            proof {
                lemma_texts_push(list@, s);
            }
            list.push(s);
        }
        i += 1;
    }
}

impl LinkApplyChanges {
    pub fn new() -> (r: LinkApplyChanges)
        ensures
            r@ == (ChangesModel {
                changed_paths: Seq::empty(),
                settings_ids: Seq::empty(),
                removals: Seq::empty(),
                processed: 0,
                differences: 0,
                manifest_changed: false,
            }),
    {
        let r = LinkApplyChanges {
            changed_paths: Vec::new(),
            settings_ids: Vec::new(),
            removals: Vec::new(),
            processed_targets: 0,
            differences: 0,
            manifest_changed: false,
        };
        assert(paths_of(r.changed_paths@) =~= Seq::<PathModel>::empty());
        assert(texts(r.settings_ids@) =~= Seq::<Seq<char>>::empty());
        r
    }

    /// Notes a changed path, once for each key.
    pub fn mark_path(&mut self, path: &KeyedPath)
        ensures
            final(self)@ == (ChangesModel {
                changed_paths: path_once(old(self)@.changed_paths, path@),
                ..old(self)@
            }),
    {
        push_path_once(&mut self.changed_paths, path);
    }

    /// Notes changed instances, each once.
    pub fn mark_settings_ids(&mut self, ids: &Vec<String>)
        ensures
            final(self)@ == (ChangesModel {
                settings_ids: texts_once(old(self)@.settings_ids, texts(ids@), ids@.len()),
                ..old(self)@
            }),
    {
        push_texts_once(&mut self.settings_ids, ids);
    }

    /// Notes a path that goes.
    pub fn remove_package_path(&mut self, path: KeyedPath)
        ensures
            final(self)@ == (ChangesModel {
                changed_paths: path_once(old(self)@.changed_paths, path@),
                removals: old(self)@.removals.push(path@),
                ..old(self)@
            }),
    {
        self.mark_path(&path);
        assert(paths_of(self.removals@.push(path)) =~= paths_of(self.removals@).push(path@));
        self.removals.push(path);
    }
}

/// The changes with the first `n` of some paths removed.
pub open spec fn paths_removed(c: ChangesModel, paths: Seq<PathModel>, n: nat) -> ChangesModel
    decreases n,
{
    if n == 0 {
        c
    } else {
        let before = paths_removed(c, paths, (n - 1) as nat);
        ChangesModel {
            changed_paths: path_once(before.changed_paths, paths[n - 1]),
            removals: before.removals.push(paths[n - 1]),
            ..before
        }
    }
}

/// A manifest in which a target is broken: it is added to the broken ones, unless it is there.
pub open spec fn with_broken_target(m: ManifestModel, target: RefModel) -> ManifestModel {
    if targets_hold(m.broken, target.key()) {
        m
    } else {
        ManifestModel { broken: m.broken.push(target), ..m }
    }
}

/// Marks a target broken, and says whether it was not yet.
pub fn mark_manifest_target_broken(manifest: &mut LinkManifest, target: &LinkTargetRef) -> (r: bool)
    ensures
        final(manifest)@ == with_broken_target(old(manifest)@, target@),
        r == !targets_hold(old(manifest)@.broken, target@.key()),
{
    let key = target.key();
    if hold_target(&manifest.broken, &key) {
        return false;
    }
    let t = target.copy();
    assert(refs(manifest.broken@.push(t)) =~= refs(manifest.broken@).push(t@));
    manifest.broken.push(t);
    true
}

/// What the work on a target found and did: the files that went, the instances that the package put
/// there, and those that the target covers at the end.
pub struct PackageWork {
    pub removals: Vec<KeyedPath>,
    pub filled_ids: Vec<String>,
    pub target_ids: Vec<String>,
    pub settings_file: KeyedPath,
}

/// The changes after a step.
pub open spec fn changes_after_step(
    c: ChangesModel,
    step: PackageStep,
    removals: Seq<PathModel>,
    filled: Seq<Seq<char>>,
    covered: Seq<Seq<char>>,
    settings_file: PathModel,
    newly_broken: bool,
) -> ChangesModel {
    let done = ChangesModel { processed: c.processed + 1, ..c };
    match step {
        PackageStep::MarkDeleted => ChangesModel {
            differences: c.differences + 1,
            manifest_changed: c.manifest_changed || newly_broken,
            ..done
        },
        PackageStep::Check { differs } => if differs {
            ChangesModel { differences: c.differences + 1, ..done }
        } else {
            done
        },
        PackageStep::Fill { replace } => if replace {
            let without = paths_removed(done, removals, removals.len());
            ChangesModel {
                settings_ids: texts_once(without.settings_ids, filled, filled.len()),
                changed_paths: path_once(without.changed_paths, settings_file),
                differences: c.differences + 1,
                ..without
            }
        } else {
            done
        },
        PackageStep::Touch => ChangesModel {
            settings_ids: texts_once(done.settings_ids, covered, covered.len()),
            changed_paths: if covered.len() > 0 {
                path_once(done.changed_paths, settings_file)
            } else {
                done.changed_paths
            },
            ..done
        },
        PackageStep::Preserve { conflict } => ChangesModel { differences: c.differences + 1, ..done },
        _ => done,
    }
}

proof fn lemma_removed_differences(c: ChangesModel, paths: Seq<PathModel>, n: nat)
    requires
        n <= paths.len(),
    ensures
        paths_removed(c, paths, n).processed == c.processed,
        paths_removed(c, paths, n).differences == c.differences,
    decreases n,
{
    if n > 0 {
        lemma_removed_differences(c, paths, (n - 1) as nat);
    }
}

/// Applies what was decided for a target to the manifest, the lock and the changes. The target itself
/// was filled before, where the step says so.
pub fn apply_package(
    target: &LinkTargetRef,
    decision: PackageDecision,
    facts: &PackageFacts,
    work: &PackageWork,
    check: bool,
    manifest: &mut LinkManifest,
    entry: &mut LinkLockEntry,
    changes: &mut LinkApplyChanges,
)
    requires
        old(changes).processed_targets < u64::MAX,
        old(changes).differences < u64::MAX,
    ensures
        final(entry)@ == lock_after_step(
            old(entry)@,
            target@.key(),
            decision.step,
            facts@,
            if work.target_ids@.len() > 0 {
                Some(work.target_ids@[0]@)
            } else {
                None
            },
        ),
        final(manifest)@ == if decision.step is MarkDeleted && !check {
            with_broken_target(old(manifest)@, target@)
        } else {
            old(manifest)@
        },
        final(changes)@ == changes_after_step(
            old(changes)@,
            decision.step,
            paths_of(work.removals@),
            texts(work.filled_ids@),
            texts(work.target_ids@),
            work.settings_file@,
            !check && !targets_hold(old(manifest)@.broken, target@.key()),
        ),
{
    let key = target.key();
    let ghost start = changes@;
    let root_id = if work.target_ids.len() > 0 {
        Some(work.target_ids[0].clone())
    } else {
        None
    };
    record_package_step(entry, &key, decision.step, facts, &root_id);
    changes.processed_targets = changes.processed_targets + 1;
    let ghost done = changes@;
    match decision.step {
        PackageStep::MarkDeleted => {
            if !check {
                let newly = mark_manifest_target_broken(manifest, target);
                changes.manifest_changed = changes.manifest_changed || newly;
            }
            changes.differences = changes.differences + 1;
        },
        PackageStep::Check { differs } => {
            if differs {
                changes.differences = changes.differences + 1;
            }
        },
        PackageStep::Fill { replace } => {
            if replace {
                let mut i: usize = 0;
                while i < work.removals.len()
                    invariant
                        i <= work.removals.len(),
                        changes@ == paths_removed(done, paths_of(work.removals@), i as nat),
                    decreases work.removals.len() - i,
                {
                    let p = copy_path(&work.removals[i]);
                    changes.remove_package_path(p);
                    i += 1;
                }
                proof {
                    lemma_removed_differences(done, paths_of(work.removals@), work.removals@.len());
                }
                changes.mark_settings_ids(&work.filled_ids);
                changes.mark_path(&work.settings_file);
                changes.differences = changes.differences + 1;
            }
        },
        PackageStep::Touch => {
            changes.mark_settings_ids(&work.target_ids);
            if work.target_ids.len() > 0 {
                changes.mark_path(&work.settings_file);
            }
        },
        PackageStep::Preserve { conflict } => {
            changes.differences = changes.differences + 1;
        },
        PackageStep::Record => {},
        PackageStep::Keep => {},
    }
}

proof fn lemma_texts_once(list: Seq<Seq<char>>, more: Seq<Seq<char>>, n: nat)
    requires
        n <= more.len(),
    ensures
        list.is_prefix_of(texts_once(list, more, n)),
        forall|s: Seq<char>| #[trigger]
            texts_once(list, more, n).contains(s) <==> list.contains(s) || more.take(n as int).contains(s),
        list.no_duplicates() ==> texts_once(list, more, n).no_duplicates(),
    decreases n,
{
    if n > 0 {
        lemma_texts_once(list, more, (n - 1) as nat);
        let before = texts_once(list, more, (n - 1) as nat);
        let after = texts_once(list, more, n);
        assert(more.take(n as int) =~= more.take(n - 1).push(more[n - 1]));
        assert forall|s: Seq<char>| #[trigger] after.contains(s) <==> list.contains(s) || more.take(n as int).contains(s) by {
            assert(before.contains(s) <==> list.contains(s) || more.take(n - 1).contains(s));
        }
    } else {
        assert(more.take(0) =~= Seq::empty());
    }
}

proof fn lemma_path_once(paths: Seq<PathModel>, p: PathModel)
    ensures
        paths.is_prefix_of(path_once(paths, p)),
        forall|key: Seq<char>| #[trigger]
            crate::link_remove::has_path(path_once(paths, p), key) <==> crate::link_remove::has_path(paths, key) || key == p.key,
{
    let after = path_once(paths, p);
    assert forall|key: Seq<char>| #[trigger]
        crate::link_remove::has_path(after, key) <==> crate::link_remove::has_path(paths, key) || key == p.key by {
        if crate::link_remove::has_path(paths, key) {
            let i = choose|i: int| 0 <= i < paths.len() && (#[trigger] paths[i]).key == key;
            assert(after[i].key == key);
        }
        if after.len() > paths.len() {
            assert(after[paths.len() as int].key == p.key);
        }
        if crate::link_remove::has_path(after, key) {
            let i = choose|i: int| 0 <= i < after.len() && (#[trigger] after[i]).key == key;
            if i < paths.len() {
                assert(paths[i].key == key);
            }
        }
    }
}

proof fn lemma_paths_removed(c: ChangesModel, paths: Seq<PathModel>, n: nat)
    requires
        n <= paths.len(),
    ensures
        paths_removed(c, paths, n).removals == c.removals + paths.take(n as int),
        paths_removed(c, paths, n).settings_ids == c.settings_ids,
        paths_removed(c, paths, n).manifest_changed == c.manifest_changed,
        c.changed_paths.is_prefix_of(paths_removed(c, paths, n).changed_paths),
        forall|i: int|
            0 <= i < n ==> crate::link_remove::has_path(paths_removed(c, paths, n).changed_paths, (#[trigger] paths[i]).key),
    decreases n,
{
    if n > 0 {
        lemma_paths_removed(c, paths, (n - 1) as nat);
        let before = paths_removed(c, paths, (n - 1) as nat);
        lemma_path_once(before.changed_paths, paths[n - 1]);
        assert(paths.take(n as int) =~= paths.take(n - 1).push(paths[n - 1]));
        assert(paths_removed(c, paths, n).removals =~= c.removals + paths.take(n as int));
    } else {
        assert(c.removals + paths.take(0) =~= c.removals);
    }
}

/// What was changed stays noted, and a step adds what it did: a target that is replaced takes away the files
/// of its sources, and notes each of them, the store of settings and every instance that was put there. A
/// step that leaves the target as it is notes no file and no instance. Every target is counted, and a
/// difference wherever the target was replaced, differs, has edits that stay, or is gone.
pub proof fn law_a_step_notes_what_it_did(
    c: ChangesModel,
    step: PackageStep,
    removals: Seq<PathModel>,
    filled: Seq<Seq<char>>,
    covered: Seq<Seq<char>>,
    settings_file: PathModel,
    newly_broken: bool,
)
    ensures
        ({
            let after = changes_after_step(c, step, removals, filled, covered, settings_file, newly_broken);
            let replaced = step == (PackageStep::Fill { replace: true });
            &&& after.processed == c.processed + 1
            &&& after.differences == c.differences + if replaced || step is Preserve || step is MarkDeleted || step
                == (PackageStep::Check { differs: true }) {
                1nat
            } else {
                0
            }
            &&& after.manifest_changed == (c.manifest_changed || (step is MarkDeleted && newly_broken))
            &&& replaced ==> after.removals == c.removals + removals
            &&& !replaced ==> after.removals == c.removals
            &&& c.changed_paths.is_prefix_of(after.changed_paths)
            &&& c.settings_ids.is_prefix_of(after.settings_ids)
            &&& replaced ==> crate::link_remove::has_path(after.changed_paths, settings_file.key) && (forall|i: int|
                0 <= i < removals.len() ==> crate::link_remove::has_path(after.changed_paths, (#[trigger] removals[i]).key))
            &&& replaced ==> forall|id: Seq<char>| #[trigger]
                after.settings_ids.contains(id) <==> c.settings_ids.contains(id) || filled.contains(id)
            &&& step is Touch ==> forall|id: Seq<char>| #[trigger]
                after.settings_ids.contains(id) <==> c.settings_ids.contains(id) || covered.contains(id)
            &&& step is Touch && covered.len() > 0 ==> crate::link_remove::has_path(after.changed_paths, settings_file.key)
            &&& !replaced && !(step is Touch) ==> after.settings_ids == c.settings_ids && after.changed_paths == c.changed_paths
        }),
{
    let done = ChangesModel { processed: c.processed + 1, ..c };
    lemma_paths_removed(done, removals, removals.len());
    lemma_removed_differences(done, removals, removals.len());
    assert(removals.take(removals.len() as int) =~= removals);
    assert(filled.take(filled.len() as int) =~= filled);
    assert(covered.take(covered.len() as int) =~= covered);
    let without = paths_removed(done, removals, removals.len());
    lemma_texts_once(without.settings_ids, filled, filled.len());
    lemma_texts_once(done.settings_ids, covered, covered.len());
    lemma_path_once(without.changed_paths, settings_file);
    lemma_path_once(done.changed_paths, settings_file);
}

/// A target that is marked broken is found among the broken ones, once; the links and what was broken stay.
pub proof fn law_target_is_marked_broken(m: ManifestModel, target: RefModel)
    ensures
        targets_hold(with_broken_target(m, target).broken, target.key()),
        m.broken.is_prefix_of(with_broken_target(m, target).broken),
        targets_hold(m.broken, target.key()) ==> with_broken_target(m, target) == m,
        with_broken_target(m, target).links == m.links,
        with_broken_target(m, target).version == m.version,
        with_broken_target(m, target).cache_dir == m.cache_dir,
{
    let after = with_broken_target(m, target);
    if !targets_hold(m.broken, target.key()) {
        assert(after.broken[m.broken.len() as int].key() == target.key());
    }
}

} // verus!
