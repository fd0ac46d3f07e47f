//! The course of applying links, and what is told of their state.
use vstd::prelude::*;
use crate::table::Key;

use crate::links::{
    find_link, hold_target, is_link, keys_of, lemma_entries_of_update, migrated, no_link, opt_text, refs, refs_without,
    retain_refs, targets_hold, EntryModel, LinkEntry, LinkLock, LinkManifest, LinkTargetRef, LockModel, ManifestModel, RefModel,
    TargetKey, TargetModel,
};
use crate::text::same;

verus! {

broadcast use vstd::seq_lib::group_seq_properties;

/// What is known of a target of a link.
pub struct ResolvedTarget {
    pub link_id: String,
    pub target: LinkTargetRef,
    pub read_only: bool,
    /// The target no longer follows its link.
    pub broken: bool,
    /// The source of the link could be read.
    pub resolved: bool,
    /// It is known where the target is kept.
    pub has_storage: bool,
    /// The source is a package.
    pub is_package: bool,
}

/// What comes next for a target.
#[derive(PartialEq, Eq, Structural, Clone, Copy, Debug)]
pub enum ApplyStep {
    /// A broken target is left alone.
    Skip,
    /// The target can not be kept anywhere: applying stops.
    Fail,
    /// The source can not be read: a warning.
    Warn,
    /// The target is known, but not where it is kept: applying stops.
    NoStorage,
    /// The target is filled from a package.
    Package { forced: bool },
    /// The target mirrors files.
    Mirror { forced: bool },
}

/// A target is to be overwritten whatever it holds.
pub open spec fn is_forced(force_all: bool, forced: Seq<RefModel>, key: TargetModel) -> bool {
    force_all || targets_hold(forced, key)
}

pub open spec fn step_for(target: ResolvedTarget, force_all: bool, forced: Seq<RefModel>) -> ApplyStep {
    let f = is_forced(force_all, forced, target.target@.key());
    if target.broken {
        ApplyStep::Skip
    } else if !target.resolved {
        if !target.has_storage {
            ApplyStep::Fail
        } else {
            ApplyStep::Warn
        }
    } else if !target.has_storage {
        ApplyStep::NoStorage
    } else if target.is_package {
        ApplyStep::Package { forced: f }
    } else {
        ApplyStep::Mirror { forced: f }
    }
}

/// Decides what comes next for a target.
pub fn next_apply_step(target: &ResolvedTarget, force_all: bool, forced: &Vec<LinkTargetRef>) -> (r: ApplyStep)
    ensures
        r == step_for(*target, force_all, refs(forced@)),
{
    if target.broken {
        return ApplyStep::Skip;
    }
    if !target.resolved {
        return if !target.has_storage {
            ApplyStep::Fail
        } else {
            ApplyStep::Warn
        };
    }
    if !target.has_storage {
        return ApplyStep::NoStorage;
    }
    let key = target.target.key();
    let f = force_all || hold_target(forced, &key);
    if target.is_package {
        ApplyStep::Package { forced: f }
    } else {
        ApplyStep::Mirror { forced: f }
    }
}

/// Applying ends in an error where warnings count as errors and there are some.
pub fn strict_failure(strict: bool, warnings: usize) -> (r: bool)
    ensures
        r == (strict && warnings > 0),
{
    strict && warnings > 0
}

/// A target whose instance goes by other names than the manifest says.
pub struct RenamedTarget {
    pub link_id: String,
    pub old: LinkTargetRef,
    pub actual: LinkTargetRef,
}

#[verifier::ext_equal]
pub struct RenamedModel {
    pub link_id: Seq<char>,
    pub old: RefModel,
    pub actual: RefModel,
}

impl View for RenamedTarget {
    type V = RenamedModel;

    open spec fn view(&self) -> RenamedModel {
        RenamedModel { link_id: self.link_id@, old: self.old@, actual: self.actual@ }
    }
}

pub open spec fn renames_of(v: Seq<RenamedTarget>) -> Seq<RenamedModel> {
    Seq::new(v.len(), |i: int| v[i]@)
}

/// Why targets can not be renamed; `target` is the place in the list.
#[derive(PartialEq, Eq, Structural, Clone, Copy, Debug)]
pub enum RenameError {
    /// The new name belongs to a link.
    Conflict { target: usize },
    /// The manifest has no such target.
    Disappeared { target: usize },
}

/// The manifest and the lock.
#[verifier::ext_equal]
pub struct LinkState {
    pub manifest: ManifestModel,
    pub lock: Map<Seq<char>, LockModel>,
}

/// The first target with a key gets another place.
pub open spec fn first_replaced(targets: Seq<RefModel>, key: TargetModel, actual: RefModel) -> Seq<RefModel>
    decreases targets.len(),
{
    if targets.len() == 0 {
        targets
    } else if targets[0].key() == key {
        targets.update(0, actual)
    } else {
        seq![targets[0]] + first_replaced(targets.drop_first(), key, actual)
    }
}

/// The first link with an id.
pub open spec fn link_at(links: Seq<EntryModel>, id: Seq<char>) -> int {
    choose|i: int| is_link(links, id, i)
}

/// Some link has a target of a key.
pub open spec fn some_owner(links: Seq<EntryModel>, key: TargetModel) -> bool {
    exists|l: int| 0 <= l < links.len() && targets_hold((#[trigger] links[l]).targets, key)
}

/// The manifest and the lock after one target was renamed. A target that goes by its name is left.
pub open spec fn renamed_one(s: LinkState, rename: RenamedModel, n: int) -> Result<LinkState, RenameError> {
    let from = rename.old.key();
    let to = rename.actual.key();
    if from.segments == to.segments && from.ordinals == to.ordinals {
        Ok(s)
    } else if some_owner(s.manifest.links, to) {
        Err(RenameError::Conflict { target: n as usize })
    } else if no_link(s.manifest.links, rename.link_id) || !targets_hold(
        s.manifest.links[link_at(s.manifest.links, rename.link_id)].targets,
        from,
    ) {
        Err(RenameError::Disappeared { target: n as usize })
    } else {
        let at = link_at(s.manifest.links, rename.link_id);
        let entry = s.manifest.links[at];
        Ok(
            LinkState {
                manifest: ManifestModel {
                    links: s.manifest.links.update(
                        at,
                        EntryModel { targets: first_replaced(entry.targets, from, rename.actual), ..entry },
                    ),
                    broken: refs_without(s.manifest.broken, seq![from, to]),
                    ..s.manifest
                },
                lock: if s.lock.dom().contains(rename.link_id) {
                    s.lock.insert(rename.link_id, migrated(s.lock[rename.link_id], from, to))
                } else {
                    s.lock
                },
            },
        )
    }
}

/// The manifest and the lock after the first `n` targets were renamed.
pub open spec fn renamed_all(s: LinkState, renames: Seq<RenamedModel>, n: nat) -> Result<LinkState, RenameError>
    decreases n,
{
    if n == 0 {
        Ok(s)
    } else {
        match renamed_all(s, renames, (n - 1) as nat) {
            Ok(before) => renamed_one(before, renames[n - 1], n - 1),
            Err(e) => Err(e),
        }
    }
}

fn replace_first(targets: &Vec<LinkTargetRef>, key: &TargetKey, actual: &LinkTargetRef) -> (r: Vec<LinkTargetRef>)
    ensures
        refs(r@) == first_replaced(refs(targets@), key@, actual@),
{
    let ghost all = refs(targets@);
    let mut out: Vec<LinkTargetRef> = Vec::new();
    let mut i: usize = 0;
    let mut done = false;
    assert(all.skip(0) =~= all);
    assert(refs(out@) + first_replaced(all.skip(0), key@, actual@) =~= first_replaced(all, key@, actual@));
    while i < targets.len()
        invariant
            i <= targets.len(),
            all == refs(targets@),
            done ==> refs(out@) + all.skip(i as int) == first_replaced(all, key@, actual@),
            !done ==> refs(out@) + first_replaced(all.skip(i as int), key@, actual@) == first_replaced(
                all,
                key@,
                actual@,
            ),
        decreases targets.len() - i,
    {
        let ghost rest = all.skip(i as int);
        assert(rest[0] == all[i as int]);
        assert(rest.drop_first() =~= all.skip(i + 1));
        let ghost before = refs(out@);
        let hit = !done && targets[i].key().same_key(key);
        let t = if hit {
            actual.copy()
        } else {
            targets[i].copy()
        };
        assert(refs(out@.push(t)) =~= before.push(t@));
        proof {
            if done {
                assert(before + rest =~= before.push(t@) + all.skip(i + 1));
            } else if hit {
                assert(before + rest.update(0, actual@) =~= before.push(t@) + all.skip(i + 1));
            } else {
                assert(before + (seq![rest[0]] + first_replaced(rest.drop_first(), key@, actual@)) =~= before.push(t@)
                    + first_replaced(all.skip(i + 1), key@, actual@));
            }
        }
        out.push(t);
        done = done || hit;
        i += 1;
    }
    assert(all.skip(i as int) =~= Seq::empty());
    assert(refs(out@) + Seq::empty() =~= refs(out@));
    out
}

fn rename_one(manifest: &mut LinkManifest, lock: &mut LinkLock, rename: &RenamedTarget, n: usize) -> (r: Result<
    bool,
    RenameError,
>)
    ensures
        match r {
            Ok(changed) => renamed_one(LinkState { manifest: old(manifest)@, lock: old(lock)@ }, rename@, n as int)
                == Ok::<LinkState, RenameError>(LinkState { manifest: final(manifest)@, lock: final(lock)@ })
                && changed == (rename@.old.key().segments != rename@.actual.key().segments
                || rename@.old.key().ordinals != rename@.actual.key().ordinals),
            Err(e) => renamed_one(LinkState { manifest: old(manifest)@, lock: old(lock)@ }, rename@, n as int) == Err::<
                LinkState,
                RenameError,
            >(e) && final(manifest)@ == old(manifest)@ && final(lock)@ == old(lock)@,
        },
{
    let from = rename.old.key();
    let to = rename.actual.key();
    if crate::text::same_texts(&from.segments, &to.segments) && crate::text::same_numbers(
        &from.ordinals,
        &to.ordinals,
    ) {
        return Ok(false);
    }
    let ghost links = manifest@.links;
    let owner = crate::links::find_owner(&manifest.links, &to);
    proof {
        if owner is Some {
            assert(targets_hold(links[owner->0 as int].targets, to@));
            assert(some_owner(links, to@));
        } else {
            assert(!some_owner(links, to@));
        }
    }
    if owner.is_some() {
        return Err(RenameError::Conflict { target: n });
    }
    let at = match find_link(&manifest.links, &rename.link_id) {
        Some(at) => at,
        None => {
            return Err(RenameError::Disappeared { target: n });
        },
    };
    proof {
        let c = link_at(links, rename.link_id@);
        assert(is_link(links, rename.link_id@, at as int));
        assert(is_link(links, rename.link_id@, c));
        if c < at {
            assert(links[c].id != rename.link_id@);
        } else if c > at {
            assert(links[at as int].id != rename.link_id@);
        }
        assert(!no_link(links, rename.link_id@));
    }
    assert(links[at as int].targets == refs(manifest.links@[at as int].targets@));
    if !hold_target(&manifest.links[at].targets, &from) {
        return Err(RenameError::Disappeared { target: n });
    }
    let targets = replace_first(&manifest.links[at].targets, &from, &rename.actual);
    let old_entry = &manifest.links[at];
    let entry = LinkEntry {
        id: old_entry.id.clone(),
        read_only: old_entry.read_only,
        source: old_entry.source.copy(),
        targets,
    };
    proof {
        lemma_entries_of_update(manifest.links@, at as int, entry);
    }
    manifest.links.set(at, entry);
    let mut keys: Vec<TargetKey> = Vec::new();
    keys.push(from.copy_key());
    keys.push(to.copy_key());
    assert(keys_of(keys@) =~= seq![from@, to@]);
    manifest.broken = retain_refs(&manifest.broken, &keys);
    let ghost before = lock@;
    match lock.entries.take(&rename.link_id) {
        Some(mut kept) => {
            crate::links::migrate_link_target_lock(&mut kept, &from, &to);
            lock.entries.put(rename.link_id.clone(), kept);
            assert(lock@ =~= before.insert(rename.link_id@, migrated(before[rename.link_id@], from@, to@)));
        },
        None => {
            assert(lock@ =~= before);
        },
    }
    Ok(true)
}

/// Some of the first `n` targets goes by another name.
pub open spec fn any_renamed(renames: Seq<RenamedModel>, n: int) -> bool {
    exists|i: int|
        0 <= i < n && ((#[trigger] renames[i]).old.key().segments != renames[i].actual.key().segments
            || renames[i].old.key().ordinals != renames[i].actual.key().ordinals)
}

/// The target at which renaming stopped.
pub open spec fn stopped_at(e: RenameError) -> nat {
    match e {
        RenameError::Conflict { target } => target as nat,
        RenameError::Disappeared { target } => target as nat,
    }
}

/// Brings the manifest and the lock in line with the names that the instances of package targets carry
/// now. The answer says whether anything changed. It stops at the first target that can not be renamed;
/// those before it stay renamed.
pub fn reconcile_package_target_names(
    manifest: &mut LinkManifest,
    lock: &mut LinkLock,
    renames: &Vec<RenamedTarget>,
) -> (r: Result<bool, RenameError>)
    ensures
        match r {
            Ok(changed) => renamed_all(
                LinkState { manifest: old(manifest)@, lock: old(lock)@ },
                renames_of(renames@),
                renames@.len(),
            ) == Ok::<LinkState, RenameError>(LinkState { manifest: final(manifest)@, lock: final(lock)@ }) && changed
                == any_renamed(renames_of(renames@), renames@.len() as int),
            Err(e) => renamed_all(
                LinkState { manifest: old(manifest)@, lock: old(lock)@ },
                renames_of(renames@),
                renames@.len(),
            ) == Err::<LinkState, RenameError>(e) && renamed_all(
                LinkState { manifest: old(manifest)@, lock: old(lock)@ },
                renames_of(renames@),
                stopped_at(e),
            ) == Ok::<LinkState, RenameError>(LinkState { manifest: final(manifest)@, lock: final(lock)@ }),
        },
{
    let ghost start = LinkState { manifest: manifest@, lock: lock@ };
    let ghost all = renames_of(renames@);
    let mut changed = false;
    let mut i: usize = 0;
    while i < renames.len()
        invariant
            i <= renames.len(),
            all == renames_of(renames@),
            start == (LinkState { manifest: old(manifest)@, lock: old(lock)@ }),
            renamed_all(start, all, i as nat) == Ok::<LinkState, RenameError>(
                LinkState { manifest: manifest@, lock: lock@ },
            ),
            changed == any_renamed(all, i as int),
        decreases renames.len() - i,
    {
        assert(all[i as int] == renames@[i as int]@);
        match rename_one(manifest, lock, &renames[i], i) {
            Ok(one) => {
                changed = changed || one;
            },
            Err(e) => {
                proof {
                    lemma_rename_error_stays(start, all, (i + 1) as nat, all.len());
                }
                return Err(e);
            },
        }
        i += 1;
    }
    Ok(changed)
}

proof fn lemma_rename_error_stays(s: LinkState, renames: Seq<RenamedModel>, k: nat, n: nat)
    requires
        k <= n <= renames.len(),
        renamed_all(s, renames, k) is Err,
    ensures
        renamed_all(s, renames, n) == renamed_all(s, renames, k),
    decreases n,
{
    if k < n {
        lemma_rename_error_stays(s, renames, k, (n - 1) as nat);
    }
}

/// What is known of one mirrored file.
pub struct MirrorState {
    pub mirror: Option<String>,
    pub canonical: Option<String>,
}

/// What is known of a target, for its state.
pub struct StatusFacts {
    pub link_id: String,
    pub broken: bool,
    pub resolved: bool,
    /// The source is a package.
    pub is_package: bool,
    /// The instance at the root of the package was found.
    pub package_root_found: bool,
    /// Its fingerprint is that of the package.
    pub package_matches: bool,
    pub files: Vec<MirrorState>,
}

/// The state of a target.
#[derive(PartialEq, Eq, Structural, Clone, Copy, Debug)]
pub struct TargetStatus {
    pub drift: bool,
    pub missing: bool,
}

/// A mirror is gone or does not hold what its source holds.
pub open spec fn file_drift(facts: StatusFacts, file: MirrorState) -> bool {
    facts.resolved && !facts.broken && (file.mirror is None || opt_text(file.mirror) != opt_text(file.canonical))
}

/// Whether one mirrored file has drifted.
pub fn mirror_drift(facts: &StatusFacts, file: &MirrorState) -> (r: bool)
    ensures
        r == file_drift(*facts, *file),
{
    if !facts.resolved || facts.broken {
        return false;
    }
    match (&file.mirror, &file.canonical) {
        (Some(mirror), Some(canonical)) => !same(mirror, canonical),
        _ => true,
    }
}

pub open spec fn status_of(facts: StatusFacts) -> TargetStatus {
    let package = facts.is_package && facts.resolved;
    let lost = package && !facts.broken && !facts.package_root_found;
    TargetStatus {
        drift: lost || (package && facts.package_root_found && !facts.package_matches) || (exists|i: int|
            0 <= i < facts.files@.len() && file_drift(facts, #[trigger] facts.files@[i])),
        missing: lost || (facts.resolved && !facts.broken && (exists|i: int|
            0 <= i < facts.files@.len() && (#[trigger] facts.files@[i]).mirror is None)),
    }
}

/// The state of a target: whether it differs from its source, and whether something of it is gone.
pub fn target_status(facts: &StatusFacts) -> (r: TargetStatus)
    ensures
        r == status_of(*facts),
{
    let package = facts.is_package && facts.resolved;
    let lost = package && !facts.broken && !facts.package_root_found;
    let mut drift = lost || (package && facts.package_root_found && !facts.package_matches);
    let mut missing = lost;
    let ghost drift_before = drift;
    let mut i: usize = 0;
    while i < facts.files.len()
        invariant
            i <= facts.files.len(),
            drift == (drift_before || (exists|j: int| 0 <= j < i && file_drift(*facts, #[trigger] facts.files@[j]))),
            missing == (lost || (facts.resolved && !facts.broken && (exists|j: int|
                0 <= j < i && (#[trigger] facts.files@[j]).mirror is None))),
        decreases facts.files.len() - i,
    {
        let file = &facts.files[i];
        if mirror_drift(facts, file) {
            drift = true;
        }
        if facts.resolved && !facts.broken && file.mirror.is_none() {
            missing = true;
        }
        i += 1;
    }
    TargetStatus { drift, missing }
}

/// A target that is gone has drifted.
pub proof fn law_missing_target_has_drifted(facts: StatusFacts)
    ensures
        status_of(facts).missing ==> status_of(facts).drift,
{
    if status_of(facts).missing && !(facts.is_package && facts.resolved && !facts.broken && !facts.package_root_found) {
        let i = choose|i: int| 0 <= i < facts.files@.len() && (#[trigger] facts.files@[i]).mirror is None;
        assert(file_drift(facts, facts.files@[i]));
    }
}

/// A target follows its link and nothing of it is gone.
pub open spec fn counts_active(facts: StatusFacts) -> bool {
    facts.resolved && !facts.broken && !status_of(facts).missing
}

/// How many of the first `n` targets are broken.
pub open spec fn broken_count(all: Seq<StatusFacts>, n: nat) -> nat
    decreases n,
{
    if n == 0 {
        0
    } else {
        broken_count(all, (n - 1) as nat) + if all[n - 1].broken {
            1nat
        } else {
            0nat
        }
    }
}

/// How many of the first `n` targets have drifted.
pub open spec fn drift_count(all: Seq<StatusFacts>, n: nat) -> nat
    decreases n,
{
    if n == 0 {
        0
    } else {
        drift_count(all, (n - 1) as nat) + if status_of(all[n - 1]).drift {
            1nat
        } else {
            0nat
        }
    }
}

/// How many of the first `n` targets follow the link with an id.
pub open spec fn active_count(all: Seq<StatusFacts>, id: Seq<char>, n: nat) -> nat
    decreases n,
{
    if n == 0 {
        0
    } else {
        active_count(all, id, (n - 1) as nat) + if all[n - 1].link_id@ == id && counts_active(all[n - 1]) {
            1nat
        } else {
            0nat
        }
    }
}

/// The state of all targets of a project.
pub struct LinkStatus {
    pub broken: usize,
    pub drifted: usize,
    pub targets: Vec<TargetStatus>,
    /// For each link of the manifest, how many targets follow it.
    pub active: Vec<usize>,
}

fn count_active(all: &Vec<StatusFacts>, statuses: &Vec<TargetStatus>, id: &str) -> (r: usize)
    requires
        statuses@.len() == all@.len(),
        forall|i: int| 0 <= i < all@.len() ==> #[trigger] statuses@[i] == status_of(all@[i]),
    ensures
        r == active_count(all@, id@, all@.len()),
{
    let mut count: usize = 0;
    let mut i: usize = 0;
    while i < all.len()
        invariant
            i <= all.len(),
            statuses@.len() == all@.len(),
            forall|i: int| 0 <= i < all@.len() ==> #[trigger] statuses@[i] == status_of(all@[i]),
            count == active_count(all@, id@, i as nat),
            count <= i,
        decreases all.len() - i,
    {
        let facts = &all[i];
        if same(&facts.link_id, id) && facts.resolved && !facts.broken && !statuses[i].missing {
            count += 1;
        }
        i += 1;
    }
    count
}

/// The state of all targets, and how many of them follow each link.
pub fn link_status(manifest: &LinkManifest, all: &Vec<StatusFacts>) -> (r: LinkStatus)
    ensures
        r.broken == broken_count(all@, all@.len()),
        r.drifted == drift_count(all@, all@.len()),
        r.targets@ == Seq::new(all@.len(), |i: int| status_of(all@[i])),
        r.active@.len() == manifest@.links.len(),
        forall|l: int|
            0 <= l < manifest@.links.len() ==> #[trigger] r.active@[l] == active_count(
                all@,
                manifest@.links[l].id,
                all@.len(),
            ),
{
    let mut broken: usize = 0;
    let mut drifted: usize = 0;
    let mut targets: Vec<TargetStatus> = Vec::new();
    let mut i: usize = 0;
    while i < all.len()
        invariant
            i <= all.len(),
            broken == broken_count(all@, i as nat),
            broken <= i,
            drifted == drift_count(all@, i as nat),
            drifted <= i,
            targets@.len() == i,
            forall|j: int| 0 <= j < i ==> #[trigger] targets@[j] == status_of(all@[j]),
        decreases all.len() - i,
    {
        let status = target_status(&all[i]);
        if all[i].broken {
            broken += 1;
        }
        if status.drift {
            drifted += 1;
        }
        targets.push(status);
        i += 1;
    }
    assert(targets@ =~= Seq::new(all@.len(), |i: int| status_of(all@[i])));
    let mut active: Vec<usize> = Vec::new();
    let mut l: usize = 0;
    while l < manifest.links.len()
        invariant
            l <= manifest.links.len(),
            targets@.len() == all@.len(),
            forall|j: int| 0 <= j < all@.len() ==> #[trigger] targets@[j] == status_of(all@[j]),
            active@.len() == l,
            forall|j: int|
                0 <= j < l ==> #[trigger] active@[j] == active_count(all@, manifest@.links[j].id, all@.len()),
        decreases manifest.links.len() - l,
    {
        let n = count_active(all, &targets, &manifest.links[l].id);
        active.push(n);
        l += 1;
    }
    LinkStatus { broken, drifted, targets, active }
}

} // verus!
