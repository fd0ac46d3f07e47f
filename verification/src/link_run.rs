//! A run that applies links, one target after the other.
use vstd::prelude::*;

use crate::link_apply::{
    apply_package, changes_after_step, decide_package, decided, lock_after_step, value_of,
    with_broken_target, ApplyMode, ChangesModel, FactsModel, LinkApplyChanges, PackageDecision, PackageFacts, PackageStep,
    PackageWork,
};
use crate::link_mirror::{
    apply_mirror, files_of, law_check_writes_nothing, mirror_deleted, mirror_state, mirrored, stale_of, FileModel, MirrorFile,
    MirrorModel, MirrorOutput, StaleMirror, StaleModel,
};
use crate::link_remove::{paths_of, settle_removals, settled, KeyedPath, PathModel};
use crate::link_status::{is_forced, next_apply_step, step_for, ApplyStep, ResolvedTarget};
use crate::links::{
    copy_opt, no_lock, no_target_lock, opt_text, refs, targets_hold, LinkLock, LinkLockEntry, LinkManifest, LinkTargetRef,
    LockModel, ManifestModel, RefModel, TargetLock, TargetLockModel,
};
use crate::order::{inserted, sort_ranked, sorted, views, Ranked};
use crate::table::{Key, Table};
use crate::text::{join_texts, joined, joined_by, lemma_texts_push, same, texts};

verus! {

broadcast use vstd::seq_lib::group_seq_properties;

/// What a target takes from its source.
pub enum TargetWork {
    Package { facts: PackageFacts, work: PackageWork },
    /// A package, with no store of settings to put it into.
    PackageWithoutStore,
    Mirror { files: Vec<MirrorFile>, stale: Vec<StaleMirror>, target_exists: bool },
}

#[verifier::ext_equal]
pub enum WorkModel {
    Package {
        facts: FactsModel,
        removals: Seq<PathModel>,
        filled_ids: Seq<Seq<char>>,
        target_ids: Seq<Seq<char>>,
        settings_file: PathModel,
    },
    PackageWithoutStore,
    Mirror { files: Seq<FileModel>, stale: Seq<StaleModel>, target_exists: bool },
}

impl View for TargetWork {
    type V = WorkModel;

    open spec fn view(&self) -> WorkModel {
        match self {
            TargetWork::Package { facts, work } => WorkModel::Package {
                facts: facts@,
                removals: paths_of(work.removals@),
                filled_ids: texts(work.filled_ids@),
                target_ids: texts(work.target_ids@),
                settings_file: work.settings_file@,
            },
            TargetWork::PackageWithoutStore => WorkModel::PackageWithoutStore,
            TargetWork::Mirror { files, stale, target_exists } => WorkModel::Mirror {
                files: files_of(files@),
                stale: stale_of(stale@),
                target_exists: *target_exists,
            },
        }
    }
}

/// A target whose turn it is.
pub struct TargetInput {
    pub resolved: ResolvedTarget,
    /// The revision that the source stands at.
    pub resolved_ref: Option<String>,
    /// Why the source can not be read.
    pub reason: String,
    pub work: TargetWork,
}

/// What a run was asked for.
pub struct RunOptions {
    /// Only tell what would change.
    pub check: bool,
    /// Overwrite every target.
    pub force_all: bool,
    /// The targets to overwrite.
    pub forced: Vec<LinkTargetRef>,
}

/// How far a run has come.
pub struct LinkRun {
    pub manifest: LinkManifest,
    pub lock: LinkLock,
    pub changes: LinkApplyChanges,
    /// What is written, by path.
    pub writes: Table<String, String>,
    /// Whether each path is made read-only.
    pub permissions: Table<String, bool>,
    pub warnings: Vec<String>,
}

#[verifier::ext_equal]
pub struct RunModel {
    pub manifest: ManifestModel,
    pub lock: Map<Seq<char>, LockModel>,
    pub changes: ChangesModel,
    pub writes: Map<Seq<char>, Seq<char>>,
    pub permissions: Map<Seq<char>, bool>,
    pub warnings: Seq<Seq<char>>,
}

impl View for LinkRun {
    type V = RunModel;

    open spec fn view(&self) -> RunModel {
        RunModel {
            manifest: self.manifest@,
            lock: self.lock@,
            changes: self.changes@,
            writes: self.writes@,
            permissions: self.permissions@,
            warnings: texts(self.warnings@),
        }
    }
}

/// Why a run stops at a target.
#[derive(PartialEq, Eq, Structural, Clone, Copy, Debug)]
pub enum RunError {
    /// The source can not be read, and it is not known where the target is kept.
    Unresolved,
    /// It is not known where the target is kept.
    NoStorage,
    /// There is no store of settings to put a package into.
    NoStore,
}

/// What came of a target.
pub enum TargetOutcome {
    Skipped,
    Warned,
    Package(PackageDecision),
    /// The mirror was deleted: the target is broken.
    Deleted,
    Mirrored { preserved: Vec<String>, source_writes: Vec<String>, settings_ids: Vec<String> },
}

#[verifier::ext_equal]
pub enum OutcomeModel {
    Skipped,
    Warned,
    Package(PackageDecision),
    Deleted,
    Mirrored { preserved: Seq<Seq<char>>, source_writes: Seq<Seq<char>>, settings_ids: Seq<Seq<char>> },
}

impl View for TargetOutcome {
    type V = OutcomeModel;

    open spec fn view(&self) -> OutcomeModel {
        match self {
            TargetOutcome::Skipped => OutcomeModel::Skipped,
            TargetOutcome::Warned => OutcomeModel::Warned,
            TargetOutcome::Package(d) => OutcomeModel::Package(*d),
            TargetOutcome::Deleted => OutcomeModel::Deleted,
            TargetOutcome::Mirrored { preserved, source_writes, settings_ids } => OutcomeModel::Mirrored {
                preserved: texts(preserved@),
                source_writes: texts(source_writes@),
                settings_ids: texts(settings_ids@),
            },
        }
    }
}

/// What the lock says of a link at the turn of one of its targets.
pub open spec fn entry_for(s: RunModel, link_id: Seq<char>, resolved_ref: Option<Seq<char>>) -> LockModel {
    let before = if s.lock.dom().contains(link_id) {
        s.lock[link_id]
    } else {
        no_lock()
    };
    LockModel { resolved_ref, ..before }
}

/// What is warned of where both a package and its writable target changed.
pub open spec fn conflict_text(link_id: Seq<char>, target: RefModel) -> Seq<char> {
    link_id + ": both the package and writable target "@ + target.key().service + "."@ + joined_by(
        target.key().segments,
        "."@,
    ) + " changed since the last apply"@
}

fn conflict_warning(link_id: &str, target: &LinkTargetRef) -> (r: String)
    ensures
        r@ == conflict_text(link_id@, target@),
{
    let key = target.key();
    let segments = join_texts(&key.segments, ".");
    let a = joined(link_id, ": both the package and writable target ");
    let b = joined(&a, &key.service);
    let c = joined(&b, ".");
    let d = joined(&c, &segments);
    joined(&d, " changed since the last apply")
}

/// A run after a package went into a target. Where both sides changed, the edits stay and a warning is
/// given.
pub open spec fn package_applied(
    s: RunModel,
    link_id: Seq<char>,
    entry: LockModel,
    target: RefModel,
    decision: PackageDecision,
    work: WorkModel,
    check: bool,
) -> RunModel {
    let ids = work->target_ids;
    let marks = decision.step is MarkDeleted && !check;
    RunModel {
        manifest: if marks {
            with_broken_target(s.manifest, target)
        } else {
            s.manifest
        },
        lock: s.lock.insert(
            link_id,
            lock_after_step(
                entry,
                target.key(),
                decision.step,
                work->facts,
                if ids.len() > 0 {
                    Some(ids[0])
                } else {
                    None
                },
            ),
        ),
        changes: changes_after_step(
            s.changes,
            decision.step,
            work->removals,
            work->filled_ids,
            ids,
            work->settings_file,
            !check && !targets_hold(s.manifest.broken, target.key()),
        ),
        warnings: if decision.step == (PackageStep::Preserve { conflict: true }) {
            s.warnings.push(conflict_text(link_id, target))
        } else {
            s.warnings
        },
        ..s
    }
}

/// The part of a run that mirroring a target works on.
pub open spec fn mirror_start(s: RunModel, locked: Map<Seq<char>, Seq<char>>) -> MirrorModel {
    MirrorModel {
        locked,
        changes: s.changes,
        writes: s.writes,
        permissions: s.permissions,
        preserved: Seq::empty(),
        source_writes: Seq::empty(),
        settings_ids: Seq::empty(),
    }
}

/// What the lock says of a target.
pub open spec fn target_lock(entry: LockModel, target: RefModel) -> TargetLockModel {
    if entry.targets.dom().contains(target.key()) {
        entry.targets[target.key()]
    } else {
        no_target_lock()
    }
}

/// A run after a mirror was found deleted.
pub open spec fn mirror_lost(s: RunModel, link_id: Seq<char>, entry: LockModel, target: RefModel, check: bool) -> RunModel {
    RunModel {
        manifest: if check {
            s.manifest
        } else {
            with_broken_target(s.manifest, target)
        },
        lock: s.lock.insert(
            link_id,
            LockModel { targets: entry.targets.insert(target.key(), target_lock(entry, target)), ..entry },
        ),
        changes: ChangesModel {
            processed: s.changes.processed + 1,
            differences: s.changes.differences + 1,
            manifest_changed: s.changes.manifest_changed || (!check && !targets_hold(s.manifest.broken, target.key())),
            ..s.changes
        },
        ..s
    }
}

/// A run after a target was mirrored, with what mirroring came to.
pub open spec fn mirror_applied(
    s: RunModel,
    link_id: Seq<char>,
    entry: LockModel,
    target: RefModel,
    m: MirrorModel,
) -> RunModel {
    let files = TargetLockModel { files: m.locked, ..target_lock(entry, target) };
    RunModel {
        lock: s.lock.insert(link_id, LockModel { targets: entry.targets.insert(target.key(), files), ..entry }),
        changes: m.changes,
        writes: m.writes,
        permissions: m.permissions,
        ..s
    }
}

/// A run after the turn of a target that is known and kept somewhere.
pub open spec fn work_applied(s: RunModel, input: TargetInput, check: bool, forced: bool) -> Result<
    (RunModel, OutcomeModel),
    RunError,
> {
    let id = input.resolved.link_id@;
    let target = input.resolved.target@;
    let entry = entry_for(s, id, opt_text(input.resolved_ref));
    let mode = ApplyMode { check, forced, read_only: input.resolved.read_only };
    match input.work@ {
        WorkModel::PackageWithoutStore => Err(RunError::NoStore),
        WorkModel::Package { facts, removals, filled_ids, target_ids, settings_file } => {
            let decision = decided(
                facts,
                mode,
                value_of(entry.packages, target.key()),
                value_of(entry.package_targets, target.key()),
            );
            Ok((package_applied(s, id, entry, target, decision, input.work@, check), OutcomeModel::Package(decision)))
        },
        WorkModel::Mirror { files, stale, target_exists } => {
            let locked = target_lock(entry, target).files;
            if mirror_deleted(files, locked, target_exists, forced) {
                Ok((mirror_lost(s, id, entry, target, check), OutcomeModel::Deleted))
            } else {
                let m = mirrored(mirror_start(s, locked), files, stale, mode);
                Ok(
                    (
                        mirror_applied(s, id, entry, target, m),
                        OutcomeModel::Mirrored {
                            preserved: m.preserved,
                            source_writes: m.source_writes,
                            settings_ids: m.settings_ids,
                        },
                    ),
                )
            }
        },
    }
}

/// A run after the turn of a target, or why it stops there.
pub open spec fn target_applied(s: RunModel, input: TargetInput, o: RunOptions) -> Result<(RunModel, OutcomeModel), RunError> {
    match step_for(input.resolved, o.force_all, refs(o.forced@)) {
        ApplyStep::Skip => Ok((s, OutcomeModel::Skipped)),
        ApplyStep::Fail => Err(RunError::Unresolved),
        ApplyStep::NoStorage => Err(RunError::NoStorage),
        ApplyStep::Warn => Ok(
            (
                RunModel { warnings: s.warnings.push(input.resolved.link_id@ + ": "@ + input.reason@), ..s },
                OutcomeModel::Warned,
            ),
        ),
        ApplyStep::Package { forced } => work_applied(s, input, o.check, forced),
        ApplyStep::Mirror { forced } => work_applied(s, input, o.check, forced),
    }
}

/// How many differences a target can add.
pub open spec fn most_differences(work: WorkModel) -> nat {
    match work {
        WorkModel::Mirror { files, stale, target_exists } => files.len() + stale.len(),
        _ => 0,
    }
}

/// The targets up to the `n`th, one after the other.
pub open spec fn run_over(s: RunModel, inputs: Seq<TargetInput>, o: RunOptions, n: nat) -> Result<RunModel, RunError>
    decreases n,
{
    if n == 0 {
        Ok(s)
    } else {
        match run_over(s, inputs, o, (n - 1) as nat) {
            Ok(before) => match target_applied(before, inputs[n - 1], o) {
                Ok((after, _)) => Ok(after),
                Err(e) => Err(e),
            },
            Err(e) => Err(e),
        }
    }
}

impl LinkRun {
    /// Mirrors a target, or marks it broken where its mirror was deleted.
    fn mirror_target(
        &mut self,
        target: &LinkTargetRef,
        files: &Vec<MirrorFile>,
        stale: &Vec<StaleMirror>,
        target_exists: bool,
        mode: ApplyMode,
        link_id: &String,
        entry: LinkLockEntry,
    ) -> (r: TargetOutcome)
        requires
            old(self)@.changes.processed < u64::MAX,
            old(self)@.changes.differences + files@.len() + stale@.len() < u64::MAX,
        ensures
            ({
                let s = old(self)@;
                let locked = target_lock(entry@, target@).files;
                let m = mirrored(mirror_start(s, locked), files_of(files@), stale_of(stale@), mode);
                if mirror_deleted(files_of(files@), locked, target_exists, mode.forced) {
                    final(self)@ == mirror_lost(s, link_id@, entry@, target@, mode.check) && r@ == OutcomeModel::Deleted
                } else {
                    final(self)@ == mirror_applied(s, link_id@, entry@, target@, m) && r@ == (OutcomeModel::Mirrored {
                        preserved: m.preserved,
                        source_writes: m.source_writes,
                        settings_ids: m.settings_ids,
                    })
                }
            }),
    {
        let ghost s = self@;
        let ghost before = entry@;
        let mut entry = entry;
        let key = target.key();
        let mut lock = match entry.targets.take(&key) {
            Some(lock) => lock,
            None => TargetLock::new(),
        };
        assert(lock@ == target_lock(before, target@));
        let mut output = MirrorOutput::new();
        std::mem::swap(&mut output.writes, &mut self.writes);
        std::mem::swap(&mut output.permissions, &mut self.permissions);
        assert(mirror_state(lock, self.changes, output) == mirror_start(s, target_lock(before, target@).files));
        let done = apply_mirror(
            target,
            files,
            stale,
            target_exists,
            mode,
            &mut self.manifest,
            &mut lock,
            &mut self.changes,
            &mut output,
        );
        let ghost m = mirror_state(lock, self.changes, output);
        let ghost kept = lock@;
        let MirrorOutput { writes, permissions, preserved, source_writes, settings_ids } = output;
        self.writes = writes;
        self.permissions = permissions;
        entry.targets.put(key, lock);
        assert(entry@.targets =~= before.targets.insert(target@.key(), kept));
        self.lock.entries.put(link_id.clone(), entry);
        if done {
            assert(self@ =~= mirror_applied(s, link_id@, before, target@, m));
            TargetOutcome::Mirrored { preserved, source_writes, settings_ids }
        } else {
            assert(self@ =~= mirror_lost(s, link_id@, before, target@, mode.check));
            TargetOutcome::Deleted
        }
    }

    /// Takes the turn of a target that is known and kept somewhere.
    fn apply_work(&mut self, input: &TargetInput, check: bool, forced: bool) -> (r: Result<TargetOutcome, RunError>)
        requires
            old(self)@.changes.processed < u64::MAX,
            old(self)@.changes.differences + most_differences(input.work@) < u64::MAX,
        ensures
            match work_applied(old(self)@, *input, check, forced) {
                Ok((after, outcome)) => r is Ok && final(self)@ == after && r->Ok_0@ == outcome,
                Err(e) => r is Err && r->Err_0 == e && final(self)@ == old(self)@,
            },
    {
        let ghost s = self@;
        if let TargetWork::PackageWithoutStore = input.work {
            return Err(RunError::NoStore);
        }
        let link_id = &input.resolved.link_id;
        let mut entry = match self.lock.entries.take(link_id) {
            Some(entry) => entry,
            None => LinkLockEntry::new(),
        };
        entry.resolved_ref = copy_opt(&input.resolved_ref);
        let ghost start = entry@;
        assert(start == entry_for(s, link_id@, opt_text(input.resolved_ref)));
        let ghost held = self@;
        let target = &input.resolved.target;
        let mode = ApplyMode { check, forced, read_only: input.resolved.read_only };
        match &input.work {
            TargetWork::Package { facts, work } => {
                let key = target.key();
                let decision = decide_package(facts, mode, &entry, &key);
                apply_package(
                    target,
                    decision,
                    facts,
                    work,
                    check,
                    &mut self.manifest,
                    &mut entry,
                    &mut self.changes,
                );
                self.lock.entries.put(link_id.clone(), entry);
                if let PackageStep::Preserve { conflict: true } = decision.step {
                    let text = conflict_warning(link_id, target);
                    proof {
                        lemma_texts_push(self.warnings@, text);
                    }
                    self.warnings.push(text);
                }
                assert(work.target_ids@.len() > 0 ==> texts(work.target_ids@)[0] == work.target_ids@[0]@);
                assert(self@ =~= package_applied(s, link_id@, start, target@, decision, input.work@, check));
                Ok(TargetOutcome::Package(decision))
            },
            TargetWork::Mirror { files, stale, target_exists } => {
                let outcome = self.mirror_target(target, files, stale, *target_exists, mode, link_id, entry);
                proof {
                    let locked = target_lock(start, target@).files;
                    assert(mirror_start(held, locked) == mirror_start(s, locked));
                    let m = mirrored(mirror_start(s, locked), files_of(files@), stale_of(stale@), mode);
                    assert(mirror_applied(held, link_id@, start, target@, m) =~= mirror_applied(
                        s,
                        link_id@,
                        start,
                        target@,
                        m,
                    ));
                    assert(mirror_lost(held, link_id@, start, target@, check) =~= mirror_lost(
                        s,
                        link_id@,
                        start,
                        target@,
                        check,
                    ));
                }
                Ok(outcome)
            },
            TargetWork::PackageWithoutStore => Err(RunError::NoStore),
        }
    }

    /// Takes the turn of a target: it is left alone where it is broken, warned of where its source can
    /// not be read, and otherwise filled or mirrored.
    pub fn apply_target(&mut self, input: &TargetInput, options: &RunOptions) -> (r: Result<TargetOutcome, RunError>)
        requires
            old(self)@.changes.processed < u64::MAX,
            old(self)@.changes.differences + most_differences(input.work@) < u64::MAX,
        ensures
            match target_applied(old(self)@, *input, *options) {
                Ok((after, outcome)) => r is Ok && final(self)@ == after && r->Ok_0@ == outcome,
                Err(e) => r is Err && r->Err_0 == e && final(self)@ == old(self)@,
            },
    {
        match next_apply_step(&input.resolved, options.force_all, &options.forced) {
            ApplyStep::Skip => Ok(TargetOutcome::Skipped),
            ApplyStep::Fail => Err(RunError::Unresolved),
            ApplyStep::NoStorage => Err(RunError::NoStorage),
            ApplyStep::Warn => {
                let named = joined(&input.resolved.link_id, ": ");
                let text = joined(&named, &input.reason);
                proof {
                    lemma_texts_push(self.warnings@, text);
                }
                self.warnings.push(text);
                Ok(TargetOutcome::Warned)
            },
            ApplyStep::Package { forced } => self.apply_work(input, options.check, forced),
            ApplyStep::Mirror { forced } => self.apply_work(input, options.check, forced),
        }
    }
}

/// A file with what is written into it.
pub struct FileWrite {
    pub path: KeyedPath,
    pub content: Vec<u8>,
}

/// The stores of settings as they are after a run: what is written, and the files that go with it.
pub struct StoreChanges {
    pub writes: Vec<FileWrite>,
    pub removals: Vec<KeyedPath>,
}

/// What a run leaves on the disk: nothing else is written or removed, and no other permission changed.
pub struct RunEnd {
    /// The stores of settings that are written.
    pub stores: Vec<FileWrite>,
    /// The lock, where it is written.
    pub lock: Option<LinkLock>,
    /// The manifest, where it is written.
    pub manifest: Option<LinkManifest>,
    /// The file is written that keeps the tool's own directory out of version control.
    pub gitignore: bool,
    /// The mirrors that are written, by path.
    pub writes: Table<String, String>,
    /// Whether each path is made read-only.
    pub permissions: Table<String, bool>,
    pub removals: Vec<KeyedPath>,
}

#[verifier::ext_equal]
pub struct EndModel {
    pub stores: Seq<FileWrite>,
    pub lock: Option<Map<Seq<char>, LockModel>>,
    pub manifest: Option<ManifestModel>,
    pub gitignore: bool,
    pub writes: Map<Seq<char>, Seq<char>>,
    pub permissions: Map<Seq<char>, bool>,
    pub removals: Seq<PathModel>,
}

impl View for RunEnd {
    type V = EndModel;

    open spec fn view(&self) -> EndModel {
        EndModel {
            stores: self.stores@,
            lock: match self.lock {
                Some(lock) => Some(lock@),
                None => None,
            },
            manifest: match self.manifest {
                Some(manifest) => Some(manifest@),
                None => None,
            },
            gitignore: self.gitignore,
            writes: self.writes@,
            permissions: self.permissions@,
            removals: paths_of(self.removals@),
        }
    }
}

/// The disk is left as it was.
pub open spec fn nothing_written() -> EndModel {
    EndModel {
        stores: Seq::empty(),
        lock: None,
        manifest: None,
        gitignore: false,
        writes: Map::empty(),
        permissions: Map::empty(),
        removals: Seq::empty(),
    }
}

/// What a run leaves on the disk: nothing on a check; else the stores and the lock, the manifest where it
/// changed, and the file that keeps the tool's directory out of version control where it was not there.
pub open spec fn ends_as(s: RunModel, stores: StoreChanges, check: bool, gitignore_exists: bool, e: EndModel) -> bool {
    if check {
        e == nothing_written()
    } else {
        &&& e.stores == stores.writes@
        &&& e.lock == Some(s.lock)
        &&& e.manifest == if s.changes.manifest_changed {
            Some(s.manifest)
        } else {
            None
        }
        &&& e.gitignore == !gitignore_exists
        &&& e.writes == s.writes
        &&& e.permissions == s.permissions
        &&& settled(s.changes.removals + paths_of(stores.removals@), Seq::empty(), e.removals)
    }
}

/// Ends a run: what it leaves on the disk.
pub fn run_writes(run: LinkRun, stores: StoreChanges, check: bool, gitignore_exists: bool) -> (r: RunEnd)
    ensures
        ends_as(run@, stores, check, gitignore_exists, r@),
{
    if check {
        let r = RunEnd {
            stores: Vec::new(),
            lock: None,
            manifest: None,
            gitignore: false,
            writes: Table::new(),
            permissions: Table::new(),
            removals: Vec::new(),
        };
        assert(r@ =~= nothing_written());
        return r;
    }
    let StoreChanges { writes, removals } = stores;
    let mut more = removals;
    let LinkRun { manifest, lock, changes, writes: mirrors, permissions, .. } = run;
    let mut planned = changes.removals;
    let ghost first = planned@;
    let ghost second = more@;
    planned.append(&mut more);
    assert(paths_of(planned@) =~= paths_of(first) + paths_of(second));
    let none: Vec<String> = Vec::new();
    assert(texts(none@) =~= Seq::<Seq<char>>::empty());
    let removals = settle_removals(&planned, &none);
    RunEnd {
        stores: writes,
        lock: Some(lock),
        manifest: if changes.manifest_changed {
            Some(manifest)
        } else {
            None
        },
        gitignore: !gitignore_exists,
        writes: mirrors,
        permissions,
        removals,
    }
}

/// Two states of a run ask for the same files to be written and removed, and for the same manifest.
pub open spec fn same_outside(a: RunModel, b: RunModel) -> bool {
    a.manifest == b.manifest && a.writes == b.writes && a.permissions == b.permissions && a.changes.removals
        == b.changes.removals
}

/// A check changes nothing: whatever the targets are, no store, mirror, manifest or lock is written, no file
/// removed and no permission changed. Nor does the run gather anything to write.
pub proof fn law_a_check_changes_nothing(
    s: RunModel,
    inputs: Seq<TargetInput>,
    o: RunOptions,
    n: nat,
    stores: StoreChanges,
    gitignore_exists: bool,
    e: EndModel,
)
    requires
        o.check,
        n <= inputs.len(),
        run_over(s, inputs, o, n) is Ok,
        ends_as(run_over(s, inputs, o, n)->Ok_0, stores, o.check, gitignore_exists, e),
    ensures
        e == nothing_written(),
        same_outside(s, run_over(s, inputs, o, n)->Ok_0),
{
    lemma_check_gathers_nothing(s, inputs, o, n);
}

proof fn lemma_check_gathers_nothing(s: RunModel, inputs: Seq<TargetInput>, o: RunOptions, n: nat)
    requires
        o.check,
        n <= inputs.len(),
    ensures
        run_over(s, inputs, o, n) matches Ok(after) ==> same_outside(s, after),
    decreases n,
{
    if n > 0 {
        lemma_check_gathers_nothing(s, inputs, o, (n - 1) as nat);
        if let Ok(before) = run_over(s, inputs, o, (n - 1) as nat) {
            let input = inputs[n - 1];
            if let WorkModel::Mirror { files, stale, target_exists } = input.work@ {
                let target = input.resolved.target@;
                let entry = entry_for(before, input.resolved.link_id@, opt_text(input.resolved_ref));
                let forced = is_forced(o.force_all, refs(o.forced@), target.key());
                let mode = ApplyMode { check: true, forced, read_only: input.resolved.read_only };
                law_check_writes_nothing(mirror_start(before, target_lock(entry, target).files), files, stale, mode);
            }
        }
    }
}

/// A target that no longer follows its link is left alone, whatever was asked for.
pub proof fn law_broken_targets_are_left_alone(s: RunModel, input: TargetInput, o: RunOptions)
    requires
        input.resolved.broken,
    ensures
        target_applied(s, input, o) == Ok::<(RunModel, OutcomeModel), RunError>((s, OutcomeModel::Skipped)),
{
}

/// A run touches what the lock says of the link whose turn it is, and of no other.
pub proof fn law_other_links_keep_their_lock(s: RunModel, input: TargetInput, o: RunOptions, other: Seq<char>)
    requires
        other != input.resolved.link_id@,
    ensures
        target_applied(s, input, o) matches Ok((after, _)) ==> value_of(after.lock, other) == value_of(s.lock, other),
{
}

/// A directory to clear away where it is empty, below the directory that stays.
pub struct PruneDir {
    pub root: KeyedPath,
    pub directory: KeyedPath,
    /// How many components the directory has.
    pub depth: usize,
}

#[verifier::ext_equal]
pub struct PruneModel {
    pub root: PathModel,
    pub directory: PathModel,
    pub depth: usize,
}

impl View for PruneDir {
    type V = PruneModel;

    open spec fn view(&self) -> PruneModel {
        PruneModel { root: self.root@, directory: self.directory@, depth: self.depth }
    }
}

/// Deeper directories come first.
impl Ranked for PruneDir {
    open spec fn ranks_before(a: PruneModel, b: PruneModel) -> bool {
        a.depth > b.depth
    }

    fn is_before(&self, other: &Self) -> (r: bool) {
        self.depth > other.depth
    }

    proof fn lemma_ranks(a: PruneModel, b: PruneModel, c: PruneModel) {
    }
}

/// Both are one directory below one root.
pub open spec fn same_dir(a: PruneModel, b: PruneModel) -> bool {
    a.root.key == b.root.key && a.directory.key == b.directory.key
}

/// The first `n` of a list without those that repeat the one before.
pub open spec fn without_repeats(v: Seq<PruneModel>, n: nat) -> Seq<PruneModel>
    decreases n,
{
    if n == 0 {
        Seq::empty()
    } else {
        let before = without_repeats(v, (n - 1) as nat);
        if before.len() > 0 && same_dir(before.last(), v[n - 1]) {
            before
        } else {
            before.push(v[n - 1])
        }
    }
}

/// The order in which directories are cleared away: the deepest first, and none twice in a row.
pub fn prune_order(dirs: Vec<PruneDir>) -> (r: Vec<PruneDir>)
    ensures
        views(r@) == without_repeats(sorted::<PruneDir>(views(dirs@), dirs@.len()), dirs@.len()),
{
    let ghost count = dirs@.len();
    let mut rest = sort_ranked(dirs);
    let ghost all = views(rest@);
    proof {
        lemma_sorted_len(views(dirs@), count);
    }
    let mut out: Vec<PruneDir> = Vec::new();
    let ghost mut n: nat = 0;
    assert(views(out@) =~= Seq::empty());
    assert(all.skip(0) =~= all);
    while rest.len() > 0
        invariant
            n <= all.len(),
            rest@.len() == all.len() - n,
            views(rest@) == all.skip(n as int),
            views(out@) == without_repeats(all, n),
        decreases rest@.len(),
    {
        let ghost before = rest@;
        let ghost kept = out@;
        assert(views(before)[0] == all[n as int]);
        let x = rest.remove(0);
        proof {
            assert(views(rest@) =~= views(before).drop_first());
            assert(all.skip(n as int).drop_first() =~= all.skip((n + 1) as int));
        }
        let count: usize = out.len();
        let repeats = count > 0 && same(&out[count - 1].root.key, &x.root.key) && same(
            &out[count - 1].directory.key,
            &x.directory.key,
        );
        assert(count > 0 ==> views(kept).last() == kept[count - 1]@);
        if !repeats {
            out.push(x);
            assert(views(out@) =~= views(kept).push(x@));
        }
        proof {
            n = n + 1;
        }
    }
    out
}

proof fn lemma_inserted_len(v: Seq<PruneModel>, x: PruneModel)
    ensures
        inserted::<PruneDir>(v, x).len() == v.len() + 1,
    decreases v.len(),
{
    if v.len() > 0 && PruneDir::ranks_before(x, v.last()) {
        lemma_inserted_len(v.drop_last(), x);
    }
}

proof fn lemma_sorted_len(v: Seq<PruneModel>, n: nat)
    ensures
        sorted::<PruneDir>(v, n).len() == n,
    decreases n,
{
    if n > 0 {
        lemma_sorted_len(v, (n - 1) as nat);
        lemma_inserted_len(sorted::<PruneDir>(v, (n - 1) as nat), v[n - 1]);
    }
}

} // verus!
