//! A run that syncs packages, one realm after the other.
use vstd::prelude::*;

use crate::json::{opt_json, Json, JsonModel};
use crate::link_apply::{copy_path, path_once, push_path_once, push_texts_once, texts_once};
use crate::link_pack::lock_of;
use crate::link_remove::{paths_of, settle_removals, settled, KeyedPath, PathModel};
use crate::link_run::{FileWrite, StoreChanges};
use crate::links::{LinkLock, LockModel};
use crate::table::Table;
use crate::text::{lemma_texts_push, texts};
use crate::wally::{Realm, RealmModel, WallyError, WallyRealm};
use crate::wally_sync::{record_realm, ImportPlan, RealmStep};

verus! {

broadcast use vstd::seq_lib::group_seq_properties;

/// The first `n` of some files, the last of each path.
pub open spec fn written(m: Map<Seq<char>, Seq<u8>>, files: Seq<FileWrite>, n: nat) -> Map<Seq<char>, Seq<u8>>
    decreases n,
{
    if n == 0 {
        m
    } else {
        written(m, files, (n - 1) as nat).insert(files[n - 1].path@.path, files[n - 1].content@)
    }
}

/// The keys of the paths of some files.
pub open spec fn file_keys(files: Seq<FileWrite>) -> Seq<Seq<char>> {
    Seq::new(files.len(), |i: int| files[i].path@.key)
}

/// What importing a realm came to, or removing it.
pub struct RealmOutcome {
    pub service: String,
    pub changed_paths: Vec<KeyedPath>,
    pub settings_ids: Vec<String>,
    pub source_writes: Vec<String>,
    pub removed_settings_ids: Vec<String>,
    /// The folder that went, where there was one.
    pub removed_target: Option<Json>,
    pub writes: Vec<FileWrite>,
    pub removals: Vec<KeyedPath>,
}

/// What is told of a realm.
pub struct RealmReport {
    pub realm: Realm,
    pub service: String,
    pub target_name: String,
    pub skipped: bool,
    pub removed: bool,
    /// The realm is kept in a store of settings.
    pub in_store: bool,
    pub settings_ids: Vec<String>,
    pub source_writes: Vec<String>,
    pub removed_settings_ids: Vec<String>,
    pub removed_target: Option<Json>,
}

#[verifier::ext_equal]
pub struct ReportModel {
    pub realm: Realm,
    pub service: Seq<char>,
    pub target_name: Seq<char>,
    pub skipped: bool,
    pub removed: bool,
    pub in_store: bool,
    pub settings_ids: Seq<Seq<char>>,
    pub source_writes: Seq<Seq<char>>,
    pub removed_settings_ids: Seq<Seq<char>>,
    pub removed_target: Option<JsonModel>,
}

impl View for RealmReport {
    type V = ReportModel;

    open spec fn view(&self) -> ReportModel {
        ReportModel {
            realm: self.realm,
            service: self.service@,
            target_name: self.target_name@,
            skipped: self.skipped,
            removed: self.removed,
            in_store: self.in_store,
            settings_ids: texts(self.settings_ids@),
            source_writes: texts(self.source_writes@),
            removed_settings_ids: texts(self.removed_settings_ids@),
            removed_target: opt_json(self.removed_target),
        }
    }
}

pub open spec fn reports_of(v: Seq<RealmReport>) -> Seq<ReportModel> {
    Seq::new(v.len(), |i: int| v[i]@)
}

pub open spec fn values_of(v: Seq<Json>) -> Seq<JsonModel> {
    Seq::new(v.len(), |i: int| v[i]@)
}

/// How far a sync has come.
pub struct WallyRun {
    pub lock: LinkLock,
    pub changed_paths: Vec<KeyedPath>,
    pub settings_ids: Vec<String>,
    pub removed_targets: Vec<Json>,
    pub writes: Table<String, Vec<u8>>,
    /// The keys of what is written.
    pub written_keys: Vec<String>,
    pub removals: Vec<KeyedPath>,
    pub applied: u64,
    pub skipped: u64,
    pub reports: Vec<RealmReport>,
}

#[verifier::ext_equal]
pub struct SyncModel {
    pub lock: Map<Seq<char>, LockModel>,
    pub changed_paths: Seq<PathModel>,
    pub settings_ids: Seq<Seq<char>>,
    pub removed_targets: Seq<JsonModel>,
    pub writes: Map<Seq<char>, Seq<u8>>,
    pub written_keys: Seq<Seq<char>>,
    pub removals: Seq<PathModel>,
    pub applied: nat,
    pub skipped: nat,
    pub reports: Seq<ReportModel>,
}

impl View for WallyRun {
    type V = SyncModel;

    open spec fn view(&self) -> SyncModel {
        SyncModel {
            lock: self.lock@,
            changed_paths: paths_of(self.changed_paths@),
            settings_ids: texts(self.settings_ids@),
            removed_targets: values_of(self.removed_targets@),
            writes: self.writes@,
            written_keys: texts(self.written_keys@),
            removals: paths_of(self.removals@),
            applied: self.applied as nat,
            skipped: self.skipped as nat,
            reports: reports_of(self.reports@),
        }
    }
}

/// Some paths with the first `n` of others, each key once.
pub open spec fn paths_once(paths: Seq<PathModel>, more: Seq<PathModel>, n: nat) -> Seq<PathModel>
    decreases n,
{
    if n == 0 {
        paths
    } else {
        path_once(paths_once(paths, more, (n - 1) as nat), more[n - 1])
    }
}

/// A list with one more value, where there is one.
pub open spec fn with_some(list: Seq<JsonModel>, v: Option<JsonModel>) -> Seq<JsonModel> {
    match v {
        Some(v) => list.push(v),
        None => list,
    }
}

/// What is told of a realm of which nothing but its name is to be told.
pub open spec fn bare_report(realm: RealmModel, skipped: bool) -> ReportModel {
    ReportModel {
        realm: realm.realm,
        service: realm.service,
        target_name: realm.target_name,
        skipped,
        removed: !skipped,
        in_store: false,
        settings_ids: Seq::empty(),
        source_writes: Seq::empty(),
        removed_settings_ids: Seq::empty(),
        removed_target: None,
    }
}

/// A sync after the turn of a realm, or why it stops there.
pub open spec fn realm_taken(
    s: SyncModel,
    realm: RealmModel,
    key: Seq<char>,
    step: RealmStep,
    o: RealmOutcome,
    hash: Seq<char>,
) -> Result<SyncModel, WallyError> {
    match step {
        RealmStep::Fail(e) => Err(e),
        RealmStep::Ignore => Ok(s),
        RealmStep::Skip => Ok(
            SyncModel { skipped: s.skipped + 1, reports: s.reports.push(bare_report(realm, true)), ..s },
        ),
        RealmStep::RemoveFiles => Ok(
            SyncModel {
                lock: s.lock.remove(key),
                removals: s.removals + paths_of(o.removals@),
                applied: s.applied + 1,
                reports: s.reports.push(bare_report(realm, false)),
                ..s
            },
        ),
        RealmStep::RemoveInstances => Ok(
            SyncModel {
                lock: s.lock.remove(key),
                changed_paths: paths_once(s.changed_paths, paths_of(o.changed_paths@), o.changed_paths@.len()),
                removed_targets: with_some(s.removed_targets, opt_json(o.removed_target)),
                removals: s.removals + paths_of(o.removals@),
                applied: s.applied + 1,
                reports: s.reports.push(
                    ReportModel {
                        service: o.service@,
                        in_store: true,
                        removed_settings_ids: texts(o.removed_settings_ids@),
                        removed_target: opt_json(o.removed_target),
                        ..bare_report(realm, false)
                    },
                ),
                ..s
            },
        ),
        RealmStep::Import { make_directory } => Ok(
            SyncModel {
                lock: s.lock.insert(key, LockModel { resolved_ref: Some(hash), ..lock_of(s.lock, key) }),
                changed_paths: paths_once(s.changed_paths, paths_of(o.changed_paths@), o.changed_paths@.len()),
                settings_ids: texts_once(s.settings_ids, texts(o.settings_ids@), o.settings_ids@.len()),
                removed_targets: with_some(s.removed_targets, opt_json(o.removed_target)),
                writes: written(s.writes, o.writes@, o.writes@.len()),
                written_keys: s.written_keys + file_keys(o.writes@),
                removals: s.removals + paths_of(o.removals@),
                applied: s.applied + 1,
                reports: s.reports.push(
                    ReportModel {
                        service: o.service@,
                        removed: false,
                        in_store: true,
                        settings_ids: texts(o.settings_ids@),
                        source_writes: texts(o.source_writes@),
                        removed_settings_ids: texts(o.removed_settings_ids@),
                        removed_target: opt_json(o.removed_target),
                        ..bare_report(realm, false)
                    },
                ),
                ..s
            },
        ),
    }
}

impl WallyRun {
    /// A sync that starts with a lock.
    pub fn new(lock: LinkLock) -> (r: WallyRun)
        ensures
            r@ == (SyncModel {
                lock: lock@,
                changed_paths: Seq::empty(),
                settings_ids: Seq::empty(),
                removed_targets: Seq::empty(),
                writes: Map::empty(),
                written_keys: Seq::empty(),
                removals: Seq::empty(),
                applied: 0,
                skipped: 0,
                reports: Seq::empty(),
            }),
    {
        WallyRun {
            lock,
            changed_paths: Vec::new(),
            settings_ids: Vec::new(),
            removed_targets: Vec::new(),
            writes: Table::new(),
            written_keys: Vec::new(),
            removals: Vec::new(),
            applied: 0,
            skipped: 0,
            reports: Vec::new(),
        }
    }

    fn mark_paths(&mut self, more: &Vec<KeyedPath>)
        ensures
            final(self)@ == (SyncModel {
                changed_paths: paths_once(old(self)@.changed_paths, paths_of(more@), more@.len()),
                ..old(self)@
            }),
    {
        let mut i: usize = 0;
        while i < more.len()
            invariant
                i <= more.len(),
                self@ == (SyncModel {
                    changed_paths: paths_once(old(self)@.changed_paths, paths_of(more@), i as nat),
                    ..old(self)@
                }),
            decreases more.len() - i,
        {
            push_path_once(&mut self.changed_paths, &more[i]);
            assert(paths_of(more@)[i as int] == more@[i as int]@);
            i += 1;
        }
    }

    fn add_removals(&mut self, more: Vec<KeyedPath>)
        ensures
            final(self)@ == (SyncModel { removals: old(self)@.removals + paths_of(more@), ..old(self)@ }),
    {
        let mut more = more;
        let ghost before = self.removals@;
        let ghost rest = more@;
        self.removals.append(&mut more);
        assert(paths_of(self.removals@) =~= paths_of(before) + paths_of(rest));
    }

    fn add_removed(&mut self, value: &Option<Json>)
        ensures
            final(self)@ == (SyncModel {
                removed_targets: with_some(old(self)@.removed_targets, opt_json(*value)),
                ..old(self)@
            }),
    {
        if let Some(v) = value {
            let copy = v.copy();
            assert(values_of(self.removed_targets@.push(copy)) =~= values_of(self.removed_targets@).push(copy@));
            self.removed_targets.push(copy);
        }
    }

    fn add_writes(&mut self, more: Vec<FileWrite>)
        ensures
            final(self)@ == (SyncModel {
                writes: written(old(self)@.writes, more@, more@.len()),
                written_keys: old(self)@.written_keys + file_keys(more@),
                ..old(self)@
            }),
    {
        let ghost all = more@;
        let mut rest = more;
        let ghost mut n: nat = 0;
        assert(all.skip(0) =~= all);
        assert(file_keys(all).take(0) =~= Seq::empty());
        while rest.len() > 0
            invariant
                n <= all.len(),
                rest@.len() == all.len() - n,
                rest@ == all.skip(n as int),
                self@ == (SyncModel {
                    writes: written(old(self)@.writes, all, n),
                    written_keys: old(self)@.written_keys + file_keys(all).take(n as int),
                    ..old(self)@
                }),
            decreases rest@.len(),
        {
            assert(rest@[0] == all[n as int]);
            let w = rest.remove(0);
            let ghost keys = texts(self.written_keys@);
            proof {
                lemma_texts_push(self.written_keys@, w.path.key);
                assert(file_keys(all).take((n + 1) as int) =~= file_keys(all).take(n as int).push(w.path.key@));
                assert(keys.push(w.path.key@) =~= old(self)@.written_keys + file_keys(all).take((n + 1) as int));
            }
            self.written_keys.push(w.path.key);
            self.writes.put(w.path.path, w.content);
            proof {
                assert(rest@ =~= all.skip((n + 1) as int));
                n = n + 1;
            }
        }
        assert(file_keys(all).take(all.len() as int) =~= file_keys(all));
    }

    fn add_report(&mut self, report: RealmReport)
        ensures
            final(self)@ == (SyncModel { reports: old(self)@.reports.push(report@), ..old(self)@ }),
    {
        assert(reports_of(self.reports@.push(report)) =~= reports_of(self.reports@).push(report@));
        self.reports.push(report);
    }

    /// Takes the turn of a realm, with what doing its step came to.
    pub fn take_realm(
        &mut self,
        realm: &WallyRealm,
        key: &str,
        step: RealmStep,
        outcome: RealmOutcome,
        hash: &str,
    ) -> (r: Result<(), WallyError>)
        requires
            old(self).applied < u64::MAX,
            old(self).skipped < u64::MAX,
        ensures
            match realm_taken(old(self)@, realm@, key@, step, outcome, hash@) {
                Ok(after) => r is Ok && final(self)@ == after,
                Err(e) => r is Err && r->Err_0 == e && final(self)@ == old(self)@,
            },
    {
        let ghost s = self@;
        match step {
            RealmStep::Fail(e) => {
                return Err(e);
            },
            RealmStep::Ignore => {},
            RealmStep::Skip => {
                self.skipped = self.skipped + 1;
                self.add_report(bare(realm, true));
            },
            RealmStep::RemoveFiles => {
                self.add_removals(outcome.removals);
                record_realm(&mut self.lock, key, None);
                self.applied = self.applied + 1;
                self.add_report(bare(realm, false));
            },
            RealmStep::RemoveInstances => {
                self.mark_paths(&outcome.changed_paths);
                self.add_removed(&outcome.removed_target);
                self.add_removals(outcome.removals);
                record_realm(&mut self.lock, key, None);
                self.applied = self.applied + 1;
                let mut report = bare(realm, false);
                report.service = outcome.service;
                report.in_store = true;
                report.removed_settings_ids = outcome.removed_settings_ids;
                report.removed_target = outcome.removed_target;
                self.add_report(report);
            },
            RealmStep::Import { .. } => {
                self.mark_paths(&outcome.changed_paths);
                push_texts_once(&mut self.settings_ids, &outcome.settings_ids);
                self.add_removed(&outcome.removed_target);
                self.add_writes(outcome.writes);
                self.add_removals(outcome.removals);
                record_realm(&mut self.lock, key, Some(hash.to_owned()));
                self.applied = self.applied + 1;
                let mut report = bare(realm, false);
                report.service = outcome.service;
                report.removed = false;
                report.in_store = true;
                report.settings_ids = outcome.settings_ids;
                report.source_writes = outcome.source_writes;
                report.removed_settings_ids = outcome.removed_settings_ids;
                report.removed_target = outcome.removed_target;
                self.add_report(report);
            },
        }
        Ok(())
    }

    /// The report that stands for the whole sync: the first realm that was not skipped, or the first.
    pub fn primary(&self) -> (r: Option<usize>)
        ensures
            match r {
                None => self@.reports.len() == 0,
                Some(i) => {
                    &&& i < self@.reports.len()
                    &&& self@.reports[i as int].skipped ==> i == 0 && (forall|j: int|
                        0 <= j < self@.reports.len() ==> (#[trigger] self@.reports[j]).skipped)
                    &&& !self@.reports[i as int].skipped ==> (forall|j: int|
                        0 <= j < i ==> (#[trigger] self@.reports[j]).skipped)
                },
            },
    {
        let ghost all = self@.reports;
        let mut i: usize = 0;
        while i < self.reports.len()
            invariant
                i <= self.reports.len(),
                all == reports_of(self.reports@),
                forall|j: int| 0 <= j < i ==> (#[trigger] all[j]).skipped,
            decreases self.reports.len() - i,
        {
            assert(all[i as int] == self.reports@[i as int]@);
            if !self.reports[i].skipped {
                return Some(i);
            }
            i += 1;
        }
        if self.reports.len() == 0 {
            None
        } else {
            Some(0)
        }
    }
}

fn bare(realm: &WallyRealm, skipped: bool) -> (r: RealmReport)
    ensures
        r@ == bare_report(realm@, skipped),
{
    RealmReport {
        realm: realm.realm,
        service: realm.service.clone(),
        target_name: realm.target_name.clone(),
        skipped,
        removed: !skipped,
        in_store: false,
        settings_ids: Vec::new(),
        source_writes: Vec::new(),
        removed_settings_ids: Vec::new(),
        removed_target: None,
    }
}

/// A file of a package with the file of the project that it goes to.
pub struct PackageFile {
    pub mirror: KeyedPath,
    pub content: Vec<u8>,
    /// An instance stands for the file of the project.
    pub has_instance: bool,
}

/// The files of the project, of the first `n`, that an instance stands for.
pub open spec fn instance_files(files: Seq<PackageFile>, n: nat) -> Seq<PathModel>
    decreases n,
{
    if n == 0 {
        Seq::empty()
    } else if files[n - 1].has_instance {
        instance_files(files, (n - 1) as nat).push(files[n - 1].mirror@)
    } else {
        instance_files(files, (n - 1) as nat)
    }
}

/// The names of some paths.
pub open spec fn path_names(paths: Seq<PathModel>) -> Seq<Seq<char>> {
    Seq::new(paths.len(), |i: int| paths[i].path)
}

/// What goes with a realm.
pub struct RealmRemoval {
    pub settings_ids: Vec<String>,
    /// The folder that goes, where there is one.
    pub target: Option<Json>,
    pub files: Vec<KeyedPath>,
}

/// What goes with a realm whose folder an import plan replaces, with the `files` of its packages.
pub fn planned_removal(plan: ImportPlan, files: Vec<KeyedPath>) -> (r: RealmRemoval)
    ensures
        r.settings_ids == plan.removed,
        r.target == plan.removed_target,
        r.files == files,
{
    RealmRemoval { settings_ids: plan.removed, target: plan.removed_target, files }
}

/// What removing a realm comes to: every file of it that goes has changed.
pub fn removal_outcome(realm: &WallyRealm, removal: RealmRemoval) -> (r: RealmOutcome)
    ensures
        r.service@ == realm.service@,
        r.removed_settings_ids == removal.settings_ids,
        r.removed_target == removal.target,
        paths_of(r.changed_paths@) == paths_of(removal.files@),
        r.removals == removal.files,
        r.settings_ids@.len() == 0,
        r.source_writes@.len() == 0,
        r.writes@.len() == 0,
{
    let mut changed: Vec<KeyedPath> = Vec::new();
    let mut i: usize = 0;
    while i < removal.files.len()
        invariant
            i <= removal.files.len(),
            changed@.len() == i,
            forall|j: int| 0 <= j < i ==> (#[trigger] changed@[j])@ == removal.files@[j]@,
        decreases removal.files.len() - i,
    {
        changed.push(copy_path(&removal.files[i]));
        i += 1;
    }
    assert(paths_of(changed@) =~= paths_of(removal.files@));
    RealmOutcome {
        service: realm.service.clone(),
        changed_paths: changed,
        settings_ids: Vec::new(),
        source_writes: Vec::new(),
        removed_settings_ids: removal.settings_ids,
        removed_target: removal.target,
        writes: Vec::new(),
        removals: removal.files,
    }
}

/// What importing a realm comes to: every file of its packages is written, and those that an instance
/// stands for have changed. `settings_ids` are those of the instances that were made.
pub fn import_outcome(realm: &WallyRealm, removal: RealmRemoval, files: Vec<PackageFile>, settings_ids: Vec<String>) -> (r:
    RealmOutcome)
    ensures
        r.service@ == realm.service@,
        r.removed_settings_ids == removal.settings_ids,
        r.removed_target == removal.target,
        r.removals == removal.files,
        r.settings_ids == settings_ids,
        paths_of(r.changed_paths@) == paths_once(
            Seq::empty(),
            instance_files(files@, files@.len()),
            instance_files(files@, files@.len()).len(),
        ),
        texts(r.source_writes@) == path_names(instance_files(files@, files@.len())),
        r.writes@.len() == files@.len(),
        forall|i: int|
            0 <= i < files@.len() ==> (#[trigger] r.writes@[i]).path@ == files@[i].mirror@ && r.writes@[i].content
                == files@[i].content,
{
    let ghost all = files@;
    let mut changed: Vec<KeyedPath> = Vec::new();
    let mut source_writes: Vec<String> = Vec::new();
    let mut writes: Vec<FileWrite> = Vec::new();
    let mut rest = files;
    let ghost mut n: nat = 0;
    assert(all.skip(0) =~= all);
    assert(paths_of(changed@) =~= Seq::empty());
    assert(texts(source_writes@) =~= path_names(instance_files(all, 0)));
    while rest.len() > 0
        invariant
            n <= all.len(),
            rest@.len() == all.len() - n,
            rest@ == all.skip(n as int),
            paths_of(changed@) == paths_once(Seq::empty(), instance_files(all, n), instance_files(all, n).len()),
            texts(source_writes@) == path_names(instance_files(all, n)),
            writes@.len() == n,
            forall|i: int|
                0 <= i < n ==> (#[trigger] writes@[i]).path@ == all[i].mirror@ && writes@[i].content == all[i].content,
        decreases rest@.len(),
    {
        let ghost before = instance_files(all, n);
        assert(rest@[0] == all[n as int]);
        let file = rest.remove(0);
        if file.has_instance {
            push_path_once(&mut changed, &file.mirror);
            let name = file.mirror.path.clone();
            proof {
                let now = before.push(file.mirror@);
                assert(instance_files(all, n + 1) == now);
                lemma_paths_once_prefix(Seq::empty(), before, now, before.len());
                lemma_texts_push(source_writes@, name);
                assert(path_names(now) =~= path_names(before).push(name@));
            }
            source_writes.push(name);
        }
        writes.push(FileWrite { path: file.mirror, content: file.content });
        proof {
            assert(rest@ =~= all.skip((n + 1) as int));
            n = n + 1;
        }
    }
    RealmOutcome {
        service: realm.service.clone(),
        changed_paths: changed,
        settings_ids,
        source_writes,
        removed_settings_ids: removal.settings_ids,
        removed_target: removal.target,
        writes,
        removals: removal.files,
    }
}

proof fn lemma_paths_once_prefix(paths: Seq<PathModel>, a: Seq<PathModel>, b: Seq<PathModel>, n: nat)
    requires
        n <= a.len() <= b.len(),
        forall|i: int| 0 <= i < n ==> a[i] == b[i],
    ensures
        paths_once(paths, a, n) == paths_once(paths, b, n),
    decreases n,
{
    if n > 0 {
        lemma_paths_once_prefix(paths, a, b, (n - 1) as nat);
    }
}

/// Where nothing was applied, there is nothing to write: the lock is as it was, and no file is written or
/// removed.
pub proof fn law_nothing_applied_changes_nothing(
    s: SyncModel,
    realm: RealmModel,
    key: Seq<char>,
    step: RealmStep,
    o: RealmOutcome,
    hash: Seq<char>,
)
    ensures
        realm_taken(s, realm, key, step, o, hash) matches Ok(after) ==> after.applied == s.applied ==> {
            &&& after.lock == s.lock
            &&& after.writes == s.writes
            &&& after.written_keys == s.written_keys
            &&& after.removals == s.removals
            &&& after.changed_paths == s.changed_paths
        },
{
}

/// An imported realm is recorded with the hash that it was imported from, and no other entry of the lock
/// changes.
pub proof fn law_imported_realm_is_recorded(
    s: SyncModel,
    realm: RealmModel,
    key: Seq<char>,
    made: bool,
    o: RealmOutcome,
    hash: Seq<char>,
    other: Seq<char>,
)
    requires
        other != key,
    ensures
        realm_taken(s, realm, key, RealmStep::Import { make_directory: made }, o, hash) matches Ok(after) && {
            &&& after.lock.dom().contains(key)
            &&& after.lock[key].resolved_ref == Some(hash)
            &&& after.lock.dom().contains(other) == s.lock.dom().contains(other)
            &&& after.lock[other] == s.lock[other]
        },
{
}

/// What a sync leaves on the disk.
pub struct SyncEnd {
    pub writes: Table<String, Vec<u8>>,
    pub lock: LinkLock,
    /// The file is written that keeps the tool's own directory out of version control.
    pub gitignore: bool,
    pub removals: Vec<KeyedPath>,
}

/// The keys of all that a sync writes.
pub open spec fn sync_keys(
    s: SyncModel,
    stores: StoreChanges,
    lock_key: Seq<char>,
    gitignore_key: Seq<char>,
    gitignore_exists: bool,
) -> Seq<Seq<char>> {
    let keys = (s.written_keys + file_keys(stores.writes@)).push(lock_key);
    if gitignore_exists {
        keys
    } else {
        keys.push(gitignore_key)
    }
}

/// Ends a sync. Where nothing was applied, nothing is written; else the packages, the stores and the lock
/// are, and the file that keeps the tool's directory out of version control where it was not there. What is
/// written is not removed.
pub fn sync_writes(
    run: WallyRun,
    stores: StoreChanges,
    lock_key: &str,
    gitignore_key: &str,
    gitignore_exists: bool,
) -> (r: Option<SyncEnd>)
    ensures
        r is None <==> run.applied == 0,
        r matches Some(end) ==> {
            &&& end.writes@ == written(run@.writes, stores.writes@, stores.writes@.len())
            &&& end.lock@ == run@.lock
            &&& end.gitignore == !gitignore_exists
            &&& settled(
                run@.removals + paths_of(stores.removals@),
                sync_keys(run@, stores, lock_key@, gitignore_key@, gitignore_exists),
                paths_of(end.removals@),
            )
        },
{
    if run.applied == 0 {
        return None;
    }
    let StoreChanges { writes, removals } = stores;
    let mut run = run;
    let ghost start = run@;
    run.add_writes(writes);
    run.add_removals(removals);
    let mut keys = run.written_keys;
    let lock_name = lock_key.to_owned();
    proof {
        lemma_texts_push(keys@, lock_name);
    }
    keys.push(lock_name);
    if !gitignore_exists {
        let name = gitignore_key.to_owned();
        proof {
            lemma_texts_push(keys@, name);
        }
        keys.push(name);
    }
    assert(texts(keys@) =~= sync_keys(start, stores, lock_key@, gitignore_key@, gitignore_exists));
    let removals = settle_removals(&run.removals, &keys);
    Some(SyncEnd { writes: run.writes, lock: run.lock, gitignore: !gitignore_exists, removals })
}

} // verus!
