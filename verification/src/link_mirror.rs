//! Files that mirror the files of a link's source.
use vstd::prelude::*;

use crate::link_apply::{
    path_once, text_once, with_broken_target, mark_manifest_target_broken, ApplyMode, ChangesModel, LinkApplyChanges,
};
use crate::link_remove::{KeyedPath, PathModel};
use crate::links::{opt_text, targets_hold, LinkManifest, LinkTargetRef, TargetLock};
use crate::table::{key_views, Table};
use crate::text::{lemma_texts_push, same, texts};

verus! {

broadcast use vstd::seq_lib::group_seq_properties;

/// A file of the source with its mirror in the project.
pub struct MirrorFile {
    pub mirror: KeyedPath,
    /// The name under which the lock keeps the mirror.
    pub lock_key: String,
    /// What the file of the source holds, and its hash.
    pub content: String,
    pub content_hash: String,
    /// What the mirror holds, where it can be read, and its hash.
    pub current: Option<String>,
    pub current_hash: String,
    /// The mirror is there.
    pub exists: bool,
    /// The store of settings in which the instance for the mirror was made or changed, if it was.
    pub changed_store: Option<KeyedPath>,
    /// The settings id of that instance.
    pub settings_id: Option<String>,
}

#[verifier::ext_equal]
pub struct FileModel {
    pub mirror: PathModel,
    pub lock_key: Seq<char>,
    pub content: Seq<char>,
    pub content_hash: Seq<char>,
    pub current: Option<Seq<char>>,
    pub current_hash: Seq<char>,
    pub exists: bool,
    pub changed_store: Option<PathModel>,
    pub settings_id: Option<Seq<char>>,
}

impl View for MirrorFile {
    type V = FileModel;

    open spec fn view(&self) -> FileModel {
        FileModel {
            mirror: self.mirror@,
            lock_key: self.lock_key@,
            content: self.content@,
            content_hash: self.content_hash@,
            current: opt_text(self.current),
            current_hash: self.current_hash@,
            exists: self.exists,
            changed_store: match self.changed_store {
                Some(p) => Some(p@),
                None => None,
            },
            settings_id: opt_text(self.settings_id),
        }
    }
}

pub open spec fn files_of(v: Seq<MirrorFile>) -> Seq<FileModel> {
    Seq::new(v.len(), |i: int| v[i]@)
}

/// A mirror that the lock keeps but the source has no file for any more.
pub struct StaleMirror {
    pub mirror: KeyedPath,
    pub lock_key: String,
    pub exists: bool,
    /// The hash of what the mirror holds, where it can be read.
    pub current_hash: Option<String>,
}

#[verifier::ext_equal]
pub struct StaleModel {
    pub mirror: PathModel,
    pub lock_key: Seq<char>,
    pub exists: bool,
    pub current_hash: Option<Seq<char>>,
}

impl View for StaleMirror {
    type V = StaleModel;

    open spec fn view(&self) -> StaleModel {
        StaleModel {
            mirror: self.mirror@,
            lock_key: self.lock_key@,
            exists: self.exists,
            current_hash: opt_text(self.current_hash),
        }
    }
}

pub open spec fn stale_of(v: Seq<StaleMirror>) -> Seq<StaleModel> {
    Seq::new(v.len(), |i: int| v[i]@)
}

/// One of the files was mirrored before.
pub open spec fn was_applied(files: Seq<FileModel>, locked: Map<Seq<char>, Seq<char>>) -> bool {
    exists|i: int| 0 <= i < files.len() && locked.dom().contains((#[trigger] files[i]).lock_key)
}

/// One of the files was mirrored before, and its mirror is gone.
pub open spec fn lost_mirror(files: Seq<FileModel>, locked: Map<Seq<char>, Seq<char>>) -> bool {
    exists|i: int|
        0 <= i < files.len() && locked.dom().contains((#[trigger] files[i]).lock_key) && !files[i].exists
}

/// The target was applied before and someone deleted it, or a file of it.
pub open spec fn mirror_deleted(
    files: Seq<FileModel>,
    locked: Map<Seq<char>, Seq<char>>,
    target_exists: bool,
    forced: bool,
) -> bool {
    was_applied(files, locked) && (!target_exists || lost_mirror(files, locked)) && !forced
}

/// Whether the target was applied before and someone deleted it, or a file of it.
pub fn is_mirror_deleted(files: &Vec<MirrorFile>, lock: &TargetLock, target_exists: bool, forced: bool) -> (r: bool)
    ensures
        r == mirror_deleted(files_of(files@), lock@.files, target_exists, forced),
{
    let ghost all = files_of(files@);
    let mut applied = false;
    let mut lost = false;
    let mut i: usize = 0;
    while i < files.len()
        invariant
            i <= files.len(),
            all == files_of(files@),
            applied == (exists|j: int| 0 <= j < i && lock@.files.dom().contains((#[trigger] all[j]).lock_key)),
            lost == (exists|j: int|
                0 <= j < i && lock@.files.dom().contains((#[trigger] all[j]).lock_key) && !all[j].exists),
        decreases files.len() - i,
    {
        assert(all[i as int] == files@[i as int]@);
        if lock.files.contains(&files[i].lock_key) {
            applied = true;
            if !files[i].exists {
                lost = true;
            }
        }
        i += 1;
    }
    applied && (!target_exists || lost) && !forced
}

/// The mirror of a writable target was edited since it was last written.
pub open spec fn locally_edited(file: FileModel, mode: ApplyMode, locked: Map<Seq<char>, Seq<char>>) -> bool {
    !mode.forced && !mode.read_only && file.current is Some && locked.dom().contains(file.lock_key)
        && locked[file.lock_key] != file.current_hash
}

/// The mirror does not hold what the source holds.
pub open spec fn mirror_differs(file: FileModel) -> bool {
    file.current != Some(file.content)
}

/// What applying mirrors did so far.
#[verifier::ext_equal]
pub struct MirrorModel {
    pub locked: Map<Seq<char>, Seq<char>>,
    pub changes: ChangesModel,
    /// What is written, by path.
    pub writes: Map<Seq<char>, Seq<char>>,
    /// Whether each path is made read-only.
    pub permissions: Map<Seq<char>, bool>,
    /// The mirrors whose edits were kept.
    pub preserved: Seq<Seq<char>>,
    /// The mirrors that changed.
    pub source_writes: Seq<Seq<char>>,
    pub settings_ids: Seq<Seq<char>>,
}

/// What applying one file does.
pub open spec fn file_applied(m: MirrorModel, file: FileModel, mode: ApplyMode) -> MirrorModel {
    let edited = locally_edited(file, mode, m.locked);
    let differs = mirror_differs(file);
    let changed = file.changed_store is Some || (differs && !edited);
    let differences = if differs {
        m.changes.differences + 1
    } else {
        m.changes.differences
    };
    MirrorModel {
        locked: if edited {
            m.locked
        } else {
            m.locked.insert(file.lock_key, file.content_hash)
        },
        changes: if changed {
            ChangesModel {
                settings_ids: match file.settings_id {
                    Some(id) => text_once(m.changes.settings_ids, id),
                    None => m.changes.settings_ids,
                },
                changed_paths: path_once(
                    match file.changed_store {
                        Some(store) => path_once(m.changes.changed_paths, store),
                        None => m.changes.changed_paths,
                    },
                    file.mirror,
                ),
                differences,
                ..m.changes
            }
        } else {
            ChangesModel { differences, ..m.changes }
        },
        writes: if !mode.check && !edited && differs {
            m.writes.insert(file.mirror.path, file.content)
        } else {
            m.writes
        },
        permissions: if mode.check {
            m.permissions
        } else {
            m.permissions.insert(file.mirror.path, mode.read_only)
        },
        preserved: if edited {
            m.preserved.push(file.mirror.path)
        } else {
            m.preserved
        },
        source_writes: if changed {
            m.source_writes.push(file.mirror.path)
        } else {
            m.source_writes
        },
        settings_ids: match file.settings_id {
            Some(id) => m.settings_ids.push(id),
            None => m.settings_ids,
        },
    }
}

/// What applying the first `n` files does.
pub open spec fn files_applied(m: MirrorModel, files: Seq<FileModel>, mode: ApplyMode, n: nat) -> MirrorModel
    decreases n,
{
    if n == 0 {
        m
    } else {
        file_applied(files_applied(m, files, mode, (n - 1) as nat), files[n - 1], mode)
    }
}

/// A mirror without a source was edited since it was last written.
pub open spec fn stale_edited(stale: StaleModel, mode: ApplyMode, locked: Map<Seq<char>, Seq<char>>) -> bool {
    !mode.forced && !mode.read_only && stale.current_hash is Some && locked.dom().contains(stale.lock_key)
        && Some(locked[stale.lock_key]) != stale.current_hash
}

/// What cleaning one mirror without a source up does: it goes, unless it holds edits.
pub open spec fn stale_cleaned(m: MirrorModel, stale: StaleModel, mode: ApplyMode) -> MirrorModel {
    let edited = stale_edited(stale, mode, m.locked);
    if mode.check {
        MirrorModel {
            changes: if stale.exists {
                ChangesModel { differences: m.changes.differences + 1, ..m.changes }
            } else {
                m.changes
            },
            ..m
        }
    } else {
        MirrorModel {
            locked: m.locked.remove(stale.lock_key),
            preserved: if edited {
                m.preserved.push(stale.mirror.path)
            } else {
                m.preserved
            },
            changes: if !edited && stale.exists {
                ChangesModel {
                    removals: m.changes.removals.push(stale.mirror),
                    differences: m.changes.differences + 1,
                    changed_paths: path_once(m.changes.changed_paths, stale.mirror),
                    ..m.changes
                }
            } else {
                m.changes
            },
            ..m
        }
    }
}

pub open spec fn all_stale_cleaned(m: MirrorModel, stale: Seq<StaleModel>, mode: ApplyMode, n: nat) -> MirrorModel
    decreases n,
{
    if n == 0 {
        m
    } else {
        stale_cleaned(all_stale_cleaned(m, stale, mode, (n - 1) as nat), stale[n - 1], mode)
    }
}

/// What is written, who may write it, and what is told of a target.
pub struct MirrorOutput {
    pub writes: Table<String, String>,
    pub permissions: Table<String, bool>,
    pub preserved: Vec<String>,
    pub source_writes: Vec<String>,
    pub settings_ids: Vec<String>,
}

/// The state of applying mirrors.
pub open spec fn mirror_state(lock: TargetLock, changes: LinkApplyChanges, output: MirrorOutput) -> MirrorModel {
    MirrorModel {
        locked: lock@.files,
        changes: changes@,
        writes: output.writes@,
        permissions: output.permissions@,
        preserved: texts(output.preserved@),
        source_writes: texts(output.source_writes@),
        settings_ids: texts(output.settings_ids@),
    }
}

impl MirrorOutput {
    pub fn new() -> (r: MirrorOutput)
        ensures
            r.writes@ == Map::<Seq<char>, Seq<char>>::empty(),
            r.permissions@ == Map::<Seq<char>, bool>::empty(),
            texts(r.preserved@) == Seq::<Seq<char>>::empty(),
            texts(r.source_writes@) == Seq::<Seq<char>>::empty(),
            texts(r.settings_ids@) == Seq::<Seq<char>>::empty(),
    {
        let r = MirrorOutput {
            writes: Table::new(),
            permissions: Table::new(),
            preserved: Vec::new(),
            source_writes: Vec::new(),
            settings_ids: Vec::new(),
        };
        assert(texts(r.preserved@) =~= Seq::<Seq<char>>::empty());
        r
    }
}

fn push_text(list: &mut Vec<String>, s: &str)
    ensures
        texts(final(list)@) == texts(old(list)@).push(s@),
{
    let copy = s.to_owned();
    proof {
        lemma_texts_push(list@, copy);
    }
    list.push(copy);
}

fn apply_file(
    file: &MirrorFile,
    mode: ApplyMode,
    lock: &mut TargetLock,
    changes: &mut LinkApplyChanges,
    output: &mut MirrorOutput,
)
    requires
        old(changes).differences < u64::MAX,
    ensures
        mirror_state(*final(lock), *final(changes), *final(output)) == file_applied(
            mirror_state(*old(lock), *old(changes), *old(output)),
            file@,
            mode,
        ),
        final(lock)@.settings_id == old(lock)@.settings_id,
{
    let ghost start = mirror_state(*lock, *changes, *output);
    let synced_differs = match lock.files.get(&file.lock_key) {
        Some(synced) => !same(synced, &file.current_hash),
        None => false,
    };
    let edited = !mode.forced && !mode.read_only && file.current.is_some() && synced_differs;
    let differs = match &file.current {
        Some(current) => !same(current, &file.content),
        None => true,
    };
    if !mode.check && !edited && differs {
        output.writes.put(file.mirror.path.clone(), file.content.clone());
    }
    if differs {
        changes.differences = changes.differences + 1;
    }
    if edited {
        push_text(&mut output.preserved, &file.mirror.path);
    }
    match &file.settings_id {
        Some(id) => {
            push_text(&mut output.settings_ids, id);
        },
        None => {},
    }
    if let Some(store) = &file.changed_store {
        changes.mark_path(store);
    }
    if file.changed_store.is_some() || (differs && !edited) {
        match &file.settings_id {
            Some(id) => {
                let mut one: Vec<String> = Vec::new();
                push_text(&mut one, id);
                let ghost before = changes@.settings_ids;
                assert(texts(one@) =~= seq![id@]);
                changes.mark_settings_ids(&one);
                assert(changes@.settings_ids == text_once(before, id@)) by {
                    reveal_with_fuel(crate::link_apply::texts_once, 2);
                }
            },
            None => {},
        }
        changes.mark_path(&file.mirror);
        push_text(&mut output.source_writes, &file.mirror.path);
    }
    if !edited {
        lock.files.put(file.lock_key.clone(), file.content_hash.clone());
    }
    if !mode.check {
        output.permissions.put(file.mirror.path.clone(), mode.read_only);
    }
    assert(mirror_state(*lock, *changes, *output) =~= file_applied(start, file@, mode));
}

fn clean_stale(
    stale: &StaleMirror,
    mode: ApplyMode,
    lock: &mut TargetLock,
    changes: &mut LinkApplyChanges,
    output: &mut MirrorOutput,
)
    requires
        old(changes).differences < u64::MAX,
    ensures
        mirror_state(*final(lock), *final(changes), *final(output)) == stale_cleaned(
            mirror_state(*old(lock), *old(changes), *old(output)),
            stale@,
            mode,
        ),
        final(lock)@.settings_id == old(lock)@.settings_id,
{
    let ghost start = mirror_state(*lock, *changes, *output);
    let synced_differs = match (lock.files.get(&stale.lock_key), &stale.current_hash) {
        (Some(synced), Some(current)) => !same(synced, current),
        _ => false,
    };
    let edited = !mode.forced && !mode.read_only && synced_differs;
    if mode.check {
        if stale.exists {
            changes.differences = changes.differences + 1;
        }
        return;
    }
    if edited {
        push_text(&mut output.preserved, &stale.mirror.path);
    } else if stale.exists {
        let p = KeyedPath { path: stale.mirror.path.clone(), key: stale.mirror.key.clone() };
        changes.remove_package_path(p);
        changes.differences = changes.differences + 1;
    }
    lock.files.take(&stale.lock_key);
    assert(mirror_state(*lock, *changes, *output) =~= stale_cleaned(start, stale@, mode));
}

proof fn lemma_file_differences(m: MirrorModel, files: Seq<FileModel>, mode: ApplyMode, n: nat)
    requires
        n <= files.len(),
    ensures
        files_applied(m, files, mode, n).changes.differences <= m.changes.differences + n,
    decreases n,
{
    if n > 0 {
        lemma_file_differences(m, files, mode, (n - 1) as nat);
    }
}

proof fn lemma_stale_differences(m: MirrorModel, stale: Seq<StaleModel>, mode: ApplyMode, n: nat)
    requires
        n <= stale.len(),
    ensures
        all_stale_cleaned(m, stale, mode, n).changes.differences <= m.changes.differences + n,
    decreases n,
{
    if n > 0 {
        lemma_stale_differences(m, stale, mode, (n - 1) as nat);
    }
}

/// The state after a target was mirrored.
pub open spec fn mirrored(m: MirrorModel, files: Seq<FileModel>, stale: Seq<StaleModel>, mode: ApplyMode) -> MirrorModel {
    let after = all_stale_cleaned(files_applied(m, files, mode, files.len()), stale, mode, stale.len());
    MirrorModel { changes: ChangesModel { processed: after.changes.processed + 1, ..after.changes }, ..after }
}

proof fn lemma_processed_kept(m: MirrorModel, files: Seq<FileModel>, stale: Seq<StaleModel>, mode: ApplyMode, n: nat, k: nat)
    requires
        n <= files.len(),
        k <= stale.len(),
    ensures
        files_applied(m, files, mode, n).changes.processed == m.changes.processed,
        all_stale_cleaned(files_applied(m, files, mode, n), stale, mode, k).changes.processed == m.changes.processed,
    decreases n + k,
{
    if k > 0 {
        lemma_processed_kept(m, files, stale, mode, n, (k - 1) as nat);
    } else if n > 0 {
        lemma_processed_kept(m, files, stale, mode, (n - 1) as nat, k);
    }
}

/// Brings the mirrors of a target up to date. A target that was deleted is marked broken instead. The
/// answer says whether the target was mirrored.
pub fn apply_mirror(
    target: &LinkTargetRef,
    files: &Vec<MirrorFile>,
    stale: &Vec<StaleMirror>,
    target_exists: bool,
    mode: ApplyMode,
    manifest: &mut LinkManifest,
    lock: &mut TargetLock,
    changes: &mut LinkApplyChanges,
    output: &mut MirrorOutput,
) -> (r: bool)
    requires
        old(changes).processed_targets < u64::MAX,
        old(changes).differences + files@.len() + stale@.len() < u64::MAX,
    ensures
        r == !mirror_deleted(files_of(files@), old(lock)@.files, target_exists, mode.forced),
        final(lock)@.settings_id == old(lock)@.settings_id,
        r ==> {
            &&& final(manifest)@ == old(manifest)@
            &&& mirror_state(*final(lock), *final(changes), *final(output)) == mirrored(
                mirror_state(*old(lock), *old(changes), *old(output)),
                files_of(files@),
                stale_of(stale@),
                mode,
            )
        },
        !r ==> {
            &&& final(manifest)@ == if mode.check {
                old(manifest)@
            } else {
                with_broken_target(old(manifest)@, target@)
            }
            &&& mirror_state(*final(lock), *final(changes), *final(output)) == (MirrorModel {
                changes: ChangesModel {
                    processed: old(changes)@.processed + 1,
                    differences: old(changes)@.differences + 1,
                    manifest_changed: old(changes)@.manifest_changed || (!mode.check && !targets_hold(
                        old(manifest)@.broken,
                        target@.key(),
                    )),
                    ..old(changes)@
                },
                ..mirror_state(*old(lock), *old(changes), *old(output))
            })
        },
{
    if is_mirror_deleted(files, lock, target_exists, mode.forced) {
        if !mode.check {
            let newly = mark_manifest_target_broken(manifest, target);
            changes.manifest_changed = changes.manifest_changed || newly;
        }
        changes.differences = changes.differences + 1;
        changes.processed_targets = changes.processed_targets + 1;
        return false;
    }
    let ghost start = mirror_state(*lock, *changes, *output);
    let mut i: usize = 0;
    while i < files.len()
        invariant
            i <= files.len(),
            start == mirror_state(*old(lock), *old(changes), *old(output)),
            start.changes.differences + files@.len() + stale@.len() < u64::MAX,
            mirror_state(*lock, *changes, *output) == files_applied(start, files_of(files@), mode, i as nat),
            lock@.settings_id == old(lock)@.settings_id,
        decreases files.len() - i,
    {
        proof {
            lemma_file_differences(start, files_of(files@), mode, i as nat);
            assert(mirror_state(*lock, *changes, *output).changes.differences == changes.differences);
        }
        apply_file(&files[i], mode, lock, changes, output);
        i += 1;
    }
    let ghost filed = mirror_state(*lock, *changes, *output);
    proof {
        lemma_file_differences(start, files_of(files@), mode, files@.len());
    }
    let mut k: usize = 0;
    while k < stale.len()
        invariant
            k <= stale.len(),
            filed.changes.differences + stale@.len() < u64::MAX,
            mirror_state(*lock, *changes, *output) == all_stale_cleaned(filed, stale_of(stale@), mode, k as nat),
            lock@.settings_id == old(lock)@.settings_id,
        decreases stale.len() - k,
    {
        proof {
            lemma_stale_differences(filed, stale_of(stale@), mode, k as nat);
            assert(mirror_state(*lock, *changes, *output).changes.differences == changes.differences);
        }
        clean_stale(&stale[k], mode, lock, changes, output);
        k += 1;
    }
    proof {
        lemma_processed_kept(start, files_of(files@), stale_of(stale@), mode, files@.len(), stale@.len());
        assert(mirror_state(*lock, *changes, *output).changes.processed == changes.processed_targets);
    }
    changes.processed_targets = changes.processed_targets + 1;
    assert(mirror_state(*lock, *changes, *output) =~= mirrored(start, files_of(files@), stale_of(stale@), mode));
    true
}

/// A check writes nothing, changes no permission and removes nothing.
pub proof fn law_check_writes_nothing(
    m: MirrorModel,
    files: Seq<FileModel>,
    stale: Seq<StaleModel>,
    mode: ApplyMode,
)
    requires
        mode.check,
    ensures
        mirrored(m, files, stale, mode).writes == m.writes,
        mirrored(m, files, stale, mode).permissions == m.permissions,
        mirrored(m, files, stale, mode).changes.removals == m.changes.removals,
{
    lemma_check_files(m, files, mode, files.len());
    lemma_check_stale(files_applied(m, files, mode, files.len()), stale, mode, stale.len());
}

proof fn lemma_check_files(m: MirrorModel, files: Seq<FileModel>, mode: ApplyMode, n: nat)
    requires
        mode.check,
        n <= files.len(),
    ensures
        files_applied(m, files, mode, n).writes == m.writes,
        files_applied(m, files, mode, n).permissions == m.permissions,
        files_applied(m, files, mode, n).changes.removals == m.changes.removals,
    decreases n,
{
    if n > 0 {
        lemma_check_files(m, files, mode, (n - 1) as nat);
    }
}

proof fn lemma_check_stale(m: MirrorModel, stale: Seq<StaleModel>, mode: ApplyMode, n: nat)
    requires
        mode.check,
        n <= stale.len(),
    ensures
        all_stale_cleaned(m, stale, mode, n).writes == m.writes,
        all_stale_cleaned(m, stale, mode, n).permissions == m.permissions,
        all_stale_cleaned(m, stale, mode, n).changes.removals == m.changes.removals,
    decreases n,
{
    if n > 0 {
        lemma_check_stale(m, stale, mode, (n - 1) as nat);
    }
}

/// The mirror of a writable target that was edited is not written.
pub proof fn law_edited_mirror_is_kept(m: MirrorModel, file: FileModel, mode: ApplyMode)
    requires
        locally_edited(file, mode, m.locked),
    ensures
        file_applied(m, file, mode).writes == m.writes,
        file_applied(m, file, mode).locked == m.locked,
{
}

/// A mirror that may not be edited is written again whenever it differs from its source.
pub proof fn law_read_only_mirror_is_restored(m: MirrorModel, file: FileModel, mode: ApplyMode)
    requires
        mode.read_only,
        !mode.check,
        mirror_differs(file),
    ensures
        file_applied(m, file, mode).writes == m.writes.insert(file.mirror.path, file.content),
{
}

/// The lock keys of a target that no file of its source has.
pub fn stale_keys(lock: &TargetLock, files: &Vec<MirrorFile>) -> (r: Vec<String>)
    ensures
        texts(r@).no_duplicates(),
        forall|k: Seq<char>| #[trigger]
            texts(r@).contains(k) <==> lock@.files.dom().contains(k) && (forall|i: int|
                0 <= i < files@.len() ==> (#[trigger] files_of(files@)[i]).lock_key != k),
{
    let keys = lock.files.keys();
    let ghost all = key_views(keys@);
    let mut out: Vec<String> = Vec::new();
    let mut i: usize = 0;
    while i < keys.len()
        invariant
            i <= keys.len(),
            all == key_views(keys@),
            all.no_duplicates(),
            texts(out@).no_duplicates(),
            forall|k: Seq<char>| #[trigger]
                texts(out@).contains(k) <==> all.take(i as int).contains(k) && (forall|j: int|
                    0 <= j < files@.len() ==> (#[trigger] files_of(files@)[j]).lock_key != k),
        decreases keys.len() - i,
    {
        let ghost id = all[i as int];
        let ghost done = all.take(i as int);
        let ghost next = all.take(i + 1);
        proof {
            assert(next =~= done.push(id));
            assert(next[i as int] == id);
            assert forall|x: Seq<char>| next.contains(x) == (done.contains(x) || x == id) by {
                if done.contains(x) {
                    let at = choose|at: int| 0 <= at < done.len() && done[at] == x;
                    assert(next[at] == x);
                }
                if next.contains(x) && x != id {
                    let at = choose|at: int| 0 <= at < next.len() && next[at] == x;
                    assert(done[at] == x);
                }
            }
            assert(!done.contains(id)) by {
                if done.contains(id) {
                    let at = choose|at: int| 0 <= at < done.len() && done[at] == id;
                    assert(all[at] == id);
                }
            }
        }
        let mut used = false;
        let mut j: usize = 0;
        while j < files.len()
            invariant
                j <= files.len(),
                i < keys.len(),
                used == (exists|a: int| 0 <= a < j && (#[trigger] files_of(files@)[a]).lock_key == keys@[i as int]@),
            decreases files.len() - j,
        {
            if same(&files[j].lock_key, &keys[i]) {
                assert(files_of(files@)[j as int].lock_key == keys@[i as int]@);
                used = true;
            }
            j += 1;
        }
        let ghost before = texts(out@);
        if !used {
            push_text(&mut out, &keys[i]);
            proof {
                assert(texts(out@) == before.push(id));
                assert(!before.contains(id));
                assert forall|x: Seq<char>| #[trigger] texts(out@).contains(x) == (before.contains(x) || x == id) by {
                    if before.contains(x) {
                        let at = choose|at: int| 0 <= at < before.len() && before[at] == x;
                        assert(texts(out@)[at] == x);
                    }
                    assert(texts(out@)[before.len() as int] == id);
                    if texts(out@).contains(x) && x != id {
                        let at = choose|at: int| 0 <= at < texts(out@).len() && texts(out@)[at] == x;
                        assert(before[at] == x);
                    }
                }
            }
        }
        i += 1;
    }
    assert(all.take(i as int) =~= all);
    out
}

} // verus!
