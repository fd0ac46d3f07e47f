//! What mirroring files into a project keeps.
use vstd::prelude::*;

use crate::link_apply::{ApplyMode, path_once};
use crate::link_mirror::{
    FileModel, MirrorModel, StaleModel, all_stale_cleaned, file_applied, files_applied, mirror_deleted, mirrored,
    stale_cleaned,
};
use crate::link_remove::PathModel;

verus! {

/// A table holds the same at a key before and after.
pub open spec fn same_at<V>(a: Map<Seq<char>, V>, b: Map<Seq<char>, V>, key: Seq<char>) -> bool {
    a.dom().contains(key) == b.dom().contains(key) && (a.dom().contains(key) ==> a[key] == b[key])
}

/// No two files of the source share a mirror or a key of the lock.
pub open spec fn files_apart(files: Seq<FileModel>) -> bool {
    forall|i: int, j: int|
        #![trigger files[i], files[j]]
        0 <= i < j < files.len() ==> files[i].lock_key != files[j].lock_key && files[i].mirror.path
            != files[j].mirror.path
}

/// No two left over mirrors share a key of the lock, and none shares one with a file.
pub open spec fn stale_apart(files: Seq<FileModel>, stale: Seq<StaleModel>) -> bool {
    &&& forall|i: int, j: int|
        #![trigger stale[i], stale[j]]
        0 <= i < j < stale.len() ==> stale[i].lock_key != stale[j].lock_key
    &&& forall|i: int, j: int|
        #![trigger files[i], stale[j]]
        0 <= i < files.len() && 0 <= j < stale.len() ==> files[i].lock_key != stale[j].lock_key
}

/// What a mirror holds is not what was last put there.
pub open spec fn was_touched(locked: Map<Seq<char>, Seq<char>>, key: Seq<char>, hash: Option<Seq<char>>) -> bool {
    hash matches Some(now) && locked.dom().contains(key) && locked[key] != now
}

/// The hash of what the mirror of a file holds.
pub open spec fn hash_now(file: FileModel) -> Option<Seq<char>> {
    if file.current is Some {
        Some(file.current_hash)
    } else {
        None
    }
}

/// One file was mirrored: from a state to the next.
pub open spec fn file_done(before: MirrorModel, after: MirrorModel, file: FileModel, mode: ApplyMode) -> bool {
    let guarded = !mode.forced && !mode.read_only && was_touched(before.locked, file.lock_key, hash_now(file));
    &&& guarded ==> same_at(before.locked, after.locked, file.lock_key)
    &&& guarded ==> after.preserved.contains(file.mirror.path)
    &&& !guarded ==> after.locked.dom().contains(file.lock_key) && after.locked[file.lock_key] == file.content_hash
    &&& !mode.check && !guarded && file.current != Some(file.content) ==> after.writes.dom().contains(
        file.mirror.path,
    ) && after.writes[file.mirror.path] == file.content
    &&& mode.check || guarded || file.current == Some(file.content) ==> same_at(
        before.writes,
        after.writes,
        file.mirror.path,
    )
    &&& mode.check ==> same_at(before.permissions, after.permissions, file.mirror.path)
    &&& !mode.check ==> after.permissions.dom().contains(file.mirror.path) && after.permissions[file.mirror.path]
        == mode.read_only
    &&& !guarded && file.current != Some(file.content) ==> after.source_writes.contains(file.mirror.path)
        && exists|k: int|
        0 <= k < after.changes.changed_paths.len() && (#[trigger] after.changes.changed_paths[k]).key
            == file.mirror.key
    &&& file.current != Some(file.content) ==> after.changes.differences > before.changes.differences
}

/// A file was not mirrored yet.
pub open spec fn file_waits(before: MirrorModel, after: MirrorModel, file: FileModel) -> bool {
    &&& same_at(before.locked, after.locked, file.lock_key)
    &&& same_at(before.writes, after.writes, file.mirror.path)
    &&& same_at(before.permissions, after.permissions, file.mirror.path)
}

proof fn lemma_path_once_has(paths: Seq<PathModel>, p: PathModel)
    ensures
        forall|k: int|
            0 <= k < paths.len() ==> k < path_once(paths, p).len() && path_once(paths, p)[k] == #[trigger] paths[k],
        path_once(paths, p).len() >= paths.len(),
        exists|k: int| 0 <= k < path_once(paths, p).len() && (#[trigger] path_once(paths, p)[k]).key == p.key,
{
    let out = path_once(paths, p);
    if exists|k: int| 0 <= k < paths.len() && (#[trigger] paths[k]).key == p.key {
        let k = choose|k: int| 0 <= k < paths.len() && (#[trigger] paths[k]).key == p.key;
        assert(out[k].key == p.key);
    } else {
        assert(out[paths.len() as int] == p);
    }
}

/// What one more file leaves of what was done.
proof fn lemma_file_keeps(m: MirrorModel, file: FileModel, mode: ApplyMode)
    ensures
        m.changes.differences <= file_applied(m, file, mode).changes.differences,
        forall|p: Seq<char>|
            m.preserved.contains(p) ==> #[trigger] file_applied(m, file, mode).preserved.contains(p),
        forall|p: Seq<char>|
            m.source_writes.contains(p) ==> #[trigger] file_applied(m, file, mode).source_writes.contains(p),
        forall|k: int|
            0 <= k < m.changes.changed_paths.len() ==> k < file_applied(m, file, mode).changes.changed_paths.len()
                && file_applied(m, file, mode).changes.changed_paths[k] == #[trigger] m.changes.changed_paths[k],
{
    let after = file_applied(m, file, mode);
    match file.changed_store {
        Some(store) => {
            lemma_path_once_has(m.changes.changed_paths, store);
            lemma_path_once_has(path_once(m.changes.changed_paths, store), file.mirror);
        },
        None => {
            lemma_path_once_has(m.changes.changed_paths, file.mirror);
        },
    }
    assert forall|p: Seq<char>| m.preserved.contains(p) implies #[trigger] after.preserved.contains(p) by {
        let k = choose|k: int| 0 <= k < m.preserved.len() && m.preserved[k] == p;
        assert(after.preserved[k] == p);
    }
    assert forall|p: Seq<char>| m.source_writes.contains(p) implies #[trigger] after.source_writes.contains(p) by {
        let k = choose|k: int| 0 <= k < m.source_writes.len() && m.source_writes[k] == p;
        assert(after.source_writes[k] == p);
    }
}

proof fn lemma_file_done(m: MirrorModel, file: FileModel, mode: ApplyMode)
    ensures
        file_done(m, file_applied(m, file, mode), file, mode),
{
    let after = file_applied(m, file, mode);
    let listed = match file.changed_store {
        Some(store) => path_once(m.changes.changed_paths, store),
        None => m.changes.changed_paths,
    };
    lemma_path_once_has(listed, file.mirror);
    let k = choose|k: int|
        0 <= k < path_once(listed, file.mirror).len() && (#[trigger] path_once(listed, file.mirror)[k]).key
            == file.mirror.key;
    let guarded = !mode.forced && !mode.read_only && was_touched(m.locked, file.lock_key, hash_now(file));
    if !guarded && file.current != Some(file.content) {
        assert(after.changes.changed_paths == path_once(listed, file.mirror));
        assert(after.changes.changed_paths[k].key == file.mirror.key);
    }
    if after.preserved.len() > m.preserved.len() {
        assert(after.preserved[m.preserved.len() as int] == file.mirror.path);
    }
    if after.source_writes.len() > m.source_writes.len() {
        assert(after.source_writes[m.source_writes.len() as int] == file.mirror.path);
    }
}

#[verifier::rlimit(50)]
proof fn lemma_files(m: MirrorModel, files: Seq<FileModel>, mode: ApplyMode, n: nat, i: int)
    requires
        files_apart(files),
        n <= files.len(),
        0 <= i < files.len(),
    ensures
        i < n ==> file_done(m, files_applied(m, files, mode, n), files[i], mode),
        i >= n ==> file_waits(m, files_applied(m, files, mode, n), files[i]),
        m.changes.differences <= files_applied(m, files, mode, n).changes.differences,
    decreases n,
{
    if n > 0 {
        let k = (n - 1) as nat;
        lemma_files(m, files, mode, k, i);
        let before = files_applied(m, files, mode, k);
        let after = file_applied(before, files[k as int], mode);
        lemma_file_done(before, files[k as int], mode);
        lemma_file_keeps(before, files[k as int], mode);
        if i < k {
            assert(files[i].lock_key != files[k as int].lock_key);
            assert(files[i].mirror.path != files[k as int].mirror.path);
            let guarded = !mode.forced && !mode.read_only && was_touched(m.locked, files[i].lock_key, hash_now(files[i]));
            if !guarded && files[i].current != Some(files[i].content) {
                let c = choose|c: int|
                    0 <= c < before.changes.changed_paths.len() && (#[trigger] before.changes.changed_paths[c]).key
                        == files[i].mirror.key;
                assert(after.changes.changed_paths[c].key == files[i].mirror.key);
            }
        } else if i > k {
            assert(files[k as int].lock_key != files[i].lock_key);
            assert(files[k as int].mirror.path != files[i].mirror.path);
        }
    }
}

/// What the files leave as it was.
proof fn lemma_files_else(m: MirrorModel, files: Seq<FileModel>, mode: ApplyMode, n: nat, key: Seq<char>, path: Seq<char>)
    requires
        n <= files.len(),
    ensures
        (forall|i: int| 0 <= i < files.len() ==> (#[trigger] files[i]).lock_key != key) ==> same_at(
            m.locked,
            files_applied(m, files, mode, n).locked,
            key,
        ),
        (forall|i: int| 0 <= i < files.len() ==> (#[trigger] files[i]).mirror.path != path) ==> same_at(
            m.writes,
            files_applied(m, files, mode, n).writes,
            path,
        ) && same_at(m.permissions, files_applied(m, files, mode, n).permissions, path),
        files_applied(m, files, mode, n).changes.removals == m.changes.removals,
        (forall|i: int| 0 <= i < files.len() ==> (#[trigger] files[i]).current == Some(files[i].content))
            ==> files_applied(m, files, mode, n).changes.differences == m.changes.differences
            && files_applied(m, files, mode, n).writes == m.writes,
    decreases n,
{
    if n > 0 {
        lemma_files_else(m, files, mode, (n - 1) as nat, key, path);
    }
}

/// What the left over mirrors change.
#[verifier::rlimit(50)]
proof fn lemma_stale(m: MirrorModel, stale: Seq<StaleModel>, mode: ApplyMode, n: nat, j: int, key: Seq<char>)
    requires
        forall|i: int, k: int|
            #![trigger stale[i], stale[k]]
            0 <= i < k < stale.len() ==> stale[i].lock_key != stale[k].lock_key,
        n <= stale.len(),
        0 <= j < stale.len(),
    ensures
        ({
            let after = all_stale_cleaned(m, stale, mode, n);
            let s = stale[j];
            let guarded = !mode.forced && !mode.read_only && was_touched(m.locked, s.lock_key, s.current_hash);
            &&& mode.check ==> after.locked == m.locked && after.changes.removals == m.changes.removals
            &&& j >= n ==> same_at(m.locked, after.locked, s.lock_key)
            &&& !mode.check && j < n ==> !after.locked.dom().contains(s.lock_key)
            &&& !mode.check && j < n && guarded ==> after.preserved.contains(s.mirror.path)
            &&& !mode.check && j < n && !guarded && s.exists ==> after.changes.removals.contains(s.mirror)
            &&& j < n && s.exists && (mode.check || !guarded) ==> after.changes.differences > m.changes.differences
        }),
    decreases n,
{
    if n > 0 {
        let k = (n - 1) as nat;
        lemma_stale(m, stale, mode, k, j, key);
        lemma_stale_keeps(m, stale, mode, k);
        lemma_stale_keeps(m, stale, mode, n);
        let before = all_stale_cleaned(m, stale, mode, k);
        let after = stale_cleaned(before, stale[k as int], mode);
        if after.preserved.len() > before.preserved.len() {
            assert(after.preserved[before.preserved.len() as int] == stale[k as int].mirror.path);
        }
        if after.changes.removals.len() > before.changes.removals.len() {
            assert(after.changes.removals[before.changes.removals.len() as int] == stale[k as int].mirror);
        }
        if j < k {
            assert(stale[j].lock_key != stale[k as int].lock_key);
            if before.preserved.contains(stale[j].mirror.path) {
                let c = choose|c: int| 0 <= c < before.preserved.len() && before.preserved[c] == stale[j].mirror.path;
                assert(after.preserved[c] == stale[j].mirror.path);
            }
            if before.changes.removals.contains(stale[j].mirror) {
                let c = choose|c: int|
                    0 <= c < before.changes.removals.len() && before.changes.removals[c] == stale[j].mirror;
                assert(after.changes.removals[c] == stale[j].mirror);
            }
        } else if j > k {
            assert(stale[k as int].lock_key != stale[j].lock_key);
        }
    }
}

/// What the left over mirrors leave as it was.
#[verifier::rlimit(50)]
proof fn lemma_stale_keeps(m: MirrorModel, stale: Seq<StaleModel>, mode: ApplyMode, n: nat)
    requires
        n <= stale.len(),
    ensures
        ({
            let after = all_stale_cleaned(m, stale, mode, n);
            &&& after.writes == m.writes
            &&& after.permissions == m.permissions
            &&& after.source_writes == m.source_writes
            &&& after.changes.differences >= m.changes.differences
            &&& forall|p: Seq<char>| m.preserved.contains(p) ==> #[trigger] after.preserved.contains(p)
            &&& after.changes.changed_paths.len() >= m.changes.changed_paths.len()
            &&& forall|c: int|
                0 <= c < m.changes.changed_paths.len() ==> after.changes.changed_paths[c]
                    == #[trigger] m.changes.changed_paths[c]
            &&& forall|key: Seq<char>|
                (forall|j: int| 0 <= j < stale.len() ==> (#[trigger] stale[j]).lock_key != key) ==> #[trigger] same_at(
                    m.locked,
                    after.locked,
                    key,
                )
            &&& forall|p: PathModel| #[trigger]
                after.changes.removals.contains(p) ==> m.changes.removals.contains(p) || exists|j: int|
                    0 <= j < n && (#[trigger] stale[j]).mirror == p && stale[j].exists
            &&& (forall|j: int| 0 <= j < stale.len() ==> !(#[trigger] stale[j]).exists)
                ==> after.changes.differences == m.changes.differences
        }),
    decreases n,
{
    if n > 0 {
        let k = (n - 1) as nat;
        lemma_stale_keeps(m, stale, mode, k);
        let before = all_stale_cleaned(m, stale, mode, k);
        let s = stale[k as int];
        let after = stale_cleaned(before, s, mode);
        lemma_path_once_has(before.changes.changed_paths, s.mirror);
        assert(after.changes.changed_paths.len() >= before.changes.changed_paths.len());
        assert forall|c: int| 0 <= c < m.changes.changed_paths.len() implies after.changes.changed_paths[c]
            == #[trigger] m.changes.changed_paths[c] by {
            assert(before.changes.changed_paths[c] == m.changes.changed_paths[c]);
        }
        assert forall|p: Seq<char>| m.preserved.contains(p) implies #[trigger] after.preserved.contains(p) by {
            assert(before.preserved.contains(p));
            let c = choose|c: int| 0 <= c < before.preserved.len() && before.preserved[c] == p;
            assert(after.preserved[c] == p);
        }
        assert forall|p: PathModel| #[trigger] after.changes.removals.contains(p) implies m.changes.removals.contains(p)
            || exists|j: int| 0 <= j < n && (#[trigger] stale[j]).mirror == p && stale[j].exists by {
            let c = choose|c: int| 0 <= c < after.changes.removals.len() && after.changes.removals[c] == p;
            if c < before.changes.removals.len() {
                assert(before.changes.removals[c] == p);
                assert(before.changes.removals.contains(p));
                if !m.changes.removals.contains(p) {
                    let j = choose|j: int| 0 <= j < k && (#[trigger] stale[j]).mirror == p && stale[j].exists;
                    assert(0 <= j < n && stale[j].mirror == p && stale[j].exists);
                }
            } else {
                assert(stale[k as int].mirror == p && stale[k as int].exists);
            }
        }
        assert forall|key: Seq<char>|
            (forall|j: int| 0 <= j < stale.len() ==> (#[trigger] stale[j]).lock_key != key) implies #[trigger] same_at(
            m.locked,
            after.locked,
            key,
        ) by {
            assert(same_at(m.locked, before.locked, key));
            assert(stale[k as int].lock_key != key);
        }
    }
}

/// Every file of a source is mirrored: a mirror that nobody touched, or whose edits are not kept,
/// gets what the file holds, and its hash is remembered; one with edits stays and is named. Only
/// what differs is written, a check writes nothing, and mirrors get the permission of the link.
#[verifier::rlimit(50)]
pub proof fn law_mirrors_follow_their_files(
    m: MirrorModel,
    files: Seq<FileModel>,
    stale: Seq<StaleModel>,
    mode: ApplyMode,
    i: int,
)
    requires
        files_apart(files),
        stale_apart(files, stale),
        0 <= i < files.len(),
    ensures
        file_done(m, mirrored(m, files, stale, mode), files[i], mode),
{
    let mid = files_applied(m, files, mode, files.len());
    let after = all_stale_cleaned(mid, stale, mode, stale.len());
    lemma_files(m, files, mode, files.len(), i);
    lemma_stale_keeps(mid, stale, mode, stale.len());
    assert(same_at(mid.locked, after.locked, files[i].lock_key));
    let guarded = !mode.forced && !mode.read_only && was_touched(m.locked, files[i].lock_key, hash_now(files[i]));
    if !guarded && files[i].current != Some(files[i].content) {
        let c = choose|c: int|
            0 <= c < mid.changes.changed_paths.len() && (#[trigger] mid.changes.changed_paths[c]).key
                == files[i].mirror.key;
        assert(after.changes.changed_paths[c].key == files[i].mirror.key);
        assert(mirrored(m, files, stale, mode).changes.changed_paths[c].key == files[i].mirror.key);
    }
}

/// A mirror that no file has any more is forgotten. It is removed where it is there and nobody
/// touched it, or its edits are not kept, and it is named where its edits are kept.
pub proof fn law_left_over_mirrors_go(
    m: MirrorModel,
    files: Seq<FileModel>,
    stale: Seq<StaleModel>,
    mode: ApplyMode,
    j: int,
)
    requires
        stale_apart(files, stale),
        !mode.check,
        0 <= j < stale.len(),
    ensures
        ({
            let after = mirrored(m, files, stale, mode);
            let s = stale[j];
            let guarded = !mode.forced && !mode.read_only && was_touched(m.locked, s.lock_key, s.current_hash);
            &&& !after.locked.dom().contains(s.lock_key)
            &&& guarded ==> after.preserved.contains(s.mirror.path)
            &&& !guarded && s.exists ==> after.changes.removals.contains(s.mirror)
        }),
{
    let mid = files_applied(m, files, mode, files.len());
    assert forall|i: int| 0 <= i < files.len() implies (#[trigger] files[i]).lock_key != stale[j].lock_key by {}
    lemma_files_else(m, files, mode, files.len(), stale[j].lock_key, stale[j].mirror.path);
    lemma_stale(mid, stale, mode, stale.len(), j, stale[j].lock_key);
}

/// Mirroring touches nothing but the mirrors of its files and those left over.
pub proof fn law_mirroring_leaves_the_rest(
    m: MirrorModel,
    files: Seq<FileModel>,
    stale: Seq<StaleModel>,
    mode: ApplyMode,
    key: Seq<char>,
    path: Seq<char>,
    removed: PathModel,
)
    ensures
        ({
            let after = mirrored(m, files, stale, mode);
            &&& (forall|i: int| 0 <= i < files.len() ==> (#[trigger] files[i]).lock_key != key) && (forall|j: int|
                0 <= j < stale.len() ==> (#[trigger] stale[j]).lock_key != key) ==> same_at(m.locked, after.locked, key)
            &&& (forall|i: int| 0 <= i < files.len() ==> (#[trigger] files[i]).mirror.path != path) ==> same_at(
                m.writes,
                after.writes,
                path,
            ) && same_at(m.permissions, after.permissions, path)
            &&& after.changes.removals.contains(removed) && !m.changes.removals.contains(removed) ==> exists|j: int|
                0 <= j < stale.len() && (#[trigger] stale[j]).mirror == removed && stale[j].exists
            &&& after.changes.processed == m.changes.processed + 1
        }),
{
    let mid = files_applied(m, files, mode, files.len());
    lemma_files_else(m, files, mode, files.len(), key, path);
    lemma_stale_keeps(mid, stale, mode, stale.len());
    lemma_processed(m, files, stale, mode, files.len(), stale.len());
    let after = all_stale_cleaned(mid, stale, mode, stale.len());
    if (forall|j: int| 0 <= j < stale.len() ==> (#[trigger] stale[j]).lock_key != key) {
        assert(same_at(mid.locked, after.locked, key));
    }
}

proof fn lemma_processed(m: MirrorModel, files: Seq<FileModel>, stale: Seq<StaleModel>, mode: ApplyMode, n: nat, k: nat)
    requires
        n <= files.len(),
        k <= stale.len(),
    ensures
        files_applied(m, files, mode, n).changes.processed == m.changes.processed,
        all_stale_cleaned(files_applied(m, files, mode, n), stale, mode, k).changes.processed == m.changes.processed,
    decreases n + k,
{
    if k > 0 {
        lemma_processed(m, files, stale, mode, n, (k - 1) as nat);
    } else if n > 0 {
        lemma_processed(m, files, stale, mode, (n - 1) as nat, 0);
    }
}

/// Mirroring a second time, when every mirror holds what its file holds and nothing is left over,
/// finds no difference and writes nothing.
pub proof fn law_mirrored_target_has_no_difference(
    m: MirrorModel,
    files: Seq<FileModel>,
    stale: Seq<StaleModel>,
    mode: ApplyMode,
)
    requires
        forall|i: int| 0 <= i < files.len() ==> (#[trigger] files[i]).current == Some(files[i].content),
        forall|j: int| 0 <= j < stale.len() ==> !(#[trigger] stale[j]).exists,
    ensures
        mirrored(m, files, stale, mode).changes.differences == m.changes.differences,
        mirrored(m, files, stale, mode).writes == m.writes,
{
    let mid = files_applied(m, files, mode, files.len());
    lemma_files_else(m, files, mode, files.len(), Seq::empty(), Seq::empty());
    lemma_stale_keeps(mid, stale, mode, stale.len());
}

/// A difference is counted for a file whose mirror differs and for a left over mirror that would go.
#[verifier::rlimit(50)]
pub proof fn law_differences_are_counted(
    m: MirrorModel,
    files: Seq<FileModel>,
    stale: Seq<StaleModel>,
    mode: ApplyMode,
)
    requires
        files_apart(files),
        stale_apart(files, stale),
        mode.check,
    ensures
        mirrored(m, files, stale, mode).changes.differences > m.changes.differences <==> ((exists|i: int|
            0 <= i < files.len() && (#[trigger] files[i]).current != Some(files[i].content)) || (exists|j: int|
            0 <= j < stale.len() && (#[trigger] stale[j]).exists)),
{
    let mid = files_applied(m, files, mode, files.len());
    lemma_stale_keeps(mid, stale, mode, stale.len());
    if exists|i: int| 0 <= i < files.len() && (#[trigger] files[i]).current != Some(files[i].content) {
        let i = choose|i: int| 0 <= i < files.len() && (#[trigger] files[i]).current != Some(files[i].content);
        lemma_files(m, files, mode, files.len(), i);
    } else if exists|j: int| 0 <= j < stale.len() && (#[trigger] stale[j]).exists {
        let j = choose|j: int| 0 <= j < stale.len() && (#[trigger] stale[j]).exists;
        lemma_files_else(m, files, mode, files.len(), Seq::empty(), Seq::empty());
        lemma_stale(mid, stale, mode, stale.len(), j, Seq::empty());
    } else {
        law_mirrored_target_has_no_difference(m, files, stale, mode);
    }
}

/// A target that was mirrored once is taken as deleted where it is gone or lost one of its
/// mirrors. One that was never mirrored, that lost nothing, or that is forced, is not.
pub proof fn law_deleted_mirrors_are_noticed(
    files: Seq<FileModel>,
    locked: Map<Seq<char>, Seq<char>>,
    target_exists: bool,
    forced: bool,
    i: int,
)
    requires
        0 <= i < files.len(),
        locked.dom().contains(files[i].lock_key),
    ensures
        forced ==> !mirror_deleted(files, locked, target_exists, forced),
        !forced && !target_exists ==> mirror_deleted(files, locked, target_exists, forced),
        !forced && !files[i].exists ==> mirror_deleted(files, locked, target_exists, forced),
        target_exists && (forall|k: int| 0 <= k < files.len() ==> (#[trigger] files[k]).exists) ==> !mirror_deleted(
            files,
            locked,
            target_exists,
            forced,
        ),
{
}

/// A target that was never mirrored is not taken as deleted.
pub proof fn law_new_mirrors_are_not_deleted(
    files: Seq<FileModel>,
    locked: Map<Seq<char>, Seq<char>>,
    target_exists: bool,
    forced: bool,
)
    requires
        forall|i: int| 0 <= i < files.len() ==> !locked.dom().contains((#[trigger] files[i]).lock_key),
    ensures
        !mirror_deleted(files, locked, target_exists, forced),
{
}

} // verus!
