//! Breaking links and deleting their packages.
use vstd::prelude::*;

use crate::links::{
    copy_refs, entries_of, find_link, find_owner, hold_key, is_link, keys_in, keys_of, lemma_entries_of_push, no_link, no_owner, ref_keys,
    refs, refs_without, retain_refs, targets_hold, EntryModel, LinkEntry, LinkError, LinkLock, LinkManifest, LinkSource,
    LinkTargetRef, LockModel, ManifestModel, RefModel, SourceModel, TargetKey, TargetModel,
};
use crate::link_apply::value_of;
use crate::table::{key_views, Key, Table};
use crate::text::{ascii_lower, ends_with, less, same, text_less, texts, to_ascii_lower, trim, trimmed};

verus! {

broadcast use vstd::seq_lib::group_seq_properties;

/// What to break: a whole link or one target.
pub enum BreakSelection {
    Link(String),
    Target(LinkTargetRef),
    Nothing,
}

/// The targets that a selection names.
pub open spec fn is_selected(
    links: Seq<EntryModel>,
    selection: BreakSelection,
    r: Result<Seq<RefModel>, LinkError>,
) -> bool {
    match selection {
        BreakSelection::Link(id) => (no_link(links, id@) && r == Err::<Seq<RefModel>, LinkError>(
            LinkError::UnknownLink,
        )) || (exists|i: int| #[trigger]
            is_link(links, id@, i) && r == Ok::<Seq<RefModel>, LinkError>(links[i].targets)),
        BreakSelection::Target(target) => if no_owner(links, target@.key()) {
            r == Err::<Seq<RefModel>, LinkError>(LinkError::NotATarget)
        } else {
            r == Ok::<Seq<RefModel>, LinkError>(seq![target@])
        },
        BreakSelection::Nothing => r == Err::<Seq<RefModel>, LinkError>(LinkError::NoSelection),
    }
}

/// The targets of a list or the reason that there are none.
pub open spec fn refs_result(r: Result<Vec<LinkTargetRef>, LinkError>) -> Result<Seq<RefModel>, LinkError> {
    match r {
        Ok(v) => Ok(refs(v@)),
        Err(e) => Err(e),
    }
}

/// The targets that a selection names.
pub fn select_broken(manifest: &LinkManifest, selection: &BreakSelection) -> (r: Result<Vec<LinkTargetRef>, LinkError>)
    ensures
        is_selected(manifest@.links, *selection, refs_result(r)),
{
    match selection {
        BreakSelection::Link(id) => match find_link(&manifest.links, id) {
            Some(i) => {
                assert(is_link(manifest@.links, id@, i as int));
                Ok(copy_refs(&manifest.links[i].targets))
            },
            None => Err(LinkError::UnknownLink),
        },
        BreakSelection::Target(target) => match find_owner(&manifest.links, &target.key()) {
            Some(i) => {
                assert(targets_hold(manifest@.links[i as int].targets, target@.key()));
                let mut one: Vec<LinkTargetRef> = Vec::new();
                one.push(target.copy());
                assert(refs(one@) =~= seq![target@]);
                Ok(one)
            },
            None => Err(LinkError::NotATarget),
        },
        BreakSelection::Nothing => Err(LinkError::NoSelection),
    }
}

/// A link without the targets of some keys.
pub open spec fn cut_entry(entry: EntryModel, keys: Seq<TargetModel>) -> EntryModel {
    EntryModel {
        id: entry.id,
        read_only: entry.read_only,
        source: entry.source,
        targets: refs_without(entry.targets, keys),
    }
}

/// The first `n` links without the targets of some keys, and without links that are left with none.
pub open spec fn cut_links(links: Seq<EntryModel>, keys: Seq<TargetModel>, n: nat) -> Seq<EntryModel>
    decreases n,
{
    if n == 0 {
        Seq::empty()
    } else if cut_entry(links[n - 1], keys).targets.len() > 0 {
        cut_links(links, keys, (n - 1) as nat).push(cut_entry(links[n - 1], keys))
    } else {
        cut_links(links, keys, (n - 1) as nat)
    }
}

/// The manifest after some targets are removed from it.
pub open spec fn manifest_without(m: ManifestModel, keys: Seq<TargetModel>) -> ManifestModel {
    ManifestModel {
        version: m.version,
        cache_dir: m.cache_dir,
        links: cut_links(m.links, keys, m.links.len()),
        broken: refs_without(m.broken, keys),
    }
}

/// The manifest after some targets are marked broken: those that are not yet are added, in order.
pub open spec fn manifest_with_broken(m: ManifestModel, targets: Seq<RefModel>) -> ManifestModel {
    ManifestModel {
        version: m.version,
        cache_dir: m.cache_dir,
        links: m.links,
        broken: m.broken + refs_without(targets, keys_in(m.broken)),
    }
}

fn cut_links_exec(links: &Vec<LinkEntry>, keys: &Vec<TargetKey>) -> (r: Vec<LinkEntry>)
    ensures
        entries_of(r@) == cut_links(entries_of(links@), keys_of(keys@), links@.len()),
{
    let mut out: Vec<LinkEntry> = Vec::new();
    let mut i: usize = 0;
    assert(entries_of(out@) =~= cut_links(entries_of(links@), keys_of(keys@), 0));
    while i < links.len()
        invariant
            i <= links.len(),
            entries_of(out@) == cut_links(entries_of(links@), keys_of(keys@), i as nat),
        decreases links.len() - i,
    {
        let entry = &links[i];
        let targets = retain_refs(&entry.targets, keys);
        assert(entries_of(links@)[i as int] == entry@);
        if targets.len() > 0 {
            let cut = LinkEntry {
                id: entry.id.clone(),
                read_only: entry.read_only,
                source: entry.source.copy(),
                targets,
            };
            proof {
                lemma_entries_of_push(out@, cut);
            }
            out.push(cut);
        } else {
            assert(refs(targets@).len() == 0);
        }
        i += 1;
    }
    out
}

fn break_in_manifest(manifest: &mut LinkManifest, selection: &BreakSelection, remove: bool) -> (r: Result<
    Vec<LinkTargetRef>,
    LinkError,
>)
    ensures
        is_selected(old(manifest)@.links, *selection, refs_result(r)),
        match r {
            Ok(targets) => final(manifest)@ == if remove {
                manifest_without(old(manifest)@, keys_in(refs(targets@)))
            } else {
                manifest_with_broken(old(manifest)@, refs(targets@))
            },
            Err(_) => final(manifest)@ == old(manifest)@,
        },
{
    let targets = match select_broken(manifest, selection) {
        Ok(targets) => targets,
        Err(e) => {
            return Err(e);
        },
    };
    if remove {
        let keys = ref_keys(&targets);
        manifest.broken = retain_refs(&manifest.broken, &keys);
        manifest.links = cut_links_exec(&manifest.links, &keys);
    } else {
        let existing = ref_keys(&manifest.broken);
        let mut fresh = retain_refs(&targets, &existing);
        let ghost a = manifest.broken@;
        let ghost b = fresh@;
        manifest.broken.append(&mut fresh);
        assert(refs(a + b) =~= refs(a) + refs(b));
    }
    Ok(targets)
}

/// A file of a target: where it is mirrored, and whether the mirror is there.
pub struct MirrorPlace {
    pub path: String,
    pub exists: bool,
}

/// The files of a target as they were found, and whether a package fills it.
pub struct ResolvedFiles {
    pub target: LinkTargetRef,
    pub mirrors: Vec<MirrorPlace>,
    pub is_package: bool,
}

/// A path is an existing mirror of one of some targets.
pub open spec fn is_mirror_of(resolved: Seq<ResolvedFiles>, keys: Seq<TargetModel>, path: Seq<char>) -> bool {
    exists|i: int, j: int|
        #![trigger resolved[i].mirrors@[j]]
        0 <= i < resolved.len() && 0 <= j < resolved[i].mirrors@.len() && keys.contains(resolved[i].target@.key())
            && resolved[i].mirrors@[j].exists && resolved[i].mirrors@[j].path@ == path
}

/// What becomes of permissions when some targets break: every existing mirror of one is made writable, and
/// no other path is touched.
pub open spec fn is_unlocking(
    resolved: Seq<ResolvedFiles>,
    keys: Seq<TargetModel>,
    permissions: Map<Seq<char>, bool>,
) -> bool {
    &&& forall|path: Seq<char>| #[trigger]
        permissions.dom().contains(path) <==> is_mirror_of(resolved, keys, path)
    &&& forall|path: Seq<char>| #[trigger] permissions.dom().contains(path) ==> !permissions[path]
}

/// The permissions that go with breaking the targets of some keys: false, for writable, for every existing
/// mirror of one of them.
pub fn unlock_plan(resolved: &Vec<ResolvedFiles>, broken: &Vec<TargetKey>) -> (r: Table<String, bool>)
    ensures
        is_unlocking(resolved@, keys_of(broken@), r@),
{
    let ghost keys = keys_of(broken@);
    let mut out: Table<String, bool> = Table::new();
    let mut i: usize = 0;
    while i < resolved.len()
        invariant
            i <= resolved.len(),
            keys == keys_of(broken@),
            is_unlocking(resolved@.take(i as int), keys, out@),
        decreases resolved.len() - i,
    {
        let files = &resolved[i];
        let key = files.target.key();
        let ghost before = out@;
        if hold_key(broken, &key) {
            let mut j: usize = 0;
            while j < files.mirrors.len()
                invariant
                    i < resolved.len(),
                    j <= files.mirrors.len(),
                    *files == resolved@[i as int],
                    forall|path: Seq<char>| #[trigger]
                        out@.dom().contains(path) <==> before.dom().contains(path) || places_before(
                            files.mirrors@,
                            path,
                            j as int,
                        ),
                    forall|path: Seq<char>| #[trigger] out@.dom().contains(path) ==> !out@[path],
                decreases files.mirrors.len() - j,
            {
                let ghost held = out@;
                let place = &files.mirrors[j];
                if place.exists {
                    out.put(place.path.clone(), false);
                }
                assert forall|path: Seq<char>| #[trigger]
                    out@.dom().contains(path) <==> before.dom().contains(path) || places_before(
                        files.mirrors@,
                        path,
                        j + 1,
                    ) by {
                    assert(held.dom().contains(path) <==> before.dom().contains(path) || places_before(
                        files.mirrors@,
                        path,
                        j as int,
                    ));
                    if places_before(files.mirrors@, path, j as int) {
                        let k = choose|k: int|
                            0 <= k < j && (#[trigger] files.mirrors@[k]).exists && files.mirrors@[k].path@ == path;
                        assert(files.mirrors@[k].exists);
                    }
                    if place.exists && place.path@ == path {
                        assert(files.mirrors@[j as int].exists);
                    }
                }
                j += 1;
            }
        }
        proof {
            let now = resolved@.take(i + 1);
            let then = resolved@.take(i as int);
            assert forall|path: Seq<char>| #[trigger] out@.dom().contains(path) <==> is_mirror_of(now, keys, path) by {
                assert(before.dom().contains(path) <==> is_mirror_of(then, keys, path));
                if is_mirror_of(then, keys, path) {
                    let (a, b) = choose|a: int, b: int|
                        #![trigger then[a].mirrors@[b]]
                        0 <= a < then.len() && 0 <= b < then[a].mirrors@.len() && keys.contains(then[a].target@.key())
                            && then[a].mirrors@[b].exists && then[a].mirrors@[b].path@ == path;
                    assert(now[a].mirrors@[b].exists);
                }
                if is_mirror_of(now, keys, path) {
                    let (a, b) = choose|a: int, b: int|
                        #![trigger now[a].mirrors@[b]]
                        0 <= a < now.len() && 0 <= b < now[a].mirrors@.len() && keys.contains(now[a].target@.key())
                            && now[a].mirrors@[b].exists && now[a].mirrors@[b].path@ == path;
                    if a < i {
                        assert(then[a].mirrors@[b].exists);
                    } else {
                        assert(files.mirrors@[b].exists);
                    }
                }
                if keys.contains(key@) && places_before(files.mirrors@, path, files.mirrors@.len() as int) {
                    let k = choose|k: int|
                        0 <= k < files.mirrors@.len() && (#[trigger] files.mirrors@[k]).exists && files.mirrors@[k].path@
                            == path;
                    assert(now[i as int].mirrors@[k].exists);
                }
            }
        }
        i += 1;
    }
    assert(resolved@.take(i as int) =~= resolved@);
    out
}

/// One of the first `n` places exists and has a path.
spec fn places_before(places: Seq<MirrorPlace>, path: Seq<char>, n: int) -> bool {
    exists|k: int| 0 <= k < n && (#[trigger] places[k]).exists && places[k].path@ == path
}

/// A package fills the target of a key.
pub open spec fn is_package_key(resolved: Seq<ResolvedFiles>, key: TargetModel) -> bool {
    exists|i: int| 0 <= i < resolved.len() && (#[trigger] resolved[i]).is_package && resolved[i].target@.key() == key
}

/// Of the first `n` targets, those that a package fills.
pub open spec fn filled_by_packages(targets: Seq<RefModel>, resolved: Seq<ResolvedFiles>, n: nat) -> Seq<RefModel>
    decreases n,
{
    if n == 0 {
        Seq::empty()
    } else if is_package_key(resolved, targets[n - 1].key()) {
        filled_by_packages(targets, resolved, (n - 1) as nat).push(targets[n - 1])
    } else {
        filled_by_packages(targets, resolved, (n - 1) as nat)
    }
}

fn fills_key(resolved: &Vec<ResolvedFiles>, key: &TargetKey) -> (r: bool)
    ensures
        r == is_package_key(resolved@, key@),
{
    let mut i: usize = 0;
    while i < resolved.len()
        invariant
            i <= resolved.len(),
            forall|j: int| 0 <= j < i ==> !((#[trigger] resolved@[j]).is_package && resolved@[j].target@.key() == key@),
        decreases resolved.len() - i,
    {
        if resolved[i].is_package && resolved[i].target.key().same_key(key) {
            assert(resolved@[i as int].is_package);
            return true;
        }
        i += 1;
    }
    false
}

/// The broken targets that a package fills, in order: their sources are put back into files.
pub fn package_targets(targets: &Vec<LinkTargetRef>, resolved: &Vec<ResolvedFiles>) -> (r: Vec<LinkTargetRef>)
    ensures
        refs(r@) == filled_by_packages(refs(targets@), resolved@, targets@.len()),
{
    let mut out: Vec<LinkTargetRef> = Vec::new();
    assert(refs(out@) =~= Seq::empty());
    let mut i: usize = 0;
    while i < targets.len()
        invariant
            i <= targets.len(),
            refs(out@) == filled_by_packages(refs(targets@), resolved@, i as nat),
        decreases targets.len() - i,
    {
        assert(refs(targets@)[i as int] == targets@[i as int]@);
        if fills_key(resolved, &targets[i].key()) {
            let t = targets[i].copy();
            assert(refs(out@.push(t)) =~= refs(out@).push(t@));
            out.push(t);
        }
        i += 1;
    }
    out
}

/// What breaking targets comes to. Nothing but the manifest and the lock is removed: every mirror stays.
pub struct BrokenLinks {
    pub targets: Vec<LinkTargetRef>,
    /// The targets whose sources are put back into files.
    pub packages: Vec<LinkTargetRef>,
    /// Whether each path is made read-only.
    pub permissions: Table<String, bool>,
    /// The file of the manifest goes, since nothing is left in it.
    pub manifest_removed: bool,
    /// Whether the file of the lock goes, where the lock is touched at all.
    pub lock_removed: Option<bool>,
}

/// Breaks the selected targets: they leave the manifest, and the lock forgets links that the manifest no
/// longer lists, or they are marked broken. Their mirrors become writable. On an error nothing changes.
pub fn link_break(
    manifest: &mut LinkManifest,
    lock: &mut LinkLock,
    selection: &BreakSelection,
    remove: bool,
    resolved: &Vec<ResolvedFiles>,
) -> (r: Result<BrokenLinks, LinkError>)
    ensures
        is_selected(
            old(manifest)@.links,
            *selection,
            match r {
                Ok(done) => Ok(refs(done.targets@)),
                Err(e) => Err(e),
            },
        ),
        match r {
            Ok(done) => {
                &&& final(manifest)@ == if remove {
                    manifest_without(old(manifest)@, keys_in(refs(done.targets@)))
                } else {
                    manifest_with_broken(old(manifest)@, refs(done.targets@))
                }
                &&& final(lock)@ == if remove {
                    retained_lock(old(lock)@, final(manifest)@.links)
                } else {
                    old(lock)@
                }
                &&& refs(done.packages@) == filled_by_packages(refs(done.targets@), resolved@, done.targets@.len())
                &&& is_unlocking(resolved@, keys_in(refs(done.targets@)), done.permissions@)
                &&& done.manifest_removed == (remove && manifest_is_empty(final(manifest)@))
                &&& done.lock_removed == if remove {
                    Some(final(lock)@ == Map::<Seq<char>, LockModel>::empty())
                } else {
                    None
                }
            },
            Err(_) => final(manifest)@ == old(manifest)@ && final(lock)@ == old(lock)@,
        },
{
    let targets = match break_in_manifest(manifest, selection, remove) {
        Ok(targets) => targets,
        Err(e) => {
            return Err(e);
        },
    };
    let keys = ref_keys(&targets);
    let permissions = unlock_plan(resolved, &keys);
    let packages = package_targets(&targets, resolved);
    let lock_removed = if remove {
        Some(retain_lock_links(lock, manifest))
    } else {
        None
    };
    let manifest_removed = remove && is_manifest_empty(manifest);
    Ok(BrokenLinks { targets, packages, permissions, manifest_removed, lock_removed })
}

impl BrokenLinks {
    /// Makes the files writable that sources of packages were put back into.
    pub fn unlock_sources(&mut self, paths: &Vec<String>)
        ensures
            final(self).targets == old(self).targets,
            final(self).packages == old(self).packages,
            final(self).manifest_removed == old(self).manifest_removed,
            final(self).lock_removed == old(self).lock_removed,
            forall|path: Seq<char>| #[trigger]
                value_of(final(self).permissions@, path) == if texts(paths@).contains(path) {
                    Some(false)
                } else {
                    value_of(old(self).permissions@, path)
                },
    {
        let ghost all = texts(paths@);
        let mut i: usize = 0;
        while i < paths.len()
            invariant
                i <= paths.len(),
                all == texts(paths@),
                self.targets == old(self).targets,
                self.packages == old(self).packages,
                self.manifest_removed == old(self).manifest_removed,
                self.lock_removed == old(self).lock_removed,
                forall|path: Seq<char>| #[trigger]
                    value_of(self.permissions@, path) == if all.take(i as int).contains(path) {
                        Some(false)
                    } else {
                        value_of(old(self).permissions@, path)
                    },
            decreases paths.len() - i,
        {
            let ghost before = self.permissions@;
            self.permissions.put(paths[i].clone(), false);
            assert forall|path: Seq<char>| #[trigger]
                value_of(self.permissions@, path) == if all.take(i + 1).contains(path) {
                    Some(false)
                } else {
                    value_of(old(self).permissions@, path)
                } by {
                assert(value_of(before, path) == if all.take(i as int).contains(path) {
                    Some(false)
                } else {
                    value_of(old(self).permissions@, path)
                });
                assert(all.take(i + 1) =~= all.take(i as int).push(paths@[i as int]@));
            }
            i += 1;
        }
        assert(all.take(i as int) =~= all);
    }
}

/// No mirror of a broken target stays locked, and no other path is touched.
pub proof fn law_broken_targets_are_unlocked(
    resolved: Seq<ResolvedFiles>,
    keys: Seq<TargetModel>,
    permissions: Map<Seq<char>, bool>,
    i: int,
    j: int,
)
    requires
        is_unlocking(resolved, keys, permissions),
        0 <= i < resolved.len(),
        0 <= j < resolved[i].mirrors@.len(),
        keys.contains(resolved[i].target@.key()),
        resolved[i].mirrors@[j].exists,
    ensures
        permissions.dom().contains(resolved[i].mirrors@[j].path@),
        !permissions[resolved[i].mirrors@[j].path@],
{
    assert(is_mirror_of(resolved, keys, resolved[i].mirrors@[j].path@));
}

proof fn lemma_filtered_out(targets: Seq<RefModel>, keys: Seq<TargetModel>, key: TargetModel)
    requires
        keys.contains(key),
    ensures
        !targets_hold(refs_without(targets, keys), key),
{
    let kept = |t: RefModel| !keys.contains(t.key());
    let left = refs_without(targets, keys);
    assert forall|i: int| 0 <= i < left.len() implies (#[trigger] left[i]).key() != key by {
        targets.lemma_filter_pred(kept, i);
    }
}

proof fn lemma_cut_links_hold(links: Seq<EntryModel>, keys: Seq<TargetModel>, n: nat, key: TargetModel)
    requires
        keys.contains(key),
        n <= links.len(),
    ensures
        no_owner(cut_links(links, keys, n), key),
    decreases n,
{
    if n > 0 {
        lemma_cut_links_hold(links, keys, (n - 1) as nat, key);
        lemma_filtered_out(links[n - 1].targets, keys, key);
    }
}

/// A removed target belongs to no link any more and is not broken.
pub proof fn law_removed_target_is_gone(m: ManifestModel, keys: Seq<TargetModel>, key: TargetModel)
    requires
        keys.contains(key),
    ensures
        no_owner(manifest_without(m, keys).links, key),
        !targets_hold(manifest_without(m, keys).broken, key),
{
    lemma_cut_links_hold(m.links, keys, m.links.len(), key);
    lemma_filtered_out(m.broken, keys, key);
}

/// Every target that was marked broken is broken, and none comes back.
pub proof fn law_marked_target_is_broken(m: ManifestModel, targets: Seq<RefModel>, i: int)
    requires
        0 <= i < targets.len(),
    ensures
        targets_hold(manifest_with_broken(m, targets).broken, targets[i].key()),
{
    let keys = keys_in(m.broken);
    let kept = |t: RefModel| !keys.contains(t.key());
    let after = manifest_with_broken(m, targets).broken;
    if keys.contains(targets[i].key()) {
        let j = choose|j: int| 0 <= j < keys.len() && keys[j] == targets[i].key();
        assert(after[j].key() == targets[i].key());
    } else {
        targets.lemma_filter_contains(kept, i);
        let fresh = refs_without(targets, keys);
        let j = choose|j: int| 0 <= j < fresh.len() && fresh[j] == targets[i];
        assert(after[m.broken.len() + j] == targets[i]);
    }
}

/// The lock with what is kept of the links of a manifest alone.
pub open spec fn retained_lock(lock: Map<Seq<char>, LockModel>, links: Seq<EntryModel>) -> Map<Seq<char>, LockModel> {
    Map::new(|id: Seq<char>| lock.dom().contains(id) && !no_link(links, id), |id: Seq<char>| lock[id])
}

/// Forgets every link that the manifest does not list, and says whether nothing is left.
pub fn retain_lock_links(lock: &mut LinkLock, manifest: &LinkManifest) -> (r: bool)
    ensures
        final(lock)@ == retained_lock(old(lock)@, manifest@.links),
        r == (final(lock)@ == Map::<Seq<char>, LockModel>::empty()),
{
    let ghost start = lock@;
    let ids = lock.entries.keys();
    let ghost all = key_views(ids@);
    let mut i: usize = 0;
    while i < ids.len()
        invariant
            i <= ids.len(),
            all == key_views(ids@),
            all.no_duplicates(),
            forall|k: Seq<char>| #[trigger] all.contains(k) <==> start.dom().contains(k),
            forall|k: Seq<char>|
                #![trigger lock@.dom().contains(k)]
                lock@.dom().contains(k) == (start.dom().contains(k) && !(all.take(i as int).contains(k) && no_link(
                    manifest@.links,
                    k,
                ))),
            forall|k: Seq<char>| #![trigger lock@[k]] lock@.dom().contains(k) ==> lock@[k] == start[k],
        decreases ids.len() - i,
    {
        let ghost done = all.take(i as int);
        let ghost next = all.take(i + 1);
        let ghost id = all[i as int];
        proof {
            assert(next =~= done.push(id));
            assert(next[i as int] == id);
            assert forall|x: Seq<char>| next.contains(x) == (done.contains(x) || x == id) by {
                if done.contains(x) {
                    let at = choose|at: int| 0 <= at < done.len() && done[at] == x;
                    assert(next[at] == x);
                }
                if next.contains(x) && x != id {
                    let at = choose|at: int| 0 <= at < next.len() && next[at] == x;
                    assert(done[at] == x);
                }
            }
        }
        let ghost before = lock@;
        let found = find_link(&manifest.links, &ids[i]);
        assert(ids@[i as int]@ == id);
        if found.is_none() {
            lock.entries.take(&ids[i]);
            assert(lock@ == before.remove(id));
            assert forall|k: Seq<char>| #![trigger lock@.dom().contains(k)] lock@.dom().contains(k) == (
            before.dom().contains(k) && k != id) by {}
            assert forall|k: Seq<char>| #![trigger lock@[k]] lock@.dom().contains(k) implies lock@[k] == start[k] by {
                assert(before.dom().contains(k) && lock@[k] == before[k]);
            }
        } else {
            proof {
                let at = found->0;
                assert(manifest@.links[at as int].id == id);
                assert(!no_link(manifest@.links, id));
            }
        }
        i += 1;
    }
    proof {
        assert(all.take(i as int) =~= all);
        assert(lock@ =~= retained_lock(start, manifest@.links));
    }
    lock.entries.is_empty()
}

/// Nothing is left in a manifest.
pub open spec fn manifest_is_empty(m: ManifestModel) -> bool {
    m.links.len() == 0 && m.broken.len() == 0
}

pub fn is_manifest_empty(manifest: &LinkManifest) -> (r: bool)
    ensures
        r == manifest_is_empty(manifest@),
{
    manifest.links.len() == 0 && manifest.broken.len() == 0
}

/// The targets of a link that still follow it.
pub open spec fn active_targets(m: ManifestModel, entry: EntryModel) -> Seq<RefModel> {
    refs_without(entry.targets, keys_in(m.broken))
}

/// The targets of a link that still follow it.
pub fn active_link_targets(manifest: &LinkManifest, link: &LinkEntry) -> (r: Vec<LinkTargetRef>)
    ensures
        refs(r@) == active_targets(manifest@, link@),
{
    let broken = ref_keys(&manifest.broken);
    retain_refs(&link.targets, &broken)
}

/// A link whose targets were all marked broken has no active one left.
pub proof fn law_broken_link_has_no_active_target(m: ManifestModel, entry: EntryModel)
    ensures
        active_targets(manifest_with_broken(m, entry.targets), entry).len() == 0,
{
    let after = manifest_with_broken(m, entry.targets);
    let keys = keys_in(after.broken);
    let kept = |t: RefModel| !keys.contains(t.key());
    let active = active_targets(after, entry);
    if active.len() > 0 {
        entry.targets.lemma_filter_pred(kept, 0);
        assert(active.contains(active[0]));
        entry.targets.lemma_filter_contains_rev(kept, active[0]);
        let i = choose|i: int| 0 <= i < entry.targets.len() && entry.targets[i] == active[0];
        law_marked_target_is_broken(m, entry.targets, i);
        let j = choose|j: int| 0 <= j < after.broken.len() && (#[trigger] after.broken[j]).key() == active[0].key();
        assert(keys[j] == active[0].key());
    }
}

/// What happens to the uses of a package that is deleted.
#[derive(PartialEq, Eq, Structural, Clone, Copy, Debug)]
pub enum LinkDeletePackageAction {
    DeleteUnused,
    DeleteUses,
    UnlinkUses,
}

/// The action that a text names, without regard to case or white space round it.
pub open spec fn named_action(raw: Seq<char>) -> Result<LinkDeletePackageAction, LinkError> {
    let name = ascii_lower(trimmed(raw));
    if name == ""@ || name == "delete-unused"@ || name == "unused"@ || name == "refuse"@ {
        Ok(LinkDeletePackageAction::DeleteUnused)
    } else if name == "delete-uses"@ || name == "delete-usage"@ || name == "delete-targets"@ || name == "delete-all"@ {
        Ok(LinkDeletePackageAction::DeleteUses)
    } else if name == "unlink-uses"@ || name == "unlink"@ || name == "desync"@ || name == "keep-uses"@ {
        Ok(LinkDeletePackageAction::UnlinkUses)
    } else {
        Err(LinkError::UnknownAction)
    }
}

pub fn parse_link_delete_package_action(raw: &str) -> (r: Result<LinkDeletePackageAction, LinkError>)
    ensures
        r == named_action(raw@),
{
    let trimmed_text = trim(raw);
    let name = to_ascii_lower(&trimmed_text);
    if same(&name, "") || same(&name, "delete-unused") || same(&name, "unused") || same(&name, "refuse") {
        Ok(LinkDeletePackageAction::DeleteUnused)
    } else if same(&name, "delete-uses") || same(&name, "delete-usage") || same(&name, "delete-targets") || same(
        &name,
        "delete-all",
    ) {
        Ok(LinkDeletePackageAction::DeleteUses)
    } else if same(&name, "unlink-uses") || same(&name, "unlink") || same(&name, "desync") || same(&name, "keep-uses") {
        Ok(LinkDeletePackageAction::UnlinkUses)
    } else {
        Err(LinkError::UnknownAction)
    }
}

/// A path to a package ends in the store's extension.
pub open spec fn package_path(path: Seq<char>) -> bool {
    ".renium"@.is_suffix_of(path)
}

pub fn is_package_path(path: &str) -> (r: bool)
    ensures
        r == package_path(path@),
{
    ends_with(path, ".renium")
}

/// The source is a local package.
pub open spec fn local_package(source: SourceModel) -> bool {
    source matches SourceModel::Local { path } && package_path(path)
}

pub fn is_local_package(source: &LinkSource) -> (r: bool)
    ensures
        r == local_package(source@),
{
    match source {
        LinkSource::Local { path } => is_package_path(path),
        _ => false,
    }
}

/// A package that left the manifest.
pub struct DeletedPackage {
    pub action: LinkDeletePackageAction,
    /// The link that the package belonged to.
    pub link: LinkEntry,
    /// The targets that followed it.
    pub active: Vec<LinkTargetRef>,
    /// The manifest holds nothing any more.
    pub manifest_removed: bool,
    /// The lock holds nothing any more.
    pub lock_removed: bool,
}

/// Why a package is not deleted, at the link with its id.
pub open spec fn delete_refused(m: ManifestModel, i: int, action: LinkDeletePackageAction) -> Option<LinkError> {
    if !local_package(m.links[i].source) {
        Some(LinkError::NotLocalPackage { link: i as usize })
    } else if action == LinkDeletePackageAction::DeleteUnused && active_targets(m, m.links[i]).len() > 0 {
        Some(LinkError::ActiveUses { count: active_targets(m, m.links[i]).len() as usize })
    } else {
        None
    }
}

/// Takes a package out of the manifest and the lock: its link goes, and with it all that is broken of
/// its targets. A package in use is only deleted when the action says what becomes of its uses. On an
/// error nothing changes.
pub fn link_delete_package(manifest: &mut LinkManifest, lock: &mut LinkLock, id: &str, action: &str) -> (r: Result<
    DeletedPackage,
    LinkError,
>)
    ensures
        match r {
            Ok(deleted) => {
                &&& named_action(action@) == Ok::<LinkDeletePackageAction, LinkError>(deleted.action)
                &&& exists|i: int| #[trigger]
                    is_link(old(manifest)@.links, id@, i) && delete_refused(old(manifest)@, i, deleted.action) is None
                        && deleted.link@ == old(manifest)@.links[i] && refs(deleted.active@) == active_targets(
                        old(manifest)@,
                        old(manifest)@.links[i],
                    ) && final(manifest)@ == (ManifestModel {
                        version: old(manifest)@.version,
                        cache_dir: old(manifest)@.cache_dir,
                        links: old(manifest)@.links.remove(i),
                        broken: refs_without(old(manifest)@.broken, keys_in(old(manifest)@.links[i].targets)),
                    })
                &&& final(lock)@ == old(lock)@.remove(id@)
                &&& deleted.manifest_removed == manifest_is_empty(final(manifest)@)
                &&& deleted.lock_removed == (final(lock)@ == Map::<Seq<char>, LockModel>::empty())
            },
            Err(e) => {
                &&& final(manifest)@ == old(manifest)@
                &&& final(lock)@ == old(lock)@
                &&& match named_action(action@) {
                    Err(unknown) => e == unknown,
                    Ok(named) => (no_link(old(manifest)@.links, id@) && e == LinkError::UnknownLink) || (exists|i: int|
                     #[trigger]
                        is_link(old(manifest)@.links, id@, i) && delete_refused(old(manifest)@, i, named) == Some(e)),
                }
            },
        },
{
    let action = match parse_link_delete_package_action(action) {
        Ok(action) => action,
        Err(e) => {
            return Err(e);
        },
    };
    let i = match find_link(&manifest.links, id) {
        Some(i) => i,
        None => {
            return Err(LinkError::UnknownLink);
        },
    };
    let ghost before = manifest@;
    assert(is_link(before.links, id@, i as int));
    if !is_local_package(&manifest.links[i].source) {
        return Err(LinkError::NotLocalPackage { link: i });
    }
    let active = active_link_targets(manifest, &manifest.links[i]);
    assert(refs(active@).len() == active@.len());
    if active.len() > 0 && action == LinkDeletePackageAction::DeleteUnused {
        return Err(LinkError::ActiveUses { count: active.len() });
    }
    let ghost list = manifest.links@;
    let link = manifest.links.remove(i);
    assert(entries_of(list.remove(i as int)) =~= entries_of(list).remove(i as int));
    let keys = ref_keys(&link.targets);
    manifest.broken = retain_refs(&manifest.broken, &keys);
    lock.entries.take(&link.id);
    let manifest_removed = is_manifest_empty(manifest);
    let lock_removed = lock.entries.is_empty();
    Ok(DeletedPackage { action, link, active, manifest_removed, lock_removed })
}

/// A path with the key that it is compared by.
pub struct KeyedPath {
    pub path: String,
    pub key: String,
}

#[verifier::ext_equal]
pub struct PathModel {
    pub path: Seq<char>,
    pub key: Seq<char>,
}

impl View for KeyedPath {
    type V = PathModel;

    open spec fn view(&self) -> PathModel {
        PathModel { path: self.path@, key: self.key@ }
    }
}

pub open spec fn paths_of(v: Seq<KeyedPath>) -> Seq<PathModel> {
    Seq::new(v.len(), |i: int| v[i]@)
}

/// Some path has a key.
pub open spec fn has_path(paths: Seq<PathModel>, key: Seq<char>) -> bool {
    exists|i: int| 0 <= i < paths.len() && (#[trigger] paths[i]).key == key
}

/// `p` is the first of some paths with its key.
pub open spec fn is_first_path(paths: Seq<PathModel>, p: PathModel) -> bool {
    exists|i: int|
        0 <= i < paths.len() && #[trigger] paths[i] == p && (forall|j: int|
            0 <= j < i ==> (#[trigger] paths[j]).key != p.key)
}

/// `r` is the paths to remove, of those planned, when some paths are written: in the order of their
/// keys, no key twice and the first path of each key, and none that is written.
pub open spec fn settled(planned: Seq<PathModel>, written: Seq<Seq<char>>, r: Seq<PathModel>) -> bool {
    &&& forall|i: int, j: int| 0 <= i < j < r.len() ==> text_less((#[trigger] r[i]).key, (#[trigger] r[j]).key)
    &&& forall|i: int| 0 <= i < r.len() ==> is_first_path(planned, #[trigger] r[i]) && !written.contains(r[i].key)
    &&& forall|i: int|
        0 <= i < planned.len() && !written.contains((#[trigger] planned[i]).key) ==> has_path(r, planned[i].key)
}

fn path_position(sorted: &Vec<KeyedPath>, key: &str) -> (r: (usize, bool))
    requires
        forall|i: int, j: int|
            0 <= i < j < sorted@.len() ==> text_less((#[trigger] sorted@[i]).key@, (#[trigger] sorted@[j]).key@),
    ensures
        r.0 <= sorted@.len(),
        r.1 == has_path(paths_of(sorted@), key@),
        forall|i: int| 0 <= i < r.0 ==> text_less((#[trigger] sorted@[i]).key@, key@),
        !r.1 ==> (forall|i: int| r.0 <= i < sorted@.len() ==> text_less(key@, (#[trigger] sorted@[i]).key@)),
{
    let mut i: usize = 0;
    while i < sorted.len() && less(&sorted[i].key, key)
        invariant
            i <= sorted.len(),
            forall|j: int| 0 <= j < i ==> text_less((#[trigger] sorted@[j]).key@, key@),
        decreases sorted.len() - i,
    {
        i += 1;
    }
    let found = i < sorted.len() && same(&sorted[i].key, key);
    proof {
        if found {
            assert(paths_of(sorted@)[i as int].key == key@);
        } else {
            if i < sorted.len() {
                crate::text::lemma_text_less_total(sorted@[i as int].key@, key@);
            }
            assert forall|j: int| i <= j < sorted@.len() implies text_less(key@, (#[trigger] sorted@[j]).key@) by {
                if j > i {
                    assert(text_less(sorted@[i as int].key@, sorted@[j].key@));
                    crate::text::lemma_text_less_transitive(key@, sorted@[i as int].key@, sorted@[j].key@);
                }
            }
            assert forall|j: int| 0 <= j < sorted@.len() implies (#[trigger] paths_of(sorted@)[j]).key != key@ by {
                crate::text::lemma_text_less_total(sorted@[j].key@, key@);
                if j < i {
                    assert(text_less(sorted@[j].key@, key@));
                } else {
                    assert(text_less(key@, sorted@[j].key@));
                }
            }
        }
    }
    (i, found)
}

/// Settles which files to remove: none that is written, each once, in the order of their keys.
pub fn settle_removals(planned: &Vec<KeyedPath>, written: &Vec<String>) -> (r: Vec<KeyedPath>)
    ensures
        settled(paths_of(planned@), crate::text::texts(written@), paths_of(r@)),
{
    let ghost all = paths_of(planned@);
    let ghost gone = crate::text::texts(written@);
    let mut out: Vec<KeyedPath> = Vec::new();
    let mut i: usize = 0;
    while i < planned.len()
        invariant
            i <= planned.len(),
            all == paths_of(planned@),
            gone == crate::text::texts(written@),
            forall|a: int, b: int|
                0 <= a < b < out@.len() ==> text_less((#[trigger] out@[a]).key@, (#[trigger] out@[b]).key@),
            forall|a: int|
                0 <= a < out@.len() ==> is_first_path(all, (#[trigger] out@[a])@) && !gone.contains(out@[a].key@),
            forall|a: int|
                0 <= a < out@.len() ==> (exists|b: int| 0 <= b < i && (#[trigger] all[b]).key == (#[trigger] out@[a]).key@),
            forall|a: int|
                0 <= a < i && !gone.contains((#[trigger] all[a]).key) ==> has_path(paths_of(out@), all[a].key),
        decreases planned.len() - i,
    {
        let p = &planned[i];
        assert(all[i as int] == p@);
        if !crate::text::holds_text(written, &p.key) {
            let (at, found) = path_position(&out, &p.key);
            if !found {
                let ghost before = out@;
                let copy = KeyedPath { path: p.path.clone(), key: p.key.clone() };
                out.insert(at, copy);
                proof {
                    assert(out@ == before.insert(at as int, copy));
                    assert forall|j: int| 0 <= j < i implies (#[trigger] all[j]).key != p.key@ by {
                        if all[j].key == p.key@ {
                            assert(has_path(paths_of(before), all[j].key));
                        }
                    }
                    assert(is_first_path(all, copy@)) by {
                        assert(all[i as int] == copy@);
                    }
                    assert forall|a: int| 0 <= a < i + 1 && !gone.contains((#[trigger] all[a]).key) implies has_path(
                        paths_of(out@),
                        all[a].key,
                    ) by {
                        if a < i {
                            let b = choose|b: int|
                                0 <= b < paths_of(before).len() && (#[trigger] paths_of(before)[b]).key == all[a].key;
                            let c = if b < at {
                                b
                            } else {
                                b + 1
                            };
                            assert(out@[c] == before[b]);
                            assert(paths_of(out@)[c].key == all[a].key);
                        } else {
                            assert(paths_of(out@)[at as int].key == all[a].key);
                        }
                    }
                    assert forall|a: int| 0 <= a < out@.len() implies (exists|b: int|
                        0 <= b < i + 1 && (#[trigger] all[b]).key == (#[trigger] out@[a]).key@) by {
                        if a == at {
                            assert(all[i as int].key == out@[a].key@);
                        } else {
                            let c = if a < at {
                                a
                            } else {
                                a - 1
                            };
                            assert(out@[a] == before[c]);
                            let b = choose|b: int| 0 <= b < i && (#[trigger] all[b]).key == before[c].key@;
                            assert(all[b].key == out@[a].key@);
                        }
                    }
                    assert forall|a: int| 0 <= a < out@.len() implies is_first_path(all, (#[trigger] out@[a])@)
                        && !gone.contains(out@[a].key@) by {
                        if a != at {
                            let c = if a < at {
                                a
                            } else {
                                a - 1
                            };
                            assert(out@[a] == before[c]);
                        }
                    }
                    assert forall|a: int, b: int| 0 <= a < b < out@.len() implies text_less(
                        (#[trigger] out@[a]).key@,
                        (#[trigger] out@[b]).key@,
                    ) by {
                        let x = if a < at {
                            a
                        } else {
                            a - 1
                        };
                        let y = if b < at {
                            b
                        } else {
                            b - 1
                        };
                        if a != at && b != at {
                            assert(out@[a] == before[x] && out@[b] == before[y]);
                        } else if a == at {
                            assert(out@[b] == before[y]);
                        } else {
                            assert(out@[a] == before[x]);
                        }
                    }
                }
            }
        }
        i += 1;
    }
    proof {
        let r = paths_of(out@);
        assert forall|a: int, b: int| 0 <= a < b < r.len() implies text_less((#[trigger] r[a]).key, (#[trigger] r[b]).key) by {
            assert(text_less(out@[a].key@, out@[b].key@));
        }
        assert forall|a: int| 0 <= a < r.len() implies is_first_path(all, #[trigger] r[a]) && !gone.contains(r[a].key) by {
            assert(r[a] == out@[a]@);
        }
    }
    out
}

} // verus!
