//! Commands that change which targets follow which links.
use vstd::prelude::*;

use crate::json::{elements, Json, JsonModel, Number};
use crate::jsonc::{json_read, read_json};
use crate::table::Key;

use crate::links::{
    entries_of, find_link, find_owner, hold_target, is_link, is_owner, keys_of, lemma_entries_of_push, lemma_entries_of_update,
    locked, migrate_link_target_lock, migrated, no_link, no_owner, opt_text, refs, refs_without, retain_refs, targets_hold,
    EntryModel, LinkEntry, LinkError, LinkLock, LinkManifest, LinkSource, LinkTargetRef, LockModel, ManifestModel, RefModel,
    SourceModel, TargetKey, TargetModel,
};
use crate::text::{ascii_lower, lemma_texts_push, same, texts, to_ascii_lower};

verus! {

broadcast use vstd::seq_lib::group_seq_properties;

/// The source that the options of a new link describe.
pub open spec fn described_source(
    source_type: Seq<char>,
    source: Option<Seq<char>>,
    source_ref: Option<Seq<char>>,
    subpath: Option<Seq<char>>,
) -> Result<SourceModel, LinkError> {
    match source {
        None => Err(LinkError::MissingSource),
        Some(value) => {
            let kind = ascii_lower(source_type);
            if kind == "local"@ {
                Ok(SourceModel::Local { path: value })
            } else if kind == "git"@ {
                Ok(SourceModel::Git { url: value, git_ref: source_ref, subpath })
            } else if kind == "wally"@ {
                Ok(SourceModel::Wally { package: value, version: source_ref })
            } else {
                Err(LinkError::UnknownSourceType)
            }
        },
    }
}

/// The model of a source or of the reason that there is none.
pub open spec fn source_result(r: Result<LinkSource, LinkError>) -> Result<SourceModel, LinkError> {
    match r {
        Ok(source) => Ok(source@),
        Err(e) => Err(e),
    }
}

/// Makes the source of a new link.
pub fn parse_link_source(
    source_type: &str,
    source: Option<String>,
    source_ref: Option<String>,
    subpath: Option<String>,
) -> (r: Result<LinkSource, LinkError>)
    ensures
        source_result(r) == described_source(source_type@, opt_text(source), opt_text(source_ref), opt_text(subpath)),
{
    let value = match source {
        Some(value) => value,
        None => {
            return Err(LinkError::MissingSource);
        },
    };
    let kind = to_ascii_lower(source_type);
    if same(&kind, "local") {
        Ok(LinkSource::Local { path: value })
    } else if same(&kind, "git") {
        Ok(LinkSource::Git { url: value, git_ref: source_ref, subpath })
    } else if same(&kind, "wally") {
        Ok(LinkSource::Wally { package: value, version: source_ref })
    } else {
        Err(LinkError::UnknownSourceType)
    }
}

/// `i` is the first link with another id that has a target of this key.
pub open spec fn is_other_owner(links: Seq<EntryModel>, id: Seq<char>, key: TargetModel, i: int) -> bool {
    &&& 0 <= i < links.len()
    &&& links[i].id != id && targets_hold(links[i].targets, key)
    &&& forall|j: int|
        0 <= j < i ==> (#[trigger] links[j]).id == id || !targets_hold(links[j].targets, key)
}

pub open spec fn no_other_owner(links: Seq<EntryModel>, id: Seq<char>, key: TargetModel) -> bool {
    forall|j: int| 0 <= j < links.len() ==> (#[trigger] links[j]).id == id || !targets_hold(links[j].targets, key)
}

/// A link with one more target, unless it has it.
pub open spec fn with_target(entry: EntryModel, target: RefModel) -> EntryModel {
    if targets_hold(entry.targets, target.key()) {
        entry
    } else {
        EntryModel {
            id: entry.id,
            read_only: entry.read_only,
            source: entry.source,
            targets: entry.targets.push(target),
        }
    }
}

/// A link with one target.
pub open spec fn new_entry(id: Seq<char>, read_only: bool, source: SourceModel, target: RefModel) -> EntryModel {
    EntryModel { id, read_only, source, targets: seq![target] }
}

fn find_other_owner(links: &Vec<LinkEntry>, id: &str, key: &TargetKey) -> (r: Option<usize>)
    ensures
        match r {
            Some(i) => is_other_owner(entries_of(links@), id@, key@, i as int),
            None => no_other_owner(entries_of(links@), id@, key@),
        },
{
    let mut i: usize = 0;
    while i < links.len()
        invariant
            i <= links.len(),
            forall|j: int|
                0 <= j < i ==> (#[trigger] entries_of(links@)[j]).id == id@ || !targets_hold(
                    entries_of(links@)[j].targets,
                    key@,
                ),
        decreases links.len() - i,
    {
        if !same(&links[i].id, id) && hold_target(&links[i].targets, key) {
            return Some(i);
        }
        i += 1;
    }
    None
}

/// The targets without those of one key.
fn refs_without_key(targets: &Vec<LinkTargetRef>, key: &TargetKey) -> (r: Vec<LinkTargetRef>)
    ensures
        refs(r@) == refs_without(refs(targets@), seq![key@]),
{
    let mut keys: Vec<TargetKey> = Vec::new();
    keys.push(key.copy_key());
    assert(keys_of(keys@) =~= seq![key@]);
    retain_refs(targets, &keys)
}

/// Puts a target under the link at `i`, and answers how many targets the link then has.
fn attach_target(links: &mut Vec<LinkEntry>, i: usize, target: &LinkTargetRef, key: &TargetKey) -> (count: usize)
    requires
        i < old(links)@.len(),
        key@ == target@.key(),
    ensures
        entries_of(final(links)@) == entries_of(old(links)@).update(
            i as int,
            with_target(entries_of(old(links)@)[i as int], target@),
        ),
        count == with_target(entries_of(old(links)@)[i as int], target@).targets.len(),
{
    let mut entry = links[i].copy();
    assert(entry@ == entries_of(links@)[i as int]);
    if !hold_target(&entry.targets, key) {
        let t = target.copy();
        assert(refs(entry.targets@.push(t)) =~= refs(entry.targets@).push(t@));
        entry.targets.push(t);
    }
    proof {
        lemma_entries_of_update(links@, i as int, entry);
    }
    let count = entry.targets.len();
    links.set(i, entry);
    count
}

/// Adds a target to a link, or makes a new link for it, and unbreaks the target. The answer is how
/// many targets the link then has. Whether the id can be the name of a file is handed over.
pub fn link_add(
    manifest: &mut LinkManifest,
    id: &str,
    id_valid: bool,
    target: &LinkTargetRef,
    source: Result<LinkSource, LinkError>,
    writable: bool,
) -> (r: Result<usize, LinkError>)
    ensures
        match r {
            Ok(count) => {
                &&& id_valid
                &&& no_other_owner(old(manifest)@.links, id@, target@.key())
                &&& final(manifest)@.version == old(manifest)@.version
                &&& final(manifest)@.cache_dir == old(manifest)@.cache_dir
                &&& final(manifest)@.broken == refs_without(old(manifest)@.broken, seq![target@.key()])
                &&& match source {
                    Ok(given) => {
                        ||| no_link(old(manifest)@.links, id@) && count == 1 && final(manifest)@.links
                            == old(manifest)@.links.push(new_entry(id@, !writable, given@, target@))
                        ||| exists|i: int| #[trigger]
                            is_link(old(manifest)@.links, id@, i) && final(manifest)@.links == old(
                                manifest,
                            )@.links.update(i, with_target(old(manifest)@.links[i], target@)) && count == with_target(
                                old(manifest)@.links[i],
                                target@,
                            ).targets.len()
                    },
                    Err(_) => exists|i: int| #[trigger]
                        is_link(old(manifest)@.links, id@, i) && final(manifest)@.links == old(
                            manifest,
                        )@.links.update(i, with_target(old(manifest)@.links[i], target@)) && count == with_target(
                            old(manifest)@.links[i],
                            target@,
                        ).targets.len(),
                }
            },
            Err(e) => {
                &&& final(manifest)@ == old(manifest)@
                &&& if !id_valid {
                    e == LinkError::InvalidId
                } else {
                    ||| e matches LinkError::AlreadyOwned { link } && is_other_owner(
                        old(manifest)@.links,
                        id@,
                        target@.key(),
                        link as int,
                    )
                    ||| no_other_owner(old(manifest)@.links, id@, target@.key()) && no_link(old(manifest)@.links, id@)
                        && source == Err::<LinkSource, LinkError>(e)
                }
            },
        },
{
    if !id_valid {
        return Err(LinkError::InvalidId);
    }
    let key = target.key();
    match find_other_owner(&manifest.links, id, &key) {
        Some(link) => {
            return Err(LinkError::AlreadyOwned { link });
        },
        None => {},
    }
    match find_link(&manifest.links, id) {
        Some(i) => {
            let count = attach_target(&mut manifest.links, i, target, &key);
            manifest.broken = refs_without_key(&manifest.broken, &key);
            assert(is_link(old(manifest)@.links, id@, i as int));
            Ok(count)
        },
        None => match source {
            Err(e) => Err(e),
            Ok(given) => {
                let mut targets: Vec<LinkTargetRef> = Vec::new();
                targets.push(target.copy());
                assert(refs(targets@) =~= seq![target@]);
                let new = LinkEntry { id: id.to_owned(), read_only: !writable, source: given, targets };
                proof {
                    lemma_entries_of_push(manifest.links@, new);
                }
                manifest.links.push(new);
                manifest.broken = refs_without_key(&manifest.broken, &key);
                Ok(1)
            },
        },
    }
}

/// Adding a target leaves no broken target with its key, and the link with the id has it.
pub proof fn law_added_target_is_active(broken: Seq<RefModel>, entry: EntryModel, target: RefModel)
    ensures
        !targets_hold(refs_without(broken, seq![target.key()]), target.key()),
        targets_hold(with_target(entry, target).targets, target.key()),
{
    let kept = |t: RefModel| !seq![target.key()].contains(t.key());
    let left = refs_without(broken, seq![target.key()]);
    assert forall|i: int| 0 <= i < left.len() implies (#[trigger] left[i]).key() != target.key() by {
        broken.lemma_filter_pred(kept, i);
        assert(seq![target.key()][0] == target.key());
    }
    if !targets_hold(entry.targets, target.key()) {
        let targets = with_target(entry, target).targets;
        assert(targets[targets.len() - 1].key() == target.key());
    }
}

/// The targets with those of one key replaced.
pub open spec fn moved_targets(targets: Seq<RefModel>, from: TargetModel, to: RefModel) -> Seq<RefModel> {
    Seq::new(
        targets.len(),
        |i: int|
            if targets[i].key() == from {
                to
            } else {
                targets[i]
            },
    )
}

pub open spec fn moved_entry(entry: EntryModel, from: TargetModel, to: RefModel) -> EntryModel {
    EntryModel {
        id: entry.id,
        read_only: entry.read_only,
        source: entry.source,
        targets: moved_targets(entry.targets, from, to),
    }
}

/// The links with the targets of one key replaced.
pub open spec fn moved_links(links: Seq<EntryModel>, from: TargetModel, to: RefModel) -> Seq<EntryModel> {
    Seq::new(links.len(), |i: int| moved_entry(links[i], from, to))
}

/// How many of the first `n` targets have a key.
pub open spec fn count_key(targets: Seq<RefModel>, key: TargetModel, n: nat) -> nat
    decreases n,
{
    if n == 0 {
        0
    } else {
        count_key(targets, key, (n - 1) as nat) + if targets[n - 1].key() == key {
            1nat
        } else {
            0nat
        }
    }
}

/// The id of each link, once for each of its targets with a key, over the first `n` links.
pub open spec fn moved_ids(links: Seq<EntryModel>, key: TargetModel, n: nat) -> Seq<Seq<char>>
    decreases n,
{
    if n == 0 {
        Seq::empty()
    } else {
        moved_ids(links, key, (n - 1) as nat) + Seq::new(
            count_key(links[n - 1].targets, key, links[n - 1].targets.len()),
            |i: int| links[n - 1].id,
        )
    }
}

proof fn lemma_count_positive(targets: Seq<RefModel>, key: TargetModel, n: nat, i: int)
    requires
        n <= targets.len(),
        0 <= i < n,
        targets[i].key() == key,
    ensures
        count_key(targets, key, n) > 0,
    decreases n,
{
    if i < n - 1 {
        lemma_count_positive(targets, key, (n - 1) as nat, i);
    }
}

/// A link that has a target of a key is among those that move.
pub proof fn lemma_moved_id(links: Seq<EntryModel>, key: TargetModel, n: nat, i: int)
    requires
        n <= links.len(),
        0 <= i < n,
        targets_hold(links[i].targets, key),
    ensures
        moved_ids(links, key, n).contains(links[i].id),
    decreases n,
{
    let last = Seq::new(
        count_key(links[n - 1].targets, key, links[n - 1].targets.len()),
        |j: int| links[n - 1].id,
    );
    let before = moved_ids(links, key, (n - 1) as nat);
    if i < n - 1 {
        lemma_moved_id(links, key, (n - 1) as nat, i);
        let at = choose|at: int| 0 <= at < before.len() && before[at] == links[i].id;
        assert((before + last)[at] == links[i].id);
    } else {
        let t = choose|t: int| 0 <= t < links[i].targets.len() && (#[trigger] links[i].targets[t]).key() == key;
        lemma_count_positive(links[i].targets, key, links[i].targets.len(), t);
        assert((before + last)[before.len() as int] == links[i].id);
    }
}

/// What is kept of the links after a target of some of them moved.
pub open spec fn moved_lock(
    lock: Map<Seq<char>, LockModel>,
    ids: Seq<Seq<char>>,
    from: TargetModel,
    to: TargetModel,
) -> Map<Seq<char>, LockModel> {
    Map::new(
        |id: Seq<char>| lock.dom().contains(id),
        |id: Seq<char>|
            if ids.contains(id) {
                migrated(lock[id], from, to)
            } else {
                lock[id]
            },
    )
}

/// Something is kept of the moved target.
pub open spec fn lock_moves(lock: Map<Seq<char>, LockModel>, ids: Seq<Seq<char>>, from: TargetModel) -> bool {
    exists|i: int| 0 <= i < ids.len() && lock.dom().contains(#[trigger] ids[i]) && locked(lock[ids[i]], from)
}

/// Moves what is kept of a target, for some links; an id may come more than once.
pub fn migrate_links(lock: &mut LinkLock, ids: &Vec<String>, from: &TargetKey, to: &TargetKey) -> (r: bool)
    ensures
        final(lock)@ == moved_lock(old(lock)@, texts(ids@), from@, to@),
        r == lock_moves(old(lock)@, texts(ids@), from@),
{
    let ghost start = lock@;
    let ghost all = texts(ids@);
    let mut changed = false;
    let mut i: usize = 0;
    assert(moved_lock(start, all.take(0), from@, to@) =~= start);
    while i < ids.len()
        invariant
            i <= ids.len(),
            all == texts(ids@),
            lock@ == moved_lock(start, all.take(i as int), from@, to@),
            changed == lock_moves(start, all.take(i as int), from@),
        decreases ids.len() - i,
    {
        let id = &ids[i];
        let ghost before = lock@;
        let ghost done = all.take(i as int);
        let ghost next = all.take(i + 1);
        proof {
            assert(next =~= done.push(id@));
            assert(next[i as int] == id@);
            assert forall|x: Seq<char>| next.contains(x) == (done.contains(x) || x == id@) by {
                if done.contains(x) {
                    let at = choose|at: int| 0 <= at < done.len() && done[at] == x;
                    assert(next[at] == x);
                }
                if next.contains(x) && x != id@ {
                    let at = choose|at: int| 0 <= at < next.len() && next[at] == x;
                    assert(done[at] == x);
                }
            }
        }
        match lock.entries.take(id) {
            Some(mut entry) => {
                let moved = migrate_link_target_lock(&mut entry, from, to);
                lock.entries.put(id.clone(), entry);
                proof {
                    if done.contains(id@) {
                        crate::links::law_migrating_twice(start[id@], from@, to@);
                    }
                    assert(lock@ =~= moved_lock(start, next, from@, to@));
                    if done.contains(id@) {
                        let at = choose|at: int| 0 <= at < done.len() && done[at] == id@;
                        if moved && from@ != to@ {
                            assert(!locked(migrated(start[id@], from@, to@), from@));
                        }
                        if moved {
                            assert(locked(start[id@], from@));
                            assert(lock_moves(start, done, from@)) by {
                                assert(lock_key_at(start, done, at, from@));
                            }
                        }
                    }
                    lemma_lock_moves_push(start, done, id@, from@);
                }
                changed = changed || moved;
            },
            None => {
                proof {
                    assert(before.remove(id@) =~= before);
                    assert(lock@ =~= moved_lock(start, next, from@, to@));
                    lemma_lock_moves_push(start, done, id@, from@);
                }
            },
        }
        i += 1;
    }
    assert(all.take(i as int) =~= all);
    changed
}

spec fn lock_key_at(lock: Map<Seq<char>, LockModel>, ids: Seq<Seq<char>>, i: int, from: TargetModel) -> bool {
    0 <= i < ids.len() && lock.dom().contains(ids[i]) && locked(lock[ids[i]], from)
}

proof fn lemma_lock_moves_push(lock: Map<Seq<char>, LockModel>, ids: Seq<Seq<char>>, id: Seq<char>, from: TargetModel)
    ensures
        lock_moves(lock, ids.push(id), from) == (lock_moves(lock, ids, from) || (lock.dom().contains(id) && locked(
            lock[id],
            from,
        ))),
{
    let more = ids.push(id);
    if lock_moves(lock, ids, from) {
        let i = choose|i: int| 0 <= i < ids.len() && lock.dom().contains(#[trigger] ids[i]) && locked(lock[ids[i]], from);
        assert(more[i] == ids[i]);
    }
    if lock.dom().contains(id) && locked(lock[id], from) {
        assert(more[ids.len() as int] == id);
    }
    if lock_moves(lock, more, from) {
        let i = choose|i: int|
            0 <= i < more.len() && lock.dom().contains(#[trigger] more[i]) && locked(lock[more[i]], from);
        if i < ids.len() {
            assert(ids[i] == more[i]);
        }
    }
}

/// What moving a target did.
pub struct MovedTarget {
    /// The links that the target was moved in.
    pub links: Vec<String>,
    /// Whether the lock has changed.
    pub lock_changed: bool,
}

fn move_in_links(links: &Vec<LinkEntry>, from: &TargetKey, to: &LinkTargetRef) -> (r: (Vec<LinkEntry>, Vec<String>))
    ensures
        entries_of(r.0@) == moved_links(entries_of(links@), from@, to@),
        texts(r.1@) == moved_ids(entries_of(links@), from@, links@.len()),
{
    let ghost all = entries_of(links@);
    let mut out: Vec<LinkEntry> = Vec::new();
    let mut ids: Vec<String> = Vec::new();
    let mut i: usize = 0;
    assert(texts(ids@) =~= moved_ids(all, from@, 0));
    while i < links.len()
        invariant
            i <= links.len(),
            all == entries_of(links@),
            entries_of(out@) == moved_links(all, from@, to@).take(i as int),
            texts(ids@) == moved_ids(all, from@, i as nat),
        decreases links.len() - i,
    {
        let entry = &links[i];
        let ghost from_targets = refs(entry.targets@);
        let ghost ids_before = texts(ids@);
        let mut targets: Vec<LinkTargetRef> = Vec::new();
        let mut j: usize = 0;
        assert(ids_before =~= ids_before + Seq::new(count_key(from_targets, from@, 0), |k: int| entry.id@));
        while j < entry.targets.len()
            invariant
                j <= entry.targets.len(),
                from_targets == refs(entry.targets@),
                refs(targets@) == moved_targets(from_targets, from@, to@).take(j as int),
                texts(ids@) == ids_before + Seq::new(count_key(from_targets, from@, j as nat), |k: int| entry.id@),
            decreases entry.targets.len() - j,
        {
            let hit = entry.targets[j].key().same_key(from);
            let t = if hit {
                to.copy()
            } else {
                entry.targets[j].copy()
            };
            proof {
                assert(refs(targets@.push(t)) =~= refs(targets@).push(t@));
                assert(moved_targets(from_targets, from@, to@).take(j + 1) =~= moved_targets(from_targets, from@, to@).take(
                    j as int,
                ).push(t@));
            }
            targets.push(t);
            if hit {
                let id = entry.id.clone();
                proof {
                    lemma_texts_push(ids@, id);
                    assert(ids_before + Seq::new(count_key(from_targets, from@, (j + 1) as nat), |k: int| entry.id@)
                        =~= (ids_before + Seq::new(count_key(from_targets, from@, j as nat), |k: int| entry.id@)).push(
                        id@,
                    ));
                }
                ids.push(id);
            }
            j += 1;
        }
        assert(moved_targets(from_targets, from@, to@).take(j as int) =~= moved_targets(from_targets, from@, to@));
        let moved = LinkEntry {
            id: entry.id.clone(),
            read_only: entry.read_only,
            source: entry.source.copy(),
            targets,
        };
        proof {
            assert(all[i as int] == entry@);
            lemma_entries_of_push(out@, moved);
            assert(moved_links(all, from@, to@).take(i + 1) =~= moved_links(all, from@, to@).take(i as int).push(moved@));
            assert(Seq::new(count_key(from_targets, from@, from_targets.len()), |k: int| entry.id@) =~= Seq::new(
                count_key(all[i as int].targets, from@, all[i as int].targets.len()),
                |k: int| all[i as int].id,
            ));
        }
        out.push(moved);
        i += 1;
    }
    assert(moved_links(all, from@, to@).take(i as int) =~= moved_links(all, from@, to@));
    (out, ids)
}

/// Gives the target of a link another place. Everything that the lock keeps of it moves along, and
/// neither place stays broken. On an error nothing changes.
pub fn link_move_target(
    manifest: &mut LinkManifest,
    lock: &mut LinkLock,
    old_target: &LinkTargetRef,
    new_target: &LinkTargetRef,
) -> (r: Result<MovedTarget, LinkError>)
    ensures
        match r {
            Ok(moved) => {
                &&& old_target@.key() == new_target@.key() || no_owner(old(manifest)@.links, new_target@.key())
                &&& !no_owner(old(manifest)@.links, old_target@.key())
                &&& texts(moved.links@) == moved_ids(
                    old(manifest)@.links,
                    old_target@.key(),
                    old(manifest)@.links.len(),
                )
                &&& moved.lock_changed == lock_moves(old(lock)@, texts(moved.links@), old_target@.key())
                &&& final(manifest)@ == (ManifestModel {
                    version: old(manifest)@.version,
                    cache_dir: old(manifest)@.cache_dir,
                    links: moved_links(old(manifest)@.links, old_target@.key(), new_target@),
                    broken: refs_without(old(manifest)@.broken, seq![old_target@.key(), new_target@.key()]),
                })
                &&& final(lock)@ == moved_lock(
                    old(lock)@,
                    texts(moved.links@),
                    old_target@.key(),
                    new_target@.key(),
                )
            },
            Err(e) => {
                &&& final(manifest)@ == old(manifest)@
                &&& final(lock)@ == old(lock)@
                &&& (e matches LinkError::AlreadyOwned { link } && old_target@.key() != new_target@.key() && is_owner(
                    old(manifest)@.links,
                    new_target@.key(),
                    link as int,
                )) || (e == LinkError::NotATarget && no_owner(old(manifest)@.links, old_target@.key()) && (
                old_target@.key() == new_target@.key() || no_owner(old(manifest)@.links, new_target@.key())))
            },
        },
{
    let old_key = old_target.key();
    let new_key = new_target.key();
    if !old_key.same_key(&new_key) {
        match find_owner(&manifest.links, &new_key) {
            Some(link) => {
                return Err(LinkError::AlreadyOwned { link });
            },
            None => {},
        }
    }
    match find_owner(&manifest.links, &old_key) {
        None => {
            return Err(LinkError::NotATarget);
        },
        Some(link) => {
            assert(targets_hold(manifest@.links[link as int].targets, old_key@));
        },
    }
    let (links, ids) = move_in_links(&manifest.links, &old_key, new_target);
    let mut keys: Vec<TargetKey> = Vec::new();
    keys.push(old_key.copy_key());
    keys.push(new_key.copy_key());
    assert(keys_of(keys@) =~= seq![old_key@, new_key@]);
    manifest.broken = retain_refs(&manifest.broken, &keys);
    manifest.links = links;
    let lock_changed = migrate_links(lock, &ids, &old_key, &new_key);
    Ok(MovedTarget { links: ids, lock_changed })
}

/// The texts that a JSON value lists, where it is a list of texts.
pub open spec fn listed_texts(v: JsonModel) -> Option<Seq<Seq<char>>> {
    match v {
        JsonModel::Array(items) => if forall|i: int| 0 <= i < items.len() ==> (#[trigger] items[i]) is Text {
            Some(Seq::new(items.len(), |i: int| items[i]->Text_0))
        } else {
            None
        },
        _ => None,
    }
}

/// A JSON value is an ordinal.
pub open spec fn is_ordinal(v: JsonModel) -> bool {
    v is Number && v->Number_0 is Unsigned && v->Number_0->Unsigned_0 <= usize::MAX
}

/// The ordinals that a JSON value lists, where it is a list of them.
pub open spec fn listed_ordinals(v: JsonModel) -> Option<Seq<usize>> {
    match v {
        JsonModel::Array(items) => if forall|i: int| 0 <= i < items.len() ==> is_ordinal(#[trigger] items[i]) {
            Some(Seq::new(items.len(), |i: int| items[i]->Number_0->Unsigned_0 as usize))
        } else {
            None
        },
        _ => None,
    }
}

fn read_texts(v: &Json) -> (r: Option<Vec<String>>)
    ensures
        match r {
            Some(list) => listed_texts(v@) == Some(texts(list@)),
            None => listed_texts(v@) is None,
        },
{
    let items = match v {
        Json::Array(items) => items,
        _ => {
            return None;
        },
    };
    let ghost all = elements(items@);
    let mut out: Vec<String> = Vec::new();
    let mut i: usize = 0;
    while i < items.len()
        invariant
            i <= items.len(),
            v@ == JsonModel::Array(all),
            all == elements(items@),
            out@.len() == i,
            forall|j: int| 0 <= j < i ==> (#[trigger] all[j]) == JsonModel::Text(out@[j]@),
        decreases items.len() - i,
    {
        assert(all[i as int] == items@[i as int].model());
        match &items[i] {
            Json::Text(s) => {
                out.push(s.clone());
            },
            _ => {
                assert(!(all[i as int] is Text));
                return None;
            },
        }
        i += 1;
    }
    assert(Seq::new(all.len(), |i: int| all[i]->Text_0) =~= texts(out@));
    Some(out)
}

fn read_ordinals(v: &Json) -> (r: Option<Vec<usize>>)
    ensures
        match r {
            Some(list) => listed_ordinals(v@) == Some(list@),
            None => listed_ordinals(v@) is None,
        },
{
    let items = match v {
        Json::Array(items) => items,
        _ => {
            return None;
        },
    };
    let ghost all = elements(items@);
    let mut out: Vec<usize> = Vec::new();
    let mut i: usize = 0;
    while i < items.len()
        invariant
            i <= items.len(),
            v@ == JsonModel::Array(all),
            all == elements(items@),
            out@.len() == i,
            forall|j: int|
                0 <= j < i ==> is_ordinal(#[trigger] all[j]) && all[j]->Number_0->Unsigned_0 as usize == out@[j],
        decreases items.len() - i,
    {
        assert(all[i as int] == items@[i as int].model());
        match &items[i] {
            Json::Number(Number::Unsigned(n)) => {
                if *n > usize::MAX as u64 {
                    assert(!is_ordinal(all[i as int]));
                    return None;
                }
                out.push(*n as usize);
            },
            _ => {
                assert(!is_ordinal(all[i as int]));
                return None;
            },
        }
        i += 1;
    }
    assert(Seq::new(all.len(), |i: int| all[i]->Number_0->Unsigned_0 as usize) =~= out@);
    Some(out)
}

/// Why a target is not understood.
#[derive(PartialEq, Eq, Structural, Clone, Copy, Debug)]
pub enum SelectorError {
    /// The path is no list of names.
    Path,
    /// The ordinals are no list of numbers.
    Ordinals,
}

/// The target that a service, a JSON list of names and a JSON list of ordinals stand for.
pub open spec fn selected_target(service: Seq<char>, path: Seq<char>, ordinals: Seq<char>) -> Result<RefModel, SelectorError> {
    let names = match json_read(path) {
        Some(v) => listed_texts(v),
        None => None,
    };
    let ords = match json_read(ordinals) {
        Some(v) => listed_ordinals(v),
        None => None,
    };
    match (names, ords) {
        (None, _) => Err(SelectorError::Path),
        (_, None) => Err(SelectorError::Ordinals),
        (Some(path), Some(ords)) => Ok(RefModel { service, path, ords }),
    }
}

/// Reads a target from a service, a JSON list of names and a JSON list of ordinals.
pub fn parse_link_target(service: &str, path: &str, ordinals: &str) -> (r: Result<LinkTargetRef, SelectorError>)
    ensures
        match selected_target(service@, path@, ordinals@) {
            Ok(target) => r is Ok && r->Ok_0@ == target,
            Err(e) => r is Err && r->Err_0 == e,
        },
{
    let names = match read_json(path) {
        Some(v) => read_texts(&v),
        None => None,
    };
    let path = match names {
        Some(path) => path,
        None => {
            return Err(SelectorError::Path);
        },
    };
    let ords = match read_json(ordinals) {
        Some(v) => read_ordinals(&v),
        None => None,
    };
    match ords {
        Some(ords) => Ok(LinkTargetRef { service: service.to_owned(), path, ords }),
        None => Err(SelectorError::Ordinals),
    }
}

} // verus!
