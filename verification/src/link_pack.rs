//! Saving a part of the project as a package.
use vstd::prelude::*;
use crate::table::Key;

use crate::link_edit::{new_entry, with_target};
use crate::link_apply::copy_path;
use crate::link_remove::{is_local_package, local_package, paths_of, KeyedPath};
use crate::links::{
    covers, entries_of, find_link, find_owner, hold_target, is_link, is_owner, keys_of, lemma_entries_of_push,
    lemma_entries_of_update, no_link, no_lock, refs, refs_without, retain_refs, selector_starts_with, targets_hold, EntryModel,
    LinkEntry, LinkError, LinkLock, LinkLockEntry, LinkManifest, LinkSource, LinkTargetRef, LockModel, SourceModel, TargetKey,
    TargetLock, TargetLockModel, TargetModel,
};
use crate::text::{
    clone_texts, decimal, joined, law_decimal_is_injective, ones, replace_char, same, same_numbers, to_decimal, with_char,
};

verus! {

broadcast use vstd::seq_lib::group_seq_properties;

/// How a target stands to one that a link already fills.
#[derive(PartialEq, Eq, Structural, Clone, Copy, Debug)]
pub enum Overlap {
    Apart,
    Inside,
    Contains,
}

/// A target lies strictly inside an existing one, or strictly contains it, or neither.
pub open spec fn overlap(key: TargetModel, existing: TargetModel) -> Overlap {
    if existing.service != key.service || existing == key {
        Overlap::Apart
    } else if key.segments.len() > existing.segments.len() && covers(existing, key) {
        Overlap::Inside
    } else if existing.segments.len() > key.segments.len() && covers(key, existing) {
        Overlap::Contains
    } else {
        Overlap::Apart
    }
}

/// No target of a link overlaps another target without being it.
pub open spec fn entry_apart(entry: EntryModel, key: TargetModel, n: int) -> bool {
    forall|t: int| 0 <= t < n ==> overlap(key, (#[trigger] entry.targets[t]).key()) == Overlap::Apart
}

pub open spec fn links_apart(links: Seq<EntryModel>, key: TargetModel, n: int) -> bool {
    forall|l: int| 0 <= l < n ==> entry_apart(#[trigger] links[l], key, links[l].targets.len() as int)
}

/// `t` is the first target, of the first link `l`, that a target overlaps.
pub open spec fn first_overlap(links: Seq<EntryModel>, key: TargetModel, l: int, t: int) -> bool {
    &&& 0 <= l < links.len()
    &&& 0 <= t < links[l].targets.len()
    &&& overlap(key, links[l].targets[t].key()) != Overlap::Apart
    &&& entry_apart(links[l], key, t)
    &&& links_apart(links, key, l)
}

fn overlap_of(key: &TargetKey, existing: &TargetKey) -> (r: Overlap)
    ensures
        r == overlap(key@, existing@),
{
    if !same(&existing.service, &key.service) || existing.same_key(key) {
        Overlap::Apart
    } else if key.segments.len() > existing.segments.len() && selector_starts_with(
        &key.segments,
        &key.ordinals,
        &existing.segments,
        &existing.ordinals,
    ) {
        Overlap::Inside
    } else if existing.segments.len() > key.segments.len() && selector_starts_with(
        &existing.segments,
        &existing.ordinals,
        &key.segments,
        &key.ordinals,
    ) {
        Overlap::Contains
    } else {
        Overlap::Apart
    }
}

/// Checks that a target neither lies inside a target of a link nor contains one.
pub fn check_pack_target(links: &Vec<LinkEntry>, key: &TargetKey) -> (r: Result<(), LinkError>)
    ensures
        match r {
            Ok(()) => links_apart(entries_of(links@), key@, links@.len() as int),
            Err(LinkError::InsideLink { link }) => exists|t: int|
                #![trigger entries_of(links@)[link as int].targets[t]]
                first_overlap(entries_of(links@), key@, link as int, t) && overlap(
                    key@,
                    entries_of(links@)[link as int].targets[t].key(),
                ) == Overlap::Inside,
            Err(LinkError::ContainsLink { link }) => exists|t: int|
                #![trigger entries_of(links@)[link as int].targets[t]]
                first_overlap(entries_of(links@), key@, link as int, t) && overlap(
                    key@,
                    entries_of(links@)[link as int].targets[t].key(),
                ) == Overlap::Contains,
            Err(_) => false,
        },
{
    let ghost all = entries_of(links@);
    let mut l: usize = 0;
    while l < links.len()
        invariant
            l <= links.len(),
            all == entries_of(links@),
            links_apart(all, key@, l as int),
        decreases links.len() - l,
    {
        let targets = &links[l].targets;
        let mut t: usize = 0;
        while t < targets.len()
            invariant
                t <= targets.len(),
                l < links.len(),
                all == entries_of(links@),
                *targets == links@[l as int].targets,
                links_apart(all, key@, l as int),
                entry_apart(all[l as int], key@, t as int),
            decreases targets.len() - t,
        {
            let existing = targets[t].key();
            assert(all[l as int].targets[t as int] == targets@[t as int]@);
            match overlap_of(key, &existing) {
                Overlap::Apart => {},
                Overlap::Inside => {
                    assert(first_overlap(all, key@, l as int, t as int));
                    return Err(LinkError::InsideLink { link: l });
                },
                Overlap::Contains => {
                    assert(first_overlap(all, key@, l as int, t as int));
                    return Err(LinkError::ContainsLink { link: l });
                },
            }
            t += 1;
        }
        l += 1;
    }
    Ok(())
}

/// An id can be used for a package of a target: no link has it, or the link that has it fills the
/// target.
pub open spec fn usable_id(links: Seq<EntryModel>, id: Seq<char>, key: TargetModel) -> bool {
    forall|i: int| #[trigger] is_link(links, id, i) ==> targets_hold(links[i].targets, key)
}

/// The `n`th id to try: the base, then the base with a number from two on.
pub open spec fn candidate_id(base: Seq<char>, n: nat) -> Seq<char> {
    if n <= 1 {
        base
    } else {
        base + "-"@ + decimal(n)
    }
}

proof fn lemma_candidates_differ(base: Seq<char>, a: nat, b: nat)
    requires
        1 <= a,
        1 <= b,
        candidate_id(base, a) == candidate_id(base, b),
    ensures
        a == b,
{
    reveal_strlit("-");
    if a > 1 && b > 1 {
        let k = base.len() + 1;
        assert(candidate_id(base, a).skip(k as int) =~= decimal(a));
        assert(candidate_id(base, b).skip(k as int) =~= decimal(b));
        law_decimal_is_injective(a, b);
    } else if a > 1 {
        assert(candidate_id(base, a).len() > base.len());
    } else if b > 1 {
        assert(candidate_id(base, b).len() > base.len());
    }
}

/// The link at `i` has one of the first `n` ids to try.
spec fn has_candidate_id(links: Seq<EntryModel>, base: Seq<char>, n: nat, i: int) -> bool {
    0 <= i < links.len() && (exists|m: nat| 1 <= m <= n && links[i].id == #[trigger] candidate_id(base, m))
}

/// Where the first `n` ids are taken, there are at least `n` links.
proof fn lemma_taken_ids(links: Seq<EntryModel>, base: Seq<char>, key: TargetModel, n: nat) -> (taken: Set<int>)
    requires
        forall|m: nat| 1 <= m <= n ==> !#[trigger] usable_id(links, candidate_id(base, m), key),
    ensures
        taken.finite(),
        taken.len() == n,
        forall|i: int| #[trigger] taken.contains(i) ==> has_candidate_id(links, base, n, i),
    decreases n,
{
    if n == 0 {
        Set::empty()
    } else {
        let before = lemma_taken_ids(links, base, key, (n - 1) as nat);
        let id = candidate_id(base, n);
        assert(!usable_id(links, id, key));
        let i = choose|i: int| #[trigger] is_link(links, id, i) && !targets_hold(links[i].targets, key);
        assert(is_link(links, id, i));
        assert(!before.contains(i)) by {
            if before.contains(i) {
                assert(has_candidate_id(links, base, (n - 1) as nat, i));
                let m = choose|m: nat| 1 <= m <= n - 1 && links[i].id == #[trigger] candidate_id(base, m);
                lemma_candidates_differ(base, m, n);
            }
        }
        let taken = before.insert(i);
        assert forall|j: int| #[trigger] taken.contains(j) implies has_candidate_id(links, base, n, j) by {
            if j == i {
                assert(links[j].id == candidate_id(base, n));
            } else {
                assert(has_candidate_id(links, base, (n - 1) as nat, j));
                let m = choose|m: nat| 1 <= m <= n - 1 && links[j].id == #[trigger] candidate_id(base, m);
                assert(1 <= m <= n && links[j].id == candidate_id(base, m));
            }
        }
        taken
    }
}

proof fn lemma_taken_bound(links: Seq<EntryModel>, base: Seq<char>, key: TargetModel, n: nat)
    requires
        forall|m: nat| 1 <= m <= n ==> !#[trigger] usable_id(links, candidate_id(base, m), key),
    ensures
        n <= links.len(),
{
    let taken = lemma_taken_ids(links, base, key, n);
    let all = vstd::set_lib::set_int_range(0, links.len() as int);
    vstd::set_lib::lemma_int_range(0, links.len() as int);
    assert(taken.subset_of(all));
    vstd::set_lib::lemma_len_subset(taken, all);
}

/// `id` is the first of the ids to try that can be used.
pub open spec fn first_usable_id(links: Seq<EntryModel>, base: Seq<char>, key: TargetModel, id: Seq<char>) -> bool {
    exists|n: nat|
        1 <= n && id == #[trigger] candidate_id(base, n) && usable_id(links, id, key) && (forall|m: nat|
            1 <= m < n ==> !usable_id(links, #[trigger] candidate_id(base, m), key))
}

/// Picks an id for the package of a target, from a base.
pub fn free_link_id(links: &Vec<LinkEntry>, base: &str, key: &TargetKey) -> (r: String)
    ensures
        first_usable_id(entries_of(links@), base@, key@, r@),
{
    let ghost all = entries_of(links@);
    let mut candidate = base.to_owned();
    let mut n: u128 = 1;
    loop
        invariant
            1 <= n,
            n <= links.len() + 1,
            all.len() == links@.len(),
            all == entries_of(links@),
            candidate@ == candidate_id(base@, n as nat),
            forall|m: nat| 1 <= m < n ==> !usable_id(all, #[trigger] candidate_id(base@, m), key@),
        decreases all.len() + 1 - n,
    {
        let usable = match find_link(links, &candidate) {
            None => {
                assert(usable_id(all, candidate@, key@));
                true
            },
            Some(i) => {
                let holds = hold_target(&links[i].targets, key);
                assert(is_link(all, candidate@, i as int));
                assert(all[i as int].targets == refs(links@[i as int].targets@));
                assert forall|j: int| #[trigger] is_link(all, candidate@, j) implies j == i by {
                    if j < i {
                        assert(all[j].id != candidate@);
                    } else if j > i {
                        assert(all[i as int].id != candidate@);
                    }
                }
                assert(holds == usable_id(all, candidate@, key@));
                holds
            },
        };
        if usable {
            assert(candidate@ == candidate_id(base@, n as nat));
            return candidate;
        }
        proof {
            assert forall|m: nat| 1 <= m <= n implies !#[trigger] usable_id(all, candidate_id(base@, m), key@) by {
                if m < n {
                    assert(!usable_id(all, candidate_id(base@, m), key@));
                }
            }
            lemma_taken_bound(all, base@, key@, n as nat);
        }
        n = n + 1;
        let numbered = to_decimal(n);
        let dashed = joined(base, "-");
        candidate = joined(&dashed, &numbered);
    }
}

/// Where a new package is kept: in a folder of the project, or in the global library.
pub open spec fn new_package_source(link_folder: Option<Seq<char>>, id: Seq<char>) -> Seq<char> {
    match link_folder {
        Some(folder) => with_char(
            if folder.len() == 0 || folder.last() == '/' {
                folder + (id + ".renium"@)
            } else {
                folder + "/"@ + (id + ".renium"@)
            },
            '\\',
            '/',
        ),
        None => "~global/"@ + (id + ".renium"@),
    }
}

fn new_package_path(link_folder: &Option<String>, id: &str) -> (r: String)
    ensures
        r@ == new_package_source(crate::links::opt_text(*link_folder), id@),
{
    let file = joined(id, ".renium");
    match link_folder {
        Some(folder) => {
            let chars = crate::text::chars_of(folder);
            let path = if chars.len() == 0 || chars[chars.len() - 1] == '/' {
                joined(folder, &file)
            } else {
                let dir = joined(folder, "/");
                joined(&dir, &file)
            };
            replace_char(&path, '\\', '/')
        },
        None => joined("~global/", &file),
    }
}

/// What is to be saved as a package.
pub struct PackRequest {
    pub target: LinkTargetRef,
    /// The id that was asked for.
    pub id: Option<String>,
    /// What an id is made from where none was asked for.
    pub base: String,
    /// The id that was asked for, or else the free one that is made, can be the name of a file.
    pub id_valid: bool,
    pub link_folder: Option<String>,
    pub writable: bool,
}

/// What the saved package holds.
pub struct PackedContent {
    /// The settings id of the instance at the package's root.
    pub root_id: String,
    /// The hash of the package file.
    pub hash: String,
    /// The fingerprint of its instances.
    pub fingerprint: String,
}

/// Where a package was saved.
pub struct PackedLink {
    pub id: String,
    pub source: String,
}

/// The id and the file of the package that a request asks for.
pub open spec fn packed_as(links: Seq<EntryModel>, request: PackRequest, id: Seq<char>, source: Seq<char>) -> bool {
    let key = request.target@.key();
    &&& match request.id {
        Some(asked) => id == asked@ && usable_id(links, id, key),
        None => first_usable_id(links, request.base@, key, id),
    }
    &&& forall|o: int| #[trigger] is_owner(links, key, o) ==> links[o].id == id
    &&& (no_link(links, id) && source == new_package_source(crate::links::opt_text(request.link_folder), id)) || (
    exists|i: int| #[trigger]
        is_link(links, id, i) && local_package(links[i].source) && source == with_char(
            links[i].source->Local_path,
            '\\',
            '/',
        ))
}

/// What is kept of a link after its package was saved from a target. What was kept of the target of the
/// same names with ordinals of one goes, where the link has no such target.
pub open spec fn packed_lock(
    entry: LockModel,
    key: TargetModel,
    root_id: Seq<char>,
    hash: Seq<char>,
    fingerprint: Seq<char>,
    default_target_exists: bool,
) -> LockModel {
    let plain = default_key(key);
    let replaced = key != plain && !default_target_exists;
    let packages = if replaced {
        entry.packages.remove(plain)
    } else {
        entry.packages
    };
    let package_targets = if replaced {
        entry.package_targets.remove(plain)
    } else {
        entry.package_targets
    };
    let files = if entry.targets.dom().contains(key) {
        entry.targets[key].files
    } else {
        Map::empty()
    };
    LockModel {
        resolved_ref: entry.resolved_ref,
        packages: packages.insert(key, hash),
        package_targets: package_targets.insert(key, fingerprint),
        targets: entry.targets.insert(key, TargetLockModel { settings_id: Some(root_id), files }),
    }
}

/// The key of the target with the same names and ordinals of one.
pub open spec fn default_key(key: TargetModel) -> TargetModel {
    TargetModel {
        service: key.service,
        segments: key.segments,
        ordinals: Seq::new(key.segments.len(), |i: int| 1usize),
    }
}

/// What is kept of a link, or nothing.
pub open spec fn lock_of(lock: Map<Seq<char>, LockModel>, id: Seq<char>) -> LockModel {
    if lock.dom().contains(id) {
        lock[id]
    } else {
        no_lock()
    }
}

/// The link with an id, where there is one, has a target of a key.
pub open spec fn link_holds(links: Seq<EntryModel>, id: Seq<char>, key: TargetModel) -> bool {
    exists|i: int| #[trigger] is_link(links, id, i) && targets_hold(links[i].targets, key)
}

fn record_package(lock: &mut LinkLock, id: &str, key: &TargetKey, content: &PackedContent, default_exists: bool)
    ensures
        final(lock)@ == old(lock)@.insert(
            id@,
            packed_lock(
                lock_of(old(lock)@, id@),
                key@,
                content.root_id@,
                content.hash@,
                content.fingerprint@,
                default_exists,
            ),
        ),
{
    let ghost before = lock@;
    let name = id.to_owned();
    let mut entry = match lock.entries.take(&name) {
        Some(entry) => entry,
        None => LinkLockEntry::new(),
    };
    let ghost kept = entry@;
    assert(kept == lock_of(before, id@));
    let mut target = match entry.targets.take(key) {
        Some(target) => target,
        None => TargetLock::new(),
    };
    target.settings_id = Some(content.root_id.clone());
    entry.targets.put(key.copy_key(), target);
    assert(entry@.targets =~= packed_lock(
        kept,
        key@,
        content.root_id@,
        content.hash@,
        content.fingerprint@,
        default_exists,
    ).targets);
    let plain = TargetKey {
        service: key.service.clone(),
        segments: clone_texts(&key.segments),
        ordinals: ones(key.segments.len()),
    };
    assert(plain@ == default_key(key@));
    if !same_numbers(&key.ordinals, &plain.ordinals) && !default_exists {
        entry.packages.take(&plain);
        entry.package_targets.take(&plain);
    }
    assert((key@.ordinals == plain@.ordinals) == (key@ == default_key(key@)));
    entry.packages.put(key.copy_key(), content.hash.clone());
    entry.package_targets.put(key.copy_key(), content.fingerprint.clone());
    let ghost packed = entry@;
    lock.entries.put(name, entry);
    assert(lock@ =~= before.insert(id@, packed));
}

/// Decides the id and the file of the package that a request asks for.
fn place_package(links: &Vec<LinkEntry>, request: &PackRequest, key: &TargetKey) -> (r: Result<
    (PackedLink, Option<usize>),
    LinkError,
>)
    requires
        key@ == request.target@.key(),
    ensures
        match r {
            Ok((placed, at)) => packed_as(entries_of(links@), *request, placed.id@, placed.source@) && match at {
                Some(i) => is_link(entries_of(links@), placed.id@, i as int),
                None => no_link(entries_of(links@), placed.id@),
            },
            Err(e) => pack_refused(entries_of(links@), *request, e),
        },
{
    let ghost all = entries_of(links@);
    let id = match &request.id {
        Some(id) => id.clone(),
        None => free_link_id(links, &request.base, key),
    };
    assert(wanted_id(all, *request, id@));
    let owner = find_owner(links, key);
    match owner {
        Some(o) => {
            if !same(&links[o].id, &id) {
                assert(all[o as int].id != id@);
                return Err(LinkError::AlreadyOwned { link: o });
            }
        },
        None => {},
    }
    assert forall|o: int| #[trigger] is_owner(all, key@, o) implies all[o].id == id@ by {
        let p = owner->0;
        if owner is Some {
            if o < p {
                assert(!targets_hold(all[o].targets, key@));
            } else if o > p {
                assert(!targets_hold(all[p as int].targets, key@));
            }
        }
    }
    match find_link(links, &id) {
        Some(i) => {
            assert(is_link(all, id@, i as int));
            assert forall|j: int| #[trigger] is_link(all, id@, j) implies j == i by {
                if j < i {
                    assert(all[j].id != id@);
                } else if j > i {
                    assert(all[i as int].id != id@);
                }
            }
            let explicit = request.id.is_some();
            if explicit && !hold_target(&links[i].targets, key) {
                return Err(LinkError::UnrelatedTarget { link: i });
            }
            assert(usable_id(all, id@, key@));
            match &links[i].source {
                LinkSource::Local { path } => {
                    if is_local_package(&links[i].source) {
                        let source = replace_char(path, '\\', '/');
                        return Ok((PackedLink { id, source }, Some(i)));
                    }
                },
                _ => {},
            }
            Err(LinkError::NotLocalPackage { link: i })
        },
        None => {
            assert(usable_id(all, id@, key@));
            let source = new_package_path(&request.link_folder, &id);
            Ok((PackedLink { id, source }, None))
        },
    }
}

/// Why no package is made for a request whose target stands apart from all others: the target belongs
/// to a link with another id; or the id that was asked for belongs to a link that does not fill the
/// target; or the source of the link is not a local package.
pub open spec fn pack_refused(links: Seq<EntryModel>, request: PackRequest, e: LinkError) -> bool {
    let key = request.target@.key();
    exists|id: Seq<char>| #[trigger]
        wanted_id(links, request, id) && match e {
            LinkError::AlreadyOwned { link } => is_owner(links, key, link as int) && links[link as int].id != id,
            LinkError::UnrelatedTarget { link } => request.id is Some && is_link(links, id, link as int)
                && !targets_hold(links[link as int].targets, key) && (forall|o: int| #[trigger]
                is_owner(links, key, o) ==> links[o].id == id),
            LinkError::NotLocalPackage { link } => is_link(links, id, link as int) && !local_package(
                links[link as int].source,
            ) && (request.id is Some ==> targets_hold(links[link as int].targets, key)) && (forall|o: int| #[trigger]
                is_owner(links, key, o) ==> links[o].id == id),
            _ => false,
        }
}

/// The id that a request wants.
pub open spec fn wanted_id(links: Seq<EntryModel>, request: PackRequest, id: Seq<char>) -> bool {
    match request.id {
        Some(asked) => id == asked@,
        None => first_usable_id(links, request.base@, request.target@.key(), id),
    }
}

/// Records that a target was saved as a package: the link with the package's id fills the target, the
/// target is not broken, and the lock keeps what was saved. On an error nothing changes.
pub fn link_pack(
    manifest: &mut LinkManifest,
    lock: &mut LinkLock,
    request: &PackRequest,
    content: &PackedContent,
) -> (r: Result<PackedLink, LinkError>)
    ensures
        match r {
            Ok(placed) => {
                let key = request.target@.key();
                let links = old(manifest)@.links;
                &&& request.id_valid
                &&& links_apart(links, key, links.len() as int)
                &&& packed_as(links, *request, placed.id@, placed.source@)
                &&& final(manifest)@.version == old(manifest)@.version
                &&& final(manifest)@.cache_dir == old(manifest)@.cache_dir
                &&& final(manifest)@.broken == refs_without(old(manifest)@.broken, seq![key])
                &&& (no_link(links, placed.id@) && final(manifest)@.links == links.push(
                    new_entry(
                        placed.id@,
                        !request.writable,
                        SourceModel::Local { path: placed.source@ },
                        request.target@,
                    ),
                )) || (exists|i: int| #[trigger]
                    is_link(links, placed.id@, i) && final(manifest)@.links == links.update(
                        i,
                        with_target(links[i], request.target@),
                    ))
                &&& final(lock)@ == old(lock)@.insert(
                    placed.id@,
                    packed_lock(
                        lock_of(old(lock)@, placed.id@),
                        key,
                        content.root_id@,
                        content.hash@,
                        content.fingerprint@,
                        link_holds(links, placed.id@, default_key(key)),
                    ),
                )
            },
            Err(e) => {
                let key = request.target@.key();
                let links = old(manifest)@.links;
                &&& final(manifest)@ == old(manifest)@
                &&& final(lock)@ == old(lock)@
                &&& request.id is Some && !request.id_valid ==> e == LinkError::InvalidId
                &&& match e {
                    LinkError::InvalidId => !request.id_valid && (request.id is Some || links_apart(
                        links,
                        key,
                        links.len() as int,
                    )),
                    LinkError::InsideLink { link } => exists|t: int|
                        #![trigger links[link as int].targets[t]]
                        first_overlap(links, key, link as int, t) && overlap(key, links[link as int].targets[t].key())
                            == Overlap::Inside,
                    LinkError::ContainsLink { link } => exists|t: int|
                        #![trigger links[link as int].targets[t]]
                        first_overlap(links, key, link as int, t) && overlap(key, links[link as int].targets[t].key())
                            == Overlap::Contains,
                    _ => request.id_valid && links_apart(links, key, links.len() as int) && pack_refused(
                        links,
                        *request,
                        e,
                    ),
                }
            },
        },
{
    let key = request.target.key();
    let ghost links = manifest@.links;
    if request.id.is_some() && !request.id_valid {
        return Err(LinkError::InvalidId);
    }
    match check_pack_target(&manifest.links, &key) {
        Ok(()) => {},
        Err(e) => {
            return Err(e);
        },
    }
    if !request.id_valid {
        return Err(LinkError::InvalidId);
    }
    let (placed, at) = match place_package(&manifest.links, request, &key) {
        Ok(placed) => placed,
        Err(e) => {
            return Err(e);
        },
    };
    let plain = TargetKey {
        service: key.service.clone(),
        segments: clone_texts(&key.segments),
        ordinals: ones(key.segments.len()),
    };
    assert(plain@ == default_key(key@));
    let default_exists = match at {
        Some(i) => {
            let holds = hold_target(&manifest.links[i].targets, &plain);
            assert(links[i as int].targets == refs(manifest.links@[i as int].targets@));
            holds
        },
        None => false,
    };
    assert(default_exists == link_holds(links, placed.id@, default_key(key@))) by {
        if at is Some {
            let i = at->0 as int;
            assert(is_link(links, placed.id@, i));
            assert forall|j: int| #[trigger] is_link(links, placed.id@, j) implies j == i by {
                if j < i {
                    assert(links[j].id != placed.id@);
                } else if j > i {
                    assert(links[i].id != placed.id@);
                }
            }
        }
    }
    record_package(lock, &placed.id, &key, content, default_exists);
    match at {
        Some(i) => {
            let mut entry = manifest.links[i].copy();
            assert(entry@ == links[i as int]);
            if !hold_target(&entry.targets, &key) {
                let t = request.target.copy();
                assert(refs(entry.targets@.push(t)) =~= refs(entry.targets@).push(t@));
                entry.targets.push(t);
            }
            proof {
                lemma_entries_of_update(manifest.links@, i as int, entry);
            }
            manifest.links.set(i, entry);
            assert(is_link(links, placed.id@, i as int));
        },
        None => {
            let mut targets: Vec<LinkTargetRef> = Vec::new();
            targets.push(request.target.copy());
            assert(refs(targets@) =~= seq![request.target@]);
            let new = LinkEntry {
                id: placed.id.clone(),
                read_only: !request.writable,
                source: LinkSource::Local { path: placed.source.clone() },
                targets,
            };
            proof {
                lemma_entries_of_push(manifest.links@, new);
            }
            manifest.links.push(new);
        },
    }
    let mut keys: Vec<TargetKey> = Vec::new();
    keys.push(key.copy_key());
    assert(keys_of(keys@) =~= seq![key@]);
    manifest.broken = retain_refs(&manifest.broken, &keys);
    Ok(placed)
}

/// What saving a package writes besides the package itself, the lock and the manifest, which it always
/// writes.
pub struct PackEnd {
    /// The store of settings, with the sources in it.
    pub store: bool,
    pub gitignore: bool,
    pub removals: Vec<KeyedPath>,
}

/// Decides what saving a package writes at its end, where the files of its sources go: the store is written
/// only where sources were taken into it, and then the file it was read from goes if it is another.
pub fn pack_writes(
    source_removals: Vec<KeyedPath>,
    inlined: usize,
    settings_file: &KeyedPath,
    settings_output: &KeyedPath,
    gitignore_exists: bool,
) -> (r: PackEnd)
    ensures
        r.store == (inlined > 0),
        r.gitignore == !gitignore_exists,
        paths_of(r.removals@) == if inlined > 0 && settings_file@.key != settings_output@.key {
            paths_of(source_removals@).push(settings_file@)
        } else {
            paths_of(source_removals@)
        },
{
    let mut removals = source_removals;
    if inlined > 0 && !same(&settings_file.key, &settings_output.key) {
        let file = copy_path(settings_file);
        assert(paths_of(removals@.push(file)) =~= paths_of(removals@).push(file@));
        removals.push(file);
    }
    PackEnd { store: inlined > 0, gitignore: !gitignore_exists, removals }
}

} // verus!
