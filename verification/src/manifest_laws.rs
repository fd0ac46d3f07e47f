//! What changing a manifest of links keeps.
use vstd::prelude::*;

use crate::link_edit::{described_source, moved_ids, moved_links, moved_lock, with_target};
use crate::link_pack::{Overlap, default_key, new_package_source, overlap, packed_lock};
use crate::link_remove::{
    LinkDeletePackageAction, ResolvedFiles, active_targets, cut_entry, cut_links, delete_refused,
    filled_by_packages, manifest_with_broken, manifest_without, retained_lock,
};
use crate::link_status::{
    ApplyStep, LinkState, RenameError, RenamedModel, ResolvedTarget, StatusFacts, active_count, broken_count,
    drift_count, first_replaced, link_at, renamed_one, status_of, step_for,
};
use crate::links::{
    EntryModel, LinkError, LockModel, ManifestModel, RefModel, SourceModel, TargetModel, is_link, keys_in,
    no_owner, opt_text, refs_without, targets_hold,
};
use crate::text::ascii_lower;

verus! {

/// A list without some of its targets keeps the others, in their order, and gets none.
pub proof fn law_other_targets_stay(targets: Seq<RefModel>, keys: Seq<TargetModel>)
    ensures
        forall|t: RefModel| #[trigger]
            refs_without(targets, keys).contains(t) <==> targets.contains(t) && !keys.contains(t.key()),
        (forall|i: int| 0 <= i < targets.len() ==> !keys.contains((#[trigger] targets[i]).key())) ==> refs_without(
            targets,
            keys,
        ) == targets,
{
    broadcast use vstd::seq_lib::group_seq_properties;

    let kept = |t: RefModel| !keys.contains(t.key());
    let left = targets.filter(kept);
    assert forall|t: RefModel| #[trigger] left.contains(t) implies targets.contains(t) && !keys.contains(t.key()) by {
        let i = choose|i: int| 0 <= i < left.len() && left[i] == t;
        targets.lemma_filter_pred(kept, i);
        targets.lemma_filter_contains_rev(kept, t);
    }
    assert forall|t: RefModel| targets.contains(t) && !keys.contains(t.key()) implies #[trigger] left.contains(t) by {
        let i = choose|i: int| 0 <= i < targets.len() && targets[i] == t;
        targets.lemma_filter_contains(kept, i);
    }
    if forall|i: int| 0 <= i < targets.len() ==> !keys.contains((#[trigger] targets[i]).key()) {
        lemma_filter_all(targets, kept);
    }
}

proof fn lemma_filter_all(targets: Seq<RefModel>, kept: spec_fn(RefModel) -> bool)
    requires
        forall|i: int| 0 <= i < targets.len() ==> kept(#[trigger] targets[i]),
    ensures
        targets.filter(kept) == targets,
    decreases targets.len(),
{
    reveal(Seq::filter);
    if targets.len() > 0 {
        let rest = targets.drop_last();
        assert forall|i: int| 0 <= i < rest.len() implies kept(#[trigger] rest[i]) by {
            assert(rest[i] == targets[i]);
        }
        lemma_filter_all(rest, kept);
        assert(kept(targets[targets.len() - 1]));
        assert(rest.push(targets.last()) =~= targets);
    }
}

proof fn lemma_cut(links: Seq<EntryModel>, keys: Seq<TargetModel>, n: nat, e: EntryModel)
    requires
        n <= links.len(),
    ensures
        cut_links(links, keys, n).contains(e) <==> exists|i: int|
            0 <= i < n && cut_entry(#[trigger] links[i], keys) == e && e.targets.len() > 0,
    decreases n,
{
    if n > 0 {
        let k = n - 1;
        lemma_cut(links, keys, k as nat, e);
        let before = cut_links(links, keys, k as nat);
        let after = cut_links(links, keys, n);
        let one = cut_entry(links[k], keys);
        if after.contains(e) {
            let i = choose|i: int| 0 <= i < after.len() && after[i] == e;
            if i < before.len() {
                assert(before[i] == e);
                assert(before.contains(e));
                let j = choose|j: int| 0 <= j < k && cut_entry(#[trigger] links[j], keys) == e && e.targets.len() > 0;
                assert(0 <= j < n && cut_entry(links[j], keys) == e);
            } else {
                assert(cut_entry(links[k], keys) == e);
            }
        }
        if exists|i: int| 0 <= i < n && cut_entry(#[trigger] links[i], keys) == e && e.targets.len() > 0 {
            let i = choose|i: int| 0 <= i < n && cut_entry(#[trigger] links[i], keys) == e && e.targets.len() > 0;
            if i < k {
                assert(before.contains(e));
                let j = choose|j: int| 0 <= j < before.len() && before[j] == e;
                assert(after[j] == e);
            } else {
                assert(after[before.len() as int] == e);
            }
        }
    }
}

/// A link with a target that was not removed stays, with that target, its source and its id. A
/// link without any target left goes.
pub proof fn law_links_keep_what_was_not_removed(m: ManifestModel, keys: Seq<TargetModel>, i: int, t: RefModel)
    requires
        0 <= i < m.links.len(),
        m.links[i].targets.contains(t),
        !keys.contains(t.key()),
    ensures
        exists|j: int|
            0 <= j < manifest_without(m, keys).links.len() && (#[trigger] manifest_without(m, keys).links[j]).id
                == m.links[i].id && manifest_without(m, keys).links[j].source == m.links[i].source && manifest_without(
                m,
                keys,
            ).links[j].read_only == m.links[i].read_only && manifest_without(m, keys).links[j].targets.contains(t),
        forall|j: int| 0 <= j < manifest_without(m, keys).links.len() ==> (#[trigger] manifest_without(
            m,
            keys,
        ).links[j]).targets.len() > 0,
        manifest_without(m, keys).version == m.version,
        manifest_without(m, keys).cache_dir == m.cache_dir,
{
    let after = manifest_without(m, keys).links;
    let one = cut_entry(m.links[i], keys);
    law_other_targets_stay(m.links[i].targets, keys);
    assert(one.targets.contains(t));
    lemma_cut(m.links, keys, m.links.len(), one);
    assert(after.contains(one));
    let j = choose|j: int| 0 <= j < after.len() && after[j] == one;
    assert(after[j].id == m.links[i].id);
    assert forall|k: int| 0 <= k < after.len() implies (#[trigger] after[k]).targets.len() > 0 by {
        assert(after.contains(after[k]));
        lemma_cut(m.links, keys, m.links.len(), after[k]);
    }
}

/// Marking targets as broken leaves the links, and marks nothing else.
pub proof fn law_breaking_leaves_the_links(m: ManifestModel, targets: Seq<RefModel>, key: TargetModel)
    ensures
        manifest_with_broken(m, targets).links == m.links,
        targets_hold(manifest_with_broken(m, targets).broken, key) <==> targets_hold(m.broken, key) || targets_hold(
            targets,
            key,
        ),
{
    let after = manifest_with_broken(m, targets).broken;
    let fresh = refs_without(targets, keys_in(m.broken));
    law_other_targets_stay(targets, keys_in(m.broken));
    if targets_hold(after, key) {
        let i = choose|i: int| 0 <= i < after.len() && (#[trigger] after[i]).key() == key;
        if i < m.broken.len() {
            assert(m.broken[i].key() == key);
        } else {
            assert(fresh[i - m.broken.len()] == after[i]);
            assert(fresh.contains(after[i]));
            assert(targets.contains(after[i]));
            let k = choose|k: int| 0 <= k < targets.len() && targets[k] == after[i];
            assert(targets[k].key() == key);
        }
    }
    if targets_hold(m.broken, key) {
        let i = choose|i: int| 0 <= i < m.broken.len() && (#[trigger] m.broken[i]).key() == key;
        assert(after[i].key() == key);
    } else if targets_hold(targets, key) {
        let i = choose|i: int| 0 <= i < targets.len() && (#[trigger] targets[i]).key() == key;
        if keys_in(m.broken).contains(key) {
            let k = choose|k: int| 0 <= k < keys_in(m.broken).len() && keys_in(m.broken)[k] == key;
            assert(m.broken[k].key() == key);
        }
        assert(targets.contains(targets[i]));
        assert(fresh.contains(targets[i]));
        let k = choose|k: int| 0 <= k < fresh.len() && fresh[k] == targets[i];
        assert(after[m.broken.len() + k].key() == key);
    }
}

/// The lock keeps exactly the links that the manifest still has.
pub proof fn law_lock_follows_the_manifest(lock: Map<Seq<char>, LockModel>, links: Seq<EntryModel>, id: Seq<char>)
    ensures
        retained_lock(lock, links).dom().contains(id) <==> lock.dom().contains(id) && (exists|i: int|
            0 <= i < links.len() && (#[trigger] links[i]).id == id),
        retained_lock(lock, links).dom().contains(id) ==> retained_lock(lock, links)[id] == lock[id],
{
}

/// The targets that are put back into files are those that a package fills.
pub proof fn law_packed_targets_are_told(targets: Seq<RefModel>, resolved: Seq<ResolvedFiles>, n: nat, t: RefModel)
    requires
        n <= targets.len(),
    ensures
        filled_by_packages(targets, resolved, n).contains(t) <==> (exists|i: int|
            0 <= i < n && #[trigger] targets[i] == t) && (exists|r: int|
            0 <= r < resolved.len() && (#[trigger] resolved[r]).is_package && resolved[r].target@.key() == t.key()),
    decreases n,
{
    if n > 0 {
        let k = n - 1;
        law_packed_targets_are_told(targets, resolved, k as nat, t);
        let before = filled_by_packages(targets, resolved, k as nat);
        let after = filled_by_packages(targets, resolved, n);
        if after.contains(t) {
            let i = choose|i: int| 0 <= i < after.len() && after[i] == t;
            if i < before.len() {
                assert(before[i] == t);
                assert(before.contains(t));
                let j = choose|j: int| 0 <= j < k && #[trigger] targets[j] == t;
                assert(0 <= j < n && targets[j] == t);
            } else {
                assert(targets[k] == t);
            }
        }
        if before.contains(t) {
            let i = choose|i: int| 0 <= i < before.len() && before[i] == t;
            assert(after[i] == t);
        }
        if targets[k] == t && after.len() > before.len() {
            assert(after[before.len() as int] == t);
        }
        if (exists|i: int| 0 <= i < n && #[trigger] targets[i] == t) && targets[k] != t {
            let i = choose|i: int| 0 <= i < n && #[trigger] targets[i] == t;
            assert(0 <= i < k && targets[i] == t);
        }
    }
}

/// A package goes only where it is a local one, and, unless its uses go too or are kept as they
/// are, only where no target follows it any more.
#[verifier::rlimit(50)]
pub proof fn law_used_packages_are_not_deleted(m: ManifestModel, i: int, path: Seq<char>)
    requires
        0 <= i < m.links.len(),
    ensures
        m.links[i].source == (SourceModel::Local { path }) && ".renium"@.is_suffix_of(path) ==> {
            &&& delete_refused(m, i, LinkDeletePackageAction::DeleteUses) is None
            &&& delete_refused(m, i, LinkDeletePackageAction::UnlinkUses) is None
            &&& delete_refused(m, i, LinkDeletePackageAction::DeleteUnused) is None <==> (forall|t: RefModel| #[trigger]
                m.links[i].targets.contains(t) ==> targets_hold(m.broken, t.key()))
        },
        m.links[i].source == (SourceModel::Local { path }) && !".renium"@.is_suffix_of(path) || !(
        m.links[i].source is Local) ==> forall|a: LinkDeletePackageAction| #[trigger]
            delete_refused(m, i, a) == Some(LinkError::NotLocalPackage { link: i as usize }),
{
    let targets = m.links[i].targets;
    let keys = keys_in(m.broken);
    let active = active_targets(m, m.links[i]);
    law_other_targets_stay(targets, keys);
    assert forall|t: RefModel| keys.contains(t.key()) == #[trigger] targets_hold(m.broken, t.key()) by {
        if keys.contains(t.key()) {
            let k = choose|k: int| 0 <= k < keys.len() && keys[k] == t.key();
            assert(m.broken[k].key() == t.key());
        }
        if targets_hold(m.broken, t.key()) {
            let k = choose|k: int| 0 <= k < m.broken.len() && (#[trigger] m.broken[k]).key() == t.key();
            assert(keys[k] == t.key());
        }
    }
    if active.len() > 0 {
        assert(active.contains(active[0]));
        assert(targets.contains(active[0]) && !targets_hold(m.broken, active[0].key()));
    } else {
        assert forall|t: RefModel| #[trigger] targets.contains(t) implies targets_hold(m.broken, t.key()) by {
            if !keys.contains(t.key()) {
                assert(active.contains(t));
            }
            assert(targets_hold(m.broken, t.key()));
        }
    }
}

/// The kinds of sources, whatever the case of their names, and what each takes from the options.
pub proof fn law_sources_are_described(
    kind: Seq<char>,
    source: Seq<char>,
    source_ref: Option<Seq<char>>,
    subpath: Option<Seq<char>>,
)
    ensures
        described_source(kind, None, source_ref, subpath) == Err::<SourceModel, LinkError>(LinkError::MissingSource),
        ascii_lower(kind) == "local"@ ==> described_source(kind, Some(source), source_ref, subpath) == Ok::<
            SourceModel,
            LinkError,
        >(SourceModel::Local { path: source }),
        ascii_lower(kind) == "git"@ ==> described_source(kind, Some(source), source_ref, subpath) == Ok::<
            SourceModel,
            LinkError,
        >(SourceModel::Git { url: source, git_ref: source_ref, subpath }),
        ascii_lower(kind) == "wally"@ ==> described_source(kind, Some(source), source_ref, subpath) == Ok::<
            SourceModel,
            LinkError,
        >(SourceModel::Wally { package: source, version: source_ref }),
        ascii_lower(kind) != "local"@ && ascii_lower(kind) != "git"@ && ascii_lower(kind) != "wally"@
            ==> described_source(kind, Some(source), source_ref, subpath) == Err::<SourceModel, LinkError>(
            LinkError::UnknownSourceType,
        ),
{
    reveal_strlit("local");
    reveal_strlit("git");
    reveal_strlit("wally");
    assert("local"@[0] == 'l' && "git"@[0] == 'g' && "wally"@[0] == 'w');
    assert("local"@[0] != "git"@[0]);
    assert("local"@[0] != "wally"@[0]);
    assert("git"@[0] != "wally"@[0]);
}

/// A target is in a link once it was put there, the link keeps what it had, and a target that was
/// there is not put there twice.
pub proof fn law_added_target_joins_the_others(entry: EntryModel, target: RefModel)
    ensures
        with_target(entry, target).id == entry.id,
        with_target(entry, target).source == entry.source,
        with_target(entry, target).read_only == entry.read_only,
        entry.targets.is_prefix_of(with_target(entry, target).targets),
        with_target(entry, target).targets.len() <= entry.targets.len() + 1,
        targets_hold(entry.targets, target.key()) ==> with_target(entry, target) == entry,
        !targets_hold(entry.targets, target.key()) ==> with_target(entry, target).targets.last() == target,
{
}

/// A moved target stands where the old one stood, in every link that had it, and nothing else moves.
pub proof fn law_moved_target_takes_the_place(
    links: Seq<EntryModel>,
    from: TargetModel,
    to: RefModel,
    i: int,
    t: int,
)
    requires
        0 <= i < links.len(),
        0 <= t < links[i].targets.len(),
    ensures
        moved_links(links, from, to).len() == links.len(),
        moved_links(links, from, to)[i].id == links[i].id,
        moved_links(links, from, to)[i].source == links[i].source,
        moved_links(links, from, to)[i].read_only == links[i].read_only,
        moved_links(links, from, to)[i].targets.len() == links[i].targets.len(),
        links[i].targets[t].key() == from ==> moved_links(links, from, to)[i].targets[t] == to,
        links[i].targets[t].key() != from ==> moved_links(links, from, to)[i].targets[t] == links[i].targets[t],
        from != to.key() ==> no_owner(moved_links(links, from, to), from),
{
    let after = moved_links(links, from, to);
    if from != to.key() {
        assert forall|j: int| 0 <= j < after.len() implies !targets_hold((#[trigger] after[j]).targets, from) by {
            assert forall|k: int| 0 <= k < after[j].targets.len() implies (#[trigger] after[j].targets[k]).key()
                != from by {
                let was = links[j].targets[k];
                if was.key() == from {
                    assert(after[j].targets[k] == to);
                } else {
                    assert(after[j].targets[k] == was);
                }
            }
        }
    }
}

proof fn lemma_moved_ids_have(links: Seq<EntryModel>, key: TargetModel, n: nat, id: Seq<char>)
    requires
        n <= links.len(),
        moved_ids(links, key, n).contains(id),
    ensures
        exists|i: int| 0 <= i < n && (#[trigger] links[i]).id == id && targets_hold(links[i].targets, key),
    decreases n,
{
    if n > 0 {
        let k = n - 1;
        let count = crate::link_edit::count_key(links[k].targets, key, links[k].targets.len());
        let more = Seq::new(count, |i: int| links[k].id);
        let before = moved_ids(links, key, k as nat);
        let all = before + more;
        let at = choose|at: int| 0 <= at < all.len() && all[at] == id;
        if at < before.len() {
            assert(before[at] == id);
            assert(before.contains(id));
            lemma_moved_ids_have(links, key, k as nat, id);
            let i = choose|i: int| 0 <= i < k && (#[trigger] links[i]).id == id && targets_hold(links[i].targets, key);
            assert(0 <= i < n && links[i].id == id && targets_hold(links[i].targets, key));
        } else {
            assert(count > 0);
            lemma_counted(links[k].targets, key, links[k].targets.len());
            assert(links[k].id == id && targets_hold(links[k].targets, key));
        }
    }
}

proof fn lemma_counted(targets: Seq<RefModel>, key: TargetModel, n: nat)
    requires
        n <= targets.len(),
        crate::link_edit::count_key(targets, key, n) > 0,
    ensures
        targets_hold(targets, key),
    decreases n,
{
    if n > 0 {
        if targets[n - 1].key() != key {
            lemma_counted(targets, key, (n - 1) as nat);
        }
    }
}

/// What the lock kept of a target is kept under its new key, in the links that had the target.
/// Everything else in the lock stays.
pub proof fn law_moved_target_keeps_its_lock(
    links: Seq<EntryModel>,
    lock: Map<Seq<char>, LockModel>,
    from: TargetModel,
    to: TargetModel,
    id: Seq<char>,
    other: TargetModel,
)
    requires
        lock.dom().contains(id),
        other != from,
        other != to,
    ensures
        ({
            let after = moved_lock(lock, moved_ids(links, from, links.len()), from, to);
            let holds = exists|i: int|
                0 <= i < links.len() && (#[trigger] links[i]).id == id && targets_hold(links[i].targets, from);
            &&& after.dom() == lock.dom()
            &&& !holds ==> after[id] == lock[id]
            &&& holds && from != to ==> !after[id].packages.dom().contains(from)
                && !after[id].package_targets.dom().contains(from) && !after[id].targets.dom().contains(from)
            &&& holds && lock[id].packages.dom().contains(from) ==> after[id].packages.dom().contains(to)
                && after[id].packages[to] == lock[id].packages[from]
            &&& holds && lock[id].package_targets.dom().contains(from) ==> after[id].package_targets.dom().contains(to)
                && after[id].package_targets[to] == lock[id].package_targets[from]
            &&& holds && lock[id].targets.dom().contains(from) ==> after[id].targets.dom().contains(to)
                && after[id].targets[to] == lock[id].targets[from]
            &&& after[id].resolved_ref == lock[id].resolved_ref
            &&& after[id].packages.dom().contains(other) == lock[id].packages.dom().contains(other)
            &&& lock[id].packages.dom().contains(other) ==> after[id].packages[other] == lock[id].packages[other]
            &&& after[id].package_targets.dom().contains(other) == lock[id].package_targets.dom().contains(other)
            &&& lock[id].package_targets.dom().contains(other) ==> after[id].package_targets[other]
                == lock[id].package_targets[other]
            &&& after[id].targets.dom().contains(other) == lock[id].targets.dom().contains(other)
            &&& lock[id].targets.dom().contains(other) ==> after[id].targets[other] == lock[id].targets[other]
        }),
{
    let ids = moved_ids(links, from, links.len());
    let after = moved_lock(lock, ids, from, to);
    assert(after.dom() =~= lock.dom());
    if ids.contains(id) {
        lemma_moved_ids_have(links, from, links.len(), id);
    } else if exists|i: int| 0 <= i < links.len() && (#[trigger] links[i]).id == id && targets_hold(links[i].targets, from) {
        let i = choose|i: int|
            0 <= i < links.len() && (#[trigger] links[i]).id == id && targets_hold(links[i].targets, from);
        crate::link_edit::lemma_moved_id(links, from, links.len(), i);
    }
}

proof fn lemma_first_replaced(targets: Seq<RefModel>, key: TargetModel, actual: RefModel) -> (k: int)
    requires
        targets_hold(targets, key),
    ensures
        0 <= k < targets.len(),
        targets[k].key() == key,
        forall|j: int| 0 <= j < k ==> (#[trigger] targets[j]).key() != key,
        first_replaced(targets, key, actual) == targets.update(k, actual),
    decreases targets.len(),
{
    let w = choose|w: int| 0 <= w < targets.len() && (#[trigger] targets[w]).key() == key;
    if targets[0].key() == key {
        0
    } else {
        let rest = targets.drop_first();
        assert(rest[w - 1].key() == key);
        let k = lemma_first_replaced(rest, key, actual);
        assert(seq![targets[0]] + rest.update(k, actual) =~= targets.update(k + 1, actual));
        assert forall|j: int| 0 <= j < k + 1 implies (#[trigger] targets[j]).key() != key by {
            if j > 0 {
                assert(rest[j - 1] == targets[j]);
            }
        }
        k + 1
    }
}

/// A renamed target stands in its link under its new name, where the old one stood, and nothing
/// else moves. What was kept of it follows, and it is not broken any more.
#[verifier::rlimit(50)]
pub proof fn law_renamed_target_follows(s: LinkState, rename: RenamedModel, n: int, i: int) -> (k: int)
    requires
        is_link(s.manifest.links, rename.link_id, i),
        targets_hold(s.manifest.links[i].targets, rename.old.key()),
        rename.old.key().segments != rename.actual.key().segments || rename.old.key().ordinals
            != rename.actual.key().ordinals,
        no_owner(s.manifest.links, rename.actual.key()),
    ensures
        0 <= k < s.manifest.links[i].targets.len(),
        s.manifest.links[i].targets[k].key() == rename.old.key(),
        ({
            let r = renamed_one(s, rename, n);
            &&& r is Ok
            &&& r->Ok_0.manifest.links.len() == s.manifest.links.len()
            &&& r->Ok_0.manifest.links[i].id == s.manifest.links[i].id
            &&& r->Ok_0.manifest.links[i].source == s.manifest.links[i].source
            &&& r->Ok_0.manifest.links[i].targets == s.manifest.links[i].targets.update(k, rename.actual)
            &&& forall|j: int|
                0 <= j < s.manifest.links.len() && j != i ==> r->Ok_0.manifest.links[j] == #[trigger] s.manifest.links[j]
            &&& !targets_hold(r->Ok_0.manifest.broken, rename.old.key())
            &&& !targets_hold(r->Ok_0.manifest.broken, rename.actual.key())
            &&& r->Ok_0.lock.dom() == s.lock.dom()
            &&& forall|id: Seq<char>|
                id != rename.link_id && s.lock.dom().contains(id) ==> #[trigger] r->Ok_0.lock[id] == s.lock[id]
            &&& s.lock.dom().contains(rename.link_id) && s.lock[rename.link_id].packages.dom().contains(
                rename.old.key(),
            ) ==> r->Ok_0.lock[rename.link_id].packages.dom().contains(rename.actual.key())
                && r->Ok_0.lock[rename.link_id].packages[rename.actual.key()]
                == s.lock[rename.link_id].packages[rename.old.key()]
            &&& s.lock.dom().contains(rename.link_id) ==> !r->Ok_0.lock[rename.link_id].packages.dom().contains(
                rename.old.key(),
            )
        }),
{
    let links = s.manifest.links;
    assert(is_link(links, rename.link_id, link_at(links, rename.link_id)));
    let at = link_at(links, rename.link_id);
    assert(at == i) by {
        if at < i {
            assert(links[at].id != rename.link_id);
        }
        if i < at {
            assert(links[i].id != rename.link_id);
        }
    }
    assert(!crate::link_status::some_owner(links, rename.actual.key()));
    let k = lemma_first_replaced(links[i].targets, rename.old.key(), rename.actual);
    let keys = seq![rename.old.key(), rename.actual.key()];
    law_other_targets_stay(s.manifest.broken, keys);
    let left = refs_without(s.manifest.broken, keys);
    assert(keys[0] == rename.old.key() && keys[1] == rename.actual.key());
    assert forall|j: int| 0 <= j < left.len() implies (#[trigger] left[j]).key() != rename.old.key() && left[j].key()
        != rename.actual.key() by {
        assert(left.contains(left[j]));
        assert(!keys.contains(left[j].key()));
        if left[j].key() == rename.old.key() {
            assert(keys.contains(keys[0]));
        }
        if left[j].key() == rename.actual.key() {
            assert(keys.contains(keys[1]));
        }
    }
    let r = renamed_one(s, rename, n)->Ok_0;
    assert(r.lock.dom() =~= s.lock.dom());
    k
}

proof fn lemma_link_exists(links: Seq<EntryModel>, id: Seq<char>, n: nat)
    requires
        n <= links.len(),
        exists|j: int| 0 <= j < n && (#[trigger] links[j]).id == id,
    ensures
        exists|i: int| is_link(links, id, i),
    decreases n,
{
    if exists|j: int| 0 <= j < n - 1 && (#[trigger] links[j]).id == id {
        lemma_link_exists(links, id, (n - 1) as nat);
    } else {
        assert(is_link(links, id, n - 1));
    }
}

/// A target is not renamed to one that a link already has, nor where its link has it no more; one
/// whose name did not change is left.
pub proof fn law_names_are_not_taken_twice(s: LinkState, rename: RenamedModel, n: int, l: int)
    requires
        0 <= n <= usize::MAX,
    ensures
        rename.old.key().segments == rename.actual.key().segments && rename.old.key().ordinals
            == rename.actual.key().ordinals ==> renamed_one(s, rename, n) == Ok::<LinkState, RenameError>(s),
        (rename.old.key().segments != rename.actual.key().segments || rename.old.key().ordinals
            != rename.actual.key().ordinals) && 0 <= l < s.manifest.links.len() && targets_hold(
            s.manifest.links[l].targets,
            rename.actual.key(),
        ) ==> renamed_one(s, rename, n) == Err::<LinkState, RenameError>(RenameError::Conflict { target: n as usize }),
        (rename.old.key().segments != rename.actual.key().segments || rename.old.key().ordinals
            != rename.actual.key().ordinals) && no_owner(s.manifest.links, rename.actual.key()) && no_owner(
            s.manifest.links,
            rename.old.key(),
        ) ==> renamed_one(s, rename, n) == Err::<LinkState, RenameError>(
            RenameError::Disappeared { target: n as usize },
        ),
{
    let links = s.manifest.links;
    if no_owner(links, rename.old.key()) && !crate::links::no_link(links, rename.link_id) {
        lemma_link_exists(links, rename.link_id, links.len());
        let at = link_at(links, rename.link_id);
        assert(!targets_hold(links[at].targets, rename.old.key()));
    }
}

/// A mirror that is gone is missing and has drifted, one that differs has drifted. Where all hold
/// what the source holds nothing has drifted. A broken target, and one whose source can not be
/// read, misses nothing.
pub proof fn law_status_tells_of_the_mirrors(facts: StatusFacts, i: int)
    ensures
        facts.resolved && !facts.broken && 0 <= i < facts.files@.len() && facts.files@[i].mirror is None
            ==> status_of(facts).missing && status_of(facts).drift,
        facts.resolved && !facts.broken && 0 <= i < facts.files@.len() && opt_text(facts.files@[i].mirror) != opt_text(
            facts.files@[i].canonical,
        ) ==> status_of(facts).drift,
        facts.resolved && !facts.broken && facts.is_package && !facts.package_root_found ==> status_of(facts).missing
            && status_of(facts).drift,
        facts.resolved && facts.is_package && facts.package_root_found && !facts.package_matches ==> status_of(
            facts,
        ).drift,
        (forall|k: int|
            0 <= k < facts.files@.len() ==> (#[trigger] facts.files@[k]).mirror is Some && opt_text(
                facts.files@[k].mirror,
            ) == opt_text(facts.files@[k].canonical)) && (facts.is_package ==> facts.package_root_found
            && facts.package_matches) ==> !status_of(facts).drift && !status_of(facts).missing,
        facts.broken || !facts.resolved ==> !status_of(facts).missing,
        !facts.resolved ==> !status_of(facts).drift,
{
}

/// The counts of a status are how many targets are broken, have drifted, or follow a link.
pub proof fn law_status_counts(all: Seq<StatusFacts>, id: Seq<char>, n: nat)
    requires
        n <= all.len(),
    ensures
        broken_count(all, n) == all.take(n as int).filter(|f: StatusFacts| f.broken).len(),
        drift_count(all, n) == all.take(n as int).filter(|f: StatusFacts| status_of(f).drift).len(),
        active_count(all, id, n) == all.take(n as int).filter(
            |f: StatusFacts| f.link_id@ == id && f.resolved && !f.broken && !status_of(f).missing,
        ).len(),
    decreases n,
{
    reveal(Seq::filter);
    if n > 0 {
        law_status_counts(all, id, (n - 1) as nat);
        assert(all.take(n as int).drop_last() =~= all.take(n - 1));
        assert(all.take(n as int).last() == all[n - 1]);
    }
}

/// A broken target is left alone. One whose source can not be read is warned of, unless it can not
/// be kept anywhere. The others are filled, forced where all are or where the target is named.
pub proof fn law_steps_follow_the_target(t: ResolvedTarget, force_all: bool, forced: Seq<RefModel>)
    ensures
        t.broken ==> step_for(t, force_all, forced) == ApplyStep::Skip,
        !t.broken && !t.resolved && t.has_storage ==> step_for(t, force_all, forced) == ApplyStep::Warn,
        !t.broken && !t.resolved && !t.has_storage ==> step_for(t, force_all, forced) == ApplyStep::Fail,
        !t.broken && t.resolved && !t.has_storage ==> step_for(t, force_all, forced) == ApplyStep::NoStorage,
        !t.broken && t.resolved && t.has_storage && t.is_package ==> step_for(t, force_all, forced) == (
        ApplyStep::Package { forced: force_all || targets_hold(forced, t.target@.key()) }),
        !t.broken && t.resolved && t.has_storage && !t.is_package ==> step_for(t, force_all, forced) == (
        ApplyStep::Mirror { forced: force_all || targets_hold(forced, t.target@.key()) }),
{
}

/// How two targets of one service stand to each other: below, above, or neither.
pub proof fn law_overlap_goes_both_ways(key: TargetModel, existing: TargetModel)
    ensures
        overlap(key, key) == Overlap::Apart,
        key.service != existing.service ==> overlap(key, existing) == Overlap::Apart,
        overlap(key, existing) == Overlap::Inside ==> overlap(existing, key) == Overlap::Contains,
        overlap(key, existing) == Overlap::Contains ==> overlap(existing, key) == Overlap::Inside,
        key.service == existing.service && existing.segments.len() < key.segments.len()
            && existing.segments.is_prefix_of(key.segments) && existing.ordinals.is_prefix_of(key.ordinals) ==> overlap(
            key,
            existing,
        ) == Overlap::Inside,
        overlap(key, existing) == Overlap::Inside ==> existing.segments.is_prefix_of(key.segments)
            && existing.ordinals.is_prefix_of(key.ordinals) && existing.service == key.service,
{
}

/// A packed target is kept with its hash, its fingerprint and its root; the files that were kept
/// of it stay, and so does what was kept of other targets.
pub proof fn law_packed_target_is_kept(
    entry: LockModel,
    key: TargetModel,
    root_id: Seq<char>,
    hash: Seq<char>,
    fingerprint: Seq<char>,
    default_exists: bool,
    other: TargetModel,
)
    requires
        other != key,
    ensures
        ({
            let after = packed_lock(entry, key, root_id, hash, fingerprint, default_exists);
            &&& after.resolved_ref == entry.resolved_ref
            &&& after.packages.dom().contains(key) && after.packages[key] == hash
            &&& after.package_targets.dom().contains(key) && after.package_targets[key] == fingerprint
            &&& after.targets.dom().contains(key) && after.targets[key].settings_id == Some(root_id)
            &&& entry.targets.dom().contains(key) ==> after.targets[key].files == entry.targets[key].files
            &&& !entry.targets.dom().contains(key) ==> after.targets[key].files.dom().is_empty()
            &&& after.targets.dom().contains(other) == entry.targets.dom().contains(other)
            &&& entry.targets.dom().contains(other) ==> after.targets[other] == entry.targets[other]
            &&& default_exists || other != default_key(key) ==> {
                &&& after.packages.dom().contains(other) == entry.packages.dom().contains(other)
                &&& entry.packages.dom().contains(other) ==> after.packages[other] == entry.packages[other]
                &&& after.package_targets.dom().contains(other) == entry.package_targets.dom().contains(other)
                &&& entry.package_targets.dom().contains(other) ==> after.package_targets[other]
                    == entry.package_targets[other]
            }
            &&& !default_exists && other == default_key(key) ==> !after.packages.dom().contains(other)
                && !after.package_targets.dom().contains(other)
        }),
{
}

/// A new package is a file of its link's id, among the links of the project or of the machine.
pub proof fn law_new_package_is_named_after_its_link(folder: Seq<char>, id: Seq<char>)
    requires
        !folder.contains('\\'),
        !id.contains('\\'),
    ensures
        new_package_source(None, id) == "~global/"@ + id + ".renium"@,
        folder.len() > 0 && folder.last() != '/' ==> new_package_source(Some(folder), id) == folder + "/"@ + id
            + ".renium"@,
        folder.len() > 0 && folder.last() == '/' ==> new_package_source(Some(folder), id) == folder + id + ".renium"@,
        folder.len() == 0 ==> new_package_source(Some(folder), id) == id + ".renium"@,
{
    reveal_strlit(".renium");
    reveal_strlit("/");
    let named = id + ".renium"@;
    assert("~global/"@ + named =~= "~global/"@ + id + ".renium"@);
    assert forall|i: int| 0 <= i < named.len() implies #[trigger] named[i] != '\\' by {
        if i < id.len() {
            assert(id.contains(id[i]));
        }
    }
    assert forall|i: int| 0 <= i < folder.len() implies #[trigger] folder[i] != '\\' by {
        assert(folder.contains(folder[i]));
    }
    assert(new_package_source(Some(folder), id) =~= if folder.len() == 0 || folder.last() == '/' {
        folder + named
    } else {
        folder + "/"@ + named
    });
    assert(folder + named =~= folder + id + ".renium"@);
    assert(folder + "/"@ + named =~= folder + "/"@ + id + ".renium"@);
    if folder.len() == 0 {
        assert(folder + named =~= named);
    }
}

} // verus!
