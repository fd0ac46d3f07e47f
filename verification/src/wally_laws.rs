//! Which packages are synced, and what a sync keeps.
use vstd::prelude::*;

use crate::link_apply::value_of;
use crate::links::{ManifestModel, RefModel, targets_hold};
use crate::text::{ascii_lower, pieces, trimmed};
use crate::wally::{
    Realm, RealmModel, RealmOptions, WallyError, active_of_links, realm_ref, synced_targets, wanted_realms,
};
use crate::link_run::FileWrite;
use crate::wally_run::{RealmOutcome, SyncModel, realm_taken, written};
use crate::wally_sync::{
    RealmFacts, RealmStep, SpecModel, SyncOptions, classes_from, realm_step, with_folders, with_source,
};

verus! {

/// A realm is asked for by its name, whatever its case, among names with commas between them.
pub open spec fn is_asked_for(list: Seq<char>, realm: Realm) -> bool {
    exists|i: int|
        0 <= i < pieces(list, ',').len() && ascii_lower(trimmed(#[trigger] pieces(list, ',')[i])) == match realm {
            Realm::Shared => "shared"@,
            Realm::Server => "server"@,
            Realm::Dev => "dev"@,
        }
}

/// A realm is made from its options.
pub open spec fn is_made_from(x: RealmModel, options: RealmOptions) -> bool {
    &&& x.packages_dir == options.packages_dir@
    &&& x.service == trimmed(options.service@) && x.service.len() > 0 && options.service_valid
    &&& x.target_name == trimmed(options.target_name@) && x.target_name.len() > 0 && options.target_valid
    &&& x.required == (x.realm == Realm::Shared)
}

/// Each realm that was asked for is there once, made from its own options, the shared one first
/// and the one for developing last; no other is. Only the shared one is required.
#[verifier::rlimit(50)]
pub proof fn law_asked_realms_are_made(
    list: Seq<char>,
    shared: RealmOptions,
    server: RealmOptions,
    dev: RealmOptions,
    realm: Realm,
)
    requires
        wanted_realms(list, shared, server, dev) is Ok,
    ensures
        ({
            let out = wanted_realms(list, shared, server, dev)->Ok_0;
            let options = match realm {
                Realm::Shared => shared,
                Realm::Server => server,
                Realm::Dev => dev,
            };
            &&& is_asked_for(list, realm) <==> exists|i: int| 0 <= i < out.len() && (#[trigger] out[i]).realm == realm
            &&& forall|i: int|
                0 <= i < out.len() && (#[trigger] out[i]).realm == realm ==> is_made_from(out[i], options)
            &&& forall|i: int, j: int|
                0 <= i < j < out.len() ==> (#[trigger] out[i]).realm != (#[trigger] out[j]).realm && out[i].realm
                    != Realm::Dev && out[j].realm != Realm::Shared
        }),
{
    reveal_strlit("shared");
    reveal_strlit("server");
    reveal_strlit("dev");
    let out = wanted_realms(list, shared, server, dev)->Ok_0;
    let a = crate::wally::wants(list, "shared"@);
    let b = crate::wally::wants(list, "server"@);
    let c = crate::wally::wants(list, "dev"@);
    assert(a == is_asked_for(list, Realm::Shared));
    assert(b == is_asked_for(list, Realm::Server));
    assert(c == is_asked_for(list, Realm::Dev));
    if a {
        assert(out[0].realm == Realm::Shared);
    }
    if b {
        let i: int = if a {
            1
        } else {
            0
        };
        assert(out[i].realm == Realm::Server);
    }
    if c {
        assert(out[out.len() - 1].realm == Realm::Dev);
    }
}

/// A name that is no realm's is refused.
pub proof fn law_unknown_realms_are_refused(
    list: Seq<char>,
    shared: RealmOptions,
    server: RealmOptions,
    dev: RealmOptions,
    i: int,
)
    requires
        0 <= i < pieces(list, ',').len(),
        trimmed(pieces(list, ',')[i]).len() > 0,
        ascii_lower(trimmed(pieces(list, ',')[i])) != "shared"@,
        ascii_lower(trimmed(pieces(list, ',')[i])) != "server"@,
        ascii_lower(trimmed(pieces(list, ',')[i])) != "dev"@,
    ensures
        wanted_realms(list, shared, server, dev) == Err::<Seq<RealmModel>, WallyError>(WallyError::UnknownRealm),
{
    let name = ascii_lower(trimmed(pieces(list, ',')[i]));
    assert(name.len() == trimmed(pieces(list, ',')[i]).len());
}

/// The targets that a sync fills are those of the realms and those of the links that are not broken.
pub proof fn law_synced_targets_are_active(realms: Seq<RealmModel>, m: ManifestModel, t: RefModel)
    ensures
        synced_targets(realms, m).contains(t) <==> (exists|i: int|
            0 <= i < realms.len() && #[trigger] realm_ref(realms[i]) == t) || (exists|l: int|
            0 <= l < m.links.len() && (#[trigger] m.links[l]).targets.contains(t) && !targets_hold(m.broken, t.key())),
{
    let first = Seq::new(realms.len(), |i: int| realm_ref(realms[i]));
    let rest = active_of_links(m, m.links.len());
    let all = synced_targets(realms, m);
    lemma_active(m, m.links.len(), t);
    if all.contains(t) {
        let i = choose|i: int| 0 <= i < all.len() && all[i] == t;
        if i < first.len() {
            assert(realm_ref(realms[i]) == t);
        } else {
            assert(rest[i - first.len()] == t);
            assert(rest.contains(t));
        }
    }
    if exists|i: int| 0 <= i < realms.len() && #[trigger] realm_ref(realms[i]) == t {
        let i = choose|i: int| 0 <= i < realms.len() && #[trigger] realm_ref(realms[i]) == t;
        assert(all[i] == t);
    }
    if rest.contains(t) {
        let i = choose|i: int| 0 <= i < rest.len() && rest[i] == t;
        assert(all[first.len() + i] == t);
    }
}

#[verifier::rlimit(50)]
proof fn lemma_active(m: ManifestModel, n: nat, t: RefModel)
    requires
        n <= m.links.len(),
    ensures
        active_of_links(m, n).contains(t) <==> exists|l: int|
            0 <= l < n && (#[trigger] m.links[l]).targets.contains(t) && !targets_hold(m.broken, t.key()),
    decreases n,
{
    if n > 0 {
        lemma_active(m, (n - 1) as nat, t);
        let keys = crate::links::keys_in(m.broken);
        let before = active_of_links(m, (n - 1) as nat);
        let more = crate::links::refs_without(m.links[n - 1].targets, keys);
        let all = before + more;
        crate::manifest_laws::law_other_targets_stay(m.links[n - 1].targets, keys);
        assert(keys.contains(t.key()) == targets_hold(m.broken, t.key())) by {
            if keys.contains(t.key()) {
                let k = choose|k: int| 0 <= k < keys.len() && keys[k] == t.key();
                assert(m.broken[k].key() == t.key());
            }
            if targets_hold(m.broken, t.key()) {
                let k = choose|k: int| 0 <= k < m.broken.len() && (#[trigger] m.broken[k]).key() == t.key();
                assert(keys[k] == t.key());
            }
        }
        assert(more.contains(t) <==> m.links[n - 1].targets.contains(t) && !keys.contains(t.key()));
        if all.contains(t) {
            let i = choose|i: int| 0 <= i < all.len() && all[i] == t;
            if i < before.len() {
                assert(before[i] == t);
                assert(before.contains(t));
                let l = choose|l: int|
                    0 <= l < n - 1 && (#[trigger] m.links[l]).targets.contains(t) && !targets_hold(m.broken, t.key());
                assert(0 <= l < n && m.links[l].targets.contains(t));
            } else {
                assert(more[i - before.len()] == t);
                assert(more.contains(t));
                assert(m.links[n - 1].targets.contains(t));
            }
        }
        if exists|l: int| 0 <= l < n && (#[trigger] m.links[l]).targets.contains(t) && !targets_hold(m.broken, t.key()) {
            let l = choose|l: int|
                0 <= l < n && (#[trigger] m.links[l]).targets.contains(t) && !targets_hold(m.broken, t.key());
            if l < n - 1 {
                assert(before.contains(t));
                let i = choose|i: int| 0 <= i < before.len() && before[i] == t;
                assert(all[i] == t);
            } else {
                assert(more.contains(t));
                let i = choose|i: int| 0 <= i < more.len() && more[i] == t;
                assert(all[before.len() + i] == t);
            }
        }
    }
}

/// What is done with a realm. Packages that are there are imported into the store, unless it is up
/// to date and nothing is forced. Where they are gone a realm that need not be there is removed if
/// it was synced once, and left if it was not; one that has to be there fails or is imported anew.
pub proof fn law_realms_follow_the_packages(required: bool, f: RealmFacts, o: SyncOptions)
    ensures
        ({
            let step = realm_step(required, f, o);
            let same = f.previous_hash is Some && f.previous_hash->0@ == o.hash@;
            &&& f.packages_present && f.has_storage && f.has_settings && o.force ==> step == (RealmStep::Import {
                make_directory: false,
            })
            &&& f.packages_present && f.has_storage && f.has_settings && !same ==> step == (RealmStep::Import {
                make_directory: false,
            })
            &&& f.packages_present && f.has_storage && f.has_settings && !o.force && same && f.content_fresh ==> step
                == RealmStep::Skip
            &&& f.packages_present && f.has_storage && f.has_settings && !f.content_fresh && (f.initially_fresh != Some(
                true,
            ) || o.initial_hash@ != o.hash@) ==> step == (RealmStep::Import { make_directory: false })
            &&& !f.packages_present && !required && !f.locked ==> step == RealmStep::Ignore
            &&& !f.packages_present && !required && f.locked && f.has_storage && f.has_settings ==> step
                == RealmStep::RemoveInstances
            &&& !f.packages_present && !required && f.locked && !(f.has_storage && f.has_settings) ==> step
                == RealmStep::RemoveFiles
            &&& !f.packages_present && required && o.skip_install ==> step == RealmStep::Fail(WallyError::NotInstalled)
            &&& f.packages_present && !f.has_storage ==> step == RealmStep::Fail(WallyError::NoOwner)
            &&& f.packages_present && f.has_storage && !f.has_settings && required ==> step == RealmStep::Fail(
                WallyError::NoSettings,
            )
            &&& f.packages_present && f.has_storage && !f.has_settings && !required ==> step == RealmStep::Ignore
        }),
{
}

/// What was taken of a realm: an import remembers the hash that it was made from, a removal
/// forgets the realm, and both leave the other realms. A realm that is up to date changes nothing
/// but the count.
pub proof fn law_taken_realms_are_remembered(
    s: SyncModel,
    realm: RealmModel,
    key: Seq<char>,
    step: RealmStep,
    o: RealmOutcome,
    hash: Seq<char>,
    other: Seq<char>,
)
    requires
        other != key,
    ensures
        ({
            let r = realm_taken(s, realm, key, step, o, hash);
            &&& step matches RealmStep::Fail(e) ==> r == Err::<SyncModel, WallyError>(e)
            &&& !(step is Fail) ==> r is Ok
            &&& step is Ignore ==> r == Ok::<SyncModel, WallyError>(s)
            &&& step is Skip ==> r->Ok_0.lock == s.lock && r->Ok_0.writes == s.writes && r->Ok_0.removals == s.removals
                && r->Ok_0.changed_paths == s.changed_paths && r->Ok_0.skipped == s.skipped + 1 && r->Ok_0.applied
                == s.applied
            &&& step is RemoveFiles || step is RemoveInstances ==> !r->Ok_0.lock.dom().contains(key)
                && r->Ok_0.removals == s.removals + crate::link_remove::paths_of(o.removals@) && r->Ok_0.writes
                == s.writes && r->Ok_0.applied == s.applied + 1 && r->Ok_0.reports.last().removed
            &&& step is Import ==> r->Ok_0.lock.dom().contains(key) && r->Ok_0.lock[key].resolved_ref == Some(hash)
                && r->Ok_0.applied == s.applied + 1 && !r->Ok_0.reports.last().removed
            &&& step is Import && s.lock.dom().contains(key) ==> r->Ok_0.lock[key].targets == s.lock[key].targets
                && r->Ok_0.lock[key].packages == s.lock[key].packages
            &&& r is Ok ==> r->Ok_0.lock.dom().contains(other) == s.lock.dom().contains(other)
            &&& r is Ok && s.lock.dom().contains(other) ==> r->Ok_0.lock[other] == s.lock[other]
            &&& r is Ok && !(step is Ignore) ==> r->Ok_0.reports.len() == s.reports.len() + 1
                && r->Ok_0.reports.last().realm == realm.realm && r->Ok_0.reports.last().target_name
                == realm.target_name && r->Ok_0.reports.last().skipped == (step is Skip)
        }),
{
}

proof fn lemma_written(m: Map<Seq<char>, Seq<u8>>, files: Seq<FileWrite>, n: nat, path: Seq<char>)
    requires
        n <= files.len(),
    ensures
        (forall|i: int| 0 <= i < n ==> (#[trigger] files[i]).path@.path != path) ==> written(m, files, n).dom().contains(path)
            == m.dom().contains(path) && (m.dom().contains(path) ==> written(m, files, n)[path] == m[path]),
        forall|i: int|
            0 <= i < n && (#[trigger] files[i]).path@.path == path && (forall|j: int|
                i < j < n ==> (#[trigger] files[j]).path@.path != path) ==> written(m, files, n).dom().contains(path)
                && written(m, files, n)[path] == files[i].content@,
    decreases n,
{
    if n > 0 {
        lemma_written(m, files, (n - 1) as nat, path);
    }
}

/// An import writes its files, the last of each path, and nothing else.
pub proof fn law_imports_write_their_files(
    s: SyncModel,
    realm: RealmModel,
    key: Seq<char>,
    o: RealmOutcome,
    hash: Seq<char>,
    path: Seq<char>,
    i: int,
)
    ensures
        ({
            let r = realm_taken(s, realm, key, RealmStep::Import { make_directory: false }, o, hash)->Ok_0;
            &&& (forall|k: int| 0 <= k < o.writes@.len() ==> (#[trigger] o.writes@[k]).path@.path != path)
                ==> r.writes.dom().contains(path) == s.writes.dom().contains(path) && (s.writes.dom().contains(path)
                ==> r.writes[path] == s.writes[path])
            &&& 0 <= i < o.writes@.len() && o.writes@[i].path@.path == path && (forall|k: int|
                i < k < o.writes@.len() ==> (#[trigger] o.writes@[k]).path@.path != path) ==> r.writes.dom().contains(path)
                && r.writes[path] == o.writes@[i].content@
        }),
{
    lemma_written(s.writes, o.writes@, o.writes@.len(), path);
}

/// A path stands for the folder or the instances of a package.
pub open spec fn is_on_the_way(specs: Seq<SpecModel>, prefix: Seq<Seq<char>>, n: int, path: Seq<Seq<char>>) -> bool {
    exists|i: int|
        0 <= i < n && path.len() > 0 && path.is_prefix_of((#[trigger] specs[i]).path.skip(prefix.len() as int))
}

/// A path is that of a source.
pub open spec fn is_own_path(specs: Seq<SpecModel>, prefix: Seq<Seq<char>>, n: int, path: Seq<Seq<char>>) -> bool {
    exists|i: int| 0 <= i < n && path.len() > 0 && (#[trigger] specs[i]).path.skip(prefix.len() as int) == path
}

proof fn lemma_with_folders(classes: Map<Seq<Seq<char>>, Seq<char>>, path: Seq<Seq<char>>, n: nat, at: Seq<Seq<char>>)
    requires
        n <= path.len(),
    ensures
        with_folders(classes, path, n).dom().contains(at) <==> classes.dom().contains(at) || (0 < at.len() <= n
            && at.is_prefix_of(path)),
        classes.dom().contains(at) ==> with_folders(classes, path, n)[at] == classes[at],
        !classes.dom().contains(at) && 0 < at.len() <= n && at.is_prefix_of(path) ==> with_folders(classes, path, n)[at]
            == "Folder"@,
    decreases n,
{
    if n > 0 {
        lemma_with_folders(classes, path, (n - 1) as nat, at);
        let here = path.take(n as int);
        assert(at.len() == n && at.is_prefix_of(path) <==> at == here) by {
            if at.len() == n && at.is_prefix_of(path) {
                assert(at =~= here);
            }
            if at == here {
                assert(at =~= path.subrange(0, at.len() as int));
            }
        }
    }
}

#[verifier::rlimit(50)]
proof fn lemma_classes(prefix: Seq<Seq<char>>, specs: Seq<SpecModel>, n: nat, at: Seq<Seq<char>>, s: int)
    requires
        n <= specs.len() <= usize::MAX,
        classes_from(prefix, specs, n) is Ok,
    ensures
        ({
            let m = classes_from(prefix, specs, n)->Ok_0;
            &&& forall|i: int| 0 <= i < n ==> prefix.is_prefix_of((#[trigger] specs[i]).path)
            &&& m.classes.dom().contains(Seq::empty()) && m.classes[Seq::empty()] == "Folder"@
            &&& at.len() > 0 ==> (m.classes.dom().contains(at) <==> is_on_the_way(specs, prefix, n as int, at))
            &&& m.sources.dom().contains(at) <==> is_own_path(specs, prefix, n as int, at)
            &&& is_on_the_way(specs, prefix, n as int, at) && !is_own_path(specs, prefix, n as int, at) ==> m.classes[at]
                == "Folder"@
            &&& 0 <= s < n && at.len() > 0 && specs[s].path.skip(prefix.len() as int) == at ==> m.classes[at]
                == specs[s].class_name
        }),
    decreases n,
{
    if n > 0 {
        let k = n - 1;
        lemma_classes(prefix, specs, k as nat, at, s);
        let b = classes_from(prefix, specs, k as nat)->Ok_0;
        let x = specs[k];
        let path = x.path.skip(prefix.len() as int);
        let m = with_source(b, prefix, x, k)->Ok_0;
        assert(is_on_the_way(specs, prefix, n as int, at) <==> is_on_the_way(specs, prefix, k, at) || (at.len() > 0
            && at.is_prefix_of(path))) by {
            if is_on_the_way(specs, prefix, n as int, at) && !(at.len() > 0 && at.is_prefix_of(path)) {
                let i = choose|i: int|
                    0 <= i < n && at.len() > 0 && at.is_prefix_of((#[trigger] specs[i]).path.skip(prefix.len() as int));
                assert(0 <= i < k && at.is_prefix_of(specs[i].path.skip(prefix.len() as int)));
            }
            if is_on_the_way(specs, prefix, k, at) {
                let i = choose|i: int|
                    0 <= i < k && at.len() > 0 && at.is_prefix_of((#[trigger] specs[i]).path.skip(prefix.len() as int));
                assert(0 <= i < n && at.is_prefix_of(specs[i].path.skip(prefix.len() as int)));
            }
            if at.len() > 0 && at.is_prefix_of(path) {
                assert(at.is_prefix_of(specs[k].path.skip(prefix.len() as int)));
            }
        }
        assert(is_own_path(specs, prefix, n as int, at) <==> is_own_path(specs, prefix, k, at) || (at.len() > 0 && path
            == at)) by {
            if is_own_path(specs, prefix, n as int, at) && path != at {
                let i = choose|i: int|
                    0 <= i < n && at.len() > 0 && (#[trigger] specs[i]).path.skip(prefix.len() as int) == at;
                assert(0 <= i < k && specs[i].path.skip(prefix.len() as int) == at);
            }
            if is_own_path(specs, prefix, k, at) {
                let i = choose|i: int|
                    0 <= i < k && at.len() > 0 && (#[trigger] specs[i]).path.skip(prefix.len() as int) == at;
                assert(0 <= i < n && specs[i].path.skip(prefix.len() as int) == at);
            }
            if at.len() > 0 && path == at {
                assert(specs[k].path.skip(prefix.len() as int) == at);
            }
        }
        if path.len() > 0 {
            lemma_with_folders(b.classes, path, (path.len() - 1) as nat, at);
            lemma_with_folders(b.classes, path, (path.len() - 1) as nat, Seq::empty());
            assert(at.len() > 0 && at.is_prefix_of(path) <==> (0 < at.len() <= path.len() - 1 && at.is_prefix_of(path))
                || (at.len() > 0 && at == path)) by {
                if at.is_prefix_of(path) && at.len() == path.len() {
                    assert(at =~= path);
                }
                if at == path {
                    assert(at =~= path.subrange(0, at.len() as int));
                }
            }
            if 0 <= s < k && at.len() > 0 && specs[s].path.skip(prefix.len() as int) == at {
                assert(is_own_path(specs, prefix, k, at));
                assert(b.sources.dom().contains(at));
                assert(at.is_prefix_of(specs[s].path.skip(prefix.len() as int))) by {
                    assert(at =~= at.subrange(0, at.len() as int));
                }
                assert(b.classes.dom().contains(at));
                if path == at {
                    let classes = with_folders(b.classes, path, (path.len() - 1) as nat);
                    assert(classes[at] == b.classes[at]);
                    assert(value_of(classes, path) == Some(x.class_name));
                }
            }
        }
    }
}

/// The packages of a realm lie below its folder. Each instance that they put there has the class
/// that its source gives it, those on the way to them are folders, and there are no others.
pub proof fn law_packages_have_their_classes(prefix: Seq<Seq<char>>, specs: Seq<SpecModel>, at: Seq<Seq<char>>, s: int)
    requires
        specs.len() <= usize::MAX,
        classes_from(prefix, specs, specs.len()) is Ok,
    ensures
        ({
            let classes = classes_from(prefix, specs, specs.len())->Ok_0.classes;
            &&& forall|i: int| 0 <= i < specs.len() ==> prefix.is_prefix_of((#[trigger] specs[i]).path)
            &&& classes.dom().contains(Seq::empty()) && classes[Seq::empty()] == "Folder"@
            &&& at.len() > 0 ==> (classes.dom().contains(at) <==> is_on_the_way(specs, prefix, specs.len() as int, at))
            &&& is_on_the_way(specs, prefix, specs.len() as int, at) && !is_own_path(
                specs,
                prefix,
                specs.len() as int,
                at,
            ) ==> classes[at] == "Folder"@
            &&& 0 <= s < specs.len() && at.len() > 0 && specs[s].path.skip(prefix.len() as int) == at ==> classes[at]
                == specs[s].class_name
        }),
{
    lemma_classes(prefix, specs, specs.len(), at, s);
}

/// Two sources that give one instance different classes can not both be taken, nor can one that
/// lies outside the folder.
pub proof fn law_conflicting_packages_are_refused(prefix: Seq<Seq<char>>, specs: Seq<SpecModel>, i: int, j: int)
    requires
        specs.len() <= usize::MAX,
        0 <= i < j < specs.len(),
    ensures
        !prefix.is_prefix_of(specs[i].path) ==> classes_from(prefix, specs, specs.len()) is Err,
        specs[i].path == specs[j].path && specs[i].class_name != specs[j].class_name && specs[i].path.len()
            > prefix.len() ==> classes_from(prefix, specs, specs.len()) is Err,
{
    if classes_from(prefix, specs, specs.len()) is Ok {
        let at = specs[i].path.skip(prefix.len() as int);
        lemma_classes(prefix, specs, specs.len(), at, i);
        lemma_classes(prefix, specs, specs.len(), at, j);
    }
}

} // verus!
