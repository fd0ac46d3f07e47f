//! The course of syncing Wally packages: what is fresh, what is imported and what goes.
use vstd::prelude::*;

use crate::document::{
    as_ints, collect_settings_subtree_preorder, ids_at, instance_path_parts, lemma_preorder_in_range, path_names,
    path_ordinals, resolved_below, select_named_child, settings_ids_at, subtree, InstanceModel, SettingsDocument,
};
use crate::json::{opt_json, put, Json, JsonModel, Member};
use crate::link_apply::value_of;
use crate::links::{opt_text, LinkLock, LockModel};
use crate::place::{ints_model, numbers, numbers_to_json, texts_to_json};
use crate::references::{numbers_model, texts_model};
use crate::table::{key_views, Key, Table};
use crate::text::{clone_texts, joined, same, same_texts, starts_with, subtexts, texts, texts_start_with};
use crate::wally::{RealmModel, WallyError, WallyRealm};

verus! {

broadcast use vstd::seq_lib::group_seq_properties;

/// A path of names, as a key.
pub struct PathKey {
    pub segments: Vec<String>,
}

impl View for PathKey {
    type V = Seq<Seq<char>>;

    open spec fn view(&self) -> Seq<Seq<char>> {
        texts(self.segments@)
    }
}

impl Key for PathKey {
    fn same_key(&self, other: &Self) -> (r: bool) {
        same_texts(&self.segments, &other.segments)
    }

    fn copy_key(&self) -> (r: Self) {
        PathKey { segments: clone_texts(&self.segments) }
    }
}

/// The name of a realm and its folder.
pub open spec fn realm_label(realm: RealmModel) -> Seq<char> {
    "wally:"@ + realm.realm.spec_name() + ":"@ + realm.service + "/"@ + realm.target_name
}

/// The name under which the lock keeps a realm: with the owner of its folder and the key of where
/// that is kept, where they are known.
pub open spec fn realm_lock_key(realm: RealmModel, storage: Option<(Seq<char>, Seq<char>)>) -> Seq<char> {
    match storage {
        Some((owner, root_key)) => realm_label(realm) + "@"@ + owner + ":"@ + root_key,
        None => realm_label(realm),
    }
}

fn label_of(realm: &WallyRealm) -> (r: String)
    ensures
        r@ == realm_label(realm@),
{
    let a = joined("wally:", realm.realm.name());
    let b = joined(&a, ":");
    let c = joined(&b, &realm.service);
    let d = joined(&c, "/");
    joined(&d, &realm.target_name)
}

/// The name under which the lock keeps a realm.
pub fn wally_realm_lock_key(realm: &WallyRealm, owner: &str, root_key: &str) -> (r: String)
    ensures
        r@ == realm_lock_key(realm@, Some((owner@, root_key@))),
{
    let label = label_of(realm);
    let a = joined(&label, "@");
    let b = joined(&a, owner);
    let c = joined(&b, ":");
    joined(&c, root_key)
}

/// The name of a realm whose folder is kept nowhere.
pub fn wally_unowned_lock_key(realm: &WallyRealm) -> (r: String)
    ensures
        r@ == realm_lock_key(realm@, None),
{
    label_of(realm)
}

/// The lock keeps a realm, wherever its folder was kept.
pub open spec fn lock_has_realm(lock: Map<Seq<char>, LockModel>, realm: RealmModel) -> bool {
    exists|k: Seq<char>| #[trigger] lock.dom().contains(k) && (realm_label(realm) + "@"@).is_prefix_of(k)
}

/// Whether the lock keeps a realm, wherever its folder was kept.
pub fn lock_has_wally_realm(lock: &LinkLock, realm: &WallyRealm) -> (r: bool)
    ensures
        r == lock_has_realm(lock@, realm@),
{
    let label = label_of(realm);
    let prefix = joined(&label, "@");
    let keys = lock.entries.keys();
    let ghost all = key_views(keys@);
    let mut i: usize = 0;
    while i < keys.len()
        invariant
            i <= keys.len(),
            all == key_views(keys@),
            prefix@ == realm_label(realm@) + "@"@,
            forall|k: Seq<char>| #[trigger] all.contains(k) <==> lock@.dom().contains(k),
            forall|j: int| 0 <= j < i ==> !prefix@.is_prefix_of(#[trigger] all[j]),
        decreases keys.len() - i,
    {
        if starts_with(&keys[i], &prefix) {
            assert(all[i as int] == keys@[i as int]@);
            assert(all.contains(all[i as int]));
            assert(lock@.dom().contains(keys@[i as int]@));
            return true;
        }
        i += 1;
    }
    assert forall|k: Seq<char>| #[trigger] lock@.dom().contains(k) implies !(realm_label(realm@) + "@"@).is_prefix_of(
        k,
    ) by {
        assert(all.contains(k));
        let j = choose|j: int| 0 <= j < all.len() && all[j] == k;
        assert(!prefix@.is_prefix_of(all[j]));
    }
    false
}

/// What the lock keeps under the key of an owned realm is found.
pub proof fn law_recorded_realm_is_found(lock: Map<Seq<char>, LockModel>, realm: RealmModel, owner: Seq<char>, root: Seq<char>)
    requires
        lock.dom().contains(realm_lock_key(realm, Some((owner, root)))),
    ensures
        lock_has_realm(lock, realm),
{
    let key = realm_lock_key(realm, Some((owner, root)));
    let prefix = realm_label(realm) + "@"@;
    assert(key.subrange(0, prefix.len() as int) =~= prefix);
}

/// A realm for which there is nowhere to keep its packages may be passed over: it is not required, its
/// packages are not installed, and the lock keeps nothing of it.
pub fn may_skip_unowned_realm(realm: &WallyRealm, packages_present: bool, lock: &LinkLock) -> (r: bool)
    ensures
        r == (!realm.required && !packages_present && !lock_has_realm(lock@, realm@)),
{
    !realm.required && !packages_present && !lock_has_wally_realm(lock, realm)
}

/// What is known of a realm before anything is installed.
#[derive(PartialEq, Eq, Structural, Clone, Copy, Debug)]
pub struct InitialFacts {
    pub required: bool,
    pub has_storage: bool,
    pub packages_present: bool,
    pub has_settings: bool,
    /// The lock keeps the realm.
    pub locked: bool,
    /// It was last synced from what is installed.
    pub hash_matches: bool,
    /// Its folder holds what is installed.
    pub content_fresh: bool,
}

/// Whether a realm is fresh; nothing where there is nothing to say.
pub open spec fn initially_fresh(f: InitialFacts) -> Option<bool> {
    if !f.has_storage {
        None
    } else if f.packages_present && f.has_settings {
        Some(f.hash_matches && f.content_fresh)
    } else if f.required || f.locked {
        Some(false)
    } else {
        None
    }
}

/// A realm before `n` is not fresh.
pub open spec fn stale_before(facts: Seq<InitialFacts>, n: int) -> bool {
    exists|i: int| 0 <= i < n && initially_fresh(#[trigger] facts[i]) == Some(false)
}

/// Judges the realms in order, and stops at the first that is not fresh. The answer says whether all
/// are, and what was found of each that was looked at.
pub fn initial_wally_realm_freshness(force: bool, facts: &Vec<InitialFacts>) -> (r: (bool, Vec<Option<bool>>))
    ensures
        r.1@.len() == facts@.len(),
        r.0 == (!force && !stale_before(facts@, facts@.len() as int)),
        forall|i: int|
            0 <= i < facts@.len() ==> #[trigger] r.1@[i] == if force || stale_before(facts@, i) {
                None
            } else {
                initially_fresh(facts@[i])
            },
{
    let mut found: Vec<Option<bool>> = Vec::new();
    let mut stopped = force;
    let mut i: usize = 0;
    while i < facts.len()
        invariant
            i <= facts.len(),
            found@.len() == i,
            stopped == (force || stale_before(facts@, i as int)),
            forall|j: int|
                0 <= j < i ==> #[trigger] found@[j] == if force || stale_before(facts@, j) {
                    None
                } else {
                    initially_fresh(facts@[j])
                },
        decreases facts.len() - i,
    {
        let f = facts[i];
        let judged = if !f.has_storage {
            None
        } else if f.packages_present && f.has_settings {
            Some(f.hash_matches && f.content_fresh)
        } else if f.required || f.locked {
            Some(false)
        } else {
            None
        };
        assert(judged == initially_fresh(facts@[i as int]));
        found.push(
            if stopped {
                None
            } else {
                judged
            },
        );
        match judged {
            Some(fresh) => {
                if !fresh {
                    stopped = true;
                }
            },
            None => {},
        }
        proof {
            let now = force || stale_before(facts@, i + 1);
            if stale_before(facts@, i as int) {
                let j = choose|j: int| 0 <= j < i && initially_fresh(#[trigger] facts@[j]) == Some(false);
                assert(0 <= j < i + 1 && initially_fresh(facts@[j]) == Some(false));
            }
        }
        i += 1;
    }
    (!stopped, found)
}

/// Whether packages are installed before they are synced.
#[derive(PartialEq, Eq, Structural, Clone, Copy, Debug)]
pub enum InstallStep {
    /// It was asked not to.
    Skipped,
    /// Everything is up to date.
    Current,
    Run,
}

pub fn wally_install_step(skip_install: bool, all_realms_fresh: bool) -> (r: InstallStep)
    ensures
        r == if skip_install {
            InstallStep::Skipped
        } else if all_realms_fresh {
            InstallStep::Current
        } else {
            InstallStep::Run
        },
{
    if skip_install {
        InstallStep::Skipped
    } else if all_realms_fresh {
        InstallStep::Current
    } else {
        InstallStep::Run
    }
}

fn same_bytes(a: &Vec<u8>, b: &Vec<u8>) -> (r: bool)
    ensures
        r == (a@ == b@),
{
    if a.len() != b.len() {
        return false;
    }
    let mut i: usize = 0;
    while i < a.len()
        invariant
            i <= a.len() == b.len(),
            forall|j: int| 0 <= j < i ==> a@[j] == b@[j],
        decreases a.len() - i,
    {
        if a[i] != b[i] {
            return false;
        }
        i += 1;
    }
    assert(a@ =~= b@);
    true
}

fn files_within(a: &Table<String, Vec<u8>>, b: &Table<String, Vec<u8>>) -> (r: bool)
    ensures
        r == (forall|k: Seq<char>| #[trigger] a@.dom().contains(k) ==> b@.dom().contains(k) && a@[k] == b@[k]),
{
    let keys = a.keys();
    let ghost all = key_views(keys@);
    let mut i: usize = 0;
    while i < keys.len()
        invariant
            i <= keys.len(),
            all == key_views(keys@),
            forall|k: Seq<char>| #[trigger] all.contains(k) <==> a@.dom().contains(k),
            forall|j: int| 0 <= j < i ==> b@.dom().contains(#[trigger] all[j]) && a@[all[j]] == b@[all[j]],
        decreases keys.len() - i,
    {
        assert(all[i as int] == keys@[i as int]@);
        assert(all.contains(all[i as int]));
        let equal = match (a.get(&keys[i]), b.get(&keys[i])) {
            (Some(x), Some(y)) => same_bytes(x, y),
            _ => false,
        };
        if !equal {
            assert(a@.dom().contains(all[i as int]));
            return false;
        }
        i += 1;
    }
    assert forall|k: Seq<char>| #[trigger] a@.dom().contains(k) implies b@.dom().contains(k) && a@[k] == b@[k] by {
        assert(all.contains(k));
        let j = choose|j: int| 0 <= j < all.len() && all[j] == k;
    }
    true
}

/// What a realm's folder is compared by.
pub struct RealmContent {
    pub packages_present: bool,
    /// The realm's folder is a directory without symbolic links.
    pub folder_plain: bool,
    /// What the installed packages would put there, and what is there, by path key.
    pub expected: Table<String, Vec<u8>>,
    pub actual: Table<String, Vec<u8>>,
    /// The fingerprint of the folder's instance, and of what an import would make of it.
    pub fingerprint: Option<String>,
    pub expected_fingerprint: Option<String>,
}

/// A realm's folder holds what is installed: the same files, and the same instances.
pub open spec fn content_fresh(c: RealmContent) -> bool {
    c.packages_present && c.folder_plain && c.actual@ == c.expected@ && c.fingerprint is Some && opt_text(c.fingerprint)
        == opt_text(c.expected_fingerprint)
}

/// Whether a realm's folder holds what is installed.
pub fn wally_realm_is_fresh(c: &RealmContent) -> (r: bool)
    ensures
        r == content_fresh(*c),
{
    if !c.packages_present || !c.folder_plain {
        return false;
    }
    let a = files_within(&c.actual, &c.expected);
    let b = files_within(&c.expected, &c.actual);
    if !a || !b {
        proof {
            if c.actual@ == c.expected@ {
                assert(a && b);
            }
        }
        return false;
    }
    assert(c.actual@ =~= c.expected@);
    match (&c.fingerprint, &c.expected_fingerprint) {
        (Some(x), Some(y)) => same(x, y),
        _ => false,
    }
}

/// What is known of a realm when its turn comes.
pub struct RealmFacts {
    pub packages_present: bool,
    pub has_storage: bool,
    pub has_settings: bool,
    pub locked: bool,
    /// The hash that the realm was last synced from.
    pub previous_hash: Option<String>,
    /// What was found before anything was installed.
    pub initially_fresh: Option<bool>,
    /// What is found now.
    pub content_fresh: bool,
}

/// What is done with a realm.
#[derive(PartialEq, Eq, Structural, Clone, Copy, Debug)]
pub enum RealmStep {
    Ignore,
    /// The packages are gone: the folder's instances and files go.
    RemoveInstances,
    /// The packages are gone, and there are no settings: the files go.
    RemoveFiles,
    Fail(WallyError),
    /// The folder is up to date.
    Skip,
    /// The packages are imported; their directory may have to be made.
    Import { make_directory: bool },
}

/// How a sync was asked for.
pub struct SyncOptions {
    pub force: bool,
    pub skip_install: bool,
    /// The hash of the inputs before and after the installation.
    pub initial_hash: String,
    pub hash: String,
}

/// The realm needs no import.
pub open spec fn realm_fresh(f: RealmFacts, o: SyncOptions) -> bool {
    !o.force && opt_text(f.previous_hash) == Some(o.hash@) && (if o.initial_hash@ == o.hash@ && f.initially_fresh
        == Some(true) {
        true
    } else {
        f.content_fresh
    })
}

pub open spec fn realm_step(required: bool, f: RealmFacts, o: SyncOptions) -> RealmStep {
    if !f.packages_present && !required {
        if !f.locked {
            RealmStep::Ignore
        } else if f.has_storage && f.has_settings {
            RealmStep::RemoveInstances
        } else {
            RealmStep::RemoveFiles
        }
    } else if !f.packages_present && o.skip_install {
        RealmStep::Fail(WallyError::NotInstalled)
    } else if !f.has_storage {
        RealmStep::Fail(WallyError::NoOwner)
    } else if !f.has_settings {
        if required {
            RealmStep::Fail(WallyError::NoSettings)
        } else {
            RealmStep::Ignore
        }
    } else if realm_fresh(f, o) {
        RealmStep::Skip
    } else {
        RealmStep::Import { make_directory: !f.packages_present }
    }
}

/// Decides what is done with a realm.
pub fn next_realm_step(required: bool, f: &RealmFacts, o: &SyncOptions) -> (r: RealmStep)
    ensures
        r == realm_step(required, *f, *o),
{
    if !f.packages_present {
        if !required {
            return if !f.locked {
                RealmStep::Ignore
            } else if f.has_storage && f.has_settings {
                RealmStep::RemoveInstances
            } else {
                RealmStep::RemoveFiles
            };
        }
        if o.skip_install {
            return RealmStep::Fail(WallyError::NotInstalled);
        }
    }
    if !f.has_storage {
        return RealmStep::Fail(WallyError::NoOwner);
    }
    if !f.has_settings {
        return if required {
            RealmStep::Fail(WallyError::NoSettings)
        } else {
            RealmStep::Ignore
        };
    }
    let hash_matches = match &f.previous_hash {
        Some(previous) => same(previous, &o.hash),
        None => false,
    };
    let was_fresh = match f.initially_fresh {
        Some(fresh) => fresh,
        None => false,
    };
    let fresh = if o.force || !hash_matches {
        false
    } else if same(&o.initial_hash, &o.hash) && was_fresh {
        true
    } else {
        f.content_fresh
    };
    if fresh {
        RealmStep::Skip
    } else {
        RealmStep::Import { make_directory: !f.packages_present }
    }
}

/// A realm that was forced is imported again, however fresh it is.
pub proof fn law_forced_realm_is_imported(required: bool, f: RealmFacts, o: SyncOptions)
    requires
        o.force,
        f.packages_present,
        f.has_storage,
        f.has_settings,
    ensures
        realm_step(required, f, o) == (RealmStep::Import { make_directory: false }),
{
}

/// Records in the lock what a realm was synced from, or that it is gone.
pub fn record_realm(lock: &mut LinkLock, key: &str, hash: Option<String>)
    ensures
        final(lock)@ == match hash {
            Some(h) => old(lock)@.insert(
                key@,
                LockModel { resolved_ref: Some(h@), ..crate::link_pack::lock_of(old(lock)@, key@) },
            ),
            None => old(lock)@.remove(key@),
        },
{
    let ghost before = lock@;
    let name = key.to_owned();
    let taken = lock.entries.take(&name);
    match hash {
        Some(h) => {
            let mut entry = match taken {
                Some(entry) => entry,
                None => crate::links::LinkLockEntry::new(),
            };
            entry.resolved_ref = Some(h);
            let ghost model = entry@;
            lock.entries.put(name, entry);
            assert(lock@ =~= before.insert(key@, model));
        },
        None => {},
    }
}

/// An instance that a source file stands for.
pub struct SourceSpec {
    /// The path of the instance, its service first.
    pub path: Vec<String>,
    pub class_name: String,
}

#[verifier::ext_equal]
pub struct SpecModel {
    pub path: Seq<Seq<char>>,
    pub class_name: Seq<char>,
}

impl View for SourceSpec {
    type V = SpecModel;

    open spec fn view(&self) -> SpecModel {
        SpecModel { path: texts(self.path@), class_name: self.class_name@ }
    }
}

pub open spec fn specs_of(v: Seq<SourceSpec>) -> Seq<SpecModel> {
    Seq::new(v.len(), |i: int| v[i]@)
}

/// The classes of instances by path, and which source stands for each.
#[verifier::ext_equal]
pub struct ClassesModel {
    pub classes: Map<Seq<Seq<char>>, Seq<char>>,
    pub sources: Map<Seq<Seq<char>>, usize>,
}

/// The classes with a folder at each of the first `n` prefixes of a path that has none yet.
pub open spec fn with_folders(
    classes: Map<Seq<Seq<char>>, Seq<char>>,
    path: Seq<Seq<char>>,
    n: nat,
) -> Map<Seq<Seq<char>>, Seq<char>>
    decreases n,
{
    if n == 0 {
        classes
    } else {
        let before = with_folders(classes, path, (n - 1) as nat);
        let at = path.take(n as int);
        if before.dom().contains(at) {
            before
        } else {
            before.insert(at, "Folder"@)
        }
    }
}

/// The classes with those that one more source stands for.
pub open spec fn with_source(m: ClassesModel, prefix: Seq<Seq<char>>, spec_model: SpecModel, n: int) -> Result<
    ClassesModel,
    WallyError,
> {
    if !prefix.is_prefix_of(spec_model.path) {
        Err(WallyError::OutsideTarget { source: n as usize })
    } else {
        let path = spec_model.path.skip(prefix.len() as int);
        if path.len() == 0 {
            Ok(m)
        } else {
            let classes = with_folders(m.classes, path, (path.len() - 1) as nat);
            if m.sources.dom().contains(path) && value_of(classes, path) != Some(spec_model.class_name) {
                Err(WallyError::ClassConflict { first: m.sources[path], second: n as usize })
            } else {
                Ok(
                    ClassesModel {
                        classes: classes.insert(path, spec_model.class_name),
                        sources: m.sources.insert(path, n as usize),
                    },
                )
            }
        }
    }
}

/// The classes that the first `n` sources stand for. The target itself is a folder.
pub open spec fn classes_from(prefix: Seq<Seq<char>>, specs: Seq<SpecModel>, n: nat) -> Result<ClassesModel, WallyError>
    decreases n,
{
    if n == 0 {
        Ok(ClassesModel { classes: Map::empty().insert(Seq::empty(), "Folder"@), sources: Map::empty() })
    } else {
        match classes_from(prefix, specs, (n - 1) as nat) {
            Ok(before) => with_source(before, prefix, specs[n - 1], n - 1),
            Err(e) => Err(e),
        }
    }
}

proof fn lemma_class_error_stays(prefix: Seq<Seq<char>>, specs: Seq<SpecModel>, k: nat, n: nat)
    requires
        k <= n <= specs.len(),
        classes_from(prefix, specs, k) is Err,
    ensures
        classes_from(prefix, specs, n) == classes_from(prefix, specs, k),
    decreases n,
{
    if k < n {
        lemma_class_error_stays(prefix, specs, k, (n - 1) as nat);
    }
}

/// The classes that the sources of a realm stand for, by path below its folder.
pub fn expected_classes(prefix: &Vec<String>, specs: &Vec<SourceSpec>) -> (r: Result<Table<PathKey, String>, WallyError>)
    ensures
        match r {
            Ok(classes) => classes_from(texts(prefix@), specs_of(specs@), specs@.len()) is Ok && classes@
                == classes_from(texts(prefix@), specs_of(specs@), specs@.len())->Ok_0.classes,
            Err(e) => classes_from(texts(prefix@), specs_of(specs@), specs@.len()) == Err::<ClassesModel, WallyError>(e),
        },
{
    let ghost all = specs_of(specs@);
    let ghost top = texts(prefix@);
    let mut classes: Table<PathKey, String> = Table::new();
    let mut sources: Table<PathKey, usize> = Table::new();
    let root = PathKey { segments: Vec::new() };
    assert(root@ =~= Seq::<Seq<char>>::empty());
    classes.put(root, "Folder".to_owned());
    let mut i: usize = 0;
    while i < specs.len()
        invariant
            i <= specs.len(),
            all == specs_of(specs@),
            top == texts(prefix@),
            classes_from(top, all, i as nat) == Ok::<ClassesModel, WallyError>(
                ClassesModel { classes: classes@, sources: sources@ },
            ),
        decreases specs.len() - i,
    {
        let spec_item = &specs[i];
        assert(all[i as int] == spec_item@);
        if !texts_start_with(&spec_item.path, prefix) {
            proof {
                lemma_class_error_stays(top, all, (i + 1) as nat, all.len());
            }
            return Err(WallyError::OutsideTarget { source: i });
        }
        let ghost path = spec_item@.path.skip(top.len() as int);
        let len: usize = spec_item.path.len() - prefix.len();
        if len > 0 {
            let ghost before = classes@;
            let mut end: usize = 1;
            while end < len
                invariant
                    1 <= end <= len,
                    len == spec_item.path.len() - prefix.len(),
                    top == texts(prefix@),
                    path == spec_item@.path.skip(top.len() as int),
                    classes@ == with_folders(before, path, (end - 1) as nat),
                decreases len - end,
            {
                let segments = subtexts(&spec_item.path, prefix.len(), prefix.len() + end);
                assert(texts(segments@) =~= path.take(end as int));
                let key = PathKey { segments };
                if !classes.contains(&key) {
                    classes.put(key, "Folder".to_owned());
                }
                end += 1;
            }
            let segments = subtexts(&spec_item.path, prefix.len(), spec_item.path.len());
            assert(texts(segments@) =~= path);
            let key = PathKey { segments };
            match sources.get(&key) {
                Some(first) => {
                    let same_class = match classes.get(&key) {
                        Some(class_name) => same(class_name, &spec_item.class_name),
                        None => false,
                    };
                    if !same_class {
                        proof {
                            lemma_class_error_stays(top, all, (i + 1) as nat, all.len());
                        }
                        return Err(WallyError::ClassConflict { first: *first, second: i });
                    }
                },
                None => {},
            }
            classes.put(key.copy_key(), spec_item.class_name.clone());
            sources.put(key, i);
        }
        i += 1;
    }
    Ok(classes)
}

/// What an import keeps and removes of the folder that is there.
pub struct ImportPlan {
    /// The settings ids of the instances that come back, by path below the folder.
    pub preserved: Table<PathKey, String>,
    /// The settings ids of the instances that go.
    pub removed: Vec<String>,
    /// What is told of the folder, where it goes too.
    pub removed_target: Option<Json>,
}

/// What is told of a folder that goes.
pub open spec fn folder_told(doc: Seq<InstanceModel>, root: int) -> JsonModel {
    JsonModel::Object(
        Map::empty().insert("settingsId"@, JsonModel::Text(doc[root].id)).insert(
            "className"@,
            JsonModel::Text(doc[root].class_name),
        ).insert("pathSegments"@, JsonModel::Array(texts_model(path_names(doc, root)))).insert(
            "pathOrdinals"@,
            JsonModel::Array(numbers_model(path_ordinals(doc, root))),
        ),
    )
}

fn tell_folder(doc: &SettingsDocument, root: usize) -> (r: Json)
    requires
        root < doc@.len(),
    ensures
        r@ == folder_told(doc@, root as int),
{
    assert(doc@[root as int] == doc.instances@[root as int]@);
    let (path, ordinals) = instance_path_parts(doc, root);
    let mut m: Vec<Member> = Vec::new();
    put(&mut m, "settingsId".to_owned(), Json::Text(doc.instances[root].settings_id.clone()));
    put(&mut m, "className".to_owned(), Json::Text(doc.instances[root].class_name.clone()));
    put(&mut m, "pathSegments".to_owned(), texts_to_json(&path));
    put(&mut m, "pathOrdinals".to_owned(), numbers_to_json(&ordinals));
    assert(ints_model(numbers(ordinals@)) =~= numbers_model(ordinals@));
    Json::Object(m)
}

/// The settings id that an instance at a path keeps: that of the first instance with those names, where
/// it has the same class.
pub open spec fn kept_id(
    doc: Seq<InstanceModel>,
    root: int,
    classes: Map<Seq<Seq<char>>, Seq<char>>,
    path: Seq<Seq<char>>,
) -> Option<Seq<char>> {
    if classes.dom().contains(path) {
        match resolved_below(doc, root, path, Seq::empty(), 0) {
            Some(i) => if doc[i].class_name == classes[path] {
                Some(doc[i].id)
            } else {
                None
            },
            None => None,
        }
    } else {
        None
    }
}

fn find_below(doc: &SettingsDocument, root: usize, path: &Vec<String>) -> (r: Option<usize>)
    requires
        root < doc@.len(),
    ensures
        match r {
            Some(i) => resolved_below(doc@, root as int, texts(path@), Seq::empty(), 0) == Some(i as int) && i
                < doc@.len(),
            None => resolved_below(doc@, root as int, texts(path@), Seq::empty(), 0) is None,
        },
{
    let mut current: usize = root;
    let mut k: usize = 0;
    while k < path.len()
        invariant
            k <= path.len(),
            current < doc@.len(),
            resolved_below(doc@, current as int, texts(path@), Seq::empty(), k as int) == resolved_below(
                doc@,
                root as int,
                texts(path@),
                Seq::empty(),
                0,
            ),
        decreases path.len() - k,
    {
        match select_named_child(doc, Some(current), &path[k], 1).0 {
            Some(next) => {
                current = next;
            },
            None => {
                return None;
            },
        }
        k += 1;
    }
    Some(current)
}

/// Plans the import of a realm over the folder that is there: only a folder may be replaced; instances
/// that come back with the same class keep their settings ids. The folder itself goes too, and is told of,
/// unless the target has no names below its service: then the folder is the root of its document.
pub fn plan_realm_import(doc: &SettingsDocument, root: usize, segments: &Vec<String>, classes: &Table<PathKey, String>) -> (r:
    Result<ImportPlan, WallyError>)
    requires
        root < doc@.len(),
    ensures
        match r {
            Ok(plan) => {
                &&& doc@[root as int].class_name == "Folder"@
                &&& forall|path: Seq<Seq<char>>| #[trigger]
                    value_of(plan.preserved@, path) == kept_id(doc@, root as int, classes@, path)
                &&& opt_json(plan.removed_target) == if segments@.len() == 0 {
                    None
                } else {
                    Some(folder_told(doc@, root as int))
                }
                &&& texts(plan.removed@) == ids_at(
                    doc@,
                    if segments@.len() == 0 {
                        subtree(doc@, root as int).skip(1)
                    } else {
                        subtree(doc@, root as int)
                    },
                )
            },
            Err(e) => e == WallyError::NotAFolder && doc@[root as int].class_name != "Folder"@,
        },
{
    assert(doc@[root as int] == doc.instances@[root as int]@);
    if !same(&doc.instances[root].class_name, "Folder") {
        return Err(WallyError::NotAFolder);
    }
    let mut preserved: Table<PathKey, String> = Table::new();
    let keys = classes.keys();
    let ghost all = key_views(keys@);
    let mut i: usize = 0;
    while i < keys.len()
        invariant
            i <= keys.len(),
            root < doc@.len(),
            all == key_views(keys@),
            all.no_duplicates(),
            forall|k: Seq<Seq<char>>| #[trigger] all.contains(k) <==> classes@.dom().contains(k),
            forall|path: Seq<Seq<char>>| #[trigger]
                value_of(preserved@, path) == if all.take(i as int).contains(path) {
                    kept_id(doc@, root as int, classes@, path)
                } else {
                    None
                },
        decreases keys.len() - i,
    {
        let ghost id = all[i as int];
        let ghost done = all.take(i as int);
        let ghost next = all.take(i + 1);
        proof {
            assert(next =~= done.push(id));
            assert(next[i as int] == id);
            assert(all.contains(id));
            assert forall|x: Seq<Seq<char>>| next.contains(x) == (done.contains(x) || x == id) by {
                if done.contains(x) {
                    let at = choose|at: int| 0 <= at < done.len() && done[at] == x;
                    assert(next[at] == x);
                }
                if next.contains(x) && x != id {
                    let at = choose|at: int| 0 <= at < next.len() && next[at] == x;
                    assert(done[at] == x);
                }
            }
            assert(!done.contains(id)) by {
                if done.contains(id) {
                    let at = choose|at: int| 0 <= at < done.len() && done[at] == id;
                    assert(all[at] == id);
                }
            }
        }
        let ghost before = preserved@;
        assert(value_of(before, id) is None);
        match (find_below(doc, root, &keys[i].segments), classes.get(&keys[i])) {
            (Some(at), Some(class_name)) => {
                assert(doc@[at as int] == doc.instances@[at as int]@);
                if same(&doc.instances[at].class_name, class_name) {
                    preserved.put(keys[i].copy_key(), doc.instances[at].settings_id.clone());
                    assert(preserved@ == before.insert(id, doc@[at as int].id));
                }
            },
            _ => {},
        }
        assert forall|path: Seq<Seq<char>>| #[trigger]
            value_of(preserved@, path) == if next.contains(path) {
                kept_id(doc@, root as int, classes@, path)
            } else {
                None
            } by {
            assert(value_of(before, path) == if done.contains(path) {
                kept_id(doc@, root as int, classes@, path)
            } else {
                None
            });
        }
        i += 1;
    }
    assert(all.take(i as int) =~= all);
    assert forall|path: Seq<Seq<char>>| #[trigger]
        value_of(preserved@, path) == kept_id(doc@, root as int, classes@, path) by {
        assert(all.contains(path) == classes@.dom().contains(path));
    }
    let mut at = collect_settings_subtree_preorder(doc, root);
    let ghost whole = at@;
    assert forall|k: int| 0 <= k < whole.len() implies #[trigger] whole[k] < doc@.len() by {
        lemma_preorder_in_range(doc@, root as int, doc@.len(), k);
        assert(as_ints(whole)[k] == whole[k]);
    }
    let is_document_root = segments.len() == 0;
    if is_document_root && at.len() > 0 {
        let rest = at.split_off(1);
        at = rest;
        assert(as_ints(at@) =~= subtree(doc@, root as int).skip(1));
    }
    assert(at@.len() == 0 || !is_document_root || at@ == whole.subrange(1, whole.len() as int));
    let removed = settings_ids_at(doc, &at);
    let removed_target = if is_document_root {
        None
    } else {
        Some(tell_folder(doc, root))
    };
    Ok(ImportPlan { preserved, removed, removed_target })
}

} // verus!
