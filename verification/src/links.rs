//! Links from packages and source folders to targets in the project, and the manifest that
//! lists them.
use vstd::prelude::*;

use crate::table::{Key, Table};
use crate::text::{
    clone_numbers, clone_texts, numbers_start_with, ones, same, same_numbers, same_texts, subnumbers, subtexts, texts,
    texts_start_with,
};

verus! {

broadcast use vstd::seq_lib::group_seq_properties;

/// A target of a link as a manifest writes it. The path may start with the service itself.
pub struct LinkTargetRef {
    pub service: String,
    pub path: Vec<String>,
    pub ords: Vec<usize>,
}

/// What identifies a target: the service, the segments below it, and one ordinal for each.
pub struct TargetKey {
    pub service: String,
    pub segments: Vec<String>,
    pub ordinals: Vec<usize>,
}

#[verifier::ext_equal]
pub struct RefModel {
    pub service: Seq<char>,
    pub path: Seq<Seq<char>>,
    pub ords: Seq<usize>,
}

#[verifier::ext_equal]
pub struct TargetModel {
    pub service: Seq<char>,
    pub segments: Seq<Seq<char>>,
    pub ordinals: Seq<usize>,
}

impl View for LinkTargetRef {
    type V = RefModel;

    open spec fn view(&self) -> RefModel {
        RefModel { service: self.service@, path: texts(self.path@), ords: self.ords@ }
    }
}

impl View for TargetKey {
    type V = TargetModel;

    open spec fn view(&self) -> TargetModel {
        TargetModel { service: self.service@, segments: texts(self.segments@), ordinals: self.ordinals@ }
    }
}

impl RefModel {
    /// Whether the path starts with the service.
    pub open spec fn rooted(self) -> bool {
        self.path.len() > 0 && self.path[0] == self.service
    }

    /// The segments below the service.
    pub open spec fn segments(self) -> Seq<Seq<char>> {
        if self.rooted() {
            self.path.skip(1)
        } else {
            self.path
        }
    }

    /// One ordinal for each segment below the service: ones where none are written, and without
    /// that of the service where the path names it.
    pub open spec fn ordinals(self) -> Seq<usize> {
        if self.ords.len() == 0 {
            Seq::new(self.segments().len(), |i: int| 1usize)
        } else if self.rooted() && self.ords.len() == self.path.len() {
            self.ords.skip(1)
        } else {
            self.ords
        }
    }

    pub open spec fn key(self) -> TargetModel {
        TargetModel { service: self.service, segments: self.segments(), ordinals: self.ordinals() }
    }
}

impl LinkTargetRef {
    pub fn copy(&self) -> (r: LinkTargetRef)
        ensures
            r@ == self@,
    {
        LinkTargetRef { service: self.service.clone(), path: clone_texts(&self.path), ords: clone_numbers(&self.ords) }
    }

    fn is_rooted(&self) -> (r: bool)
        ensures
            r == self@.rooted(),
    {
        self.path.len() > 0 && same(&self.path[0], &self.service)
    }

    /// What identifies the target.
    pub fn key(&self) -> (r: TargetKey)
        ensures
            r@ == self@.key(),
    {
        let segments = link_target_segments(self);
        let ordinals = link_target_ordinals(self);
        TargetKey { service: self.service.clone(), segments, ordinals }
    }
}

/// The segments of a target below its service.
pub fn link_target_segments(target: &LinkTargetRef) -> (r: Vec<String>)
    ensures
        texts(r@) == target@.segments(),
{
    if target.is_rooted() {
        let r = subtexts(&target.path, 1, target.path.len());
        assert(texts(r@) =~= target@.segments());
        r
    } else {
        clone_texts(&target.path)
    }
}

/// The ordinals of a target, one for each segment below its service.
pub fn link_target_ordinals(target: &LinkTargetRef) -> (r: Vec<usize>)
    ensures
        r@ == target@.ordinals(),
{
    let rooted = target.is_rooted();
    if target.ords.len() == 0 {
        let n: usize = if rooted {
            target.path.len() - 1
        } else {
            target.path.len()
        };
        ones(n)
    } else if rooted && target.ords.len() == target.path.len() {
        let r = subnumbers(&target.ords, 1, target.ords.len());
        assert(r@ =~= target@.ords.skip(1));
        r
    } else {
        clone_numbers(&target.ords)
    }
}

/// The ordinals to write out: none where all of them are one.
pub fn link_target_output_ordinals(ordinals: Vec<usize>) -> (r: Vec<usize>)
    ensures
        r@ == if forall|i: int| 0 <= i < ordinals@.len() ==> ordinals@[i] == 1usize {
            Seq::<usize>::empty()
        } else {
            ordinals@
        },
{
    let mut i: usize = 0;
    while i < ordinals.len()
        invariant
            i <= ordinals.len(),
            forall|j: int| 0 <= j < i ==> ordinals@[j] == 1usize,
        decreases ordinals.len() - i,
    {
        if ordinals[i] != 1 {
            return ordinals;
        }
        i += 1;
    }
    Vec::new()
}

impl Key for TargetKey {
    fn same_key(&self, other: &Self) -> (r: bool) {
        same(&self.service, &other.service) && same_texts(&self.segments, &other.segments) && same_numbers(
            &self.ordinals,
            &other.ordinals,
        )
    }

    fn copy_key(&self) -> (r: Self) {
        TargetKey {
            service: self.service.clone(),
            segments: clone_texts(&self.segments),
            ordinals: clone_numbers(&self.ordinals),
        }
    }
}

/// `outer` covers `inner`: the same service, and a prefix of its segments with their ordinals.
pub open spec fn covers(outer: TargetModel, inner: TargetModel) -> bool {
    &&& outer.service == inner.service
    &&& outer.segments.is_prefix_of(inner.segments)
    &&& outer.ordinals.is_prefix_of(inner.ordinals)
}

/// Whether a selector lies at or below another of the same service.
pub fn selector_starts_with(
    segments: &Vec<String>,
    ordinals: &Vec<usize>,
    prefix_segments: &Vec<String>,
    prefix_ordinals: &Vec<usize>,
) -> (r: bool)
    ensures
        r == (texts(prefix_segments@).is_prefix_of(texts(segments@)) && prefix_ordinals@.is_prefix_of(ordinals@)),
{
    texts_start_with(segments, prefix_segments) && numbers_start_with(ordinals, prefix_ordinals)
}

/// Where the files or the package of a link come from.
pub enum LinkSource {
    Local { path: String },
    Git { url: String, git_ref: Option<String>, subpath: Option<String> },
    Wally { package: String, version: Option<String> },
}

pub enum SourceModel {
    Local { path: Seq<char> },
    Git { url: Seq<char>, git_ref: Option<Seq<char>>, subpath: Option<Seq<char>> },
    Wally { package: Seq<char>, version: Option<Seq<char>> },
}

/// The text of an optional string.
pub open spec fn opt_text(s: Option<String>) -> Option<Seq<char>> {
    match s {
        Some(s) => Some(s@),
        None => None,
    }
}

impl View for LinkSource {
    type V = SourceModel;

    open spec fn view(&self) -> SourceModel {
        match self {
            LinkSource::Local { path } => SourceModel::Local { path: path@ },
            LinkSource::Git { url, git_ref, subpath } => SourceModel::Git {
                url: url@,
                git_ref: opt_text(*git_ref),
                subpath: opt_text(*subpath),
            },
            LinkSource::Wally { package, version } => SourceModel::Wally {
                package: package@,
                version: opt_text(*version),
            },
        }
    }
}

/// One link: its source and the targets that it fills.
pub struct LinkEntry {
    pub id: String,
    pub read_only: bool,
    pub source: LinkSource,
    pub targets: Vec<LinkTargetRef>,
}

/// All links of a project, and the targets that no longer follow theirs.
pub struct LinkManifest {
    pub version: u64,
    pub cache_dir: Option<String>,
    pub links: Vec<LinkEntry>,
    pub broken: Vec<LinkTargetRef>,
}

#[verifier::ext_equal]
pub struct EntryModel {
    pub id: Seq<char>,
    pub read_only: bool,
    pub source: SourceModel,
    pub targets: Seq<RefModel>,
}

#[verifier::ext_equal]
pub struct ManifestModel {
    pub version: u64,
    pub cache_dir: Option<Seq<char>>,
    pub links: Seq<EntryModel>,
    pub broken: Seq<RefModel>,
}

pub open spec fn refs(v: Seq<LinkTargetRef>) -> Seq<RefModel> {
    Seq::new(v.len(), |i: int| v[i]@)
}

pub open spec fn entries_of(v: Seq<LinkEntry>) -> Seq<EntryModel> {
    Seq::new(v.len(), |i: int| v[i]@)
}

pub open spec fn keys_of(v: Seq<TargetKey>) -> Seq<TargetModel> {
    Seq::new(v.len(), |i: int| v[i]@)
}

impl View for LinkEntry {
    type V = EntryModel;

    open spec fn view(&self) -> EntryModel {
        EntryModel { id: self.id@, read_only: self.read_only, source: self.source@, targets: refs(self.targets@) }
    }
}

impl View for LinkManifest {
    type V = ManifestModel;

    open spec fn view(&self) -> ManifestModel {
        ManifestModel {
            version: self.version,
            cache_dir: opt_text(self.cache_dir),
            links: entries_of(self.links@),
            broken: refs(self.broken@),
        }
    }
}

/// A target with a key is among some targets.
pub open spec fn targets_hold(targets: Seq<RefModel>, key: TargetModel) -> bool {
    exists|i: int| 0 <= i < targets.len() && (#[trigger] targets[i]).key() == key
}

/// `i` is the first link with an id.
pub open spec fn is_link(links: Seq<EntryModel>, id: Seq<char>, i: int) -> bool {
    &&& 0 <= i < links.len()
    &&& links[i].id == id
    &&& forall|j: int| 0 <= j < i ==> (#[trigger] links[j]).id != id
}

pub open spec fn no_link(links: Seq<EntryModel>, id: Seq<char>) -> bool {
    forall|j: int| 0 <= j < links.len() ==> (#[trigger] links[j]).id != id
}

/// `i` is the first link with a target of this key.
pub open spec fn is_owner(links: Seq<EntryModel>, key: TargetModel, i: int) -> bool {
    &&& 0 <= i < links.len()
    &&& targets_hold(links[i].targets, key)
    &&& forall|j: int| 0 <= j < i ==> !targets_hold((#[trigger] links[j]).targets, key)
}

pub open spec fn no_owner(links: Seq<EntryModel>, key: TargetModel) -> bool {
    forall|j: int| 0 <= j < links.len() ==> !targets_hold((#[trigger] links[j]).targets, key)
}

/// The targets whose keys are not among `keys`.
pub open spec fn refs_without(targets: Seq<RefModel>, keys: Seq<TargetModel>) -> Seq<RefModel> {
    targets.filter(|t: RefModel| !keys.contains(t.key()))
}

proof fn lemma_refs_push(v: Seq<LinkTargetRef>, x: LinkTargetRef)
    ensures
        refs(v.push(x)) == refs(v).push(x@),
{
    assert(refs(v.push(x)) =~= refs(v).push(x@));
}

/// Whether a target with a key is among some targets.
pub fn hold_target(targets: &Vec<LinkTargetRef>, key: &TargetKey) -> (r: bool)
    ensures
        r == targets_hold(refs(targets@), key@),
{
    let mut i: usize = 0;
    while i < targets.len()
        invariant
            i <= targets.len(),
            forall|j: int| 0 <= j < i ==> (#[trigger] refs(targets@)[j]).key() != key@,
        decreases targets.len() - i,
    {
        if targets[i].key().same_key(key) {
            assert(refs(targets@)[i as int].key() == key@);
            return true;
        }
        i += 1;
    }
    false
}

/// The first link with an id.
pub fn find_link(links: &Vec<LinkEntry>, id: &str) -> (r: Option<usize>)
    ensures
        match r {
            Some(i) => is_link(entries_of(links@), id@, i as int),
            None => no_link(entries_of(links@), id@),
        },
{
    let mut i: usize = 0;
    while i < links.len()
        invariant
            i <= links.len(),
            forall|j: int| 0 <= j < i ==> (#[trigger] entries_of(links@)[j]).id != id@,
        decreases links.len() - i,
    {
        if same(&links[i].id, id) {
            return Some(i);
        }
        i += 1;
    }
    None
}

/// The first link with a target of this key.
pub fn find_owner(links: &Vec<LinkEntry>, key: &TargetKey) -> (r: Option<usize>)
    ensures
        match r {
            Some(i) => is_owner(entries_of(links@), key@, i as int),
            None => no_owner(entries_of(links@), key@),
        },
{
    let mut i: usize = 0;
    while i < links.len()
        invariant
            i <= links.len(),
            forall|j: int| 0 <= j < i ==> !targets_hold((#[trigger] entries_of(links@)[j]).targets, key@),
        decreases links.len() - i,
    {
        if hold_target(&links[i].targets, key) {
            return Some(i);
        }
        i += 1;
    }
    None
}

/// Whether a key is among some keys.
pub fn hold_key(keys: &Vec<TargetKey>, key: &TargetKey) -> (r: bool)
    ensures
        r == keys_of(keys@).contains(key@),
{
    let mut i: usize = 0;
    while i < keys.len()
        invariant
            i <= keys.len(),
            forall|j: int| 0 <= j < i ==> #[trigger] keys_of(keys@)[j] != key@,
        decreases keys.len() - i,
    {
        if keys[i].same_key(key) {
            assert(keys_of(keys@)[i as int] == key@);
            return true;
        }
        i += 1;
    }
    false
}

/// Copies the targets whose keys are not among `keys`.
pub fn retain_refs(targets: &Vec<LinkTargetRef>, keys: &Vec<TargetKey>) -> (r: Vec<LinkTargetRef>)
    ensures
        refs(r@) == refs_without(refs(targets@), keys_of(keys@)),
{
    let mut out: Vec<LinkTargetRef> = Vec::new();
    let mut i: usize = 0;
    let ghost all = refs(targets@);
    let ghost kept = |t: RefModel| !keys_of(keys@).contains(t.key());
    assert(all.take(0).filter(kept) =~= refs(out@));
    while i < targets.len()
        invariant
            i <= targets.len(),
            all == refs(targets@),
            kept == (|t: RefModel| !keys_of(keys@).contains(t.key())),
            refs(out@) == all.take(i as int).filter(kept),
        decreases targets.len() - i,
    {
        let ghost x = all[i as int];
        assert(all.take(i + 1) =~= all.take(i as int).push(x));
        proof {
            all.take(i as int).lemma_filter_push(x, kept);
        }
        let key = targets[i].key();
        if !hold_key(keys, &key) {
            let t = targets[i].copy();
            proof {
                lemma_refs_push(out@, t);
            }
            out.push(t);
        }
        i += 1;
    }
    assert(all.take(i as int) =~= all);
    out
}

/// What a lock file keeps of one target: the instance that filled it, and the content that each
/// mirrored file was last given.
pub struct TargetLock {
    pub settings_id: Option<String>,
    pub files: Table<String, String>,
}

/// What a lock file keeps of one link: the revision that its source stood at, and for each target
/// the package it was last filled from, what it then held, and its mirrors.
pub struct LinkLockEntry {
    pub resolved_ref: Option<String>,
    pub packages: Table<TargetKey, String>,
    pub package_targets: Table<TargetKey, String>,
    pub targets: Table<TargetKey, TargetLock>,
}

pub struct LinkLock {
    pub entries: Table<String, LinkLockEntry>,
}

#[verifier::ext_equal]
pub struct TargetLockModel {
    pub settings_id: Option<Seq<char>>,
    pub files: Map<Seq<char>, Seq<char>>,
}

#[verifier::ext_equal]
pub struct LockModel {
    pub resolved_ref: Option<Seq<char>>,
    pub packages: Map<TargetModel, Seq<char>>,
    pub package_targets: Map<TargetModel, Seq<char>>,
    pub targets: Map<TargetModel, TargetLockModel>,
}

impl View for TargetLock {
    type V = TargetLockModel;

    open spec fn view(&self) -> TargetLockModel {
        TargetLockModel { settings_id: opt_text(self.settings_id), files: self.files@ }
    }
}

impl View for LinkLockEntry {
    type V = LockModel;

    open spec fn view(&self) -> LockModel {
        LockModel {
            resolved_ref: opt_text(self.resolved_ref),
            packages: self.packages@,
            package_targets: self.package_targets@,
            targets: self.targets@,
        }
    }
}

impl View for LinkLock {
    type V = Map<Seq<char>, LockModel>;

    open spec fn view(&self) -> Map<Seq<char>, LockModel> {
        self.entries@
    }
}

/// A target that was never applied.
pub open spec fn no_target_lock() -> TargetLockModel {
    TargetLockModel { settings_id: None, files: Map::empty() }
}

/// A link that was never applied.
pub open spec fn no_lock() -> LockModel {
    LockModel {
        resolved_ref: None,
        packages: Map::empty(),
        package_targets: Map::empty(),
        targets: Map::empty(),
    }
}

impl TargetLock {
    pub fn new() -> (r: TargetLock)
        ensures
            r@ == no_target_lock(),
    {
        TargetLock { settings_id: None, files: Table::new() }
    }
}

impl LinkLockEntry {
    pub fn new() -> (r: LinkLockEntry)
        ensures
            r@ == no_lock(),
    {
        LinkLockEntry {
            resolved_ref: None,
            packages: Table::new(),
            package_targets: Table::new(),
            targets: Table::new(),
        }
    }
}

impl LinkLock {
    pub fn new() -> (r: LinkLock)
        ensures
            r@ == Map::<Seq<char>, LockModel>::empty(),
    {
        LinkLock { entries: Table::new() }
    }
}

/// A map with the value of key `a` under key `b` instead.
pub open spec fn renamed<V>(m: Map<TargetModel, V>, a: TargetModel, b: TargetModel) -> Map<TargetModel, V> {
    if m.dom().contains(a) {
        m.remove(a).insert(b, m[a])
    } else {
        m
    }
}

/// What was kept of a link, with one target under another key.
pub open spec fn migrated(entry: LockModel, a: TargetModel, b: TargetModel) -> LockModel {
    LockModel {
        resolved_ref: entry.resolved_ref,
        packages: renamed(entry.packages, a, b),
        package_targets: renamed(entry.package_targets, a, b),
        targets: renamed(entry.targets, a, b),
    }
}

/// Anything is kept of a target.
pub open spec fn locked(entry: LockModel, key: TargetModel) -> bool {
    entry.packages.dom().contains(key) || entry.package_targets.dom().contains(key) || entry.targets.dom().contains(
        key,
    )
}

fn rename_row<V: View>(table: &mut Table<TargetKey, V>, a: &TargetKey, b: &TargetKey) -> (r: bool)
    ensures
        r == old(table)@.dom().contains(a@),
        final(table)@ == renamed(old(table)@, a@, b@),
{
    let ghost before = table@;
    match table.take(a) {
        Some(value) => {
            table.put(b.copy_key(), value);
            true
        },
        None => {
            assert(table@ =~= before);
            false
        },
    }
}

/// Moves all that is kept of one target to another key, and says whether there was anything.
pub fn migrate_link_target_lock(entry: &mut LinkLockEntry, old_key: &TargetKey, new_key: &TargetKey) -> (r: bool)
    ensures
        r == locked(old(entry)@, old_key@),
        final(entry)@ == migrated(old(entry)@, old_key@, new_key@),
{
    let a = rename_row(&mut entry.packages, old_key, new_key);
    let b = rename_row(&mut entry.package_targets, old_key, new_key);
    let c = rename_row(&mut entry.targets, old_key, new_key);
    a || b || c
}

/// Moving what is kept of a target a second time changes nothing more.
pub proof fn law_migrating_twice(entry: LockModel, a: TargetModel, b: TargetModel)
    ensures
        migrated(migrated(entry, a, b), a, b) == migrated(entry, a, b),
{
    let once = migrated(entry, a, b);
    let twice = migrated(once, a, b);
    assert(twice.packages =~= once.packages);
    assert(twice.package_targets =~= once.package_targets);
    assert(twice.targets =~= once.targets);
}

/// Moving what is kept of a target there and back gives it back, where the other key was free.
pub proof fn law_migrating_back(entry: LockModel, a: TargetModel, b: TargetModel)
    requires
        !locked(entry, b),
    ensures
        migrated(migrated(entry, a, b), b, a) == entry,
{
    let back = migrated(migrated(entry, a, b), b, a);
    assert(back.packages =~= entry.packages);
    assert(back.package_targets =~= entry.package_targets);
    assert(back.targets =~= entry.targets);
}

impl LinkSource {
    pub fn copy(&self) -> (r: LinkSource)
        ensures
            r@ == self@,
    {
        match self {
            LinkSource::Local { path } => LinkSource::Local { path: path.clone() },
            LinkSource::Git { url, git_ref, subpath } => LinkSource::Git {
                url: url.clone(),
                git_ref: copy_opt(git_ref),
                subpath: copy_opt(subpath),
            },
            LinkSource::Wally { package, version } => LinkSource::Wally {
                package: package.clone(),
                version: copy_opt(version),
            },
        }
    }
}

pub fn copy_opt(s: &Option<String>) -> (r: Option<String>)
    ensures
        opt_text(r) == opt_text(*s),
{
    match s {
        Some(s) => Some(s.clone()),
        None => None,
    }
}

/// Copies some targets.
pub fn copy_refs(v: &Vec<LinkTargetRef>) -> (r: Vec<LinkTargetRef>)
    ensures
        refs(r@) == refs(v@),
{
    let mut out: Vec<LinkTargetRef> = Vec::new();
    let mut i: usize = 0;
    while i < v.len()
        invariant
            i <= v.len(),
            refs(out@) == refs(v@).take(i as int),
        decreases v.len() - i,
    {
        let t = v[i].copy();
        proof {
            lemma_refs_push(out@, t);
            assert(refs(v@).take(i + 1) =~= refs(v@).take(i as int).push(v@[i as int]@));
        }
        out.push(t);
        i += 1;
    }
    assert(refs(v@).take(i as int) =~= refs(v@));
    out
}

impl LinkEntry {
    pub fn copy(&self) -> (r: LinkEntry)
        ensures
            r@ == self@,
    {
        LinkEntry {
            id: self.id.clone(),
            read_only: self.read_only,
            source: self.source.copy(),
            targets: copy_refs(&self.targets),
        }
    }
}

pub proof fn lemma_entries_of_push(v: Seq<LinkEntry>, x: LinkEntry)
    ensures
        entries_of(v.push(x)) == entries_of(v).push(x@),
{
    assert(entries_of(v.push(x)) =~= entries_of(v).push(x@));
}

pub proof fn lemma_entries_of_update(v: Seq<LinkEntry>, i: int, x: LinkEntry)
    requires
        0 <= i < v.len(),
    ensures
        entries_of(v.update(i, x)) == entries_of(v).update(i, x@),
{
    assert(entries_of(v.update(i, x)) =~= entries_of(v).update(i, x@));
}

/// The keys of some targets.
pub open spec fn keys_in(targets: Seq<RefModel>) -> Seq<TargetModel> {
    Seq::new(targets.len(), |i: int| targets[i].key())
}

/// The keys of some targets.
pub fn ref_keys(v: &Vec<LinkTargetRef>) -> (r: Vec<TargetKey>)
    ensures
        keys_of(r@) == keys_in(refs(v@)),
{
    let mut out: Vec<TargetKey> = Vec::new();
    let mut i: usize = 0;
    while i < v.len()
        invariant
            i <= v.len(),
            keys_of(out@) == keys_in(refs(v@)).take(i as int),
        decreases v.len() - i,
    {
        let k = v[i].key();
        assert(keys_of(out@.push(k)) =~= keys_of(out@).push(k@));
        assert(keys_in(refs(v@)).take(i + 1) =~= keys_in(refs(v@)).take(i as int).push(k@));
        out.push(k);
        i += 1;
    }
    assert(keys_in(refs(v@)).take(i as int) =~= keys_in(refs(v@)));
    out
}

/// No two links have the same id.
pub open spec fn ids_once(links: Seq<EntryModel>) -> bool {
    forall|i: int, j: int| 0 <= i < j < links.len() ==> (#[trigger] links[i]).id != (#[trigger] links[j]).id
}

/// Why a link command is refused. A link is given by its place in the manifest.
#[derive(PartialEq, Eq, Structural, Clone, Copy, Debug)]
pub enum LinkError {
    /// Another link with the id of this one comes before it.
    DuplicateId { link: usize },
    /// The id of a link can not be the name of a file.
    InvalidId,
    /// The target belongs to another link.
    AlreadyOwned { link: usize },
    /// A new link needs a source.
    MissingSource,
    /// The kind of source is none of local, git and wally.
    UnknownSourceType,
    /// The target belongs to no link.
    NotATarget,
    /// No link has the id.
    UnknownLink,
    /// Neither a link nor a target was named.
    NoSelection,
    /// The target lies below a target of a link.
    InsideLink { link: usize },
    /// A target of a link lies below the target.
    ContainsLink { link: usize },
    /// The link does not fill the target.
    UnrelatedTarget { link: usize },
    /// The link's source is not a local package.
    NotLocalPackage { link: usize },
    /// The package is still in use at so many targets.
    ActiveUses { count: usize },
    /// The action is not known.
    UnknownAction,
}

/// Checks that a manifest names every link once. The first link whose id was used before is
/// reported.
pub fn validate_link_manifest(manifest: &LinkManifest) -> (r: Result<(), LinkError>)
    ensures
        match r {
            Ok(()) => ids_once(manifest@.links),
            Err(LinkError::DuplicateId { link }) => link < manifest@.links.len() && ids_once(
                manifest@.links.take(link as int),
            ) && (exists|j: int| 0 <= j < link && (#[trigger] manifest@.links[j]).id == manifest@.links[link as int].id),
            Err(_) => false,
        },
{
    let mut i: usize = 0;
    while i < manifest.links.len()
        invariant
            i <= manifest.links.len(),
            forall|a: int, b: int|
                0 <= a < b < i ==> (#[trigger] manifest@.links[a]).id != (#[trigger] manifest@.links[b]).id,
        decreases manifest.links.len() - i,
    {
        let mut j: usize = 0;
        while j < i
            invariant
                j <= i < manifest.links.len(),
                forall|a: int, b: int|
                    0 <= a < b < i ==> (#[trigger] manifest@.links[a]).id != (#[trigger] manifest@.links[b]).id,
                forall|a: int| 0 <= a < j ==> (#[trigger] manifest@.links[a]).id != manifest@.links[i as int].id,
            decreases i - j,
        {
            if same(&manifest.links[j].id, &manifest.links[i].id) {
                assert(manifest@.links[j as int].id == manifest@.links[i as int].id);
                assert(ids_once(manifest@.links.take(i as int)));
                return Err(LinkError::DuplicateId { link: i });
            }
            j += 1;
        }
        i += 1;
    }
    Ok(())
}

} // verus!
