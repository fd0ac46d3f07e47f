//! Packages that Wally installs, kept in step with folders of the project.
use vstd::prelude::*;

use crate::links::{
    covers, keys_in, ref_keys, refs, refs_without, retain_refs, selector_starts_with, LinkManifest, LinkTargetRef, ManifestModel,
    RefModel, TargetKey, TargetModel,
};
use crate::text::{ascii_lower, pieces, same, split_at_char, texts, to_ascii_lower, trim, trimmed};

verus! {

broadcast use vstd::seq_lib::group_seq_properties;

/// The three kinds of packages.
#[derive(PartialEq, Eq, Structural, Clone, Copy, Debug)]
pub enum Realm {
    Shared,
    Server,
    Dev,
}

impl Realm {
    pub open spec fn spec_name(self) -> Seq<char> {
        match self {
            Realm::Shared => "shared"@,
            Realm::Server => "server"@,
            Realm::Dev => "dev"@,
        }
    }

    pub fn name(self) -> (r: &'static str)
        ensures
            r@ == self.spec_name(),
    {
        match self {
            Realm::Shared => "shared",
            Realm::Server => "server",
            Realm::Dev => "dev",
        }
    }
}

/// Where the packages of one kind are, and the folder in the project that holds them.
pub struct WallyRealm {
    pub realm: Realm,
    pub packages_dir: String,
    pub service: String,
    pub target_name: String,
    /// It is an error when the packages are not there.
    pub required: bool,
}

#[verifier::ext_equal]
pub struct RealmModel {
    pub realm: Realm,
    pub packages_dir: Seq<char>,
    pub service: Seq<char>,
    pub target_name: Seq<char>,
    pub required: bool,
}

impl View for WallyRealm {
    type V = RealmModel;

    open spec fn view(&self) -> RealmModel {
        RealmModel {
            realm: self.realm,
            packages_dir: self.packages_dir@,
            service: self.service@,
            target_name: self.target_name@,
            required: self.required,
        }
    }
}

pub open spec fn realms_of(v: Seq<WallyRealm>) -> Seq<RealmModel> {
    Seq::new(v.len(), |i: int| v[i]@)
}

/// What is given for one kind of packages.
pub struct RealmOptions {
    pub packages_dir: String,
    pub service: String,
    /// The service, without white space round it, can be the name of a file.
    pub service_valid: bool,
    pub target_name: String,
    /// The folder's name, without white space round it, can be the name of a file.
    pub target_valid: bool,
}

/// Why packages can not be synced.
#[derive(PartialEq, Eq, Structural, Clone, Copy, Debug)]
pub enum WallyError {
    /// A realm that is not known was asked for.
    UnknownRealm,
    /// The service of a realm has no name.
    EmptyService { realm: Realm },
    /// The service of a realm has a name that no file can have.
    InvalidService { realm: Realm },
    /// The folder of a realm has no name.
    EmptyTarget { realm: Realm },
    /// The folder of a realm has a name that no file can have.
    InvalidTarget { realm: Realm },
    /// No realm was asked for.
    NoRealms,
    /// Two targets overlap; realms come first, then the targets of links in order.
    Overlap { left: usize, right: usize },
    /// Two sources stand for one instance of different classes.
    ClassConflict { first: usize, second: usize },
    /// A source lies outside the realm's folder.
    OutsideTarget { source: usize },
    /// What the folder's name names is not a folder.
    NotAFolder,
    /// The packages are not there and may not be installed.
    NotInstalled,
    /// There is nowhere to keep the packages.
    NoOwner,
    /// There is no settings file to keep them in.
    NoSettings,
}

/// The realms that a list asks for.
pub open spec fn wants(list: Seq<char>, name: Seq<char>) -> bool {
    exists|i: int|
        0 <= i < pieces(list, ',').len() && ascii_lower(trimmed(#[trigger] pieces(list, ',')[i])) == name && name.len()
            > 0
}

/// A list asks for no realm that is not known.
pub open spec fn realms_known(list: Seq<char>) -> bool {
    forall|i: int|
        0 <= i < pieces(list, ',').len() ==> ({
            let name = ascii_lower(trimmed(#[trigger] pieces(list, ',')[i]));
            name.len() == 0 || name == "shared"@ || name == "server"@ || name == "dev"@
        })
}

/// One kind of packages with trimmed names, or why it has none.
pub open spec fn realm_from(realm: Realm, options: RealmOptions) -> Result<RealmModel, WallyError> {
    let service = trimmed(options.service@);
    let target_name = trimmed(options.target_name@);
    if service.len() == 0 {
        Err(WallyError::EmptyService { realm })
    } else if !options.service_valid {
        Err(WallyError::InvalidService { realm })
    } else if target_name.len() == 0 {
        Err(WallyError::EmptyTarget { realm })
    } else if !options.target_valid {
        Err(WallyError::InvalidTarget { realm })
    } else {
        Ok(
            RealmModel {
                realm,
                packages_dir: options.packages_dir@,
                service,
                target_name,
                required: realm == Realm::Shared,
            },
        )
    }
}

/// Some realms with one more, where it is wanted.
pub open spec fn realms_with(
    before: Result<Seq<RealmModel>, WallyError>,
    wanted: bool,
    realm: Realm,
    options: RealmOptions,
) -> Result<Seq<RealmModel>, WallyError> {
    match before {
        Err(e) => Err(e),
        Ok(list) => if !wanted {
            Ok(list)
        } else {
            match realm_from(realm, options) {
                Ok(one) => Ok(list.push(one)),
                Err(e) => Err(e),
            }
        },
    }
}

/// The realms that a list asks for, shared first, then server, then dev.
pub open spec fn wanted_realms(list: Seq<char>, shared: RealmOptions, server: RealmOptions, dev: RealmOptions) -> Result<
    Seq<RealmModel>,
    WallyError,
> {
    if !realms_known(list) {
        Err(WallyError::UnknownRealm)
    } else {
        realms_with(
            realms_with(
                realms_with(
                    Ok(Seq::empty()),
                    wants(list, "shared"@),
                    Realm::Shared,
                    shared,
                ),
                wants(list, "server"@),
                Realm::Server,
                server,
            ),
            wants(list, "dev"@),
            Realm::Dev,
            dev,
        )
    }
}

pub open spec fn realms_result(r: Result<Vec<WallyRealm>, WallyError>) -> Result<Seq<RealmModel>, WallyError> {
    match r {
        Ok(v) => Ok(realms_of(v@)),
        Err(e) => Err(e),
    }
}

fn make_realm(realm: Realm, options: &RealmOptions) -> (r: Result<WallyRealm, WallyError>)
    ensures
        match r {
            Ok(one) => realm_from(realm, *options) == Ok::<RealmModel, WallyError>(one@),
            Err(e) => realm_from(realm, *options) == Err::<RealmModel, WallyError>(e),
        },
{
    let service = trim(&options.service);
    if service.as_str().is_empty() {
        return Err(WallyError::EmptyService { realm });
    }
    if !options.service_valid {
        return Err(WallyError::InvalidService { realm });
    }
    let target_name = trim(&options.target_name);
    if target_name.as_str().is_empty() {
        return Err(WallyError::EmptyTarget { realm });
    }
    if !options.target_valid {
        return Err(WallyError::InvalidTarget { realm });
    }
    let required = match realm {
        Realm::Shared => true,
        _ => false,
    };
    Ok(WallyRealm { realm, packages_dir: options.packages_dir.clone(), service, target_name, required })
}

/// The realms that a list asks for. Names are taken without white space round them and without regard
/// to case.
pub fn build_wally_realms(list: &str, shared: &RealmOptions, server: &RealmOptions, dev: &RealmOptions) -> (r: Result<
    Vec<WallyRealm>,
    WallyError,
>)
    ensures
        realms_result(r) == wanted_realms(list@, *shared, *server, *dev),
{
    proof {
        reveal_strlit("shared");
        reveal_strlit("server");
        reveal_strlit("dev");
    }
    let parts = split_at_char(list, ',');
    let ghost all = pieces(list@, ',');
    let mut want_shared = false;
    let mut want_server = false;
    let mut want_dev = false;
    let mut i: usize = 0;
    while i < parts.len()
        invariant
            i <= parts.len(),
            all == pieces(list@, ','),
            texts(parts@) == all,
            "shared"@.len() > 0 && "server"@.len() > 0 && "dev"@.len() > 0,
            want_shared == (exists|j: int| 0 <= j < i && ascii_lower(trimmed(#[trigger] all[j])) == "shared"@),
            want_server == (exists|j: int| 0 <= j < i && ascii_lower(trimmed(#[trigger] all[j])) == "server"@),
            want_dev == (exists|j: int| 0 <= j < i && ascii_lower(trimmed(#[trigger] all[j])) == "dev"@),
            forall|j: int|
                0 <= j < i ==> ({
                    let name = ascii_lower(trimmed(#[trigger] all[j]));
                    name.len() == 0 || name == "shared"@ || name == "server"@ || name == "dev"@
                }),
        decreases parts.len() - i,
    {
        let part = trim(&parts[i]);
        let name = to_ascii_lower(&part);
        assert(name@ == ascii_lower(trimmed(all[i as int])));
        let is_shared = same(&name, "shared");
        let is_server = same(&name, "server");
        let is_dev = same(&name, "dev");
        if !is_shared && !is_server && !is_dev && !name.as_str().is_empty() {
            return Err(WallyError::UnknownRealm);
        }
        want_shared = want_shared || is_shared;
        want_server = want_server || is_server;
        want_dev = want_dev || is_dev;
        i += 1;
    }
    let mut realms: Vec<WallyRealm> = Vec::new();
    assert(realms_of(realms@) =~= Seq::empty());
    if want_shared {
        match make_realm(Realm::Shared, shared) {
            Ok(one) => {
                assert(realms_of(realms@.push(one)) =~= realms_of(realms@).push(one@));
                realms.push(one);
            },
            Err(e) => {
                return Err(e);
            },
        }
    }
    if want_server {
        match make_realm(Realm::Server, server) {
            Ok(one) => {
                assert(realms_of(realms@.push(one)) =~= realms_of(realms@).push(one@));
                realms.push(one);
            },
            Err(e) => {
                return Err(e);
            },
        }
    }
    if want_dev {
        match make_realm(Realm::Dev, dev) {
            Ok(one) => {
                assert(realms_of(realms@.push(one)) =~= realms_of(realms@).push(one@));
                realms.push(one);
            },
            Err(e) => {
                return Err(e);
            },
        }
    }
    Ok(realms)
}

/// The target of a realm.
pub open spec fn realm_ref(realm: RealmModel) -> RefModel {
    RefModel { service: realm.service, path: seq![realm.service, realm.target_name], ords: Seq::empty() }
}

/// The target of a realm.
pub fn wally_realm_target(realm: &WallyRealm) -> (r: LinkTargetRef)
    ensures
        r@ == realm_ref(realm@),
{
    let mut path: Vec<String> = Vec::new();
    path.push(realm.service.clone());
    path.push(realm.target_name.clone());
    assert(texts(path@) =~= seq![realm.service@, realm.target_name@]);
    let ords: Vec<usize> = Vec::new();
    LinkTargetRef { service: realm.service.clone(), path, ords }
}

/// The first `n` links' targets that follow them.
pub open spec fn active_of_links(m: ManifestModel, n: nat) -> Seq<RefModel>
    decreases n,
{
    if n == 0 {
        Seq::empty()
    } else {
        active_of_links(m, (n - 1) as nat) + refs_without(m.links[n - 1].targets, keys_in(m.broken))
    }
}

/// The targets of some realms, then those that follow the links.
pub open spec fn synced_targets(realms: Seq<RealmModel>, m: ManifestModel) -> Seq<RefModel> {
    Seq::new(realms.len(), |i: int| realm_ref(realms[i])) + active_of_links(m, m.links.len())
}

/// Two targets overlap: one covers the other.
pub open spec fn overlaps(a: TargetModel, b: TargetModel) -> bool {
    covers(a, b) || covers(b, a)
}

/// Whether targets overlap does not depend on which comes first.
pub proof fn law_overlap_is_symmetric(a: TargetModel, b: TargetModel)
    ensures
        overlaps(a, b) == overlaps(b, a),
{
}

/// A target overlaps itself.
pub proof fn law_overlap_is_reflexive(a: TargetModel)
    ensures
        overlaps(a, a),
{
    assert(a.segments.subrange(0, a.segments.len() as int) =~= a.segments);
    assert(a.ordinals.subrange(0, a.ordinals.len() as int) =~= a.ordinals);
}

/// `left` and `right` are the first two of some targets that overlap.
pub open spec fn first_overlapping(targets: Seq<RefModel>, left: int, right: int) -> bool {
    &&& 0 <= left < right < targets.len()
    &&& overlaps(targets[left].key(), targets[right].key())
    &&& forall|i: int, j: int|
        0 <= i < j < targets.len() && (i < left || (i == left && j < right)) ==> !overlaps(
            (#[trigger] targets[i]).key(),
            (#[trigger] targets[j]).key(),
        )
}

fn do_overlap(a: &TargetKey, b: &TargetKey) -> (r: bool)
    ensures
        r == overlaps(a@, b@),
{
    same(&a.service, &b.service) && (selector_starts_with(&a.segments, &a.ordinals, &b.segments, &b.ordinals)
        || selector_starts_with(&b.segments, &b.ordinals, &a.segments, &a.ordinals))
}

/// Checks that no two realms or targets of links overlap.
pub fn validate_wally_target_overlaps(realms: &Vec<WallyRealm>, manifest: &LinkManifest) -> (r: Result<(), WallyError>)
    ensures
        match r {
            Ok(()) => forall|i: int, j: int|
                0 <= i < j < synced_targets(realms_of(realms@), manifest@).len() ==> !overlaps(
                    (#[trigger] synced_targets(realms_of(realms@), manifest@)[i]).key(),
                    (#[trigger] synced_targets(realms_of(realms@), manifest@)[j]).key(),
                ),
            Err(WallyError::Overlap { left, right }) => first_overlapping(
                synced_targets(realms_of(realms@), manifest@),
                left as int,
                right as int,
            ),
            Err(_) => false,
        },
{
    let ghost all = synced_targets(realms_of(realms@), manifest@);
    let ghost first = Seq::new(realms@.len(), |i: int| realm_ref(realms_of(realms@)[i]));
    let mut targets: Vec<LinkTargetRef> = Vec::new();
    let mut i: usize = 0;
    while i < realms.len()
        invariant
            i <= realms.len(),
            first == Seq::new(realms@.len(), |i: int| realm_ref(realms_of(realms@)[i])),
            refs(targets@) == first.take(i as int),
        decreases realms.len() - i,
    {
        let t = wally_realm_target(&realms[i]);
        assert(refs(targets@.push(t)) =~= refs(targets@).push(t@));
        assert(first.take(i + 1) =~= first.take(i as int).push(t@));
        targets.push(t);
        i += 1;
    }
    assert(first.take(i as int) =~= first);
    let broken = ref_keys(&manifest.broken);
    let mut l: usize = 0;
    assert(first + active_of_links(manifest@, 0) =~= first);
    while l < manifest.links.len()
        invariant
            l <= manifest.links.len(),
            keys_of_broken(broken@, manifest@),
            refs(targets@) == first + active_of_links(manifest@, l as nat),
        decreases manifest.links.len() - l,
    {
        let mut active = retain_refs(&manifest.links[l].targets, &broken);
        let ghost a = targets@;
        let ghost b = active@;
        assert(manifest@.links[l as int].targets == refs(manifest.links@[l as int].targets@));
        targets.append(&mut active);
        assert(refs(a + b) =~= refs(a) + refs(b));
        assert(refs(targets@) =~= first + active_of_links(manifest@, (l + 1) as nat));
        l += 1;
    }
    assert(refs(targets@) =~= all);
    let keys = ref_keys(&targets);
    let ghost models = crate::links::keys_of(keys@);
    assert(models.len() == all.len());
    assert forall|k: int| 0 <= k < all.len() implies #[trigger] models[k] == all[k].key() by {}
    let mut left: usize = 0;
    while left < keys.len()
        invariant
            left <= keys.len() == all.len(),
            all == synced_targets(realms_of(realms@), manifest@),
            models == crate::links::keys_of(keys@),
            forall|k: int| 0 <= k < all.len() ==> #[trigger] models[k] == all[k].key(),
            forall|i: int, j: int|
                0 <= i < j < all.len() && i < left ==> !overlaps((#[trigger] all[i]).key(), (#[trigger] all[j]).key()),
        decreases keys.len() - left,
    {
        let mut right: usize = left + 1;
        while right < keys.len()
            invariant
                left < right <= keys.len() == all.len(),
                all == synced_targets(realms_of(realms@), manifest@),
                models == crate::links::keys_of(keys@),
                forall|k: int| 0 <= k < all.len() ==> #[trigger] models[k] == all[k].key(),
                forall|i: int, j: int|
                    0 <= i < j < all.len() && (i < left || (i == left && j < right)) ==> !overlaps(
                        (#[trigger] all[i]).key(),
                        (#[trigger] all[j]).key(),
                    ),
            decreases keys.len() - right,
        {
            assert(models[left as int] == keys@[left as int]@ && models[right as int] == keys@[right as int]@);
            if do_overlap(&keys[left], &keys[right]) {
                return Err(WallyError::Overlap { left, right });
            }
            right += 1;
        }
        left += 1;
    }
    Ok(())
}

spec fn keys_of_broken(broken: Seq<TargetKey>, m: ManifestModel) -> bool {
    crate::links::keys_of(broken) == keys_in(m.broken)
}

/// The lowest `k` bytes of a number, lowest first.
pub open spec fn low_bytes(n: nat, k: nat) -> Seq<u8>
    decreases k,
{
    if k == 0 {
        Seq::empty()
    } else {
        seq![(n % 256) as u8] + low_bytes(n / 256, (k - 1) as nat)
    }
}

/// The eight bytes of a number, lowest first.
pub open spec fn le_bytes(n: u64) -> Seq<u8> {
    low_bytes(n as nat, 8)
}

proof fn lemma_low_bytes_len(n: nat, k: nat)
    ensures
        low_bytes(n, k).len() == k,
    decreases k,
{
    if k > 0 {
        lemma_low_bytes_len(n / 256, (k - 1) as nat);
    }
}

/// What the state of an installation is hashed from: each file with its length before it.
pub open spec fn framed_inputs(manifest: Seq<u8>, lock: Seq<u8>) -> Seq<u8> {
    le_bytes(manifest.len() as u64) + manifest + le_bytes(lock.len() as u64) + lock
}

fn push_le_bytes(out: &mut Vec<u8>, n: u64)
    ensures
        final(out)@ == old(out)@ + le_bytes(n),
{
    let ghost start = out@;
    let mut rest: u64 = n;
    let mut k: usize = 0;
    assert(start + low_bytes(n as nat, 8) =~= out@ + low_bytes(rest as nat, 8));
    while k < 8
        invariant
            k <= 8,
            start + low_bytes(n as nat, 8) == out@ + low_bytes(rest as nat, (8 - k) as nat),
        decreases 8 - k,
    {
        let ghost before = out@;
        let ghost tail = low_bytes(rest as nat / 256, (7 - k) as nat);
        out.push((rest % 256) as u8);
        assert(before + (seq![(rest % 256) as u8] + tail) =~= out@ + tail);
        rest = rest / 256;
        k += 1;
    }
    assert(out@ + low_bytes(rest as nat, 0) =~= out@);
}

fn push_bytes(out: &mut Vec<u8>, more: &Vec<u8>)
    ensures
        final(out)@ == old(out)@ + more@,
{
    let ghost start = out@;
    let mut i: usize = 0;
    assert(start + more@.take(0) =~= start);
    while i < more.len()
        invariant
            i <= more.len(),
            out@ == start + more@.take(i as int),
        decreases more.len() - i,
    {
        out.push(more[i]);
        assert(start + more@.take(i + 1) =~= (start + more@.take(i as int)).push(more@[i as int]));
        i += 1;
    }
    assert(more@.take(i as int) =~= more@);
}

/// Puts the Wally manifest and lockfile into one run of bytes, each with its length before it.
pub fn wally_inputs(manifest: &Vec<u8>, lock: &Vec<u8>) -> (r: Vec<u8>)
    ensures
        r@ == framed_inputs(manifest@, lock@),
{
    let mut out: Vec<u8> = Vec::new();
    push_le_bytes(&mut out, manifest.len() as u64);
    push_bytes(&mut out, manifest);
    push_le_bytes(&mut out, lock.len() as u64);
    push_bytes(&mut out, lock);
    assert(out@ =~= framed_inputs(manifest@, lock@));
    out
}

spec fn power_256(k: nat) -> nat
    decreases k,
{
    if k == 0 {
        1
    } else {
        256 * power_256((k - 1) as nat)
    }
}

proof fn lemma_low_bytes(a: nat, b: nat, k: nat)
    requires
        a < power_256(k),
        b < power_256(k),
        low_bytes(a, k) == low_bytes(b, k),
    ensures
        a == b,
    decreases k,
{
    if k > 0 {
        let x = low_bytes(a / 256, (k - 1) as nat);
        let y = low_bytes(b / 256, (k - 1) as nat);
        assert(low_bytes(a, k)[0] == (a % 256) as u8 && low_bytes(b, k)[0] == (b % 256) as u8);
        assert(low_bytes(a, k).skip(1) =~= x);
        assert(low_bytes(b, k).skip(1) =~= y);
        lemma_low_bytes(a / 256, b / 256, (k - 1) as nat);
    }
}

proof fn lemma_le_bytes(a: u64, b: u64)
    requires
        le_bytes(a) == le_bytes(b),
    ensures
        a == b,
{
    reveal_with_fuel(power_256, 9);
    lemma_low_bytes(a as nat, b as nat, 8);
}

/// Different installations are hashed from different bytes.
pub proof fn law_framing_is_injective(m1: Seq<u8>, l1: Seq<u8>, m2: Seq<u8>, l2: Seq<u8>)
    requires
        m1.len() <= u64::MAX,
        l1.len() <= u64::MAX,
        m2.len() <= u64::MAX,
        l2.len() <= u64::MAX,
        framed_inputs(m1, l1) == framed_inputs(m2, l2),
    ensures
        m1 == m2,
        l1 == l2,
{
    lemma_low_bytes_len(m1.len(), 8);
    lemma_low_bytes_len(m2.len(), 8);
    lemma_low_bytes_len(l1.len(), 8);
    lemma_low_bytes_len(l2.len(), 8);
    let f1 = framed_inputs(m1, l1);
    let f2 = framed_inputs(m2, l2);
    assert(f1.take(8) =~= le_bytes(m1.len() as u64));
    assert(f2.take(8) =~= le_bytes(m2.len() as u64));
    lemma_le_bytes(m1.len() as u64, m2.len() as u64);
    let n = m1.len() as int;
    assert(f1.subrange(8, 8 + n) =~= m1);
    assert(f2.subrange(8, 8 + n) =~= m2);
    assert(f1.skip(16 + n) =~= l1);
    assert(f2.skip(16 + n) =~= l2);
}

} // verus!
