//! How many instances the sources of links stand for.
use vstd::prelude::*;

use crate::links::LinkManifest;
use crate::order::Ordered;
use crate::sources::{is_linked_instance, key_paths, link_target_source_instances};
use crate::table::key_views;
use crate::text::{same, texts};
use crate::wally_sync::PathKey;

verus! {

broadcast use vstd::seq_lib::group_seq_properties;

/// What was read of the source of a link.
#[derive(Clone, Copy, Debug, PartialEq, Eq)]
pub enum SourceKind {
    /// There is no source.
    Absent,
    /// The source is made of files.
    Files,
    /// The source is a package with some instances.
    Package(usize),
}

/// What is known of the sources of a target of a link.
pub struct TargetSources {
    pub link_id: String,
    pub kind: SourceKind,
    /// The path of the target from its service on, where it is known where the target is kept.
    pub target: Option<Vec<String>>,
    /// The paths of the instances that its files stand for.
    pub specs: Vec<PathKey>,
}

/// The instances that the files of a target make at or below it.
pub open spec fn linked_instances(t: TargetSources) -> Set<Seq<Seq<char>>> {
    match t.target {
        None => Set::empty(),
        Some(target) => Set::new(
            |p: Seq<Seq<char>>| is_linked_instance(texts(target@), key_paths(t.specs@), p, t.specs@.len()),
        ),
    }
}

/// The most instances that the files of one of the first `n` targets of a link make.
pub open spec fn most_instances(all: Seq<TargetSources>, id: Seq<char>, n: nat) -> nat
    decreases n,
{
    if n == 0 {
        0
    } else {
        let before = most_instances(all, id, (n - 1) as nat);
        if all[n - 1].link_id@ == id && linked_instances(all[n - 1]).len() > before {
            linked_instances(all[n - 1]).len()
        } else {
            before
        }
    }
}

/// What the first target, from `i` on, of a link with a source read of it.
pub open spec fn first_kind(all: Seq<TargetSources>, id: Seq<char>, i: int) -> SourceKind
    decreases all.len() - i,
{
    if i < 0 || i >= all.len() {
        SourceKind::Absent
    } else if all[i].link_id@ == id && all[i].kind != SourceKind::Absent {
        all[i].kind
    } else {
        first_kind(all, id, i + 1)
    }
}

/// The instances that a link stands for: those of its package, or the most of any of its targets.
pub open spec fn link_instances(all: Seq<TargetSources>, id: Seq<char>) -> nat {
    match first_kind(all, id, 0) {
        SourceKind::Package(n) => n as nat,
        _ => most_instances(all, id, all.len()),
    }
}

/// The instances that a target stands for: those of the package of its link, or its own.
pub open spec fn target_instances(all: Seq<TargetSources>, t: TargetSources) -> nat {
    match first_kind(all, t.link_id@, 0) {
        SourceKind::Package(n) => n as nat,
        _ => linked_instances(t).len(),
    }
}

/// How many instances the files of a target make at or below it.
pub fn link_target_source_instance_count(t: &TargetSources) -> (r: usize)
    ensures
        r == linked_instances(*t).len(),
{
    match &t.target {
        None => 0,
        Some(target) => {
            let found = link_target_source_instances(target, &t.specs);
            proof {
                let v = key_views(found@);
                assert forall|i: int, j: int| 0 <= i < j < v.len() implies v[i] != v[j] by {
                    PathKey::lemma_total(v[i], v[j]);
                }
                assert(v.no_duplicates());
                v.unique_seq_to_set();
                assert(v.to_set() =~= linked_instances(*t));
            }
            found.len()
        },
    }
}

fn kind_of_link(all: &Vec<TargetSources>, id: &str) -> (r: SourceKind)
    ensures
        r == first_kind(all@, id@, 0),
{
    let mut i: usize = 0;
    while i < all.len()
        invariant
            i <= all.len(),
            first_kind(all@, id@, 0) == first_kind(all@, id@, i as int),
        decreases all.len() - i,
    {
        if same(&all[i].link_id, id) {
            match all[i].kind {
                SourceKind::Absent => {},
                _ => {
                    return all[i].kind;
                },
            }
        }
        i += 1;
    }
    SourceKind::Absent
}

/// The instances that the links of a project stand for.
pub struct SourceCounts {
    /// For each link of the manifest.
    pub links: Vec<usize>,
    /// For each target.
    pub targets: Vec<usize>,
}

/// Counts the instances that each link and each target stands for.
pub fn count_sources(manifest: &LinkManifest, all: &Vec<TargetSources>) -> (r: SourceCounts)
    ensures
        r.links@.len() == manifest@.links.len(),
        forall|l: int|
            0 <= l < manifest@.links.len() ==> #[trigger] r.links@[l] == link_instances(all@, manifest@.links[l].id),
        r.targets@.len() == all@.len(),
        forall|i: int| 0 <= i < all@.len() ==> #[trigger] r.targets@[i] == target_instances(all@, all@[i]),
{
    let mut own: Vec<usize> = Vec::new();
    let mut targets: Vec<usize> = Vec::new();
    let mut i: usize = 0;
    while i < all.len()
        invariant
            i <= all.len(),
            own@.len() == i,
            targets@.len() == i,
            forall|j: int| 0 <= j < i ==> #[trigger] own@[j] == linked_instances(all@[j]).len(),
            forall|j: int| 0 <= j < i ==> #[trigger] targets@[j] == target_instances(all@, all@[j]),
        decreases all.len() - i,
    {
        let count = link_target_source_instance_count(&all[i]);
        own.push(count);
        let shown = match kind_of_link(all, &all[i].link_id) {
            SourceKind::Package(n) => n,
            _ => count,
        };
        targets.push(shown);
        i += 1;
    }
    let mut links: Vec<usize> = Vec::new();
    let mut l: usize = 0;
    while l < manifest.links.len()
        invariant
            l <= manifest.links.len(),
            own@.len() == all@.len(),
            forall|j: int| 0 <= j < all@.len() ==> #[trigger] own@[j] == linked_instances(all@[j]).len(),
            links@.len() == l,
            forall|j: int| 0 <= j < l ==> #[trigger] links@[j] == link_instances(all@, manifest@.links[j].id),
        decreases manifest.links.len() - l,
    {
        let id = &manifest.links[l].id;
        let mut most: usize = 0;
        let mut k: usize = 0;
        while k < all.len()
            invariant
                k <= all.len(),
                own@.len() == all@.len(),
                forall|j: int| 0 <= j < all@.len() ==> #[trigger] own@[j] == linked_instances(all@[j]).len(),
                most == most_instances(all@, id@, k as nat),
            decreases all.len() - k,
        {
            if same(&all[k].link_id, id) && own[k] > most {
                most = own[k];
            }
            k += 1;
        }
        let shown = match kind_of_link(all, id) {
            SourceKind::Package(n) => n,
            _ => most,
        };
        links.push(shown);
        l += 1;
    }
    SourceCounts { links, targets }
}

} // verus!
