//! Keeping linked files as their links have them when files change.
use vstd::prelude::*;

use crate::link_apply::value_of;
use crate::paths::{joined_path, path_views, FilePath, PathParts};
use crate::table::Table;

verus! {

broadcast use vstd::seq_lib::group_seq_properties;

/// The file that a linked file is a mirror of.
pub struct CanonicalFile {
    pub path: FilePath,
    /// The mirror may not be edited.
    pub read_only: bool,
}

#[verifier::ext_equal]
pub struct CanonicalModel {
    pub path: PathParts,
    pub read_only: bool,
}

impl View for CanonicalFile {
    type V = CanonicalModel;

    open spec fn view(&self) -> CanonicalModel {
        CanonicalModel { path: self.path@, read_only: self.read_only }
    }
}

/// The mirrors of a file.
pub struct Mirrors {
    pub paths: Vec<FilePath>,
}

impl View for Mirrors {
    type V = Seq<PathParts>;

    open spec fn view(&self) -> Seq<PathParts> {
        path_views(self.paths@)
    }
}

/// Which files are linked to which.
pub struct LinkEnforcement {
    pub active: bool,
    pub mirror_to_canonical: Table<FilePath, CanonicalFile>,
    pub canonical_to_mirrors: Table<FilePath, Mirrors>,
}

/// A file that takes the content of another.
pub struct FileCopy {
    pub from: FilePath,
    pub to: FilePath,
}

#[verifier::ext_equal]
pub struct CopyModel {
    pub from: PathParts,
    pub to: PathParts,
}

impl View for FileCopy {
    type V = CopyModel;

    open spec fn view(&self) -> CopyModel {
        CopyModel { from: self.from@, to: self.to@ }
    }
}

pub open spec fn copy_views(v: Seq<FileCopy>) -> Seq<CopyModel> {
    Seq::new(v.len(), |i: int| v[i]@)
}

/// The mirrors of a file.
pub open spec fn mirrors_of(e: LinkEnforcement, path: PathParts) -> Seq<PathParts> {
    if e.active {
        match value_of(e.canonical_to_mirrors@, path) {
            Some(list) => list,
            None => Seq::empty(),
        }
    } else {
        Seq::empty()
    }
}

/// What puts a mirror that may not be edited back.
pub open spec fn reverted(e: LinkEnforcement, path: PathParts) -> Seq<CopyModel> {
    match value_of(e.mirror_to_canonical@, path) {
        Some(canonical) => if e.active && canonical.read_only {
            seq![CopyModel { from: canonical.path, to: path }]
        } else {
            Seq::empty()
        },
        None => Seq::empty(),
    }
}

/// What a change of a file makes of its mirrors.
pub open spec fn fanned_out(e: LinkEnforcement, path: PathParts) -> Seq<CopyModel> {
    Seq::new(mirrors_of(e, path).len(), |i: int| CopyModel { from: path, to: mirrors_of(e, path)[i] })
}

/// The copies after the first `n` changes.
pub open spec fn enforced_copies(e: LinkEnforcement, root: PathParts, changed: Seq<PathParts>, n: nat) -> Seq<CopyModel>
    decreases n,
{
    if n == 0 {
        Seq::empty()
    } else {
        let path = joined_path(root, changed[n - 1]);
        enforced_copies(e, root, changed, (n - 1) as nat) + reverted(e, path) + fanned_out(e, path)
    }
}

/// The paths that changed after the first `n` changes: each, and then its mirrors.
pub open spec fn enforced_paths(e: LinkEnforcement, root: PathParts, changed: Seq<PathParts>, n: nat) -> Seq<PathParts>
    decreases n,
{
    if n == 0 {
        Seq::empty()
    } else {
        enforced_paths(e, root, changed, (n - 1) as nat).push(changed[n - 1]) + mirrors_of(e, joined_path(root, changed[n - 1]))
    }
}

/// What follows from a change of some files.
pub struct EnforcementPlan {
    /// The copies to make, in order.
    pub copies: Vec<FileCopy>,
    /// The paths that are then changed.
    pub paths: Vec<FilePath>,
}

fn push_copy(list: &mut Vec<FileCopy>, x: FileCopy)
    ensures
        copy_views(final(list)@) == copy_views(old(list)@).push(x@),
{
    let ghost before = list@;
    list.push(x);
    assert(copy_views(list@) =~= copy_views(before).push(x@));
}

fn push_changed(list: &mut Vec<FilePath>, x: FilePath)
    ensures
        path_views(final(list)@) == path_views(old(list)@).push(x@),
{
    let ghost before = list@;
    list.push(x);
    assert(path_views(list@) =~= path_views(before).push(x@));
}

/// Plans what follows from a change of some files: a mirror that may not be edited is put back, and the
/// mirrors of a file take its content.
pub fn apply_link_enforcement_to_changed_paths(root: &FilePath, enforcement: &LinkEnforcement, changed: &Vec<FilePath>) -> (r:
    EnforcementPlan)
    ensures
        copy_views(r.copies@) == enforced_copies(*enforcement, root@, path_views(changed@), changed@.len()),
        path_views(r.paths@) == enforced_paths(*enforcement, root@, path_views(changed@), changed@.len()),
{
    let ghost e = *enforcement;
    let ghost all = path_views(changed@);
    let mut copies: Vec<FileCopy> = Vec::new();
    let mut paths: Vec<FilePath> = Vec::new();
    assert(copy_views(copies@) =~= Seq::empty());
    assert(path_views(paths@) =~= Seq::empty());
    let mut i: usize = 0;
    while i < changed.len()
        invariant
            i <= changed.len(),
            e == *enforcement,
            all == path_views(changed@),
            copy_views(copies@) == enforced_copies(e, root@, all, i as nat),
            path_views(paths@) == enforced_paths(e, root@, all, i as nat),
        decreases changed.len() - i,
    {
        assert(all[i as int] == changed@[i as int]@);
        let path = root.join(&changed[i]);
        let ghost before = copy_views(copies@);
        push_changed(&mut paths, changed[i].copy());
        match enforcement.mirror_to_canonical.get(&path) {
            Some(canonical) => {
                if enforcement.active && canonical.read_only {
                    let step = FileCopy { from: canonical.path.copy(), to: path.copy() };
                    assert(before.push(step@) =~= before + reverted(e, path@));
                    push_copy(&mut copies, step);
                }
            },
            None => {},
        }
        assert(copy_views(copies@) =~= before + reverted(e, path@));
        let ghost put_back = copy_views(copies@);
        let ghost named = path_views(paths@);
        let ghost out = fanned_out(e, path@);
        let ghost mirrors = mirrors_of(e, path@);
        if enforcement.active {
            match enforcement.canonical_to_mirrors.get(&path) {
                Some(list) => {
                    assert(mirrors == list@);
                    let mut k: usize = 0;
                    assert(put_back + out.take(0) =~= put_back);
                    assert(named + mirrors.take(0) =~= named);
                    while k < list.paths.len()
                        invariant
                            k <= list.paths@.len(),
                            mirrors == path_views(list.paths@),
                            mirrors == mirrors_of(e, path@),
                            out == fanned_out(e, path@),
                            copy_views(copies@) == put_back + out.take(k as int),
                            path_views(paths@) == named + mirrors.take(k as int),
                        decreases list.paths@.len() - k,
                    {
                        assert(mirrors[k as int] == list.paths@[k as int]@);
                        let step = FileCopy { from: path.copy(), to: list.paths[k].copy() };
                        assert(step@ =~= out[k as int]);
                        assert((put_back + out.take(k as int)).push(step@) =~= put_back + out.take(k + 1));
                        assert((named + mirrors.take(k as int)).push(mirrors[k as int]) =~= named + mirrors.take(k + 1));
                        push_copy(&mut copies, step);
                        push_changed(&mut paths, list.paths[k].copy());
                        k += 1;
                    }
                    assert(out.take(k as int) =~= out);
                    assert(mirrors.take(k as int) =~= mirrors);
                },
                None => {
                    assert(put_back + out =~= put_back);
                    assert(named + mirrors =~= named);
                },
            }
        } else {
            assert(put_back + out =~= put_back);
            assert(named + mirrors =~= named);
        }
        i += 1;
    }
    EnforcementPlan { copies, paths }
}

/// What changed is among the paths that are changed in the end.
pub proof fn law_changes_are_kept(e: LinkEnforcement, root: PathParts, changed: Seq<PathParts>, n: nat, i: int)
    requires
        0 <= i < n <= changed.len(),
    ensures
        enforced_paths(e, root, changed, n).contains(changed[i]),
    decreases n,
{
    let before = enforced_paths(e, root, changed, (n - 1) as nat).push(changed[n - 1]);
    let mirrors = mirrors_of(e, joined_path(root, changed[n - 1]));
    if i < n - 1 {
        law_changes_are_kept(e, root, changed, (n - 1) as nat, i);
        let inner = enforced_paths(e, root, changed, (n - 1) as nat);
        let j = choose|j: int| 0 <= j < inner.len() && inner[j] == changed[i];
        assert((before + mirrors)[j] == changed[i]);
    } else {
        assert((before + mirrors)[before.len() - 1] == changed[i]);
    }
}

/// Without links nothing is copied.
pub proof fn law_inactive_links_copy_nothing(e: LinkEnforcement, root: PathParts, changed: Seq<PathParts>, n: nat)
    requires
        !e.active,
        n <= changed.len(),
    ensures
        enforced_copies(e, root, changed, n) == Seq::<CopyModel>::empty(),
        enforced_paths(e, root, changed, n) == changed.take(n as int),
    decreases n,
{
    if n > 0 {
        law_inactive_links_copy_nothing(e, root, changed, (n - 1) as nat);
        let path = joined_path(root, changed[n - 1]);
        assert(fanned_out(e, path) =~= Seq::empty());
        assert(reverted(e, path) =~= Seq::empty());
        assert(enforced_copies(e, root, changed, n) =~= Seq::empty());
        assert(changed.take(n as int) =~= changed.take(n - 1).push(changed[n - 1]));
        assert(enforced_paths(e, root, changed, n) =~= changed.take(n as int));
    } else {
        assert(enforced_paths(e, root, changed, n) =~= changed.take(0));
    }
}

} // verus!
