//! What applying the links of a project does.
use vstd::prelude::*;

use crate::link_apply::{ApplyMode, PackageStep, decided, value_of};
use crate::link_mirror::{MirrorModel, mirror_deleted, mirrored};
use crate::link_run::{OutcomeModel, RunError, RunModel, RunOptions, TargetInput, run_over, target_applied};
use crate::links::{RefModel, opt_text, refs, targets_hold};

verus! {

/// What the lock keeps of the mirrors of a target.
pub open spec fn kept_files(s: RunModel, id: Seq<char>, target: RefModel) -> Map<Seq<char>, Seq<char>> {
    if s.lock.dom().contains(id) && s.lock[id].targets.dom().contains(target.key()) {
        s.lock[id].targets[target.key()].files
    } else {
        Map::empty()
    }
}

/// How a target is applied: what the run was asked to do, and whether the link may be changed.
pub open spec fn mode_of(input: TargetInput, o: RunOptions) -> ApplyMode {
    ApplyMode {
        check: o.check,
        forced: o.force_all || targets_hold(refs(o.forced@), input.resolved.target@.key()),
        read_only: input.resolved.read_only,
    }
}

/// The links that are not the one of a target stay in the lock as they are.
pub open spec fn other_links_stay(before: RunModel, after: RunModel, id: Seq<char>) -> bool {
    forall|other: Seq<char>|
        other != id ==> #[trigger] after.lock.dom().contains(other) == before.lock.dom().contains(other) && (
        before.lock.dom().contains(other) ==> after.lock[other] == before.lock[other])
}

/// A broken target is passed over. One whose source can not be read is warned of, and stops the
/// run where nothing says where it is kept. A target that is not known to be kept anywhere stops
/// the run, and so does a package without a store.
pub proof fn law_targets_that_can_not_be_filled(s: RunModel, input: TargetInput, o: RunOptions)
    ensures
        ({
            let r = target_applied(s, input, o);
            let t = input.resolved;
            &&& t.broken ==> r == Ok::<(RunModel, OutcomeModel), RunError>((s, OutcomeModel::Skipped))
            &&& !t.broken && !t.resolved && !t.has_storage ==> r == Err::<(RunModel, OutcomeModel), RunError>(
                RunError::Unresolved,
            )
            &&& !t.broken && t.resolved && !t.has_storage ==> r == Err::<(RunModel, OutcomeModel), RunError>(
                RunError::NoStorage,
            )
            &&& !t.broken && !t.resolved && t.has_storage ==> {
                &&& r is Ok
                &&& r->Ok_0.1 == OutcomeModel::Warned
                &&& r->Ok_0.0.warnings == s.warnings.push(t.link_id@ + ": "@ + input.reason@)
                &&& r->Ok_0.0.manifest == s.manifest && r->Ok_0.0.lock == s.lock && r->Ok_0.0.changes == s.changes
                    && r->Ok_0.0.writes == s.writes && r->Ok_0.0.permissions == s.permissions
            }
            &&& !t.broken && t.resolved && t.has_storage && input.work@ is PackageWithoutStore ==> r == Err::<
                (RunModel, OutcomeModel),
                RunError,
            >(RunError::NoStore)
        }),
{
}

/// A target that mirrors files and was deleted is marked broken, unless nothing may be written. It
/// counts as a difference, and nothing is written.
pub proof fn law_deleted_mirrors_break_their_target(s: RunModel, input: TargetInput, o: RunOptions)
    requires
        !input.resolved.broken,
        input.resolved.resolved,
        input.resolved.has_storage,
        input.work@ is Mirror,
        mirror_deleted(
            input.work@->files,
            kept_files(s, input.resolved.link_id@, input.resolved.target@),
            input.work@->target_exists,
            o.force_all || targets_hold(refs(o.forced@), input.resolved.target@.key()),
        ),
    ensures
        ({
            let r = target_applied(s, input, o);
            let target = input.resolved.target@;
            &&& r is Ok
            &&& r->Ok_0.1 == OutcomeModel::Deleted
            &&& o.check ==> r->Ok_0.0.manifest == s.manifest
            &&& !o.check ==> targets_hold(r->Ok_0.0.manifest.broken, target.key()) && r->Ok_0.0.manifest.links
                == s.manifest.links
            &&& r->Ok_0.0.writes == s.writes && r->Ok_0.0.permissions == s.permissions
            &&& r->Ok_0.0.changes.differences == s.changes.differences + 1
            &&& !o.check && !targets_hold(s.manifest.broken, target.key()) ==> r->Ok_0.0.changes.manifest_changed
            &&& other_links_stay(s, r->Ok_0.0, input.resolved.link_id@)
        }),
{
    let r = target_applied(s, input, o)->Ok_0.0;
    let target = input.resolved.target@;
    if !o.check {
        if targets_hold(s.manifest.broken, target.key()) {
        } else {
            assert(r.manifest.broken[s.manifest.broken.len() as int] == target);
        }
    }
}

/// A target that mirrors files is mirrored the way that the run and its link ask for, from what
/// the lock keeps of it. What is kept of it afterwards, what is written, and what changed are what
/// the mirroring gives; the revision of the source is kept, and other links stay.
#[verifier::rlimit(50)]
pub proof fn law_mirrored_targets_are_kept(s: RunModel, input: TargetInput, o: RunOptions) -> (m: MirrorModel)
    requires
        !input.resolved.broken,
        input.resolved.resolved,
        input.resolved.has_storage,
        input.work@ is Mirror,
        !mirror_deleted(
            input.work@->files,
            kept_files(s, input.resolved.link_id@, input.resolved.target@),
            input.work@->target_exists,
            o.force_all || targets_hold(refs(o.forced@), input.resolved.target@.key()),
        ),
    ensures
        m.locked == kept_files(s, input.resolved.link_id@, input.resolved.target@),
        m.changes == s.changes && m.writes == s.writes && m.permissions == s.permissions,
        ({
            let r = target_applied(s, input, o);
            let id = input.resolved.link_id@;
            let key = input.resolved.target@.key();
            let done = mirrored(m, input.work@->files, input.work@->stale, mode_of(input, o));
            &&& r is Ok
            &&& r->Ok_0.1 is Mirrored && r->Ok_0.1->preserved == done.preserved
            &&& r->Ok_0.0.writes == done.writes && r->Ok_0.0.permissions == done.permissions && r->Ok_0.0.changes
                == done.changes
            &&& r->Ok_0.0.manifest == s.manifest && r->Ok_0.0.warnings == s.warnings
            &&& r->Ok_0.0.lock.dom().contains(id)
            &&& r->Ok_0.0.lock[id].resolved_ref == opt_text(input.resolved_ref)
            &&& r->Ok_0.0.lock[id].targets.dom().contains(key) && r->Ok_0.0.lock[id].targets[key].files == done.locked
            &&& s.lock.dom().contains(id) ==> r->Ok_0.0.lock[id].packages == s.lock[id].packages
            &&& other_links_stay(s, r->Ok_0.0, id)
        }),
{
    let m = MirrorModel {
        locked: kept_files(s, input.resolved.link_id@, input.resolved.target@),
        changes: s.changes,
        writes: s.writes,
        permissions: s.permissions,
        preserved: Seq::empty(),
        source_writes: Seq::empty(),
        settings_ids: Seq::empty(),
    };
    m
}

/// A target that a package fills is decided on from what was last applied to it, the way that the
/// run and its link ask for. Edits on both sides are warned of, and other links stay.
#[verifier::rlimit(50)]
pub proof fn law_packages_are_decided_from_the_lock(s: RunModel, input: TargetInput, o: RunOptions)
    requires
        !input.resolved.broken,
        input.resolved.resolved,
        input.resolved.has_storage,
        input.work@ is Package,
    ensures
        ({
            let r = target_applied(s, input, o);
            let id = input.resolved.link_id@;
            let key = input.resolved.target@.key();
            let known = s.lock.dom().contains(id);
            let package = if known {
                value_of(s.lock[id].packages, key)
            } else {
                None
            };
            let fingerprint = if known {
                value_of(s.lock[id].package_targets, key)
            } else {
                None
            };
            let decision = decided(input.work@->facts, mode_of(input, o), package, fingerprint);
            &&& r is Ok
            &&& r->Ok_0.1 == OutcomeModel::Package(decision)
            &&& r->Ok_0.0.writes == s.writes && r->Ok_0.0.permissions == s.permissions
            &&& r->Ok_0.0.warnings.len() == s.warnings.len() + if decision.step == (PackageStep::Preserve {
                conflict: true,
            }) {
                1int
            } else {
                0int
            }
            &&& r->Ok_0.0.lock.dom().contains(id)
            &&& decision.step is MarkDeleted && !o.check ==> targets_hold(r->Ok_0.0.manifest.broken, key)
            &&& !(decision.step is MarkDeleted) || o.check ==> r->Ok_0.0.manifest == s.manifest
            &&& other_links_stay(s, r->Ok_0.0, id)
        }),
{
    let r = target_applied(s, input, o)->Ok_0.0;
    let target = input.resolved.target@;
    let id = input.resolved.link_id@;
    assert(value_of(Map::<crate::links::TargetModel, Seq<char>>::empty(), target.key()) is None);
    if !targets_hold(s.manifest.broken, target.key()) && r.manifest != s.manifest {
        assert(r.manifest.broken[s.manifest.broken.len() as int] == target);
    }
}

/// A run takes every target in turn, each from where the one before left it, and stops at the
/// first that can not be applied.
pub proof fn law_runs_take_every_target(s: RunModel, inputs: Seq<TargetInput>, o: RunOptions, n: nat) -> (states: Seq<
    RunModel,
>)
    requires
        n <= inputs.len(),
    ensures
        run_over(s, inputs, o, n) is Ok ==> {
            &&& states.len() == n + 1
            &&& states[0] == s
            &&& states[n as int] == run_over(s, inputs, o, n)->Ok_0
            &&& forall|i: int|
                0 <= i < n ==> target_applied(#[trigger] states[i], inputs[i], o) is Ok && target_applied(
                    states[i],
                    inputs[i],
                    o,
                )->Ok_0.0 == states[i + 1]
        },
        run_over(s, inputs, o, n) is Err ==> exists|k: int|
            0 <= k < n && run_over(s, inputs, o, k as nat) is Ok && #[trigger] target_applied(
                run_over(s, inputs, o, k as nat)->Ok_0,
                inputs[k],
                o,
            ) is Err,
    decreases n,
{
    if n == 0 {
        seq![s]
    } else {
        let before = law_runs_take_every_target(s, inputs, o, (n - 1) as nat);
        match run_over(s, inputs, o, (n - 1) as nat) {
            Ok(mid) => {
                match target_applied(mid, inputs[n - 1], o) {
                    Ok(step) => {
                        let states = before.push(step.0);
                        assert forall|i: int| 0 <= i < n implies target_applied(#[trigger] states[i], inputs[i], o) is Ok
                            && target_applied(states[i], inputs[i], o)->Ok_0.0 == states[i + 1] by {
                            assert(states[i] == before[i]);
                            if i < n - 1 {
                                assert(states[i + 1] == before[i + 1]);
                            }
                        }
                        states
                    },
                    Err(_) => {
                        assert(target_applied(run_over(s, inputs, o, (n - 1) as nat)->Ok_0, inputs[n - 1], o) is Err);
                        before
                    },
                }
            },
            Err(_) => {
                let k = choose|k: int|
                    0 <= k < n - 1 && run_over(s, inputs, o, k as nat) is Ok && #[trigger] target_applied(
                        run_over(s, inputs, o, k as nat)->Ok_0,
                        inputs[k],
                        o,
                    ) is Err;
                assert(0 <= k < n && target_applied(run_over(s, inputs, o, k as nat)->Ok_0, inputs[k], o) is Err);
                before
            },
        }
    }
}

} // verus!
