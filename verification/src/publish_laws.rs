//! What publishing tells, and how two places compare.
use vstd::prelude::*;

use crate::document::{InstanceModel, path_names};
use crate::json::{JsonModel, NumberModel};
use crate::place_diff::{
    DifferenceModel, FieldsModel, LocationModel, after_tally, compared, is_matched, last_with_id, whole_tally,
};
use crate::publish::{
    CloudOption, EventModel, LOG_LINES, PublishArgs, PublishOptionError, PublishStepModel, event_in, event_of,
    options_checked, read_back, step_after, unsupported_count, version_in,
};
use crate::text::{occurs, trimmed};

verus! {

/// A line of a log tells of a failure.
pub open spec fn tells_failure(lines: Seq<Seq<char>>, since: int, k: int) -> bool {
    event_of(lines[k], since) matches Some(EventModel::Failed(_))
}

/// A line of a log tells of a success.
pub open spec fn tells_success(lines: Seq<Seq<char>>, since: int, k: int) -> bool {
    event_of(lines[k], since) matches Some(EventModel::Succeeded { .. })
}

/// A line of a log tells of a success and of the version.
pub open spec fn tells_version(lines: Seq<Seq<char>>, since: int, k: int) -> bool {
    event_of(lines[k], since) matches Some(EventModel::Succeeded { version }) && version is Some
}

#[verifier::rlimit(50)]
proof fn lemma_read(lines: Seq<Seq<char>>, since: int, n: nat)
    requires
        n <= lines.len(),
    ensures
        ({
            let r = read_back(lines, since, n);
            let from = lines.len() - n;
            &&& r.failed is Some <==> exists|k: int| from <= k < lines.len() && #[trigger] tells_failure(lines, since, k)
            &&& r.failed is None ==> (r.succeeded <==> exists|k: int|
                from <= k < lines.len() && #[trigger] tells_success(lines, since, k))
            &&& r.failed is None ==> (r.version is Some <==> exists|k: int|
                from <= k < lines.len() && #[trigger] tells_version(lines, since, k))
            &&& r.failed is None && r.version is Some ==> exists|k: int|
                from <= k < lines.len() && #[trigger] tells_version(lines, since, k) && event_of(lines[k], since) == Some(
                    EventModel::Succeeded { version: r.version },
                ) && (forall|j: int| k < j < lines.len() ==> !#[trigger] tells_version(lines, since, j))
            &&& r.failed is Some ==> exists|k: int|
                from <= k < lines.len() && #[trigger] tells_failure(lines, since, k) && event_of(lines[k], since) == Some(
                    EventModel::Failed(r.failed->0),
                ) && (forall|j: int| k < j < lines.len() ==> !#[trigger] tells_failure(lines, since, j))
        }),
    decreases n,
{
    if n > 0 {
        lemma_read(lines, since, (n - 1) as nat);
        let at = lines.len() - n;
        let later = read_back(lines, since, (n - 1) as nat);
        let r = read_back(lines, since, n);
        if later.failed is None {
            assert(forall|j: int| at < j < lines.len() ==> !#[trigger] tells_failure(lines, since, j));
            assert(tells_failure(lines, since, at) == (r.failed is Some));
            if r.failed is None {
                assert(tells_success(lines, since, at) ==> r.succeeded);
                if r.succeeded && !tells_success(lines, since, at) {
                    assert(later.succeeded);
                    let k = choose|k: int| at < k < lines.len() && #[trigger] tells_success(lines, since, k);
                    assert(at <= k && tells_success(lines, since, k));
                }
                if later.version is None {
                    assert(forall|j: int| at < j < lines.len() ==> !#[trigger] tells_version(lines, since, j));
                    assert(tells_version(lines, since, at) == (r.version is Some));
                }
            }
        } else {
            assert(r == later);
        }
    }
}

/// A failure that the end of the log tells of is reported, with the words of the last one. Without
/// one a success is, with the version that the last line with a version gives. Without either it
/// is waited for until the time is up.
pub proof fn law_the_log_decides(lines: Seq<Seq<char>>, since: int, in_time: bool)
    ensures
        ({
            let from = if lines.len() < LOG_LINES {
                0
            } else {
                lines.len() - LOG_LINES
            };
            let step = step_after(lines, since, in_time);
            let failed = exists|k: int| from <= k < lines.len() && #[trigger] tells_failure(lines, since, k);
            let succeeded = exists|k: int| from <= k < lines.len() && #[trigger] tells_success(lines, since, k);
            &&& failed ==> step is Failed && exists|k: int|
                from <= k < lines.len() && #[trigger] tells_failure(lines, since, k) && event_of(lines[k], since) == Some(
                    EventModel::Failed(step->Failed_0),
                ) && (forall|j: int| k < j < lines.len() ==> !#[trigger] tells_failure(lines, since, j))
            &&& !failed && succeeded ==> step is Published
            &&& !failed && succeeded && (forall|k: int|
                from <= k < lines.len() ==> !#[trigger] tells_version(lines, since, k)) ==> step == (
            PublishStepModel::Published { version: None })
            &&& !failed && (exists|k: int| from <= k < lines.len() && #[trigger] tells_version(lines, since, k))
                ==> exists|k: int|
                from <= k < lines.len() && #[trigger] tells_version(lines, since, k) && event_of(lines[k], since) == Some(
                    EventModel::Succeeded { version: step->Published_version },
                ) && (forall|j: int| k < j < lines.len() ==> !#[trigger] tells_version(lines, since, j))
            &&& !failed && !succeeded && in_time ==> step == PublishStepModel::Wait
            &&& !failed && !succeeded && !in_time ==> step == PublishStepModel::TimedOut
        }),
{
    let n = if lines.len() < LOG_LINES {
        lines.len()
    } else {
        LOG_LINES as nat
    };
    lemma_read(lines, since, n);
    let r = read_back(lines, since, n);
    if r.failed is None && r.version is Some {
        let k = choose|k: int|
            lines.len() - n <= k < lines.len() && #[trigger] tells_version(lines, since, k) && event_of(lines[k], since)
                == Some(EventModel::Succeeded { version: r.version }) && (forall|j: int|
                k < j < lines.len() ==> !#[trigger] tells_version(lines, since, j));
        assert(tells_success(lines, since, k));
        assert(r.succeeded);
    }
}

/// What a line says of a publish.
pub proof fn law_lines_are_understood(rest: Seq<char>)
    ensures
        occurs(rest, "[FLog::PublishSessionStateController] Go to PublishSuccessful"@) || occurs(
            rest,
            "[FLog::CreatorOutput] Place published."@,
        ) ==> event_in(rest) == Some(EventModel::Succeeded { version: None }),
        occurs(rest, "Add publish notes to v"@) ==> event_in(rest) is Some && event_in(rest)->0 is Succeeded,
        event_in(rest) is Some && event_in(rest)->0 is Failed ==> event_in(rest) == Some(
            EventModel::Failed(trimmed(rest)),
        ),
        !occurs(rest, "[FLog::PublishSessionStateController] Go to PublishSuccessful"@) && !occurs(
            rest,
            "[FLog::CreatorOutput] Place published."@,
        ) && !occurs(rest, "Add publish notes to v"@) && (occurs(
            rest,
            "[FLog::PublishSessionStateController] Go to PublishFailed"@,
        ) || occurs(rest, "[FLog::PublishSessionStateController] Go to PublishCanceled"@) || occurs(
            rest,
            "[FLog::PublishSessionStateController] Go to PublishCancelled"@,
        ) || occurs(rest, "PublishPlaceToRobloxIsCanceled"@)) ==> event_in(rest) == Some(
            EventModel::Failed(trimmed(rest)),
        ),
{
}

/// Options of an upload are taken only for an upload, and ids are above zero.
pub proof fn law_options_belong_to_uploads(args: PublishArgs)
    ensures
        args.universe is Some && args.universe->0 <= 0 ==> options_checked(args) == Err::<(), PublishOptionError>(
            PublishOptionError::BadId(CloudOption::Universe),
        ),
        args.place_id is Some && args.place_id->0 <= 0 ==> options_checked(args) is Err,
        (args.universe is None || args.universe->0 > 0) && (args.place_id is None || args.place_id->0 > 0)
            && args.open_cloud ==> options_checked(args) is Ok,
        !args.open_cloud ==> (options_checked(args) is Ok <==> args.file is None && args.universe is None
            && args.place_id is None && args.key_env is None),
{
}

/// The version of an answer is a number above zero, or a text of one.
pub proof fn law_versions_are_read(
    response: Map<Seq<char>, JsonModel>,
    body: Map<Seq<char>, JsonModel>,
    n: u64,
)
    requires
        response.dom().contains("body"@),
        response["body"@] == JsonModel::Object(body),
        body.dom().contains("versionNumber"@),
    ensures
        n > 0 && body["versionNumber"@] == JsonModel::Number(NumberModel::Unsigned(n)) ==> version_in(
            JsonModel::Object(response),
        ) == Some(n as int),
        body["versionNumber"@] == JsonModel::Number(NumberModel::Unsigned(0)) ==> version_in(
            JsonModel::Object(response),
        ) is None,
        version_in(JsonModel::Object(response)) matches Some(v) ==> v > 0,
{
}

proof fn lemma_last_id(doc: Seq<InstanceModel>, id: Seq<char>, n: nat)
    requires
        n <= doc.len(),
    ensures
        last_with_id(doc, id, n) is None <==> forall|j: int| 0 <= j < n ==> (#[trigger] doc[j]).id != id,
        last_with_id(doc, id, n) matches Some(k) ==> 0 <= k < n && doc[k].id == id && forall|j: int|
            k < j < n ==> (#[trigger] doc[j]).id != id,
    decreases n,
{
    if n > 0 {
        lemma_last_id(doc, id, (n - 1) as nat);
    }
}

/// Where an instance stands, as it is told.
pub open spec fn told_at(doc: Seq<InstanceModel>, i: int) -> LocationModel {
    LocationModel { path: path_names(doc, i), class_name: doc[i].class_name, index: i + 1 }
}

/// The fields of an instance, where they are asked for.
pub open spec fn told_fields(x: InstanceModel, values: bool) -> Option<FieldsModel> {
    if values {
        Some(FieldsModel { properties: x.properties, attributes: x.attributes })
    } else {
        None
    }
}

proof fn lemma_after(before: Seq<InstanceModel>, after: Seq<InstanceModel>, values: bool, n: nat, i: int)
    requires
        n <= after.len(),
    ensures
        ({
            let t = after_tally(before, after, values, n);
            &&& t.added + t.changed + t.unchanged == n
            &&& t.removed == 0
            &&& t.added + t.changed == t.differences.len()
            &&& 0 <= i < n && (forall|j: int| 0 <= j < before.len() ==> (#[trigger] before[j]).id != after[i].id)
                ==> t.differences.contains(
                DifferenceModel::Added { after: told_at(after, i), fields: told_fields(after[i], values) },
            )
        }),
    decreases n,
{
    if n > 0 {
        lemma_after(before, after, values, (n - 1) as nat, i);
        lemma_last_id(before, after[n - 1].id, before.len());
        let b = after_tally(before, after, values, (n - 1) as nat);
        let t = after_tally(before, after, values, n);
        if 0 <= i < n && (forall|j: int| 0 <= j < before.len() ==> (#[trigger] before[j]).id != after[i].id) {
            let d = DifferenceModel::Added { after: told_at(after, i), fields: told_fields(after[i], values) };
            if i < n - 1 {
                let k = choose|k: int| 0 <= k < b.differences.len() && b.differences[k] == d;
                assert(t.differences[k] == d);
            } else {
                assert(t.differences[b.differences.len() as int] == d);
            }
        }
    }
}

#[verifier::rlimit(50)]
proof fn lemma_whole(before: Seq<InstanceModel>, after: Seq<InstanceModel>, values: bool, n: nat, j: int, d: DifferenceModel)
    requires
        n <= before.len(),
    ensures
        ({
            let a = after_tally(before, after, values, after.len());
            let t = whole_tally(before, after, values, n);
            &&& t.added == a.added && t.changed == a.changed && t.unchanged == a.unchanged
            &&& t.added + t.changed + t.removed == t.differences.len()
            &&& a.differences.contains(d) ==> t.differences.contains(d)
            &&& 0 <= j < n && (forall|i: int| 0 <= i < after.len() ==> (#[trigger] after[i]).id != before[j].id)
                ==> t.differences.contains(
                DifferenceModel::Removed { before: told_at(before, j), fields: told_fields(before[j], values) },
            )
        }),
    decreases n,
{
    lemma_after(before, after, values, after.len(), 0);
    if n > 0 {
        lemma_whole(before, after, values, (n - 1) as nat, j, d);
        let b = whole_tally(before, after, values, (n - 1) as nat);
        let t = whole_tally(before, after, values, n);
        if b.differences.contains(d) {
            let k = choose|k: int| 0 <= k < b.differences.len() && b.differences[k] == d;
            assert(t.differences[k] == d);
        }
        if 0 <= j < n && (forall|i: int| 0 <= i < after.len() ==> (#[trigger] after[i]).id != before[j].id) {
            let gone = DifferenceModel::Removed { before: told_at(before, j), fields: told_fields(before[j], values) };
            if j < n - 1 {
                let k = choose|k: int| 0 <= k < b.differences.len() && b.differences[k] == gone;
                assert(t.differences[k] == gone);
            } else {
                if is_matched(before, after, after.len(), j) {
                    let i = choose|i: int|
                        0 <= i < after.len() && i < after.len() && last_with_id(before, (#[trigger] after[i]).id, before.len())
                            == Some(j);
                    lemma_last_id(before, after[i].id, before.len());
                }
                assert(t.differences[b.differences.len() as int] == gone);
            }
        }
    }
}

/// An instance that only the later place has is told as added, one that only the earlier has as
/// removed, each where it stands and, where they are asked for, with its fields. Every instance
/// is counted once, and every difference is told.
pub proof fn law_differences_are_told(before: Seq<InstanceModel>, after: Seq<InstanceModel>, values: bool, i: int, j: int)
    ensures
        ({
            let t = compared(before, after, values);
            &&& 0 <= i < after.len() && (forall|k: int| 0 <= k < before.len() ==> (#[trigger] before[k]).id != after[i].id)
                ==> t.differences.contains(
                DifferenceModel::Added { after: told_at(after, i), fields: told_fields(after[i], values) },
            )
            &&& 0 <= j < before.len() && (forall|k: int| 0 <= k < after.len() ==> (#[trigger] after[k]).id != before[j].id)
                ==> t.differences.contains(
                DifferenceModel::Removed { before: told_at(before, j), fields: told_fields(before[j], values) },
            )
            &&& t.added + t.changed + t.unchanged == after.len()
            &&& t.added + t.changed + t.removed == t.differences.len()
        }),
{
    lemma_after(before, after, values, after.len(), i);
    let d = DifferenceModel::Added { after: told_at(after, i), fields: told_fields(after[i], values) };
    lemma_whole(before, after, values, before.len(), j, d);
}

/// The count of a class is how many instances have it and can not be published.
pub proof fn law_unsupported_instances_are_counted(v: Seq<Seq<Seq<char>>>, class_name: Seq<char>, n: nat)
    requires
        n <= v.len(),
    ensures
        unsupported_count(v, class_name, n) == v.take(n as int).filter(
            |chain: Seq<Seq<char>>|
                chain.len() > 0 && chain[0] == class_name && exists|i: int|
                    0 <= i < chain.len() && crate::publish::is_unsupported(#[trigger] chain[i]),
        ).len(),
    decreases n,
{
    reveal(Seq::filter);
    if n > 0 {
        law_unsupported_instances_are_counted(v, class_name, (n - 1) as nat);
        assert(v.take(n as int).drop_last() =~= v.take(n - 1));
        assert(v.take(n as int).last() == v[n - 1]);
    }
}

} // verus!
