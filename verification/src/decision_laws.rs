//! What is promised of the small decisions: what is refused first, what a wait ends at, what may
//! be removed and how a plan is marked.

use vstd::prelude::*;
use crate::archive_format::{
    checked_target, filled, parsed_template, rendered, token_values, ContextView, ProfileView,
    TokenValuesView,
};
use crate::archive_ops::{is_junk_name, password_arg, vet_extract, ExtractRefusal};
use crate::artist_folder_move::{
    copy_fallback_allowed, may_remove_owned_dir, prune_retained_directory_record, RecordAction,
};
use crate::character_ccip::idle_check_interval;
use crate::db::wait_is_over;
use crate::dimensions::{
    batch_start, image_dimensions, image_dimensions_from_reader, image_size, media_dimensions,
    read_prefix, BatchStart, DimensionSource,
};
use crate::folder_archive::{
    recheck_plan, set_folder_rename_auto, switched_on, PlanPathCheck, PlanVerdict, QueuedView, UndoOutcome,
};
use crate::plan_rows::{auto_confirmed, marks_after, marks_after_undo, unchanged, MarksView};

verus! {

/// An extraction goes ahead exactly where nothing is missing; a missing program is told before
/// anything else, and a folder outside the roots last.
pub proof fn extractions_are_refused_in_order(
    found: bool,
    parent: bool,
    authorized: bool,
    r: Option<ExtractRefusal>,
)
    requires
        call_ensures(vet_extract, (found, parent, authorized), r),
    ensures
        r is None <==> found && parent && authorized,
        r == Some(ExtractRefusal::ProgramMissing) <==> !found,
        r == Some(ExtractRefusal::OutsideRoots) <==> found && parent && !authorized,
{
}

/// What systems leave behind is told by four names and no others.
pub proof fn litter_is_told_by_name(name: &str, r: bool)
    requires
        call_ensures(is_junk_name, (name,), r),
    ensures
        r ==> name@ == "__MACOSX"@ || name@ == ".DS_Store"@ || name@ == "Thumbs.db"@ || name@
            == "desktop.ini"@,
        !r ==> name@ != "__MACOSX"@ && name@ != ".DS_Store"@,
        !r ==> name@ != "Thumbs.db"@ && name@ != "desktop.ini"@,
{
}

/// Two passwords are handed over as two arguments, and each behind the same two characters.
pub proof fn passwords_are_handed_over_whole(a: &str, b: &str, r: String, s: String, none: String)
    requires
        call_ensures(password_arg, (Some(a),), r),
        call_ensures(password_arg, (Some(b),), s),
        call_ensures(password_arg, (None,), none),
    ensures
        none@ == "-p"@,
        r@.len() == a@.len() + 2,
        r@.skip(2) == a@,
        r@ == s@ ==> a@ == b@,
{
    reveal_strlit("-p");
    assert(r@.skip(2) =~= a@);
    assert(s@.skip(2) =~= b@);
}

/// A move becomes a copy only where the system says that it cannot rename across devices.
pub proof fn copies_need_a_device_boundary(code: Option<i32>, r: bool)
    requires
        call_ensures(copy_fallback_allowed, (code,), r),
    ensures
        r ==> code is Some && 17 <= code->Some_0 <= 18,
        code is None ==> !r,
        code == Some(18i32) || code == Some(17i32) ==> r,
{
}

/// Only a directory is removed, and only the one that was made.
pub proof fn only_the_own_directory_is_removed(
    expected: Option<(u64, u64)>,
    actual: Option<(u64, u64)>,
    is_dir: bool,
    r: bool,
)
    requires
        call_ensures(may_remove_owned_dir, (expected, actual, is_dir), r),
    ensures
        !is_dir ==> !r,
        expected is Some && actual is None ==> !r,
        expected is Some && actual is Some && expected->Some_0.0 != actual->Some_0.0 ==> !r,
        expected is Some && actual is Some && expected->Some_0.1 != actual->Some_0.1 ==> !r,
        is_dir && (expected is None || expected == actual) ==> r,
{
}

/// A record is kept as long as its directory is there, and what is no record is never removed.
pub proof fn records_last_as_long_as_their_directory(
    is_json: bool,
    exists: Option<bool>,
    r: RecordAction,
)
    requires
        call_ensures(prune_retained_directory_record, (is_json, exists), r),
    ensures
        r is Remove ==> is_json && exists != Some(true),
        r is Keep <==> is_json && exists == Some(true),
        is_json && exists is None ==> r is Remove,
        !is_json ==> r is Ignore,
{
}

/// A wait that timed out ends where no connection is idle; one that was woken goes on until its
/// deadline.
pub proof fn waits_end_at_their_deadline(
    now: u128,
    later: u128,
    deadline: u128,
    timed_out: bool,
    idle: usize,
    r: bool,
    s: bool,
)
    requires
        call_ensures(wait_is_over, (now, deadline, timed_out, idle), r),
        call_ensures(wait_is_over, (later, deadline, timed_out, idle), s),
        now <= later,
    ensures
        r ==> s,
        timed_out ==> (r <==> idle == 0),
        !timed_out && now < deadline ==> !r,
        !timed_out && now >= deadline ==> r,
{
}

/// A batch begins behind the number that it is given and takes as many items as is asked for,
/// from one up to sixty-four.
pub proof fn batches_begin_behind_a_number(after: i64, limit: i64, r: BatchStart)
    requires
        call_ensures(batch_start, (after, limit), r),
    ensures
        r.after_id >= 0,
        after >= 0 ==> r.after_id == after,
        after < 0 ==> r.after_id == 0,
        1 <= r.limit <= 64,
        1 <= limit <= 64 ==> r.limit == limit,
        limit > 64 ==> r.limit == 64,
{
}

/// Pictures and films are measured, each in its own way, and nothing else is.
pub proof fn pictures_and_films_are_measured(
    image: &str,
    video: &str,
    other: &str,
    r: DimensionSource,
    s: DimensionSource,
    t: DimensionSource,
)
    requires
        image@ == "image"@,
        video@ == "video"@,
        call_ensures(media_dimensions, (image,), r),
        call_ensures(media_dimensions, (video,), s),
        call_ensures(media_dimensions, (other,), t),
    ensures
        r is Image,
        s is Video,
        t is Image <==> other@ == image@,
        other@ != image@ && other@ != video@ ==> t is Unsupported,
{
    reveal_strlit("image");
    reveal_strlit("video");
    assert("image"@[0] != "video"@[0]);
}

/// A prefix is the beginning of what is read, as long as the limit lets it be.
pub proof fn prefixes_are_beginnings(bytes: &[u8], limit: usize, r: Vec<u8>)
    requires
        call_ensures(read_prefix, (bytes, limit), r),
    ensures
        r@.len() <= limit,
        r@.len() <= bytes@.len(),
        r@.len() == limit || r@.len() == bytes@.len(),
        forall|i: int| 0 <= i < r@.len() ==> #[trigger] r@[i] == bytes@[i],
{
}

/// Sessions are looked at every minute, or as often as they time out where that is sooner;
/// without a timeout they are never looked at.
pub proof fn sessions_are_looked_at_in_time(timeout: u64, r: Option<u64>)
    requires
        call_ensures(idle_check_interval, (timeout,), r),
    ensures
        r is None <==> timeout == 0,
        r matches Some(t) ==> 0 < t <= 60 && t <= timeout && (t == 60 || t == timeout),
{
}

/// A plan that nothing blocks is ready, and any other is not.
pub proof fn unblocked_plans_are_ready(check: &PlanPathCheck, r: &'static str)
    requires
        call_ensures(recheck_plan, (check,), r),
    ensures
        check.reason is None ==> r@ == "ready"@,
        check.reason is Some ==> r@ == "blocked"@,
{
}

/// The switch for automatic runs reads back as it was set.
pub proof fn the_switch_reads_back(enabled: bool, r: &'static str)
    requires
        call_ensures(set_folder_rename_auto, (enabled,), r),
    ensures
        switched_on(r@) == enabled,
{
    reveal_strlit("0");
    reveal_strlit("1");
    crate::folder_archive::auto_setting_round_trip(enabled);
}

/// A plan that is confirmed by an automatic run keeps when it was carried out; once carried out
/// and taken back, it keeps that it was confirmed and is no longer carried out.
pub proof fn plans_are_marked_by_what_happened(m: MarksView, now: i64, outcome: UndoOutcome)
    ensures
        auto_confirmed(m, now).status == "confirmed"@,
        auto_confirmed(m, now).confirmed_at == Some(now),
        auto_confirmed(m, now).confirmation_source == "auto"@,
        auto_confirmed(m, now).executed_at == m.executed_at,
        m.status != "executed"@ ==> marks_after_undo(m, outcome) == m,
        m.status == "executed"@ ==> ({
            let r = marks_after_undo(m, UndoOutcome::Reverted);
            &&& r.status == "reverted"@
            &&& r.executed_at is None
            &&& r.confirmed_at == m.confirmed_at
            &&& r.confirmation_source == m.confirmation_source
        }),
        m.status == "executed"@ ==> ({
            let r = marks_after_undo(m, UndoOutcome::ReconciliationRequired);
            &&& r.status == "manual_review"@
            &&& r.confirmed_at is None
            &&& r.executed_at == m.executed_at
        }),
        outcome is RenameFailed || outcome is BackupFailed || outcome is Refused
            ==> marks_after_undo(m, outcome) == m,
        marks_after_undo(marks_after_undo(m, UndoOutcome::Reverted), outcome)
            == marks_after_undo(m, UndoOutcome::Reverted) || m.status != "executed"@,
{
    reveal_strlit("executed");
    reveal_strlit("reverted");
    assert("executed"@[0] != "reverted"@[0]);
}

/// A plan has stayed as it was where its status and both of its folders have.
pub proof fn plans_change_by_status_or_folders(
    p: QueuedView,
    status: Seq<char>,
    source: Seq<char>,
    target: Seq<char>,
)
    ensures
        unchanged(p, p.marks.status, p.source_folder, p.target_folder),
        status != p.marks.status ==> !unchanged(p, status, source, target),
        source != p.source_folder ==> !unchanged(p, status, source, target),
        target != p.target_folder ==> !unchanged(p, status, source, target),
{
}

/// A name is rendered exactly where its template can be read and what it is filled to is an
/// accepted target, and then the target is that.
pub proof fn names_are_rendered_where_they_are_accepted(
    profile: ProfileView,
    dates: (Seq<char>, Seq<char>, Seq<char>),
    context: ContextView,
)
    ensures
        rendered(profile, dates, context) is Ok ==> ({
            let (target, values) = rendered(profile, dates, context)->Ok_0;
            &&& parsed_template(profile.template) is Ok
            &&& checked_target(filled(parsed_template(profile.template)->Ok_0, values)) == Ok::<
                Seq<char>,
                Seq<char>,
            >(target)
            &&& values == token_values(profile, dates, context)
        }),
        parsed_template(profile.template) matches Err(e) ==> rendered(profile, dates, context)
            == Err::<(Seq<char>, TokenValuesView), Seq<char>>(e),
{
}

/// A plan is carried out only where it is confirmed and its run says so; one that failed is put
/// aside where its failure is kept, and everything else stays.
pub proof fn confirmed_plans_are_marked(m: MarksView, verdict: PlanVerdict, record: bool, now: i64)
    ensures
        m.status != "confirmed"@ ==> marks_after(m, verdict, record, now) == m,
        m.status == "confirmed"@ && verdict == PlanVerdict::Executed ==> ({
            let r = marks_after(m, verdict, record, now);
            &&& r.status == "executed"@
            &&& r.executed_at == Some(now)
            &&& r.confirmed_at == m.confirmed_at
            &&& r.confirmation_source == m.confirmation_source
        }),
        m.status == "confirmed"@ && verdict is Failed && record ==> ({
            let r = marks_after(m, verdict, record, now);
            &&& r.status == "manual_review"@
            &&& r.confirmed_at is None
            &&& r.confirmation_source.len() == 0
            &&& r.executed_at == m.executed_at
        }),
        verdict is Failed && !record ==> marks_after(m, verdict, record, now) == m,
{
}

/// A picture is measured as its bytes say, from its beginning only where it is a JPEG.
pub proof fn pictures_are_measured_by_their_bytes(
    bytes: &[u8],
    whole: Option<(u32, u32)>,
    begun: Option<(u32, u32)>,
    other: Option<(u32, u32)>,
)
    requires
        call_ensures(image_dimensions_from_reader, (bytes,), whole),
        call_ensures(image_dimensions, (true, bytes), begun),
        call_ensures(image_dimensions, (false, bytes), other),
    ensures
        begun == whole,
        other is None,
        whole is Some <==> image_size(bytes@) is Some,
        whole matches Some(d) ==> d.0 == image_size(bytes@)->Some_0.0 && d.1 == image_size(
            bytes@,
        )->Some_0.1,
{
}

}
