//! What is promised of folder plans: which are accepted, what carrying them out and undoing
//! them does, and which are stored.

use vstd::prelude::*;
use crate::artist_folder_move::plain_part;
use crate::folder_archive::{
    asked_fields, at_or_below, auto_status, checked_folder, chosen_tags, confirmable,
    discovered_date, dot_part, due_of, editable, executed_in, failure_members, folders_along, has_dot_part,
    inside_source, kept_parts, moved_path, one_upsert, path_joined, plan_of, plan_run, plans_confirmed, retention_of,
    settled_status, stored_path, surplus, switched_on, tells_of_failure, text_or_empty,
    undo_refused, undo_run, values_tree, vetted, with_members, with_plan, AutoStatus,
    FailureReason, FolderProbe, PlanAnswers, PlanResult, PlanVerdict, PlanView, QueuedView, UndoAnswers, UndoError, UndoFacts, UndoOutcome,
    UpsertError,
};
use crate::json::JsonTree;
use crate::order::{in_order, text_le};
use crate::text::{
    byte_len, byte_prefix, decimal, joined, lower, replaced, starts_with, texts, trimmed,
    white_space, CharClass,
};

verus! {

/// A folder of plain parts is accepted as it is; one that begins at the root, is blank or has
/// a part that steps up or stays is refused.
pub proof fn plain_folders_are_accepted(parts: Seq<Seq<char>>, rest: Seq<char>)
    requires
        parts.len() > 0,
        forall|i: int| 0 <= i < parts.len() ==> plain_part(#[trigger] parts[i]),
    ensures
        checked_folder(joined(parts, seq!['/'])) == Ok::<Seq<char>, Seq<char>>(
            joined(parts, seq!['/']),
        ),
        checked_folder(Seq::empty()) is Err,
        rest.len() > 0 && !white_space(rest.last()) ==> checked_folder(seq!['/'] + rest) is Err,
{
    let f = joined(parts, seq!['/']);
    lemma_plain_folder(parts);
    assert(replaced(f, '\\', '/') =~= f);
    crate::text::lemma_trim_fixed(f, CharClass::White);
    assert forall|i: int| 0 <= i < parts.len() implies !(#[trigger] parts[i]).contains('/') by {
        assert(plain_part(parts[i]));
    }
    crate::folder_archive::lemma_split_join(parts, '/');
    lemma_all_kept(parts);
    assert(!has_dot_part(parts)) by {
        if has_dot_part(parts) {
            let i = choose|i: int| 0 <= i < parts.len() && dot_part(#[trigger] parts[i]);
            assert(plain_part(parts[i]));
        }
    }
    let none = Seq::<char>::empty();
    assert(replaced(none, '\\', '/') =~= none);
    crate::text_laws::white_texts_are_trimmed_away(none);
    if rest.len() > 0 && !white_space(rest.last()) {
        let r = replaced(seq!['/'] + rest, '\\', '/');
        assert(r[0] == '/');
        assert(r.last() == rest.last() || r.last() == '/');
        crate::text::lemma_trim_fixed(r, CharClass::White);
    }
}

/// Plain parts put together.
proof fn lemma_plain_folder(parts: Seq<Seq<char>>)
    requires
        parts.len() > 0,
        forall|i: int| 0 <= i < parts.len() ==> plain_part(#[trigger] parts[i]),
    ensures
        ({
            let d = joined(parts, seq!['/']);
            &&& d.len() > 0
            &&& d[0] != '/' && !white_space(d[0])
            &&& !white_space(d.last())
            &&& forall|i: int| 0 <= i < d.len() ==> #[trigger] d[i] != '\\' && d[i] != ':'
        }),
    decreases parts.len(),
{
    let d = joined(parts, seq!['/']);
    let last = parts.last();
    assert(plain_part(parts[parts.len() - 1]));
    assert forall|i: int| 0 <= i < last.len() implies #[trigger] last[i] != '\\' && last[i] != ':'
        && last[i] != '/' by {
        assert(last.contains(last[i]));
    }
    if parts.len() == 1 {
        assert(d == last);
    } else {
        let front = parts.drop_last();
        assert forall|i: int| 0 <= i < front.len() implies plain_part(#[trigger] front[i]) by {
            assert(front[i] == parts[i]);
        }
        lemma_plain_folder(front);
        let head = joined(front, seq!['/']);
        assert(d == head + seq!['/'] + last);
        assert(d[0] == head[0] && d.last() == last.last());
        assert forall|i: int| 0 <= i < d.len() implies #[trigger] d[i] != '\\' && d[i] != ':' by {
            if i < head.len() {
                assert(d[i] == head[i]);
            } else if i > head.len() {
                assert(d[i] == last[i - head.len() - 1]);
            }
        }
    }
}

/// Parts that are not empty are kept.
proof fn lemma_all_kept(parts: Seq<Seq<char>>)
    requires
        forall|i: int| 0 <= i < parts.len() ==> (#[trigger] parts[i]).len() > 0,
    ensures
        kept_parts(parts) == parts,
    decreases parts.len(),
{
    if parts.len() > 0 {
        let front = parts.drop_last();
        assert forall|i: int| 0 <= i < front.len() implies (#[trigger] front[i]).len() > 0 by {
            assert(front[i] == parts[i]);
        }
        lemma_all_kept(front);
        assert(parts[parts.len() - 1].len() > 0);
        assert(kept_parts(parts) =~= parts);
    } else {
        assert(kept_parts(parts) =~= parts);
    }
}

/// An accepted folder has no part that steps up or stays, and none that is empty.
pub proof fn escaping_folders_are_refused(parts: Seq<Seq<char>>, k: int)
    requires
        0 <= k < parts.len(),
        parts[k] == ".."@ || parts[k] == "."@,
        forall|i: int| 0 <= i < parts.len() ==> !(#[trigger] parts[i]).contains('/'),
        ({
            let f = joined(parts, seq!['/']);
            &&& f.len() > 0
            &&& !f.contains('\\')
            &&& !white_space(f[0])
            &&& !white_space(f.last())
        }),
    ensures
        checked_folder(joined(parts, seq!['/'])) is Err,
{
    let f = joined(parts, seq!['/']);
    assert(replaced(f, '\\', '/') =~= f) by {
        assert forall|i: int| 0 <= i < f.len() implies f[i] != '\\' by {
            assert(f.contains(f[i]));
        }
    }
    crate::text::lemma_trim_fixed(f, CharClass::White);
    crate::folder_archive::lemma_split_join(parts, '/');
    reveal_strlit(".");
    reveal_strlit("..");
    lemma_part_kept(parts, k);
    let j = kept_parts(parts).index_of(parts[k]);
    assert(dot_part(kept_parts(parts)[j]));
}

/// A part that is not empty is among those kept.
proof fn lemma_part_kept(parts: Seq<Seq<char>>, k: int)
    requires
        0 <= k < parts.len(),
        parts[k].len() > 0,
    ensures
        kept_parts(parts).contains(parts[k]),
    decreases parts.len(),
{
    let d = parts.drop_last();
    let now = kept_parts(parts);
    if k < d.len() {
        assert(d[k] == parts[k]);
        lemma_part_kept(d, k);
        let j = kept_parts(d).index_of(d[k]);
        assert(now[j] == d[k]);
    } else {
        assert(now[kept_parts(d).len() as int] == parts[k]);
    }
}

/// A path is put behind another with one slash between them; an absolute path stands alone;
/// stored paths have forward slashes only.
pub proof fn paths_are_put_together(base: Seq<char>, rest: Seq<char>, i: int)
    requires
        base.len() > 0,
        base.last() != '/',
        rest.len() > 0,
        rest[0] != '/',
    ensures
        path_joined(base, rest) == base + seq!['/'] + rest,
        path_joined(base + seq!['/'], rest) == base + seq!['/'] + rest,
        path_joined(base, seq!['/'] + rest) == seq!['/'] + rest,
        path_joined(Seq::empty(), rest) == rest,
        0 <= i < stored_path(base, rest).len() ==> stored_path(base, rest)[i] != '\\',
        !base.contains('\\') && !rest.contains('\\') ==> stored_path(base, rest) == base + seq!['/']
            + rest,
{
    assert(Seq::<char>::empty() + rest =~= rest);
    let p = base + seq!['/'] + rest;
    if !base.contains('\\') && !rest.contains('\\') {
        assert forall|j: int| 0 <= j < p.len() implies p[j] != '\\' by {
            if j < base.len() {
                assert(base.contains(base[j]));
            } else if j > base.len() {
                assert(rest.contains(rest[j - base.len() - 1]));
                assert(p[j] == rest[j - base.len() - 1]);
            }
        }
        assert(replaced(p, '\\', '/') =~= p);
    }
}

/// An item below the folder goes with it under the same names, the folder itself becomes the
/// target, and an item elsewhere stays.
pub proof fn items_go_with_their_folder(
    source: Seq<char>,
    target: Seq<char>,
    real_source: Seq<char>,
    real_target: Seq<char>,
    rest: Seq<char>,
    other: Seq<char>,
)
    requires
        source.len() > 0,
        source.last() != '/',
        real_source.len() > 0,
        real_source.last() != '/',
        !at_or_below(other, source),
        !at_or_below(other, real_source),
    ensures
        moved_path(real_source + seq!['/'] + rest, source, real_source, target, real_target)
            == Some(real_target + seq!['/'] + rest),
        moved_path(real_source, source, real_source, target, real_target) == Some(real_target),
        !at_or_below(source + seq!['/'] + rest, real_source) ==> moved_path(
            source + seq!['/'] + rest,
            source,
            real_source,
            target,
            real_target,
        ) == Some(target + seq!['/'] + rest),
        moved_path(other, source, real_source, target, real_target) is None,
        at_or_below(source, source),
        at_or_below(source + seq!['/'] + rest, source),
        !at_or_below(source + seq!['x'] + rest, source),
{
    lemma_below(real_source, rest);
    lemma_below(source, rest);
    let slash = seq!['/'] + rest;
    let p = real_source + seq!['/'] + rest;
    assert(p.skip(real_source.len() as int) =~= slash);
    assert(real_target + slash =~= real_target + seq!['/'] + rest);
    assert(real_source.skip(real_source.len() as int) =~= Seq::<char>::empty());
    assert(real_target + Seq::<char>::empty() =~= real_target);
    let q = source + seq!['/'] + rest;
    assert(q.skip(source.len() as int) =~= slash);
    assert(target + slash =~= target + seq!['/'] + rest);
}

/// What begins with a folder and a slash lies below it.
proof fn lemma_below(folder: Seq<char>, rest: Seq<char>)
    requires
        folder.len() > 0,
        folder.last() != '/',
    ensures
        at_or_below(folder + seq!['/'] + rest, folder),
        at_or_below(folder, folder),
        !at_or_below(folder + seq!['x'] + rest, folder),
{
    let none = Seq::<char>::empty();
    assert(folder + none =~= folder);
    crate::text_laws::end_slashes_are_taken(folder, none);
    let p = folder + seq!['/'] + rest;
    assert(p.take(folder.len() as int + 1) =~= folder + seq!['/']);
    let q = folder + seq!['x'] + rest;
    assert(q[folder.len() as int] == 'x');
    if starts_with(q, folder + seq!['/']) {
        assert(q.take(folder.len() as int + 1)[folder.len() as int] == '/');
    }
    assert(q.len() != folder.len());
}

/// A plan is carried out only where its folders are valid, its source is there, its target is
/// not, the target does not lie in the source and both lie in the artist's folder; the first
/// of these that fails is told.
pub proof fn plans_are_refused_in_order(
    valid: bool,
    source: Seq<char>,
    target: Seq<char>,
    probe: FolderProbe,
)
    ensures
        ({
            let r = vetted(valid, source, target, probe);
            let inside = target == source || (target.len() > source.len() && target.take(
                source.len() as int,
            ) == source && target[source.len() as int] == '/');
            let there = valid && probe.source_is_dir;
            let free = there && !probe.target_exists;
            &&& r is None <==> free && !inside && probe.source_inside && probe.target_parent_inside
            &&& r == Some(FailureReason::BadFolderPath) <==> !valid
            &&& r == Some(FailureReason::SourceMissing) <==> valid && !probe.source_is_dir
            &&& r == Some(FailureReason::TargetExists) <==> there && probe.target_exists
            &&& r == Some(FailureReason::TargetInsideSource) <==> free && inside
            &&& r == Some(FailureReason::OutsideArtist) <==> free && !inside && !(
            probe.source_inside && probe.target_parent_inside)
        }),
{
    let n = source.len() as int;
    let begun = source + seq!['/'];
    if starts_with(target, begun) {
        assert(target.take(n) =~= target.take(n + 1).take(n));
        assert(begun.take(n) =~= source);
        assert(target.take(n + 1)[n] == '/');
    }
    if target.len() > n && target.take(n) == source && target[n] == '/' {
        assert(target.take(n + 1) =~= begun);
    }
    assert(inside_source(source, target) == (target == source || (target.len() > n && target.take(n)
        == source && target[n] == '/')));
}

/// A plan that nothing speaks against is carried out; in a dry run it is only tried. Whatever
/// goes wrong is told, and what was moved goes back.
pub proof fn plans_run_as_they_are_answered(dry_run: bool, a: PlanAnswers)
    ensures
        ({
            let t = plan_run(dry_run, a)->Some_0;
            &&& plan_run(dry_run, a) is Some
            &&& a.checked matches Some(reason) ==> t.verdict == PlanVerdict::Failed(reason)
                && t.record == !dry_run
            &&& a.checked is None && dry_run ==> t.verdict == PlanVerdict::DryRun && !t.record
            &&& a.checked is None && !dry_run && !a.renamed ==> t.verdict == PlanVerdict::Failed(
                FailureReason::ExecutionFailed,
            ) && !t.moved
            &&& a.checked is None && !dry_run && a.renamed && a.updated ==> t.verdict
                == PlanVerdict::Executed && t.moved && t.stored && !t.record
            &&& a.checked is None && !dry_run && a.renamed && !a.updated && a.rolled_back
                ==> !t.moved && !t.stored && t.record == !a.stale && t.verdict
                == PlanVerdict::Failed(
                if a.stale {
                    FailureReason::StaleState
                } else {
                    FailureReason::DbUpdateFailed
                },
            )
            &&& a.checked is None && !dry_run && a.renamed && !a.updated && !a.rolled_back
                ==> t.moved && t.record && t.verdict == PlanVerdict::Failed(
                FailureReason::RollbackFailed,
            )
        }),
{
    reveal_with_fuel(crate::folder_archive::run_from, 5);
}

/// An undo that nothing speaks against reverts the plan; whatever goes wrong is told, and the
/// folder is where it was unless it could not be put back.
pub proof fn undos_run_as_they_are_answered(a: UndoAnswers)
    ensures
        ({
            let (outcome, moved, stored) = undo_run(a)->Some_0;
            let begun = a.checked is None && a.backed_up;
            &&& undo_run(a) is Some
            &&& a.checked matches Some(e) ==> outcome == UndoOutcome::Refused(e) && !moved
            &&& a.checked is None && !a.backed_up ==> outcome == UndoOutcome::BackupFailed && !moved
            &&& begun && !a.renamed && a.occupied ==> outcome == UndoOutcome::Refused(
                UndoError::SourceExists,
            ) && !moved
            &&& begun && !a.renamed && !a.occupied ==> outcome == UndoOutcome::RenameFailed
                && !moved
            &&& begun && a.renamed && a.updated ==> outcome == UndoOutcome::Reverted && moved
                && stored
            &&& begun && a.renamed && !a.updated && a.rolled_back ==> outcome
                == UndoOutcome::UpdateFailed && !moved && !stored
            &&& begun && a.renamed && !a.updated && !a.rolled_back ==> moved && !stored && outcome
                == if a.recorded {
                UndoOutcome::ReconciliationRequired
            } else {
                UndoOutcome::ReconciliationNotRecorded
            }
        }),
{
    reveal_with_fuel(crate::folder_archive::undo_from, 7);
}

/// Only a plan that was carried out is undone, and only where its target is there as a folder,
/// its source is not, and both lie in the artist's folder.
pub proof fn undos_need_an_executed_plan(facts: UndoFacts, status: Seq<char>, valid: bool)
    ensures
        undo_refused(facts, status, valid) is None <==> facts.plan_found && status == "executed"@
            && facts.artist_known && facts.artist_is_dir && facts.artist_authorized && valid
            && facts.target_exists && facts.target_is_dir && !facts.source_exists
            && facts.target_inside && facts.source_parent_inside,
        !facts.plan_found ==> undo_refused(facts, status, valid) == Some(UndoError::PlanNotFound),
        facts.plan_found && status != "executed"@ ==> undo_refused(facts, status, valid) == Some(
            UndoError::PlanNotExecuted,
        ),
{
}

/// A plan is asked for with a valid source, a valid target or none, and a status that may be
/// edited; it holds what was given, with the status for missing tags where none was.
pub proof fn asked_plans_hold_what_was_given(doc: JsonTree)
    ensures
        ({
            let source = text_or_empty(doc, "source_folder"@);
            let target = text_or_empty(doc, "target_folder"@);
            let status = match doc.get("status"@) {
                Some(JsonTree::Text(s)) => s,
                _ => "needs_tags"@,
            };
            let r = asked_fields(doc);
            &&& r is Ok <==> source.len() > 0 && checked_folder(source) is Ok && (target.len() == 0
                || checked_folder(target) is Ok) && (status == "draft"@ || status == "needs_tags"@
                || status == "ready"@ || status == "manual_review"@ || status
                == "inconsistent_tags"@)
            &&& r matches Ok((s, t, st)) ==> {
                &&& checked_folder(source) == Ok::<Seq<char>, Seq<char>>(s)
                &&& target.len() == 0 ==> t.len() == 0
                &&& target.len() > 0 ==> checked_folder(target) == Ok::<Seq<char>, Seq<char>>(t)
                &&& st == status
            }
            &&& source.len() == 0 ==> r == Err::<(Seq<char>, Seq<char>, Seq<char>), UpsertError>(
                UpsertError::SourceRequired,
            )
        }),
{
}

/// The chosen tags are the asked ones, each once and in order of their first mention; each is
/// positive and the artist's own.
pub proof fn chosen_tags_are_asked_and_owned(values: Seq<JsonTree>, owned: Seq<i64>)
    ensures
        chosen_tags(values, owned) matches Ok(tags) ==> {
            &&& tags.no_duplicates()
            &&& forall|i: int|
                0 <= i < tags.len() ==> (#[trigger] tags[i]) > 0 && owned.contains(tags[i])
                    && values.contains(JsonTree::Int(tags[i]))
            &&& forall|j: int|
                0 <= j < values.len() ==> (#[trigger] values[j] matches JsonTree::Int(n)
                    && tags.contains(n))
        },
    decreases values.len(),
{
    if values.len() > 0 && chosen_tags(values, owned) is Ok {
        let d = values.drop_last();
        chosen_tags_are_asked_and_owned(d, owned);
        let before = chosen_tags(d, owned)->Ok_0;
        let tags = chosen_tags(values, owned)->Ok_0;
        let n = values.last()->Int_0;
        assert(values[values.len() - 1] == JsonTree::Int(n));
        assert forall|i: int| 0 <= i < tags.len() implies (#[trigger] tags[i]) > 0
            && owned.contains(tags[i]) && values.contains(JsonTree::Int(tags[i])) by {
            if i < before.len() {
                assert(tags[i] == before[i]);
                let k = d.index_of(JsonTree::Int(before[i]));
                assert(values[k] == d[k]);
            }
        }
        assert forall|j: int| 0 <= j < values.len() implies (#[trigger] values[j] matches JsonTree::Int(
            m,
        ) && tags.contains(m)) by {
            if j < d.len() {
                assert(d[j] == values[j]);
                let m = d[j]->Int_0;
                assert(before.contains(m));
                let k = before.index_of(m);
                assert(tags[k] == m);
            } else if before.contains(n) {
                let k = before.index_of(n);
                assert(tags[k] == n);
            } else {
                assert(tags[before.len() as int] == n);
            }
        }
        assert(tags.no_duplicates()) by {
            if !before.contains(n) {
                assert forall|x: int, y: int|
                    0 <= x < tags.len() && 0 <= y < tags.len() && x != y implies tags[x]
                    != tags[y] by {
                    if x < before.len() {
                        assert(before.contains(before[x]));
                    }
                    if y < before.len() {
                        assert(before.contains(before[y]));
                    }
                }
            }
        }
    }
}

/// Positive tags of the artist are accepted, whatever their order and however often they are
/// named; a tag that is not the artist's, or is no positive number, is refused.
pub proof fn owned_tags_are_accepted(values: Seq<JsonTree>, owned: Seq<i64>)
    ensures
        chosen_tags(values, owned) is Ok <==> forall|j: int|
            0 <= j < values.len() ==> (#[trigger] values[j] matches JsonTree::Int(n) && n > 0
                && owned.contains(n)),
    decreases values.len(),
{
    let fine = forall|j: int|
        0 <= j < values.len() ==> (#[trigger] values[j] matches JsonTree::Int(n) && n > 0
            && owned.contains(n));
    if values.len() > 0 {
        let d = values.drop_last();
        owned_tags_are_accepted(d, owned);
        if fine {
            assert forall|j: int| 0 <= j < d.len() implies (#[trigger] d[j] matches JsonTree::Int(n)
                && n > 0 && owned.contains(n)) by {
                assert(d[j] == values[j]);
            }
            assert(values[values.len() - 1] is Int);
        }
        if chosen_tags(values, owned) is Ok {
            chosen_tags_are_asked_and_owned(values, owned);
            let tags = chosen_tags(values, owned)->Ok_0;
            assert forall|j: int| 0 <= j < values.len() implies (
            #[trigger] values[j] matches JsonTree::Int(n) && n > 0 && owned.contains(n)) by {
                let n = values[j]->Int_0;
                assert(tags.contains(n));
                let k = tags.index_of(n);
                assert(tags[k] > 0);
            }
        }
    }
}

/// Storing a plan replaces the open one of its folder or adds it, and changes no other plan; a
/// settled one stays and is not counted.
pub proof fn stored_plans_replace_their_own(rows: Seq<PlanView>, row: PlanView, other: Seq<char>)
    requires
        other != row.source_folder,
    ensures
        ({
            let (after, n) = one_upsert(rows, row);
            let settled = plan_of(rows, row.source_folder) matches Some(p) && (p.status
                == "confirmed"@ || p.status == "executed"@);
            &&& settled ==> after == rows && n == 0
            &&& !settled ==> plan_of(after, row.source_folder) == Some(row) && n == 1
            &&& plan_of(after, other) == plan_of(rows, other)
        }),
{
    lemma_with_plan(rows, row, other);
}

/// A plan that was put is found, and the others are.
proof fn lemma_with_plan(rows: Seq<PlanView>, row: PlanView, other: Seq<char>)
    requires
        other != row.source_folder,
    ensures
        plan_of(with_plan(rows, row), row.source_folder) == Some(row),
        plan_of(with_plan(rows, row), other) == plan_of(rows, other),
    decreases rows.len(),
{
    let now = with_plan(rows, row);
    if rows.len() == 0 {
        assert(now.skip(1) =~= Seq::<PlanView>::empty());
        assert(plan_of(now.skip(1), other) is None);
    } else if rows[0].source_folder == row.source_folder {
        assert(now.skip(1) =~= rows.skip(1));
    } else {
        lemma_with_plan(rows.skip(1), row, other);
        assert(now.skip(1) =~= with_plan(rows.skip(1), row));
    }
}

/// A folder without a date takes the first ten characters of its items' first date, unless
/// that date is unknown; a folder with a date keeps it.
pub proof fn undated_folders_take_the_first_date(
    folder_date: Seq<char>,
    head: Seq<char>,
    rest: Seq<char>,
)
    requires
        head.len() == 10,
        forall|i: int| 0 <= i < head.len() ==> (#[trigger] head[i]) as int <= 127,
    ensures
        folder_date.len() > 0 ==> discovered_date(folder_date, head + rest) == folder_date,
        head.take(4) != "0000"@ ==> discovered_date(Seq::empty(), head + rest) == head,
        head.take(4) == "0000"@ ==> discovered_date(Seq::empty(), head + rest).len() == 0,
{
    reveal_strlit("0000");
    let all = head + rest;
    assert forall|i: int| 0 <= i < 10 implies (#[trigger] all[i]) as int <= 127 by {
        assert(all[i] == head[i]);
    }
    crate::text::lemma_ascii_prefix(all, 10);
    assert(all.take(10) =~= head);
    assert(all.take(4) =~= head.take(4));
    assert(byte_prefix(all, 10) == Some(head));
    assert(byte_len(all) >= 10);
}

/// The switch is on for each of the four words, with white space around them or without.
pub proof fn automatic_runs_are_switched_by_word(
    word: Seq<char>,
    front: Seq<char>,
    back: Seq<char>,
)
    requires
        forall|i: int| 0 <= i < front.len() ==> white_space(#[trigger] front[i]),
        forall|i: int| 0 <= i < back.len() ==> white_space(#[trigger] back[i]),
        word.len() > 0,
        !white_space(word[0]),
        !white_space(word.last()),
    ensures
        switched_on(front + word + back) <==> word == "1"@ || word == "true"@ || word == "yes"@
            || word == "on"@,
{
    crate::text_laws::trimming_takes_the_white_ends(front, word, back);
}

/// A log tells of a failure wherever it says so, whatever the case.
pub proof fn failures_are_heard_in_logs(front: Seq<char>, word: Seq<char>, back: Seq<char>)
    requires
        lower(word) == "failed"@ || lower(word) == "source_missing"@ || lower(word)
            == "target_exists"@ || lower(word) == "bad_folder_path"@ || lower(word)
            == "db_update_failed"@ || lower(word) == "outside_artist"@,
    ensures
        tells_of_failure(front + word + back),
{
    let log = front + word + back;
    let n = front.len() as int;
    assert(lower(log) =~= lower(front) + lower(word) + lower(back));
    assert forall|k: int| 0 <= k < lower(word).len() implies lower(log)[n + k] == #[trigger] lower(
        word,
    )[k] by {}
    assert(lower(front).len() == n && lower(log).len() == log.len());
    assert(crate::folder_archive::marked_at(lower(log), lower(word), n));
    assert(crate::folder_archive::marked(log, lower(word)));
}

/// A start of automatic runs confirms the ready plans with a target of the artists that take
/// part, by the time it starts, and changes nothing else of any plan.
pub proof fn ready_plans_are_confirmed(
    plans: Seq<QueuedView>,
    artists: Seq<i64>,
    now: i64,
    i: int,
)
    requires
        0 <= i < plans.len(),
    ensures
        plans_confirmed(plans, artists, now).len() == plans.len(),
        ({
            let (p, q) = (plans[i], plans_confirmed(plans, artists, now)[i]);
            let ready = p.marks.status == "ready"@ && p.target_folder.len() > 0 && artists.contains(
                p.artist_id,
            );
            &&& !ready ==> q == p
            &&& ready ==> q.marks.status == "confirmed"@ && q.marks.confirmed_at == Some(now)
                && q.marks.confirmation_source == "auto"@ && q.marks.executed_at
                == p.marks.executed_at && due_of(p.artist_id)(q)
            &&& q.id == p.id && q.artist_id == p.artist_id && q.source_folder == p.source_folder
                && q.target_folder == p.target_folder
        }),
{
    assert(confirmable(artists)(plans[i]) == (plans[i].marks.status == "ready"@
        && plans[i].target_folder.len() > 0 && artists.contains(plans[i].artist_id)));
}

/// What a run comes to: partial where plans were carried out and failed, else failed, carried
/// out, skipped or without anything to do.
pub proof fn runs_are_told_by_their_counts(executed: nat, failed: nat, skipped: nat)
    ensures
        ({
            let s = auto_status(executed as int, failed as int, skipped as int);
            &&& s == AutoStatus::Partial <==> executed > 0 && failed > 0
            &&& s == AutoStatus::Failed <==> executed == 0 && failed > 0
            &&& s == AutoStatus::Executed <==> executed > 0 && failed == 0
            &&& s == AutoStatus::Skipped <==> executed == 0 && failed == 0 && skipped > 0
            &&& s == AutoStatus::NoActions <==> executed == 0 && failed == 0 && skipped == 0
        }),
{
}

/// The executed plans are those with that verdict.
pub proof fn executed_plans_are_counted(results: Seq<PlanResult>)
    ensures
        executed_in(results) == results.filter(
            |r: PlanResult| r.verdict == PlanVerdict::Executed,
        ).len(),
    decreases results.len(),
{
    reveal(Seq::filter);
    if results.len() > 0 {
        executed_plans_are_counted(results.drop_last());
    }
}

/// Eight backups are kept, or as many as is set, and never fewer than one.
pub proof fn backups_are_kept_as_set(
    n: u32,
    front: Seq<char>,
    back: Seq<char>,
    count: nat,
    retention: nat,
)
    requires
        forall|i: int| 0 <= i < front.len() ==> white_space(#[trigger] front[i]),
        forall|i: int| 0 <= i < back.len() ==> white_space(#[trigger] back[i]),
    ensures
        retention_of(None) == 8,
        n >= 1 ==> retention_of(Some(front + decimal(n as nat) + back)) == n,
        retention_of(Some(front + decimal(0) + back)) == 1,
        retention >= 1 ==> count - surplus(count as int, retention as int) == if count < retention {
            count as int
        } else {
            retention as int
        },
        count >= 1 ==> surplus(count as int, retention as int) < count,
{
    lemma_retention(n, front, back);
    lemma_retention(0, front, back);
}

/// A number of backups reads back.
proof fn lemma_retention(n: u32, front: Seq<char>, back: Seq<char>)
    requires
        forall|i: int| 0 <= i < front.len() ==> white_space(#[trigger] front[i]),
        forall|i: int| 0 <= i < back.len() ==> white_space(#[trigger] back[i]),
    ensures
        retention_of(Some(front + decimal(n as nat) + back)) == if n < 1 {
            1
        } else {
            n as int
        },
{
    let d = decimal(n as nat);
    crate::text::lemma_decimal_value(n as nat);
    assert(crate::text::digit(d[0]) && crate::text::digit(d[d.len() - 1]));
    crate::text_laws::trimming_takes_the_white_ends(front, d, back);
    crate::text_laws::numbers_read_back(n as int);
}

/// No backup that is kept is older by name than one that goes.
pub proof fn the_oldest_backups_go(sorted: Seq<String>, n: int, i: int, j: int)
    requires
        in_order(texts(sorted)),
        0 <= i < n,
        n <= j < sorted.len(),
    ensures
        sorted.take(n).contains(sorted[i]),
        text_le(sorted[i]@, sorted[j]@),
{
    assert(sorted.take(n)[i] == sorted[i]);
    assert(texts(sorted)[i] == sorted[i]@ && texts(sorted)[j] == sorted[j]@);
}

/// Settled plans are those that were confirmed or carried out.
pub proof fn confirmed_and_executed_plans_are_settled(status: Seq<char>)
    ensures
        settled_status(status) <==> status == "confirmed"@ || status == "executed"@,
        trimmed(status).len() == 0 && status.len() == 0 ==> !settled_status(status),
{
    reveal_strlit("confirmed");
    reveal_strlit("executed");
}

/// The folders on the way to a target are made one after the other, each below the last, up to
/// a part that steps up.
pub proof fn folders_are_made_step_by_step(base: Seq<char>, parts: Seq<Seq<char>>, rest: Seq<
    Seq<char>,
>)
    requires
        parts.len() > 0,
        parts[0] != ".."@,
    ensures
        folders_along(base, Seq::empty()).len() == 0,
        folders_along(base, seq![".."@] + rest).len() == 0,
        folders_along(base, parts)[0] == path_joined(base, parts[0]),
        folders_along(base, parts) == seq![path_joined(base, parts[0])] + folders_along(
            path_joined(base, parts[0]),
            parts.skip(1),
        ),
        (forall|i: int| 0 <= i < parts.len() ==> #[trigger] parts[i] != ".."@) ==> folders_along(
            base,
            parts,
        ).len() == parts.len(),
    decreases parts.len(),
{
    assert((seq![".."@] + rest)[0] == ".."@);
    let next = parts.skip(1);
    if forall|i: int| 0 <= i < parts.len() ==> #[trigger] parts[i] != ".."@ {
        assert forall|i: int| 0 <= i < next.len() implies #[trigger] next[i] != ".."@ by {
            assert(next[i] == parts[i + 1]);
        }
        if next.len() > 0 {
            folders_are_made_step_by_step(path_joined(base, parts[0]), next, rest);
        }
    }
}

/// A list of numbers becomes a document of numbers, place by place; what is no number becomes
/// nothing, and what is no list no list.
pub proof fn lists_become_documents(list: Seq<Option<i64>>, i: int)
    requires
        0 <= i < list.len(),
    ensures
        values_tree(None) is None,
        values_tree(Some(None)) == Some(JsonTree::Null),
        values_tree(Some(Some(list))) matches Some(JsonTree::Array(values)) && values.len()
            == list.len() && values[i] == match list[i] {
            Some(n) => JsonTree::Int(n),
            None => JsonTree::Null,
        },
{
}

/// The record of a failure tells its reason and both folders, under the names that readers look
/// for.
pub proof fn failures_are_recorded_with_their_folders(
    reason: Seq<char>,
    source: Seq<char>,
    target: Seq<char>,
)
    ensures
        ({
            let record = JsonTree::Object(failure_members(reason, source, target));
            &&& record.get("status"@) == Some(JsonTree::Text("failed"@))
            &&& record.get("reason"@) == Some(JsonTree::Text(reason))
            &&& record.get("source"@) == Some(JsonTree::Text(source))
            &&& record.get("target"@) == Some(JsonTree::Text(target))
            &&& record.get("automatic"@) == Some(JsonTree::Bool(true))
        }),
        with_members(failure_members(reason, source, target), Seq::empty()) == failure_members(
            reason,
            source,
            target,
        ),
{
    reveal_strlit("status");
    reveal_strlit("reason");
    reveal_strlit("message");
    reveal_strlit("source");
    reveal_strlit("target");
    reveal_strlit("automatic");
    let m = failure_members(reason, source, target);
    assert("status"@[1] == 't' && "reason"@[0] == 'r' && "message"@[0] == 'm');
    assert("source"@[0] == 's' && "source"@[1] == 'o' && "status"@[0] == 's');
    assert("target"@[0] == 't' && "automatic"@[0] == 'a');
    lemma_member_at(m, "status"@, 0);
    lemma_member_at(m, "reason"@, 1);
    lemma_member_at(m, "source"@, 3);
    lemma_member_at(m, "target"@, 4);
    lemma_member_at(m, "automatic"@, 5);
}

/// A member is found at its first place.
proof fn lemma_member_at(members: Seq<(Seq<char>, JsonTree)>, key: Seq<char>, k: int)
    requires
        0 <= k < members.len(),
        members[k].0 == key,
        forall|i: int| 0 <= i < k ==> (#[trigger] members[i]).0 != key,
    ensures
        crate::json::member(members, key) == Some(members[k].1),
    decreases k,
{
    if k > 0 {
        assert(members[0].0 != key);
        let rest = members.skip(1);
        assert forall|i: int| 0 <= i < k - 1 implies (#[trigger] rest[i]).0 != key by {
            assert(rest[i] == members[i + 1]);
        }
        assert(rest[k - 1] == members[k]);
        lemma_member_at(rest, key, k - 1);
    }
}

/// A target lies in its source where it is the source or goes on from it behind a slash; a
/// folder beside it that merely begins with the same name does not.
pub proof fn targets_inside_go_on_behind_a_slash(source: Seq<char>, rest: Seq<char>)
    ensures
        inside_source(source, source),
        inside_source(source, source + seq!['/'] + rest),
        rest.len() > 0 && rest[0] != '/' ==> !inside_source(source, source + rest),
{
    let below = source + seq!['/'] + rest;
    assert(below.take(source.len() as int + 1) =~= source + seq!['/']);
    if rest.len() > 0 {
        assert((source + rest)[source.len() as int] == rest[0]);
        assert((source + seq!['/'])[source.len() as int] == '/');
        if starts_with(source + rest, source + seq!['/']) {
            assert((source + rest).take(source.len() as int + 1)[source.len() as int] == rest[0]);
        }
    }
}

/// A plan can be changed in every open status, and neither where it is confirmed nor where it
/// was carried out.
pub proof fn settled_plans_cannot_be_changed(status: Seq<char>)
    ensures
        editable(status) ==> !settled_status(status) && status.len() > 0,
        editable("draft"@) && editable("needs_tags"@) && editable("ready"@),
        editable("manual_review"@) && editable("inconsistent_tags"@),
        !editable("confirmed"@) && !editable("executed"@) && !editable("reverted"@),
{
    reveal_strlit("draft");
    reveal_strlit("needs_tags");
    reveal_strlit("ready");
    reveal_strlit("manual_review");
    reveal_strlit("inconsistent_tags");
    reveal_strlit("confirmed");
    reveal_strlit("executed");
    reveal_strlit("reverted");
    assert("manual_review"@.len() == 13 && "inconsistent_tags"@.len() == 17);
    assert("confirmed"@[0] == 'c' && "executed"@[0] == 'e');
    assert("reverted"@.len() == 8 && "ready"@.len() == 5);
    assert("draft"@[0] == 'd' && "needs_tags"@[0] == 'n' && "ready"@[0] == 'r');
    assert("manual_review"@[0] == 'm' && "inconsistent_tags"@[0] == 'i');
}

}
