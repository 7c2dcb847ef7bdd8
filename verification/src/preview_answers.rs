//! What is told of naming an artist's plans by a profile.

use vstd::prelude::*;
use crate::archive_format::{profile_tree, ProfileView, RuleSnapshot, TokenValues, TokenValuesView};
use crate::archive_profiles::{
    no_conflicts, preview_views, Application, ConflictCode, PlanInput, PlanPreview, PreviewView,
    TemplatePreview,
};
use crate::json::{
    array, doc_trees, entry, entry_views, number, object, text_member, Json, JsonTree,
};
use crate::text::{decimal, texts};

verus! {

/// What is told of something that stands in the way of a plan: its code, and the folder
/// that it concerns.
pub open spec fn conflict_tree(
    code: ConflictCode,
    source_folder: Seq<char>,
    target_folder: Seq<char>,
) -> JsonTree {
    JsonTree::Object(
        seq![
            ("code"@, JsonTree::Text(code.spelled())),
            if code is InconsistentTags || code is SourceMissing {
                ("source_folder"@, JsonTree::Text(source_folder))
            } else {
                ("target_folder"@, JsonTree::Text(target_folder))
            },
        ],
    )
}

/// Tells of something that stands in the way of a plan.
fn conflict_answer(code: ConflictCode, source_folder: &str, target_folder: &str) -> (r: Json)
    ensures
        r.tree() == conflict_tree(code, source_folder@, target_folder@),
{
    let mut members: Vec<(String, Json)> = Vec::new();
    members.push(text_member("code", code.code()));
    let of_source = match code {
        ConflictCode::InconsistentTags => true,
        ConflictCode::SourceMissing => true,
        _ => false,
    };
    if of_source {
        members.push(text_member("source_folder", source_folder));
    } else {
        members.push(text_member("target_folder", target_folder));
    }
    assert(entry_views(members@) =~= conflict_tree(
        code,
        source_folder@,
        target_folder@,
    )->Object_0);
    object(members)
}

/// What is told of everything that stands in the way of a plan.
pub open spec fn own_conflicts(plan: PreviewView, source_folder: Seq<char>) -> Seq<JsonTree> {
    plan.conflicts.map_values(
        |code: ConflictCode| conflict_tree(code, source_folder, plan.target_folder),
    )
}

/// Tells of everything that stands in the way of a plan.
fn list_own_conflicts(plan: &PlanPreview, source_folder: &str) -> (r: Vec<Json>)
    ensures
        doc_trees(r@) == own_conflicts(plan@, source_folder@),
{
    let mut out: Vec<Json> = Vec::new();
    let mut i: usize = 0;
    while i < plan.conflicts.len()
        invariant
            i <= plan.conflicts@.len(),
            out@.len() == i,
            forall|k: int|
                0 <= k < i ==> (#[trigger] out@[k]).tree() == conflict_tree(
                    plan.conflicts@[k],
                    source_folder@,
                    plan.target_folder@,
                ),
        decreases plan.conflicts@.len() - i,
    {
        out.push(conflict_answer(plan.conflicts[i], source_folder, &plan.target_folder));
        i += 1;
    }
    assert(doc_trees(out@) =~= own_conflicts(plan@, source_folder@));
    out
}

/// What the list of all plans tells of something that stands in the way of one.
pub open spec fn listed_conflict(
    plan: PreviewView,
    code: ConflictCode,
    source_folder: Seq<char>,
) -> JsonTree {
    JsonTree::Object(
        seq![
            ("plan_id"@, JsonTree::Int(plan.id)),
            ("code"@, JsonTree::Text(code.spelled())),
            ("detail"@, conflict_tree(code, source_folder, plan.target_folder)),
        ],
    )
}

/// Everything that stands in the way of some plan, one plan after the other.
pub open spec fn all_conflicts(inputs: Seq<PlanInput>, plans: Seq<PreviewView>) -> Seq<JsonTree>
    decreases plans.len(),
{
    if plans.len() == 0 {
        Seq::empty()
    } else {
        let plan = plans.last();
        let source_folder = inputs[plans.len() - 1].source_folder@;
        all_conflicts(inputs, plans.drop_last()) + plan.conflicts.map_values(
            |code: ConflictCode| listed_conflict(plan, code, source_folder),
        )
    }
}

/// Appends what the list of all plans tells of one.
fn list_conflicts_of(out: &mut Vec<Json>, plan: &PlanPreview, source_folder: &str)
    ensures
        doc_trees(final(out)@) == doc_trees(old(out)@) + plan@.conflicts.map_values(
            |code: ConflictCode| listed_conflict(plan@, code, source_folder@),
        ),
{
    let ghost start = doc_trees(out@);
    let ghost told = plan@.conflicts.map_values(
        |code: ConflictCode| listed_conflict(plan@, code, source_folder@),
    );
    let mut i: usize = 0;
    assert(start + told.take(0) =~= start);
    while i < plan.conflicts.len()
        invariant
            i <= plan.conflicts@.len(),
            told.len() == plan.conflicts@.len(),
            told == plan@.conflicts.map_values(
                |code: ConflictCode| listed_conflict(plan@, code, source_folder@),
            ),
            doc_trees(out@) == start + told.take(i as int),
        decreases plan.conflicts@.len() - i,
    {
        let code = plan.conflicts[i];
        let mut members: Vec<(String, Json)> = Vec::new();
        members.push(entry("plan_id", Json::Int(plan.id)));
        members.push(text_member("code", code.code()));
        members.push(entry("detail", conflict_answer(code, source_folder, &plan.target_folder)));
        assert(entry_views(members@) =~= listed_conflict(plan@, code, source_folder@)->Object_0);
        let row = object(members);
        let ghost before = doc_trees(out@);
        let ghost tree = row.tree();
        out.push(row);
        assert(doc_trees(out@) =~= before.push(tree));
        assert(told.take(i as int + 1) =~= told.take(i as int).push(told[i as int]));
        assert(before.push(tree) =~= start + told.take(i as int + 1));
        i += 1;
    }
    assert(told.take(told.len() as int) =~= told);
}

/// Tells of everything that stands in the way of some plan.
fn list_all_conflicts(inputs: &[PlanInput], plans: &Vec<PlanPreview>) -> (r: Vec<Json>)
    requires
        inputs@.len() == plans@.len(),
    ensures
        doc_trees(r@) == all_conflicts(inputs@, preview_views(plans@)),
{
    let ghost all = preview_views(plans@);
    let mut out: Vec<Json> = Vec::new();
    let mut i: usize = 0;
    assert(all.take(0) =~= Seq::<PreviewView>::empty());
    assert(doc_trees(out@) =~= Seq::<JsonTree>::empty());
    while i < plans.len()
        invariant
            i <= plans@.len(),
            inputs@.len() == plans@.len(),
            all == preview_views(plans@),
            doc_trees(out@) == all_conflicts(inputs@, all.take(i as int)),
        decreases plans@.len() - i,
    {
        assert(all.take(i as int + 1).drop_last() =~= all.take(i as int));
        assert(all.take(i as int + 1).last() == plans@[i as int]@);
        list_conflicts_of(&mut out, &plans[i], &inputs[i].source_folder);
        i += 1;
    }
    assert(all.take(all.len() as int) =~= all);
    out
}

/// What is told of the values of tokens.
pub open spec fn tokens_tree(tokens: TokenValuesView) -> JsonTree {
    JsonTree::Object(
        seq![
            ("artist"@, JsonTree::Text(tokens.artist)),
            ("date"@, JsonTree::Text(tokens.date)),
            ("year"@, JsonTree::Text(tokens.year)),
            ("month"@, JsonTree::Text(tokens.month)),
            ("tags"@, JsonTree::Text(tokens.tags)),
            (
                "tag_values"@,
                JsonTree::Array(tokens.tag_values.map_values(|t: Seq<char>| JsonTree::Text(t))),
            ),
            ("title"@, JsonTree::Text(tokens.title)),
            ("folder"@, JsonTree::Text(tokens.folder)),
            ("index"@, JsonTree::Text(tokens.index)),
        ],
    )
}

/// A list of texts.
fn text_list(list: &Vec<String>) -> (r: Json)
    ensures
        r.tree() == JsonTree::Array(texts(list@).map_values(|t: Seq<char>| JsonTree::Text(t))),
{
    let mut out: Vec<Json> = Vec::new();
    let mut i: usize = 0;
    while i < list.len()
        invariant
            i <= list@.len(),
            out@.len() == i,
            forall|k: int| 0 <= k < i ==> (#[trigger] out@[k]).tree() == JsonTree::Text(list@[k]@),
        decreases list@.len() - i,
    {
        out.push(Json::Text(list[i].clone()));
        i += 1;
    }
    assert(doc_trees(out@) =~= texts(list@).map_values(|t: Seq<char>| JsonTree::Text(t)));
    array(out)
}

/// Tells of the values of tokens.
fn tokens_answer(tokens: &TokenValues) -> (r: Json)
    ensures
        r.tree() == tokens_tree(tokens@),
{
    let mut members: Vec<(String, Json)> = Vec::new();
    members.push(text_member("artist", &tokens.artist));
    members.push(text_member("date", &tokens.date));
    members.push(text_member("year", &tokens.year));
    members.push(text_member("month", &tokens.month));
    members.push(text_member("tags", &tokens.tags));
    members.push(entry("tag_values", text_list(&tokens.tag_values)));
    members.push(text_member("title", &tokens.title));
    members.push(text_member("folder", &tokens.folder));
    members.push(text_member("index", &tokens.index));
    assert(entry_views(members@) =~= tokens_tree(tokens@)->Object_0);
    object(members)
}

/// What is told of one plan. It can be applied where nothing stands in the way of it, nor
/// of any other.
pub open spec fn plan_tree(
    input: PlanInput,
    plan: PreviewView,
    format_source: Seq<char>,
    can_apply: bool,
) -> JsonTree {
    JsonTree::Object(
        seq![
            ("id"@, JsonTree::Int(plan.id)),
            ("source_folder"@, JsonTree::Text(input.source_folder@)),
            ("target_folder"@, JsonTree::Text(plan.target_folder)),
            ("tokens"@, tokens_tree(plan.tokens)),
            ("format_source"@, JsonTree::Text(format_source)),
            ("status"@, JsonTree::Text(input.status@)),
            ("will_apply"@, JsonTree::Bool(plan.will_apply)),
            ("conflicts"@, JsonTree::Array(own_conflicts(plan, input.source_folder@))),
            ("can_apply"@, JsonTree::Bool(plan.conflicts.len() == 0 && can_apply)),
        ],
    )
}

/// Tells of one plan.
fn plan_answer(input: &PlanInput, plan: &PlanPreview, format_source: &str, can_apply: bool) -> (r:
    Json)
    ensures
        r.tree() == plan_tree(*input, plan@, format_source@, can_apply),
{
    let own = list_own_conflicts(plan, &input.source_folder);
    let free = plan.conflicts.len() == 0 && can_apply;
    let mut members: Vec<(String, Json)> = Vec::new();
    members.push(entry("id", Json::Int(plan.id)));
    members.push(text_member("source_folder", &input.source_folder));
    members.push(text_member("target_folder", &plan.target_folder));
    members.push(entry("tokens", tokens_answer(&plan.tokens)));
    members.push(text_member("format_source", format_source));
    members.push(text_member("status", &input.status));
    members.push(entry("will_apply", Json::Bool(plan.will_apply)));
    members.push(entry("conflicts", array(own)));
    members.push(entry("can_apply", Json::Bool(free)));
    assert(entry_views(members@) =~= plan_tree(
        *input,
        plan@,
        format_source@,
        can_apply,
    )->Object_0);
    object(members)
}

/// What is told of the plans of an artist as they would be named.
pub open spec fn preview_tree(
    artist_id: i64,
    inputs: Seq<PlanInput>,
    profile: ProfileView,
    format_source: Seq<char>,
    plans: Seq<PreviewView>,
    can_apply: bool,
) -> JsonTree {
    JsonTree::Object(
        seq![
            ("ok"@, JsonTree::Bool(can_apply)),
            ("artist_id"@, JsonTree::Int(artist_id)),
            ("profile"@, profile_tree(profile)),
            ("format_source"@, JsonTree::Text(format_source)),
            (
                "plans"@,
                JsonTree::Array(
                    Seq::new(
                        plans.len(),
                        |i: int| plan_tree(inputs[i], plans[i], format_source, can_apply),
                    ),
                ),
            ),
            ("conflicts"@, JsonTree::Array(all_conflicts(inputs, plans))),
            ("can_apply"@, JsonTree::Bool(can_apply)),
        ],
    )
}

/// Tells of the plans of an artist as they would be named.
pub fn preview_answer(artist_id: i64, inputs: &[PlanInput], shown: &TemplatePreview) -> (r: Json)
    requires
        inputs@.len() == shown.plans@.len(),
    ensures
        r.tree() == preview_tree(
            artist_id,
            inputs@,
            shown.profile@,
            shown.format_source@,
            preview_views(shown.plans@),
            shown.can_apply,
        ),
{
    let ghost all = preview_views(shown.plans@);
    let mut plans: Vec<Json> = Vec::new();
    let mut i: usize = 0;
    while i < shown.plans.len()
        invariant
            i <= shown.plans@.len(),
            inputs@.len() == shown.plans@.len(),
            all == preview_views(shown.plans@),
            plans@.len() == i,
            forall|k: int|
                0 <= k < i ==> (#[trigger] plans@[k]).tree() == plan_tree(
                    inputs@[k],
                    all[k],
                    shown.format_source@,
                    shown.can_apply,
                ),
        decreases shown.plans@.len() - i,
    {
        plans.push(
            plan_answer(&inputs[i], &shown.plans[i], &shown.format_source, shown.can_apply),
        );
        i += 1;
    }
    let conflicts = list_all_conflicts(inputs, &shown.plans);
    let ghost told = Seq::new(
        all.len(),
        |i: int| plan_tree(inputs@[i], all[i], shown.format_source@, shown.can_apply),
    );
    assert(doc_trees(plans@) =~= told);
    let mut members: Vec<(String, Json)> = Vec::new();
    members.push(entry("ok", Json::Bool(shown.can_apply)));
    members.push(entry("artist_id", Json::Int(artist_id)));
    members.push(entry("profile", shown.profile.to_json()));
    members.push(text_member("format_source", &shown.format_source));
    members.push(entry("plans", array(plans)));
    members.push(entry("conflicts", array(conflicts)));
    members.push(entry("can_apply", Json::Bool(shown.can_apply)));
    assert(entry_views(members@) =~= preview_tree(
        artist_id,
        inputs@,
        shown.profile@,
        shown.format_source@,
        all,
        shown.can_apply,
    )->Object_0);
    object(members)
}

/// The list of everything that stands in the way is empty if and only if nothing stands in
/// the way of any plan.
pub proof fn empty_lists_block_nothing(inputs: Seq<PlanInput>, plans: Seq<PreviewView>)
    ensures
        all_conflicts(inputs, plans).len() == 0 <==> no_conflicts(plans),
    decreases plans.len(),
{
    if plans.len() > 0 {
        let front = plans.drop_last();
        empty_lists_block_nothing(inputs, front);
        if no_conflicts(front) && plans.last().conflicts.len() == 0 {
            assert forall|i: int| 0 <= i < plans.len() implies (
            #[trigger] plans[i]).conflicts.len() == 0 by {
                if i < front.len() {
                    assert(front[i] == plans[i]);
                }
            }
        }
        if no_conflicts(plans) {
            assert(plans[plans.len() - 1].conflicts.len() == 0);
            assert forall|i: int| 0 <= i < front.len() implies (
            #[trigger] front[i]).conflicts.len() == 0 by {
                assert(front[i] == plans[i]);
            }
        }
    }
}

/// What is told of applying a preview: how many plans changed and how many did not, or
/// what stands in the way.
pub open spec fn applied_tree(
    artist_id: i64,
    inputs: Seq<PlanInput>,
    shown: TemplatePreview,
    application: Application,
) -> JsonTree {
    let plans = preview_views(shown.plans@);
    let preview = preview_tree(
        artist_id,
        inputs,
        shown.profile@,
        shown.format_source@,
        plans,
        shown.can_apply,
    );
    match application {
        Application::Blocked => JsonTree::Object(
            seq![
                ("ok"@, JsonTree::Bool(false)),
                ("applied"@, JsonTree::Number(decimal(0))),
                ("preview"@, preview),
                ("conflicts"@, JsonTree::Array(all_conflicts(inputs, plans))),
            ],
        ),
        Application::Changes { changes, skipped, .. } => JsonTree::Object(
            seq![
                ("ok"@, JsonTree::Bool(true)),
                ("updated"@, JsonTree::Number(decimal(changes@.len()))),
                ("skipped"@, JsonTree::Number(decimal(skipped as nat))),
                ("preview"@, preview),
            ],
        ),
    }
}

/// Tells of applying a preview.
pub fn applied_answer(
    artist_id: i64,
    inputs: &[PlanInput],
    shown: &TemplatePreview,
    application: &Application,
) -> (r: Json)
    requires
        inputs@.len() == shown.plans@.len(),
    ensures
        r.tree() == applied_tree(artist_id, inputs@, *shown, *application),
{
    let preview = preview_answer(artist_id, inputs, shown);
    let mut members: Vec<(String, Json)> = Vec::new();
    match application {
        Application::Blocked => {
            let conflicts = list_all_conflicts(inputs, &shown.plans);
            members.push(entry("ok", Json::Bool(false)));
            members.push(entry("applied", number(0)));
            members.push(entry("preview", preview));
            members.push(entry("conflicts", array(conflicts)));
        },
        Application::Changes { changes, skipped, snapshot: _ } => {
            members.push(entry("ok", Json::Bool(true)));
            members.push(entry("updated", number(changes.len() as u64)));
            members.push(entry("skipped", number(*skipped as u64)));
            members.push(entry("preview", preview));
        },
    }
    assert(entry_views(members@) =~= applied_tree(
        artist_id,
        inputs@,
        *shown,
        *application,
    )->Object_0);
    object(members)
}

/// The rule by which a plan was named, as it is stored with the plan.
pub fn snapshot_document(snapshot: &RuleSnapshot) -> (r: Json)
    ensures
        r.tree() == JsonTree::Object(
            seq![
                ("version"@, JsonTree::Int(snapshot.version)),
                ("profile_id"@, JsonTree::Text(snapshot.profile_id@)),
                ("profile_name"@, JsonTree::Text(snapshot.profile_name@)),
                ("profile_source"@, JsonTree::Text(snapshot.profile_source@)),
                ("profile"@, profile_tree(snapshot.profile@)),
            ],
        ),
{
    let mut members: Vec<(String, Json)> = Vec::new();
    members.push(entry("version", Json::Int(snapshot.version)));
    members.push(text_member("profile_id", &snapshot.profile_id));
    members.push(text_member("profile_name", &snapshot.profile_name));
    members.push(text_member("profile_source", &snapshot.profile_source));
    members.push(entry("profile", snapshot.profile.to_json()));
    assert(entry_views(members@) =~= seq![
        ("version"@, JsonTree::Int(snapshot.version)),
        ("profile_id"@, JsonTree::Text(snapshot.profile_id@)),
        ("profile_name"@, JsonTree::Text(snapshot.profile_name@)),
        ("profile_source"@, JsonTree::Text(snapshot.profile_source@)),
        ("profile"@, profile_tree(snapshot.profile@)),
    ]);
    object(members)
}

}
