//! Showing and applying archive naming profiles to an artist's plans.

use vstd::prelude::*;
use crate::archive_format::{
    choices, default_settings, default_settings_view, each_once, named_profile, normalize_profile,
    normalize_settings, normalized_profile, normalized_settings, profile_by_id, profile_for,
    profile_for_artist, profile_tree, profile_views, render_profile, rendered_profile, responds,
    rule_snapshot, settings_response, settings_tree, CollisionStrategy, ContextView, Profile,
    ProfileView, RenderContext, RenderedTarget, RuleSnapshot, Settings, SettingsResponse,
    SettingsView, TokenValues, TokenValuesView,
};
use crate::folder_archive::{checked_folder, validate_relative_folder};
use crate::id_list::has_id;
use crate::json::{Json, JsonTree};
use crate::text::{
    chars_of, decimal, has_prefix, lower, push_decimal, same_text, starts_with, text_of, texts,
    to_lower,
};

verus! {

/// The settings in effect, by the document that is stored.
pub open spec fn loaded(stored: Option<JsonTree>) -> Result<SettingsView, Seq<char>> {
    match stored {
        Some(doc) => normalized_settings(doc),
        None => Ok(default_settings_view()),
    }
}

/// The value of a document that may be missing.
pub open spec fn stored_tree(stored: Option<&Json>) -> Option<JsonTree> {
    match stored {
        Some(doc) => Some(doc.tree()),
        None => None,
    }
}

/// Whether a document is that of settings.
pub open spec fn documents(doc: JsonTree, s: SettingsView) -> bool {
    exists|pairs: Seq<(i64, String)>|
        each_once(pairs) && #[trigger] choices(pairs) == s.artist_profile_ids && doc
            == settings_tree(s.active_profile_id, s.profiles, pairs)
}

/// The settings in effect: those of the stored document, or the initial ones.
pub fn load(stored: Option<&Json>) -> (r: Result<Settings, String>)
    ensures
        match (r, loaded(stored_tree(stored))) {
            (Ok(a), Ok(b)) => a@ == b && each_once(a.artist_profile_ids@),
            (Err(a), Err(b)) => a@ == b,
            _ => false,
        },
{
    match stored {
        Some(doc) => normalize_settings(doc),
        None => Ok(default_settings()),
    }
}

/// Shows the settings in effect, for one artist or in general.
pub fn folder_rename_format_settings(stored: Option<&Json>, artist_id: Option<i64>) -> (r: Result<
    SettingsResponse,
    String,
>)
    ensures
        match loaded(stored_tree(stored)) {
            Ok(s) => exists|doc: JsonTree| #[trigger]
                documents(doc, s) && responds(r, doc, artist_id),
            Err(e) => r is Err && r->Err_0@ == e,
        },
{
    match load(stored) {
        Ok(s) => {
            let doc = s.to_json();
            assert(choices(s.artist_profile_ids@) == s@.artist_profile_ids);
            assert(documents(doc.tree(), s@));
            settings_response(&doc, artist_id)
        },
        Err(e) => Err(e),
    }
}

/// Replaces the settings: the document to be stored, and what is shown of it.
pub fn set_folder_rename_format_settings(value: &Json, artist_id: Option<i64>) -> (r: Result<
    (Json, Result<SettingsResponse, String>),
    String,
>)
    ensures
        match normalized_settings(value.tree()) {
            Ok(s) => r is Ok && documents(r->Ok_0.0.tree(), s) && responds(
                r->Ok_0.1,
                r->Ok_0.0.tree(),
                artist_id,
            ),
            Err(e) => r is Err && r->Err_0@ == e,
        },
{
    match normalize_settings(value) {
        Ok(s) => {
            let doc = s.to_json();
            assert(choices(s.artist_profile_ids@) == s@.artist_profile_ids);
            assert(documents(doc.tree(), s@));
            let shown = settings_response(&doc, artist_id);
            Ok((doc, shown))
        },
        Err(e) => Err(e),
    }
}

/// The key by which targets are compared: their ASCII lower case.
pub fn target_key(target: &str) -> (r: String)
    ensures
        r@ == lower(target@),
{
    text_of(&to_lower(&chars_of(target)))
}

/// A target with a running number behind its last name.
pub open spec fn numbered(target: Seq<char>, number: nat) -> Seq<char> {
    target + " ("@ + decimal(number) + ")"@
}

/// A target with a running number behind its last name.
pub fn suffixed_target(target: &str, number: usize) -> (r: String)
    ensures
        r@ == numbered(target@, number as nat),
{
    let mut out = target.to_owned();
    out.append(" (");
    push_decimal(number as u64, &mut out);
    out.append(")");
    assert(out@ =~= numbered(target@, number as nat));
    out
}

/// What the file system says of a path below the artist's folder.
#[derive(Debug)]
pub enum PathState {
    /// The path leads out of the artist's folder, or could not be looked at.
    Refused(String),
    /// The path stays inside.
    Inside {
        /// Whether anything stands there.
        exists: bool,
        /// Whether it is a directory.
        is_dir: bool,
    },
}

/// The value of a [`PathState`].
pub enum StateView {
    /// The path is refused.
    Refused(Seq<char>),
    /// The path stays inside: whether anything stands there, and whether it is a
    /// directory.
    Inside(bool, bool),
}

impl View for PathState {
    type V = StateView;

    open spec fn view(&self) -> StateView {
        match self {
            PathState::Refused(e) => StateView::Refused(e@),
            PathState::Inside { exists, is_dir } => StateView::Inside(*exists, *is_dir),
        }
    }
}

/// What is known of the file system: checked folders and their states.
#[derive(Debug)]
pub struct PathFacts {
    /// The folders that were looked at.
    pub known: Vec<(String, PathState)>,
}

/// The state of the first entry with a path.
pub open spec fn state_in(known: Seq<(Seq<char>, StateView)>, path: Seq<char>) -> Option<StateView>
    decreases known.len(),
{
    if known.len() == 0 {
        None
    } else if known[0].0 == path {
        Some(known[0].1)
    } else {
        state_in(known.skip(1), path)
    }
}

impl View for PathFacts {
    type V = Seq<(Seq<char>, StateView)>;

    open spec fn view(&self) -> Seq<(Seq<char>, StateView)> {
        self.known@.map_values(|e: (String, PathState)| (e.0@, e.1@))
    }
}

/// How far a computation comes with what is known.
#[derive(Debug)]
pub enum Progress<T> {
    /// It has its result.
    Done(T),
    /// It is refused.
    Failed(String),
    /// It has to know the state of a path first.
    Need(String),
}

/// The value of a [`Progress`].
pub enum ProgressView<T> {
    /// It has its result.
    Done(T),
    /// It is refused.
    Failed(Seq<char>),
    /// It has to know the state of a path first.
    Need(Seq<char>),
}

/// A progress agrees with its specification.
pub open spec fn progress_agrees<T: View>(r: Progress<T>, s: ProgressView<T::V>) -> bool {
    match (r, s) {
        (Progress::Done(a), ProgressView::Done(b)) => a@ == b,
        (Progress::Failed(a), ProgressView::Failed(b)) => a@ == b,
        (Progress::Need(a), ProgressView::Need(b)) => a@ == b,
        _ => false,
    }
}

/// Looks a path up: whether anything stands there and whether it is a directory.
pub open spec fn looked_up(facts: Seq<(Seq<char>, StateView)>, folder: Seq<char>) -> ProgressView<
    (bool, bool),
> {
    match checked_folder(folder) {
        Err(e) => ProgressView::Failed(e),
        Ok(path) => match state_in(facts, path) {
            None => ProgressView::Need(path),
            Some(StateView::Refused(e)) => ProgressView::Failed(e),
            Some(StateView::Inside(exists, is_dir)) => ProgressView::Done((exists, is_dir)),
        },
    }
}

/// A lookup agrees with its specification.
pub open spec fn lookup_agrees(r: Progress<(bool, bool)>, s: ProgressView<(bool, bool)>) -> bool {
    match (r, s) {
        (Progress::Done(a), ProgressView::Done(b)) => a == b,
        (Progress::Failed(a), ProgressView::Failed(b)) => a@ == b,
        (Progress::Need(a), ProgressView::Need(b)) => a@ == b,
        _ => false,
    }
}

/// Looks a path below the artist's folder up.
pub fn artist_relative_path(facts: &PathFacts, folder: &str) -> (r: Progress<(bool, bool)>)
    ensures
        lookup_agrees(r, looked_up(facts@, folder@)),
{
    let path = match validate_relative_folder(folder) {
        Ok(p) => p,
        Err(e) => {
            return Progress::Failed(e);
        },
    };
    let ghost all = facts@;
    let mut i: usize = 0;
    assert(all.skip(0) =~= all);
    while i < facts.known.len()
        invariant
            i <= facts.known@.len(),
            all == facts@,
            checked_folder(folder@) == Ok::<Seq<char>, Seq<char>>(path@),
            state_in(all.skip(i as int), path@) == state_in(all, path@),
        decreases facts.known@.len() - i,
    {
        let ghost rest = all.skip(i as int);
        assert(rest[0] == (facts.known@[i as int].0@, facts.known@[i as int].1@));
        if same_text(&facts.known[i].0, &path) {
            return match &facts.known[i].1 {
                PathState::Refused(e) => Progress::Failed(e.clone()),
                PathState::Inside { exists, is_dir } => Progress::Done((*exists, *is_dir)),
            };
        }
        assert(rest.skip(1) =~= all.skip(i as int + 1));
        i += 1;
    }
    assert(all.skip(i as int).len() == 0);
    Progress::Need(path)
}

/// Whether a list of texts holds a text.
pub fn has_key(keys: &[String], key: &str) -> (r: bool)
    ensures
        r == texts(keys@).contains(key@),
{
    let ghost all = texts(keys@);
    let mut i: usize = 0;
    while i < keys.len()
        invariant
            i <= keys@.len(),
            all == texts(keys@),
            forall|j: int| 0 <= j < i ==> all[j] != key@,
        decreases keys@.len() - i,
    {
        assert(all[i as int] == keys@[i as int]@);
        if same_text(&keys[i], key) {
            return true;
        }
        i += 1;
    }
    false
}

/// The candidates for a target: the target itself, then with the numbers from 2.
pub open spec fn candidate(requested: Seq<char>, n: nat) -> Seq<char> {
    if n < 2 {
        requested
    } else {
        numbered(requested, n)
    }
}

/// Whether a target is free: it is not the source, nobody in front has it, and
/// nothing stands there. What stands there is asked only where the rest holds.
pub open spec fn available(
    facts: Seq<(Seq<char>, StateView)>,
    target: Seq<char>,
    source_key: Seq<char>,
    seen: Seq<Seq<char>>,
) -> ProgressView<bool> {
    if lower(target) == source_key || seen.contains(lower(target)) {
        ProgressView::Done(false)
    } else {
        match looked_up(facts, target) {
            ProgressView::Done((exists, _)) => ProgressView::Done(!exists),
            ProgressView::Failed(e) => ProgressView::Failed(e),
            ProgressView::Need(p) => ProgressView::Need(p),
        }
    }
}

/// Whether a target is free.
pub fn available_target(
    facts: &PathFacts,
    target: &str,
    source_key: &str,
    seen: &[String],
) -> (r: Progress<bool>)
    ensures
        progress_agrees(r, available(facts@, target@, source_key@, texts(seen@))),
{
    let key = target_key(target);
    if same_text(&key, source_key) || has_key(seen, &key) {
        return Progress::Done(false);
    }
    match artist_relative_path(facts, target) {
        Progress::Done((exists, _)) => Progress::Done(!exists),
        Progress::Failed(e) => Progress::Failed(e),
        Progress::Need(p) => Progress::Need(p),
    }
}

/// The first free candidate from a number on.
pub open spec fn first_free(
    facts: Seq<(Seq<char>, StateView)>,
    requested: Seq<char>,
    source_key: Seq<char>,
    seen: Seq<Seq<char>>,
    n: nat,
) -> ProgressView<Seq<char>>
    decreases usize::MAX - n,
{
    match available(facts, candidate(requested, n), source_key, seen) {
        ProgressView::Failed(e) => ProgressView::Failed(e),
        ProgressView::Need(p) => ProgressView::Need(p),
        ProgressView::Done(free) => if free {
            ProgressView::Done(candidate(requested, n))
        } else if n >= usize::MAX {
            ProgressView::Failed("no free target number is left"@)
        } else {
            first_free(facts, requested, source_key, seen, n + 1)
        },
    }
}

/// The first free candidate for a target.
pub fn free_target(facts: &PathFacts, requested: &str, source_key: &str, seen: &[String]) -> (r:
    Progress<String>)
    ensures
        progress_agrees(r, first_free(facts@, requested@, source_key@, texts(seen@), 1)),
{
    let mut n: usize = 1;
    let mut target = requested.to_owned();
    loop
        invariant
            1 <= n,
            target@ == candidate(requested@, n as nat),
            first_free(facts@, requested@, source_key@, texts(seen@), 1) == first_free(
                facts@,
                requested@,
                source_key@,
                texts(seen@),
                n as nat,
            ),
        decreases usize::MAX - n,
    {
        match available_target(facts, &target, source_key, seen) {
            Progress::Failed(e) => {
                return Progress::Failed(e);
            },
            Progress::Need(p) => {
                return Progress::Need(p);
            },
            Progress::Done(free) => {
                if free {
                    return Progress::Done(target);
                }
            },
        }
        if n == usize::MAX {
            return Progress::Failed("no free target number is left".to_owned());
        }
        n += 1;
        target = suffixed_target(requested, n);
    }
}

/// A free target is free: it is not the source, nobody in front has it, and
/// nothing stands there.
pub proof fn free_targets_are_free(
    facts: Seq<(Seq<char>, StateView)>,
    requested: Seq<char>,
    source_key: Seq<char>,
    seen: Seq<Seq<char>>,
    n: nat,
)
    ensures
        first_free(facts, requested, source_key, seen, n) matches ProgressView::Done(t) ==> {
            &&& lower(t) != source_key
            &&& !seen.contains(lower(t))
            &&& looked_up(facts, t) is Done
            &&& !looked_up(facts, t)->Done_0.0
        },
    decreases usize::MAX - n,
{
    match available(facts, candidate(requested, n), source_key, seen) {
        ProgressView::Done(free) => if !free && n < usize::MAX {
            free_targets_are_free(facts, requested, source_key, seen, n + 1);
        },
        _ => {},
    }
}

/// A plan that is to be named.
#[derive(Debug)]
pub struct PlanInput {
    /// The plan.
    pub id: i64,
    /// Its source folder.
    pub source_folder: String,
    /// Its title.
    pub title: String,
    /// Its date, empty where none is stored.
    pub date: String,
    /// The date in the folder's name.
    pub folder_date: String,
    /// The artist's name.
    pub artist: String,
    /// The names of its selected tags, as far as they were found.
    pub selected_tags: Vec<String>,
    /// The names of the tags of its items.
    pub item_tags: Vec<String>,
    /// Its status.
    pub status: String,
}

/// What stands in the way of a plan.
#[derive(Clone, Copy, PartialEq, Eq, Debug, Structural)]
pub enum ConflictCode {
    /// Its items have different tags.
    InconsistentTags,
    /// Its source folder is not there.
    SourceMissing,
    /// Its target is its source.
    SameAsSource,
    /// Something stands at its target.
    TargetExists,
    /// A plan in front has the same target.
    DuplicateTarget,
    /// Its target lies in its source.
    TargetInsideSource,
}

impl ConflictCode {
    /// The code in an answer.
    pub open spec fn spelled(self) -> Seq<char> {
        match self {
            ConflictCode::InconsistentTags => "inconsistent_tags"@,
            ConflictCode::SourceMissing => "source_missing"@,
            ConflictCode::SameAsSource => "same_as_source"@,
            ConflictCode::TargetExists => "target_exists"@,
            ConflictCode::DuplicateTarget => "duplicate_target"@,
            ConflictCode::TargetInsideSource => "target_inside_source"@,
        }
    }

    /// The code in an answer.
    pub fn code(self) -> (r: &'static str)
        ensures
            r@ == self.spelled(),
    {
        match self {
            ConflictCode::InconsistentTags => "inconsistent_tags",
            ConflictCode::SourceMissing => "source_missing",
            ConflictCode::SameAsSource => "same_as_source",
            ConflictCode::TargetExists => "target_exists",
            ConflictCode::DuplicateTarget => "duplicate_target",
            ConflictCode::TargetInsideSource => "target_inside_source",
        }
    }
}

/// A plan as it would be named.
#[derive(Debug)]
pub struct PlanPreview {
    /// The plan.
    pub id: i64,
    /// Its target folder.
    pub target_folder: String,
    /// The values of its tokens.
    pub tokens: TokenValues,
    /// Whether applying changes the plan, as far as its status goes.
    pub will_apply: bool,
    /// What stands in its way.
    pub conflicts: Vec<ConflictCode>,
}

/// The value of a [`PlanPreview`].
pub struct PreviewView {
    /// The plan.
    pub id: i64,
    /// Its target folder.
    pub target_folder: Seq<char>,
    /// The values of its tokens.
    pub tokens: TokenValuesView,
    /// Whether applying changes the plan.
    pub will_apply: bool,
    /// What stands in its way.
    pub conflicts: Seq<ConflictCode>,
}

impl View for PlanPreview {
    type V = PreviewView;

    open spec fn view(&self) -> PreviewView {
        PreviewView {
            id: self.id,
            target_folder: self.target_folder@,
            tokens: self.tokens@,
            will_apply: self.will_apply,
            conflicts: self.conflicts@,
        }
    }
}

/// The texts of a list that are not empty.
pub open spec fn not_empty(names: Seq<Seq<char>>) -> Seq<Seq<char>>
    decreases names.len(),
{
    if names.len() == 0 {
        Seq::empty()
    } else if names.last().len() > 0 {
        not_empty(names.drop_last()).push(names.last())
    } else {
        not_empty(names.drop_last())
    }
}

/// Copies of the strings of a list that are not empty.
fn keep_not_empty(names: &[String]) -> (r: Vec<String>)
    ensures
        texts(r@) == not_empty(texts(names@)),
{
    let ghost all = texts(names@);
    let mut out: Vec<String> = Vec::new();
    let mut i: usize = 0;
    assert(texts(out@) =~= Seq::<Seq<char>>::empty());
    while i < names.len()
        invariant
            i <= names@.len(),
            all == texts(names@),
            texts(out@) == not_empty(all.take(i as int)),
        decreases names@.len() - i,
    {
        let ghost now = all.take(i as int + 1);
        assert(now.drop_last() =~= all.take(i as int));
        assert(now.last() == names@[i as int]@);
        if !names[i].as_str().is_empty() {
            let ghost before = out@;
            out.push(names[i].clone());
            assert(texts(out@) =~= texts(before).push(names@[i as int]@));
        }
        i += 1;
    }
    assert(all.take(all.len() as int) =~= all);
    out
}

/// Copies of strings.
fn copy_texts(names: &[String]) -> (r: Vec<String>)
    ensures
        texts(r@) == texts(names@),
{
    let mut out: Vec<String> = Vec::new();
    let mut i: usize = 0;
    while i < names.len()
        invariant
            i <= names@.len(),
            out@.len() == i,
            forall|j: int| 0 <= j < i ==> (#[trigger] out@[j])@ == names@[j]@,
        decreases names@.len() - i,
    {
        out.push(names[i].clone());
        i += 1;
    }
    assert(texts(out@) =~= texts(names@));
    out
}

/// The context that a plan is rendered with: its own date or else that of its
/// folder, its selected tags or else those of its items.
pub open spec fn context_of(plan: PlanInput, index: nat) -> ContextView {
    let selected = not_empty(texts(plan.selected_tags@));
    ContextView {
        artist: plan.artist@,
        date: if plan.date@.len() == 0 {
            plan.folder_date@
        } else {
            plan.date@
        },
        tags: if selected.len() == 0 {
            texts(plan.item_tags@)
        } else {
            selected
        },
        title: plan.title@,
        folder: plan.source_folder@,
        index,
    }
}

/// The context that a plan is rendered with.
fn make_context(plan: &PlanInput, index: usize) -> (r: RenderContext)
    ensures
        r@ == context_of(*plan, index as nat),
{
    let selected = keep_not_empty(&plan.selected_tags);
    assert(texts(selected@).len() == selected@.len());
    let tags = if selected.len() == 0 {
        copy_texts(&plan.item_tags)
    } else {
        selected
    };
    let date = if plan.date.as_str().is_empty() {
        plan.folder_date.clone()
    } else {
        plan.date.clone()
    };
    RenderContext {
        artist: plan.artist.clone(),
        date,
        tags,
        title: plan.title.clone(),
        folder: plan.source_folder.clone(),
        index,
    }
}

/// What stands in the way of a plan, in the order in which it is listed.
pub open spec fn conflicts_of(
    status: Seq<char>,
    source_key: Seq<char>,
    key: Seq<char>,
    seen: Seq<Seq<char>>,
    source_is_dir: bool,
    target_exists: bool,
    target_is_dir: bool,
    merge: bool,
) -> Seq<ConflictCode> {
    let a = if status == "inconsistent_tags"@ {
        seq![ConflictCode::InconsistentTags]
    } else {
        Seq::empty()
    };
    let b = if !source_is_dir {
        a.push(ConflictCode::SourceMissing)
    } else {
        a
    };
    let c = if key == source_key && !merge {
        b.push(ConflictCode::SameAsSource)
    } else if target_exists && !(merge && target_is_dir) {
        b.push(ConflictCode::TargetExists)
    } else {
        b
    };
    let d = if seen.contains(key) && !merge {
        c.push(ConflictCode::DuplicateTarget)
    } else {
        c
    };
    if starts_with(key, source_key + seq!['/']) {
        d.push(ConflictCode::TargetInsideSource)
    } else {
        d
    }
}

/// What stands in the way of a plan.
fn list_conflicts(
    status: &str,
    source_key: &str,
    key: &str,
    seen: &[String],
    source_is_dir: bool,
    target_exists: bool,
    target_is_dir: bool,
    merge: bool,
) -> (r: Vec<ConflictCode>)
    ensures
        r@ == conflicts_of(
            status@,
            source_key@,
            key@,
            texts(seen@),
            source_is_dir,
            target_exists,
            target_is_dir,
            merge,
        ),
{
    let mut out: Vec<ConflictCode> = Vec::new();
    if same_text(status, "inconsistent_tags") {
        out.push(ConflictCode::InconsistentTags);
        assert(out@ =~= seq![ConflictCode::InconsistentTags]);
    }
    if !source_is_dir {
        out.push(ConflictCode::SourceMissing);
    }
    if same_text(key, source_key) && !merge {
        out.push(ConflictCode::SameAsSource);
    } else if target_exists && !(merge && target_is_dir) {
        out.push(ConflictCode::TargetExists);
    }
    if has_key(seen, key) && !merge {
        out.push(ConflictCode::DuplicateTarget);
    }
    let mut prefix = chars_of(source_key);
    prefix.push('/');
    assert(prefix@ =~= source_key@ + seq!['/']);
    if has_prefix(&chars_of(key), &prefix) {
        out.push(ConflictCode::TargetInsideSource);
    }
    out
}

/// Whether applying changes a plan with a status.
pub open spec fn applies_to(status: Seq<char>) -> bool {
    status != "confirmed"@ && status != "executed"@ && status != "inconsistent_tags"@
}

/// The target of a plan: the rendered one, or the first free candidate where
/// collisions get a number and the target is not the source.
pub open spec fn chosen_target(
    facts: Seq<(Seq<char>, StateView)>,
    requested: Seq<char>,
    source_key: Seq<char>,
    seen: Seq<Seq<char>>,
    strategy: CollisionStrategy,
) -> ProgressView<Seq<char>> {
    if strategy == CollisionStrategy::Suffix && lower(requested) != source_key {
        first_free(facts, requested, source_key, seen, 1)
    } else {
        ProgressView::Done(requested)
    }
}

/// A plan as it would be named, with given rendering: the target is chosen, its
/// source and target are looked up, and the conflicts are listed.
pub open spec fn previewed_plan(
    facts: Seq<(Seq<char>, StateView)>,
    plan: PlanInput,
    requested: Seq<char>,
    tokens: TokenValuesView,
    seen: Seq<Seq<char>>,
    strategy: CollisionStrategy,
) -> ProgressView<PreviewView> {
    let source_key = lower(plan.source_folder@);
    match chosen_target(facts, requested, source_key, seen, strategy) {
        ProgressView::Failed(e) => ProgressView::Failed(e),
        ProgressView::Need(p) => ProgressView::Need(p),
        ProgressView::Done(target) => match looked_up(facts, plan.source_folder@) {
            ProgressView::Failed(e) => ProgressView::Failed(e),
            ProgressView::Need(p) => ProgressView::Need(p),
            ProgressView::Done((_, source_is_dir)) => match looked_up(facts, target) {
                ProgressView::Failed(e) => ProgressView::Failed(e),
                ProgressView::Need(p) => ProgressView::Need(p),
                ProgressView::Done((target_exists, target_is_dir)) => ProgressView::Done(
                    PreviewView {
                        id: plan.id,
                        target_folder: target,
                        tokens,
                        will_apply: applies_to(plan.status@),
                        conflicts: conflicts_of(
                            plan.status@,
                            source_key,
                            lower(target),
                            seen,
                            source_is_dir,
                            target_exists,
                            target_is_dir,
                            strategy == CollisionStrategy::Merge,
                        ),
                    },
                ),
            },
        },
    }
}

/// Names one plan with a given rendering.
pub fn preview_rendered_plan(
    facts: &PathFacts,
    plan: &PlanInput,
    rendered: RenderedTarget,
    seen: &[String],
    strategy: CollisionStrategy,
) -> (r: Progress<PlanPreview>)
    ensures
        progress_agrees(
            r,
            previewed_plan(
                facts@,
                *plan,
                rendered.target_folder@,
                rendered.tokens@,
                texts(seen@),
                strategy,
            ),
        ),
{
    let source_key = target_key(&plan.source_folder);
    let requested_key = target_key(&rendered.target_folder);
    let numbers = match strategy {
        CollisionStrategy::Suffix => true,
        _ => false,
    };
    let merge = match strategy {
        CollisionStrategy::Merge => true,
        _ => false,
    };
    let target = if numbers && !same_text(&requested_key, &source_key) {
        match free_target(facts, &rendered.target_folder, &source_key, seen) {
            Progress::Done(t) => t,
            Progress::Failed(e) => {
                return Progress::Failed(e);
            },
            Progress::Need(p) => {
                return Progress::Need(p);
            },
        }
    } else {
        rendered.target_folder.clone()
    };
    let (_, source_is_dir) = match artist_relative_path(facts, &plan.source_folder) {
        Progress::Done(v) => v,
        Progress::Failed(e) => {
            return Progress::Failed(e);
        },
        Progress::Need(p) => {
            return Progress::Need(p);
        },
    };
    let (target_exists, target_is_dir) = match artist_relative_path(facts, &target) {
        Progress::Done(v) => v,
        Progress::Failed(e) => {
            return Progress::Failed(e);
        },
        Progress::Need(p) => {
            return Progress::Need(p);
        },
    };
    let key = target_key(&target);
    let conflicts = list_conflicts(
        &plan.status,
        &source_key,
        &key,
        seen,
        source_is_dir,
        target_exists,
        target_is_dir,
        merge,
    );
    let will_apply = !same_text(&plan.status, "confirmed") && !same_text(&plan.status, "executed")
        && !same_text(&plan.status, "inconsistent_tags");
    Progress::Done(
        PlanPreview {
            id: plan.id,
            target_folder: target,
            tokens: rendered.tokens,
            will_apply,
            conflicts,
        },
    )
}

/// A plan as it would be named by a profile, behind plans whose target keys were
/// seen.
#[verifier::opaque]
pub open spec fn plan_named(
    facts: Seq<(Seq<char>, StateView)>,
    doc: JsonTree,
    strategy: CollisionStrategy,
    plan: PlanInput,
    index: nat,
    seen: Seq<Seq<char>>,
) -> ProgressView<PreviewView> {
    match rendered_profile(doc, context_of(plan, index)) {
        Err(e) => ProgressView::Failed(e),
        Ok((requested, tokens)) => previewed_plan(facts, plan, requested, tokens, seen, strategy),
    }
}

/// Names a plan by a profile.
fn name_plan(
    facts: &PathFacts,
    profile: &Json,
    strategy: CollisionStrategy,
    plan: &PlanInput,
    index: usize,
    seen: &Vec<String>,
) -> (r: Progress<PlanPreview>)
    ensures
        progress_agrees(
            r,
            plan_named(facts@, profile.tree(), strategy, *plan, index as nat, texts(seen@)),
        ),
{
    proof {
        reveal(plan_named);
    }
    let context = make_context(plan, index);
    match render_profile(profile, &context) {
        Ok(rendered) => preview_rendered_plan(facts, plan, rendered, seen, strategy),
        Err(e) => Progress::Failed(e),
    }
}

/// The plans of a list as they would be named, and the keys of their targets.
pub open spec fn previewed_plans(
    facts: Seq<(Seq<char>, StateView)>,
    doc: JsonTree,
    strategy: CollisionStrategy,
    plans: Seq<PlanInput>,
    start: nat,
) -> ProgressView<(Seq<PreviewView>, Seq<Seq<char>>)>
    decreases plans.len(),
{
    if plans.len() == 0 {
        ProgressView::Done((Seq::empty(), Seq::empty()))
    } else {
        match previewed_plans(facts, doc, strategy, plans.drop_last(), start) {
            ProgressView::Failed(e) => ProgressView::Failed(e),
            ProgressView::Need(p) => ProgressView::Need(p),
            ProgressView::Done((before, seen)) => {
                let index = (start + plans.len() - 1) as nat;
                match plan_named(facts, doc, strategy, plans.last(), index, seen) {
                    ProgressView::Failed(e) => ProgressView::Failed(e),
                    ProgressView::Need(p) => ProgressView::Need(p),
                    ProgressView::Done(v) => ProgressView::Done(
                        (before.push(v), seen.push(lower(v.target_folder))),
                    ),
                }
            },
        }
    }
}

/// The values of previews.
pub open spec fn preview_views(plans: Seq<PlanPreview>) -> Seq<PreviewView> {
    plans.map_values(|p: PlanPreview| p@)
}

/// A list of previews agrees with its specification.
pub open spec fn previews_agree(
    r: Progress<Vec<PlanPreview>>,
    s: ProgressView<(Seq<PreviewView>, Seq<Seq<char>>)>,
) -> bool {
    match (r, s) {
        (Progress::Done(a), ProgressView::Done(b)) => preview_views(a@) == b.0,
        (Progress::Failed(a), ProgressView::Failed(b)) => a@ == b,
        (Progress::Need(a), ProgressView::Need(b)) => a@ == b,
        _ => false,
    }
}

/// What stops the first plans stops the list.
proof fn lemma_previews_stop(
    facts: Seq<(Seq<char>, StateView)>,
    doc: JsonTree,
    strategy: CollisionStrategy,
    plans: Seq<PlanInput>,
    start: nat,
    n: int,
)
    requires
        0 <= n <= plans.len(),
        !(previewed_plans(facts, doc, strategy, plans.take(n), start) is Done),
    ensures
        previewed_plans(facts, doc, strategy, plans, start) == previewed_plans(
            facts,
            doc,
            strategy,
            plans.take(n),
            start,
        ),
    decreases plans.len(),
{
    if n == plans.len() {
        assert(plans.take(n) =~= plans);
    } else {
        assert(plans.drop_last().take(n) =~= plans.take(n));
        lemma_previews_stop(facts, doc, strategy, plans.drop_last(), start, n);
    }
}

/// Names the plans of a list, one after the other.
pub fn preview_plans(
    facts: &PathFacts,
    profile: &Json,
    strategy: CollisionStrategy,
    plans: &[PlanInput],
    start: usize,
) -> (r: Progress<Vec<PlanPreview>>)
    requires
        start + plans@.len() <= usize::MAX,
    ensures
        previews_agree(
            r,
            previewed_plans(facts@, profile.tree(), strategy, plans@, start as nat),
        ),
{
    let mut out: Vec<PlanPreview> = Vec::new();
    let mut seen: Vec<String> = Vec::new();
    let mut i: usize = 0;
    proof {
        assert(preview_views(out@) =~= Seq::<PreviewView>::empty());
        assert(texts(seen@) =~= Seq::<Seq<char>>::empty());
        assert(plans@.take(0) =~= Seq::<PlanInput>::empty());
    }
    while i < plans.len()
        invariant
            i <= plans@.len(),
            start + plans@.len() <= usize::MAX,
            previewed_plans(facts@, profile.tree(), strategy, plans@.take(i as int), start as nat)
                == ProgressView::Done((preview_views(out@), texts(seen@))),
        decreases plans@.len() - i,
    {
        let ghost now = plans@.take(i as int + 1);
        proof {
            assert(now.drop_last() =~= plans@.take(i as int));
            assert(now.last() == plans@[i as int]);
            if !(previewed_plans(facts@, profile.tree(), strategy, now, start as nat) is Done) {
                lemma_previews_stop(
                    facts@,
                    profile.tree(),
                    strategy,
                    plans@,
                    start as nat,
                    i as int + 1,
                );
            }
        }
        match name_plan(facts, profile, strategy, &plans[i], start + i, &seen) {
            Progress::Failed(e) => {
                return Progress::Failed(e);
            },
            Progress::Need(p) => {
                return Progress::Need(p);
            },
            Progress::Done(v) => {
                let key = target_key(&v.target_folder);
                let ghost before = out@;
                let ghost seen_before = seen@;
                let ghost view = v@;
                let ghost k = key@;
                seen.push(key);
                out.push(v);
                assert(preview_views(out@) =~= preview_views(before).push(view));
                assert(texts(seen@) =~= texts(seen_before).push(k));
            },
        }
        i += 1;
    }
    assert(plans@.take(plans@.len() as int) =~= plans@);
    Progress::Done(out)
}

/// Where collisions get a number, no plan is in conflict over its target: it is
/// neither taken nor that of a plan in front, unless it is the plan's source.
pub proof fn numbered_targets_do_not_collide(
    facts: Seq<(Seq<char>, StateView)>,
    plan: PlanInput,
    requested: Seq<char>,
    tokens: TokenValuesView,
    seen: Seq<Seq<char>>,
)
    requires
        previewed_plan(facts, plan, requested, tokens, seen, CollisionStrategy::Suffix) is Done,
        lower(requested) != lower(plan.source_folder@),
    ensures
        ({
            let v = previewed_plan(
                facts,
                plan,
                requested,
                tokens,
                seen,
                CollisionStrategy::Suffix,
            )->Done_0;
            &&& !v.conflicts.contains(ConflictCode::TargetExists)
            &&& !v.conflicts.contains(ConflictCode::DuplicateTarget)
            &&& !v.conflicts.contains(ConflictCode::SameAsSource)
        }),
{
    free_targets_are_free(facts, requested, lower(plan.source_folder@), seen, 1);
}

/// The profile that is used for naming, and where it comes from.
#[derive(Debug)]
pub struct ChosenProfile {
    /// The profile.
    pub profile: Profile,
    /// Where it comes from.
    pub source: String,
}

/// The outcome of choosing a profile: the given template on top of the first
/// profile, else the profile with the given id, else the artist's profile.
/// `doc` is the document of the settings.
pub open spec fn chosen_profile(
    doc: JsonTree,
    profiles: Seq<ProfileView>,
    artist_id: int,
    profile_id: Option<Seq<char>>,
    template: Option<Seq<char>>,
) -> Result<(ProfileView, Seq<char>), Seq<char>> {
    match template {
        Some(t) => match normalized_profile(
            profile_tree(ProfileView { template: t, ..profiles[0] }),
        ) {
            Ok(p) => Ok((p, "inline"@)),
            Err(e) => Err(e),
        },
        None => match profile_id {
            Some(id) => match named_profile(doc, id) {
                Ok(p) => Ok((p, "profile:"@ + id)),
                Err(e) => Err(e),
            },
            None => match profile_for(doc, artist_id) {
                Ok((p, source)) => Ok((p, source.spelled())),
                Err(e) => Err(e),
            },
        },
    }
}

/// Chooses the profile that is used for naming.
pub fn choose_profile(
    settings: &Settings,
    artist_id: i64,
    profile_id: Option<&str>,
    template: Option<&str>,
) -> (r: Result<ChosenProfile, String>)
    requires
        settings.profiles@.len() > 0,
    ensures
        match (
            r,
            chosen_profile(
                settings_tree(
                    settings.active_profile_id@,
                    profile_views(settings.profiles@),
                    settings.artist_profile_ids@,
                ),
                profile_views(settings.profiles@),
                artist_id as int,
                match profile_id {
                    Some(id) => Some(id@),
                    None => None,
                },
                match template {
                    Some(t) => Some(t@),
                    None => None,
                },
            ),
        ) {
            (Ok(a), Ok(b)) => a.profile@ == b.0 && a.source@ == b.1,
            (Err(a), Err(b)) => a@ == b,
            _ => false,
        },
{
    match template {
        Some(t) => {
            let mut base = settings.profiles[0].duplicate();
            assert(profile_views(settings.profiles@)[0] == settings.profiles@[0]@);
            base.template = t.to_owned();
            match normalize_profile(&base.to_json()) {
                Ok(profile) => Ok(ChosenProfile { profile, source: "inline".to_owned() }),
                Err(e) => Err(e),
            }
        },
        None => {
            let doc = settings.to_json();
            match profile_id {
                Some(id) => match profile_by_id(&doc, id) {
                    Ok(profile) => {
                        let mut source = "profile:".to_owned();
                        source.append(id);
                        Ok(ChosenProfile { profile, source })
                    },
                    Err(e) => Err(e),
                },
                None => match profile_for_artist(&doc, artist_id) {
                    Ok((profile, source)) => Ok(
                        ChosenProfile { profile, source: source.name().to_owned() },
                    ),
                    Err(e) => Err(e),
                },
            }
        },
    }
}

/// The plans of an artist as they would be named.
#[derive(Debug)]
pub struct TemplatePreview {
    /// The profile that was used.
    pub profile: Profile,
    /// Where it comes from.
    pub format_source: String,
    /// The plans.
    pub plans: Vec<PlanPreview>,
    /// Whether nothing stands in the way of any plan.
    pub can_apply: bool,
}

/// Whether nothing stands in the way of any plan.
pub open spec fn no_conflicts(plans: Seq<PreviewView>) -> bool {
    forall|i: int| 0 <= i < plans.len() ==> (#[trigger] plans[i]).conflicts.len() == 0
}

/// Whether nothing stands in the way of any plan.
fn without_conflicts(plans: &[PlanPreview]) -> (r: bool)
    ensures
        r == no_conflicts(preview_views(plans@)),
{
    let ghost all = preview_views(plans@);
    let mut i: usize = 0;
    while i < plans.len()
        invariant
            i <= plans@.len(),
            all == preview_views(plans@),
            forall|j: int| 0 <= j < i ==> (#[trigger] all[j]).conflicts.len() == 0,
        decreases plans@.len() - i,
    {
        assert(all[i as int] == plans@[i as int]@);
        if plans[i].conflicts.len() > 0 {
            assert(all[i as int].conflicts.len() > 0);
            return false;
        }
        i += 1;
    }
    true
}

/// Shows how a profile would name an artist's plans. Where the state of a path
/// is not known yet, it is asked for.
pub fn preview_folder_rename_template(
    facts: &PathFacts,
    chosen: &ChosenProfile,
    plans: &[PlanInput],
    index_start: Option<usize>,
) -> (r: Progress<TemplatePreview>)
    requires
        index_start matches Some(n) ==> n + plans@.len() <= usize::MAX,
        plans@.len() < usize::MAX,
    ensures
        ({
            let start: nat = match index_start {
                Some(n) => if n == 0 {
                    1
                } else {
                    n as nat
                },
                None => 1,
            };
            match (
                r,
                previewed_plans(
                    facts@,
                    profile_tree(chosen.profile@),
                    chosen.profile.collision_strategy,
                    plans@,
                    start,
                ),
            ) {
                (Progress::Done(a), ProgressView::Done(b)) => a.profile@ == chosen.profile@
                    && a.format_source@ == chosen.source@ && preview_views(a.plans@) == b.0
                    && a.can_apply == no_conflicts(b.0),
                (Progress::Failed(a), ProgressView::Failed(b)) => a@ == b,
                (Progress::Need(a), ProgressView::Need(b)) => a@ == b,
                _ => false,
            }
        }),
{
    let start: usize = match index_start {
        Some(n) => if n == 0 {
            1
        } else {
            n
        },
        None => 1,
    };
    let doc = chosen.profile.to_json();
    match preview_plans(facts, &doc, chosen.profile.collision_strategy, plans, start) {
        Progress::Done(plans) => {
            let can_apply = without_conflicts(&plans);
            Progress::Done(
                TemplatePreview {
                    profile: chosen.profile.duplicate(),
                    format_source: chosen.source.clone(),
                    plans,
                    can_apply,
                },
            )
        },
        Progress::Failed(e) => Progress::Failed(e),
        Progress::Need(p) => Progress::Need(p),
    }
}

/// A change of a plan.
#[derive(Debug)]
pub struct PlanChange {
    /// The plan.
    pub id: i64,
    /// Its target folder.
    pub target_folder: String,
    /// Its status: ready where it has a target, else a draft.
    pub status: String,
}

/// The values of changes.
pub open spec fn change_views(changes: Seq<PlanChange>) -> Seq<(i64, Seq<char>, Seq<char>)> {
    changes.map_values(|c: PlanChange| (c.id, c.target_folder@, c.status@))
}

/// The changes that applying a preview makes, each for a plan whose status
/// allows it.
pub open spec fn applied_changes(plans: Seq<PreviewView>) -> Seq<(i64, Seq<char>, Seq<char>)>
    decreases plans.len(),
{
    if plans.len() == 0 {
        Seq::empty()
    } else {
        let p = plans.last();
        let before = applied_changes(plans.drop_last());
        if p.will_apply {
            before.push(
                (
                    p.id,
                    p.target_folder,
                    if p.target_folder.len() == 0 {
                        "draft"@
                    } else {
                        "ready"@
                    },
                ),
            )
        } else {
            before
        }
    }
}

/// What applying a preview does.
#[derive(Debug)]
pub enum Application {
    /// Something stands in the way, so nothing is done.
    Blocked,
    /// The plans change.
    Changes {
        /// The changes.
        changes: Vec<PlanChange>,
        /// How many plans their status keeps as they are.
        skipped: usize,
        /// The rule by which they are named.
        snapshot: RuleSnapshot,
    },
}

/// Decides what applying a preview does: all of its plans, or none.
pub fn apply_folder_rename_template(preview: &TemplatePreview) -> (r: Application)
    ensures
        match r {
            Application::Blocked => !preview.can_apply,
            Application::Changes { changes, skipped, snapshot } => {
                &&& preview.can_apply
                &&& change_views(changes@) == applied_changes(preview_views(preview.plans@))
                &&& skipped == preview.plans@.len() - changes@.len()
                &&& snapshot.version == crate::archive_format::SETTINGS_VERSION
                &&& snapshot.profile@ == preview.profile@
                &&& snapshot.profile_id@ == preview.profile.id@
                &&& snapshot.profile_name@ == preview.profile.name@
                &&& snapshot.profile_source@ == preview.format_source@
            },
        },
{
    if !preview.can_apply {
        return Application::Blocked;
    }
    let ghost all = preview_views(preview.plans@);
    let mut changes: Vec<PlanChange> = Vec::new();
    let mut i: usize = 0;
    assert(change_views(changes@) =~= Seq::<(i64, Seq<char>, Seq<char>)>::empty());
    while i < preview.plans.len()
        invariant
            i <= preview.plans@.len(),
            all == preview_views(preview.plans@),
            changes@.len() <= i,
            change_views(changes@) == applied_changes(all.take(i as int)),
        decreases preview.plans@.len() - i,
    {
        let ghost now = all.take(i as int + 1);
        assert(now.drop_last() =~= all.take(i as int));
        assert(now.last() == preview.plans@[i as int]@);
        if preview.plans[i].will_apply {
            let target_folder = preview.plans[i].target_folder.clone();
            let status = if target_folder.as_str().is_empty() {
                "draft".to_owned()
            } else {
                "ready".to_owned()
            };
            let ghost before = changes@;
            let ghost change = (preview.plans@[i as int].id, target_folder@, status@);
            changes.push(PlanChange { id: preview.plans[i].id, target_folder, status });
            assert(change_views(changes@) =~= change_views(before).push(change));
        }
        i += 1;
    }
    assert(all.take(all.len() as int) =~= all);
    let skipped = preview.plans.len() - changes.len();
    Application::Changes {
        changes,
        skipped,
        snapshot: rule_snapshot(&preview.profile, &preview.format_source),
    }
}

/// The plans that an automatic run names: the drafts with a target and nothing in
/// their way.
pub open spec fn nameable(plans: Seq<PreviewView>, drafts: Seq<i64>) -> Seq<(i64, Seq<char>)>
    decreases plans.len(),
{
    if plans.len() == 0 {
        Seq::empty()
    } else {
        let p = plans.last();
        let before = nameable(plans.drop_last(), drafts);
        if p.target_folder.len() > 0 && p.conflicts.len() == 0 && drafts.contains(p.id) {
            before.push((p.id, p.target_folder))
        } else {
            before
        }
    }
}

/// The plans that an automatic run names, with their targets. `drafts` are those
/// that are drafts.
pub fn auto_name_artist_draft_plans(preview: &TemplatePreview, drafts: &[i64]) -> (r: Vec<
    PlanChange,
>)
    ensures
        r@.map_values(|c: PlanChange| (c.id, c.target_folder@)) == nameable(
            preview_views(preview.plans@),
            drafts@,
        ),
        forall|i: int| 0 <= i < r@.len() ==> (#[trigger] r@[i]).status@ == "ready"@,
{
    let ghost all = preview_views(preview.plans@);
    let ghost f = |c: PlanChange| (c.id, c.target_folder@);
    let mut out: Vec<PlanChange> = Vec::new();
    let mut i: usize = 0;
    assert(out@.map_values(f) =~= Seq::<(i64, Seq<char>)>::empty());
    while i < preview.plans.len()
        invariant
            i <= preview.plans@.len(),
            all == preview_views(preview.plans@),
            f == (|c: PlanChange| (c.id, c.target_folder@)),
            out@.map_values(f) == nameable(all.take(i as int), drafts@),
            forall|k: int| 0 <= k < out@.len() ==> (#[trigger] out@[k]).status@ == "ready"@,
        decreases preview.plans@.len() - i,
    {
        let ghost now = all.take(i as int + 1);
        assert(now.drop_last() =~= all.take(i as int));
        assert(now.last() == preview.plans@[i as int]@);
        if !preview.plans[i].target_folder.as_str().is_empty() && preview.plans[i].conflicts.len()
            == 0 && has_id(drafts, preview.plans[i].id) {
            let ghost before = out@;
            let target_folder = preview.plans[i].target_folder.clone();
            let ghost pair = (preview.plans@[i as int].id, target_folder@);
            out.push(
                PlanChange {
                    id: preview.plans[i].id,
                    target_folder,
                    status: "ready".to_owned(),
                },
            );
            assert(out@.map_values(f) =~= before.map_values(f).push(pair));
        }
        i += 1;
    }
    assert(all.take(all.len() as int) =~= all);
    out
}

/// What stands in the way of a previewed plan, code by code. Where targets are merged, a
/// target may be that of another plan or an existing folder; else it has to be new, unlike
/// the source and unlike that of every plan in front, without regard to ASCII case. The
/// source has to be a folder, the tags have to agree, and a target never lies in its source.
pub proof fn conflicts_are_listed_where_they_are(
    facts: Seq<(Seq<char>, StateView)>,
    plan: PlanInput,
    requested: Seq<char>,
    tokens: TokenValuesView,
    seen: Seq<Seq<char>>,
    strategy: CollisionStrategy,
)
    requires
        previewed_plan(facts, plan, requested, tokens, seen, strategy) is Done,
    ensures
        ({
            let v = previewed_plan(facts, plan, requested, tokens, seen, strategy)->Done_0;
            let key = lower(v.target_folder);
            let source = lower(plan.source_folder@);
            let merge = strategy == CollisionStrategy::Merge;
            let (target_exists, target_is_dir) = looked_up(facts, v.target_folder)->Done_0;
            let (_, source_is_dir) = looked_up(facts, plan.source_folder@)->Done_0;
            &&& v.id == plan.id
            &&& v.tokens == tokens
            &&& strategy != CollisionStrategy::Suffix ==> v.target_folder == requested
            &&& v.will_apply <==> plan.status@ != "confirmed"@ && plan.status@ != "executed"@
                && plan.status@ != "inconsistent_tags"@
            &&& v.conflicts.contains(ConflictCode::InconsistentTags) <==> plan.status@
                == "inconsistent_tags"@
            &&& v.conflicts.contains(ConflictCode::SourceMissing) <==> !source_is_dir
            &&& v.conflicts.contains(ConflictCode::SameAsSource) <==> !merge && key == source
            &&& v.conflicts.contains(ConflictCode::TargetExists) <==> target_exists && !(merge
                && target_is_dir) && (merge || key != source)
            &&& v.conflicts.contains(ConflictCode::DuplicateTarget) <==> !merge && exists|i: int|
                0 <= i < seen.len() && #[trigger] seen[i] == key
            &&& v.conflicts.contains(ConflictCode::TargetInsideSource) <==> key.len() > source.len()
                && key.take(source.len() as int) == source && key[source.len() as int] == '/'
        }),
{
    let v = previewed_plan(facts, plan, requested, tokens, seen, strategy)->Done_0;
    let key = lower(v.target_folder);
    let source = lower(plan.source_folder@);
    let merge = strategy == CollisionStrategy::Merge;
    let (target_exists, target_is_dir) = looked_up(facts, v.target_folder)->Done_0;
    let (_, source_is_dir) = looked_up(facts, plan.source_folder@)->Done_0;
    let none = Seq::<ConflictCode>::empty();
    let a = if plan.status@ == "inconsistent_tags"@ {
        seq![ConflictCode::InconsistentTags]
    } else {
        none
    };
    let b = if !source_is_dir {
        a.push(ConflictCode::SourceMissing)
    } else {
        a
    };
    let c = if key == source && !merge {
        b.push(ConflictCode::SameAsSource)
    } else if target_exists && !(merge && target_is_dir) {
        b.push(ConflictCode::TargetExists)
    } else {
        b
    };
    let d = if !merge && seen.contains(key) {
        c.push(ConflictCode::DuplicateTarget)
    } else {
        c
    };
    let inside = starts_with(key, source + seq!['/']);
    assert forall|code: ConflictCode| #[trigger] a.contains(code) <==> plan.status@
        == "inconsistent_tags"@ && code == ConflictCode::InconsistentTags by {
        if plan.status@ == "inconsistent_tags"@ {
            assert(a[0] == ConflictCode::InconsistentTags);
        }
    }
    lemma_one_more(a, ConflictCode::SourceMissing);
    lemma_one_more(b, ConflictCode::SameAsSource);
    lemma_one_more(b, ConflictCode::TargetExists);
    lemma_one_more(c, ConflictCode::DuplicateTarget);
    lemma_one_more(d, ConflictCode::TargetInsideSource);
    assert(seen.contains(key) <==> exists|i: int| 0 <= i < seen.len() && #[trigger] seen[i] == key);
    assert(inside <==> key.len() > source.len() && key.take(source.len() as int) == source
        && key[source.len() as int] == '/') by {
        let n = source.len() as int;
        let prefix = source + seq!['/'];
        if inside {
            assert(key.take(n + 1) == prefix);
            assert(key.take(n) =~= source) by {
                assert forall|i: int| 0 <= i < n implies key[i] == source[i] by {
                    assert(key.take(n + 1)[i] == prefix[i]);
                }
            }
            assert(key.take(n + 1)[n] == prefix[n]);
        }
        if key.len() > n && key.take(n) == source && key[n] == '/' {
            assert(key.take(n + 1) =~= prefix) by {
                assert forall|i: int| 0 <= i < n implies key[i] == source[i] by {
                    assert(key.take(n)[i] == source[i]);
                }
            }
        }
    }
}

/// A list with one more code holds that code too.
proof fn lemma_one_more(codes: Seq<ConflictCode>, more: ConflictCode)
    ensures
        forall|code: ConflictCode|
            #[trigger] codes.push(more).contains(code) <==> codes.contains(code) || code == more,
{
    let all = codes.push(more);
    assert forall|code: ConflictCode| #[trigger] all.contains(code) <==> codes.contains(code)
        || code == more by {
        if codes.contains(code) {
            let i = codes.index_of(code);
            assert(all[i] == code);
        }
        if code == more {
            assert(all[codes.len() as int] == code);
        }
        if all.contains(code) {
            let i = all.index_of(code);
            if i < codes.len() {
                assert(codes[i] == code);
            }
        }
    }
}

/// A list of previews: one for each plan, in their order, and the keys of their targets.
proof fn lemma_previews(
    facts: Seq<(Seq<char>, StateView)>,
    doc: JsonTree,
    strategy: CollisionStrategy,
    plans: Seq<PlanInput>,
    start: nat,
)
    requires
        previewed_plans(facts, doc, strategy, plans, start) is Done,
    ensures
        ({
            let (shown, keys) = previewed_plans(facts, doc, strategy, plans, start)->Done_0;
            &&& shown.len() == plans.len()
            &&& keys.len() == plans.len()
            &&& forall|i: int|
                0 <= i < plans.len() ==> #[trigger] keys[i] == lower(shown[i].target_folder)
            &&& forall|i: int|
                0 <= i < plans.len() ==> plan_named(
                    facts,
                    doc,
                    strategy,
                    plans[i],
                    (start + i) as nat,
                    keys.take(i),
                ) == ProgressView::Done(#[trigger] shown[i])
        }),
    decreases plans.len(),
{
    if plans.len() > 0 {
        lemma_previews(facts, doc, strategy, plans.drop_last(), start);
        let (before, seen) = previewed_plans(
            facts,
            doc,
            strategy,
            plans.drop_last(),
            start,
        )->Done_0;
        let (shown, keys) = previewed_plans(facts, doc, strategy, plans, start)->Done_0;
        let n = plans.len() - 1;
        assert(keys.take(n) =~= seen);
        assert forall|i: int| 0 <= i < plans.len() implies plan_named(
            facts,
            doc,
            strategy,
            plans[i],
            (start + i) as nat,
            keys.take(i),
        ) == ProgressView::Done(#[trigger] shown[i]) by {
            if i < n {
                assert(keys.take(i) =~= seen.take(i));
                assert(shown[i] == before[i]);
                assert(plans.drop_last()[i] == plans[i]);
            }
        }
        assert forall|i: int| 0 <= i < plans.len() implies #[trigger] keys[i] == lower(
            shown[i].target_folder,
        ) by {
            if i < n {
                assert(keys[i] == seen[i] && shown[i] == before[i]);
            }
        }
    }
}

/// Every plan is shown, in its place. Unless targets are merged, a plan whose target is that
/// of a plan in front has a conflict over it. So where nothing stands in the way of any plan,
/// no two plans have the same target.
pub proof fn applicable_previews_have_different_targets(
    facts: Seq<(Seq<char>, StateView)>,
    doc: JsonTree,
    strategy: CollisionStrategy,
    plans: Seq<PlanInput>,
    start: nat,
)
    requires
        previewed_plans(facts, doc, strategy, plans, start) is Done,
    ensures
        ({
            let (shown, _) = previewed_plans(facts, doc, strategy, plans, start)->Done_0;
            &&& shown.len() == plans.len()
            &&& forall|i: int| 0 <= i < plans.len() ==> (#[trigger] shown[i]).id == plans[i].id
            &&& strategy != CollisionStrategy::Merge ==> forall|i: int, j: int|
                0 <= i < j < plans.len() && lower((#[trigger] shown[i]).target_folder) == lower(
                    (#[trigger] shown[j]).target_folder,
                ) ==> shown[j].conflicts.contains(ConflictCode::DuplicateTarget)
            &&& strategy != CollisionStrategy::Merge && no_conflicts(shown) ==> forall|
                i: int,
                j: int,
            |
                0 <= i < j < plans.len() ==> lower((#[trigger] shown[i]).target_folder) != lower(
                    (#[trigger] shown[j]).target_folder,
                )
        }),
{
    let (shown, keys) = previewed_plans(facts, doc, strategy, plans, start)->Done_0;
    lemma_previews(facts, doc, strategy, plans, start);
    reveal(plan_named);
    assert forall|j: int| 0 <= j < plans.len() implies (#[trigger] shown[j]).id == plans[j].id && (
    strategy != CollisionStrategy::Merge ==> forall|i: int|
        0 <= i < j && lower((#[trigger] shown[i]).target_folder) == lower(shown[j].target_folder)
            ==> shown[j].conflicts.contains(ConflictCode::DuplicateTarget)) by {
        let index = (start + j) as nat;
        let (requested, tokens) = rendered_profile(doc, context_of(plans[j], index))->Ok_0;
        let seen = keys.take(j);
        assert(plan_named(facts, doc, strategy, plans[j], index, seen) == ProgressView::Done(
            shown[j],
        ));
        conflicts_are_listed_where_they_are(facts, plans[j], requested, tokens, seen, strategy);
        assert forall|i: int| 0 <= i < j && lower((#[trigger] shown[i]).target_folder) == lower(
            shown[j].target_folder,
        ) && strategy != CollisionStrategy::Merge implies shown[j].conflicts.contains(
            ConflictCode::DuplicateTarget,
        ) by {
            assert(seen[i] == keys[i]);
        }
    }
    if strategy != CollisionStrategy::Merge && no_conflicts(shown) {
        assert forall|i: int, j: int| 0 <= i < j < plans.len() implies lower(
            (#[trigger] shown[i]).target_folder,
        ) != lower((#[trigger] shown[j]).target_folder) by {
            assert(shown[j].conflicts.len() == 0);
        }
    }
}

/// A folder's state is the first that is told of its path; where none is, it has to be asked
/// for, under the path that was accepted.
pub proof fn states_are_looked_up_by_path(
    facts: Seq<(Seq<char>, StateView)>,
    folder: Seq<char>,
    path: Seq<char>,
    k: int,
)
    requires
        checked_folder(folder) == Ok::<Seq<char>, Seq<char>>(path),
        0 <= k <= facts.len(),
        forall|i: int| 0 <= i < k ==> (#[trigger] facts[i]).0 != path,
        k < facts.len() ==> facts[k].0 == path,
    ensures
        k == facts.len() ==> looked_up(facts, folder) == ProgressView::<(bool, bool)>::Need(path),
        k < facts.len() ==> (match facts[k].1 {
            StateView::Inside(exists, is_dir) => looked_up(facts, folder) == ProgressView::Done(
                (exists, is_dir),
            ),
            StateView::Refused(e) => looked_up(facts, folder) == ProgressView::<
                (bool, bool),
            >::Failed(e),
        }),
{
    lemma_state_found(facts, path, k);
}

/// The first state of a path.
proof fn lemma_state_found(facts: Seq<(Seq<char>, StateView)>, path: Seq<char>, k: int)
    requires
        0 <= k <= facts.len(),
        forall|i: int| 0 <= i < k ==> (#[trigger] facts[i]).0 != path,
        k < facts.len() ==> facts[k].0 == path,
    ensures
        state_in(facts, path) == if k < facts.len() {
            Some(facts[k].1)
        } else {
            None
        },
    decreases k,
{
    if k > 0 {
        assert(facts[0].0 != path);
        let rest = facts.skip(1);
        assert forall|i: int| 0 <= i < k - 1 implies (#[trigger] rest[i]).0 != path by {
            assert(rest[i] == facts[i + 1]);
        }
        if k < facts.len() {
            assert(rest[k - 1] == facts[k]);
        }
        lemma_state_found(rest, path, k - 1);
    }
}

/// A target that is taken gets the lowest number that makes it free, from two on and in
/// brackets; a free one gets none.
pub proof fn the_lowest_free_number_is_taken(
    facts: Seq<(Seq<char>, StateView)>,
    requested: Seq<char>,
    source_key: Seq<char>,
    seen: Seq<Seq<char>>,
    k: nat,
)
    requires
        1 <= k <= usize::MAX,
        forall|n: nat|
            1 <= n < k ==> #[trigger] available(
                facts,
                candidate(requested, n),
                source_key,
                seen,
            ) == ProgressView::Done(false),
        available(facts, candidate(requested, k), source_key, seen) == ProgressView::Done(true),
    ensures
        first_free(facts, requested, source_key, seen, 1) == ProgressView::Done(
            if k == 1 {
                requested
            } else {
                requested + " ("@ + decimal(k) + ")"@
            },
        ),
{
    lemma_first_free_from(facts, requested, source_key, seen, 1, k);
}

/// The first free number from a number on.
proof fn lemma_first_free_from(
    facts: Seq<(Seq<char>, StateView)>,
    requested: Seq<char>,
    source_key: Seq<char>,
    seen: Seq<Seq<char>>,
    n: nat,
    k: nat,
)
    requires
        1 <= n <= k <= usize::MAX,
        forall|m: nat|
            n <= m < k ==> #[trigger] available(
                facts,
                candidate(requested, m),
                source_key,
                seen,
            ) == ProgressView::Done(false),
        available(facts, candidate(requested, k), source_key, seen) == ProgressView::Done(true),
    ensures
        first_free(facts, requested, source_key, seen, n) == ProgressView::Done(
            candidate(requested, k),
        ),
    decreases k - n,
{
    if n < k {
        assert(available(facts, candidate(requested, n), source_key, seen) == ProgressView::Done(
            false,
        ));
        lemma_first_free_from(facts, requested, source_key, seen, n + 1, k);
    }
}

/// A target is free where it is neither the source nor one of those in front, whatever the
/// case, and nothing stands there yet.
pub proof fn targets_are_free_where_nothing_stands(
    facts: Seq<(Seq<char>, StateView)>,
    target: Seq<char>,
    source_key: Seq<char>,
    seen: Seq<Seq<char>>,
)
    ensures
        available(facts, target, source_key, seen) == ProgressView::Done(true) <==> lower(target)
            != source_key && !seen.contains(lower(target)) && (looked_up(
            facts,
            target,
        ) matches ProgressView::Done(s) && !s.0),
        lower(target) == source_key || seen.contains(lower(target)) ==> available(
            facts,
            target,
            source_key,
            seen,
        ) == ProgressView::Done(false),
{
}

/// A plan is rendered with its own artist, title, source and date, with the folder's date where
/// it has none, and with the tags of its items where none is selected.
pub proof fn plans_are_rendered_with_their_own(plan: PlanInput, index: nat)
    ensures
        ({
            let c = context_of(plan, index);
            &&& c.artist == plan.artist@
            &&& c.title == plan.title@
            &&& c.folder == plan.source_folder@
            &&& c.index == index
            &&& plan.date@.len() > 0 ==> c.date == plan.date@
            &&& plan.date@.len() == 0 ==> c.date == plan.folder_date@
            &&& (forall|i: int|
                0 <= i < plan.selected_tags@.len() ==> (#[trigger] plan.selected_tags@[i])@.len()
                    == 0) ==> c.tags == texts(plan.item_tags@)
            &&& plan.selected_tags@.len() > 0 && (forall|i: int|
                0 <= i < plan.selected_tags@.len() ==> (#[trigger] plan.selected_tags@[i])@.len()
                    > 0) ==> c.tags == texts(plan.selected_tags@)
        }),
{
    let all = texts(plan.selected_tags@);
    if forall|i: int|
        0 <= i < plan.selected_tags@.len() ==> (#[trigger] plan.selected_tags@[i])@.len() == 0 {
        assert forall|i: int| 0 <= i < all.len() implies (#[trigger] all[i]).len() == 0 by {
            assert(all[i] == plan.selected_tags@[i]@);
        }
        lemma_not_empty(all);
    }
    if forall|i: int|
        0 <= i < plan.selected_tags@.len() ==> (#[trigger] plan.selected_tags@[i])@.len() > 0 {
        assert forall|i: int| 0 <= i < all.len() implies (#[trigger] all[i]).len() > 0 by {
            assert(all[i] == plan.selected_tags@[i]@);
        }
        lemma_not_empty(all);
    }
}

/// Names that are all empty go, names of which none is stay.
proof fn lemma_not_empty(names: Seq<Seq<char>>)
    ensures
        (forall|i: int| 0 <= i < names.len() ==> (#[trigger] names[i]).len() == 0) ==> not_empty(
            names,
        ).len() == 0,
        (forall|i: int| 0 <= i < names.len() ==> (#[trigger] names[i]).len() > 0) ==> not_empty(
            names,
        ) == names,
    decreases names.len(),
{
    if names.len() > 0 {
        let d = names.drop_last();
        lemma_not_empty(d);
        assert(names[names.len() - 1] == names.last());
        if forall|i: int| 0 <= i < names.len() ==> (#[trigger] names[i]).len() == 0 {
            assert forall|i: int| 0 <= i < d.len() implies (#[trigger] d[i]).len() == 0 by {
                assert(d[i] == names[i]);
            }
        }
        if forall|i: int| 0 <= i < names.len() ==> (#[trigger] names[i]).len() > 0 {
            assert forall|i: int| 0 <= i < d.len() implies (#[trigger] d[i]).len() > 0 by {
                assert(d[i] == names[i]);
            }
            assert(not_empty(names) =~= names);
        }
    } else {
        assert(not_empty(names) =~= names);
    }
}

/// Applying a preview changes exactly the plans that it says it will, each to its previewed
/// target and to ready.
pub proof fn applied_plans_get_their_targets(plans: Seq<PreviewView>, i: int)
    requires
        0 <= i < plans.len(),
        plans[i].will_apply,
        plans[i].target_folder.len() > 0,
    ensures
        applied_changes(plans).contains((plans[i].id, plans[i].target_folder, "ready"@)),
        applied_changes(plans).len() == plans.filter(|p: PreviewView| p.will_apply).len(),
    decreases plans.len(),
{
    lemma_applied_count(plans);
    let d = plans.drop_last();
    let now = applied_changes(plans);
    let row = (plans[i].id, plans[i].target_folder, "ready"@);
    if i < d.len() {
        assert(d[i] == plans[i]);
        applied_plans_get_their_targets(d, i);
        let k = applied_changes(d).index_of(row);
        assert(now[k] == row);
    } else {
        assert(now[applied_changes(d).len() as int] == row);
    }
}

/// As many plans change as say they will.
proof fn lemma_applied_count(plans: Seq<PreviewView>)
    ensures
        applied_changes(plans).len() == plans.filter(|p: PreviewView| p.will_apply).len(),
    decreases plans.len(),
{
    reveal(Seq::filter);
    if plans.len() > 0 {
        lemma_applied_count(plans.drop_last());
    }
}

/// Drafts are named by themselves exactly where they have a target and no conflict.
pub proof fn drafts_without_conflicts_are_named(
    plans: Seq<PreviewView>,
    drafts: Seq<i64>,
    id: i64,
    target: Seq<char>,
)
    ensures
        nameable(plans, drafts).contains((id, target)) <==> drafts.contains(id) && target.len() > 0
            && exists|i: int|
            0 <= i < plans.len() && (#[trigger] plans[i]).id == id && plans[i].target_folder
                == target && plans[i].conflicts.len() == 0,
    decreases plans.len(),
{
    let now = nameable(plans, drafts);
    let row = (id, target);
    if plans.len() > 0 {
        let d = plans.drop_last();
        let before = nameable(d, drafts);
        drafts_without_conflicts_are_named(d, drafts, id, target);
        if now.contains(row) {
            let k = now.index_of(row);
            if k < before.len() {
                assert(before[k] == row);
                assert(before.contains(row));
                let i = choose|i: int|
                    0 <= i < d.len() && (#[trigger] d[i]).id == id && d[i].target_folder == target
                        && d[i].conflicts.len() == 0;
                assert(plans[i] == d[i]);
            } else {
                assert(plans[plans.len() - 1].id == id);
            }
        }
        if drafts.contains(id) && target.len() > 0 && exists|i: int|
            0 <= i < plans.len() && (#[trigger] plans[i]).id == id && plans[i].target_folder
                == target && plans[i].conflicts.len() == 0 {
            let i = choose|i: int|
                0 <= i < plans.len() && (#[trigger] plans[i]).id == id && plans[i].target_folder
                    == target && plans[i].conflicts.len() == 0;
            if i < d.len() {
                assert(d[i] == plans[i]);
                assert(before.contains(row));
                let k = before.index_of(row);
                assert(now[k] == row);
            } else {
                assert(now[before.len() as int] == row);
            }
        }
    }
}

/// A template that is given counts before a profile that is named, and that before the
/// artist's own or the active one.
pub proof fn given_templates_come_first(
    doc: JsonTree,
    profiles: Seq<ProfileView>,
    artist_id: int,
    id: Seq<char>,
    template: Seq<char>,
    other: Option<Seq<char>>,
)
    ensures
        chosen_profile(doc, profiles, artist_id, other, Some(template)) matches Ok((_, source))
            ==> source == "inline"@,
        chosen_profile(doc, profiles, artist_id, Some(id), None) matches Ok((p, source))
            ==> named_profile(doc, id) == Ok::<ProfileView, Seq<char>>(p) && source == "profile:"@
            + id,
        chosen_profile(doc, profiles, artist_id, None, None) matches Ok((p, source)) ==> profile_for(
            doc,
            artist_id,
        ) is Ok && profile_for(doc, artist_id)->Ok_0.0 == p && (source == "artist"@ || source
            == "global"@),
{
}

}
