//! Recognizing a character by its nearest reference.
//!
//! Scores are ranks: of two scores the larger has the larger rank.

use vstd::prelude::*;
use crate::names::fresh_name;
use crate::tables::views;
use crate::text::{decimal_int, push_decimal_int, replace_char, replaced, same_text, text_of};

verus! {

/// What is looked at in an item.
#[derive(Clone, Copy, PartialEq, Eq, Debug, Structural)]
pub enum RecognitionSource {
    /// The image.
    Image,
    /// A frame of the video.
    VideoFrame,
}

/// What is looked at in an item: archives and anything that is neither an image
/// nor a video are refused. An item whose kind is not known is an image.
pub open spec fn source_of(media_type: Seq<char>, is_archive: bool) -> Option<RecognitionSource> {
    if is_archive {
        None
    } else if media_type.len() == 0 || media_type == "image"@ {
        Some(RecognitionSource::Image)
    } else if media_type == "video"@ {
        Some(RecognitionSource::VideoFrame)
    } else {
        None
    }
}

/// What is looked at in an item.
pub fn embed_item_source(media_type: &str, is_archive: bool) -> (r: Result<
    RecognitionSource,
    String,
>)
    ensures
        match source_of(media_type@, is_archive) {
            Some(s) => r is Ok && r->Ok_0 == s,
            None => r is Err && r->Err_0@
                == "Item media type is not supported for character recognition"@,
        },
{
    let refusal = "Item media type is not supported for character recognition";
    if is_archive {
        return Err(refusal.to_owned());
    }
    let kind = crate::text::chars_of(media_type);
    if kind.len() == 0 || same_text(media_type, "image") {
        Ok(RecognitionSource::Image)
    } else if same_text(media_type, "video") {
        Ok(RecognitionSource::VideoFrame)
    } else {
        Err(refusal.to_owned())
    }
}

/// The name of the file for a frame of an item.
pub fn frame_file_name(item_id: i64) -> (r: String)
    ensures
        exists|id: Seq<char>| #[trigger]
            crate::names::simple_id(id) && r@ == "gallery-ccip-"@ + decimal_int(item_id as int)
                + "-"@ + id + ".jpg"@,
{
    let mut prefix = "gallery-ccip-".to_owned();
    push_decimal_int(item_id, &mut prefix);
    prefix.append("-");
    let mut name = fresh_name(&prefix);
    proof {
        let id = choose|id: Seq<char>| #[trigger]
            crate::names::simple_id(id) && name@ == prefix@ + id;
        assert(crate::names::simple_id(id));
        assert(name@ == "gallery-ccip-"@ + decimal_int(item_id as int) + "-"@ + id);
    }
    name.append(".jpg");
    name
}

/// The text that tells one state of the references from another: how many there
/// are, the last one, and the largest and the sum of their items.
pub fn reference_table_signature(count: i64, last: i64, largest_item: i64, item_sum: i64) -> (r:
    String)
    ensures
        r@ == decimal_int(count as int) + ":"@ + decimal_int(last as int) + ":"@ + decimal_int(
            largest_item as int,
        ) + ":"@ + decimal_int(item_sum as int),
{
    let mut out = String::new();
    push_decimal_int(count, &mut out);
    out.append(":");
    push_decimal_int(last, &mut out);
    out.append(":");
    push_decimal_int(largest_item, &mut out);
    out.append(":");
    push_decimal_int(item_sum, &mut out);
    assert(out@ =~= decimal_int(count as int) + ":"@ + decimal_int(last as int) + ":"@
        + decimal_int(largest_item as int) + ":"@ + decimal_int(item_sum as int));
    out
}

/// The key under which the references of a library are kept in memory: its path
/// and the state of its references.
pub open spec fn cache_key(path: Seq<char>, signature: Seq<char>) -> Seq<char> {
    replaced(path, '\\', '/') + "|"@ + signature
}

/// The key under which the references of a library are kept in memory. A library
/// without a file is not kept.
pub fn reference_cache_key(path: Option<&str>, signature: &str) -> (r: Option<String>)
    ensures
        crate::character_ccip::held(r) == (match crate::character_ccip::given(path) {
            Some(p) => Some(cache_key(p, signature@)),
            None => None,
        }),
{
    match path {
        Some(p) => {
            let mut out = text_of(&replace_char(&crate::text::chars_of(p), '\\', '/'));
            out.append("|");
            out.append(signature);
            Some(out)
        },
        None => None,
    }
}

/// Whether the references that are kept are those of a key.
pub fn cached_reference_index(kept: Option<&str>, key: Option<&str>) -> (r: bool)
    ensures
        r == (kept is Some && crate::character_ccip::given(kept) == crate::character_ccip::given(
            key,
        )),
{
    match (kept, key) {
        (Some(a), Some(b)) => same_text(a, b),
        _ => false,
    }
}

/// A stored reference.
#[derive(Debug)]
pub struct ReferenceRow {
    /// How many numbers its embedding has; none where it has no embedding.
    pub embedding_dim: Option<i64>,
    /// Where the model is published that made it.
    pub repo_id: Option<String>,
    /// The variant of that model.
    pub variant: Option<String>,
    /// The file of that model.
    pub file: Option<String>,
    /// Whether the embedding can be read.
    pub readable: bool,
}

/// The value of a [`ReferenceRow`].
pub struct ReferenceView {
    /// How many numbers its embedding has.
    pub embedding_dim: Option<i64>,
    /// Where the model is published that made it.
    pub repo_id: Option<Seq<char>>,
    /// The variant of that model.
    pub variant: Option<Seq<char>>,
    /// The file of that model.
    pub file: Option<Seq<char>>,
    /// Whether the embedding can be read.
    pub readable: bool,
}

impl View for ReferenceRow {
    type V = ReferenceView;

    open spec fn view(&self) -> ReferenceView {
        ReferenceView {
            embedding_dim: self.embedding_dim,
            repo_id: crate::character_ccip::held(self.repo_id),
            variant: crate::character_ccip::held(self.variant),
            file: crate::character_ccip::held(self.file),
            readable: self.readable,
        }
    }
}

/// Whether a reference was made by a model: by its variant and file, by its
/// variant where no file is noted, or by its variant and where it is published.
pub open spec fn made_by(
    r: ReferenceView,
    repo_id: Seq<char>,
    variant: Seq<char>,
    file: Seq<char>,
) -> bool {
    &&& r.variant == Some(variant)
    &&& {
        ||| r.file == Some(file)
        ||| r.file is None
        ||| r.file == Some(""@)
        ||| r.repo_id == Some(repo_id)
    }
}

/// Whether a reference has an embedding of the right size.
pub open spec fn has_embedding(r: ReferenceView) -> bool {
    r.embedding_dim == Some(crate::character_ccip::CCIP_EMBEDDING_DIM as i64)
}

/// Whether an optional text is a given one.
fn is_text(value: &Option<String>, text: &str) -> (r: bool)
    ensures
        r == (crate::character_ccip::held(*value) == Some(text@)),
{
    match value {
        Some(v) => same_text(v, text),
        None => false,
    }
}

/// Whether a reference is used: its embedding has the right size, can be read,
/// and was made by the model, unless any model counts.
pub open spec fn used(
    any_model: bool,
    repo_id: Seq<char>,
    variant: Seq<char>,
    file: Seq<char>,
) -> spec_fn(ReferenceView) -> bool {
    |r: ReferenceView|
        has_embedding(r) && r.readable && (any_model || made_by(r, repo_id, variant, file))
}

/// Whether a reference is used.
fn is_used(row: &ReferenceRow, any_model: bool, repo_id: &str, variant: &str, file: &str) -> (r:
    bool)
    ensures
        r == used(any_model, repo_id@, variant@, file@)(row@),
{
    let right_size = match row.embedding_dim {
        Some(n) => n == crate::character_ccip::CCIP_EMBEDDING_DIM as i64,
        None => false,
    };
    let by_model = is_text(&row.variant, variant) && (is_text(&row.file, file)
        || row.file.is_none() || is_text(&row.file, "") || is_text(&row.repo_id, repo_id));
    right_size && row.readable && (any_model || by_model)
}

/// The places of the rows that meet a condition.
pub open spec fn places_of<V>(rows: Seq<V>, wanted: spec_fn(V) -> bool) -> Seq<int>
    decreases rows.len(),
{
    if rows.len() == 0 {
        Seq::empty()
    } else if wanted(rows.last()) {
        places_of(rows.drop_last(), wanted).push(rows.len() - 1)
    } else {
        places_of(rows.drop_last(), wanted)
    }
}

/// The values of places.
pub open spec fn place_views(v: Seq<usize>) -> Seq<int> {
    v.map_values(|n: usize| n as int)
}

/// The places of the references that are used.
fn used_places(
    rows: &[ReferenceRow],
    any_model: bool,
    repo_id: &str,
    variant: &str,
    file: &str,
) -> (r: Vec<usize>)
    ensures
        place_views(r@) == places_of(
            views(rows@),
            used(any_model, repo_id@, variant@, file@),
        ),
{
    let ghost all = views(rows@);
    let ghost wanted = used(any_model, repo_id@, variant@, file@);
    let mut out: Vec<usize> = Vec::new();
    let mut i: usize = 0;
    assert(all.take(0) =~= Seq::<ReferenceView>::empty());
    assert(place_views(out@) =~= Seq::<int>::empty());
    while i < rows.len()
        invariant
            i <= rows@.len(),
            all == views(rows@),
            wanted == used(any_model, repo_id@, variant@, file@),
            place_views(out@) == places_of(all.take(i as int), wanted),
        decreases rows@.len() - i,
    {
        proof {
            assert(all.take(i as int + 1).drop_last() =~= all.take(i as int));
            assert(all.take(i as int + 1).last() == rows@[i as int]@);
        }
        if is_used(&rows[i], any_model, repo_id, variant, file) {
            let ghost before = place_views(out@);
            out.push(i);
            assert(place_views(out@) =~= before.push(i as int));
        }
        i += 1;
    }
    assert(all.take(all.len() as int) =~= all);
    out
}

/// The references that are compared: those of the model. Where there are none,
/// those of any model count only where that is switched on: embeddings of
/// different models do not compare.
pub open spec fn index_places(
    rows: Seq<ReferenceView>,
    repo_id: Seq<char>,
    variant: Seq<char>,
    file: Seq<char>,
    legacy: bool,
) -> Seq<int> {
    let strict = places_of(rows, used(false, repo_id, variant, file));
    if strict.len() == 0 && legacy {
        places_of(rows, used(true, repo_id, variant, file))
    } else {
        strict
    }
}

/// Chooses the references that are compared, by their places.
pub fn load_index_vectors(
    rows: &[ReferenceRow],
    repo_id: &str,
    variant: &str,
    file: &str,
    legacy: bool,
) -> (r: Vec<usize>)
    ensures
        place_views(r@) == index_places(views(rows@), repo_id@, variant@, file@, legacy),
{
    let strict = used_places(rows, false, repo_id, variant, file);
    assert(place_views(strict@).len() == strict@.len());
    if strict.len() == 0 && legacy {
        used_places(rows, true, repo_id, variant, file)
    } else {
        strict
    }
}

/// Places are those of rows that meet the condition.
proof fn lemma_places_of<V>(rows: Seq<V>, wanted: spec_fn(V) -> bool)
    ensures
        forall|i: int|
            0 <= i < places_of(rows, wanted).len() ==> 0 <= #[trigger] places_of(rows, wanted)[i]
                < rows.len() && wanted(rows[places_of(rows, wanted)[i]]),
    decreases rows.len(),
{
    if rows.len() > 0 {
        let d = rows.drop_last();
        lemma_places_of(d, wanted);
        let p = places_of(rows, wanted);
        assert forall|i: int| 0 <= i < p.len() implies 0 <= #[trigger] p[i] < rows.len() && wanted(
            rows[p[i]],
        ) by {
            if i < places_of(d, wanted).len() {
                assert(p[i] == places_of(d, wanted)[i]);
                assert(d[p[i]] == rows[p[i]]);
            }
        }
    }
}

/// Whether the chosen references are kept in memory: none are not, unless those of
/// any model count.
pub fn keeps_reference_index(chosen: usize, legacy: bool) -> (r: bool)
    ensures
        r == (chosen > 0 || legacy),
{
    chosen > 0 || legacy
}

/// Unless it is switched on, no embedding of another model is ever compared.
pub proof fn models_are_not_mixed(
    rows: Seq<ReferenceView>,
    repo_id: Seq<char>,
    variant: Seq<char>,
    file: Seq<char>,
    i: int,
)
    requires
        0 <= i < index_places(rows, repo_id, variant, file, false).len(),
    ensures
        ({
            let place = index_places(rows, repo_id, variant, file, false)[i];
            0 <= place < rows.len() && rows[place].variant == Some(variant)
        }),
{
    lemma_places_of(rows, used(false, repo_id, variant, file));
}

/// A reference with its score.
#[derive(Clone, Copy, PartialEq, Eq, Debug, Structural)]
pub struct ScoredReference {
    /// The character.
    pub character_id: i64,
    /// The reference.
    pub reference_id: i64,
    /// The rank of the score.
    pub score: i64,
}

impl View for ScoredReference {
    type V = ScoredReference;

    open spec fn view(&self) -> ScoredReference {
        *self
    }
}

/// The best references with one more reference: it takes the place of the best
/// one of its character only where its score is larger.
pub open spec fn with_scored(best: Seq<ScoredReference>, r: ScoredReference) -> Seq<ScoredReference>
    decreases best.len(),
{
    if best.len() == 0 {
        seq![r]
    } else if best[0].character_id == r.character_id {
        if best[0].score >= r.score {
            best
        } else {
            best.update(0, r)
        }
    } else {
        seq![best[0]] + with_scored(best.skip(1), r)
    }
}

/// The best reference of every character, the first of equal ones.
pub open spec fn best_references(refs: Seq<ScoredReference>) -> Seq<ScoredReference>
    decreases refs.len(),
{
    if refs.len() == 0 {
        Seq::empty()
    } else {
        with_scored(best_references(refs.drop_last()), refs.last())
    }
}

/// A reference put in its place among references by score, behind those that are
/// as good.
pub open spec fn placed_by_score(ranked: Seq<ScoredReference>, r: ScoredReference) -> Seq<
    ScoredReference,
>
    decreases ranked.len(),
{
    if ranked.len() == 0 {
        seq![r]
    } else if ranked[0].score >= r.score {
        seq![ranked[0]] + placed_by_score(ranked.skip(1), r)
    } else {
        seq![r] + ranked
    }
}

/// References by score, the best first.
pub open spec fn by_score(refs: Seq<ScoredReference>) -> Seq<ScoredReference>
    decreases refs.len(),
{
    if refs.len() == 0 {
        Seq::empty()
    } else {
        placed_by_score(by_score(refs.drop_last()), refs.last())
    }
}

/// The best characters, by their best references.
pub open spec fn ranking(refs: Seq<ScoredReference>, top_k: int) -> Seq<ScoredReference> {
    let all = by_score(best_references(refs));
    if all.len() <= top_k {
        all
    } else {
        all.take(top_k)
    }
}

/// Saving a reference where none of its character stands before a place.
proof fn lemma_with_scored(best: Seq<ScoredReference>, r: ScoredReference, n: int)
    requires
        0 <= n <= best.len(),
        forall|j: int| 0 <= j < n ==> (#[trigger] best[j]).character_id != r.character_id,
        n < best.len() ==> best[n].character_id == r.character_id,
    ensures
        with_scored(best, r) == (if n == best.len() {
            best.push(r)
        } else if best[n].score >= r.score {
            best
        } else {
            best.update(n, r)
        }),
    decreases best.len(),
{
    if best.len() == 0 {
        assert(with_scored(best, r) =~= best.push(r));
    } else if n > 0 {
        let rest = best.skip(1);
        assert forall|j: int| 0 <= j < n - 1 implies (#[trigger] rest[j]).character_id
            != r.character_id by {
            assert(rest[j] == best[j + 1]);
        }
        assert(best[0].character_id != r.character_id);
        lemma_with_scored(rest, r, n - 1);
        if n == best.len() {
            assert(with_scored(best, r) =~= best.push(r));
        } else if best[n].score >= r.score {
            assert(with_scored(best, r) =~= best);
        } else {
            assert(with_scored(best, r) =~= best.update(n, r));
        }
    }
}

/// The best reference of every character.
fn choose_best(refs: &[ScoredReference]) -> (r: Vec<ScoredReference>)
    ensures
        r@ == best_references(refs@),
{
    let mut best: Vec<ScoredReference> = Vec::new();
    let mut i: usize = 0;
    assert(refs@.take(0) =~= Seq::<ScoredReference>::empty());
    while i < refs.len()
        invariant
            i <= refs@.len(),
            best@ == best_references(refs@.take(i as int)),
        decreases refs@.len() - i,
    {
        let row = refs[i];
        proof {
            assert(refs@.take(i as int + 1).drop_last() =~= refs@.take(i as int));
            assert(refs@.take(i as int + 1).last() == row);
        }
        let ghost before = best@;
        let mut k: usize = 0;
        while k < best.len() && best[k].character_id != row.character_id
            invariant
                k <= best@.len(),
                best@ == before,
                forall|j: int| 0 <= j < k ==> (#[trigger] best@[j]).character_id
                    != row.character_id,
            decreases best@.len() - k,
        {
            k += 1;
        }
        proof {
            lemma_with_scored(before, row, k as int);
        }
        if k == best.len() {
            best.push(row);
        } else if best[k].score < row.score {
            best.set(k, row);
        }
        i += 1;
    }
    assert(refs@.take(refs@.len() as int) =~= refs@);
    best
}

/// Putting a reference at a place where those before it are as good and the one
/// there is not.
proof fn lemma_placed_by_score(ranked: Seq<ScoredReference>, r: ScoredReference, n: int)
    requires
        0 <= n <= ranked.len(),
        forall|j: int| 0 <= j < n ==> (#[trigger] ranked[j]).score >= r.score,
        n < ranked.len() ==> ranked[n].score < r.score,
    ensures
        placed_by_score(ranked, r) == ranked.insert(n, r),
    decreases ranked.len(),
{
    if ranked.len() == 0 {
        assert(placed_by_score(ranked, r) =~= ranked.insert(n, r));
    } else if n == 0 {
        assert(placed_by_score(ranked, r) =~= ranked.insert(0, r));
    } else {
        let rest = ranked.skip(1);
        assert forall|j: int| 0 <= j < n - 1 implies (#[trigger] rest[j]).score >= r.score by {
            assert(rest[j] == ranked[j + 1]);
        }
        assert(ranked[0].score >= r.score);
        lemma_placed_by_score(rest, r, n - 1);
        assert(placed_by_score(ranked, r) =~= ranked.insert(n, r));
    }
}

/// Ranks the characters by their best references: the best first, at most as many
/// as are asked for.
pub fn rank_characters(refs: &[ScoredReference], top_k: usize) -> (r: Vec<ScoredReference>)
    ensures
        r@ == ranking(refs@, top_k as int),
{
    let best = choose_best(refs);
    let mut ranked: Vec<ScoredReference> = Vec::new();
    let mut i: usize = 0;
    assert(best@.take(0) =~= Seq::<ScoredReference>::empty());
    while i < best.len()
        invariant
            i <= best@.len(),
            ranked@ == by_score(best@.take(i as int)),
        decreases best@.len() - i,
    {
        let row = best[i];
        proof {
            assert(best@.take(i as int + 1).drop_last() =~= best@.take(i as int));
            assert(best@.take(i as int + 1).last() == row);
        }
        let ghost before = ranked@;
        let mut k: usize = 0;
        while k < ranked.len() && ranked[k].score >= row.score
            invariant
                k <= ranked@.len(),
                ranked@ == before,
                forall|j: int| 0 <= j < k ==> (#[trigger] ranked@[j]).score >= row.score,
            decreases ranked@.len() - k,
        {
            k += 1;
        }
        proof {
            lemma_placed_by_score(before, row, k as int);
        }
        ranked.insert(k, row);
        i += 1;
    }
    assert(best@.take(best@.len() as int) =~= best@);
    if ranked.len() > top_k {
        ranked.truncate(top_k);
        assert(ranked@ =~= by_score(best@).take(top_k as int));
    }
    ranked
}

/// Whether references stand by score, the best first.
pub open spec fn falling(refs: Seq<ScoredReference>) -> bool {
    forall|i: int, j: int|
        0 <= i < j < refs.len() ==> (#[trigger] refs[i]).score >= (#[trigger] refs[j]).score
}

/// Putting references by score keeps them and puts the best first.
proof fn lemma_by_score(refs: Seq<ScoredReference>)
    ensures
        falling(by_score(refs)),
        by_score(refs).to_multiset() == refs.to_multiset(),
        by_score(refs).len() == refs.len(),
    decreases refs.len(),
{
    if refs.len() == 0 {
        assert(by_score(refs) =~= refs);
    } else {
        let d = refs.drop_last();
        let r = refs.last();
        lemma_by_score(d);
        let before = by_score(d);
        let n = lemma_score_place(before, r);
        lemma_placed_by_score(before, r, n);
        let now = before.insert(n, r);
        assert forall|i: int, j: int| 0 <= i < j < now.len() implies (#[trigger] now[i]).score >= (
        #[trigger] now[j]).score by {
            if n < before.len() && j > n {
                assert(before[n].score >= before[j - 1].score);
            }
            if i < n {
                assert(now[i] == before[i]);
            } else if i > n {
                assert(now[i] == before[i - 1]);
            }
            if j < n {
                assert(now[j] == before[j]);
            } else if j > n {
                assert(now[j] == before[j - 1]);
            }
        }
        vstd::seq_lib::to_multiset_insert(before, n, r);
        assert(refs =~= d.push(r));
        d.to_multiset_ensures();
    }
}

/// The place of a reference by its score.
proof fn lemma_score_place(ranked: Seq<ScoredReference>, r: ScoredReference) -> (n: int)
    requires
        falling(ranked),
    ensures
        0 <= n <= ranked.len(),
        forall|j: int| 0 <= j < n ==> (#[trigger] ranked[j]).score >= r.score,
        n < ranked.len() ==> ranked[n].score < r.score,
    decreases ranked.len(),
{
    if ranked.len() == 0 {
        0
    } else {
        let d = ranked.drop_last();
        let n = lemma_score_place(d, r);
        assert forall|j: int| 0 <= j < n implies (#[trigger] ranked[j]).score >= r.score by {
            assert(d[j] == ranked[j]);
        }
        if n < d.len() || ranked.last().score < r.score {
            n
        } else {
            n + 1
        }
    }
}

/// The first character of a ranking has the best score of all references.
pub proof fn rankings_begin_with_the_best(refs: Seq<ScoredReference>, top_k: int, i: int)
    requires
        top_k >= 1,
        0 <= i < refs.len(),
    ensures
        ranking(refs, top_k).len() > 0,
        ranking(refs, top_k)[0].score >= refs[i].score,
        falling(ranking(refs, top_k)),
{
    let best = best_references(refs);
    lemma_by_score(best);
    let all = by_score(best);
    let k = lemma_best_covers(refs, i);
    best.to_multiset_ensures();
    all.to_multiset_ensures();
    assert(best.contains(best[k]));
    assert(best.to_multiset().count(best[k]) > 0);
    assert(all.contains(best[k]));
    let p = all.index_of(best[k]);
    assert(all[p].score >= refs[i].score);
    if p > 0 {
        assert(all[0].score >= all[p].score);
    }
    let r = ranking(refs, top_k);
    assert forall|a: int, b: int| 0 <= a < b < r.len() implies (#[trigger] r[a]).score >= (
    #[trigger] r[b]).score by {
        assert(all[a].score >= all[b].score);
    }
}

/// No character is ranked twice.
pub proof fn characters_are_ranked_once(refs: Seq<ScoredReference>)
    ensures
        forall|i: int, j: int|
            0 <= i < j < best_references(refs).len() ==> (#[trigger] best_references(
                refs,
            )[i]).character_id != (#[trigger] best_references(refs)[j]).character_id,
    decreases refs.len(),
{
    if refs.len() > 0 {
        characters_are_ranked_once(refs.drop_last());
        let before = best_references(refs.drop_last());
        let n = lemma_character_place(before, refs.last());
        lemma_with_scored(before, refs.last(), n);
    }
}

/// Where the best reference of a character stands, or the end.
proof fn lemma_character_place(best: Seq<ScoredReference>, r: ScoredReference) -> (n: int)
    ensures
        0 <= n <= best.len(),
        forall|j: int| 0 <= j < n ==> (#[trigger] best[j]).character_id != r.character_id,
        n < best.len() ==> best[n].character_id == r.character_id,
    decreases best.len(),
{
    if best.len() == 0 {
        0
    } else {
        let d = best.drop_last();
        let n = lemma_character_place(d, r);
        assert forall|j: int| 0 <= j < n implies (#[trigger] best[j]).character_id
            != r.character_id by {
            assert(d[j] == best[j]);
        }
        if n < d.len() || best.last().character_id == r.character_id {
            n
        } else {
            n + 1
        }
    }
}

/// For every reference there is a best one of its character that is as good.
proof fn lemma_best_covers(refs: Seq<ScoredReference>, i: int) -> (k: int)
    requires
        0 <= i < refs.len(),
    ensures
        0 <= k < best_references(refs).len(),
        best_references(refs)[k].character_id == refs[i].character_id,
        best_references(refs)[k].score >= refs[i].score,
    decreases refs.len(),
{
    let d = refs.drop_last();
    let before = best_references(d);
    let n = lemma_character_place(before, refs.last());
    lemma_with_scored(before, refs.last(), n);
    if i == refs.len() - 1 {
        n
    } else {
        assert(d[i] == refs[i]);
        lemma_best_covers(d, i)
    }
}

/// How many predictions are asked for.
pub open spec fn prediction_count(top_k: i64) -> int {
    if top_k < 1 {
        1
    } else if top_k > 20 {
        20
    } else {
        top_k as int
    }
}

/// How many predictions are given, and how many are ranked for the decision,
/// which needs the second.
pub fn prediction_counts(top_k: i64) -> (r: (usize, usize))
    ensures
        r.0 == prediction_count(top_k),
        r.1 == (if prediction_count(top_k) < 2 {
            2
        } else {
            prediction_count(top_k)
        }),
{
    let n: usize = if top_k < 1 {
        1
    } else if top_k > 20 {
        20
    } else {
        top_k as usize
    };
    (
        n,
        if n < 2 {
            2
        } else {
            n
        },
    )
}

/// What a recognition came to.
#[derive(Clone, Copy, PartialEq, Eq, Debug, Structural)]
pub enum RecognitionStatus {
    /// It was not tried.
    Unavailable,
    /// The character is taken.
    Accepted,
    /// Somebody has to look.
    NeedsReview,
    /// No character is near.
    Unknown,
}

impl RecognitionStatus {
    /// The word for an outcome.
    pub open spec fn word(self) -> Seq<char> {
        match self {
            RecognitionStatus::Unavailable => "unavailable"@,
            RecognitionStatus::Accepted => "accepted"@,
            RecognitionStatus::NeedsReview => "needs_review"@,
            RecognitionStatus::Unknown => "unknown"@,
        }
    }

    /// The word for an outcome.
    pub fn label(self) -> (r: &'static str)
        ensures
            r@ == self.word(),
    {
        match self {
            RecognitionStatus::Unavailable => "unavailable",
            RecognitionStatus::Accepted => "accepted",
            RecognitionStatus::NeedsReview => "needs_review",
            RecognitionStatus::Unknown => "unknown",
        }
    }
}

/// Why a recognition came to what it did.
#[derive(Clone, Copy, PartialEq, Eq, Debug, Structural)]
pub enum RecognitionReason {
    /// Recognition is switched off.
    Disabled,
    /// There is nothing to compare with.
    NoReferences,
    /// Nothing stands in the way.
    Clear,
    /// The second character is too near.
    LowGap,
    /// The score is a little too low.
    LowScore,
    /// The score is too low.
    BelowThreshold,
}

impl RecognitionReason {
    /// The word for a reason.
    pub open spec fn word(self) -> Seq<char> {
        match self {
            RecognitionReason::Disabled => "disabled"@,
            RecognitionReason::NoReferences => "no_references"@,
            RecognitionReason::Clear => ""@,
            RecognitionReason::LowGap => "low_gap"@,
            RecognitionReason::LowScore => "low_score"@,
            RecognitionReason::BelowThreshold => "below_threshold"@,
        }
    }

    /// The word for a reason.
    pub fn label(self) -> (r: &'static str)
        ensures
            r@ == self.word(),
    {
        match self {
            RecognitionReason::Disabled => "disabled",
            RecognitionReason::NoReferences => "no_references",
            RecognitionReason::Clear => "",
            RecognitionReason::LowGap => "low_gap",
            RecognitionReason::LowScore => "low_score",
            RecognitionReason::BelowThreshold => "below_threshold",
        }
    }
}

/// How the scores compare with the limits.
#[derive(Clone, Copy, PartialEq, Eq, Debug, Structural)]
pub struct ScoreTests {
    /// Whether the best score reaches the threshold.
    pub reaches_threshold: bool,
    /// Whether the best score reaches four fifths of the threshold.
    pub comes_near: bool,
    /// Whether the second score is far enough behind.
    pub has_gap: bool,
    /// Whether the second score is not far enough behind. A gap that cannot be
    /// compared is neither.
    pub lacks_gap: bool,
}

/// A decision on a character.
#[derive(Clone, Copy, PartialEq, Eq, Debug, Structural)]
pub struct Decision {
    /// What it came to.
    pub status: RecognitionStatus,
    /// Why.
    pub reason: RecognitionReason,
    /// The character that is shown.
    pub shown: Option<i64>,
    /// The character that is stored.
    pub stored: Option<i64>,
}

/// The decision on a character. `best` is the first of the ranking.
pub open spec fn decided(enabled: bool, best: Option<i64>, tests: ScoreTests) -> Decision {
    if !enabled {
        Decision {
            status: RecognitionStatus::Unavailable,
            reason: RecognitionReason::Disabled,
            shown: None,
            stored: None,
        }
    } else if best is None {
        Decision {
            status: RecognitionStatus::Unknown,
            reason: RecognitionReason::NoReferences,
            shown: None,
            stored: None,
        }
    } else if tests.reaches_threshold && tests.has_gap {
        Decision {
            status: RecognitionStatus::Accepted,
            reason: RecognitionReason::Clear,
            shown: best,
            stored: best,
        }
    } else if tests.comes_near {
        Decision {
            status: RecognitionStatus::NeedsReview,
            reason: if tests.lacks_gap {
                RecognitionReason::LowGap
            } else {
                RecognitionReason::LowScore
            },
            shown: best,
            stored: None,
        }
    } else {
        Decision {
            status: RecognitionStatus::Unknown,
            reason: RecognitionReason::BelowThreshold,
            shown: None,
            stored: None,
        }
    }
}

/// Decides on a character.
pub fn recognize_character_native(enabled: bool, best: Option<i64>, tests: ScoreTests) -> (r: Decision)
    ensures
        r == decided(enabled, best, tests),
{
    if !enabled {
        return Decision {
            status: RecognitionStatus::Unavailable,
            reason: RecognitionReason::Disabled,
            shown: None,
            stored: None,
        };
    }
    if best.is_none() {
        return Decision {
            status: RecognitionStatus::Unknown,
            reason: RecognitionReason::NoReferences,
            shown: None,
            stored: None,
        };
    }
    if tests.reaches_threshold && tests.has_gap {
        Decision {
            status: RecognitionStatus::Accepted,
            reason: RecognitionReason::Clear,
            shown: best,
            stored: best,
        }
    } else if tests.comes_near {
        Decision {
            status: RecognitionStatus::NeedsReview,
            reason: if tests.lacks_gap {
                RecognitionReason::LowGap
            } else {
                RecognitionReason::LowScore
            },
            shown: best,
            stored: None,
        }
    } else {
        Decision {
            status: RecognitionStatus::Unknown,
            reason: RecognitionReason::BelowThreshold,
            shown: None,
            stored: None,
        }
    }
}

/// A character is stored only where it was accepted, and shown with it.
pub proof fn stored_characters_were_accepted(enabled: bool, best: Option<i64>, tests: ScoreTests)
    ensures
        ({
            let d = decided(enabled, best, tests);
            d.stored is Some <==> d.status == RecognitionStatus::Accepted
        }),
        ({
            let d = decided(enabled, best, tests);
            d.stored is Some ==> d.stored == d.shown
        }),
{
}

/// The best reference of a character is one of its references, the first of those with the
/// largest score.
proof fn lemma_best_is_best(refs: Seq<ScoredReference>, k: int)
    requires
        0 <= k < best_references(refs).len(),
    ensures
        exists|m: int|
            0 <= m < refs.len() && #[trigger] refs[m] == best_references(refs)[k] && forall|j: int|
                0 <= j < refs.len() && (#[trigger] refs[j]).character_id == refs[m].character_id
                    ==> refs[j].score <= refs[m].score && (j < m ==> refs[j].score
                    < refs[m].score),
    decreases refs.len(),
{
    let d = refs.drop_last();
    let r = refs.last();
    let before = best_references(d);
    let now = best_references(refs);
    let n = lemma_character_place(before, r);
    lemma_with_scored(before, r, n);
    characters_are_ranked_once(d);
    let at = refs.len() - 1;
    assert forall|j: int| 0 <= j < d.len() && (#[trigger] refs[j]).character_id
        == r.character_id implies n < before.len() && refs[j].score <= before[n].score by {
        assert(d[j] == refs[j]);
        let c = lemma_best_covers(d, j);
        if c < n {
            assert(before[c].character_id != r.character_id);
        } else if n < c {
            assert(before[n].character_id != before[c].character_id);
        }
    }
    if k == n && (n == before.len() || before[n].score < r.score) {
        assert(refs[at] == now[k]);
        assert forall|j: int| 0 <= j < refs.len() && (#[trigger] refs[j]).character_id
            == refs[at].character_id implies refs[j].score <= refs[at].score && (j < at
            ==> refs[j].score < refs[at].score) by {}
    } else {
        assert(now[k] == before[k]);
        lemma_best_is_best(d, k);
        let m = choose|m: int|
            0 <= m < d.len() && #[trigger] d[m] == before[k] && forall|j: int|
                0 <= j < d.len() && (#[trigger] d[j]).character_id == d[m].character_id
                    ==> d[j].score <= d[m].score && (j < m ==> d[j].score < d[m].score);
        assert(refs[m] == now[k]);
        assert forall|j: int| 0 <= j < refs.len() && (#[trigger] refs[j]).character_id
            == refs[m].character_id implies refs[j].score <= refs[m].score && (j < m
            ==> refs[j].score < refs[m].score) by {
            if j < d.len() {
                assert(d[j] == refs[j]);
            } else {
                assert(before[k].character_id == r.character_id);
                if k < n {
                    assert(before[k].character_id != r.character_id);
                } else if n < k {
                    assert(before[n].character_id != before[k].character_id);
                }
            }
        }
    }
}

/// The characters of references.
pub open spec fn characters_of(refs: Seq<ScoredReference>) -> Set<i64> {
    refs.map_values(|r: ScoredReference| r.character_id).to_set()
}

/// There is one best reference for each character.
proof fn lemma_best_count(refs: Seq<ScoredReference>)
    ensures
        best_references(refs).len() == characters_of(refs).len(),
{
    let best = best_references(refs);
    let id = |r: ScoredReference| r.character_id;
    let ids = best.map_values(id);
    characters_are_ranked_once(refs);
    assert(ids.no_duplicates()) by {
        assert forall|i: int, j: int| 0 <= i < ids.len() && 0 <= j < ids.len() && i
            != j implies ids[i] != ids[j] by {
            if i < j {
                assert(best[i].character_id != best[j].character_id);
            } else {
                assert(best[j].character_id != best[i].character_id);
            }
        }
    }
    ids.unique_seq_to_set();
    let all = refs.map_values(id);
    assert(ids.to_set() =~= all.to_set()) by {
        assert forall|c: i64| ids.to_set().contains(c) <==> all.to_set().contains(c) by {
            if ids.contains(c) {
                let k = ids.index_of(c);
                lemma_best_is_best(refs, k);
                let m = choose|m: int|
                    0 <= m < refs.len() && #[trigger] refs[m] == best[k] && forall|j: int|
                        0 <= j < refs.len() && (#[trigger] refs[j]).character_id
                            == refs[m].character_id ==> refs[j].score <= refs[m].score && (j < m
                            ==> refs[j].score < refs[m].score);
                assert(all[m] == c);
            }
            if all.contains(c) {
                let i = all.index_of(c);
                let k = lemma_best_covers(refs, i);
                assert(ids[k] == c);
            }
        }
    }
}

/// A ranking is the start of all characters by falling score. It has as many entries as are
/// asked for, or as there are characters, if those are fewer. Each entry is the best
/// reference of its character, no character is in it twice, and a character that is not in
/// it has no reference that is better than the last entry.
pub proof fn rankings_leave_no_better_character_out(refs: Seq<ScoredReference>, top_k: int)
    requires
        top_k >= 0,
    ensures
        ({
            let r = ranking(refs, top_k);
            let count = characters_of(refs).len();
            &&& r.len() == (if top_k < count {
                top_k
            } else {
                count as int
            })
            &&& forall|i: int, j: int|
                0 <= i < j < r.len() ==> (#[trigger] r[i]).score >= (#[trigger] r[j]).score
                    && r[i].character_id != r[j].character_id
            &&& forall|i: int| 0 <= i < r.len() ==> refs.contains(#[trigger] r[i])
            &&& forall|i: int, j: int|
                0 <= i < r.len() && 0 <= j < refs.len() && (#[trigger] r[i]).character_id == (
                #[trigger] refs[j]).character_id ==> refs[j].score <= r[i].score
            &&& forall|j: int|
                0 <= j < refs.len() ==> (exists|i: int|
                    0 <= i < r.len() && (#[trigger] r[i]).character_id == (
                    #[trigger] refs[j]).character_id) || (r.len() == top_k && (top_k > 0
                    ==> refs[j].score <= r.last().score))
        }),
{
    let best = best_references(refs);
    let all = by_score(best);
    let r = ranking(refs, top_k);
    lemma_by_score(best);
    lemma_best_count(refs);
    characters_are_ranked_once(refs);
    best.to_multiset_ensures();
    all.to_multiset_ensures();
    assert forall|i: int| 0 <= i < all.len() implies best.contains(#[trigger] all[i]) by {
        assert(all.contains(all[i]));
        assert(all.to_multiset().count(all[i]) > 0);
    }
    assert forall|i: int, j: int| 0 <= i < j < all.len() implies (#[trigger] all[i]).character_id
        != (#[trigger] all[j]).character_id by {
        if all[i].character_id == all[j].character_id {
            let a = best.index_of(all[i]);
            let b = best.index_of(all[j]);
            assert(best[a] == all[i] && best[b] == all[j]);
            if a < b {
                assert(best[a].character_id != best[b].character_id);
            } else if b < a {
                assert(best[b].character_id != best[a].character_id);
            }
            lemma_twice(all, i, j);
            lemma_once(best, a);
            assert(false);
        }
    }
    assert forall|i: int| 0 <= i < r.len() implies r[i] == #[trigger] all[i] by {}
    assert forall|i: int, j: int| 0 <= i < j < r.len() implies (#[trigger] r[i]).score >= (
    #[trigger] r[j]).score && r[i].character_id != r[j].character_id by {
        assert(r[i] == all[i] && r[j] == all[j]);
    }
    assert forall|i: int| 0 <= i < r.len() implies refs.contains(#[trigger] r[i]) && forall|j: int|
        0 <= j < refs.len() && r[i].character_id == (#[trigger] refs[j]).character_id
            ==> refs[j].score <= r[i].score by {
        assert(r[i] == all[i]);
        let k = best.index_of(all[i]);
        assert(best[k] == all[i]);
        lemma_best_is_best(refs, k);
        let m = choose|m: int|
            0 <= m < refs.len() && #[trigger] refs[m] == best[k] && forall|j: int|
                0 <= j < refs.len() && (#[trigger] refs[j]).character_id == refs[m].character_id
                    ==> refs[j].score <= refs[m].score && (j < m ==> refs[j].score
                    < refs[m].score);
        assert(refs.contains(refs[m]));
    }
    assert forall|j: int| 0 <= j < refs.len() implies (exists|i: int|
        0 <= i < r.len() && (#[trigger] r[i]).character_id == (
        #[trigger] refs[j]).character_id) || (r.len() == top_k && (top_k > 0 ==> refs[j].score
        <= r.last().score)) by {
        let k = lemma_best_covers(refs, j);
        assert(best.contains(best[k]));
        assert(best.to_multiset().count(best[k]) > 0);
        assert(all.contains(best[k]));
        let p = all.index_of(best[k]);
        assert(all[p] == best[k]);
        if p < r.len() {
            assert(r[p] == all[p]);
        } else if top_k > 0 {
            assert(all[top_k - 1].score >= all[p].score);
            assert(r.last() == all[top_k - 1]);
        }
    }
}

/// A value that stands in two places counts twice.
proof fn lemma_twice(s: Seq<ScoredReference>, i: int, j: int)
    requires
        0 <= i < j < s.len(),
        s[i] == s[j],
    ensures
        s.to_multiset().count(s[i]) >= 2,
{
    let v = s[i];
    let t = s.remove(j);
    s.to_multiset_ensures();
    t.to_multiset_ensures();
    assert(t[i] == v);
    assert(t.contains(v));
    assert(t.to_multiset().count(v) > 0);
    assert(t.to_multiset() =~= s.to_multiset().remove(s[j]));
}

/// Where no character stands twice, each value counts once.
proof fn lemma_once(s: Seq<ScoredReference>, i: int)
    requires
        0 <= i < s.len(),
        forall|a: int, b: int|
            0 <= a < b < s.len() ==> (#[trigger] s[a]).character_id != (
            #[trigger] s[b]).character_id,
    ensures
        s.to_multiset().count(s[i]) <= 1,
{
    let v = s[i];
    let t = s.remove(i);
    s.to_multiset_ensures();
    t.to_multiset_ensures();
    if t.contains(v) {
        let k = t.index_of(v);
        assert(t[k] == v);
        if k < i {
            assert(s[k] == v);
            assert(s[k].character_id != s[i].character_id);
        } else {
            assert(s[k + 1] == v);
            assert(s[i].character_id != s[k + 1].character_id);
        }
    }
    assert(!t.contains(v));
    assert(t.to_multiset().count(v) == 0);
    assert(t.to_multiset() =~= s.to_multiset().remove(s[i]));
    assert(s.contains(v));
    assert(s.to_multiset().remove(v).count(v) == s.to_multiset().count(v) - 1);
}

/// A character is accepted exactly where recognition is on, there is a best one, its score
/// reaches the threshold and the gap to the next is wide enough; it is put up for review where
/// its score comes near and it was not accepted; otherwise nothing is shown.
pub proof fn decisions_follow_the_tests(enabled: bool, best: Option<i64>, tests: ScoreTests)
    ensures
        ({
            let d = decided(enabled, best, tests);
            let clear = tests.reaches_threshold && tests.has_gap;
            &&& d.status == RecognitionStatus::Accepted <==> enabled && best is Some && clear
            &&& d.status == RecognitionStatus::NeedsReview <==> enabled && best is Some && !clear
                && tests.comes_near
            &&& d.status == RecognitionStatus::Unavailable <==> !enabled
            &&& d.shown == if enabled && (clear || tests.comes_near) {
                best
            } else {
                None
            }
            &&& d.reason == RecognitionReason::LowGap <==> d.status
                == RecognitionStatus::NeedsReview && tests.lacks_gap
            &&& d.reason == RecognitionReason::NoReferences <==> enabled && best is None
        }),
{
}

/// Pictures and videos can be recognized, other media and archives cannot; an item without a
/// type is taken as a picture.
pub proof fn pictures_and_videos_are_recognized(media_type: Seq<char>)
    ensures
        source_of("image"@, false) == Some(RecognitionSource::Image),
        source_of(Seq::empty(), false) == Some(RecognitionSource::Image),
        source_of("video"@, false) == Some(RecognitionSource::VideoFrame),
        source_of(media_type, true) is None,
        media_type.len() > 0 && media_type != "image"@ && media_type != "video"@ ==> source_of(
            media_type,
            false,
        ) is None,
{
    reveal_strlit("image");
    reveal_strlit("video");
    assert("image"@[0] == 'i' && "video"@[0] == 'v');
}

/// Every reference that can be read, has the right size and was made by the model in use is in
/// the index, and no other is, unless none is and older references are accepted.
pub proof fn indexes_hold_the_model_in_use(
    rows: Seq<ReferenceView>,
    repo_id: Seq<char>,
    variant: Seq<char>,
    file: Seq<char>,
    legacy: bool,
    i: int,
)
    requires
        0 <= i < rows.len(),
        rows[i].readable,
        rows[i].embedding_dim == Some(768i64),
        rows[i].variant == Some(variant),
        rows[i].file == Some(file),
    ensures
        index_places(rows, repo_id, variant, file, legacy).contains(i),
{
    let wanted = used(false, repo_id, variant, file);
    assert(wanted(rows[i]));
    lemma_place_taken(rows, wanted, i);
    let strict = places_of(rows, wanted);
    assert(strict.len() > 0);
}

/// A wanted row has its place among the places.
proof fn lemma_place_taken(
    rows: Seq<ReferenceView>,
    wanted: spec_fn(ReferenceView) -> bool,
    i: int,
)
    requires
        0 <= i < rows.len(),
        wanted(rows[i]),
    ensures
        places_of(rows, wanted).contains(i),
    decreases rows.len(),
{
    let d = rows.drop_last();
    let now = places_of(rows, wanted);
    let before = places_of(d, wanted);
    if i < d.len() {
        assert(d[i] == rows[i]);
        lemma_place_taken(d, wanted, i);
        let k = before.index_of(i);
        assert(now[k] == i);
    } else {
        assert(now[before.len() as int] == i);
    }
}

/// As many predictions are given as is asked for, from one up to twenty.
pub proof fn predictions_have_limits(top_k: i64, more: i64)
    requires
        top_k <= more,
    ensures
        1 <= prediction_count(top_k) <= 20,
        1 <= top_k <= 20 ==> prediction_count(top_k) == top_k,
        prediction_count(top_k) <= prediction_count(more),
{
}

/// The key of a cached index tells its file and its state: two files, and two states of one
/// file, have different keys.
pub proof fn cache_keys_tell_files_apart(
    path: Seq<char>,
    other: Seq<char>,
    signature: Seq<char>,
    changed: Seq<char>,
)
    requires
        !path.contains('\\') && !path.contains('|'),
        !other.contains('\\') && !other.contains('|'),
        cache_key(path, signature) == cache_key(other, changed),
    ensures
        path == other,
        signature == changed,
{
    reveal_strlit("|");
    let bar = "|"@;
    assert(bar =~= seq!['|']);
    lemma_slashes_stay(path);
    lemma_slashes_stay(other);
    let (a, b) = (path + bar + signature, other + bar + changed);
    assert(a == b);
    let n = path.len() as int;
    let m = other.len() as int;
    if n < m {
        assert(a[n] == '|');
        assert(b[n] == other[n]);
        assert(other.contains(other[n]));
    } else if m < n {
        assert(b[m] == '|');
        assert(a[m] == path[m]);
        assert(path.contains(path[m]));
    }
    assert(a.take(n) =~= path);
    assert(b.take(n) =~= other);
    assert(a.skip(n + 1) =~= signature);
    assert(b.skip(n + 1) =~= changed);
}

/// A path without backslashes stays.
proof fn lemma_slashes_stay(path: Seq<char>)
    requires
        !path.contains('\\'),
    ensures
        replaced(path, '\\', '/') == path,
{
    assert forall|i: int| 0 <= i < path.len() implies path[i] != '\\' by {
        assert(path.contains(path[i]));
    }
    assert(replaced(path, '\\', '/') =~= path);
}

/// Where no reference was made by the variant in use, every readable one of the right size is
/// used if older ones are accepted, and none is if they are not.
pub proof fn older_references_are_a_last_resort(
    rows: Seq<ReferenceView>,
    repo_id: Seq<char>,
    variant: Seq<char>,
    file: Seq<char>,
    i: int,
)
    requires
        0 <= i < rows.len(),
        rows[i].readable,
        rows[i].embedding_dim == Some(768i64),
        forall|j: int| 0 <= j < rows.len() ==> (#[trigger] rows[j]).variant != Some(variant),
    ensures
        index_places(rows, repo_id, variant, file, true).contains(i),
        index_places(rows, repo_id, variant, file, false).len() == 0,
{
    let strict = used(false, repo_id, variant, file);
    lemma_no_places(rows, strict);
    let any = used(true, repo_id, variant, file);
    assert(any(rows[i]));
    lemma_place_taken(rows, any, i);
}

/// Where no row is wanted there are no places.
proof fn lemma_no_places(rows: Seq<ReferenceView>, wanted: spec_fn(ReferenceView) -> bool)
    requires
        forall|j: int| 0 <= j < rows.len() ==> !wanted(#[trigger] rows[j]),
    ensures
        places_of(rows, wanted).len() == 0,
    decreases rows.len(),
{
    if rows.len() > 0 {
        let d = rows.drop_last();
        assert(!wanted(rows[rows.len() - 1]));
        assert forall|j: int| 0 <= j < d.len() implies !wanted(#[trigger] d[j]) by {
            assert(d[j] == rows[j]);
        }
        lemma_no_places(d, wanted);
    }
}

/// A reference of another variant is never of the model in use, nor is one of another file and
/// another repository; one that does not tell its file is told by its variant.
pub proof fn models_are_told_by_variant_and_file(
    r: ReferenceView,
    repo_id: Seq<char>,
    variant: Seq<char>,
    file: Seq<char>,
)
    ensures
        r.variant != Some(variant) ==> !made_by(r, repo_id, variant, file),
        r.variant == Some(variant) && r.file == Some(file) ==> made_by(r, repo_id, variant, file),
        r.variant == Some(variant) && r.file is None ==> made_by(r, repo_id, variant, file),
        r.variant == Some(variant) && r.repo_id == Some(repo_id) ==> made_by(
            r,
            repo_id,
            variant,
            file,
        ),
        r.file is Some && r.file->Some_0.len() > 0 && r.file != Some(file) && r.repo_id != Some(
            repo_id,
        ) ==> !made_by(r, repo_id, variant, file),
{
    reveal_strlit("");
}

}
