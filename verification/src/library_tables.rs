//! The tables of a media library that tell which artist and which item a record
//! belongs to.
//!
//! What only fills a record, such as scores and embeddings, is named by the row
//! that it came from. The rows of a table stand in the order of their ids.

use vstd::prelude::*;
use crate::artist_profile_links::{ArtistProfileLink, LinkView};
use crate::json::{Json, JsonTree};
use crate::plan_columns::{cell_views, duplicate_cells, Cell, CellView};
use crate::tables::{map_rows, views};

verus! {

/// An artist.
#[derive(Debug)]
pub struct ArtistRow {
    /// The artist.
    pub id: i64,
    /// The folder.
    pub path: String,
    /// Whether the folder is gone.
    pub missing: bool,
    /// When it went, by a number that orders as the times do.
    pub missing_at: Option<i64>,
}

/// The value of a row of [`ArtistRow`].
#[verifier::ext_equal]
pub struct ArtistView {
    /// The artist.
    pub id: i64,
    /// The folder.
    pub path: Seq<char>,
    /// Whether the folder is gone.
    pub missing: bool,
    /// When it went, by a number that orders as the times do.
    pub missing_at: Option<i64>,
}

impl View for ArtistRow {
    type V = ArtistView;

    open spec fn view(&self) -> ArtistView {
        ArtistView {
            id: self.id,
            path: self.path@,
            missing: self.missing,
            missing_at: self.missing_at,
        }
    }
}

impl ArtistRow {
    /// A second copy of a row.
    pub fn duplicate(&self) -> (r: ArtistRow)
        ensures
            r@ == self@,
    {
        ArtistRow {
            id: self.id,
            path: self.path.clone(),
            missing: self.missing,
            missing_at: self.missing_at,
        }
    }
}

/// A tag of an artist.
#[derive(Debug)]
pub struct TagRow {
    /// The tag.
    pub id: i64,
    /// The artist.
    pub artist_id: i64,
    /// The name, which no other tag of the artist has.
    pub name: String,
}

/// The value of a row of [`TagRow`].
#[verifier::ext_equal]
pub struct TagView {
    /// The tag.
    pub id: i64,
    /// The artist.
    pub artist_id: i64,
    /// The name, which no other tag of the artist has.
    pub name: Seq<char>,
}

impl View for TagRow {
    type V = TagView;

    open spec fn view(&self) -> TagView {
        TagView {
            id: self.id,
            artist_id: self.artist_id,
            name: self.name@,
        }
    }
}

impl TagRow {
    /// A second copy of a row.
    pub fn duplicate(&self) -> (r: TagRow)
        ensures
            r@ == self@,
    {
        TagRow {
            id: self.id,
            artist_id: self.artist_id,
            name: self.name.clone(),
        }
    }
}

/// An item of an artist.
#[derive(Debug)]
pub struct ItemRow {
    /// The item.
    pub id: i64,
    /// The artist.
    pub artist_id: i64,
    /// The file.
    pub path: String,
    /// The file with every configured alias resolved. Where a path is rewritten the
    /// new path is its own normal form.
    pub normal_path: String,
    /// Whether the file is gone.
    pub missing: bool,
    /// When it went, by a number that orders as the times do.
    pub missing_at: Option<i64>,
}

/// The value of a row of [`ItemRow`].
#[verifier::ext_equal]
pub struct ItemView {
    /// The item.
    pub id: i64,
    /// The artist.
    pub artist_id: i64,
    /// The file.
    pub path: Seq<char>,
    /// The file with every configured alias resolved. Where a path is rewritten the
    /// new path is its own normal form.
    pub normal_path: Seq<char>,
    /// Whether the file is gone.
    pub missing: bool,
    /// When it went, by a number that orders as the times do.
    pub missing_at: Option<i64>,
}

impl View for ItemRow {
    type V = ItemView;

    open spec fn view(&self) -> ItemView {
        ItemView {
            id: self.id,
            artist_id: self.artist_id,
            path: self.path@,
            normal_path: self.normal_path@,
            missing: self.missing,
            missing_at: self.missing_at,
        }
    }
}

impl ItemRow {
    /// A second copy of a row.
    pub fn duplicate(&self) -> (r: ItemRow)
        ensures
            r@ == self@,
    {
        ItemRow {
            id: self.id,
            artist_id: self.artist_id,
            path: self.path.clone(),
            normal_path: self.normal_path.clone(),
            missing: self.missing,
            missing_at: self.missing_at,
        }
    }
}

/// A parsed document with links.
#[derive(Debug)]
pub struct DocumentRow {
    /// The document.
    pub id: i64,
    /// The artist.
    pub artist_id: i64,
    /// The item.
    pub item_id: Option<i64>,
    /// The file.
    pub path: String,
}

/// The value of a row of [`DocumentRow`].
#[verifier::ext_equal]
pub struct DocumentView {
    /// The document.
    pub id: i64,
    /// The artist.
    pub artist_id: i64,
    /// The item.
    pub item_id: Option<i64>,
    /// The file.
    pub path: Seq<char>,
}

impl View for DocumentRow {
    type V = DocumentView;

    open spec fn view(&self) -> DocumentView {
        DocumentView {
            id: self.id,
            artist_id: self.artist_id,
            item_id: self.item_id,
            path: self.path@,
        }
    }
}

impl DocumentRow {
    /// A second copy of a row.
    pub fn duplicate(&self) -> (r: DocumentRow)
        ensures
            r@ == self@,
    {
        DocumentRow {
            id: self.id,
            artist_id: self.artist_id,
            item_id: self.item_id,
            path: self.path.clone(),
        }
    }
}

/// A file that a scan has seen.
#[derive(Debug)]
pub struct ScanRow {
    /// The artist.
    pub artist_id: Option<i64>,
    /// The file.
    pub path: String,
}

/// The value of a row of [`ScanRow`].
#[verifier::ext_equal]
pub struct ScanView {
    /// The artist.
    pub artist_id: Option<i64>,
    /// The file.
    pub path: Seq<char>,
}

impl View for ScanRow {
    type V = ScanView;

    open spec fn view(&self) -> ScanView {
        ScanView {
            artist_id: self.artist_id,
            path: self.path@,
        }
    }
}

impl ScanRow {
    /// A second copy of a row.
    pub fn duplicate(&self) -> (r: ScanRow)
        ensures
            r@ == self@,
    {
        ScanRow {
            artist_id: self.artist_id,
            path: self.path.clone(),
        }
    }
}

/// A move of a file, made or proposed.
#[derive(Debug)]
pub struct MoveRow {
    /// The move.
    pub id: i64,
    /// The artist.
    pub artist_id: Option<i64>,
    /// The item.
    pub item_id: Option<i64>,
    /// Where the file was.
    pub old_path: String,
    /// Where it is.
    pub new_path: String,
}

/// The value of a row of [`MoveRow`].
#[verifier::ext_equal]
pub struct MoveView {
    /// The move.
    pub id: i64,
    /// The artist.
    pub artist_id: Option<i64>,
    /// The item.
    pub item_id: Option<i64>,
    /// Where the file was.
    pub old_path: Seq<char>,
    /// Where it is.
    pub new_path: Seq<char>,
}

impl View for MoveRow {
    type V = MoveView;

    open spec fn view(&self) -> MoveView {
        MoveView {
            id: self.id,
            artist_id: self.artist_id,
            item_id: self.item_id,
            old_path: self.old_path@,
            new_path: self.new_path@,
        }
    }
}

impl MoveRow {
    /// A second copy of a row.
    pub fn duplicate(&self) -> (r: MoveRow)
        ensures
            r@ == self@,
    {
        MoveRow {
            id: self.id,
            artist_id: self.artist_id,
            item_id: self.item_id,
            old_path: self.old_path.clone(),
            new_path: self.new_path.clone(),
        }
    }
}

/// A plan for a folder.
#[derive(Debug)]
pub struct PlanRow {
    /// The plan.
    pub id: i64,
    /// The artist.
    pub artist_id: i64,
    /// The folder.
    pub source_folder: String,
    /// The chosen tags as they are stored, where the table has them.
    pub selected_tag_ids: Option<String>,
    /// The values of the other columns by which plans are compared, where the table has
    /// them.
    pub fields: Vec<Cell>,
}

/// The value of a row of [`PlanRow`].
#[verifier::ext_equal]
pub struct PlanView {
    /// The plan.
    pub id: i64,
    /// The artist.
    pub artist_id: i64,
    /// The folder.
    pub source_folder: Seq<char>,
    /// The chosen tags as they are stored, where the table has them.
    pub selected_tag_ids: Option<Seq<char>>,
    /// The values of the other columns by which plans are compared, where the table has
    /// them.
    pub fields: Seq<CellView>,
}

impl View for PlanRow {
    type V = PlanView;

    open spec fn view(&self) -> PlanView {
        PlanView {
            id: self.id,
            artist_id: self.artist_id,
            source_folder: self.source_folder@,
            selected_tag_ids: match self.selected_tag_ids {
                Some(t) => Some(t@),
                None => None,
            },
            fields: cell_views(self.fields@),
        }
    }
}

impl PlanRow {
    /// A second copy of a row.
    pub fn duplicate(&self) -> (r: PlanRow)
        ensures
            r@ == self@,
    {
        PlanRow {
            id: self.id,
            artist_id: self.artist_id,
            source_folder: self.source_folder.clone(),
            selected_tag_ids: match &self.selected_tag_ids {
                Some(t) => Some(t.clone()),
                None => None,
            },
            fields: duplicate_cells(&self.fields),
        }
    }
}

/// A deleted item that can be restored.
#[derive(Debug)]
pub struct RecycleRow {
    /// The entry.
    pub id: i64,
    /// The artist.
    pub artist_id: i64,
    /// Whether it waits to be restored.
    pub active: bool,
    /// The copy of the item, where it can be read.
    pub snapshot: Option<Json>,
    /// The tags of the item as they are stored, where the table has them.
    pub tag_ids: Option<String>,
}

/// The value of a row of [`RecycleRow`].
#[verifier::ext_equal]
pub struct RecycleView {
    /// The entry.
    pub id: i64,
    /// The artist.
    pub artist_id: i64,
    /// Whether it waits to be restored.
    pub active: bool,
    /// The copy of the item, where it can be read.
    pub snapshot: Option<JsonTree>,
    /// The tags of the item as they are stored, where the table has them.
    pub tag_ids: Option<Seq<char>>,
}

impl View for RecycleRow {
    type V = RecycleView;

    open spec fn view(&self) -> RecycleView {
        RecycleView {
            id: self.id,
            artist_id: self.artist_id,
            active: self.active,
            snapshot: match self.snapshot {
                Some(j) => Some(j.tree()),
                None => None,
            },
            tag_ids: match self.tag_ids {
                Some(t) => Some(t@),
                None => None,
            },
        }
    }
}

impl RecycleRow {
    /// A second copy of a row.
    pub fn duplicate(&self) -> (r: RecycleRow)
        ensures
            r@ == self@,
    {
        RecycleRow {
            id: self.id,
            artist_id: self.artist_id,
            active: self.active,
            snapshot: match &self.snapshot {
                Some(j) => Some(j.duplicate()),
                None => None,
            },
            tag_ids: match &self.tag_ids {
                Some(t) => Some(t.clone()),
                None => None,
            },
        }
    }
}

/// That an item has a tag.
#[derive(Clone, Copy, PartialEq, Eq, Debug, Structural)]
pub struct ItemTag {
    /// The item.
    pub item_id: i64,
    /// The tag.
    pub tag_id: i64,
}

impl View for ItemTag {
    type V = ItemTag;

    open spec fn view(&self) -> ItemTag {
        *self
    }
}

/// That an item is a favorite.
#[derive(Clone, Copy, PartialEq, Eq, Debug, Structural)]
pub struct Favorite {
    /// The item.
    pub item_id: i64,
    /// Since when, by a number that orders as the times do.
    pub created: i64,
}

impl View for Favorite {
    type V = Favorite;

    open spec fn view(&self) -> Favorite {
        *self
    }
}

/// A picture of a character.
#[derive(Clone, Copy, PartialEq, Eq, Debug, Structural)]
pub struct CharacterReference {
    /// The reference.
    pub id: i64,
    /// The item.
    pub item_id: Option<i64>,
}

impl View for CharacterReference {
    type V = CharacterReference;

    open spec fn view(&self) -> CharacterReference {
        *self
    }
}

/// A recognition result.
#[derive(Clone, Copy, PartialEq, Eq, Debug, Structural)]
pub struct Recognition {
    /// The item.
    pub item_id: i64,
    /// The row that the result was computed for.
    pub content: i64,
}

impl View for Recognition {
    type V = Recognition;

    open spec fn view(&self) -> Recognition {
        *self
    }
}

/// A picture of an artist for comparison.
#[derive(Clone, Copy, PartialEq, Eq, Debug, Structural)]
pub struct ArtistReference {
    /// The reference.
    pub id: i64,
    /// The artist.
    pub artist_id: i64,
    /// The item, unless it is detached.
    pub item_id: Option<i64>,
    /// The rank of the time at which it was made.
    pub created: i64,
    /// The row whose embeddings it holds.
    pub content: i64,
}

impl View for ArtistReference {
    type V = ArtistReference;

    open spec fn view(&self) -> ArtistReference {
        *self
    }
}

/// That an item may be by an artist.
#[derive(Clone, Copy, PartialEq, Eq, Debug, Structural)]
pub struct ArtistSuggestion {
    /// The suggestion.
    pub id: i64,
    /// The item.
    pub item_id: Option<i64>,
    /// The artist.
    pub artist_id: Option<i64>,
    /// How much the decision on it weighs.
    pub priority: i64,
    /// The row whose decision and scores it holds.
    pub content: i64,
    /// The reference that it was found by.
    pub matched_ref: Option<i64>,
}

impl View for ArtistSuggestion {
    type V = ArtistSuggestion;

    open spec fn view(&self) -> ArtistSuggestion {
        *self
    }
}

/// How far the scan of an artist is.
#[derive(Clone, Copy, PartialEq, Eq, Debug, Structural)]
pub struct ScanState {
    /// The artist.
    pub artist_id: Option<i64>,
}

impl View for ScanState {
    type V = ScanState;

    open spec fn view(&self) -> ScanState {
        *self
    }
}

/// The tables. A table that is not there is empty.
#[derive(Debug)]
pub struct Library {
    /// The artists.
    pub artists: Vec<ArtistRow>,
    /// The tags.
    pub tags: Vec<TagRow>,
    /// The items.
    pub items: Vec<ItemRow>,
    /// Which item has which tag.
    pub item_tags: Vec<ItemTag>,
    /// The favorites.
    pub favorites: Vec<Favorite>,
    /// The pictures of characters.
    pub character_references: Vec<CharacterReference>,
    /// The recognition results.
    pub recognitions: Vec<Recognition>,
    /// The pictures of artists.
    pub references: Vec<ArtistReference>,
    /// The suggested artists.
    pub suggestions: Vec<ArtistSuggestion>,
    /// The parsed documents.
    pub documents: Vec<DocumentRow>,
    /// What scans have seen.
    pub scan_seen: Vec<ScanRow>,
    /// What scans have yet to take in.
    pub scan_candidates: Vec<ScanRow>,
    /// The proposed moves.
    pub move_candidates: Vec<MoveRow>,
    /// The moves that were made.
    pub move_history: Vec<MoveRow>,
    /// How far the scans are.
    pub scan_states: Vec<ScanState>,
    /// The plans for folders.
    pub plans: Vec<PlanRow>,
    /// The deleted items.
    pub recycled: Vec<RecycleRow>,
    /// The links of artists.
    pub profile_links: Vec<ArtistProfileLink>,
}

/// The value of a [`Library`].
#[verifier::ext_equal]
pub struct LibraryView {
    /// The artists.
    pub artists: Seq<ArtistView>,
    /// The tags.
    pub tags: Seq<TagView>,
    /// The items.
    pub items: Seq<ItemView>,
    /// Which item has which tag.
    pub item_tags: Seq<ItemTag>,
    /// The favorites.
    pub favorites: Seq<Favorite>,
    /// The pictures of characters.
    pub character_references: Seq<CharacterReference>,
    /// The recognition results.
    pub recognitions: Seq<Recognition>,
    /// The pictures of artists.
    pub references: Seq<ArtistReference>,
    /// The suggested artists.
    pub suggestions: Seq<ArtistSuggestion>,
    /// The parsed documents.
    pub documents: Seq<DocumentView>,
    /// What scans have seen.
    pub scan_seen: Seq<ScanView>,
    /// What scans have yet to take in.
    pub scan_candidates: Seq<ScanView>,
    /// The proposed moves.
    pub move_candidates: Seq<MoveView>,
    /// The moves that were made.
    pub move_history: Seq<MoveView>,
    /// How far the scans are.
    pub scan_states: Seq<ScanState>,
    /// The plans for folders.
    pub plans: Seq<PlanView>,
    /// The deleted items.
    pub recycled: Seq<RecycleView>,
    /// The links of artists.
    pub profile_links: Seq<LinkView>,
}

impl View for Library {
    type V = LibraryView;

    open spec fn view(&self) -> LibraryView {
        LibraryView {
            artists: views(self.artists@),
            tags: views(self.tags@),
            items: views(self.items@),
            item_tags: views(self.item_tags@),
            favorites: views(self.favorites@),
            character_references: views(self.character_references@),
            recognitions: views(self.recognitions@),
            references: views(self.references@),
            suggestions: views(self.suggestions@),
            documents: views(self.documents@),
            scan_seen: views(self.scan_seen@),
            scan_candidates: views(self.scan_candidates@),
            move_candidates: views(self.move_candidates@),
            move_history: views(self.move_history@),
            scan_states: views(self.scan_states@),
            plans: views(self.plans@),
            recycled: views(self.recycled@),
            profile_links: views(self.profile_links@),
        }
    }
}

impl Library {
    /// A library without rows.
    pub fn empty() -> (r: Library)
        ensures
            r@.artists.len() == 0,
            r@.tags.len() == 0,
            r@.items.len() == 0,
            r@.item_tags.len() == 0,
            r@.favorites.len() == 0,
            r@.character_references.len() == 0,
            r@.recognitions.len() == 0,
            r@.references.len() == 0,
            r@.suggestions.len() == 0,
            r@.documents.len() == 0,
            r@.scan_seen.len() == 0,
            r@.scan_candidates.len() == 0,
            r@.move_candidates.len() == 0,
            r@.move_history.len() == 0,
            r@.scan_states.len() == 0,
            r@.plans.len() == 0,
            r@.recycled.len() == 0,
            r@.profile_links.len() == 0,
    {
        Library {
            artists: Vec::new(),
            tags: Vec::new(),
            items: Vec::new(),
            item_tags: Vec::new(),
            favorites: Vec::new(),
            character_references: Vec::new(),
            recognitions: Vec::new(),
            references: Vec::new(),
            suggestions: Vec::new(),
            documents: Vec::new(),
            scan_seen: Vec::new(),
            scan_candidates: Vec::new(),
            move_candidates: Vec::new(),
            move_history: Vec::new(),
            scan_states: Vec::new(),
            plans: Vec::new(),
            recycled: Vec::new(),
            profile_links: Vec::new(),
        }
    }

    /// A second copy of a library.
    pub fn duplicate(&self) -> (r: Library)
        ensures
            r@ == self@,
    {
        let ghost same_artist = |r: ArtistView| r;
        let copy_artist = |r: &ArtistRow| -> (o: ArtistRow)
            ensures
                o@ == same_artist(r@),
            { r.duplicate() };
        let ghost same_tag = |r: TagView| r;
        let copy_tag = |r: &TagRow| -> (o: TagRow)
            ensures
                o@ == same_tag(r@),
            { r.duplicate() };
        let ghost same_item = |r: ItemView| r;
        let copy_item = |r: &ItemRow| -> (o: ItemRow)
            ensures
                o@ == same_item(r@),
            { r.duplicate() };
        let ghost same_document = |r: DocumentView| r;
        let copy_document = |r: &DocumentRow| -> (o: DocumentRow)
            ensures
                o@ == same_document(r@),
            { r.duplicate() };
        let ghost same_scan = |r: ScanView| r;
        let copy_scan = |r: &ScanRow| -> (o: ScanRow)
            ensures
                o@ == same_scan(r@),
            { r.duplicate() };
        let ghost same_move = |r: MoveView| r;
        let copy_move = |r: &MoveRow| -> (o: MoveRow)
            ensures
                o@ == same_move(r@),
            { r.duplicate() };
        let ghost same_plan = |r: PlanView| r;
        let copy_plan = |r: &PlanRow| -> (o: PlanRow)
            ensures
                o@ == same_plan(r@),
            { r.duplicate() };
        let ghost same_recycle = |r: RecycleView| r;
        let copy_recycle = |r: &RecycleRow| -> (o: RecycleRow)
            ensures
                o@ == same_recycle(r@),
            { r.duplicate() };
        let ghost same_link = |r: LinkView| r;
        let copy_link = |r: &ArtistProfileLink| -> (o: ArtistProfileLink)
            ensures
                o@ == same_link(r@),
            { r.duplicate() };
        let r = Library {
            artists: map_rows(&self.artists, copy_artist, Ghost(same_artist)),
            tags: map_rows(&self.tags, copy_tag, Ghost(same_tag)),
            items: map_rows(&self.items, copy_item, Ghost(same_item)),
            item_tags: self.item_tags.clone(),
            favorites: self.favorites.clone(),
            character_references: self.character_references.clone(),
            recognitions: self.recognitions.clone(),
            references: self.references.clone(),
            suggestions: self.suggestions.clone(),
            documents: map_rows(&self.documents, copy_document, Ghost(same_document)),
            scan_seen: map_rows(&self.scan_seen, copy_scan, Ghost(same_scan)),
            scan_candidates: map_rows(&self.scan_candidates, copy_scan, Ghost(same_scan)),
            move_candidates: map_rows(&self.move_candidates, copy_move, Ghost(same_move)),
            move_history: map_rows(&self.move_history, copy_move, Ghost(same_move)),
            scan_states: self.scan_states.clone(),
            plans: map_rows(&self.plans, copy_plan, Ghost(same_plan)),
            recycled: map_rows(&self.recycled, copy_recycle, Ghost(same_recycle)),
            profile_links: map_rows(&self.profile_links, copy_link, Ghost(same_link)),
        };
        assert(r@.artists =~= self@.artists);
        assert(r@.tags =~= self@.tags);
        assert(r@.items =~= self@.items);
        assert(r@.item_tags =~= self@.item_tags);
        assert(r@.favorites =~= self@.favorites);
        assert(r@.character_references =~= self@.character_references);
        assert(r@.recognitions =~= self@.recognitions);
        assert(r@.references =~= self@.references);
        assert(r@.suggestions =~= self@.suggestions);
        assert(r@.documents =~= self@.documents);
        assert(r@.scan_seen =~= self@.scan_seen);
        assert(r@.scan_candidates =~= self@.scan_candidates);
        assert(r@.move_candidates =~= self@.move_candidates);
        assert(r@.move_history =~= self@.move_history);
        assert(r@.scan_states =~= self@.scan_states);
        assert(r@.plans =~= self@.plans);
        assert(r@.recycled =~= self@.recycled);
        assert(r@.profile_links =~= self@.profile_links);
        r
    }
}

}
