//! The columns by which two plans for a folder are compared.

use vstd::prelude::*;
use crate::library_tables::{PlanRow, PlanView};
use crate::text::{same_text, texts};

verus! {

/// A value of a column.
#[derive(Debug)]
pub enum Cell {
    /// No value, or a real number that is not finite.
    Null,
    /// An integer.
    Integer(i64),
    /// A real number, by a number that equal ones share.
    Real(i64),
    /// A text.
    Text(String),
    /// Raw bytes.
    Blob(Vec<u8>),
}

/// The value of a [`Cell`].
pub enum CellView {
    /// No value, or a real number that is not finite.
    Null,
    /// An integer.
    Integer(i64),
    /// A real number, by a number that equal ones share.
    Real(i64),
    /// A text.
    Text(Seq<char>),
    /// Raw bytes.
    Blob(Seq<u8>),
}

impl View for Cell {
    type V = CellView;

    open spec fn view(&self) -> CellView {
        match *self {
            Cell::Null => CellView::Null,
            Cell::Integer(n) => CellView::Integer(n),
            Cell::Real(n) => CellView::Real(n),
            Cell::Text(s) => CellView::Text(s@),
            Cell::Blob(b) => CellView::Blob(b@),
        }
    }
}

/// Whether two byte strings are the same.
fn same_bytes(a: &Vec<u8>, b: &Vec<u8>) -> (r: bool)
    ensures
        r == (a@ == b@),
{
    if a.len() != b.len() {
        return false;
    }
    let mut i: usize = 0;
    while i < a.len()
        invariant
            i <= a@.len(),
            a@.len() == b@.len(),
            forall|k: int| 0 <= k < i ==> a@[k] == b@[k],
        decreases a@.len() - i,
    {
        if a[i] != b[i] {
            return false;
        }
        i += 1;
    }
    assert(a@ =~= b@);
    true
}

impl Cell {
    /// A second copy of a value.
    pub fn duplicate(&self) -> (r: Cell)
        ensures
            r@ == self@,
    {
        match self {
            Cell::Null => Cell::Null,
            Cell::Integer(n) => Cell::Integer(*n),
            Cell::Real(n) => Cell::Real(*n),
            Cell::Text(s) => Cell::Text(s.clone()),
            Cell::Blob(b) => {
                let mut out: Vec<u8> = Vec::new();
                let mut i: usize = 0;
                while i < b.len()
                    invariant
                        i <= b@.len(),
                        out@ == b@.take(i as int),
                    decreases b@.len() - i,
                {
                    out.push(b[i]);
                    assert(b@.take(i as int + 1) =~= b@.take(i as int).push(b@[i as int]));
                    i += 1;
                }
                assert(out@ =~= b@);
                Cell::Blob(out)
            },
        }
    }

    /// Whether two values are the same.
    pub fn same(&self, other: &Cell) -> (r: bool)
        ensures
            r == (self@ == other@),
    {
        match (self, other) {
            (Cell::Null, Cell::Null) => true,
            (Cell::Integer(a), Cell::Integer(b)) => *a == *b,
            (Cell::Real(a), Cell::Real(b)) => *a == *b,
            (Cell::Text(a), Cell::Text(b)) => same_text(a, b),
            (Cell::Blob(a), Cell::Blob(b)) => same_bytes(a, b),
            _ => false,
        }
    }
}

/// The values of cells.
pub open spec fn cell_views(cells: Seq<Cell>) -> Seq<CellView> {
    cells.map_values(|c: Cell| c@)
}

/// A second copy of values.
pub(crate) fn duplicate_cells(cells: &Vec<Cell>) -> (r: Vec<Cell>)
    ensures
        cell_views(r@) == cell_views(cells@),
{
    let mut out: Vec<Cell> = Vec::new();
    let mut i: usize = 0;
    while i < cells.len()
        invariant
            i <= cells@.len(),
            out@.len() == i,
            forall|k: int| 0 <= k < i ==> (#[trigger] out@[k])@ == cells@[k]@,
        decreases cells@.len() - i,
    {
        out.push(cells[i].duplicate());
        i += 1;
    }
    assert(cell_views(out@) =~= cell_views(cells@));
    out
}

/// Whether two lists of values are the same.
pub(crate) fn same_cells(a: &Vec<Cell>, b: &Vec<Cell>) -> (r: bool)
    ensures
        r == (cell_views(a@) == cell_views(b@)),
{
    assert(cell_views(a@).len() == a@.len() && cell_views(b@).len() == b@.len());
    if a.len() != b.len() {
        return false;
    }
    let mut i: usize = 0;
    while i < a.len()
        invariant
            i <= a@.len(),
            a@.len() == b@.len(),
            forall|k: int| 0 <= k < i ==> (#[trigger] a@[k])@ == b@[k]@,
        decreases a@.len() - i,
    {
        if !a[i].same(&b[i]) {
            assert(cell_views(a@)[i as int] != cell_views(b@)[i as int]);
            return false;
        }
        i += 1;
    }
    assert(cell_views(a@) =~= cell_views(b@));
    true
}

/// The column of the chosen tags.
pub open spec fn tags_column() -> Seq<char> {
    "selected_tag_ids"@
}

/// The columns by which two plans are compared, where a table has them.
pub open spec fn semantic_columns() -> Seq<Seq<char>> {
    seq![
        "original_folder_name"@,
        "original_title"@,
        "parsed_date"@,
        "selected_tag_ids"@,
        "status"@,
        "file_count"@,
        "total_size"@,
        "max_mtime"@,
        "created_at"@,
        "updated_at"@,
        "confirmed_at"@,
        "confirmation_source"@,
        "target_folder"@,
        "executed_at"@,
        "execution_log"@,
        "format_snapshot"@,
        "plan_kind"@,
        "split_actions"@,
    ]
}

/// The names of a list that another list holds.
pub open spec fn names_in(names: Seq<Seq<char>>, present: Seq<Seq<char>>) -> Seq<Seq<char>>
    decreases names.len(),
{
    if names.len() == 0 {
        Seq::empty()
    } else {
        let before = names_in(names.drop_last(), present);
        if present.contains(names.last()) {
            before.push(names.last())
        } else {
            before
        }
    }
}

/// Whether a list holds a name.
fn has_name(names: &Vec<String>, name: &str) -> (r: bool)
    ensures
        r == texts(names@).contains(name@),
{
    let ghost all = texts(names@);
    let mut i: usize = 0;
    while i < names.len()
        invariant
            i <= names@.len(),
            all == texts(names@),
            forall|k: int| 0 <= k < i ==> #[trigger] all[k] != name@,
        decreases names@.len() - i,
    {
        assert(all[i as int] == names@[i as int]@);
        if same_text(&names[i], name) {
            return true;
        }
        i += 1;
    }
    false
}

/// The columns by which plans are compared in a table with the given columns.
pub fn folder_plan_semantic_columns(present: &Vec<String>) -> (r: Vec<String>)
    ensures
        texts(r@) == names_in(semantic_columns(), texts(present@)),
{
    let names: [&str; 18] = [
        "original_folder_name",
        "original_title",
        "parsed_date",
        "selected_tag_ids",
        "status",
        "file_count",
        "total_size",
        "max_mtime",
        "created_at",
        "updated_at",
        "confirmed_at",
        "confirmation_source",
        "target_folder",
        "executed_at",
        "execution_log",
        "format_snapshot",
        "plan_kind",
        "split_actions",
    ];
    let ghost all = semantic_columns();
    let mut out: Vec<String> = Vec::new();
    let mut i: usize = 0;
    assert(all.take(0) =~= Seq::<Seq<char>>::empty());
    assert(texts(out@) =~= Seq::<Seq<char>>::empty());
    while i < 18
        invariant
            i <= 18,
            all.len() == 18,
            all == semantic_columns(),
            forall|k: int| 0 <= k < 18 ==> (#[trigger] names@[k])@ == all[k],
            texts(out@) == names_in(all.take(i as int), texts(present@)),
        decreases 18 - i,
    {
        assert(all.take(i as int + 1).drop_last() =~= all.take(i as int));
        assert(all.take(i as int + 1).last() == names@[i as int]@);
        if has_name(present, names[i]) {
            let ghost before = texts(out@);
            out.push(names[i].to_owned());
            assert(texts(out@) =~= before.push(names@[i as int]@));
        }
        i += 1;
    }
    assert(all.take(18) =~= all);
    out
}

/// The chosen tags that a row holds.
pub open spec fn tags_cell(columns: Seq<Seq<char>>, cells: Seq<CellView>) -> Option<CellView>
    decreases columns.len(),
{
    if columns.len() == 0 {
        None
    } else if columns.last() == tags_column() {
        Some(cells[columns.len() - 1])
    } else {
        tags_cell(columns.drop_last(), cells)
    }
}

/// The values of a row without the chosen tags.
pub open spec fn other_cells(columns: Seq<Seq<char>>, cells: Seq<CellView>) -> Seq<CellView> {
    Seq::new(
        columns.len(),
        |k: int|
            if columns[k] == tags_column() {
                CellView::Null
            } else {
                cells[k]
            },
    )
}

/// The plan that a row holds. `columns` are those by which plans are compared, and
/// `cells` holds their values. Chosen tags that are no text make no plan.
pub open spec fn plan_of_row(
    id: i64,
    artist_id: i64,
    source_folder: Seq<char>,
    columns: Seq<Seq<char>>,
    cells: Seq<CellView>,
) -> Option<PlanView> {
    let chosen = tags_cell(columns, cells);
    if chosen is None || chosen->Some_0 is Text {
        Some(
            PlanView {
                id,
                artist_id,
                source_folder,
                selected_tag_ids: match chosen {
                    Some(c) => Some(c->Text_0),
                    None => None,
                },
                fields: other_cells(columns, cells),
            },
        )
    } else {
        None
    }
}

/// Reads the plan that a row holds.
pub fn read_plan(
    id: i64,
    artist_id: i64,
    source_folder: &str,
    columns: &Vec<String>,
    cells: &Vec<Cell>,
) -> (r: Option<PlanRow>)
    requires
        columns@.len() == cells@.len(),
    ensures
        match (
            r,
            plan_of_row(id, artist_id, source_folder@, texts(columns@), cell_views(cells@)),
        ) {
            (Some(a), Some(b)) => a@ == b,
            (None, None) => true,
            _ => false,
        },
{
    let ghost names = texts(columns@);
    let ghost values = cell_views(cells@);
    let mut fields: Vec<Cell> = Vec::new();
    let mut selected_tag_ids: Option<String> = None;
    let mut readable = true;
    let mut i: usize = 0;
    assert(names.take(0) =~= Seq::<Seq<char>>::empty());
    while i < columns.len()
        invariant
            i <= columns@.len(),
            columns@.len() == cells@.len(),
            names == texts(columns@),
            values == cell_views(cells@),
            fields@.len() == i,
            forall|k: int|
                0 <= k < i ==> (#[trigger] fields@[k])@ == other_cells(names, values)[k],
            readable == match tags_cell(names.take(i as int), values) {
                Some(c) => c is Text,
                None => true,
            },
            readable ==> (match selected_tag_ids {
                Some(t) => Some(CellView::Text(t@)),
                None => None,
            }) == tags_cell(names.take(i as int), values),
        decreases columns@.len() - i,
    {
        assert(names.take(i as int + 1).drop_last() =~= names.take(i as int));
        assert(names.take(i as int + 1).last() == columns@[i as int]@);
        assert(values[i as int] == cells@[i as int]@);
        if same_text(&columns[i], "selected_tag_ids") {
            match &cells[i] {
                Cell::Text(t) => {
                    selected_tag_ids = Some(t.clone());
                    readable = true;
                },
                _ => {
                    readable = false;
                },
            }
            fields.push(Cell::Null);
        } else {
            fields.push(cells[i].duplicate());
        }
        i += 1;
    }
    assert(names.take(names.len() as int) =~= names);
    if readable {
        assert(cell_views(fields@) =~= other_cells(names, values));
        Some(
            PlanRow {
                id,
                artist_id,
                source_folder: source_folder.to_owned(),
                selected_tag_ids,
                fields,
            },
        )
    } else {
        None
    }
}

/// Whether two plans say the same of their folder.
pub open spec fn plans_agree(a: PlanView, b: PlanView) -> bool {
    a.fields == b.fields && a.selected_tag_ids == b.selected_tag_ids
}

/// The chosen tags stand in the only column that holds them.
proof fn lemma_tags_cell(columns: Seq<Seq<char>>, cells: Seq<CellView>, at: int)
    requires
        0 <= at < columns.len(),
        columns[at] == tags_column(),
        forall|k: int|
            0 <= k < columns.len() && k != at ==> #[trigger] columns[k] != tags_column(),
    ensures
        tags_cell(columns, cells) == Some(cells[at]),
    decreases columns.len(),
{
    if at < columns.len() - 1 {
        assert(columns[columns.len() - 1] != tags_column());
        lemma_tags_cell(columns.drop_last(), cells, at);
    }
}

/// Whether a list of columns holds that of the chosen tags at most once.
spec fn tags_stand_once(columns: Seq<Seq<char>>) -> bool {
    forall|i: int, j: int|
        0 <= i < j < columns.len() ==> #[trigger] columns[i] != tags_column()
            || #[trigger] columns[j] != tags_column()
}

/// The names of a list that another list holds are names of the list, in its order.
proof fn lemma_names_in(names: Seq<Seq<char>>, present: Seq<Seq<char>>)
    requires
        tags_stand_once(names),
    ensures
        tags_stand_once(names_in(names, present)),
        forall|i: int|
            0 <= i < names_in(names, present).len() ==> names.contains(
                #[trigger] names_in(names, present)[i],
            ),
    decreases names.len(),
{
    if names.len() > 0 {
        let front = names.drop_last();
        let before = names_in(front, present);
        let now = names_in(names, present);
        assert forall|i: int, j: int| 0 <= i < j < front.len() implies #[trigger] front[i]
            != tags_column() || #[trigger] front[j] != tags_column() by {
            assert(names[i] == front[i] && names[j] == front[j]);
        }
        lemma_names_in(front, present);
        assert forall|i: int| 0 <= i < now.len() implies names.contains(#[trigger] now[i]) by {
            if i < before.len() {
                assert(front.contains(before[i]));
                let k = front.index_of(before[i]);
                assert(names[k] == now[i]);
            } else {
                assert(names[names.len() - 1] == now[i]);
            }
        }
        assert forall|i: int, j: int| 0 <= i < j < now.len() implies #[trigger] now[i]
            != tags_column() || #[trigger] now[j] != tags_column() by {
            if j < before.len() {
                assert(before[i] == now[i] && before[j] == now[j]);
            } else {
                assert(front.contains(before[i]));
                let k = front.index_of(before[i]);
                assert(names[k] == now[i]);
                assert(names[names.len() - 1] == now[j]);
            }
        }
    }
}

/// Only one of the columns by which plans are compared holds the chosen tags.
proof fn lemma_tags_stand_once()
    ensures
        tags_stand_once(semantic_columns()),
{
    reveal_strlit("original_folder_name");
    reveal_strlit("original_title");
    reveal_strlit("parsed_date");
    reveal_strlit("selected_tag_ids");
    reveal_strlit("status");
    reveal_strlit("file_count");
    reveal_strlit("total_size");
    reveal_strlit("max_mtime");
    reveal_strlit("created_at");
    reveal_strlit("updated_at");
    reveal_strlit("confirmed_at");
    reveal_strlit("confirmation_source");
    reveal_strlit("target_folder");
    reveal_strlit("executed_at");
    reveal_strlit("execution_log");
    reveal_strlit("format_snapshot");
    reveal_strlit("plan_kind");
    reveal_strlit("split_actions");
    assert forall|i: int| 0 <= i < semantic_columns().len() && i != 3 implies (
    #[trigger] semantic_columns()[i]).len() != tags_column().len() by {}
}

/// Two plans say the same of their folder if and only if they agree in every column by
/// which plans are compared and which the table has.
pub proof fn plans_agree_where_every_column_does(
    present: Seq<Seq<char>>,
    id: i64,
    artist_id: i64,
    cells: Seq<CellView>,
    other_id: i64,
    other_artist: i64,
    other: Seq<CellView>,
    source_folder: Seq<char>,
)
    requires
        ({
            let columns = names_in(semantic_columns(), present);
            &&& cells.len() == columns.len()
            &&& other.len() == columns.len()
            &&& plan_of_row(id, artist_id, source_folder, columns, cells) is Some
            &&& plan_of_row(other_id, other_artist, source_folder, columns, other) is Some
        }),
    ensures
        ({
            let columns = names_in(semantic_columns(), present);
            let a = plan_of_row(id, artist_id, source_folder, columns, cells)->Some_0;
            let b = plan_of_row(other_id, other_artist, source_folder, columns, other)->Some_0;
            plans_agree(a, b) <==> forall|k: int|
                0 <= k < columns.len() ==> #[trigger] cells[k] == other[k]
        }),
{
    let columns = names_in(semantic_columns(), present);
    lemma_tags_stand_once();
    lemma_names_in(semantic_columns(), present);
    let a = plan_of_row(id, artist_id, source_folder, columns, cells)->Some_0;
    let b = plan_of_row(other_id, other_artist, source_folder, columns, other)->Some_0;
    if plans_agree(a, b) {
        assert forall|k: int| 0 <= k < columns.len() implies #[trigger] cells[k] == other[k] by {
            assert(a.fields[k] == b.fields[k]);
            if columns[k] == tags_column() {
                lemma_tags_cell(columns, cells, k);
                lemma_tags_cell(columns, other, k);
            }
        }
    }
    if forall|k: int| 0 <= k < columns.len() ==> #[trigger] cells[k] == other[k] {
        assert(cells =~= other);
    }
}

}
