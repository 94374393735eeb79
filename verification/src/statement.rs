//! The statements of the journal as the catalogue file is asked to carry them out: tables,
//! columns and values.

use vstd::prelude::*;
use crate::database::{Listing, ListingRow, Write, WriteView};
use crate::entity::addon_dependency;
use crate::entity::addon_detail;
use crate::entity::addon_detail::DetailRow;
use crate::entity::addon_dir;
use crate::entity::category;
use crate::entity::category::CategoryRow;
use crate::entity::category_parent;
use crate::entity::installed_addon;
use crate::entity::installed_addon::InstalledRow;
use crate::table::views;
use crate::text::text_of;

verus! {

// ---------------------------------------------------------------------------------------------
// Statements
// ---------------------------------------------------------------------------------------------

/// A value of a row.
#[derive(Debug, PartialEq, Eq)]
pub enum Cell {
    Number(i32),
    Text(String),
    Null,
}

/// What a value holds.
#[verifier::ext_equal]
pub enum CellView {
    Number(i32),
    Text(Seq<char>),
    Null,
}

impl View for Cell {
    type V = CellView;

    open spec fn view(&self) -> CellView {
        match *self {
            Cell::Number(n) => CellView::Number(n),
            Cell::Text(t) => CellView::Text(t@),
            Cell::Null => CellView::Null,
        }
    }
}

/// What happens where a row with the same key is there already.
#[derive(Debug, PartialEq, Eq)]
pub enum Conflict {
    /// The statement fails.
    Fail,
    /// The row that is there stays.
    Keep { key: Vec<&'static str> },
    /// The given columns are set in the row that is there.
    Overwrite { key: Vec<&'static str>, columns: Vec<&'static str> },
}

/// What a conflict rule holds.
#[verifier::ext_equal]
pub enum ConflictView {
    Fail,
    Keep { key: Seq<Seq<char>> },
    Overwrite { key: Seq<Seq<char>>, columns: Seq<Seq<char>> },
}

/// The names in a list.
pub open spec fn names(list: Seq<&'static str>) -> Seq<Seq<char>> {
    list.map_values(|s: &'static str| s@)
}

impl View for Conflict {
    type V = ConflictView;

    open spec fn view(&self) -> ConflictView {
        match *self {
            Conflict::Fail => ConflictView::Fail,
            Conflict::Keep { key } => ConflictView::Keep { key: names(key@) },
            Conflict::Overwrite { key, columns } => ConflictView::Overwrite {
                key: names(key@),
                columns: names(columns@),
            },
        }
    }
}

/// The rows of a table.
pub open spec fn grid(rows: Seq<Vec<Cell>>) -> Seq<Seq<CellView>> {
    rows.map_values(|r: Vec<Cell>| views(r@))
}

/// A statement.
#[derive(Debug, PartialEq, Eq)]
pub enum Plan {
    /// Inserts rows.
    Insert {
        table: &'static str,
        columns: Vec<&'static str>,
        rows: Vec<Vec<Cell>>,
        conflict: Conflict,
    },
    /// Deletes the rows whose column has one of the values.
    Delete { table: &'static str, column: &'static str, values: Vec<i32> },
    /// Sets columns of the row with the given key; it fails if there is no such row.
    Update {
        table: &'static str,
        columns: Vec<&'static str>,
        cells: Vec<Cell>,
        key: &'static str,
        value: i32,
    },
}

/// What a statement holds.
#[verifier::ext_equal]
pub enum PlanView {
    Insert {
        table: Seq<char>,
        columns: Seq<Seq<char>>,
        rows: Seq<Seq<CellView>>,
        conflict: ConflictView,
    },
    Delete { table: Seq<char>, column: Seq<char>, values: Seq<i32> },
    Update {
        table: Seq<char>,
        columns: Seq<Seq<char>>,
        cells: Seq<CellView>,
        key: Seq<char>,
        value: i32,
    },
}

impl View for Plan {
    type V = PlanView;

    open spec fn view(&self) -> PlanView {
        match *self {
            Plan::Insert { table, columns, rows, conflict } => PlanView::Insert {
                table: table@,
                columns: names(columns@),
                rows: grid(rows@),
                conflict: conflict@,
            },
            Plan::Delete { table, column, values } => PlanView::Delete {
                table: table@,
                column: column@,
                values: values@,
            },
            Plan::Update { table, columns, cells, key, value } => PlanView::Update {
                table: table@,
                columns: names(columns@),
                cells: views(cells@),
                key: key@,
                value,
            },
        }
    }
}

// ---------------------------------------------------------------------------------------------
// What each statement of the journal is
// ---------------------------------------------------------------------------------------------

/// The value of a text that may be missing.
pub open spec fn text_cell(t: Option<Seq<char>>) -> CellView {
    match t {
        Some(s) => CellView::Text(s),
        None => CellView::Null,
    }
}

/// The value of a number that may be missing.
pub open spec fn number_cell(n: Option<i32>) -> CellView {
    match n {
        Some(n) => CellView::Number(n),
        None => CellView::Null,
    }
}

/// The columns of an addon that a listing sets.
pub open spec fn listing_columns() -> Seq<Seq<char>> {
    seq![
        "category_id"@,
        "version"@,
        "date"@,
        "name"@,
        "author_name"@,
        "file_info_url"@,
        "download_total"@,
        "download_monthly"@,
        "favorite_total"@,
    ]
}

/// The values of a listing.
pub open spec fn listing_cells(l: ListingRow) -> Seq<CellView> {
    seq![
        CellView::Number(l.id),
        CellView::Text(l.category_id),
        CellView::Text(l.version),
        CellView::Text(l.date),
        CellView::Text(l.name),
        CellView::Text(l.author_name),
        CellView::Text(l.file_info_url),
        CellView::Text(l.download_total),
        CellView::Text(l.download_monthly),
        CellView::Text(l.favorite_total),
    ]
}

/// The values of a category.
pub open spec fn category_cells(c: CategoryRow) -> Seq<CellView> {
    seq![
        CellView::Number(c.id),
        CellView::Text(c.title),
        text_cell(c.icon),
        number_cell(c.file_count),
    ]
}

/// The values of a row that gives an addon a directory.
pub open spec fn owned_cells(row: (i32, Seq<char>)) -> Seq<CellView> {
    seq![CellView::Number(row.0), CellView::Text(row.1)]
}

/// The values of a row that gives a category a parent.
pub open spec fn link_cells(row: (i32, i32)) -> Seq<CellView> {
    seq![CellView::Number(row.0), CellView::Number(row.1)]
}

/// The values of an installed addon.
pub open spec fn installed_cells(r: InstalledRow) -> Seq<CellView> {
    seq![CellView::Number(r.addon_id), CellView::Text(r.version), CellView::Text(r.date)]
}

/// The values of the details of an addon.
pub open spec fn detail_cells(d: DetailRow) -> Seq<CellView> {
    seq![
        CellView::Number(d.id),
        text_cell(d.description),
        text_cell(d.change_log),
        text_cell(d.version),
    ]
}

/// The statement that carries a statement of the journal out.
pub open spec fn plan_of(w: WriteView) -> PlanView {
    match w {
        WriteView::UpsertAddons(list) => PlanView::Insert {
            table: "addon"@,
            columns: seq!["id"@] + listing_columns(),
            rows: list.map_values(|l: ListingRow| listing_cells(l)),
            conflict: ConflictView::Overwrite { key: seq!["id"@], columns: listing_columns() },
        },
        WriteView::DeleteAddonDirs(ids) => PlanView::Delete {
            table: "addon_dir"@,
            column: "addon_id"@,
            values: ids,
        },
        WriteView::InsertAddonDirs(list) => PlanView::Insert {
            table: "addon_dir"@,
            columns: seq!["addon_id"@, "dir"@],
            rows: list.map_values(|r: (i32, Seq<char>)| owned_cells(r)),
            conflict: ConflictView::Fail,
        },
        WriteView::UpsertCategories(list) => PlanView::Insert {
            table: "category"@,
            columns: seq!["id"@, "title"@, "icon"@, "file_count"@],
            rows: list.map_values(|c: CategoryRow| category_cells(c)),
            conflict: ConflictView::Overwrite {
                key: seq!["id"@],
                columns: seq!["title"@, "icon"@, "file_count"@],
            },
        },
        WriteView::InsertCategoryParents(list) => PlanView::Insert {
            table: "category_parent"@,
            columns: seq!["id"@, "parent_id"@],
            rows: list.map_values(|r: (i32, i32)| link_cells(r)),
            conflict: ConflictView::Keep { key: seq!["id"@, "parent_id"@] },
        },
        WriteView::UpsertInstalled(row) => PlanView::Insert {
            table: "installed_addon"@,
            columns: seq!["addon_id"@, "version"@, "date"@],
            rows: seq![installed_cells(row)],
            conflict: ConflictView::Overwrite {
                key: seq!["addon_id"@],
                columns: seq!["date"@, "version"@],
            },
        },
        WriteView::InsertDependencies(list) => PlanView::Insert {
            table: "addon_dependency"@,
            columns: seq!["addon_id"@, "dependency_dir"@],
            rows: list.map_values(|r: (i32, Seq<char>)| owned_cells(r)),
            conflict: ConflictView::Keep { key: seq!["addon_id"@, "dependency_dir"@] },
        },
        WriteView::DeleteInstalled(id) => PlanView::Delete {
            table: "installed_addon"@,
            column: "addon_id"@,
            values: seq![id],
        },
        WriteView::SetAddonFile { id, md5, file_name, download } => PlanView::Update {
            table: "addon"@,
            columns: seq!["md5"@, "file_name"@, "download"@],
            cells: seq![
                CellView::Text(md5),
                CellView::Text(file_name),
                CellView::Text(download),
            ],
            key: "id"@,
            value: id,
        },
        WriteView::UpsertDetail(row) => PlanView::Insert {
            table: "addon_detail"@,
            columns: seq!["id"@, "description"@, "change_log"@, "version"@],
            rows: seq![detail_cells(row)],
            conflict: ConflictView::Overwrite {
                key: seq!["id"@],
                columns: seq!["description"@, "change_log"@, "version"@],
            },
        },
    }
}

// ---------------------------------------------------------------------------------------------
// Making statements
// ---------------------------------------------------------------------------------------------

/// A row that can be laid out as values.
pub trait Laid: View + Sized {
    /// The values of a row.
    spec fn cells_of(v: Self::V) -> Seq<CellView>;

    /// The values of the row.
    fn cells(&self) -> (r: Vec<Cell>)
        ensures
            views(r@) == Self::cells_of(self@),
    ;
}

fn text(t: &String) -> (c: Cell)
    ensures
        c@ == CellView::Text(t@),
{
    Cell::Text(t.clone())
}

fn maybe_text(t: &Option<String>) -> (c: Cell)
    ensures
        c@ == text_cell(text_of(*t)),
{
    match t {
        Some(s) => Cell::Text(s.clone()),
        None => Cell::Null,
    }
}

fn maybe_number(n: Option<i32>) -> (c: Cell)
    ensures
        c@ == number_cell(n),
{
    match n {
        Some(n) => Cell::Number(n),
        None => Cell::Null,
    }
}

impl Laid for Listing {
    open spec fn cells_of(v: ListingRow) -> Seq<CellView> {
        listing_cells(v)
    }

    fn cells(&self) -> (r: Vec<Cell>) {
        let r = vec![
            Cell::Number(self.id),
            text(&self.category_id),
            text(&self.version),
            text(&self.date),
            text(&self.name),
            text(&self.author_name),
            text(&self.file_info_url),
            text(&self.download_total),
            text(&self.download_monthly),
            text(&self.favorite_total),
        ];
        assert(views(r@) =~= listing_cells(self@));
        r
    }
}

impl Laid for category::Model {
    open spec fn cells_of(v: CategoryRow) -> Seq<CellView> {
        category_cells(v)
    }

    fn cells(&self) -> (r: Vec<Cell>) {
        let r = vec![
            Cell::Number(self.id),
            text(&self.title),
            maybe_text(&self.icon),
            maybe_number(self.file_count),
        ];
        assert(views(r@) =~= category_cells(self@));
        r
    }
}

impl Laid for addon_dir::Model {
    open spec fn cells_of(v: (i32, Seq<char>)) -> Seq<CellView> {
        owned_cells(v)
    }

    fn cells(&self) -> (r: Vec<Cell>) {
        let r = vec![Cell::Number(self.addon_id), text(&self.dir)];
        assert(views(r@) =~= owned_cells(self@));
        r
    }
}

impl Laid for addon_dependency::Model {
    open spec fn cells_of(v: (i32, Seq<char>)) -> Seq<CellView> {
        owned_cells(v)
    }

    fn cells(&self) -> (r: Vec<Cell>) {
        let r = vec![Cell::Number(self.addon_id), text(&self.dependency_dir)];
        assert(views(r@) =~= owned_cells(self@));
        r
    }
}

impl Laid for category_parent::Model {
    open spec fn cells_of(v: (i32, i32)) -> Seq<CellView> {
        link_cells(v)
    }

    fn cells(&self) -> (r: Vec<Cell>) {
        let r = vec![Cell::Number(self.id), Cell::Number(self.parent_id)];
        assert(views(r@) =~= link_cells(self@));
        r
    }
}

impl Laid for installed_addon::Model {
    open spec fn cells_of(v: InstalledRow) -> Seq<CellView> {
        installed_cells(v)
    }

    fn cells(&self) -> (r: Vec<Cell>) {
        let r = vec![Cell::Number(self.addon_id), text(&self.version), text(&self.date)];
        assert(views(r@) =~= installed_cells(self@));
        r
    }
}

impl Laid for addon_detail::Model {
    open spec fn cells_of(v: DetailRow) -> Seq<CellView> {
        detail_cells(v)
    }

    fn cells(&self) -> (r: Vec<Cell>) {
        let r = vec![
            Cell::Number(self.id),
            maybe_text(&self.description),
            maybe_text(&self.change_log),
            maybe_text(&self.version),
        ];
        assert(views(r@) =~= detail_cells(self@));
        r
    }
}

/// The values of rows, one row after the other.
fn lay_out<R: Laid>(list: &Vec<R>) -> (rows: Vec<Vec<Cell>>)
    ensures
        grid(rows@) == views(list@).map_values(|v: R::V| R::cells_of(v)),
{
    let mut rows: Vec<Vec<Cell>> = Vec::new();
    let mut i: usize = 0;
    while i < list.len()
        invariant
            i <= list.len(),
            rows.len() == i,
            forall|j: int| 0 <= j < i ==> views((#[trigger] rows@[j])@) == R::cells_of(list@[j]@),
        decreases list.len() - i,
    {
        rows.push(list[i].cells());
        i += 1;
    }
    assert(grid(rows@) =~= views(list@).map_values(|v: R::V| R::cells_of(v)));
    rows
}

/// The statement that carries a statement of the journal out.
pub fn plan(w: &Write) -> (p: Plan)
    ensures
        p@ == plan_of(w@),
{
    let p = match w {
        Write::UpsertAddons(list) => Plan::Insert {
            table: "addon",
            columns: vec![
                "id",
                "category_id",
                "version",
                "date",
                "name",
                "author_name",
                "file_info_url",
                "download_total",
                "download_monthly",
                "favorite_total",
            ],
            rows: lay_out(list),
            conflict: Conflict::Overwrite {
                key: vec!["id"],
                columns: vec![
                    "category_id",
                    "version",
                    "date",
                    "name",
                    "author_name",
                    "file_info_url",
                    "download_total",
                    "download_monthly",
                    "favorite_total",
                ],
            },
        },
        Write::DeleteAddonDirs(ids) => Plan::Delete {
            table: "addon_dir",
            column: "addon_id",
            values: ids.clone(),
        },
        Write::InsertAddonDirs(list) => Plan::Insert {
            table: "addon_dir",
            columns: vec!["addon_id", "dir"],
            rows: lay_out(list),
            conflict: Conflict::Fail,
        },
        Write::UpsertCategories(list) => Plan::Insert {
            table: "category",
            columns: vec!["id", "title", "icon", "file_count"],
            rows: lay_out(list),
            conflict: Conflict::Overwrite {
                key: vec!["id"],
                columns: vec!["title", "icon", "file_count"],
            },
        },
        Write::InsertCategoryParents(list) => Plan::Insert {
            table: "category_parent",
            columns: vec!["id", "parent_id"],
            rows: lay_out(list),
            conflict: Conflict::Keep { key: vec!["id", "parent_id"] },
        },
        Write::UpsertInstalled(row) => Plan::Insert {
            table: "installed_addon",
            columns: vec!["addon_id", "version", "date"],
            rows: vec![row.cells()],
            conflict: Conflict::Overwrite { key: vec!["addon_id"], columns: vec!["date", "version"] },
        },
        Write::InsertDependencies(list) => Plan::Insert {
            table: "addon_dependency",
            columns: vec!["addon_id", "dependency_dir"],
            rows: lay_out(list),
            conflict: Conflict::Keep { key: vec!["addon_id", "dependency_dir"] },
        },
        Write::DeleteInstalled(id) => Plan::Delete {
            table: "installed_addon",
            column: "addon_id",
            values: vec![*id],
        },
        Write::SetAddonFile { id, md5, file_name, download } => Plan::Update {
            table: "addon",
            columns: vec!["md5", "file_name", "download"],
            cells: vec![text(md5), text(file_name), text(download)],
            key: "id",
            value: *id,
        },
        Write::UpsertDetail(row) => Plan::Insert {
            table: "addon_detail",
            columns: vec!["id", "description", "change_log", "version"],
            rows: vec![row.cells()],
            conflict: Conflict::Overwrite {
                key: vec!["id"],
                columns: vec!["description", "change_log", "version"],
            },
        },
    };
    assert(p@ =~~= plan_of(w@));
    p
}

} // verus!
