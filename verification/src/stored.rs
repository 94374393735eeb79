//! The catalogue file: what its tables hold, and what a statement does to them.

use vstd::prelude::*;
use crate::database::{all_categories, all_listed, listed, ListingRow, Tables, WriteView};
use crate::entity::addon::AddonRow;
use crate::entity::addon_detail::DetailRow;
use crate::entity::category::CategoryRow;
use crate::entity::installed_addon::InstalledRow;
use crate::statement::{
    category_cells, detail_cells, installed_cells, link_cells, listing_cells, listing_columns,
    owned_cells, plan_of, text_cell, CellView, ConflictView, PlanView,
};

verus! {

// ---------------------------------------------------------------------------------------------
// Tables
// ---------------------------------------------------------------------------------------------

/// The file has a table of that name.
pub open spec fn is_table(name: Seq<char>) -> bool {
    ||| name == "addon"@
    ||| name == "installed_addon"@
    ||| name == "addon_dir"@
    ||| name == "addon_dependency"@
    ||| name == "addon_detail"@
    ||| name == "category"@
    ||| name == "category_parent"@
}

/// The columns of a table, those of its key first.
pub open spec fn columns_of(table: Seq<char>) -> Seq<Seq<char>> {
    if table == "addon"@ {
        (seq!["id"@] + listing_columns()) + seq!["md5"@, "file_name"@, "download"@]
    } else if table == "installed_addon"@ {
        seq!["addon_id"@, "version"@, "date"@]
    } else if table == "addon_dir"@ {
        seq!["addon_id"@, "dir"@]
    } else if table == "addon_dependency"@ {
        seq!["addon_id"@, "dependency_dir"@]
    } else if table == "addon_detail"@ {
        seq!["id"@, "description"@, "change_log"@, "version"@]
    } else if table == "category"@ {
        seq!["id"@, "title"@, "icon"@, "file_count"@]
    } else {
        seq!["id"@, "parent_id"@]
    }
}

/// The number of columns of a table's key.
pub open spec fn key_width(table: Seq<char>) -> int {
    if table == "addon_dir"@ || table == "addon_dependency"@ || table == "category_parent"@ {
        2
    } else {
        1
    }
}

// ---------------------------------------------------------------------------------------------
// What a statement does to a table: a map from the values of the key to the values of the row
// ---------------------------------------------------------------------------------------------

/// The row that values for some of the columns make; the others are empty.
pub open spec fn full_row(
    table: Seq<char>,
    columns: Seq<Seq<char>>,
    cells: Seq<CellView>,
) -> Seq<CellView> {
    Seq::new(
        columns_of(table).len(),
        |i: int|
            if columns.contains(columns_of(table)[i]) {
                cells[columns.index_of(columns_of(table)[i])]
            } else {
                CellView::Null
            },
    )
}

/// The row `old` with the columns `set` taken from the row `new`.
pub open spec fn overwritten(
    table: Seq<char>,
    old: Seq<CellView>,
    new: Seq<CellView>,
    set: Seq<Seq<char>>,
) -> Seq<CellView> {
    Seq::new(
        columns_of(table).len(),
        |i: int|
            if set.contains(columns_of(table)[i]) {
                new[i]
            } else {
                old[i]
            },
    )
}

/// The table after a row was inserted, or `None` if it cannot be: because of a row with the same
/// key, or because the conflict rule names other columns than those of the key.
pub open spec fn insert_row(
    table: Seq<char>,
    rows: Map<Seq<CellView>, Seq<CellView>>,
    columns: Seq<Seq<char>>,
    cells: Seq<CellView>,
    conflict: ConflictView,
) -> Option<Map<Seq<CellView>, Seq<CellView>>> {
    let row = full_row(table, columns, cells);
    let key = row.take(key_width(table));
    match conflict {
        ConflictView::Fail => if rows.contains_key(key) {
            None
        } else {
            Some(rows.insert(key, row))
        },
        ConflictView::Keep { key: names } => if names != columns_of(table).take(key_width(table)) {
            None
        } else if rows.contains_key(key) {
            Some(rows)
        } else {
            Some(rows.insert(key, row))
        },
        ConflictView::Overwrite { key: names, columns: set } => if names != columns_of(table).take(
            key_width(table),
        ) {
            None
        } else if rows.contains_key(key) {
            Some(rows.insert(key, overwritten(table, rows[key], row, set)))
        } else {
            Some(rows.insert(key, row))
        },
    }
}

/// The table after rows were inserted, one after the other, or `None` if one of them cannot be.
pub open spec fn insert_rows(
    table: Seq<char>,
    rows: Map<Seq<CellView>, Seq<CellView>>,
    columns: Seq<Seq<char>>,
    more: Seq<Seq<CellView>>,
    conflict: ConflictView,
) -> Option<Map<Seq<CellView>, Seq<CellView>>>
    decreases more.len(),
{
    if more.len() == 0 {
        Some(rows)
    } else {
        match insert_rows(table, rows, columns, more.drop_last(), conflict) {
            Some(before) => insert_row(table, before, columns, more.last(), conflict),
            None => None,
        }
    }
}

/// The column of the row has one of the values.
pub open spec fn has_value(
    table: Seq<char>,
    row: Seq<CellView>,
    column: Seq<char>,
    values: Seq<i32>,
) -> bool {
    row[columns_of(table).index_of(column)] matches CellView::Number(n) && values.contains(n)
}

/// The table without the rows whose column has one of the values.
pub open spec fn delete_rows(
    table: Seq<char>,
    rows: Map<Seq<CellView>, Seq<CellView>>,
    column: Seq<char>,
    values: Seq<i32>,
) -> Map<Seq<CellView>, Seq<CellView>> {
    Map::new(
        |k: Seq<CellView>| rows.contains_key(k) && !has_value(table, rows[k], column, values),
        |k: Seq<CellView>| rows[k],
    )
}

/// The table with columns set in the rows whose column has the value, or `None` if there is no
/// such row.
pub open spec fn update_rows(
    table: Seq<char>,
    rows: Map<Seq<CellView>, Seq<CellView>>,
    columns: Seq<Seq<char>>,
    cells: Seq<CellView>,
    column: Seq<char>,
    value: i32,
) -> Option<Map<Seq<CellView>, Seq<CellView>>> {
    if exists|k: Seq<CellView>| #[trigger]
        rows.contains_key(k) && has_value(table, rows[k], column, seq![value]) {
        Some(
            Map::new(
                |k: Seq<CellView>| rows.contains_key(k),
                |k: Seq<CellView>|
                    if has_value(table, rows[k], column, seq![value]) {
                        overwritten(
                            table,
                            rows[k],
                            full_row(table, columns, cells),
                            columns,
                        )
                    } else {
                        rows[k]
                    },
            ),
        )
    } else {
        None
    }
}

/// The file after a statement was carried out, or `None` if it cannot be. An insertion without
/// rows cannot be.
pub open spec fn carried_out(
    p: PlanView,
    file: Map<Seq<char>, Map<Seq<CellView>, Seq<CellView>>>,
) -> Option<Map<Seq<char>, Map<Seq<CellView>, Seq<CellView>>>> {
    match p {
        PlanView::Insert { table, columns, rows, conflict } => if !file.contains_key(table)
            || rows.len() == 0 {
            None
        } else {
            match insert_rows(table, file[table], columns, rows, conflict) {
                Some(after) => Some(file.insert(table, after)),
                None => None,
            }
        },
        PlanView::Delete { table, column, values } => if !file.contains_key(table) {
            None
        } else {
            Some(file.insert(table, delete_rows(table, file[table], column, values)))
        },
        PlanView::Update { table, columns, cells, key, value } => if !file.contains_key(table) {
            None
        } else {
            match update_rows(table, file[table], columns, cells, key, value) {
                Some(after) => Some(file.insert(table, after)),
                None => None,
            }
        },
    }
}

// ---------------------------------------------------------------------------------------------
// How the tables of the catalogue are stored
// ---------------------------------------------------------------------------------------------

/// The key of a row with an identifier.
pub open spec fn id_key(id: i32) -> Seq<CellView> {
    seq![CellView::Number(id)]
}

/// `k` is the key of a row with an identifier.
pub open spec fn is_id(k: Seq<CellView>) -> bool {
    k.len() == 1 && k[0] is Number
}

/// A table whose rows have identifiers, as it is stored.
pub open spec fn stored_rows<R>(m: Map<i32, R>, cells: spec_fn(i32, R) -> Seq<CellView>) -> Map<
    Seq<CellView>,
    Seq<CellView>,
> {
    Map::new(
        |k: Seq<CellView>| is_id(k) && m.contains_key(k[0]->Number_0),
        |k: Seq<CellView>| cells(k[0]->Number_0, m[k[0]->Number_0]),
    )
}

/// A table whose rows are their own keys, as it is stored.
pub open spec fn stored_set<E>(s: Set<E>, cells: spec_fn(E) -> Seq<CellView>) -> Map<
    Seq<CellView>,
    Seq<CellView>,
> {
    Map::new(
        |k: Seq<CellView>| exists|e: E| #[trigger] s.contains(e) && cells(e) == k,
        |k: Seq<CellView>| k,
    )
}

/// The values of an addon.
pub open spec fn addon_cells(id: i32, a: AddonRow) -> Seq<CellView> {
    seq![
        CellView::Number(id),
        CellView::Text(a.category_id),
        CellView::Text(a.version),
        CellView::Text(a.date),
        CellView::Text(a.name),
        text_cell(a.author_name),
        text_cell(a.file_info_url),
        text_cell(a.download_total),
        text_cell(a.download_monthly),
        text_cell(a.favorite_total),
        text_cell(a.md5),
        text_cell(a.file_name),
        text_cell(a.download),
    ]
}

/// The addons as they are stored.
pub open spec fn stored_addons(m: Map<i32, AddonRow>) -> Map<Seq<CellView>, Seq<CellView>> {
    stored_rows(m, |id: i32, a: AddonRow| addon_cells(id, a))
}

/// The installed addons as they are stored.
pub open spec fn stored_installed(m: Map<i32, InstalledRow>) -> Map<Seq<CellView>, Seq<CellView>> {
    stored_rows(m, |id: i32, r: InstalledRow| installed_cells(InstalledRow { addon_id: id, ..r }))
}

/// The details as they are stored.
pub open spec fn stored_details(m: Map<i32, DetailRow>) -> Map<Seq<CellView>, Seq<CellView>> {
    stored_rows(m, |id: i32, d: DetailRow| detail_cells(DetailRow { id, ..d }))
}

/// The categories as they are stored.
pub open spec fn stored_categories(m: Map<i32, CategoryRow>) -> Map<Seq<CellView>, Seq<CellView>> {
    stored_rows(m, |id: i32, c: CategoryRow| category_cells(CategoryRow { id, ..c }))
}

/// Directories of addons as they are stored.
pub open spec fn stored_owned(s: Set<(i32, Seq<char>)>) -> Map<Seq<CellView>, Seq<CellView>> {
    stored_set(s, |e: (i32, Seq<char>)| owned_cells(e))
}

/// Parents of categories as they are stored.
pub open spec fn stored_links(s: Set<(i32, i32)>) -> Map<Seq<CellView>, Seq<CellView>> {
    stored_set(s, |e: (i32, i32)| link_cells(e))
}

/// A table as it is stored.
pub open spec fn stored_table(t: Tables, name: Seq<char>) -> Map<Seq<CellView>, Seq<CellView>> {
    if name == "addon"@ {
        stored_addons(t.addons)
    } else if name == "installed_addon"@ {
        stored_installed(t.installed)
    } else if name == "addon_dir"@ {
        stored_owned(t.dirs)
    } else if name == "addon_dependency"@ {
        stored_owned(t.dependencies)
    } else if name == "addon_detail"@ {
        stored_details(t.details)
    } else if name == "category"@ {
        stored_categories(t.categories)
    } else {
        stored_links(t.parents)
    }
}

/// The tables as they are stored.
pub open spec fn stored(t: Tables) -> Map<Seq<char>, Map<Seq<CellView>, Seq<CellView>>> {
    Map::new(|name: Seq<char>| is_table(name), |name: Seq<char>| stored_table(t, name))
}

// ---------------------------------------------------------------------------------------------
// Names
// ---------------------------------------------------------------------------------------------

/// The names of the tables differ.
proof fn lemma_table_names()
    ensures
        "addon"@.len() == 5,
        "installed_addon"@.len() == 15,
        "installed_addon"@[0] == 'i',
        "addon_dir"@.len() == 9,
        "addon_dependency"@.len() == 16,
        "addon_detail"@.len() == 12,
        "category"@.len() == 8,
        "category_parent"@.len() == 15,
        "category_parent"@[0] == 'c',
{
    reveal_strlit("addon");
    reveal_strlit("installed_addon");
    reveal_strlit("addon_dir");
    reveal_strlit("addon_dependency");
    reveal_strlit("addon_detail");
    reveal_strlit("category");
    reveal_strlit("category_parent");
}

/// The columns of a table differ.
proof fn lemma_columns_differ(table: Seq<char>)
    ensures
        columns_of(table).no_duplicates(),
{
    lemma_table_names();
    reveal_strlit("id");
    reveal_strlit("category_id");
    reveal_strlit("version");
    reveal_strlit("date");
    reveal_strlit("name");
    reveal_strlit("author_name");
    reveal_strlit("file_info_url");
    reveal_strlit("download_total");
    reveal_strlit("download_monthly");
    reveal_strlit("favorite_total");
    reveal_strlit("md5");
    reveal_strlit("file_name");
    reveal_strlit("download");
    reveal_strlit("addon_id");
    reveal_strlit("dir");
    reveal_strlit("dependency_dir");
    reveal_strlit("description");
    reveal_strlit("change_log");
    reveal_strlit("title");
    reveal_strlit("icon");
    reveal_strlit("file_count");
    reveal_strlit("parent_id");
    let c = columns_of(table);
    assert forall|i: int, j: int| 0 <= i < c.len() && 0 <= j < c.len() && i != j implies c[i]
        != c[j] by {
        assert(c[i].len() != c[j].len() || c[i][0] != c[j][0]);
    }
}

/// Values for the first columns make the row that starts with them.
proof fn lemma_full_row(table: Seq<char>, columns: Seq<Seq<char>>, cells: Seq<CellView>)
    requires
        columns.len() == cells.len() <= columns_of(table).len(),
        columns =~= columns_of(table).take(columns.len() as int),
    ensures
        full_row(table, columns, cells).len() == columns_of(table).len(),
        forall|i: int|
            0 <= i < columns_of(table).len() ==> #[trigger] full_row(table, columns, cells)[i] == (
            if i < cells.len() {
                cells[i]
            } else {
                CellView::Null
            }),
        cells.len() == columns_of(table).len() ==> full_row(table, columns, cells) == cells,
{
    let all = columns_of(table);
    lemma_columns_differ(table);
    assert forall|i: int| 0 <= i < all.len() implies #[trigger] full_row(table, columns, cells)[i]
        == (if i < cells.len() {
        cells[i]
    } else {
        CellView::Null
    }) by {
        if columns.contains(all[i]) {
            let j = columns.index_of(all[i]);
            assert(all[j] == all[i]);
        }
        if i < cells.len() {
            assert(columns[i] == all[i]);
        }
    }
    if cells.len() == all.len() {
        assert(full_row(table, columns, cells) =~= cells);
    }
}

// ---------------------------------------------------------------------------------------------
// Stored tables
// ---------------------------------------------------------------------------------------------

/// A row put into a table is a row put into the stored table.
proof fn lemma_stored_insert<R>(m: Map<i32, R>, cells: spec_fn(i32, R) -> Seq<CellView>, id: i32, r: R)
    ensures
        stored_rows(m.insert(id, r), cells) == stored_rows(m, cells).insert(
            id_key(id),
            cells(id, r),
        ),
        stored_rows(m, cells).contains_key(id_key(id)) <==> m.contains_key(id),
        m.contains_key(id) ==> stored_rows(m, cells)[id_key(id)] == cells(id, m[id]),
{
    let a = stored_rows(m.insert(id, r), cells);
    let b = stored_rows(m, cells).insert(id_key(id), cells(id, r));
    assert forall|k: Seq<CellView>|
        #![trigger a.dom().contains(k)]
        #![trigger b.dom().contains(k)]
        a.dom().contains(k) == b.dom().contains(k) && (a.dom().contains(k) ==> a[k] == b[k]) by {
        if is_id(k) && k[0]->Number_0 == id {
            assert(k =~= id_key(id));
        }
    }
    assert(a =~= b);
}

/// What a stored set holds.
proof fn lemma_stored_set<E>(s: Set<E>, cells: spec_fn(E) -> Seq<CellView>, e: E)
    requires
        forall|a: E, b: E| #[trigger] cells(a) == #[trigger] cells(b) ==> a == b,
    ensures
        stored_set(s, cells).contains_key(cells(e)) <==> s.contains(e),
        stored_set(s.insert(e), cells) == stored_set(s, cells).insert(cells(e), cells(e)),
{
    let x = stored_set(s.insert(e), cells);
    let y = stored_set(s, cells).insert(cells(e), cells(e));
    assert forall|k: Seq<CellView>|
        #![trigger x.dom().contains(k)]
        #![trigger y.dom().contains(k)]
        x.dom().contains(k) == y.dom().contains(k) && (x.dom().contains(k) ==> x[k] == y[k]) by {
        if x.dom().contains(k) {
            let a = choose|a: E| #[trigger] s.insert(e).contains(a) && cells(a) == k;
            if a != e {
                assert(s.contains(a) && cells(a) == k);
            }
        }
        if y.dom().contains(k) {
            if k == cells(e) {
                assert(s.insert(e).contains(e));
            } else {
                let a = choose|a: E| #[trigger] s.contains(a) && cells(a) == k;
                assert(s.insert(e).contains(a));
            }
        }
    }
    assert(x =~= y);
}

/// The values of directories and parents tell them apart.
proof fn lemma_cells_differ()
    ensures
        forall|a: (i32, Seq<char>), b: (i32, Seq<char>)| #[trigger]
            owned_cells(a) == #[trigger] owned_cells(b) ==> a == b,
        forall|a: (i32, i32), b: (i32, i32)| #[trigger]
            link_cells(a) == #[trigger] link_cells(b) ==> a == b,
{
    assert forall|a: (i32, Seq<char>), b: (i32, Seq<char>)| #[trigger]
        owned_cells(a) == #[trigger] owned_cells(b) implies a == b by {
        assert(owned_cells(a)[0] == owned_cells(b)[0]);
        assert(owned_cells(a)[1] == owned_cells(b)[1]);
    }
    assert forall|a: (i32, i32), b: (i32, i32)| #[trigger] link_cells(a) == #[trigger] link_cells(
        b,
    ) implies a == b by {
        assert(link_cells(a)[0] == link_cells(b)[0]);
        assert(link_cells(a)[1] == link_cells(b)[1]);
    }
}

// ---------------------------------------------------------------------------------------------
// What the statements of the journal do to the file
// ---------------------------------------------------------------------------------------------

/// A listing is stored as it is listed.
proof fn lemma_store_listing(m: Map<i32, AddonRow>, l: ListingRow)
    ensures
        insert_row(
            "addon"@,
            stored_addons(m),
            seq!["id"@] + listing_columns(),
            listing_cells(l),
            ConflictView::Overwrite { key: seq!["id"@], columns: listing_columns() },
        ) == Some(stored_addons(m.insert(l.id, listed(m, l)))),
{
    let table = "addon"@;
    let all = columns_of(table);
    let columns = seq!["id"@] + listing_columns();
    let set = listing_columns();
    let cells = |id: i32, a: AddonRow| addon_cells(id, a);
    let row = full_row(table, columns, listing_cells(l));
    let after = addon_cells(l.id, listed(m, l));
    lemma_table_names();
    lemma_columns_differ(table);
    lemma_full_row(table, columns, listing_cells(l));
    lemma_stored_insert(m, cells, l.id, listed(m, l));
    assert(row.take(1) =~= id_key(l.id));
    assert(all.take(1) =~= seq!["id"@]);
    if m.contains_key(l.id) {
        let old = addon_cells(l.id, m[l.id]);
        assert forall|i: int| 0 <= i < all.len() implies #[trigger] overwritten(
            table,
            old,
            row,
            set,
        )[i] == after[i] by {
            if set.contains(all[i]) {
                let j = set.index_of(all[i]);
                assert(all[j + 1] == all[i]);
            }
            if 1 <= i <= set.len() {
                assert(set[i - 1] == all[i]);
            }
        }
        assert(overwritten(table, old, row, set) =~= after);
    } else {
        assert(row =~= after);
    }
}

/// Listings are stored as they are listed.
proof fn lemma_store_listings(m: Map<i32, AddonRow>, list: Seq<ListingRow>)
    ensures
        insert_rows(
            "addon"@,
            stored_addons(m),
            seq!["id"@] + listing_columns(),
            list.map_values(|l: ListingRow| listing_cells(l)),
            ConflictView::Overwrite { key: seq!["id"@], columns: listing_columns() },
        ) == Some(stored_addons(all_listed(m, list))),
    decreases list.len(),
{
    if list.len() > 0 {
        let rest = list.drop_last();
        lemma_store_listings(m, rest);
        assert(list.map_values(|l: ListingRow| listing_cells(l)).drop_last() =~= rest.map_values(
            |l: ListingRow| listing_cells(l),
        ));
        lemma_store_listing(all_listed(m, rest), list.last());
    }
}

/// A whole row with an identifier replaces the one that is there, where all columns but the
/// first are set.
proof fn lemma_store_row<R>(
    table: Seq<char>,
    m: Map<i32, R>,
    cells: spec_fn(i32, R) -> Seq<CellView>,
    id: i32,
    r: R,
    set: Seq<Seq<char>>,
)
    requires
        key_width(table) == 1,
        columns_of(table).len() > 0,
        cells(id, r).len() == columns_of(table).len(),
        cells(id, r)[0] == CellView::Number(id),
        m.contains_key(id) ==> cells(id, m[id])[0] == CellView::Number(id),
        forall|i: int| 1 <= i < columns_of(table).len() ==> set.contains(#[trigger] columns_of(table)[i]),
    ensures
        insert_row(
            table,
            stored_rows(m, cells),
            columns_of(table),
            cells(id, r),
            ConflictView::Overwrite { key: columns_of(table).take(1), columns: set },
        ) == Some(stored_rows(m.insert(id, r), cells)),
{
    let all = columns_of(table);
    let row = cells(id, r);
    assert(all.take(all.len() as int) =~= all);
    lemma_full_row(table, all, row);
    lemma_stored_insert(m, cells, id, r);
    assert(row.take(1) =~= id_key(id));
    if m.contains_key(id) {
        assert(overwritten(table, cells(id, m[id]), row, set) =~= row) by {
            assert forall|i: int| 0 <= i < all.len() implies #[trigger] overwritten(
                table,
                cells(id, m[id]),
                row,
                set,
            )[i] == row[i] by {
                if i >= 1 {
                    assert(set.contains(all[i]));
                }
            }
        }
    }
}

/// Categories are stored as they are replaced.
proof fn lemma_store_categories(m: Map<i32, CategoryRow>, list: Seq<CategoryRow>)
    ensures
        insert_rows(
            "category"@,
            stored_categories(m),
            seq!["id"@, "title"@, "icon"@, "file_count"@],
            list.map_values(|c: CategoryRow| category_cells(c)),
            ConflictView::Overwrite {
                key: seq!["id"@],
                columns: seq!["title"@, "icon"@, "file_count"@],
            },
        ) == Some(stored_categories(all_categories(m, list))),
    decreases list.len(),
{
    if list.len() > 0 {
        let rest = list.drop_last();
        let c = list.last();
        let set = seq!["title"@, "icon"@, "file_count"@];
        lemma_store_categories(m, rest);
        assert(list.map_values(|c: CategoryRow| category_cells(c)).drop_last() =~= rest.map_values(
            |c: CategoryRow| category_cells(c),
        ));
        lemma_table_names();
        let all = columns_of("category"@);
        assert(all =~= seq!["id"@, "title"@, "icon"@, "file_count"@]);
        assert(all.take(1) =~= seq!["id"@]);
        assert(set[0] == all[1] && set[1] == all[2] && set[2] == all[3]);
        lemma_store_row(
            "category"@,
            all_categories(m, rest),
            |id: i32, c: CategoryRow| category_cells(CategoryRow { id, ..c }),
            c.id,
            c,
            set,
        );
    }
}

/// Rows that are their own keys are added where the ones that are there stay.
proof fn lemma_store_kept<E>(
    table: Seq<char>,
    s: Set<E>,
    cells: spec_fn(E) -> Seq<CellView>,
    list: Seq<E>,
)
    requires
        key_width(table) == columns_of(table).len(),
        forall|e: E| (#[trigger] cells(e)).len() == columns_of(table).len(),
        forall|a: E, b: E| #[trigger] cells(a) == #[trigger] cells(b) ==> a == b,
    ensures
        insert_rows(
            table,
            stored_set(s, cells),
            columns_of(table),
            list.map_values(cells),
            ConflictView::Keep { key: columns_of(table) },
        ) == Some(stored_set(s.union(list.to_set()), cells)),
    decreases list.len(),
{
    let all = columns_of(table);
    assert(all.take(all.len() as int) =~= all);
    if list.len() == 0 {
        assert(s.union(list.to_set()) =~= s);
    } else {
        let rest = list.drop_last();
        let e = list.last();
        let before = s.union(rest.to_set());
        lemma_store_kept(table, s, cells, rest);
        assert(list.map_values(cells).drop_last() =~= rest.map_values(cells));
        lemma_full_row(table, all, cells(e));
        assert(cells(e).take(all.len() as int) =~= cells(e));
        lemma_stored_set(before, cells, e);
        lemma_set_grows(s, list);
        if before.contains(e) {
            assert(before.insert(e) =~= before);
        }
    }
}

/// A list with one element more adds one element more.
proof fn lemma_set_grows<E>(s: Set<E>, list: Seq<E>)
    requires
        list.len() > 0,
    ensures
        s.union(list.to_set()) == s.union(list.drop_last().to_set()).insert(list.last()),
{
    let a = s.union(list.to_set());
    let b = s.union(list.drop_last().to_set()).insert(list.last());
    assert forall|e: E| a.contains(e) == b.contains(e) by {
        if list.contains(e) {
            let i = list.index_of(e);
            if i < list.len() - 1 {
                assert(list.drop_last()[i] == e);
            }
        }
        if list.drop_last().contains(e) {
            let i = list.drop_last().index_of(e);
            assert(list[i] == e);
        }
        assert(list[list.len() - 1] == list.last());
    }
    assert(a =~= b);
}

/// Rows that are their own keys are added if none of them is there and none comes twice.
proof fn lemma_store_new<E>(
    table: Seq<char>,
    s: Set<E>,
    cells: spec_fn(E) -> Seq<CellView>,
    list: Seq<E>,
)
    requires
        key_width(table) == columns_of(table).len(),
        forall|e: E| (#[trigger] cells(e)).len() == columns_of(table).len(),
        forall|a: E, b: E| #[trigger] cells(a) == #[trigger] cells(b) ==> a == b,
    ensures
        insert_rows(
            table,
            stored_set(s, cells),
            columns_of(table),
            list.map_values(cells),
            ConflictView::Fail,
        ) == (if list.no_duplicates() && forall|i: int|
            0 <= i < list.len() ==> !s.contains(#[trigger] list[i]) {
            Some(stored_set(s.union(list.to_set()), cells))
        } else {
            None
        }),
    decreases list.len(),
{
    let all = columns_of(table);
    if list.len() == 0 {
        assert(s.union(list.to_set()) =~= s);
    } else {
        let rest = list.drop_last();
        let e = list.last();
        let before = s.union(rest.to_set());
        assert(all.take(all.len() as int) =~= all);
        lemma_store_new(table, s, cells, rest);
        assert(list.map_values(cells).drop_last() =~= rest.map_values(cells));
        lemma_full_row(table, all, cells(e));
        assert(cells(e).take(all.len() as int) =~= cells(e));
        lemma_stored_set(before, cells, e);
        lemma_set_grows(s, list);
        let fits = list.no_duplicates() && forall|i: int|
            0 <= i < list.len() ==> !s.contains(#[trigger] list[i]);
        let rest_fits = rest.no_duplicates() && forall|i: int|
            0 <= i < rest.len() ==> !s.contains(#[trigger] rest[i]);
        assert(fits == (rest_fits && !before.contains(e))) by {
            if fits {
                assert forall|i: int| 0 <= i < rest.len() implies !s.contains(#[trigger] rest[i]) by {
                    assert(list[i] == rest[i]);
                }
                if rest.contains(e) {
                    let i = rest.index_of(e);
                    assert(list[i] == list[list.len() - 1]);
                }
                assert(!s.contains(list[list.len() - 1]));
            }
            if rest_fits && !before.contains(e) {
                assert forall|i: int, j: int|
                    0 <= i < list.len() && 0 <= j < list.len() && i != j implies list[i]
                    != list[j] by {
                    if i < rest.len() && j < rest.len() {
                        assert(rest[i] != rest[j]);
                    } else if i < rest.len() {
                        assert(rest.contains(rest[i]));
                    } else {
                        assert(rest.contains(rest[j]));
                    }
                }
                assert forall|i: int| 0 <= i < list.len() implies !s.contains(#[trigger] list[i]) by {
                    if i < rest.len() {
                        assert(rest[i] == list[i]);
                    }
                }
            }
        }
    }
}

/// Deleting by the owner keeps the directories of the others.
proof fn lemma_delete_owned(s: Set<(i32, Seq<char>)>, ids: Seq<i32>)
    ensures
        delete_rows("addon_dir"@, stored_owned(s), "addon_id"@, ids) == stored_owned(
            s.filter(|d: (i32, Seq<char>)| !ids.contains(d.0)),
        ),
{
    let table = "addon_dir"@;
    let kept = s.filter(|d: (i32, Seq<char>)| !ids.contains(d.0));
    let a = delete_rows(table, stored_owned(s), "addon_id"@, ids);
    let b = stored_owned(kept);
    let cells = |e: (i32, Seq<char>)| owned_cells(e);
    lemma_table_names();
    lemma_columns_differ(table);
    lemma_cells_differ();
    assert(columns_of(table)[0] == "addon_id"@);
    assert(columns_of(table).index_of("addon_id"@) == 0);
    assert forall|k: Seq<CellView>|
        #![trigger a.dom().contains(k)]
        #![trigger b.dom().contains(k)]
        a.dom().contains(k) == b.dom().contains(k) && (a.dom().contains(k) ==> a[k] == b[k]) by {
        if a.dom().contains(k) {
            let e = choose|e: (i32, Seq<char>)| #[trigger] s.contains(e) && cells(e) == k;
            assert(kept.contains(e) && cells(e) == k);
        }
        if b.dom().contains(k) {
            let e = choose|e: (i32, Seq<char>)| #[trigger] kept.contains(e) && cells(e) == k;
            assert(s.contains(e) && cells(e) == k);
        }
    }
    assert(a =~= b);
}

/// Deleting by the identifier takes the record out.
proof fn lemma_delete_installed(m: Map<i32, InstalledRow>, id: i32)
    ensures
        delete_rows("installed_addon"@, stored_installed(m), "addon_id"@, seq![id])
            == stored_installed(m.remove(id)),
{
    let table = "installed_addon"@;
    let a = delete_rows(table, stored_installed(m), "addon_id"@, seq![id]);
    let b = stored_installed(m.remove(id));
    lemma_table_names();
    lemma_columns_differ(table);
    assert(columns_of(table)[0] == "addon_id"@);
    assert(columns_of(table).index_of("addon_id"@) == 0);
    assert forall|n: i32| seq![id].contains(n) <==> n == id by {
        assert(seq![id][0] == id);
    }
    assert forall|k: Seq<CellView>|
        #![trigger a.dom().contains(k)]
        #![trigger b.dom().contains(k)]
        a.dom().contains(k) == b.dom().contains(k) && (a.dom().contains(k) ==> a[k] == b[k]) by {}
    assert(a =~= b);
}

/// Setting the file columns of an addon changes its row, if it is there.
proof fn lemma_update_addon(
    m: Map<i32, AddonRow>,
    id: i32,
    md5: Seq<char>,
    file_name: Seq<char>,
    download: Seq<char>,
)
    ensures
        update_rows(
            "addon"@,
            stored_addons(m),
            seq!["md5"@, "file_name"@, "download"@],
            seq![CellView::Text(md5), CellView::Text(file_name), CellView::Text(download)],
            "id"@,
            id,
        ) == (if m.contains_key(id) {
            Some(
                stored_addons(
                    m.insert(
                        id,
                        AddonRow {
                            md5: Some(md5),
                            file_name: Some(file_name),
                            download: Some(download),
                            ..m[id]
                        },
                    ),
                ),
            )
        } else {
            None
        }),
{
    let table = "addon"@;
    let all = columns_of(table);
    let rows = stored_addons(m);
    let set = seq!["md5"@, "file_name"@, "download"@];
    let cells = seq![CellView::Text(md5), CellView::Text(file_name), CellView::Text(download)];
    let row = full_row(table, set, cells);
    lemma_table_names();
    lemma_columns_differ(table);
    assert(all[0] == "id"@);
    assert(all.index_of("id"@) == 0);
    assert forall|n: i32| seq![id].contains(n) <==> n == id by {
        assert(seq![id][0] == id);
    }
    if m.contains_key(id) {
        let new = AddonRow {
            md5: Some(md5),
            file_name: Some(file_name),
            download: Some(download),
            ..m[id]
        };
        let old = addon_cells(id, m[id]);
        assert(rows.contains_key(id_key(id)));
        assert(has_value(table, rows[id_key(id)], "id"@, seq![id]));
        assert forall|i: int| 0 <= i < all.len() implies #[trigger] overwritten(
            table,
            old,
            row,
            set,
        )[i] == addon_cells(id, new)[i] by {
            if set.contains(all[i]) {
                let j = set.index_of(all[i]);
                assert(all[10 + j] == all[i]);
            }
            if i >= 10 {
                assert(set[i - 10] == all[i]);
            }
        }
        assert(overwritten(table, old, row, set) =~= addon_cells(id, new));
        let a = update_rows(table, rows, set, cells, "id"@, id)->0;
        let b = stored_addons(m.insert(id, new));
        assert forall|k: Seq<CellView>|
            #![trigger a.dom().contains(k)]
            #![trigger b.dom().contains(k)]
            a.dom().contains(k) == b.dom().contains(k) && (a.dom().contains(k) ==> a[k] == b[k]) by {
            if is_id(k) && k[0]->Number_0 == id {
                assert(k =~= id_key(id));
            }
        }
        assert(a =~= b);
    } else {
        assert forall|k: Seq<CellView>| !(#[trigger] rows.contains_key(k) && has_value(
            table,
            rows[k],
            "id"@,
            seq![id],
        )) by {}
    }
}

/// Only one table of the file is another.
proof fn lemma_stored_table(t: Tables, u: Tables, table: Seq<char>)
    requires
        is_table(table),
        forall|name: Seq<char>|
            is_table(name) && name != table ==> #[trigger] stored_table(t, name) == stored_table(
                u,
                name,
            ),
    ensures
        stored(u) == stored(t).insert(table, stored_table(u, table)),
{
    let a = stored(u);
    let b = stored(t).insert(table, stored_table(u, table));
    assert forall|name: Seq<char>|
        #![trigger a.dom().contains(name)]
        #![trigger b.dom().contains(name)]
        a.dom().contains(name) == b.dom().contains(name) && (a.dom().contains(name) ==> a[name]
            == b[name]) by {
        if is_table(name) && name != table {
            assert(stored_table(t, name) == stored_table(u, name));
        }
    }
    assert(a =~= b);
}

/// One row is stored as rows are.
proof fn lemma_one_row(
    table: Seq<char>,
    rows: Map<Seq<CellView>, Seq<CellView>>,
    columns: Seq<Seq<char>>,
    cells: Seq<CellView>,
    conflict: ConflictView,
)
    ensures
        insert_rows(table, rows, columns, seq![cells], conflict) == insert_row(
            table,
            rows,
            columns,
            cells,
            conflict,
        ),
{
    assert(seq![cells].drop_last() =~= Seq::<Seq<CellView>>::empty());
    assert(insert_rows(table, rows, columns, seq![cells].drop_last(), conflict) == Some(rows));
}

/// The planned statement does to the file what the statement of the journal does to the tables.
pub proof fn lemma_carried_out(t: Tables, w: WriteView)
    ensures
        match t.after(w) {
            Some(u) => carried_out(plan_of(w), stored(t)) == Some(stored(u)),
            None => carried_out(plan_of(w), stored(t)) is None,
        },
{
    lemma_table_names();
    lemma_cells_differ();
    match w {
        WriteView::UpsertAddons(list) => {
            lemma_store_listings(t.addons, list);
            if list.len() > 0 {
                lemma_stored_table(t, t.after(w)->0, "addon"@);
            }
        },
        WriteView::DeleteAddonDirs(ids) => {
            lemma_delete_owned(t.dirs, ids);
            lemma_stored_table(t, t.after(w)->0, "addon_dir"@);
        },
        WriteView::InsertAddonDirs(list) => {
            let cells = |r: (i32, Seq<char>)| owned_cells(r);
            assert(columns_of("addon_dir"@) =~= seq!["addon_id"@, "dir"@]);
            lemma_store_new("addon_dir"@, t.dirs, cells, list);
            if t.after(w) is Some {
                lemma_stored_table(t, t.after(w)->0, "addon_dir"@);
            }
        },
        WriteView::UpsertCategories(list) => {
            lemma_store_categories(t.categories, list);
            if list.len() > 0 {
                lemma_stored_table(t, t.after(w)->0, "category"@);
            }
        },
        WriteView::InsertCategoryParents(list) => {
            let cells = |r: (i32, i32)| link_cells(r);
            assert(columns_of("category_parent"@) =~= seq!["id"@, "parent_id"@]);
            lemma_store_kept("category_parent"@, t.parents, cells, list);
            if list.len() > 0 {
                lemma_stored_table(t, t.after(w)->0, "category_parent"@);
            }
        },
        WriteView::UpsertInstalled(row) => {
            let table = "installed_addon"@;
            let all = columns_of(table);
            let set = seq!["date"@, "version"@];
            let cells = |id: i32, r: InstalledRow|
                installed_cells(InstalledRow { addon_id: id, ..r });
            assert(all =~= seq!["addon_id"@, "version"@, "date"@]);
            assert(all.take(1) =~= seq!["addon_id"@]);
            assert(set[0] == all[2] && set[1] == all[1]);
            lemma_store_row(table, t.installed, cells, row.addon_id, row, set);
            lemma_one_row(
                table,
                stored_installed(t.installed),
                all,
                installed_cells(row),
                ConflictView::Overwrite { key: all.take(1), columns: set },
            );
            lemma_stored_table(t, t.after(w)->0, table);
        },
        WriteView::InsertDependencies(list) => {
            let cells = |r: (i32, Seq<char>)| owned_cells(r);
            assert(columns_of("addon_dependency"@) =~= seq!["addon_id"@, "dependency_dir"@]);
            lemma_store_kept("addon_dependency"@, t.dependencies, cells, list);
            if list.len() > 0 {
                lemma_stored_table(t, t.after(w)->0, "addon_dependency"@);
            }
        },
        WriteView::DeleteInstalled(id) => {
            lemma_delete_installed(t.installed, id);
            lemma_stored_table(t, t.after(w)->0, "installed_addon"@);
        },
        WriteView::SetAddonFile { id, md5, file_name, download } => {
            lemma_update_addon(t.addons, id, md5, file_name, download);
            if t.addons.contains_key(id) {
                lemma_stored_table(t, t.after(w)->0, "addon"@);
            }
        },
        WriteView::UpsertDetail(row) => {
            let table = "addon_detail"@;
            let all = columns_of(table);
            let set = seq!["description"@, "change_log"@, "version"@];
            let cells = |id: i32, d: DetailRow| detail_cells(DetailRow { id, ..d });
            assert(all =~= seq!["id"@, "description"@, "change_log"@, "version"@]);
            assert(all.take(1) =~= seq!["id"@]);
            assert(set[0] == all[1] && set[1] == all[2] && set[2] == all[3]);
            lemma_store_row(table, t.details, cells, row.id, row, set);
            lemma_one_row(
                table,
                stored_details(t.details),
                all,
                detail_cells(row),
                ConflictView::Overwrite { key: all.take(1), columns: set },
            );
            lemma_stored_table(t, t.after(w)->0, table);
        },
    }
}

} // verus!
