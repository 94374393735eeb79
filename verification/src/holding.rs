//! What the rows and settings hold: each column by its own name.

use vstd::prelude::*;
use crate::answers::is_text;
use crate::api::ApiClient;
use crate::config::Config;
use crate::database::{Listing, Write, WriteView};
use crate::entity::{
    addon, addon_dependency, addon_detail, addon_dir, category, category_parent, installed_addon,
};
use crate::service::import::{left_over, InstallState};
use crate::statement::{grid, names, Cell, CellView, Conflict, ConflictView, Plan, PlanView};
use crate::table::views;
use crate::text::{text_of, texts_of};

verus! {

/// What lists hold is what each of their items holds, all of them and in their order.
pub proof fn law_lists_hold_every_item<T: View>(
    list: Seq<T>,
    texts: Seq<String>,
    text: Option<String>,
)
    ensures
        views(list).len() == list.len(),
        forall|i: int| 0 <= i < list.len() ==> #[trigger] views(list)[i] == list[i]@,
        texts_of(texts).len() == texts.len(),
        forall|i: int| 0 <= i < texts.len() ==> #[trigger] texts_of(texts)[i] == texts[i]@,
        is_text(text, text_of(text)),
{
}

/// The row of an addon holds its columns.
pub proof fn law_addons_hold_their_columns(m: addon::Model)
    ensures
        m@.id == m.id,
        m@.category_id == m.category_id@,
        m@.version == m.version@,
        m@.date == m.date@,
        m@.name == m.name@,
        is_text(m.author_name, m@.author_name),
        is_text(m.file_info_url, m@.file_info_url),
        is_text(m.download_total, m@.download_total),
        is_text(m.download_monthly, m@.download_monthly),
        is_text(m.favorite_total, m@.favorite_total),
        is_text(m.md5, m@.md5),
        is_text(m.file_name, m@.file_name),
        is_text(m.download, m@.download),
{
}

/// The rows of the other tables hold their columns.
pub proof fn law_rows_hold_their_columns(
    i: installed_addon::Model,
    d: addon_dir::Model,
    n: addon_dependency::Model,
    t: addon_detail::Model,
    c: category::Model,
    p: category_parent::Model,
)
    ensures
        i@.addon_id == i.addon_id && i@.version == i.version@ && i@.date == i.date@,
        d@ == (d.addon_id, d.dir@),
        n@ == (n.addon_id, n.dependency_dir@),
        t@.id == t.id && is_text(t.description, t@.description) && is_text(
            t.change_log,
            t@.change_log,
        ) && is_text(t.version, t@.version),
        c@.id == c.id && c@.title == c.title@ && is_text(c.icon, c@.icon) && c@.file_count
            == c.file_count,
        p@ == (p.id, p.parent_id),
{
}

/// A listing holds its columns.
pub proof fn law_listings_hold_their_columns(l: Listing)
    ensures
        l@.id == l.id,
        l@.category_id == l.category_id@,
        l@.version == l.version@,
        l@.date == l.date@,
        l@.name == l.name@,
        l@.author_name == l.author_name@,
        l@.file_info_url == l.file_info_url@,
        l@.download_total == l.download_total@,
        l@.download_monthly == l.download_monthly@,
        l@.favorite_total == l.favorite_total@,
{
}

/// A noted statement holds what it is made of, each row of it.
pub proof fn law_statements_hold_their_rows(w: Write)
    ensures
        match w {
            Write::UpsertAddons(rows) => w@ matches WriteView::UpsertAddons(l) && l.len()
                == rows@.len() && forall|i: int| 0 <= i < l.len() ==> #[trigger] l[i] == rows@[i]@,
            Write::DeleteAddonDirs(ids) => w@ == WriteView::DeleteAddonDirs(ids@),
            Write::InsertAddonDirs(rows) => w@ matches WriteView::InsertAddonDirs(l) && l.len()
                == rows@.len() && forall|i: int| 0 <= i < l.len() ==> #[trigger] l[i] == rows@[i]@,
            Write::UpsertCategories(rows) => w@ matches WriteView::UpsertCategories(l) && l.len()
                == rows@.len() && forall|i: int| 0 <= i < l.len() ==> #[trigger] l[i] == rows@[i]@,
            Write::InsertCategoryParents(rows) => w@ matches WriteView::InsertCategoryParents(l)
                && l.len() == rows@.len() && forall|i: int|
                0 <= i < l.len() ==> #[trigger] l[i] == rows@[i]@,
            Write::UpsertInstalled(row) => w@ == WriteView::UpsertInstalled(row@),
            Write::InsertDependencies(rows) => w@ matches WriteView::InsertDependencies(l)
                && l.len() == rows@.len() && forall|i: int|
                0 <= i < l.len() ==> #[trigger] l[i] == rows@[i]@,
            Write::DeleteInstalled(id) => w@ == WriteView::DeleteInstalled(id),
            Write::SetAddonFile { id, md5, file_name, download } => w@ == (
            WriteView::SetAddonFile {
                id,
                md5: md5@,
                file_name: file_name@,
                download: download@,
            }),
            Write::UpsertDetail(row) => w@ == WriteView::UpsertDetail(row@),
        },
{
}

/// The names of a plan are those that it is made of.
pub open spec fn are_names(list: Seq<&'static str>, v: Seq<Seq<char>>) -> bool {
    list.len() == v.len() && forall|i: int| 0 <= i < list.len() ==> #[trigger] v[i] == list[i]@
}

/// A value of a plan holds what it is made of.
pub open spec fn is_cell(c: Cell, v: CellView) -> bool {
    match c {
        Cell::Number(n) => v == CellView::Number(n),
        Cell::Text(t) => v == CellView::Text(t@),
        Cell::Null => v == CellView::Null,
    }
}

/// The values of a row of a plan hold what they are made of.
pub open spec fn are_cells(row: Seq<Cell>, v: Seq<CellView>) -> bool {
    row.len() == v.len() && forall|i: int| 0 <= i < row.len() ==> is_cell(row[i], #[trigger] v[i])
}

/// A planned statement holds its table, its columns and every value of every row.
pub proof fn law_plans_hold_their_values(p: Plan)
    ensures
        match p {
            Plan::Insert { table, columns, rows, conflict } => {
                &&& p@ matches PlanView::Insert { table: t, columns: c, rows: r, conflict: f }
                &&& t == table@
                &&& are_names(columns@, c)
                &&& r.len() == rows@.len()
                &&& forall|i: int| 0 <= i < r.len() ==> are_cells(rows@[i]@, #[trigger] r[i])
                &&& match conflict {
                    Conflict::Fail => f is Fail,
                    Conflict::Keep { key } => f matches ConflictView::Keep { key: k } && are_names(
                        key@,
                        k,
                    ),
                    Conflict::Overwrite { key, columns } => f matches ConflictView::Overwrite {
                        key: k,
                        columns: o,
                    } && are_names(key@, k) && are_names(columns@, o),
                }
            },
            Plan::Delete { table, column, values } => p@ == (PlanView::Delete {
                table: table@,
                column: column@,
                values: values@,
            }),
            Plan::Update { table, columns, cells, key, value } => {
                &&& p@ matches PlanView::Update { table: t, columns: c, cells: r, key: k, value: x }
                &&& t == table@
                &&& are_names(columns@, c)
                &&& are_cells(cells@, r)
                &&& k == key@
                &&& x == value
            },
        },
{
    match p {
        Plan::Insert { table, columns, rows, conflict } => {
            let r = grid(rows@);
            assert forall|i: int| 0 <= i < r.len() implies are_cells(rows@[i]@, #[trigger] r[i]) by {
                assert(r[i] == views(rows@[i]@));
            }
            assert(names(columns@).len() == columns@.len());
        },
        _ => {},
    }
}

/// The settings and the addresses hold what they are made of.
pub proof fn law_settings_hold_their_fields(c: Config, a: ApiClient)
    ensures
        c@.addon_dir == c.addon_dir@,
        c@.file_details == c.file_details@,
        c@.file_list == c.file_list@,
        c@.list_files == c.list_files@,
        c@.category_list == c.category_list@,
        a@.endpoint_url == a.endpoint_url@,
        a@.file_details_url == a.file_details_url@,
        a@.file_list_url == a.file_list_url@,
        a@.list_files_url == a.list_files_url@,
        a@.category_list_url == a.category_list_url@,
{
}

/// What is left of an import are the addons whose installation is not done, in the order in which
/// they were pending: the first that is pending is left exactly if it is not done, and what is
/// left of the others does not depend on it.
pub proof fn law_import_goes_one_by_one(pending: Seq<i32>, states: Seq<InstallState>)
    requires
        pending.len() == states.len(),
        pending.len() > 0,
    ensures
        left_over(pending, states) == (if states[0] == InstallState::Success {
            Seq::<i32>::empty()
        } else {
            seq![pending[0]]
        }) + left_over(pending.skip(1), states.skip(1)),
    decreases pending.len(),
{
    let p = pending.drop_last();
    if p.len() > 0 {
        law_import_goes_one_by_one(p, states.drop_last());
        lemma_states(p, states.drop_last(), states);
        let q = pending.skip(1);
        assert(q.drop_last() =~= p.skip(1));
        assert(states.drop_last().skip(1) =~= states.skip(1).drop_last());
        lemma_states(q.drop_last(), states.skip(1).drop_last(), states.skip(1));
    } else {
        assert(left_over(p, states) =~= Seq::<i32>::empty());
        assert(left_over(pending.skip(1), states.skip(1)) =~= Seq::<i32>::empty());
    }
}

proof fn lemma_states(pending: Seq<i32>, states: Seq<InstallState>, more: Seq<InstallState>)
    requires
        pending.len() == states.len() <= more.len(),
        forall|i: int| 0 <= i < pending.len() ==> states[i] == more[i],
    ensures
        left_over(pending, states) == left_over(pending, more),
    decreases pending.len(),
{
    if pending.len() > 0 {
        let s = states.drop_last();
        lemma_states(pending.drop_last(), s, more);
        lemma_states(pending.drop_last(), s, states);
    }
}

} // verus!
