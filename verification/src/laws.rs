//! What holds of the service as a whole.

use vstd::prelude::*;
use crate::api::{ApiView, CategoryItemRow, FileDetailsRow, FileListRow};
use crate::archive::{
    entry_name, has_broken, is_broken, is_enclosed, is_enclosed_everywhere,
    naming_parts, slashed, splits_alike, stays_below, steps_of, target, ArchiveEntry, Contents,
};
use crate::config::ConfigView;
use crate::database::{
    all_categories, all_listed, lemma_run_none, lemma_run_push, listed, DatabaseView, ListingRow,
    Tables, WriteView,
};
use crate::entity::addon;
use crate::entity::addon::AddonRow;
use crate::entity::category::CategoryRow;
use crate::entity::installed_addon;
use crate::migration::migration_names;
use crate::reading::{law_letters_are_compared, same_letter};
use crate::result::{DepRow, ShowRow};
use crate::service::download::is_addon_path;
use crate::service::import::{left_over, lemma_left_over, InstallState};
use crate::service::install::{
    dependency_rows, detail_writes, install_writes, is_current, record_of,
};
use crate::service::query::{
    answers_search, are_offers, category_key, has_details, is_child, is_listing, is_offered,
    is_outdated, is_parent, lacks_details, lemma_nothing_offered, list_row, passes, search_pattern,
    show_row, shows, FilterView,
};
use crate::service::update::{
    category_rows, category_writes, dir_rows, ids_of, listing_of, listings, parent_rows,
    parents_of, update_writes,
};
use crate::statement::{listing_columns, plan_of, CellView, ConflictView, PlanView};
use crate::stored::{carried_out, lemma_carried_out, stored};
use crate::text::{
    before_null, is_found, lemma_before_irreflexive, lemma_first_null, lemma_null_at, like,
    null_at, number_of, pieces, text_before, texts_of,
};

verus! {

// ---------------------------------------------------------------------------------------------
// The journal
// ---------------------------------------------------------------------------------------------

/// The tables after statements that can all be carried out.
pub open spec fn replay(t: Tables, list: Seq<WriteView>) -> Option<Tables>
    decreases list.len(),
{
    if list.len() == 0 {
        Some(t)
    } else {
        match replay(t, list.drop_last()) {
            Some(u) => u.after(list.last()),
            None => None,
        }
    }
}

/// The journal holds what led to the tables: an operation notes its statements, up to the first
/// that cannot be carried out, and replaying what it noted on the old tables gives the new ones.
pub proof fn law_journal_replays(d: DatabaseView, list: Seq<WriteView>) -> (k: int)
    ensures
        0 <= k <= list.len(),
        d.run(list).journal == d.journal + list.take(k),
        replay(d.tables, list.take(k)) == Some(d.run(list).tables),
        d.accepts(list) <==> k == list.len(),
    decreases list.len(),
{
    if list.len() == 0 {
        assert(list.take(0) =~= list);
        assert(d.journal + list =~= d.journal);
        0
    } else {
        let rest = list.drop_last();
        let k = law_journal_replays(d, rest);
        assert(rest.take(k) =~= list.take(k));
        if d.accepts(list) {
            assert(rest.take(k) =~= rest);
            assert(list.take(list.len() as int) =~= list);
            assert(d.journal + list =~= (d.journal + rest).push(list.last()));
            list.len() as int
        } else {
            k
        }
    }
}

/// Carrying a planned statement out does to the file what the statement does to the tables: if
/// the file holds the tables, it holds the new tables afterwards, and the one fails where the
/// other does.
pub proof fn law_plans_do_what_is_noted(t: Tables, w: WriteView)
    ensures
        match t.after(w) {
            Some(u) => carried_out(plan_of(w), stored(t)) == Some(stored(u)),
            None => carried_out(plan_of(w), stored(t)) is None,
        },
{
    lemma_carried_out(t, w);
}

/// The file after the statements of a journal, one after the other.
pub open spec fn all_carried_out(
    file: Map<Seq<char>, Map<Seq<CellView>, Seq<CellView>>>,
    list: Seq<WriteView>,
) -> Option<Map<Seq<char>, Map<Seq<CellView>, Seq<CellView>>>>
    decreases list.len(),
{
    if list.len() == 0 {
        Some(file)
    } else {
        match all_carried_out(file, list.drop_last()) {
            Some(before) => carried_out(plan_of(list.last()), before),
            None => None,
        }
    }
}

/// Carrying out what an operation noted in the journal brings the file from the old tables to the
/// new ones.
pub proof fn law_journal_reaches_the_file(d: DatabaseView, list: Seq<WriteView>) -> (k: int)
    ensures
        0 <= k <= list.len(),
        d.run(list).journal == d.journal + list.take(k),
        all_carried_out(stored(d.tables), list.take(k)) == Some(stored(d.run(list).tables)),
{
    let k = law_journal_replays(d, list);
    lemma_all_carried_out(d.tables, list.take(k));
    k
}

proof fn lemma_all_carried_out(t: Tables, list: Seq<WriteView>)
    ensures
        replay(t, list) matches Some(u) ==> all_carried_out(stored(t), list) == Some(stored(u)),
    decreases list.len(),
{
    if list.len() > 0 {
        lemma_all_carried_out(t, list.drop_last());
        match replay(t, list.drop_last()) {
            Some(u) => {
                law_plans_do_what_is_noted(u, list.last());
            },
            None => {},
        }
    }
}

/// A planned statement is complete: every row has a value for each column, there are columns, and
/// the columns that a conflict rule names are among those of the statement.
pub proof fn law_plans_are_complete(w: WriteView)
    ensures
        match plan_of(w) {
            PlanView::Insert { table, columns, rows, conflict } => {
                &&& columns.len() > 0
                &&& forall|i: int| 0 <= i < rows.len() ==> (#[trigger] rows[i]).len() == columns.len()
                &&& match conflict {
                    ConflictView::Fail => true,
                    ConflictView::Keep { key } => forall|i: int|
                        0 <= i < key.len() ==> columns.contains(#[trigger] key[i]),
                    ConflictView::Overwrite { key, columns: set } => {
                        &&& forall|i: int|
                            0 <= i < key.len() ==> columns.contains(#[trigger] key[i])
                        &&& forall|i: int|
                            0 <= i < set.len() ==> columns.contains(#[trigger] set[i])
                    },
                }
            },
            PlanView::Delete { table, column, values } => true,
            PlanView::Update { table, columns, cells, key, value } => columns.len() == cells.len(),
        },
{
    match plan_of(w) {
        PlanView::Insert { table, columns, rows, conflict } => {
            match conflict {
                ConflictView::Fail => {},
                ConflictView::Keep { key } => {
                    assert(key =~= columns);
                },
                ConflictView::Overwrite { key, columns: set } => {
                    assert(key[0] == columns[0]);
                    if w is UpsertInstalled {
                        assert(set[0] == columns[2] && set[1] == columns[1]);
                    } else {
                        assert(set =~= columns.skip(1));
                    }
                },
            }
        },
        _ => {},
    }
}

/// A refresh writes neither the check sum nor the name nor the address of an archive.
pub proof fn law_refresh_writes_no_file_columns()
    ensures
        !listing_columns().contains("md5"@),
        !listing_columns().contains("file_name"@),
        !listing_columns().contains("download"@),
{
    reveal_strlit("md5");
    reveal_strlit("file_name");
    reveal_strlit("download");
    reveal_strlit("category_id");
    reveal_strlit("version");
    reveal_strlit("date");
    reveal_strlit("name");
    reveal_strlit("author_name");
    reveal_strlit("file_info_url");
    reveal_strlit("download_total");
    reveal_strlit("download_monthly");
    reveal_strlit("favorite_total");
    let list = listing_columns();
    assert forall|i: int| 0 <= i < list.len() implies #[trigger] list[i] != "md5"@ && list[i]
        != "file_name"@ && list[i] != "download"@ by {
        assert(list[i].len() != 3 && (list[i].len() != 9) && list[i].len() != 8);
    }
}

// ---------------------------------------------------------------------------------------------
// Installing and removing
// ---------------------------------------------------------------------------------------------

/// What storing an installed addon does to the tables.
proof fn lemma_installed(d: DatabaseView, record: installed_addon::InstalledRow, dirs: Seq<Seq<char>>)
    ensures
        d.accepts(install_writes(record, dirs)),
        d.run(install_writes(record, dirs)).tables == (Tables {
            installed: d.tables.installed.insert(record.addon_id, record),
            dependencies: d.tables.dependencies.union(
                dependency_rows(record.addon_id, dirs).to_set(),
            ),
            ..d.tables
        }),
{
    let none = Seq::<WriteView>::empty();
    let w = WriteView::UpsertInstalled(record);
    let w2 = WriteView::InsertDependencies(dependency_rows(record.addon_id, dirs));
    lemma_run_none(d);
    lemma_run_push(d, none, w);
    lemma_run_push(d, none.push(w), w2);
    if dirs.len() == 0 {
        assert(d.tables.dependencies.union(dependency_rows(record.addon_id, dirs).to_set())
            =~= d.tables.dependencies);
    }
}

/// Once an addon is installed it is current and not outdated, so that installing it again does
/// nothing.
pub proof fn law_installed_is_current(d: DatabaseView, id: i32, dirs: Seq<Seq<char>>)
    requires
        d.tables.addons.contains_key(id),
    ensures
        is_current(d.run(install_writes(record_of(d.tables, id), dirs)).tables, id),
        !is_outdated(d.run(install_writes(record_of(d.tables, id), dirs)).tables, id),
{
    lemma_installed(d, record_of(d.tables, id), dirs);
    lemma_before_irreflexive(d.tables.addons[id].date);
}

/// Installing an addon records every directory that it depends on, keeps the dependencies that
/// were recorded, and leaves the catalogue and the other installed addons as they were.
pub proof fn law_install_records_dependencies(
    d: DatabaseView,
    record: installed_addon::InstalledRow,
    dirs: Seq<Seq<char>>,
)
    ensures
        forall|a: i32, x: Seq<char>| #[trigger]
            d.run(install_writes(record, dirs)).tables.dependencies.contains((a, x))
                <==> d.tables.dependencies.contains((a, x)) || (a == record.addon_id
                && dirs.contains(x)),
        forall|a: i32|
            a != record.addon_id ==> (#[trigger] d.run(
                install_writes(record, dirs),
            ).tables.installed.contains_key(a) <==> d.tables.installed.contains_key(a)),
        forall|a: i32|
            a != record.addon_id && d.tables.installed.contains_key(a) ==> #[trigger] d.run(
                install_writes(record, dirs),
            ).tables.installed[a] == d.tables.installed[a],
        d.run(install_writes(record, dirs)).tables.addons == d.tables.addons,
        d.run(install_writes(record, dirs)).tables.dirs == d.tables.dirs,
        d.run(install_writes(record, dirs)).tables.details == d.tables.details,
        d.run(install_writes(record, dirs)).tables.categories == d.tables.categories,
        d.run(install_writes(record, dirs)).tables.parents == d.tables.parents,
{
    lemma_installed(d, record, dirs);
    let rows = dependency_rows(record.addon_id, dirs);
    assert forall|a: i32, x: Seq<char>|
        rows.contains((a, x)) <==> (a == record.addon_id && dirs.contains(x)) by {
        if rows.contains((a, x)) {
            let i = rows.index_of((a, x));
            assert(dirs[i] == x);
        }
        if a == record.addon_id && dirs.contains(x) {
            let i = dirs.index_of(x);
            assert(rows[i] == (a, x));
        }
    }
}

/// Removing an installed addon undoes the record of its installation and nothing else: where it
/// was not installed before, the tables are what they were, but for the dependencies.
pub proof fn law_remove_undoes_install(
    d: DatabaseView,
    record: installed_addon::InstalledRow,
    dirs: Seq<Seq<char>>,
)
    requires
        !d.tables.installed.contains_key(record.addon_id),
    ensures
        d.run(install_writes(record, dirs)).after(
            WriteView::DeleteInstalled(record.addon_id),
        ).tables == (Tables {
            dependencies: d.run(install_writes(record, dirs)).tables.dependencies,
            ..d.tables
        }),
{
    lemma_installed(d, record, dirs);
    assert(d.tables.installed.insert(record.addon_id, record).remove(record.addon_id)
        =~= d.tables.installed);
}

/// An addon that was removed is no longer installed, all others are as they were, and the
/// catalogue still has it.
pub proof fn law_removed_is_not_installed(d: DatabaseView, id: i32)
    ensures
        !d.after(WriteView::DeleteInstalled(id)).tables.installed.contains_key(id),
        forall|a: i32|
            a != id ==> (#[trigger] d.after(
                WriteView::DeleteInstalled(id),
            ).tables.installed.contains_key(a) <==> d.tables.installed.contains_key(a)),
        forall|a: i32|
            a != id && d.tables.installed.contains_key(a) ==> #[trigger] d.after(
                WriteView::DeleteInstalled(id),
            ).tables.installed[a] == d.tables.installed[a],
        d.after(WriteView::DeleteInstalled(id)).tables.addons == d.tables.addons,
        d.after(WriteView::DeleteInstalled(id)).tables.dependencies == d.tables.dependencies,
{
}

/// The list of installed addons shows an addon from when it is installed until it is removed, if
/// the catalogue has its category; and that changes for no other addon.
pub proof fn law_installed_is_listed(
    d: DatabaseView,
    record: installed_addon::InstalledRow,
    dirs: Seq<Seq<char>>,
)
    requires
        d.tables.addons.contains_key(record.addon_id),
    ensures
        passes(d.run(install_writes(record, dirs)).tables, FilterView::Installed, record.addon_id)
            <==> category_key(d.tables, d.tables.addons[record.addon_id]) is Some,
        !passes(
            d.run(install_writes(record, dirs)).after(
                WriteView::DeleteInstalled(record.addon_id),
            ).tables,
            FilterView::Installed,
            record.addon_id,
        ),
        forall|a: i32|
            a != record.addon_id ==> (#[trigger] passes(
                d.run(install_writes(record, dirs)).tables,
                FilterView::Installed,
                a,
            ) <==> passes(d.tables, FilterView::Installed, a)),
{
    lemma_installed(d, record, dirs);
}

/// Installing an addon that was not installed makes the number of installed addons one more,
/// installing it again does not change it, and removing it makes it one less.
pub proof fn law_installed_are_counted(
    d: DatabaseView,
    record: installed_addon::InstalledRow,
    dirs: Seq<Seq<char>>,
)
    requires
        d.tables.installed.dom().finite(),
    ensures
        d.run(install_writes(record, dirs)).tables.installed.len() == d.tables.installed.len() + (
        if d.tables.installed.contains_key(record.addon_id) {
            0int
        } else {
            1
        }),
        d.after(WriteView::DeleteInstalled(record.addon_id)).tables.installed.len()
            == d.tables.installed.len() - (if d.tables.installed.contains_key(record.addon_id) {
            1int
        } else {
            0
        }),
{
    lemma_installed(d, record, dirs);
}

// ---------------------------------------------------------------------------------------------
// Details
// ---------------------------------------------------------------------------------------------

/// What storing the details of an addon does to the tables.
proof fn lemma_detailed(d: DatabaseView, id: i32, f: FileDetailsRow)
    requires
        d.tables.addons.contains_key(id),
    ensures
        d.accepts(detail_writes(id, f)),
        d.run(detail_writes(id, f)).tables.addons == d.tables.addons.insert(
            id,
            AddonRow {
                md5: Some(f.md5),
                file_name: Some(f.file_name),
                download: Some(f.download_url),
                ..d.tables.addons[id]
            },
        ),
        d.run(detail_writes(id, f)).tables.details.contains_key(id),
        d.run(detail_writes(id, f)).tables.details[id].description == Some(f.description),
        d.run(detail_writes(id, f)).tables.details[id].change_log == Some(f.change_log),
        d.run(detail_writes(id, f)).tables.details[id].version == Some(f.version),
        forall|a: i32|
            a != id ==> (#[trigger] d.run(detail_writes(id, f)).tables.details.contains_key(a)
                <==> d.tables.details.contains_key(a)),
        forall|a: i32|
            a != id && d.tables.details.contains_key(a) ==> #[trigger] d.run(
                detail_writes(id, f),
            ).tables.details[a] == d.tables.details[a],
        d.run(detail_writes(id, f)).tables.categories == d.tables.categories,
        d.run(detail_writes(id, f)).tables.installed == d.tables.installed,
        d.run(detail_writes(id, f)).tables.dirs == d.tables.dirs,
        d.run(detail_writes(id, f)).tables.dependencies == d.tables.dependencies,
        d.run(detail_writes(id, f)).tables.parents == d.tables.parents,
{
    let none = Seq::<WriteView>::empty();
    let list = detail_writes(id, f);
    lemma_run_none(d);
    lemma_run_push(d, none, list[0]);
    lemma_run_push(d, none.push(list[0]), list[1]);
}

/// Once the details of an addon are stored, its details are missing only if they are those of
/// another version than the catalogue has; for the other addons nothing changes.
pub proof fn law_details_are_found(d: DatabaseView, id: i32, f: FileDetailsRow)
    requires
        d.tables.addons.contains_key(id),
    ensures
        lacks_details(d.run(detail_writes(id, f)).tables, id) <==> f.version
            != d.tables.addons[id].version,
        forall|a: i32|
            a != id ==> (#[trigger] lacks_details(d.run(detail_writes(id, f)).tables, a)
                <==> lacks_details(d.tables, a)),
{
    lemma_detailed(d, id, f);
    let t = d.run(detail_writes(id, f)).tables;
    assert forall|a: i32| a != id implies (#[trigger] lacks_details(t, a) <==> lacks_details(
        d.tables,
        a,
    )) by {
        assert(t.details.contains_key(a) <==> d.tables.details.contains_key(a));
        if d.tables.details.contains_key(a) {
            assert(t.details[a] == d.tables.details[a]);
        }
    }
}

/// The details that were stored are those that are shown, if the addon's category is in the
/// catalogue; and the address of the archive is the one that the details named.
pub proof fn law_details_are_shown(d: DatabaseView, id: i32, f: FileDetailsRow)
    requires
        d.tables.addons.contains_key(id),
        category_key(d.tables, d.tables.addons[id]) is Some,
    ensures
        has_details(d.run(detail_writes(id, f)).tables, id),
        d.run(detail_writes(id, f)).tables.details[id].description == Some(f.description),
        d.run(detail_writes(id, f)).tables.details[id].change_log == Some(f.change_log),
        show_row(
            d.run(detail_writes(id, f)).tables,
            id,
            d.run(detail_writes(id, f)).tables.details[id].description,
            d.run(detail_writes(id, f)).tables.details[id].change_log,
        ) == (ShowRow {
            md5: Some(f.md5),
            file_name: Some(f.file_name),
            download: Some(f.download_url),
            ..show_row(d.tables, id, Some(f.description), Some(f.change_log))
        }),
        d.run(detail_writes(id, f)).tables.addons[id].download == Some(f.download_url),
{
    lemma_detailed(d, id, f);
}

// ---------------------------------------------------------------------------------------------
// Refreshing
// ---------------------------------------------------------------------------------------------

/// The position of the last listing of the addon `id`, or -1.
pub open spec fn last_listing(list: Seq<ListingRow>, id: i32) -> int
    decreases list.len(),
{
    if list.len() == 0 {
        -1
    } else if list.last().id == id {
        list.len() - 1
    } else {
        last_listing(list.drop_last(), id)
    }
}

/// The last of several listings of an addon counts.
proof fn lemma_all_listed(m: Map<i32, AddonRow>, list: Seq<ListingRow>, id: i32)
    ensures
        -1 <= last_listing(list, id) < list.len(),
        last_listing(list, id) >= 0 ==> list[last_listing(list, id)].id == id && all_listed(
            m,
            list,
        ).contains_key(id) && all_listed(m, list)[id] == listed(m, list[last_listing(list, id)]),
        last_listing(list, id) < 0 ==> (all_listed(m, list).contains_key(id) <==> m.contains_key(
            id,
        )) && (m.contains_key(id) ==> all_listed(m, list)[id] == m[id]),
    decreases list.len(),
{
    if list.len() > 0 {
        lemma_all_listed(m, list.drop_last(), id);
    }
}

/// Storing a list a second time changes no addon.
proof fn lemma_all_listed_again(m: Map<i32, AddonRow>, list: Seq<ListingRow>)
    ensures
        all_listed(all_listed(m, list), list) == all_listed(m, list),
{
    let once = all_listed(m, list);
    let twice = all_listed(once, list);
    assert forall|id: i32|
        #![trigger once.dom().contains(id)]
        #![trigger twice.dom().contains(id)]
        once.dom().contains(id) == twice.dom().contains(id) && (once.dom().contains(id)
            ==> once[id] == twice[id]) by {
        lemma_all_listed(m, list, id);
        lemma_all_listed(once, list, id);
    }
    assert(once =~= twice);
}

/// What storing a list does to the tables.
proof fn lemma_updated(d: DatabaseView, list: Seq<FileListRow>)
    ensures
        list.len() == 0 ==> d.run(update_writes(list)).tables == d.tables,
        list.len() > 0 ==> d.run(update_writes(list)).tables == (Tables {
            addons: all_listed(d.tables.addons, listings(list)),
            dirs: {
                let kept = d.tables.dirs.filter(
                    |x: (i32, Seq<char>)| !ids_of(list).contains(x.0),
                );
                if d.accepts(update_writes(list)) {
                    kept.union(dir_rows(list).to_set())
                } else {
                    kept
                }
            },
            ..d.tables
        }),
        d.accepts(update_writes(list)) <==> list.len() > 0 && dir_rows(list).len() > 0 && dir_rows(
            list,
        ).no_duplicates(),
{
    let none = Seq::<WriteView>::empty();
    let all = update_writes(list);
    lemma_run_none(d);
    lemma_run_push(d, none, all[0]);
    lemma_run_push(d, none.push(all[0]), all[1]);
    lemma_run_push(d, none.push(all[0]).push(all[1]), all[2]);
    let kept = d.tables.dirs.filter(|x: (i32, Seq<char>)| !ids_of(list).contains(x.0));
    assert forall|i: int| 0 <= i < dir_rows(list).len() implies !kept.contains(
        #[trigger] dir_rows(list)[i],
    ) by {
        lemma_dir_row_owner(list, i);
    }
}

/// A directory of a list belongs to an addon of the list.
proof fn lemma_dir_row_owner(list: Seq<FileListRow>, i: int)
    requires
        0 <= i < dir_rows(list).len(),
    ensures
        ids_of(list).contains(dir_rows(list)[i].0),
    decreases list.len(),
{
    if list.len() > 0 {
        let rest = list.drop_last();
        if i < dir_rows(rest).len() {
            lemma_dir_row_owner(rest, i);
            let k = ids_of(rest).index_of(dir_rows(rest)[i].0);
            assert(ids_of(list)[k] == ids_of(rest)[k]);
        } else {
            assert(ids_of(list)[list.len() - 1] == dir_rows(list)[i].0);
        }
    }
}

/// A refresh succeeds exactly if the list has addons and directories, and no directory of an
/// addon twice; whatever the tables hold.
pub proof fn law_refresh_succeeds(d: DatabaseView, list: Seq<FileListRow>)
    ensures
        d.accepts(update_writes(list)) <==> list.len() > 0 && dir_rows(list).len() > 0 && dir_rows(
            list,
        ).no_duplicates(),
{
    lemma_updated(d, list);
}

/// A refresh never loses an addon, and what the list does not tell of an addon stays: the check
/// sum, the name and the address of its archive. Nor does it touch what is installed, the
/// dependencies, the details and the categories. All of this holds whether it succeeds or not.
pub proof fn law_refresh_keeps(d: DatabaseView, list: Seq<FileListRow>)
    ensures
        forall|id: i32| #[trigger]
            d.tables.addons.contains_key(id) ==> {
                let t = d.run(update_writes(list)).tables;
                &&& t.addons.contains_key(id)
                &&& t.addons[id].md5 == d.tables.addons[id].md5
                &&& t.addons[id].file_name == d.tables.addons[id].file_name
                &&& t.addons[id].download == d.tables.addons[id].download
            },
        d.run(update_writes(list)).tables.installed == d.tables.installed,
        d.run(update_writes(list)).tables.dependencies == d.tables.dependencies,
        d.run(update_writes(list)).tables.details == d.tables.details,
        d.run(update_writes(list)).tables.categories == d.tables.categories,
        d.run(update_writes(list)).tables.parents == d.tables.parents,
{
    lemma_updated(d, list);
    assert forall|id: i32| #[trigger] d.tables.addons.contains_key(id) implies {
        let t = d.run(update_writes(list)).tables;
        &&& t.addons.contains_key(id)
        &&& t.addons[id].md5 == d.tables.addons[id].md5
        &&& t.addons[id].file_name == d.tables.addons[id].file_name
        &&& t.addons[id].download == d.tables.addons[id].download
    } by {
        lemma_all_listed(d.tables.addons, listings(list), id);
    }
}

/// After a refresh the catalogue has every addon of the list, with what the last item of that
/// identifier tells; an addon that the list does not have is as it was.
pub proof fn law_refresh_lists(d: DatabaseView, list: Seq<FileListRow>, id: i32)
    requires
        list.len() > 0,
    ensures
        last_listing(listings(list), id) >= 0 ==> {
            let t = d.run(update_writes(list)).tables;
            let f = list[last_listing(listings(list), id)];
            &&& number_of(f.id)->0 == id
            &&& t.addons.contains_key(id)
            &&& t.addons[id] == listed(d.tables.addons, listing_of(f))
        },
        last_listing(listings(list), id) < 0 ==> {
            let t = d.run(update_writes(list)).tables;
            &&& t.addons.contains_key(id) <==> d.tables.addons.contains_key(id)
            &&& d.tables.addons.contains_key(id) ==> t.addons[id] == d.tables.addons[id]
        },
        last_listing(listings(list), id) >= 0 <==> ids_of(list).contains(id),
{
    lemma_updated(d, list);
    lemma_all_listed(d.tables.addons, listings(list), id);
    lemma_last_listing(listings(list), id);
    assert forall|i: int| 0 <= i < list.len() implies #[trigger] ids_of(list)[i] == listings(
        list,
    )[i].id by {}
    if ids_of(list).contains(id) {
        let i = ids_of(list).index_of(id);
        assert(listings(list)[i].id == id);
    }
    if last_listing(listings(list), id) >= 0 {
        assert(ids_of(list)[last_listing(listings(list), id)] == id);
    }
}

proof fn lemma_last_listing(list: Seq<ListingRow>, id: i32)
    ensures
        last_listing(list, id) >= 0 <==> exists|i: int|
            0 <= i < list.len() && (#[trigger] list[i]).id == id,
    decreases list.len(),
{
    if list.len() > 0 {
        let rest = list.drop_last();
        lemma_last_listing(rest, id);
        lemma_all_listed(Map::empty(), list, id);
        if exists|i: int| 0 <= i < list.len() && (#[trigger] list[i]).id == id {
            let i = choose|i: int| 0 <= i < list.len() && (#[trigger] list[i]).id == id;
            if i < rest.len() {
                assert(rest[i].id == id);
            }
        }
    }
}

/// After a refresh that succeeds, the directories of the addons of the list are exactly those
/// that the list gives them, and those of other addons are what they were.
pub proof fn law_refresh_replaces_dirs(d: DatabaseView, list: Seq<FileListRow>)
    requires
        d.accepts(update_writes(list)),
    ensures
        forall|a: i32, x: Seq<char>| #[trigger]
            d.run(update_writes(list)).tables.dirs.contains((a, x)) <==> if ids_of(list).contains(
                a,
            ) {
                dir_rows(list).contains((a, x))
            } else {
                d.tables.dirs.contains((a, x))
            },
{
    lemma_updated(d, list);
    assert forall|a: i32, x: Seq<char>| dir_rows(list).contains((a, x)) implies ids_of(
        list,
    ).contains(a) by {
        let i = dir_rows(list).index_of((a, x));
        lemma_dir_row_owner(list, i);
    }
}

/// Refreshing twice with the same list does no more than refreshing once.
pub proof fn law_refresh_is_idempotent(d: DatabaseView, list: Seq<FileListRow>)
    ensures
        d.run(update_writes(list)).accepts(update_writes(list)) <==> d.accepts(update_writes(list)),
        d.run(update_writes(list)).run(update_writes(list)).tables == d.run(
            update_writes(list),
        ).tables,
{
    let once = d.run(update_writes(list));
    lemma_updated(d, list);
    lemma_updated(once, list);
    if list.len() > 0 {
        lemma_all_listed_again(d.tables.addons, listings(list));
        let f = |x: (i32, Seq<char>)| !ids_of(list).contains(x.0);
        if d.accepts(update_writes(list)) {
            law_refresh_replaces_dirs(d, list);
            law_refresh_replaces_dirs(once, list);
            let twice = once.run(update_writes(list));
            assert forall|p: (i32, Seq<char>)| once.tables.dirs.contains(p)
                == twice.tables.dirs.contains(p) by {
                assert(once.tables.dirs.contains((p.0, p.1)) == twice.tables.dirs.contains(
                    (p.0, p.1),
                ));
            }
            assert(once.tables.dirs =~= twice.tables.dirs);
        } else {
            assert(d.tables.dirs.filter(f).filter(f) =~= d.tables.dirs.filter(f));
        }
    }
}

/// An addon that a refresh brings in a version that its details are not of lacks details.
pub proof fn law_new_version_lacks_details(d: DatabaseView, list: Seq<FileListRow>, id: i32)
    requires
        ids_of(list).contains(id),
        d.tables.details.contains_key(id) ==> d.tables.details[id].version != Some(
            list[last_listing(listings(list), id)].version,
        ),
    ensures
        lacks_details(d.run(update_writes(list)).tables, id),
{
    law_refresh_lists(d, list, id);
    law_refresh_keeps(d, list);
}

/// An addon that is installed in the version and with the date that the list tells of is not
/// outdated after the refresh; one whose version is another is.
pub proof fn law_refresh_outdates(d: DatabaseView, list: Seq<FileListRow>, id: i32)
    requires
        ids_of(list).contains(id),
        d.tables.installed.contains_key(id),
    ensures
        d.tables.installed[id].version != list[last_listing(listings(list), id)].version
            ==> is_outdated(d.run(update_writes(list)).tables, id),
        d.tables.installed[id].version == list[last_listing(listings(list), id)].version
            && d.tables.installed[id].date == list[last_listing(listings(list), id)].date
            ==> !is_outdated(d.run(update_writes(list)).tables, id),
{
    law_refresh_lists(d, list, id);
    law_refresh_keeps(d, list);
    lemma_before_irreflexive(d.tables.installed[id].date);
}

/// No missing dependency is ever offered, so that an upgrade of all addons is answered as a
/// refresh without one.
pub proof fn law_no_missing_dependency(t: Tables, rows: Seq<DepRow>)
    requires
        are_offers(t, rows),
    ensures
        rows.len() == 0,
{
    if rows.len() > 0 {
        assert(rows.contains(rows[0]));
        assert(is_offered(t, rows[0]));
        lemma_nothing_offered(t, rows[0]);
    }
}

// ---------------------------------------------------------------------------------------------
// Categories
// ---------------------------------------------------------------------------------------------

/// The position of the last category with the identifier `id`, or -1.
pub open spec fn last_category(list: Seq<CategoryRow>, id: i32) -> int
    decreases list.len(),
{
    if list.len() == 0 {
        -1
    } else if list.last().id == id {
        list.len() - 1
    } else {
        last_category(list.drop_last(), id)
    }
}

proof fn lemma_all_categories(m: Map<i32, CategoryRow>, list: Seq<CategoryRow>, id: i32)
    ensures
        -1 <= last_category(list, id) < list.len(),
        last_category(list, id) >= 0 ==> list[last_category(list, id)].id == id && all_categories(
            m,
            list,
        ).contains_key(id) && all_categories(m, list)[id] == list[last_category(list, id)],
        last_category(list, id) < 0 ==> (all_categories(m, list).contains_key(id)
            <==> m.contains_key(id)) && (m.contains_key(id) ==> all_categories(m, list)[id]
            == m[id]),
    decreases list.len(),
{
    if list.len() > 0 {
        lemma_all_categories(m, list.drop_last(), id);
    }
}

/// What storing a list of categories does to the tables.
proof fn lemma_categorised(d: DatabaseView, list: Seq<CategoryItemRow>)
    ensures
        d.accepts(category_writes(list)) <==> list.len() > 0 && parent_rows(list).len() > 0,
        d.run(category_writes(list)).tables == (Tables {
            categories: all_categories(d.tables.categories, category_rows(list)),
            parents: d.tables.parents.union(parent_rows(list).to_set()),
            ..d.tables
        }),
{
    let none = Seq::<WriteView>::empty();
    let all = category_writes(list);
    lemma_run_none(d);
    lemma_run_push(d, none, all[0]);
    lemma_run_push(d, none.push(all[0]), all[1]);
    if list.len() == 0 || parent_rows(list).len() == 0 {
        assert(d.tables.parents.union(parent_rows(list).to_set()) =~= d.tables.parents);
    }
}

/// Storing the categories succeeds exactly if there are categories and one of them has a parent.
/// It never loses a category or a parent, the last of several items with one identifier counts,
/// and everything else stays.
pub proof fn law_categories_are_stored(d: DatabaseView, list: Seq<CategoryItemRow>, id: i32)
    ensures
        d.accepts(category_writes(list)) <==> list.len() > 0 && parent_rows(list).len() > 0,
        last_category(category_rows(list), id) >= 0 ==> {
            let t = d.run(category_writes(list)).tables;
            &&& t.categories.contains_key(id)
            &&& t.categories[id] == category_rows(list)[last_category(category_rows(list), id)]
        },
        last_category(category_rows(list), id) < 0 ==> {
            let t = d.run(category_writes(list)).tables;
            &&& t.categories.contains_key(id) <==> d.tables.categories.contains_key(id)
            &&& d.tables.categories.contains_key(id) ==> t.categories[id]
                == d.tables.categories[id]
        },
        forall|c: i32, p: i32| #[trigger]
            d.run(category_writes(list)).tables.parents.contains((c, p))
                <==> d.tables.parents.contains((c, p)) || parent_rows(list).contains((c, p)),
        d.run(category_writes(list)).tables.addons == d.tables.addons,
        d.run(category_writes(list)).tables.installed == d.tables.installed,
        d.run(category_writes(list)).tables.dirs == d.tables.dirs,
        d.run(category_writes(list)).tables.dependencies == d.tables.dependencies,
        d.run(category_writes(list)).tables.details == d.tables.details,
{
    lemma_categorised(d, list);
    lemma_all_categories(d.tables.categories, category_rows(list), id);
}

/// Storing the same categories twice does no more than storing them once.
pub proof fn law_categories_are_idempotent(d: DatabaseView, list: Seq<CategoryItemRow>)
    ensures
        d.run(category_writes(list)).run(category_writes(list)).tables == d.run(
            category_writes(list),
        ).tables,
        d.run(category_writes(list)).accepts(category_writes(list)) <==> d.accepts(
            category_writes(list),
        ),
{
    let first = d.run(category_writes(list));
    lemma_categorised(d, list);
    lemma_categorised(first, list);
    let once = first.tables.categories;
    let twice = all_categories(once, category_rows(list));
    assert forall|id: i32|
        #![trigger once.dom().contains(id)]
        #![trigger twice.dom().contains(id)]
        once.dom().contains(id) == twice.dom().contains(id) && (once.dom().contains(id)
            ==> once[id] == twice[id]) by {
        lemma_all_categories(d.tables.categories, category_rows(list), id);
        lemma_all_categories(once, category_rows(list), id);
    }
    assert(once =~= twice);
    assert(first.tables.parents.union(parent_rows(list).to_set()) =~= first.tables.parents);
}

/// The parent of a category of the list is among the parents of the list.
proof fn lemma_parent_row(list: Seq<CategoryItemRow>, i: int, k: int)
    requires
        0 <= i < list.len(),
        0 <= k < list[i].parent_ids.len(),
    ensures
        parent_rows(list).contains(
            (number_of(list[i].id)->0, number_of(list[i].parent_ids[k])->0),
        ),
    decreases list.len(),
{
    let rest = list.drop_last();
    let row = (number_of(list[i].id)->0, number_of(list[i].parent_ids[k])->0);
    if i < rest.len() {
        lemma_parent_row(rest, i, k);
        let m = parent_rows(rest).index_of(row);
        assert(parent_rows(list)[m] == row);
    } else {
        assert(parents_of(list.last())[k] == row);
        assert(parent_rows(list)[parent_rows(rest).len() + k] == row);
    }
}

/// A category of the list is shown below each of its parents that the catalogue has, but for the
/// root.
pub proof fn law_categories_are_shown(
    d: DatabaseView,
    list: Seq<CategoryItemRow>,
    i: int,
    k: int,
)
    requires
        0 <= i < list.len(),
        0 <= k < list[i].parent_ids.len(),
        number_of(list[i].parent_ids[k])->0 != 0,
        d.run(category_writes(list)).tables.categories.contains_key(
            number_of(list[i].parent_ids[k])->0,
        ),
    ensures
        is_parent(d.run(category_writes(list)).tables, number_of(list[i].parent_ids[k])->0),
        is_child(
            d.run(category_writes(list)).tables,
            number_of(list[i].id)->0,
            number_of(list[i].parent_ids[k])->0,
        ),
{
    let id = number_of(list[i].id)->0;
    let parent = number_of(list[i].parent_ids[k])->0;
    let rows = category_rows(list);
    law_categories_are_stored(d, list, id);
    lemma_parent_row(list, i, k);
    assert(rows[i].id == id);
    lemma_last_category(rows, id, i);
    assert(d.run(category_writes(list)).tables.parents.contains((id, parent)));
}

proof fn lemma_last_category(list: Seq<CategoryRow>, id: i32, i: int)
    requires
        0 <= i < list.len(),
        list[i].id == id,
    ensures
        last_category(list, id) >= i,
    decreases list.len(),
{
    if list.last().id != id {
        lemma_last_category(list.drop_last(), id, i);
    }
}

// ---------------------------------------------------------------------------------------------
// Searching and listing
// ---------------------------------------------------------------------------------------------

/// `a` and `b` differ at most in what patterns do not tell apart, such as the case of ASCII
/// letters.
pub open spec fn same_but_case(a: Seq<char>, b: Seq<char>) -> bool {
    a.len() == b.len() && forall|i: int| 0 <= i < a.len() ==> same_letter(#[trigger] a[i], b[i])
}

/// A text, taken as a pattern, matches every text that differs from it at most in case.
proof fn lemma_like_same(s: Seq<char>, t: Seq<char>)
    requires
        same_but_case(s, t),
    ensures
        like(s, t),
    decreases s.len(),
{
    if s.len() > 0 {
        assert forall|i: int| 0 <= i < s.skip(1).len() implies same_letter(
            #[trigger] s.skip(1)[i],
            t.skip(1)[i],
        ) by {
            assert(same_letter(s[i + 1], t[i + 1]));
        }
        law_letters_are_compared(s[0], t[0]);
        lemma_like_same(s.skip(1), t.skip(1));
        if s[0] == '%' {
            lemma_percent_skips(s, t);
        }
    }
}

/// A pattern that starts with `%` matches where it matches further on.
proof fn lemma_percent_skips(p: Seq<char>, t: Seq<char>)
    requires
        p.len() > 0,
        p[0] == '%',
        t.len() > 0,
        like(p.skip(1), t.skip(1)),
    ensures
        like(p, t),
{
    assert(like(p, t.skip(1)));
}

/// A pattern that starts with `%` matches a text if its rest matches an end of the text.
proof fn lemma_percent_finds(p: Seq<char>, t: Seq<char>, i: int)
    requires
        p.len() > 0,
        p[0] == '%',
        0 <= i <= t.len(),
        like(p.skip(1), t.skip(i)),
    ensures
        like(p, t),
    decreases i,
{
    if i == 0 {
        assert(t.skip(0) =~= t);
    } else {
        assert(t.skip(1).skip(i - 1) =~= t.skip(i));
        lemma_percent_finds(p, t.skip(1), i - 1);
    }
}

/// What matches a pattern still matches if `%` and any text are put behind.
proof fn lemma_like_more(p: Seq<char>, t: Seq<char>, more: Seq<char>)
    requires
        like(p, t),
    ensures
        like(p.push('%'), t + more),
    decreases p.len(), t.len(),
{
    let q = p.push('%');
    if p.len() == 0 {
        assert(t + more =~= more);
        assert(q.skip(1) =~= Seq::<char>::empty());
        assert(more.skip(more.len() as int) =~= Seq::<char>::empty());
        lemma_percent_finds(q, more, more.len() as int);
    } else {
        assert(q.skip(1) =~= p.skip(1).push('%'));
        if p[0] == '%' {
            if like(p.skip(1), t) {
                lemma_like_more(p.skip(1), t, more);
            } else {
                lemma_like_more(p, t.skip(1), more);
                assert((t + more).skip(1) =~= t.skip(1) + more);
            }
        } else {
            lemma_like_more(p.skip(1), t.skip(1), more);
            assert((t + more).skip(1) =~= t.skip(1) + more);
        }
    }
}

/// A search finds every name that holds the searched text, wherever it stands in front of the
/// first null character of the name, and whatever the case of its ASCII letters.
pub proof fn law_search_finds(
    s: Seq<char>,
    before: Seq<char>,
    found: Seq<char>,
    behind: Seq<char>,
)
    requires
        same_but_case(s, found),
        !before.contains('\0'),
    ensures
        is_found(search_pattern(s), before + found + behind),
{
    reveal_strlit("%");
    let p = search_pattern(s);
    let t = before + found + behind;
    let n = null_at(s);
    lemma_null_at(s);
    assert forall|i: int| 0 <= i < found.len() implies (#[trigger] found[i] == '\0' <==> s[i]
        == '\0') by {
        assert(same_letter(s[i], found[i]));
    }
    assert forall|i: int| 0 <= i < before.len() implies #[trigger] before[i] != '\0' by {
        assert(before.contains(before[i]));
    }
    if n < s.len() {
        assert forall|i: int| 0 <= i < 1 + n implies #[trigger] p[i] != '\0' by {
            if i > 0 {
                assert(s[i - 1] != '\0');
            }
        }
        lemma_first_null(p, 1 + n);
        assert forall|i: int| 0 <= i < before.len() + n implies #[trigger] t[i] != '\0' by {
            if i >= before.len() {
                assert(s[i - before.len()] != '\0');
                assert(found[i - before.len()] != '\0');
            }
        }
        assert(found[n] == '\0');
        lemma_first_null(t, before.len() + n);
        let cut = t.take(before.len() + n);
        assert(p.take(1 + n).skip(1) =~= s.take(n));
        assert(cut.skip(before.len() as int) =~= found.take(n));
        assert(same_but_case(s.take(n), found.take(n)));
        lemma_like_same(s.take(n), found.take(n));
        lemma_percent_finds(p.take(1 + n), cut, before.len() as int);
    } else {
        assert forall|i: int| 0 <= i < p.len() implies #[trigger] p[i] != '\0' by {
            if 0 < i <= s.len() {
                assert(s[i - 1] != '\0');
            }
        }
        lemma_first_null(p, p.len() as int);
        assert(p.take(p.len() as int) =~= p);
        let k = null_at(behind);
        lemma_null_at(behind);
        let held = before.len() + found.len();
        assert forall|i: int| 0 <= i < held + k implies #[trigger] t[i] != '\0' by {
            if before.len() <= i < held {
                assert(s[i - before.len()] != '\0');
                assert(found[i - before.len()] != '\0');
            } else if i >= held {
                assert(behind[i - held] != '\0');
            }
        }
        lemma_first_null(t, held + k);
        let cut = t.take(held + k);
        lemma_like_same(s, found);
        lemma_like_more(s, found, behind.take(k));
        assert(p.skip(1) =~= s.push('%'));
        assert(cut.skip(before.len() as int) =~= found + behind.take(k));
        lemma_percent_finds(p, cut, before.len() as int);
    }
}

/// The searched text has no wildcards.
pub open spec fn is_literal(s: Seq<char>) -> bool {
    forall|i: int| 0 <= i < s.len() ==> #[trigger] s[i] != '%' && s[i] != '_'
}

/// A literal with `%` behind it matches only what starts with the literal.
proof fn lemma_like_starts(s: Seq<char>, t: Seq<char>)
    requires
        is_literal(s),
        like(s.push('%'), t),
    ensures
        s.len() <= t.len(),
        same_but_case(s, t.take(s.len() as int)),
    decreases s.len(),
{
    if s.len() > 0 {
        let p = s.push('%');
        assert(p[0] == s[0]);
        assert(p.skip(1) =~= s.skip(1).push('%'));
        assert forall|i: int| 0 <= i < s.skip(1).len() implies #[trigger] s.skip(1)[i] != '%'
            && s.skip(1)[i] != '_' by {
            assert(s[i + 1] != '%');
        }
        lemma_like_starts(s.skip(1), t.skip(1));
        law_letters_are_compared(s[0], t[0]);
        assert forall|i: int| 0 <= i < s.len() implies same_letter(
            #[trigger] s[i],
            t.take(s.len() as int)[i],
        ) by {
            if i > 0 {
                assert(s.skip(1)[i - 1] == s[i]);
                assert(t.skip(1).take(s.len() - 1)[i - 1] == t[i]);
            }
        }
    }
}

proof fn lemma_like_found(s: Seq<char>, t: Seq<char>) -> (i: int)
    requires
        is_literal(s),
        like(seq!['%'] + s.push('%'), t),
    ensures
        0 <= i <= t.len() - s.len(),
        same_but_case(s, t.subrange(i, i + s.len())),
    decreases t.len(),
{
    let p = seq!['%'] + s.push('%');
    assert(p.skip(1) =~= s.push('%'));
    if like(s.push('%'), t) {
        lemma_like_starts(s, t);
        assert(t.take(s.len() as int) =~= t.subrange(0, s.len() as int));
        0
    } else {
        let i = lemma_like_found(s, t.skip(1));
        assert(t.skip(1).subrange(i, i + s.len()) =~= t.subrange(i + 1, i + 1 + s.len()));
        i + 1
    }
}

/// A search for a text without wildcards and null characters finds only names that hold the text
/// in front of their first null character, up to the case of ASCII letters.
pub proof fn law_search_finds_only(s: Seq<char>, name: Seq<char>) -> (i: int)
    requires
        is_literal(s),
        !s.contains('\0'),
        is_found(search_pattern(s), name),
    ensures
        0 <= i <= null_at(name) - s.len(),
        null_at(name) <= name.len(),
        same_but_case(s, name.subrange(i, i + s.len())),
{
    reveal_strlit("%");
    let p = search_pattern(s);
    assert(p =~= seq!['%'] + s.push('%'));
    assert forall|i: int| 0 <= i < p.len() implies #[trigger] p[i] != '\0' by {
        if 0 < i <= s.len() {
            assert(s.contains(s[i - 1]));
        }
    }
    lemma_first_null(p, p.len() as int);
    assert(p.take(p.len() as int) =~= p);
    lemma_null_at(name);
    let cut = name.take(null_at(name));
    let i = lemma_like_found(s, cut);
    assert(cut.subrange(i, i + s.len()) =~= name.subrange(i, i + s.len()));
    i
}

/// The answer to a search shows exactly the addons whose category the catalogue has and whose
/// name matches, each once and as lists show it.
pub proof fn law_search_is_exact(t: Tables, s: Seq<char>, rows: Seq<ShowRow>)
    requires
        answers_search(t, s, rows),
    ensures
        forall|id: i32| #[trigger]
            shows(rows, id) <==> passes(t, FilterView::Named(search_pattern(s)), id),
        forall|i: int| 0 <= i < rows.len() ==> #[trigger] rows[i] == list_row(t, rows[i].id),
        forall|i: int, j: int|
            0 <= i < j < rows.len() ==> (#[trigger] rows[i]).id != (#[trigger] rows[j]).id,
{
    broadcast use vstd::seq_lib::group_to_multiset_ensures;

    let f = FilterView::Named(search_pattern(s));
    let l = choose|l: Seq<ShowRow>|
        #[trigger] is_listing(t, f, l) && rows.to_multiset() == l.to_multiset();
    assert forall|r: ShowRow| rows.contains(r) <==> #[trigger] l.contains(r) by {
        assert(rows.to_multiset().count(r) == l.to_multiset().count(r));
    }
    assert forall|i: int| 0 <= i < rows.len() implies #[trigger] rows[i] == list_row(t, rows[i].id)
        && passes(t, f, rows[i].id) by {
        assert(rows.contains(rows[i]));
        assert(l.contains(rows[i]));
        let k = l.index_of(rows[i]);
        assert(passes(t, f, l[k].id));
    }
    assert forall|id: i32| #[trigger] shows(rows, id) <==> passes(t, f, id) by {
        if passes(t, f, id) {
            assert(shows(l, id));
            let k = choose|k: int| 0 <= k < l.len() && (#[trigger] l[k]).id == id;
            assert(l.contains(l[k]));
            let i = rows.index_of(l[k]);
            assert(rows[i].id == id);
        }
    }
    assert(l.no_duplicates()) by {
        assert forall|i: int, j: int| 0 <= i < l.len() && 0 <= j < l.len() && i != j implies l[i]
            != l[j] by {
            if i < j {
                assert(l[i].id < l[j].id);
            } else {
                assert(l[j].id < l[i].id);
            }
        }
    }
    l.lemma_multiset_has_no_duplicates();
    rows.lemma_multiset_has_no_duplicates_conv();
    assert forall|i: int, j: int| 0 <= i < j < rows.len() implies (#[trigger] rows[i]).id != (
    #[trigger] rows[j]).id by {
        if rows[i].id == rows[j].id {
            assert(rows[i] == rows[j]);
        }
    }
}

/// There is one answer only: two listings with the same filter are equal.
pub proof fn law_listing_is_unique(t: Tables, f: FilterView, a: Seq<ShowRow>, b: Seq<ShowRow>)
    requires
        is_listing(t, f, a),
        is_listing(t, f, b),
    ensures
        a == b,
    decreases a.len(),
{
    lemma_listing_at(t, f, a, b, a.len() as int);
    lemma_listing_at(t, f, b, a, b.len() as int);
    assert(a =~= b);
}

/// The first `n` rows of one listing are those of the other.
proof fn lemma_listing_at(t: Tables, f: FilterView, a: Seq<ShowRow>, b: Seq<ShowRow>, n: int)
    requires
        is_listing(t, f, a),
        is_listing(t, f, b),
        0 <= n <= a.len(),
    ensures
        n <= b.len(),
        forall|i: int| 0 <= i < n ==> #[trigger] a[i] == b[i],
    decreases n,
{
    if n > 0 {
        lemma_listing_at(t, f, a, b, n - 1);
        let k = a[n - 1].id;
        assert(passes_of(t, f, a, n - 1));
        let m = choose|m: int| 0 <= m < b.len() && (#[trigger] b[m]).id == k;
        if m < n - 1 {
            assert(a[m] == b[m]);
            assert(a[m].id < a[n - 1].id);
        }
        if m > n - 1 {
            let x = b[n - 1].id;
            assert(x < b[m].id);
            assert(passes_of(t, f, b, n - 1));
            let j = choose|j: int| 0 <= j < a.len() && (#[trigger] a[j]).id == x;
            if j < n - 1 {
                assert(a[j] == b[j]);
                assert(b[j].id < b[n - 1].id);
            } else if j > n - 1 {
                assert(a[n - 1].id < a[j].id);
            }
        }
        assert(b[n - 1].id == k);
    }
}

/// Row `i` of a listing passes the filter.
spec fn passes_of(t: Tables, f: FilterView, rows: Seq<ShowRow>, i: int) -> bool {
    passes(t, f, rows[i].id)
}

// ---------------------------------------------------------------------------------------------
// Importing
// ---------------------------------------------------------------------------------------------

/// An import goes on as long as the installation of one addon is not done: one that failed keeps
/// it from ending, and one that is done never comes back.
pub proof fn law_import_waits_for_all(pending: Seq<i32>, states: Seq<InstallState>)
    requires
        pending.len() == states.len(),
        pending.no_duplicates(),
    ensures
        left_over(pending, states).len() == 0 <==> forall|i: int|
            0 <= i < states.len() ==> #[trigger] states[i] == InstallState::Success,
        forall|i: int|
            0 <= i < pending.len() ==> (left_over(pending, states).contains(#[trigger] pending[i])
                <==> states[i] != InstallState::Success),
{
    lemma_left_over(pending, states);
    let rest = left_over(pending, states);
    assert forall|i: int| 0 <= i < pending.len() implies (rest.contains(#[trigger] pending[i])
        <==> states[i] != InstallState::Success) by {
        if rest.contains(pending[i]) {
            let j = choose|j: int|
                0 <= j < pending.len() && #[trigger] pending[j] == pending[i] && states[j]
                    != InstallState::Success;
            assert(i == j);
        }
    }
    if rest.len() == 0 {
        assert forall|i: int| 0 <= i < states.len() implies #[trigger] states[i]
            == InstallState::Success by {
            assert(!rest.contains(pending[i]));
        }
    } else {
        assert(rest.contains(rest[0]));
        let j = choose|j: int|
            0 <= j < pending.len() && #[trigger] pending[j] == rest[0] && states[j]
                != InstallState::Success;
        assert(states[j] != InstallState::Success);
    }
}

// ---------------------------------------------------------------------------------------------
// Settings
// ---------------------------------------------------------------------------------------------

/// A service that starts from the settings that are saved after a refresh asks the addresses that
/// the refresh used; the addon directory stays.
pub proof fn law_settings_keep_addresses(c: ConfigView, used: ApiView, fresh: ApiView)
    ensures
        fresh.with_config(c.with_api(used)) == (ApiView {
            endpoint_url: fresh.endpoint_url,
            ..used
        }),
        c.with_api(used).addon_dir == c.addon_dir,
{
}

// ---------------------------------------------------------------------------------------------
// Archives
// ---------------------------------------------------------------------------------------------

/// Every step unpacks an entry of the archive whose name is a path below the addon directory, to
/// the path that the name gives; the steps come in the order of the entries, none twice. No path
/// starts at the root, holds a null character or leads out of the addon directory: split at
/// slashes if it has no backslash, and otherwise split at slashes or at both, as the machine
/// splits it.
pub proof fn law_steps_stay_inside(
    c: Contents,
    list: Seq<Option<(Seq<char>, Option<Seq<u8>>)>>,
    inside: Option<Seq<char>>,
)
    requires
        c.reads(list),
    ensures
        steps_of(c.entries@, inside).len() <= c.entries@.len(),
        forall|i: int|
            0 <= i < steps_of(c.entries@, inside).len() ==> {
                let s = #[trigger] steps_of(c.entries@, inside)[i];
                &&& 0 <= s.entry < c.entries@.len()
                &&& c.entries@[s.entry].enclosed is Some
                &&& s.path == target(inside, c.entries@[s.entry].enclosed->0@)
                &&& s.path.last() == entry_name(list[s.entry])
                &&& is_enclosed(s.path.last())
                &&& !s.path.last().contains('\\') ==> stays_below(s.path.last())
            },
        forall|i: int, j: int|
            0 <= i < j < steps_of(c.entries@, inside).len() ==> (#[trigger] steps_of(
                c.entries@,
                inside,
            )[i]).entry < (#[trigger] steps_of(c.entries@, inside)[j]).entry,
{
    lemma_steps(c.entries@, inside);
    assert forall|i: int| 0 <= i < steps_of(c.entries@, inside).len() implies {
        let s = #[trigger] steps_of(c.entries@, inside)[i];
        &&& 0 <= s.entry < c.entries@.len()
        &&& c.entries@[s.entry].enclosed is Some
        &&& s.path == target(inside, c.entries@[s.entry].enclosed->0@)
        &&& s.path.last() == entry_name(list[s.entry])
        &&& is_enclosed(s.path.last())
        &&& !s.path.last().contains('\\') ==> stays_below(s.path.last())
    } by {
        let s = steps_of(c.entries@, inside)[i];
        let e = c.entries@[s.entry];
        if !s.path.last().contains('\\') {
            lemma_slashed(s.path.last());
        }
    }
}

/// Without a backslash there is nothing to take for a slash.
proof fn lemma_slashed(p: Seq<char>)
    requires
        !p.contains('\\'),
    ensures
        slashed(p) == p,
{
    assert(slashed(p) =~= p);
}

/// An entry whose name starts at the root, holds a null character or leads out of the addon
/// directory however it is split writes nothing.
pub proof fn law_climbing_names_write_nothing(
    c: Contents,
    list: Seq<Option<(Seq<char>, Option<Seq<u8>>)>>,
    inside: Option<Seq<char>>,
    k: int,
)
    requires
        c.reads(list),
        0 <= k < c.entries@.len(),
        !is_enclosed(entry_name(list[k])),
    ensures
        forall|i: int|
            0 <= i < steps_of(c.entries@, inside).len() ==> (#[trigger] steps_of(
                c.entries@,
                inside,
            )[i]).entry != k,
{
    law_steps_stay_inside(c, list, inside);
}

proof fn lemma_steps(entries: Seq<ArchiveEntry>, inside: Option<Seq<char>>)
    ensures
        steps_of(entries, inside).len() <= entries.len(),
        forall|i: int|
            0 <= i < steps_of(entries, inside).len() ==> {
                let s = #[trigger] steps_of(entries, inside)[i];
                &&& 0 <= s.entry < entries.len()
                &&& entries[s.entry].enclosed is Some
                &&& s.path == target(inside, entries[s.entry].enclosed->0@)
            },
        forall|i: int, j: int|
            0 <= i < j < steps_of(entries, inside).len() ==> (#[trigger] steps_of(
                entries,
                inside,
            )[i]).entry < (#[trigger] steps_of(entries, inside)[j]).entry,
    decreases entries.len(),
{
    if entries.len() > 0 {
        let rest = entries.drop_last();
        lemma_steps(rest, inside);
        let all = steps_of(entries, inside);
        let before = steps_of(rest, inside);
        assert forall|i: int| 0 <= i < all.len() implies {
            let s = #[trigger] all[i];
            &&& 0 <= s.entry < entries.len()
            &&& entries[s.entry].enclosed is Some
            &&& s.path == target(inside, entries[s.entry].enclosed->0@)
        } by {
            if i < before.len() {
                assert(all[i] == before[i]);
                assert(rest[before[i].entry] == entries[before[i].entry]);
            }
        }
        assert forall|i: int, j: int| 0 <= i < j < all.len() implies (#[trigger] all[i]).entry < (
        #[trigger] all[j]).entry by {
            assert(all[i] == before[i]);
            if j < before.len() {
                assert(all[j] == before[j]);
            }
        }
    }
}

/// An archive that opens and whose entries can all be opened and unpacked is unpacked whole:
/// each entry whose name is a path below the addon directory has its step.
pub proof fn law_whole_archive_is_unpacked(c: Contents, inside: Option<Seq<char>>, k: int)
    requires
        !has_broken(c.entries@),
        0 <= k < c.entries@.len(),
        c.entries@[k].enclosed is Some,
    ensures
        exists|i: int|
            0 <= i < steps_of(c.entries@, inside).len() && (#[trigger] steps_of(
                c.entries@,
                inside,
            )[i]).entry == k,
{
    lemma_step_of(c.entries@, inside, k);
}

/// An entry of such an archive whose name, on every machine, is a path below a directory is
/// unpacked to that path.
pub proof fn law_sound_names_are_unpacked(
    c: Contents,
    list: Seq<Option<(Seq<char>, Option<Seq<u8>>)>>,
    inside: Option<Seq<char>>,
    k: int,
)
    requires
        c.reads(list),
        !has_broken(c.entries@),
        0 <= k < c.entries@.len(),
        is_enclosed_everywhere(entry_name(list[k])),
    ensures
        exists|i: int|
            0 <= i < steps_of(c.entries@, inside).len() && (#[trigger] steps_of(
                c.entries@,
                inside,
            )[i]).entry == k && steps_of(c.entries@, inside)[i].path == target(
                inside,
                entry_name(list[k]),
            ),
{
    assert(c.entries@[k].enclosed is Some);
    law_whole_archive_is_unpacked(c, inside, k);
    law_steps_stay_inside(c, list, inside);
    let i = choose|i: int|
        0 <= i < steps_of(c.entries@, inside).len() && (#[trigger] steps_of(
            c.entries@,
            inside,
        )[i]).entry == k;
    assert(steps_of(c.entries@, inside)[i].path == target(inside, entry_name(list[k])));
}

/// The directory in which an addon lies is the first part of the first entry's name that names a
/// directory or file, where every machine splits the name alike.
pub proof fn law_addon_lies_in_first_part(
    c: Contents,
    list: Seq<Option<(Seq<char>, Option<Seq<u8>>)>>,
    path: Vec<String>,
)
    requires
        c.reads(list),
        is_addon_path(Ok(path), c),
        splits_alike(before_null(entry_name(list[0]))),
    ensures
        ({
            let parts = naming_parts(pieces(slashed(before_null(entry_name(list[0]))), '/'));
            texts_of(path@) == (if parts.len() > 0 {
                parts.take(1)
            } else {
                Seq::empty()
            })
        }),
{
    let plain = c.entries@[0].plain_parts@;
    let parts = naming_parts(pieces(slashed(before_null(entry_name(list[0]))), '/'));
    assert(texts_of(plain) == parts);
    if parts.len() > 0 {
        assert(texts_of(plain.take(1)) =~= texts_of(plain).take(1));
    } else {
        assert(texts_of(Seq::<String>::empty()) =~= Seq::empty());
    }
}

proof fn lemma_step_of(entries: Seq<ArchiveEntry>, inside: Option<Seq<char>>, k: int)
    requires
        !has_broken(entries),
        0 <= k < entries.len(),
        entries[k].enclosed is Some,
    ensures
        exists|i: int|
            0 <= i < steps_of(entries, inside).len() && (#[trigger] steps_of(
                entries,
                inside,
            )[i]).entry == k,
    decreases entries.len(),
{
    let rest = entries.drop_last();
    let all = steps_of(entries, inside);
    assert(!has_broken(rest)) by {
        if has_broken(rest) {
            let i = choose|i: int|
                0 <= i < rest.len() && is_broken(#[trigger] rest[i]);
            assert(is_broken(entries[i]));
        }
    }
    if k == entries.len() - 1 {
        assert(all[all.len() - 1].entry == k);
    } else {
        assert(rest[k] == entries[k]);
        lemma_step_of(rest, inside, k);
        let i = choose|i: int|
            0 <= i < steps_of(rest, inside).len() && (#[trigger] steps_of(rest, inside)[i]).entry
                == k;
        assert(all[i] == steps_of(rest, inside)[i]);
    }
}

// ---------------------------------------------------------------------------------------------
// Migrations
// ---------------------------------------------------------------------------------------------

proof fn lemma_before_at(a: Seq<char>, b: Seq<char>, n: int)
    requires
        0 <= n < a.len(),
        n < b.len(),
        forall|i: int| 0 <= i < n ==> a[i] == b[i],
        a[n] < b[n],
    ensures
        text_before(a, b),
    decreases n,
{
    if n > 0 {
        assert forall|i: int| 0 <= i < n - 1 implies a.skip(1)[i] == b.skip(1)[i] by {
            assert(a[i + 1] == b[i + 1]);
        }
        lemma_before_at(a.skip(1), b.skip(1), n - 1);
    }
}

/// The steps of the catalogue file are taken in the order of their names, which begin with the
/// time they were made.
pub proof fn law_migrations_are_in_order(i: int, j: int)
    requires
        0 <= i < j < migration_names().len(),
    ensures
        text_before(migration_names()[i], migration_names()[j]),
{
    reveal_strlit("m20220101_000001_create_table");
    reveal_strlit("m20230208_165547_add_categories");
    reveal_strlit("m20230302_100852_addon_detail_version");
    reveal_strlit("m20230519_153409_manual_deps");
    if i == 0 {
        lemma_before_at(migration_names()[i], migration_names()[j], 4);
    } else {
        lemma_before_at(migration_names()[i], migration_names()[j], 6);
    }
}

// ---------------------------------------------------------------------------------------------
// Relations
// ---------------------------------------------------------------------------------------------

/// An installed addon belongs to the addon that has it: the two relations are one join, seen
/// from its two sides.
pub proof fn law_relations_are_inverse()
    ensures
        installed_addon::Relation::Addon.join().reversed()
            == addon::Relation::InstalledAddon.join(),
{
}

} // verus!
