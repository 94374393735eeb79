//! What holds of refreshing, installing and removing, told from what the service is handed.

use vstd::prelude::*;
use crate::api::{CategoryItem, CategoryItemRow, FileDetails, FileListItem, FileListRow};
use crate::database::{
    lemma_run_none, lemma_run_push, DatabaseView, ListingRow, Tables, WriteView,
};
use crate::entity::category::CategoryRow;
use crate::entity::installed_addon;
use crate::laws::{
    last_category, last_listing, law_categories_are_stored, law_install_records_dependencies,
    law_refresh_keeps, law_refresh_lists, law_refresh_replaces_dirs, law_refresh_succeeds,
};
use crate::service::install::{
    are_dirs_of, detail_writes, install_writes, is_current, record_of,
};
use crate::service::update::{
    all_categories_numbered, all_files_numbered, category_rows, category_writes, dir_rows, dirs_in,
    ids_of, listings, parent_rows, parents_of, update_writes,
};
use crate::table::views;
use crate::text::{number_of, texts_of};

verus! {

// ---------------------------------------------------------------------------------------------
// Directories of a list
// ---------------------------------------------------------------------------------------------

/// The item `i` of the list gives the addon `id` its directory `k`.
pub open spec fn gives_dir(
    list: Seq<FileListItem>,
    i: int,
    k: int,
    id: i32,
    dir: Seq<char>,
) -> bool {
    &&& 0 <= i < list.len()
    &&& 0 <= k < list[i].directories@.len()
    &&& number_of(list[i].id@) == Some(id)
    &&& list[i].directories@[k]@ == dir
}

/// Every item of the list has a number.
pub open spec fn all_numbered(list: Seq<FileListItem>) -> bool {
    forall|i: int| 0 <= i < list.len() ==> number_of((#[trigger] list[i]).id@) is Some
}

/// What is asked of a list before it is stored is that every item has a number.
pub proof fn law_lists_need_numbers(list: Seq<FileListItem>, categories: Seq<CategoryItem>)
    ensures
        all_files_numbered(views(list)) <==> all_numbered(list),
        all_categories_numbered(views(categories)) <==> all_counted(categories),
{
    let rows = views(list);
    if all_files_numbered(rows) {
        assert forall|i: int| 0 <= i < list.len() implies number_of(
            (#[trigger] list[i]).id@,
        ) is Some by {
            assert(rows[i].is_numbered());
        }
    }
    if all_numbered(list) {
        assert forall|i: int| 0 <= i < rows.len() implies (#[trigger] rows[i]).is_numbered() by {
            assert(number_of(list[i].id@) is Some);
        }
    }
    let kinds = views(categories);
    if all_categories_numbered(kinds) {
        assert forall|i: int| 0 <= i < categories.len() implies {
            &&& number_of((#[trigger] categories[i]).id@) is Some
            &&& number_of(categories[i].file_count@) is Some
            &&& forall|k: int|
                0 <= k < categories[i].parent_ids@.len() ==> number_of(
                    (#[trigger] categories[i].parent_ids@[k])@,
                ) is Some
        } by {
            assert(kinds[i].is_numbered());
            assert forall|k: int| 0 <= k < categories[i].parent_ids@.len() implies number_of(
                (#[trigger] categories[i].parent_ids@[k])@,
            ) is Some by {
                assert(number_of(kinds[i].parent_ids[k]) is Some);
            }
        }
    }
    if all_counted(categories) {
        assert forall|i: int| 0 <= i < kinds.len() implies (#[trigger] kinds[i]).is_numbered() by {
            assert(number_of(categories[i].id@) is Some);
            assert forall|k: int| 0 <= k < kinds[i].parent_ids.len() implies number_of(
                #[trigger] kinds[i].parent_ids[k],
            ) is Some by {
                assert(kinds[i].parent_ids[k] == categories[i].parent_ids@[k]@);
            }
        }
    }
}

/// Where the directory `k` of the item `i` stands among all directories.
spec fn place(list: Seq<FileListRow>, i: int, k: int) -> int {
    dir_rows(list.take(i)).len() + k
}

proof fn lemma_place(list: Seq<FileListRow>, i: int, k: int)
    requires
        0 <= i < list.len(),
        0 <= k < list[i].directories.len(),
    ensures
        0 <= place(list, i, k) < dir_rows(list).len(),
        dir_rows(list)[place(list, i, k)] == (number_of(list[i].id)->0, list[i].directories[k]),
        dir_rows(list.take(i + 1)).len() == place(list, i, 0) + list[i].directories.len(),
        dir_rows(list.take(i + 1)).len() <= dir_rows(list).len(),
    decreases list.len(),
{
    let rest = list.drop_last();
    assert(list.take(i + 1).drop_last() =~= list.take(i));
    if i < rest.len() {
        lemma_place(rest, i, k);
        assert(rest.take(i) =~= list.take(i));
        assert(rest.take(i + 1) =~= list.take(i + 1));
        assert(rest[i] == list[i]);
    } else {
        assert(list.take(i) =~= rest);
        assert(list.take(i + 1) =~= list);
        assert(dirs_in(list[i])[k] == (number_of(list[i].id)->0, list[i].directories[k]));
    }
}

proof fn lemma_rows_grow(list: Seq<FileListRow>, i: int, j: int)
    requires
        0 <= i <= j <= list.len(),
    ensures
        dir_rows(list.take(i)).len() <= dir_rows(list.take(j)).len(),
    decreases j - i,
{
    if i < j {
        lemma_rows_grow(list, i, j - 1);
        assert(list.take(j).drop_last() =~= list.take(j - 1));
    }
}

proof fn lemma_placed(list: Seq<FileListRow>, n: int) -> (r: (int, int))
    requires
        0 <= n < dir_rows(list).len(),
    ensures
        0 <= r.0 < list.len(),
        0 <= r.1 < list[r.0].directories.len(),
        place(list, r.0, r.1) == n,
    decreases list.len(),
{
    let rest = list.drop_last();
    if n < dir_rows(rest).len() {
        let r = lemma_placed(rest, n);
        assert(rest.take(r.0) =~= list.take(r.0));
        r
    } else {
        assert(list.take(list.len() - 1) =~= rest);
        (list.len() - 1, n - dir_rows(rest).len())
    }
}

proof fn lemma_given(list: Seq<FileListItem>, id: i32, dir: Seq<char>)
    requires
        all_numbered(list),
    ensures
        dir_rows(views(list)).contains((id, dir)) <==> exists|i: int, k: int| #[trigger]
            gives_dir(list, i, k, id, dir),
        ids_of(views(list)).contains(id) <==> exists|i: int|
            0 <= i < list.len() && number_of((#[trigger] list[i]).id@) == Some(id),
{
    let rows = views(list);
    if dir_rows(rows).contains((id, dir)) {
        let n = dir_rows(rows).index_of((id, dir));
        let r = lemma_placed(rows, n);
        lemma_place(rows, r.0, r.1);
        assert(rows[r.0] == list[r.0]@);
        assert(number_of(list[r.0].id@) is Some);
        assert(rows[r.0].directories[r.1] == list[r.0].directories@[r.1]@);
        assert(gives_dir(list, r.0, r.1, id, dir));
    }
    if exists|i: int, k: int| #[trigger] gives_dir(list, i, k, id, dir) {
        let (i, k) = choose|i: int, k: int| #[trigger] gives_dir(list, i, k, id, dir);
        assert(rows[i] == list[i]@);
        lemma_place(rows, i, k);
        assert(rows[i].directories[k] == list[i].directories@[k]@);
        assert(dir_rows(rows)[place(rows, i, k)] == (id, dir));
    }
    if ids_of(rows).contains(id) {
        let i = ids_of(rows).index_of(id);
        assert(rows[i] == list[i]@);
        assert(number_of(list[i].id@) is Some);
    }
    if exists|i: int| 0 <= i < list.len() && number_of((#[trigger] list[i]).id@) == Some(id) {
        let i = choose|i: int|
            0 <= i < list.len() && number_of((#[trigger] list[i]).id@) == Some(id);
        assert(rows[i] == list[i]@);
        assert(ids_of(rows)[i] == id);
    }
}

/// After a refresh that succeeds, an addon of the list has exactly the directories that the items
/// of its number give it, each of them; an addon that the list does not have keeps its own.
pub proof fn law_refresh_stores_every_directory(
    d: DatabaseView,
    list: Seq<FileListItem>,
    id: i32,
    dir: Seq<char>,
)
    requires
        all_numbered(list),
        d.accepts(update_writes(views(list))),
    ensures
        (exists|i: int| 0 <= i < list.len() && number_of((#[trigger] list[i]).id@) == Some(id))
            ==> (d.run(update_writes(views(list))).tables.dirs.contains((id, dir)) <==> exists|
            i: int,
            k: int,
        | #[trigger]
            gives_dir(list, i, k, id, dir)),
        (forall|i: int| 0 <= i < list.len() ==> number_of((#[trigger] list[i]).id@) != Some(id))
            ==> (d.run(update_writes(views(list))).tables.dirs.contains((id, dir))
            <==> d.tables.dirs.contains((id, dir))),
{
    lemma_given(list, id, dir);
    law_refresh_replaces_dirs(d, views(list));
}

/// After a refresh that succeeds, each directory of each item of the list is stored.
pub proof fn law_refresh_loses_no_directory(
    d: DatabaseView,
    list: Seq<FileListItem>,
    i: int,
    k: int,
)
    requires
        all_numbered(list),
        d.accepts(update_writes(views(list))),
        0 <= i < list.len(),
        0 <= k < list[i].directories@.len(),
    ensures
        d.run(update_writes(views(list))).tables.dirs.contains(
            (number_of(list[i].id@)->0, list[i].directories@[k]@),
        ),
{
    let id = number_of(list[i].id@)->0;
    let dir = list[i].directories@[k]@;
    assert(number_of(list[i].id@) is Some);
    assert(gives_dir(list, i, k, id, dir));
    law_refresh_stores_every_directory(d, list, id, dir);
}

/// A refresh succeeds exactly if an item of the list has a directory, and no directory is given
/// to an addon twice.
pub proof fn law_refresh_succeeds_on_distinct_directories(d: DatabaseView, list: Seq<FileListItem>)
    requires
        all_numbered(list),
    ensures
        d.accepts(update_writes(views(list))) <==> {
            &&& exists|i: int|
                0 <= i < list.len() && (#[trigger] list[i]).directories@.len() > 0
            &&& forall|i: int, k: int, j: int, m: int, id: i32, dir: Seq<char>| #[trigger]
                gives_dir(list, i, k, id, dir) && #[trigger] gives_dir(list, j, m, id, dir) ==> i
                    == j && k == m
        },
{
    let rows = views(list);
    let all = dir_rows(rows);
    law_refresh_succeeds(d, rows);
    assert(all.len() > 0 <==> exists|i: int|
        0 <= i < list.len() && (#[trigger] list[i]).directories@.len() > 0) by {
        if all.len() > 0 {
            let r = lemma_placed(rows, 0);
            assert(rows[r.0] == list[r.0]@);
            assert(list[r.0].directories@.len() > 0);
        }
        if exists|i: int| 0 <= i < list.len() && (#[trigger] list[i]).directories@.len() > 0 {
            let i = choose|i: int|
                0 <= i < list.len() && (#[trigger] list[i]).directories@.len() > 0;
            assert(rows[i] == list[i]@);
            lemma_place(rows, i, 0);
        }
    }
    if all.no_duplicates() {
        assert forall|i: int, k: int, j: int, m: int, id: i32, dir: Seq<char>| #[trigger]
            gives_dir(list, i, k, id, dir) && #[trigger] gives_dir(list, j, m, id, dir) implies i
            == j && k == m by {
            assert(rows[i] == list[i]@ && rows[j] == list[j]@);
            assert(rows[i].directories[k] == list[i].directories@[k]@);
            assert(rows[j].directories[m] == list[j].directories@[m]@);
            lemma_place(rows, i, k);
            lemma_place(rows, j, m);
            if i < j {
                lemma_rows_grow(rows, i + 1, j);
            } else if j < i {
                lemma_rows_grow(rows, j + 1, i);
            }
        }
    }
    if forall|i: int, k: int, j: int, m: int, id: i32, dir: Seq<char>| #[trigger]
        gives_dir(list, i, k, id, dir) && #[trigger] gives_dir(list, j, m, id, dir) ==> i == j && k
            == m {
        assert forall|a: int, b: int| 0 <= a < all.len() && 0 <= b < all.len() && a != b implies all[a]
            != all[b] by {
            if all[a] == all[b] {
                let r = lemma_placed(rows, a);
                let s = lemma_placed(rows, b);
                lemma_place(rows, r.0, r.1);
                lemma_place(rows, s.0, s.1);
                assert(rows[r.0] == list[r.0]@ && rows[s.0] == list[s.0]@);
                assert(number_of(list[r.0].id@) is Some && number_of(list[s.0].id@) is Some);
                assert(rows[r.0].directories[r.1] == list[r.0].directories@[r.1]@);
                assert(rows[s.0].directories[s.1] == list[s.0].directories@[s.1]@);
                assert(gives_dir(list, r.0, r.1, all[a].0, all[a].1));
                assert(gives_dir(list, s.0, s.1, all[a].0, all[a].1));
            }
        }
    }
}

/// A refresh with an empty list changes nothing and notes nothing.
pub proof fn law_empty_refresh_changes_nothing(d: DatabaseView)
    ensures
        !d.accepts(update_writes(views(Seq::<FileListItem>::empty()))),
        d.run(update_writes(views(Seq::<FileListItem>::empty()))) == d,
{
    let none = Seq::<WriteView>::empty();
    let all = update_writes(views(Seq::<FileListItem>::empty()));
    lemma_run_none(d);
    lemma_run_push(d, none, all[0]);
    lemma_run_push(d, none.push(all[0]), all[1]);
    lemma_run_push(d, none.push(all[0]).push(all[1]), all[2]);
}

/// A refresh that fails with a list that is not empty has taken the directories of the addons of
/// the list away; an addon that the list does not have keeps its own.
pub proof fn law_failed_refresh_takes_directories_away(
    d: DatabaseView,
    list: Seq<FileListItem>,
    id: i32,
    dir: Seq<char>,
)
    requires
        list.len() > 0,
        all_numbered(list),
        !d.accepts(update_writes(views(list))),
    ensures
        (exists|i: int| 0 <= i < list.len() && number_of((#[trigger] list[i]).id@) == Some(id))
            ==> !d.run(update_writes(views(list))).tables.dirs.contains((id, dir)),
        (forall|i: int| 0 <= i < list.len() ==> number_of((#[trigger] list[i]).id@) != Some(id))
            ==> (d.run(update_writes(views(list))).tables.dirs.contains((id, dir))
            <==> d.tables.dirs.contains((id, dir))),
{
    let none = Seq::<WriteView>::empty();
    let all = update_writes(views(list));
    lemma_given(list, id, dir);
    lemma_run_none(d);
    lemma_run_push(d, none, all[0]);
    lemma_run_push(d, none.push(all[0]), all[1]);
    lemma_run_push(d, none.push(all[0]).push(all[1]), all[2]);
}

// ---------------------------------------------------------------------------------------------
// Addons of a list
// ---------------------------------------------------------------------------------------------

/// The item `i` is the last of the list with the number `id`.
pub open spec fn is_last(list: Seq<FileListItem>, i: int, id: i32) -> bool {
    &&& 0 <= i < list.len()
    &&& number_of(list[i].id@) == Some(id)
    &&& forall|j: int| i < j < list.len() ==> number_of((#[trigger] list[j]).id@) != Some(id)
}

proof fn lemma_last(list: Seq<ListingRow>, i: int, id: i32)
    requires
        0 <= i < list.len(),
        list[i].id == id,
        forall|j: int| i < j < list.len() ==> (#[trigger] list[j]).id != id,
    ensures
        last_listing(list, id) == i,
    decreases list.len(),
{
    if i < list.len() - 1 {
        assert(list[list.len() - 1].id != id);
        let rest = list.drop_last();
        assert forall|j: int| i < j < rest.len() implies (#[trigger] rest[j]).id != id by {
            assert(list[j].id != id);
        }
        lemma_last(rest, i, id);
    }
}

/// After a refresh the catalogue tells of an addon, column by column, what the last item of its
/// number tells; the columns of its file are what they were, or empty if it is new.
pub proof fn law_refresh_stores_every_column(
    d: DatabaseView,
    list: Seq<FileListItem>,
    i: int,
    id: i32,
)
    requires
        all_numbered(list),
        is_last(list, i, id),
    ensures
        ({
            let t = d.run(update_writes(views(list))).tables;
            let a = t.addons[id];
            &&& t.addons.contains_key(id)
            &&& a.id == id
            &&& a.category_id == list[i].category@
            &&& a.version == list[i].version@
            &&& a.date == list[i].date@
            &&& a.name == list[i].name@
            &&& a.author_name == Some(list[i].author_name@)
            &&& a.file_info_url == Some(list[i].file_info_url@)
            &&& a.download_total == Some(list[i].download_total@)
            &&& a.download_monthly == Some(list[i].download_monthly@)
            &&& a.favorite_total == Some(list[i].favorite_total@)
            &&& d.tables.addons.contains_key(id) ==> a.md5 == d.tables.addons[id].md5
                && a.file_name == d.tables.addons[id].file_name && a.download
                == d.tables.addons[id].download
            &&& !d.tables.addons.contains_key(id) ==> a.md5 is None && a.file_name is None
                && a.download is None
        }),
{
    let rows = views(list);
    let items = listings(rows);
    assert forall|j: int| i < j < items.len() implies (#[trigger] items[j]).id != id by {
        assert(rows[j] == list[j]@);
        assert(number_of(list[j].id@) is Some);
        assert(number_of(list[j].id@) != Some(id));
    }
    assert(rows[i] == list[i]@);
    lemma_last(items, i, id);
    law_refresh_lists(d, rows, id);
}

/// A refresh leaves an addon that no item has the number of as it was, and everything that is no
/// addon and no directory.
pub proof fn law_refresh_leaves_the_rest(d: DatabaseView, list: Seq<FileListItem>, id: i32)
    requires
        list.len() > 0,
        all_numbered(list),
        forall|j: int| 0 <= j < list.len() ==> number_of((#[trigger] list[j]).id@) != Some(id),
    ensures
        d.run(update_writes(views(list))).tables.addons.contains_key(id)
            <==> d.tables.addons.contains_key(id),
        d.tables.addons.contains_key(id) ==> d.run(update_writes(views(list))).tables.addons[id]
            == d.tables.addons[id],
        d.run(update_writes(views(list))).tables.installed == d.tables.installed,
        d.run(update_writes(views(list))).tables.dependencies == d.tables.dependencies,
        d.run(update_writes(views(list))).tables.details == d.tables.details,
        d.run(update_writes(views(list))).tables.categories == d.tables.categories,
        d.run(update_writes(views(list))).tables.parents == d.tables.parents,
{
    let rows = views(list);
    lemma_given(list, id, Seq::empty());
    law_refresh_lists(d, rows, id);
    law_refresh_keeps(d, rows);
}

// ---------------------------------------------------------------------------------------------
// Categories of a list
// ---------------------------------------------------------------------------------------------

/// Every category of the list has its numbers.
pub open spec fn all_counted(list: Seq<CategoryItem>) -> bool {
    forall|i: int|
        0 <= i < list.len() ==> {
            &&& number_of((#[trigger] list[i]).id@) is Some
            &&& number_of(list[i].file_count@) is Some
            &&& forall|k: int|
                0 <= k < list[i].parent_ids@.len() ==> number_of(
                    (#[trigger] list[i].parent_ids@[k])@,
                ) is Some
        }
}

/// The item `i` of the list gives the category `id` its parent `k`.
pub open spec fn gives_parent(
    list: Seq<CategoryItem>,
    i: int,
    k: int,
    id: i32,
    parent: i32,
) -> bool {
    &&& 0 <= i < list.len()
    &&& 0 <= k < list[i].parent_ids@.len()
    &&& number_of(list[i].id@) == Some(id)
    &&& number_of(list[i].parent_ids@[k]@) == Some(parent)
}

proof fn lemma_last_of(list: Seq<CategoryRow>, i: int, id: i32)
    requires
        0 <= i < list.len(),
        list[i].id == id,
        forall|j: int| i < j < list.len() ==> (#[trigger] list[j]).id != id,
    ensures
        last_category(list, id) == i,
    decreases list.len(),
{
    if i < list.len() - 1 {
        assert(list[list.len() - 1].id != id);
        let rest = list.drop_last();
        assert forall|j: int| i < j < rest.len() implies (#[trigger] rest[j]).id != id by {
            assert(list[j].id != id);
        }
        lemma_last_of(rest, i, id);
    }
}

proof fn lemma_none_of(list: Seq<CategoryRow>, id: i32)
    requires
        forall|j: int| 0 <= j < list.len() ==> (#[trigger] list[j]).id != id,
    ensures
        last_category(list, id) == -1,
    decreases list.len(),
{
    if list.len() > 0 {
        assert(list[list.len() - 1].id != id);
        let rest = list.drop_last();
        assert forall|j: int| 0 <= j < rest.len() implies (#[trigger] rest[j]).id != id by {
            assert(list[j].id != id);
        }
        lemma_none_of(rest, id);
    }
}

/// The catalogue tells of a category, column by column, what the last item of its number tells.
pub proof fn law_categories_store_every_column(
    d: DatabaseView,
    list: Seq<CategoryItem>,
    i: int,
    id: i32,
)
    requires
        all_counted(list),
        0 <= i < list.len(),
        number_of(list[i].id@) == Some(id),
        forall|j: int| i < j < list.len() ==> number_of((#[trigger] list[j]).id@) != Some(id),
    ensures
        ({
            let t = d.run(category_writes(views(list))).tables;
            let c = t.categories[id];
            &&& t.categories.contains_key(id)
            &&& c.id == id
            &&& c.title == list[i].title@
            &&& c.icon == Some(list[i].icon@)
            &&& c.file_count == number_of(list[i].file_count@)
        }),
{
    let rows = views(list);
    let all = category_rows(rows);
    assert(rows[i] == list[i]@);
    assert(number_of(list[i].file_count@) is Some);
    assert forall|j: int| i < j < all.len() implies (#[trigger] all[j]).id != id by {
        assert(rows[j] == list[j]@);
        assert(number_of(list[j].id@) is Some);
        assert(number_of(list[j].id@) != Some(id));
    }
    lemma_last_of(all, i, id);
    law_categories_are_stored(d, rows, id);
}

/// A category that no item has the number of is left as it was.
pub proof fn law_categories_leave_the_rest(d: DatabaseView, list: Seq<CategoryItem>, id: i32)
    requires
        all_counted(list),
        forall|j: int| 0 <= j < list.len() ==> number_of((#[trigger] list[j]).id@) != Some(id),
    ensures
        d.run(category_writes(views(list))).tables.categories.contains_key(id)
            <==> d.tables.categories.contains_key(id),
        d.tables.categories.contains_key(id) ==> d.run(
            category_writes(views(list)),
        ).tables.categories[id] == d.tables.categories[id],
{
    let rows = views(list);
    let all = category_rows(rows);
    assert forall|j: int| 0 <= j < all.len() implies (#[trigger] all[j]).id != id by {
        assert(rows[j] == list[j]@);
        assert(number_of(list[j].id@) is Some);
        assert(number_of(list[j].id@) != Some(id));
    }
    lemma_none_of(all, id);
    law_categories_are_stored(d, rows, id);
}

proof fn lemma_parent_given(list: Seq<CategoryItemRow>, id: i32, parent: i32)
    ensures
        parent_rows(list).contains((id, parent)) <==> exists|i: int, k: int|
            0 <= i < list.len() && 0 <= k < list[i].parent_ids.len() && (number_of(
                list[i].id,
            )->0, number_of(#[trigger] list[i].parent_ids[k])->0) == (id, parent),
    decreases list.len(),
{
    let all = parent_rows(list);
    let row = (id, parent);
    if list.len() > 0 {
        let rest = list.drop_last();
        let before = parent_rows(rest);
        let last = parents_of(list.last());
        lemma_parent_given(rest, id, parent);
        if all.contains(row) {
            let n = all.index_of(row);
            if n < before.len() {
                assert(before[n] == row);
                let (i, k) = choose|i: int, k: int|
                    0 <= i < rest.len() && 0 <= k < rest[i].parent_ids.len() && (number_of(
                        rest[i].id,
                    )->0, number_of(#[trigger] rest[i].parent_ids[k])->0) == row;
                assert(rest[i] == list[i]);
                assert(number_of(list[i].parent_ids[k])->0 == parent);
            } else {
                let k = n - before.len();
                assert(last[k] == row);
                assert(number_of(list[list.len() - 1].parent_ids[k])->0 == parent);
            }
        }
        if exists|i: int, k: int|
            0 <= i < list.len() && 0 <= k < list[i].parent_ids.len() && (number_of(
                list[i].id,
            )->0, number_of(#[trigger] list[i].parent_ids[k])->0) == row {
            let (i, k) = choose|i: int, k: int|
                0 <= i < list.len() && 0 <= k < list[i].parent_ids.len() && (number_of(
                    list[i].id,
                )->0, number_of(#[trigger] list[i].parent_ids[k])->0) == row;
            if i < rest.len() {
                assert(rest[i] == list[i]);
                assert(number_of(rest[i].parent_ids[k])->0 == parent);
                assert(before.contains(row));
                let n = before.index_of(row);
                assert(all[n] == row);
            } else {
                assert(last[k] == row);
                assert(all[before.len() + k] == row);
            }
        }
    }
}

/// Afterwards a category has the parents that it had and those that the items of its number give
/// it, each of them, and no others.
pub proof fn law_categories_store_every_parent(
    d: DatabaseView,
    list: Seq<CategoryItem>,
    id: i32,
    parent: i32,
)
    requires
        all_counted(list),
    ensures
        d.run(category_writes(views(list))).tables.parents.contains((id, parent))
            <==> d.tables.parents.contains((id, parent)) || exists|i: int, k: int| #[trigger]
            gives_parent(list, i, k, id, parent),
{
    let rows = views(list);
    law_categories_are_stored(d, rows, id);
    lemma_parent_given(rows, id, parent);
    if parent_rows(rows).contains((id, parent)) {
        let (i, k) = choose|i: int, k: int|
            0 <= i < rows.len() && 0 <= k < rows[i].parent_ids.len() && (number_of(
                rows[i].id,
            )->0, number_of(#[trigger] rows[i].parent_ids[k])->0) == (id, parent);
        assert(rows[i] == list[i]@);
        assert(rows[i].parent_ids[k] == list[i].parent_ids@[k]@);
        assert(number_of(list[i].id@) is Some);
        assert(number_of(list[i].parent_ids@[k]@) is Some);
        assert(gives_parent(list, i, k, id, parent));
    }
    if exists|i: int, k: int| #[trigger] gives_parent(list, i, k, id, parent) {
        let (i, k) = choose|i: int, k: int| #[trigger] gives_parent(list, i, k, id, parent);
        assert(rows[i] == list[i]@);
        assert(rows[i].parent_ids[k] == list[i].parent_ids@[k]@);
        assert(number_of(rows[i].parent_ids[k])->0 == parent);
    }
}

/// Storing categories succeeds exactly if one of them has a parent.
pub proof fn law_categories_need_a_parent(d: DatabaseView, list: Seq<CategoryItem>)
    requires
        all_counted(list),
    ensures
        d.accepts(category_writes(views(list))) <==> exists|i: int|
            0 <= i < list.len() && (#[trigger] list[i]).parent_ids@.len() > 0,
{
    let rows = views(list);
    let all = parent_rows(rows);
    law_categories_are_stored(d, rows, 0);
    if all.len() > 0 {
        let row = all[0];
        assert(all.contains(row));
        lemma_parent_given(rows, row.0, row.1);
        let (i, k) = choose|i: int, k: int|
            0 <= i < rows.len() && 0 <= k < rows[i].parent_ids.len() && (number_of(
                rows[i].id,
            )->0, number_of(#[trigger] rows[i].parent_ids[k])->0) == (row.0, row.1);
        assert(rows[i] == list[i]@);
        assert(list[i].parent_ids@.len() > 0);
    }
    if exists|i: int| 0 <= i < list.len() && (#[trigger] list[i]).parent_ids@.len() > 0 {
        let i = choose|i: int| 0 <= i < list.len() && (#[trigger] list[i]).parent_ids@.len() > 0;
        assert(rows[i] == list[i]@);
        let id = number_of(rows[i].id)->0;
        let parent = number_of(rows[i].parent_ids[0])->0;
        lemma_parent_given(rows, id, parent);
        assert(all.contains((id, parent)));
    }
}

// ---------------------------------------------------------------------------------------------
// Installing and removing
// ---------------------------------------------------------------------------------------------

/// An addon is taken for current exactly if it is installed in the very version that the catalogue
/// tells of, letter by letter: with another version, be it earlier or later, it is not.
pub proof fn law_current_is_the_same_version(t: Tables, id: i32)
    ensures
        is_current(t, id) ==> t.installed.contains_key(id) && t.installed[id].version
            == t.addons[id].version,
        t.installed.contains_key(id) && t.installed[id].version == t.addons[id].version
            ==> is_current(t, id),
        t.installed.contains_key(id) && t.installed[id].version != t.addons[id].version
            ==> !is_current(t, id),
        !t.installed.contains_key(id) ==> !is_current(t, id),
{
}

/// What is recorded of an installed addon is its number, and the version and the date that the
/// catalogue tells of.
pub proof fn law_install_records_the_catalogue(d: DatabaseView, id: i32, dirs: Seq<String>)
    ensures
        ({
            let t = d.run(install_writes(record_of(d.tables, id), texts_of(dirs))).tables;
            &&& t.installed.contains_key(id)
            &&& t.installed[id].addon_id == id
            &&& t.installed[id].version == d.tables.addons[id].version
            &&& t.installed[id].date == d.tables.addons[id].date
        }),
{
    lemma_record_is_stored(d, record_of(d.tables, id), dirs);
}

proof fn lemma_record_is_stored(
    d: DatabaseView,
    record: installed_addon::InstalledRow,
    dirs: Seq<String>,
)
    ensures
        d.run(install_writes(record, texts_of(dirs))).tables.installed.contains_key(
            record.addon_id,
        ),
        d.run(install_writes(record, texts_of(dirs))).tables.installed[record.addon_id] == record,
{
    let none = Seq::<WriteView>::empty();
    let list = install_writes(record, texts_of(dirs));
    lemma_run_none(d);
    lemma_run_push(d, none, list[0]);
    if list.len() > 1 {
        lemma_run_push(d, none.push(list[0]), list[1]);
    }
}

/// Storing an installed addon stores the record column by column, each directory that it depends
/// on, and nothing else.
pub proof fn law_install_stores_what_it_is_handed(
    d: DatabaseView,
    record: installed_addon::Model,
    dirs: Seq<String>,
)
    ensures
        ({
            let t = d.run(install_writes(record@, texts_of(dirs))).tables;
            let r = t.installed[record.addon_id];
            &&& t.installed.contains_key(record.addon_id)
            &&& r.addon_id == record.addon_id
            &&& r.version == record.version@
            &&& r.date == record.date@
            &&& forall|i: int|
                0 <= i < dirs.len() ==> t.dependencies.contains(
                    (record.addon_id, (#[trigger] dirs[i])@),
                )
            &&& forall|a: i32, x: Seq<char>| #[trigger]
                t.dependencies.contains((a, x)) ==> d.tables.dependencies.contains((a, x)) || (a
                    == record.addon_id && exists|i: int|
                    0 <= i < dirs.len() && (#[trigger] dirs[i])@ == x)
            &&& forall|a: i32, x: Seq<char>|
                d.tables.dependencies.contains((a, x)) ==> #[trigger] t.dependencies.contains(
                    (a, x),
                )
            &&& forall|a: i32|
                a != record.addon_id ==> (#[trigger] t.installed.contains_key(a)
                    <==> d.tables.installed.contains_key(a)) && (d.tables.installed.contains_key(a)
                    ==> t.installed[a] == d.tables.installed[a])
            &&& t.addons == d.tables.addons
            &&& t.dirs == d.tables.dirs
            &&& t.details == d.tables.details
            &&& t.categories == d.tables.categories
            &&& t.parents == d.tables.parents
        }),
{
    let texts = texts_of(dirs);
    let t = d.run(install_writes(record@, texts)).tables;
    lemma_record_is_stored(d, record@, dirs);
    law_install_records_dependencies(d, record@, texts);
    assert forall|i: int| 0 <= i < dirs.len() implies t.dependencies.contains(
        (record.addon_id, (#[trigger] dirs[i])@),
    ) by {
        assert(texts[i] == dirs[i]@);
        assert(texts.contains(dirs[i]@));
    }
    assert forall|a: i32, x: Seq<char>| #[trigger] t.dependencies.contains((a, x)) implies d.tables.dependencies.contains(
        (a, x),
    ) || (a == record.addon_id && exists|i: int|
        0 <= i < dirs.len() && (#[trigger] dirs[i])@ == x) by {
        if texts.contains(x) {
            let i = texts.index_of(x);
            assert(dirs[i]@ == x);
        }
    }
}

/// Storing the details of an addon stores them column by column, and changes no other column and
/// no other addon.
pub proof fn law_details_store_what_they_are_handed(d: DatabaseView, id: i32, f: FileDetails)
    requires
        d.tables.addons.contains_key(id),
    ensures
        ({
            let t = d.run(detail_writes(id, f@)).tables;
            let a = t.addons[id];
            let o = d.tables.addons[id];
            &&& t.addons.contains_key(id)
            &&& a.md5 == Some(f.md5@)
            &&& a.file_name == Some(f.file_name@)
            &&& a.download == Some(f.download_url@)
            &&& a.id == o.id
            &&& a.category_id == o.category_id
            &&& a.version == o.version
            &&& a.date == o.date
            &&& a.name == o.name
            &&& a.author_name == o.author_name
            &&& a.file_info_url == o.file_info_url
            &&& a.download_total == o.download_total
            &&& a.download_monthly == o.download_monthly
            &&& a.favorite_total == o.favorite_total
            &&& t.details.contains_key(id)
            &&& t.details[id].id == id
            &&& t.details[id].description == Some(f.description@)
            &&& t.details[id].change_log == Some(f.change_log@)
            &&& t.details[id].version == Some(f.version@)
            &&& forall|b: i32|
                b != id ==> (#[trigger] t.addons.contains_key(b) <==> d.tables.addons.contains_key(b))
                    && (d.tables.addons.contains_key(b) ==> t.addons[b] == d.tables.addons[b])
            &&& forall|b: i32|
                b != id ==> (#[trigger] t.details.contains_key(b)
                    <==> d.tables.details.contains_key(b)) && (d.tables.details.contains_key(b)
                    ==> t.details[b] == d.tables.details[b])
            &&& t.installed == d.tables.installed
            &&& t.dirs == d.tables.dirs
            &&& t.dependencies == d.tables.dependencies
            &&& t.categories == d.tables.categories
            &&& t.parents == d.tables.parents
        }),
{
    let none = Seq::<WriteView>::empty();
    let list = detail_writes(id, f@);
    lemma_run_none(d);
    lemma_run_push(d, none, list[0]);
    lemma_run_push(d, none.push(list[0]), list[1]);
}

/// Removing an addon takes its record out and changes nothing else; the directories that are to
/// be deleted are all that the catalogue gives it, each once.
pub proof fn law_remove_takes_the_record_out(d: DatabaseView, id: i32, dirs: Seq<String>)
    requires
        are_dirs_of(d.tables, id, texts_of(dirs)),
    ensures
        ({
            let t = d.after(WriteView::DeleteInstalled(id)).tables;
            &&& !t.installed.contains_key(id)
            &&& forall|a: i32|
                a != id ==> (#[trigger] t.installed.contains_key(a)
                    <==> d.tables.installed.contains_key(a)) && (d.tables.installed.contains_key(a)
                    ==> t.installed[a] == d.tables.installed[a])
            &&& t.addons == d.tables.addons
            &&& t.dirs == d.tables.dirs
            &&& t.dependencies == d.tables.dependencies
            &&& t.details == d.tables.details
            &&& t.categories == d.tables.categories
            &&& t.parents == d.tables.parents
        }),
        forall|x: Seq<char>| #[trigger]
            d.tables.dirs.contains((id, x)) ==> exists|i: int|
                0 <= i < dirs.len() && (#[trigger] dirs[i])@ == x,
        forall|i: int|
            0 <= i < dirs.len() ==> d.tables.dirs.contains((id, (#[trigger] dirs[i])@)),
        forall|i: int, j: int|
            0 <= i < j < dirs.len() ==> (#[trigger] dirs[i])@ != (#[trigger] dirs[j])@,
{
    let texts = texts_of(dirs);
    assert forall|x: Seq<char>| #[trigger] d.tables.dirs.contains((id, x)) implies exists|i: int|
        0 <= i < dirs.len() && (#[trigger] dirs[i])@ == x by {
        assert(texts.contains(x));
        let i = texts.index_of(x);
        assert(dirs[i]@ == x);
    }
    assert forall|i: int| 0 <= i < dirs.len() implies d.tables.dirs.contains(
        (id, (#[trigger] dirs[i])@),
    ) by {
        assert(texts[i] == dirs[i]@);
        assert(texts.contains(texts[i]));
    }
    assert forall|i: int, j: int| 0 <= i < j < dirs.len() implies (#[trigger] dirs[i])@ != (
    #[trigger] dirs[j])@ by {
        assert(texts[i] != texts[j]);
    }
}

/// What a refresh stores, a later removal names: after a refresh that succeeds, the directories
/// to be deleted of an addon of the list are exactly those that the list gives it.
pub proof fn law_remove_names_every_directory(
    d: DatabaseView,
    list: Seq<FileListItem>,
    i: int,
    k: int,
    dirs: Seq<String>,
)
    requires
        all_numbered(list),
        d.accepts(update_writes(views(list))),
        0 <= i < list.len(),
        0 <= k < list[i].directories@.len(),
        are_dirs_of(
            d.run(update_writes(views(list))).tables,
            number_of(list[i].id@)->0,
            texts_of(dirs),
        ),
    ensures
        exists|j: int|
            0 <= j < dirs.len() && (#[trigger] dirs[j])@ == list[i].directories@[k]@,
{
    law_refresh_loses_no_directory(d, list, i, k);
    law_remove_takes_the_record_out(
        d.run(update_writes(views(list))),
        number_of(list[i].id@)->0,
        dirs,
    );
}

// ---------------------------------------------------------------------------------------------
// Statements
// ---------------------------------------------------------------------------------------------

/// A statement cannot be carried out exactly if it inserts no rows, if it inserts a directory that
/// is there or that it inserts twice, or if it sets columns of an addon that is not there. It then
/// changes nothing and is not noted; otherwise it is noted.
pub proof fn law_statements_fail(d: DatabaseView, w: WriteView)
    ensures
        d.tables.after(w) is None <==> match w {
            WriteView::UpsertAddons(list) => list.len() == 0,
            WriteView::DeleteAddonDirs(ids) => false,
            WriteView::InsertAddonDirs(list) => {
                ||| list.len() == 0
                ||| exists|i: int, j: int| 0 <= i < j < list.len() && #[trigger] list[i]
                    == #[trigger] list[j]
                ||| exists|i: int| 0 <= i < list.len() && d.tables.dirs.contains(#[trigger] list[i])
            },
            WriteView::UpsertCategories(list) => list.len() == 0,
            WriteView::InsertCategoryParents(list) => list.len() == 0,
            WriteView::UpsertInstalled(row) => false,
            WriteView::InsertDependencies(list) => list.len() == 0,
            WriteView::DeleteInstalled(id) => false,
            WriteView::SetAddonFile { id, md5, file_name, download } =>
                !d.tables.addons.contains_key(id),
            WriteView::UpsertDetail(row) => false,
        },
        d.tables.after(w) is None ==> d.after(w) == d,
        d.tables.after(w) matches Some(t) ==> d.after(w).tables == t && d.after(w).journal
            == d.journal.push(w),
{
}

} // verus!
