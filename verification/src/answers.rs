//! What holds of the answers of the service, told column by column from the tables.

use vstd::prelude::*;
use crate::database::Tables;
use crate::laws::{
    is_literal, law_search_finds, law_search_finds_only, law_search_is_exact, same_but_case,
};
use crate::result::{AddonDepOption, AddonDetails, AddonShowDetails, ParentCategory, ShowRow};
use crate::service::query::{
    answers_search, are_lacking, are_offers, are_outdated, are_parents, category_key, has_details,
    is_child, is_listing, is_offered, is_outdated, is_parent, lacks_details, lemma_nothing_offered,
    lies_in, lists_category, passes, search_pattern, show_row, shows, FilterView, CATEGORY_LIMIT,
};
use crate::table::views;
use crate::text::{column_number, is_found, text_before};

verus! {

// ---------------------------------------------------------------------------------------------
// Addons as they are shown
// ---------------------------------------------------------------------------------------------

/// `o` is the text `v`, or neither is there.
pub open spec fn is_text(o: Option<String>, v: Option<Seq<char>>) -> bool {
    match o {
        Some(s) => v == Some(s@),
        None => v is None,
    }
}

/// The addon `id` has a category in the catalogue: its column stands for the number `k` of one.
pub open spec fn in_category(t: Tables, id: i32, k: i32) -> bool {
    &&& t.addons.contains_key(id)
    &&& column_number(t.addons[id].category_id) == Some(k)
    &&& t.categories.contains_key(k)
}

/// `r` shows its addon as the tables have it: the columns of the catalogue, the title of the
/// category, and the installed version exactly if it is installed.
pub open spec fn shows_tables(t: Tables, r: AddonShowDetails) -> bool {
    let a = t.addons[r.id];
    &&& t.addons.contains_key(r.id)
    &&& r.category_id@ == a.category_id
    &&& r.version@ == a.version
    &&& r.date@ == a.date
    &&& r.name@ == a.name
    &&& is_text(r.author_name, a.author_name)
    &&& is_text(r.file_info_url, a.file_info_url)
    &&& is_text(r.download_total, a.download_total)
    &&& is_text(r.download_monthly, a.download_monthly)
    &&& is_text(r.favorite_total, a.favorite_total)
    &&& is_text(r.md5, a.md5)
    &&& is_text(r.file_name, a.file_name)
    &&& is_text(r.download, a.download)
    &&& exists|k: i32| #[trigger] in_category(t, r.id, k) && r.category@ == t.categories[k].title
    &&& r.installed == t.installed.contains_key(r.id)
    &&& t.installed.contains_key(r.id) ==> is_text(
        r.installed_version,
        Some(t.installed[r.id].version),
    )
    &&& !t.installed.contains_key(r.id) ==> r.installed_version is None
}

/// The four letters that lists have in place of the texts of an addon.
pub open spec fn is_null_word(o: Option<String>) -> bool {
    is_text(o, Some(seq!['N', 'U', 'L', 'L']))
}

proof fn lemma_shown(
    t: Tables,
    r: AddonShowDetails,
    description: Option<Seq<char>>,
    change_log: Option<Seq<char>>,
)
    requires
        t.addons.contains_key(r.id),
        category_key(t, t.addons[r.id]) is Some,
        r@ == show_row(t, r.id, description, change_log),
    ensures
        shows_tables(t, r),
        is_text(r.description, description),
        is_text(r.change_log, change_log),
{
    assert(in_category(t, r.id, category_key(t, t.addons[r.id])->0));
}

proof fn lemma_category(t: Tables, id: i32)
    requires
        t.addons.contains_key(id),
    ensures
        category_key(t, t.addons[id]) is Some <==> exists|k: i32| #[trigger] in_category(t, id, k),
        forall|k: i32| #[trigger]
            in_category(t, id, k) ==> category_key(t, t.addons[id]) == Some(k),
{
    if category_key(t, t.addons[id]) is Some {
        assert(in_category(t, id, category_key(t, t.addons[id])->0));
    }
}

/// `rows` has a row of the addon `id`.
pub open spec fn has_row(rows: Seq<AddonShowDetails>, id: i32) -> bool {
    exists|i: int| 0 <= i < rows.len() && (#[trigger] rows[i]).id == id
}

proof fn lemma_has_row(rows: Seq<AddonShowDetails>, id: i32)
    ensures
        has_row(rows, id) <==> shows(views(rows), id),
{
    if has_row(rows, id) {
        let i = choose|i: int| 0 <= i < rows.len() && (#[trigger] rows[i]).id == id;
        assert(views(rows)[i].id == id);
    }
    if shows(views(rows), id) {
        let i = choose|i: int| 0 <= i < views(rows).len() && (#[trigger] views(rows)[i]).id == id;
        assert(rows[i].id == id);
    }
}

/// Every row of a list shows its addon as the tables have it, with the four letters in place of
/// its texts; the rows are in ascending order of their numbers.
pub proof fn law_lists_show_the_tables(t: Tables, f: FilterView, rows: Seq<AddonShowDetails>)
    requires
        is_listing(t, f, views(rows)),
    ensures
        forall|i: int|
            0 <= i < rows.len() ==> shows_tables(t, #[trigger] rows[i]) && is_null_word(
                rows[i].description,
            ) && is_null_word(rows[i].change_log),
        forall|i: int, j: int|
            0 <= i < j < rows.len() ==> (#[trigger] rows[i]).id < (#[trigger] rows[j]).id,
{
    reveal_strlit("NULL");
    assert("NULL"@ =~= seq!['N', 'U', 'L', 'L']);
    assert forall|i: int| 0 <= i < rows.len() implies shows_tables(t, #[trigger] rows[i])
        && is_null_word(rows[i].description) && is_null_word(rows[i].change_log) by {
        assert(passes(t, f, views(rows)[i].id));
        lemma_shown(t, rows[i], Some("NULL"@), Some("NULL"@));
    }
    assert forall|i: int, j: int| 0 <= i < j < rows.len() implies (#[trigger] rows[i]).id < (
    #[trigger] rows[j]).id by {
        assert(views(rows)[i].id < views(rows)[j].id);
    }
}

/// The list of installed addons has a row for exactly the installed addons that the catalogue has
/// with their category.
pub proof fn law_installed_list_is_exact(t: Tables, rows: Seq<AddonShowDetails>, id: i32)
    requires
        is_listing(t, FilterView::Installed, views(rows)),
    ensures
        has_row(rows, id) <==> t.installed.contains_key(id) && exists|k: i32| #[trigger]
            in_category(t, id, k),
{
    lemma_has_row(rows, id);
    if t.addons.contains_key(id) {
        lemma_category(t, id);
    }
    if has_row(rows, id) {
        let i = choose|i: int| 0 <= i < rows.len() && (#[trigger] rows[i]).id == id;
        assert(passes(t, FilterView::Installed, views(rows)[i].id));
    }
    if t.installed.contains_key(id) && exists|k: i32| #[trigger] in_category(t, id, k) {
        assert(passes(t, FilterView::Installed, id));
    }
}

/// The addon `id` belongs to the category `x`: its own category has a parent, and is `x` or has
/// `x` as a parent.
pub open spec fn belongs_to(t: Tables, id: i32, x: i32) -> bool {
    exists|k: i32, p: i32| #[trigger]
        in_category(t, id, k) && #[trigger] t.parents.contains((k, p)) && (k == x || p == x)
}

proof fn lemma_belongs(t: Tables, id: i32, x: i32)
    ensures
        passes(t, FilterView::InCategory(x), id) <==> belongs_to(t, id, x),
{
    if t.addons.contains_key(id) {
        lemma_category(t, id);
    }
    if passes(t, FilterView::InCategory(x), id) {
        let k = category_key(t, t.addons[id])->0;
        let p = choose|p: i32| #[trigger] t.parents.contains((k, p)) && (k == x || p == x);
        assert(in_category(t, id, k) && t.parents.contains((k, p)));
    }
    if belongs_to(t, id, x) {
        let (k, p) = choose|k: i32, p: i32| #[trigger]
            in_category(t, id, k) && #[trigger] t.parents.contains((k, p)) && (k == x || p == x);
        assert(lies_in(t, k, x));
    }
}

/// The list of a category shows the tables, at most a hundred rows in ascending order of their
/// numbers, of addons that belong to the category; each of these that has no row has a greater
/// number than all that have one, and there is none of them if there are less than a hundred.
pub proof fn law_category_list_is_exact(t: Tables, x: i32, rows: Seq<AddonShowDetails>, id: i32)
    requires
        lists_category(t, x, views(rows)),
    ensures
        rows.len() <= 100,
        forall|i: int|
            0 <= i < rows.len() ==> shows_tables(t, #[trigger] rows[i]) && is_null_word(
                rows[i].description,
            ) && is_null_word(rows[i].change_log) && belongs_to(t, rows[i].id, x),
        forall|i: int, j: int|
            0 <= i < j < rows.len() ==> (#[trigger] rows[i]).id < (#[trigger] rows[j]).id,
        belongs_to(t, id, x) && !has_row(rows, id) ==> rows.len() == 100 && forall|i: int|
            0 <= i < rows.len() ==> (#[trigger] rows[i]).id < id,
{
    reveal_strlit("NULL");
    assert("NULL"@ =~= seq!['N', 'U', 'L', 'L']);
    let f = FilterView::InCategory(x);
    let shown = views(rows);
    let l = choose|l: Seq<ShowRow>|
        #[trigger] is_listing(t, FilterView::InCategory(x), l) && shown == (if l.len()
            <= CATEGORY_LIMIT {
            l
        } else {
            l.take(CATEGORY_LIMIT as int)
        });
    assert(CATEGORY_LIMIT == 100);
    assert(is_listing(t, f, l));
    assert(shown.len() == rows.len() && shown.len() <= l.len());
    assert forall|i: int| 0 <= i < rows.len() implies #[trigger] rows[i]@ == l[i] by {
        assert(shown[i] == rows[i]@);
        if l.len() > CATEGORY_LIMIT {
            assert(l.take(CATEGORY_LIMIT as int)[i] == l[i]);
        }
    }
    assert forall|i: int| 0 <= i < rows.len() implies shows_tables(t, #[trigger] rows[i])
        && is_null_word(rows[i].description) && is_null_word(rows[i].change_log) && belongs_to(
        t,
        rows[i].id,
        x,
    ) by {
        assert(rows[i]@ == l[i]);
        assert(passes(t, f, l[i].id));
        lemma_belongs(t, rows[i].id, x);
        lemma_shown(t, rows[i], Some("NULL"@), Some("NULL"@));
    }
    assert forall|i: int, j: int| 0 <= i < j < rows.len() implies (#[trigger] rows[i]).id < (
    #[trigger] rows[j]).id by {
        assert(rows[i]@ == l[i] && rows[j]@ == l[j]);
        assert(l[i].id < l[j].id);
    }
    if belongs_to(t, id, x) && !has_row(rows, id) {
        lemma_belongs(t, id, x);
        lemma_has_row(rows, id);
        assert(shows(l, id));
        let k = choose|k: int| 0 <= k < l.len() && (#[trigger] l[k]).id == id;
        if k < rows.len() {
            assert(rows[k]@ == l[k]);
            assert(rows[k].id == id);
        }
        assert forall|i: int| 0 <= i < rows.len() implies (#[trigger] rows[i]).id < id by {
            assert(rows[i]@ == l[i]);
            assert(l[i].id < l[k].id);
        }
    }
}

// ---------------------------------------------------------------------------------------------
// Searching
// ---------------------------------------------------------------------------------------------

/// The answer to a search shows the tables, each addon once and later dates first.
pub proof fn law_search_shows_the_tables(t: Tables, s: Seq<char>, rows: Seq<AddonShowDetails>)
    requires
        answers_search(t, s, views(rows)),
    ensures
        forall|i: int|
            0 <= i < rows.len() ==> shows_tables(t, #[trigger] rows[i]) && is_null_word(
                rows[i].description,
            ) && is_null_word(rows[i].change_log),
        forall|i: int, j: int|
            0 <= i < j < rows.len() ==> (#[trigger] rows[i]).id != (#[trigger] rows[j]).id
                && !text_before(t.addons[rows[i].id].date, t.addons[rows[j].id].date),
{
    reveal_strlit("NULL");
    assert("NULL"@ =~= seq!['N', 'U', 'L', 'L']);
    law_search_is_exact(t, s, views(rows));
    assert forall|i: int| 0 <= i < rows.len() implies shows_tables(t, #[trigger] rows[i])
        && is_null_word(rows[i].description) && is_null_word(rows[i].change_log) by {
        assert(views(rows)[i].id == rows[i].id);
        assert(shows(views(rows), rows[i].id));
        lemma_shown(t, rows[i], Some("NULL"@), Some("NULL"@));
    }
    assert forall|i: int, j: int| 0 <= i < j < rows.len() implies (#[trigger] rows[i]).id != (
    #[trigger] rows[j]).id && !text_before(t.addons[rows[i].id].date, t.addons[rows[j].id].date) by {
        assert(views(rows)[i].id != views(rows)[j].id);
        assert(!text_before(views(rows)[i].date, views(rows)[j].date));
        assert(shows_tables(t, rows[i]) && shows_tables(t, rows[j]));
    }
}

/// A search has a row for exactly the addons that the catalogue has with their category and whose
/// name is found by the pattern that puts `%` in front of the searched text and behind it.
pub proof fn law_search_answer_is_exact(
    t: Tables,
    s: Seq<char>,
    rows: Seq<AddonShowDetails>,
    id: i32,
)
    requires
        answers_search(t, s, views(rows)),
    ensures
        has_row(rows, id) <==> (exists|k: i32| #[trigger] in_category(t, id, k)) && is_found(
            seq!['%'] + s + seq!['%'],
            t.addons[id].name,
        ),
{
    reveal_strlit("%");
    assert(search_pattern(s) =~= seq!['%'] + s + seq!['%']);
    law_search_is_exact(t, s, views(rows));
    lemma_has_row(rows, id);
    if t.addons.contains_key(id) {
        lemma_category(t, id);
    }
    assert(shows(views(rows), id) <==> passes(t, FilterView::Named(search_pattern(s)), id));
}

/// A search finds every addon whose name holds the searched text in front of its first null
/// character, whatever the case of the ASCII letters.
pub proof fn law_search_finds_addons(
    t: Tables,
    s: Seq<char>,
    rows: Seq<AddonShowDetails>,
    id: i32,
    k: i32,
    before: Seq<char>,
    found: Seq<char>,
    behind: Seq<char>,
)
    requires
        answers_search(t, s, views(rows)),
        in_category(t, id, k),
        t.addons[id].name == before + found + behind,
        same_but_case(s, found),
        !before.contains('\0'),
    ensures
        has_row(rows, id),
{
    reveal_strlit("%");
    assert(search_pattern(s) =~= seq!['%'] + s + seq!['%']);
    law_search_finds(s, before, found, behind);
    law_search_answer_is_exact(t, s, rows, id);
}

/// A search for a text without wildcards and null characters finds only addons whose name holds
/// the text, up to the case of ASCII letters.
pub proof fn law_search_finds_only_addons(
    t: Tables,
    s: Seq<char>,
    rows: Seq<AddonShowDetails>,
    id: i32,
) -> (i: int)
    requires
        answers_search(t, s, views(rows)),
        has_row(rows, id),
        is_literal(s),
        !s.contains('\0'),
    ensures
        0 <= i <= t.addons[id].name.len() - s.len(),
        same_but_case(s, t.addons[id].name.subrange(i, i + s.len())),
{
    reveal_strlit("%");
    assert(search_pattern(s) =~= seq!['%'] + s + seq!['%']);
    law_search_answer_is_exact(t, s, rows, id);
    law_search_finds_only(s, t.addons[id].name)
}

// ---------------------------------------------------------------------------------------------
// Details
// ---------------------------------------------------------------------------------------------

/// The details of an addon can be shown exactly if the catalogue has it with its category and its
/// details; they show the tables, and the stored texts.
pub proof fn law_details_show_the_tables(t: Tables, id: i32, r: Option<AddonShowDetails>)
    requires
        r is Some <==> has_details(t, id),
        r matches Some(row) ==> row@ == show_row(
            t,
            id,
            t.details[id].description,
            t.details[id].change_log,
        ),
    ensures
        r is Some <==> t.details.contains_key(id) && exists|k: i32| #[trigger]
            in_category(t, id, k),
        r matches Some(row) ==> row.id == id && shows_tables(t, row) && is_text(
            row.description,
            t.details[id].description,
        ) && is_text(row.change_log, t.details[id].change_log),
{
    if t.addons.contains_key(id) {
        lemma_category(t, id);
    }
    match r {
        Some(row) => {
            lemma_shown(t, row, t.details[id].description, t.details[id].change_log);
        },
        None => {},
    }
}

/// The addons whose details are missing are those of the catalogue without details, with details
/// of another version or of none, or without a check sum, a file name or an address.
pub proof fn law_missing_details_are_exact(t: Tables, ids: Seq<i32>, id: i32)
    requires
        are_lacking(t, ids),
    ensures
        ids.contains(id) <==> t.addons.contains_key(id) && !(t.details.contains_key(id)
            && t.details[id].version == Some(t.addons[id].version) && t.addons[id].md5 is Some
            && t.addons[id].file_name is Some && t.addons[id].download is Some),
        forall|i: int, j: int| 0 <= i < j < ids.len() ==> #[trigger] ids[i] < #[trigger] ids[j],
{
    assert(ids.contains(id) <==> lacks_details(t, id));
}

/// The outdated addons are the installed ones that the catalogue has with another version, or
/// with a later date; each is shown once, with what is installed.
pub proof fn law_outdated_addons_are_exact(t: Tables, rows: Seq<AddonDetails>, id: i32)
    requires
        are_outdated(t, views(rows)),
    ensures
        (exists|i: int| 0 <= i < rows.len() && (#[trigger] rows[i]).id == id)
            <==> t.installed.contains_key(id) && t.addons.contains_key(id) && (
        t.installed[id].version != t.addons[id].version || text_before(
            t.installed[id].date,
            t.addons[id].date,
        )),
        forall|i: int|
            0 <= i < rows.len() ==> {
                let r = #[trigger] rows[i];
                &&& r.category_id@ == t.addons[r.id].category_id
                &&& r.name@ == t.addons[r.id].name
                &&& r.version@ == t.installed[r.id].version
                &&& r.date@ == t.installed[r.id].date
                &&& r.installed
            },
        forall|i: int, j: int|
            0 <= i < j < rows.len() ==> (#[trigger] rows[i]).id < (#[trigger] rows[j]).id,
{
    let shown = views(rows);
    assert forall|i: int| 0 <= i < rows.len() implies {
        let r = #[trigger] rows[i];
        &&& r.category_id@ == t.addons[r.id].category_id
        &&& r.name@ == t.addons[r.id].name
        &&& r.version@ == t.installed[r.id].version
        &&& r.date@ == t.installed[r.id].date
        &&& r.installed
    } by {
        assert(is_outdated(t, shown[i].id));
    }
    assert forall|i: int, j: int| 0 <= i < j < rows.len() implies (#[trigger] rows[i]).id < (
    #[trigger] rows[j]).id by {
        assert(shown[i].id < shown[j].id);
    }
    if exists|i: int| 0 <= i < rows.len() && (#[trigger] rows[i]).id == id {
        let i = choose|i: int| 0 <= i < rows.len() && (#[trigger] rows[i]).id == id;
        assert(is_outdated(t, shown[i].id));
    }
    if is_outdated(t, id) {
        let i = choose|i: int| 0 <= i < shown.len() && (#[trigger] shown[i]).id == id;
        assert(rows[i].id == id);
    }
}

/// No missing dependency is ever offered: each directory of an installed addon belongs to an
/// installed addon, namely to this one.
pub proof fn law_no_option_is_offered(t: Tables, rows: Seq<AddonDepOption>)
    requires
        are_offers(t, views(rows)),
    ensures
        rows.len() == 0,
{
    if rows.len() > 0 {
        let o = views(rows)[0];
        assert(views(rows).contains(o));
        assert(is_offered(t, o));
        lemma_nothing_offered(t, o);
    }
}

// ---------------------------------------------------------------------------------------------
// Categories
// ---------------------------------------------------------------------------------------------

/// The parent categories are those with another number than zero that some category has as a
/// parent; each is shown with its title and, column by column, the categories that have it as a
/// parent, all in ascending order of their numbers.
pub proof fn law_category_parents_are_exact(t: Tables, rows: Seq<ParentCategory>, k: i32)
    requires
        are_parents(t, views(rows)),
    ensures
        (exists|i: int| 0 <= i < rows.len() && (#[trigger] rows[i]).id == k) <==> k != 0
            && t.categories.contains_key(k) && exists|c: i32| #[trigger]
            t.parents.contains((c, k)),
        forall|i: int|
            0 <= i < rows.len() ==> (#[trigger] rows[i]).title@ == t.categories[rows[i].id].title,
        forall|i: int, j: int|
            0 <= i < j < rows.len() ==> (#[trigger] rows[i]).id < (#[trigger] rows[j]).id,
{
    let shown = views(rows);
    assert forall|i: int| 0 <= i < rows.len() implies (#[trigger] rows[i]).title@
        == t.categories[rows[i].id].title by {
        assert(is_parent(t, shown[i].id));
    }
    assert forall|i: int, j: int| 0 <= i < j < rows.len() implies (#[trigger] rows[i]).id < (
    #[trigger] rows[j]).id by {
        assert(shown[i].id < shown[j].id);
    }
    if exists|i: int| 0 <= i < rows.len() && (#[trigger] rows[i]).id == k {
        let i = choose|i: int| 0 <= i < rows.len() && (#[trigger] rows[i]).id == k;
        assert(is_parent(t, shown[i].id));
    }
    if is_parent(t, k) {
        let i = choose|i: int| 0 <= i < shown.len() && (#[trigger] shown[i]).id == k;
        assert(rows[i].id == k);
    }
}

/// The categories that are shown below a parent are those of the catalogue that have it as a
/// parent, each once, column by column and in ascending order of their numbers.
pub proof fn law_category_children_are_exact(
    t: Tables,
    rows: Seq<ParentCategory>,
    i: int,
    c: i32,
)
    requires
        are_parents(t, views(rows)),
        0 <= i < rows.len(),
    ensures
        (exists|j: int|
            0 <= j < rows[i].child_categories@.len() && (
            #[trigger] rows[i].child_categories@[j]).id == c) <==> t.categories.contains_key(c)
            && t.parents.contains((c, rows[i].id)),
        forall|j: int|
            0 <= j < rows[i].child_categories@.len() ==> {
                let m = #[trigger] rows[i].child_categories@[j];
                let row = t.categories[m.id];
                &&& m.title@ == row.title
                &&& is_text(m.icon, row.icon)
                &&& m.file_count == row.file_count
            },
        forall|a: int, b: int|
            0 <= a < b < rows[i].child_categories@.len() ==> (
            #[trigger] rows[i].child_categories@[a]).id < (
            #[trigger] rows[i].child_categories@[b]).id,
{
    let shown = views(rows);
    let models = rows[i].child_categories@;
    let below = shown[i].child_categories;
    assert(is_parent(t, shown[i].id));
    assert(below == views(models));
    assert forall|j: int| 0 <= j < models.len() implies {
        let m = #[trigger] models[j];
        let row = t.categories[m.id];
        &&& m.title@ == row.title
        &&& is_text(m.icon, row.icon)
        &&& m.file_count == row.file_count
    } by {
        assert(is_child(t, below[j].id, shown[i].id));
    }
    assert forall|a: int, b: int| 0 <= a < b < models.len() implies (#[trigger] models[a]).id < (
    #[trigger] models[b]).id by {
        assert(below[a].id < below[b].id);
    }
    if exists|j: int| 0 <= j < models.len() && (#[trigger] models[j]).id == c {
        let j = choose|j: int| 0 <= j < models.len() && (#[trigger] models[j]).id == c;
        assert(is_child(t, below[j].id, shown[i].id));
    }
    if t.categories.contains_key(c) && t.parents.contains((c, rows[i].id)) {
        assert(is_child(t, c, shown[i].id));
        let j = choose|j: int| 0 <= j < below.len() && (#[trigger] below[j]).id == c;
        assert(models[j].id == c);
    }
}

} // verus!
