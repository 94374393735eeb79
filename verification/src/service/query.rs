//! Questions to the catalogue.

use vstd::prelude::*;
use crate::database::Tables;
use crate::entity::addon;
use crate::entity::addon::AddonRow;
use crate::entity::category;
use crate::entity::category::CategoryRow;
use crate::entity::category_parent;
use crate::entity::installed_addon;
use crate::result::{
    AddonDepOption, AddonDetails, AddonShowDetails, DepRow, DetailsRow, ParentCategory, ParentRow,
    ShowRow,
};
use crate::service::AddonService;
use crate::table::{lemma_by_key, lemma_row_of_key, lemma_table_len, views};
use crate::text::{
    column_number, copy_text, is_before, is_found, is_like, lemma_before_irreflexive, lemma_before_total,
    lemma_before_transitive, read_column, text_before, text_of,
};

verus! {

broadcast use vstd::seq_lib::group_to_multiset_ensures;

// ---------------------------------------------------------------------------------------------
// Addons as they are shown
// ---------------------------------------------------------------------------------------------

/// The category of an addon: the one whose identifier the text of the addon's category column
/// stands for.
pub open spec fn category_key(t: Tables, a: AddonRow) -> Option<i32> {
    match column_number(a.category_id) {
        Some(k) => if t.categories.contains_key(k) {
            Some(k)
        } else {
            None
        },
        None => None,
    }
}

/// The addon `id` as it is shown, with the texts given. The addon and its category are in the
/// catalogue.
pub open spec fn show_row(
    t: Tables,
    id: i32,
    description: Option<Seq<char>>,
    change_log: Option<Seq<char>>,
) -> ShowRow {
    let a = t.addons[id];
    ShowRow {
        id,
        category_id: a.category_id,
        version: a.version,
        date: a.date,
        name: a.name,
        author_name: a.author_name,
        file_info_url: a.file_info_url,
        download_total: a.download_total,
        download_monthly: a.download_monthly,
        favorite_total: a.favorite_total,
        md5: a.md5,
        file_name: a.file_name,
        download: a.download,
        category: t.categories[category_key(t, a)->0].title,
        installed: t.installed.contains_key(id),
        installed_version: if t.installed.contains_key(id) {
            Some(t.installed[id].version)
        } else {
            None
        },
        description,
        change_log,
    }
}

/// The addon `id` as lists show it: in place of its texts stands the word `NULL`.
pub open spec fn list_row(t: Tables, id: i32) -> ShowRow {
    show_row(t, id, Some("NULL"@), Some("NULL"@))
}

/// Which addons a list shows.
pub enum Filter {
    /// Those that are installed.
    Installed,
    /// Those of a category, or of a category below it.
    InCategory(i32),
    /// Those whose name matches a pattern.
    Named(String),
}

/// What a filter holds.
pub enum FilterView {
    Installed,
    InCategory(i32),
    Named(Seq<char>),
}

impl View for Filter {
    type V = FilterView;

    open spec fn view(&self) -> FilterView {
        match *self {
            Filter::Installed => FilterView::Installed,
            Filter::InCategory(x) => FilterView::InCategory(x),
            Filter::Named(p) => FilterView::Named(p@),
        }
    }
}

/// The category `k` has a parent, and is `x` or lies below it.
pub open spec fn lies_in(t: Tables, k: i32, x: i32) -> bool {
    exists|p: i32| #[trigger] t.parents.contains((k, p)) && (k == x || p == x)
}

/// The addon `id` is in the catalogue with its category, and passes the filter.
pub open spec fn passes(t: Tables, f: FilterView, id: i32) -> bool {
    &&& t.addons.contains_key(id)
    &&& category_key(t, t.addons[id]) is Some
    &&& match f {
        FilterView::Installed => t.installed.contains_key(id),
        FilterView::InCategory(x) => lies_in(t, category_key(t, t.addons[id])->0, x),
        FilterView::Named(p) => is_found(p, t.addons[id].name),
    }
}

/// `rows` shows the addon `id`.
pub open spec fn shows(rows: Seq<ShowRow>, id: i32) -> bool {
    exists|i: int| 0 <= i < rows.len() && (#[trigger] rows[i]).id == id
}

/// `rows` lists exactly the addons that pass the filter, in ascending order of their
/// identifiers.
pub open spec fn is_listing(t: Tables, f: FilterView, rows: Seq<ShowRow>) -> bool {
    &&& forall|i: int, j: int|
        0 <= i < j < rows.len() ==> (#[trigger] rows[i]).id < (#[trigger] rows[j]).id
    &&& forall|i: int|
        0 <= i < rows.len() ==> passes(t, f, (#[trigger] rows[i]).id) && rows[i] == list_row(
            t,
            rows[i].id,
        )
    &&& forall|id: i32| #[trigger] passes(t, f, id) ==> shows(rows, id)
}

/// Later dates come first.
pub open spec fn newest_first(rows: Seq<ShowRow>) -> bool {
    forall|i: int, j: int|
        0 <= i < j < rows.len() ==> !text_before(
            (#[trigger] rows[i]).date,
            (#[trigger] rows[j]).date,
        )
}

/// The pattern that finds `s` anywhere in a name.
pub open spec fn search_pattern(s: Seq<char>) -> Seq<char> {
    "%"@ + s + "%"@
}

/// `rows` answers the search for `s`: the addons whose names match, later dates first.
pub open spec fn answers_search(t: Tables, s: Seq<char>, rows: Seq<ShowRow>) -> bool {
    &&& newest_first(rows)
    &&& exists|l: Seq<ShowRow>|
        #[trigger] is_listing(t, FilterView::Named(search_pattern(s)), l) && rows.to_multiset()
            == l.to_multiset()
}

impl AddonService {
    /// The category of an addon.
    fn category_of(&self, a: &addon::Model) -> (r: Option<&category::Model>)
        requires
            self.wf(),
        ensures
            r is Some <==> category_key(self.db@.tables, a@) is Some,
            r matches Some(c) ==> c@ == self.db@.tables.categories[category_key(
                self.db@.tables,
                a@,
            )->0] && c@.id == category_key(self.db@.tables, a@)->0,
    {
        match read_column(a.category_id.as_str()) {
            Some(k) => {
                let r = self.db.categories.get(k);
                proof {
                    if self.db.categories@.contains_key(k) {
                        let i = lemma_row_of_key::<category::Model>(self.db.categories.rows(), k);
                    }
                }
                r
            },
            None => None,
        }
    }

    /// An addon as it is shown.
    fn show(
        &self,
        a: &addon::Model,
        c: &category::Model,
        description: Option<String>,
        change_log: Option<String>,
    ) -> (r: AddonShowDetails)
        requires
            self.wf(),
            self.db@.tables.addons.contains_key(a.id),
            self.db@.tables.addons[a.id] == a@,
            category_key(self.db@.tables, a@) is Some,
            c@ == self.db@.tables.categories[category_key(self.db@.tables, a@)->0],
        ensures
            r@ == show_row(
                self.db@.tables,
                a.id,
                text_of(description),
                text_of(change_log),
            ),
    {
        let (installed, installed_version) = match self.db.installed.get(a.id) {
            Some(i) => (true, Some(i.version.clone())),
            None => (false, None),
        };
        AddonShowDetails {
            id: a.id,
            category_id: a.category_id.clone(),
            version: a.version.clone(),
            date: a.date.clone(),
            name: a.name.clone(),
            author_name: copy_text(&a.author_name),
            file_info_url: copy_text(&a.file_info_url),
            download_total: copy_text(&a.download_total),
            download_monthly: copy_text(&a.download_monthly),
            favorite_total: copy_text(&a.favorite_total),
            md5: copy_text(&a.md5),
            file_name: copy_text(&a.file_name),
            download: copy_text(&a.download),
            category: c.title.clone(),
            installed,
            installed_version,
            description,
            change_log,
        }
    }

    /// Whether the category `k` has a parent, and is `x` or lies below it.
    fn is_in(&self, k: i32, x: i32) -> (b: bool)
        requires
            self.wf(),
        ensures
            b == lies_in(self.db@.tables, k, x),
    {
        let ghost rows = self.db.parents.rows();
        let n = self.db.parents.len();
        let mut i: usize = 0;
        while i < n
            invariant
                i <= n == rows.len(),
                rows == self.db.parents.rows(),
                forall|j: int|
                    0 <= j < i ==> !((#[trigger] rows[j]).0 == k && (k == x || rows[j].1 == x)),
            decreases n - i,
        {
            let row = self.db.parents.row(i);
            assert(row@ == rows[i as int]);
            if row.id == k && (k == x || row.parent_id == x) {
                assert(rows.contains(rows[i as int]));
                assert(self.db@.tables.parents.contains((k, row.parent_id)));
                return true;
            }
            i += 1;
        }
        assert(!lies_in(self.db@.tables, k, x)) by {
            if lies_in(self.db@.tables, k, x) {
                let p = choose|p: i32| #[trigger]
                    self.db@.tables.parents.contains((k, p)) && (k == x || p == x);
                assert(rows.contains((k, p)));
                let j = rows.index_of((k, p));
                assert(rows[j] == (k, p));
            }
        }
        false
    }

    /// The addons that pass a filter, in ascending order of their identifiers.
    fn list(&self, f: &Filter) -> (r: Vec<AddonShowDetails>)
        requires
            self.wf(),
        ensures
            is_listing(self.db@.tables, f@, views(r@)),
    {
        let ghost t = self.db@.tables;
        let ghost rows = self.db.addons.rows();
        let n = self.db.addons.len();
        let mut r: Vec<AddonShowDetails> = Vec::new();
        let mut i: usize = 0;
        while i < n
            invariant
                i <= n == rows.len(),
                self.wf(),
                t == self.db@.tables,
                rows == self.db.addons.rows(),
                forall|a: int, b: int|
                    0 <= a < b < r@.len() ==> (#[trigger] r@[a]).id < (#[trigger] r@[b]).id,
                forall|a: int, j: int|
                    0 <= a < r@.len() && i <= j < n ==> (#[trigger] r@[a]).id < (
                    #[trigger] rows[j]).id,
                forall|a: int|
                    0 <= a < r@.len() ==> passes(t, f@, (#[trigger] r@[a]).id) && r@[a]@
                        == list_row(t, r@[a].id),
                forall|j: int|
                    0 <= j < i && passes(t, f@, (#[trigger] rows[j]).id) ==> shows(
                        views(r@),
                        rows[j].id,
                    ),
            decreases n - i,
        {
            let a = self.db.addons.row(i);
            let ghost before = r@;
            proof {
                lemma_by_key::<addon::Model>(rows, i as int);
            }
            match self.category_of(a) {
                Some(c) => {
                    let wanted = match f {
                        Filter::Installed => self.db.installed.get(a.id).is_some(),
                        Filter::InCategory(x) => self.is_in(c.id, *x),
                        Filter::Named(p) => is_like(p.as_str(), a.name.as_str()),
                    };
                    assert(wanted == passes(t, f@, a.id));
                    if wanted {
                        let row = self.show(
                            a,
                            c,
                            Some("NULL".to_owned()),
                            Some("NULL".to_owned()),
                        );
                        r.push(row);
                        assert(r@[r@.len() - 1] == row);
                    }
                },
                None => {},
            }
            proof {
                assert forall|j: int|
                    0 <= j < i + 1 && passes(t, f@, (#[trigger] rows[j]).id) implies shows(
                    views(r@),
                    rows[j].id,
                ) by {
                    if j < i {
                        let m = choose|m: int|
                            0 <= m < views(before).len() && (#[trigger] views(before)[m]).id
                                == rows[j].id;
                        assert(views(r@)[m] == views(before)[m]);
                    } else {
                        assert(views(r@)[r@.len() - 1].id == rows[j].id);
                    }
                }
            }
            i += 1;
        }
        proof {
            assert forall|id: i32| #[trigger] passes(t, f@, id) implies shows(views(r@), id) by {
                let j = lemma_row_of_key::<addon::Model>(rows, id);
                assert(passes(t, f@, rows[j].id));
            }
        }
        r
    }

    /// Puts addons in the order of their dates, later dates first.
    fn by_date(mut rows: Vec<AddonShowDetails>) -> (r: Vec<AddonShowDetails>)
        ensures
            newest_first(views(r@)),
            views(r@).to_multiset() == views(rows@).to_multiset(),
    {
        let ghost all = views(rows@).to_multiset();
        let mut r: Vec<AddonShowDetails> = Vec::new();
        assert(views(r@) =~= Seq::<ShowRow>::empty());
        assert(views(rows@).to_multiset().add(views(r@).to_multiset()) =~= all);
        while rows.len() > 0
            invariant
                newest_first(views(r@)),
                views(rows@).to_multiset().add(views(r@).to_multiset()) == all,
            decreases rows.len(),
        {
            let ghost left = views(rows@);
            let ghost sorted = views(r@);
            let next = rows.pop();
            match next {
                Some(row) => {
                    let ghost v = row@;
                    let mut p: usize = 0;
                    while p < r.len() && is_before(row.date.as_str(), r[p].date.as_str())
                        invariant
                            p <= r.len(),
                            sorted == views(r@),
                            v == row@,
                            forall|i: int|
                                0 <= i < p ==> text_before(v.date, (#[trigger] sorted[i]).date),
                        decreases r.len() - p,
                    {
                        assert(sorted[p as int] == r@[p as int]@);
                        p += 1;
                    }
                    assert(p < r.len() ==> sorted[p as int] == r@[p as int]@);
                    r.insert(p, row);
                    proof {
                        assert(views(r@) =~= sorted.insert(p as int, v));
                        lemma_insert_newest(sorted, p as int, v);
                        assert(left =~= views(rows@).push(v));
                        lemma_insert_counts(sorted, p as int, v);
                        assert(views(rows@).to_multiset().insert(v) =~= left.to_multiset());
                        assert(views(rows@).to_multiset().add(views(r@).to_multiset())
                            =~= left.to_multiset().add(sorted.to_multiset()));
                    }
                },
                None => {},
            }
        }
        assert(views(rows@) =~= Seq::<ShowRow>::empty());
        assert(views(r@).to_multiset() =~= all);
        r
    }
}

proof fn lemma_insert_counts<A>(s: Seq<A>, p: int, v: A)
    requires
        0 <= p <= s.len(),
    ensures
        s.insert(p, v).to_multiset() == s.to_multiset().insert(v),
{
    vstd::seq_lib::to_multiset_insert(s, p, v);
}

/// A row put in front of the first that is not later keeps the order.
proof fn lemma_insert_newest(rows: Seq<ShowRow>, p: int, v: ShowRow)
    requires
        newest_first(rows),
        0 <= p <= rows.len(),
        forall|i: int| 0 <= i < p ==> text_before(v.date, (#[trigger] rows[i]).date),
        p < rows.len() ==> !text_before(v.date, rows[p].date),
    ensures
        newest_first(rows.insert(p, v)),
{
    let after = rows.insert(p, v);
    assert forall|i: int, j: int| 0 <= i < j < after.len() implies !text_before(
        (#[trigger] after[i]).date,
        (#[trigger] after[j]).date,
    ) by {
        let a = if i < p { i } else { i - 1 };
        let b = if j < p { j } else { j - 1 };
        assert(i == p || after[i] == rows[a]);
        assert(j == p || after[j] == rows[b]);
        if j == p {
            if text_before(rows[a].date, v.date) {
                lemma_before_transitive(v.date, rows[a].date, v.date);
                lemma_before_irreflexive(v.date);
            }
        } else if i == p {
            if text_before(v.date, rows[b].date) {
                lemma_before_total(rows[p].date, v.date);
                if text_before(rows[p].date, v.date) {
                    lemma_before_transitive(rows[p].date, v.date, rows[b].date);
                }
                assert(p == b || !text_before(rows[p].date, rows[b].date));
            }
        }
    }
}

// ---------------------------------------------------------------------------------------------
// Searching and listing
// ---------------------------------------------------------------------------------------------

/// The number of addons that the list of a category holds at most.
pub const CATEGORY_LIMIT: usize = 100;

/// `rows` are the first addons of a category: all, or as many as the limit lets through.
pub open spec fn lists_category(t: Tables, category_id: i32, rows: Seq<ShowRow>) -> bool {
    exists|l: Seq<ShowRow>|
        #[trigger] is_listing(t, FilterView::InCategory(category_id), l) && rows == (if l.len()
            <= CATEGORY_LIMIT {
            l
        } else {
            l.take(CATEGORY_LIMIT as int)
        })
}

/// The details of the addon `id` can be shown.
pub open spec fn has_details(t: Tables, id: i32) -> bool {
    &&& t.addons.contains_key(id)
    &&& category_key(t, t.addons[id]) is Some
    &&& t.details.contains_key(id)
}

impl AddonService {
    /// The addons whose name holds `search_string`, later dates first. The string is part of a
    /// pattern: `%` and `_` in it stand for any text and any character.
    pub fn search(&self, search_string: &str) -> (r: Vec<AddonShowDetails>)
        requires
            self.wf(),
        ensures
            answers_search(self.db@.tables, search_string@, views(r@)),
    {
        let mut pattern = "%".to_owned();
        pattern.append(search_string);
        pattern.append("%");
        assert(pattern@ =~= search_pattern(search_string@));
        let listing = self.list(&Filter::Named(pattern));
        assert(is_listing(
            self.db@.tables,
            FilterView::Named(search_pattern(search_string@)),
            views(listing@),
        ));
        Self::by_date(listing)
    }

    /// The number of installed addons.
    pub fn get_installed_addon_count(&self) -> (n: i32)
        requires
            self.wf(),
        ensures
            n == (self.db@.tables.installed.len() as u64) as i32,
            self.db@.tables.installed.len() <= i32::MAX ==> n == self.db@.tables.installed.len(),
    {
        proof {
            lemma_table_len::<installed_addon::Model>(self.db.installed.rows());
        }
        let n = self.db.installed.len() as u64;
        #[verifier::truncate]
        (n as i32)
    }

    /// The installed addons.
    pub fn get_installed_addons(&self) -> (r: Vec<AddonShowDetails>)
        requires
            self.wf(),
        ensures
            is_listing(self.db@.tables, FilterView::Installed, views(r@)),
    {
        self.list(&Filter::Installed)
    }

    /// The addons of a category and of the categories below it, as many as the limit lets
    /// through. A category without a parent has none.
    pub fn get_addons_by_category(&self, category_id: i32) -> (r: Vec<AddonShowDetails>)
        requires
            self.wf(),
        ensures
            lists_category(self.db@.tables, category_id, views(r@)),
    {
        let mut r = self.list(&Filter::InCategory(category_id));
        let ghost l = views(r@);
        assert(is_listing(self.db@.tables, FilterView::InCategory(category_id), l));
        r.truncate(CATEGORY_LIMIT);
        proof {
            if l.len() <= CATEGORY_LIMIT {
                assert(views(r@) =~= l);
            } else {
                assert(views(r@) =~= l.take(CATEGORY_LIMIT as int));
            }
        }
        r
    }

    /// An addon with its texts, if the catalogue has it, its category and its details.
    pub fn get_addon_details(&self, addon_id: i32) -> (r: Option<AddonShowDetails>)
        requires
            self.wf(),
        ensures
            r is Some <==> has_details(self.db@.tables, addon_id),
            r matches Some(row) ==> row@ == show_row(
                self.db@.tables,
                addon_id,
                self.db@.tables.details[addon_id].description,
                self.db@.tables.details[addon_id].change_log,
            ),
    {
        let a = match self.db.addons.get(addon_id) {
            Some(a) => a,
            None => {
                return None;
            },
        };
        proof {
            let i = lemma_row_of_key::<addon::Model>(self.db.addons.rows(), addon_id);
        }
        match (self.category_of(a), self.db.details.get(addon_id)) {
            (Some(c), Some(d)) => Some(
                self.show(a, c, copy_text(&d.description), copy_text(&d.change_log)),
            ),
            _ => None,
        }
    }
}

// ---------------------------------------------------------------------------------------------
// What is missing or outdated
// ---------------------------------------------------------------------------------------------

/// The details of the addon `id` are missing or are those of another version, or its file is
/// not known.
pub open spec fn lacks_details(t: Tables, id: i32) -> bool {
    &&& t.addons.contains_key(id)
    &&& {
        ||| !t.details.contains_key(id)
        ||| t.details[id].version != Some(t.addons[id].version)
        ||| t.addons[id].md5 is None
        ||| t.addons[id].file_name is None
        ||| t.addons[id].download is None
    }
}

/// `ids` are the addons that lack details, in ascending order.
pub open spec fn are_lacking(t: Tables, ids: Seq<i32>) -> bool {
    &&& forall|i: int, j: int| 0 <= i < j < ids.len() ==> #[trigger] ids[i] < #[trigger] ids[j]
    &&& forall|id: i32| ids.contains(id) <==> #[trigger] lacks_details(t, id)
}

/// The addon `id` is installed, and the catalogue has it with a later date or in another
/// version.
pub open spec fn is_outdated(t: Tables, id: i32) -> bool {
    &&& t.installed.contains_key(id)
    &&& t.addons.contains_key(id)
    &&& {
        ||| text_before(t.installed[id].date, t.addons[id].date)
        ||| t.installed[id].version != t.addons[id].version
    }
}

/// The outdated addon `id` as it is shown.
pub open spec fn details_row(t: Tables, id: i32) -> DetailsRow {
    DetailsRow {
        id,
        category_id: t.addons[id].category_id,
        name: t.addons[id].name,
        version: t.installed[id].version,
        date: t.installed[id].date,
        installed: true,
    }
}

/// `rows` are the outdated addons, in ascending order of their identifiers.
pub open spec fn are_outdated(t: Tables, rows: Seq<DetailsRow>) -> bool {
    &&& forall|i: int, j: int|
        0 <= i < j < rows.len() ==> (#[trigger] rows[i]).id < (#[trigger] rows[j]).id
    &&& forall|i: int|
        0 <= i < rows.len() ==> is_outdated(t, (#[trigger] rows[i]).id) && rows[i] == details_row(
            t,
            rows[i].id,
        )
    &&& forall|id: i32| #[trigger]
        is_outdated(t, id) ==> exists|i: int| 0 <= i < rows.len() && (#[trigger] rows[i]).id == id
}

/// The directory `dir` belongs to an installed addon.
pub open spec fn is_installed_dir(t: Tables, dir: Seq<char>) -> bool {
    exists|k: i32| #[trigger] t.dirs.contains((k, dir)) && t.installed.contains_key(k)
}

/// `o` is offered as a missing dependency: a directory of an installed addon that has
/// dependencies, where the directory belongs to no installed addon.
pub open spec fn is_offered(t: Tables, o: DepRow) -> bool {
    &&& t.installed.contains_key(o.id)
    &&& t.addons.contains_key(o.id)
    &&& o.name == t.addons[o.id].name
    &&& t.dirs.contains((o.id, o.dir))
    &&& exists|d: Seq<char>| #[trigger] t.dependencies.contains((o.id, d))
    &&& !is_installed_dir(t, o.dir)
}

/// `rows` are the missing dependencies that are offered, in the order of their directories.
pub open spec fn are_offers(t: Tables, rows: Seq<DepRow>) -> bool {
    &&& forall|i: int, j: int|
        0 <= i < j < rows.len() ==> !text_before((#[trigger] rows[j]).dir, (#[trigger] rows[i]).dir)
    &&& forall|o: DepRow| rows.contains(o) <==> #[trigger] is_offered(t, o)
}

impl AddonService {
    /// Whether the details of an addon are missing or outdated.
    fn is_lacking(&self, a: &addon::Model) -> (b: bool)
        requires
            self.wf(),
            self.db@.tables.addons.contains_key(a.id),
            self.db@.tables.addons[a.id] == a@,
        ensures
            b == lacks_details(self.db@.tables, a.id),
    {
        if a.md5.is_none() || a.file_name.is_none() || a.download.is_none() {
            return true;
        }
        match self.db.details.get(a.id) {
            Some(d) => match &d.version {
                Some(v) => !(*v == a.version),
                None => true,
            },
            None => true,
        }
    }

    /// The addons whose details are missing or outdated.
    pub fn get_missing_addon_detail_ids(&self) -> (ids: Vec<i32>)
        requires
            self.wf(),
        ensures
            are_lacking(self.db@.tables, ids@),
    {
        let ghost t = self.db@.tables;
        let ghost rows = self.db.addons.rows();
        let n = self.db.addons.len();
        let mut ids: Vec<i32> = Vec::new();
        let mut i: usize = 0;
        while i < n
            invariant
                i <= n == rows.len(),
                self.wf(),
                t == self.db@.tables,
                rows == self.db.addons.rows(),
                forall|a: int, b: int| 0 <= a < b < ids@.len() ==> ids@[a] < ids@[b],
                forall|a: int, j: int|
                    0 <= a < ids@.len() && i <= j < n ==> #[trigger] ids@[a] < (
                    #[trigger] rows[j]).id,
                forall|a: int| 0 <= a < ids@.len() ==> lacks_details(t, #[trigger] ids@[a]),
                forall|j: int|
                    0 <= j < i && lacks_details(t, (#[trigger] rows[j]).id) ==> ids@.contains(
                        rows[j].id,
                    ),
            decreases n - i,
        {
            let a = self.db.addons.row(i);
            let ghost before = ids@;
            proof {
                lemma_by_key::<addon::Model>(rows, i as int);
            }
            if self.is_lacking(a) {
                ids.push(a.id);
                assert(ids@[ids@.len() - 1] == a.id);
            }
            proof {
                assert forall|j: int|
                    0 <= j < i + 1 && lacks_details(t, (#[trigger] rows[j]).id) implies ids@.contains(
                    rows[j].id,
                ) by {
                    if j < i {
                        let m = before.index_of(rows[j].id);
                        assert(ids@[m] == before[m]);
                    } else {
                        assert(ids@[ids@.len() - 1] == rows[j].id);
                    }
                }
            }
            i += 1;
        }
        proof {
            assert forall|id: i32| ids@.contains(id) <==> #[trigger] lacks_details(t, id) by {
                if lacks_details(t, id) {
                    let j = lemma_row_of_key::<addon::Model>(rows, id);
                    assert(lacks_details(t, rows[j].id));
                }
                if ids@.contains(id) {
                    let m = ids@.index_of(id);
                    assert(lacks_details(t, ids@[m]));
                }
            }
        }
        ids
    }

    /// The installed addons that the catalogue has with a later date or in another version.
    pub fn get_outdated_addons(&self) -> (r: Vec<AddonDetails>)
        requires
            self.wf(),
        ensures
            are_outdated(self.db@.tables, views(r@)),
    {
        let ghost t = self.db@.tables;
        let ghost rows = self.db.installed.rows();
        let n = self.db.installed.len();
        let mut r: Vec<AddonDetails> = Vec::new();
        let mut i: usize = 0;
        while i < n
            invariant
                i <= n == rows.len(),
                self.wf(),
                t == self.db@.tables,
                rows == self.db.installed.rows(),
                forall|a: int, b: int|
                    0 <= a < b < r@.len() ==> (#[trigger] r@[a]).id < (#[trigger] r@[b]).id,
                forall|a: int, j: int|
                    0 <= a < r@.len() && i <= j < n ==> (#[trigger] r@[a]).id < (
                    #[trigger] rows[j]).addon_id,
                forall|a: int|
                    0 <= a < r@.len() ==> is_outdated(t, (#[trigger] r@[a]).id) && r@[a]@
                        == details_row(t, r@[a].id),
                forall|j: int|
                    0 <= j < i && is_outdated(t, (#[trigger] rows[j]).addon_id) ==> exists|m: int|
                        0 <= m < r@.len() && (#[trigger] r@[m]).id == rows[j].addon_id,
            decreases n - i,
        {
            let row = self.db.installed.row(i);
            let ghost before = r@;
            proof {
                lemma_by_key::<installed_addon::Model>(rows, i as int);
            }
            match self.db.addons.get(row.addon_id) {
                Some(a) => {
                    if is_before(row.date.as_str(), a.date.as_str()) || !(row.version
                        == a.version) {
                        let d = AddonDetails {
                            id: row.addon_id,
                            category_id: a.category_id.clone(),
                            name: a.name.clone(),
                            version: row.version.clone(),
                            date: row.date.clone(),
                            installed: true,
                        };
                        r.push(d);
                        assert(r@[r@.len() - 1] == d);
                    }
                },
                None => {},
            }
            proof {
                assert forall|j: int|
                    0 <= j < i + 1 && is_outdated(
                        t,
                        (#[trigger] rows[j]).addon_id,
                    ) implies exists|m: int|
                    0 <= m < r@.len() && (#[trigger] r@[m]).id == rows[j].addon_id by {
                    if j < i {
                        let m = choose|m: int|
                            0 <= m < before.len() && (#[trigger] before[m]).id == rows[j].addon_id;
                        assert(r@[m] == before[m]);
                    } else {
                        assert(r@[r@.len() - 1].id == rows[j].addon_id);
                    }
                }
            }
            i += 1;
        }
        proof {
            assert forall|id: i32| #[trigger] is_outdated(t, id) implies exists|m: int|
                0 <= m < views(r@).len() && (#[trigger] views(r@)[m]).id == id by {
                let j = lemma_row_of_key::<installed_addon::Model>(rows, id);
                assert(is_outdated(t, rows[j].addon_id));
                let m = choose|m: int|
                    0 <= m < r@.len() && (#[trigger] r@[m]).id == rows[j].addon_id;
                assert(views(r@)[m].id == id);
            }
        }
        r
    }

    /// Whether an addon has dependencies.
    fn depends(&self, addon_id: i32) -> (b: bool)
        requires
            self.wf(),
        ensures
            b == exists|d: Seq<char>| #[trigger]
                self.db@.tables.dependencies.contains((addon_id, d)),
    {
        let ghost rows = self.db.dependencies.rows();
        let n = self.db.dependencies.len();
        let mut i: usize = 0;
        while i < n
            invariant
                i <= n == rows.len(),
                rows == self.db.dependencies.rows(),
                forall|j: int| 0 <= j < i ==> (#[trigger] rows[j]).0 != addon_id,
            decreases n - i,
        {
            let row = self.db.dependencies.row(i);
            assert(row@ == rows[i as int]);
            if row.addon_id == addon_id {
                assert(rows.contains(rows[i as int]));
                assert(self.db@.tables.dependencies.contains((addon_id, row.dependency_dir@)));
                return true;
            }
            i += 1;
        }
        proof {
            assert forall|d: Seq<char>| !#[trigger]
                self.db@.tables.dependencies.contains((addon_id, d)) by {
                if rows.contains((addon_id, d)) {
                    let j = rows.index_of((addon_id, d));
                    assert(rows[j].0 == addon_id);
                }
            }
        }
        false
    }

    /// Whether a directory belongs to an installed addon.
    fn is_provided(&self, dir: &String) -> (b: bool)
        requires
            self.wf(),
        ensures
            b == is_installed_dir(self.db@.tables, dir@),
    {
        let ghost t = self.db@.tables;
        let ghost rows = self.db.dirs.rows();
        let n = self.db.dirs.len();
        let mut i: usize = 0;
        while i < n
            invariant
                i <= n == rows.len(),
                self.wf(),
                t == self.db@.tables,
                rows == self.db.dirs.rows(),
                forall|j: int|
                    0 <= j < i ==> !((#[trigger] rows[j]).1 == dir@ && t.installed.contains_key(
                        rows[j].0,
                    )),
            decreases n - i,
        {
            let row = self.db.dirs.row(i);
            assert(row@ == rows[i as int]);
            if row.dir == *dir && self.db.installed.get(row.addon_id).is_some() {
                assert(rows.contains(rows[i as int]));
                assert(t.dirs.contains((row.addon_id, dir@)));
                return true;
            }
            i += 1;
        }
        assert(!is_installed_dir(t, dir@)) by {
            if is_installed_dir(t, dir@) {
                let k = choose|k: i32| #[trigger]
                    t.dirs.contains((k, dir@)) && t.installed.contains_key(k);
                assert(rows.contains((k, dir@)));
                let j = rows.index_of((k, dir@));
                assert(rows[j] == (k, dir@));
            }
        }
        false
    }

    /// The addons that would provide directories that installed addons need. An installed addon
    /// provides its own directories, so that none is ever found missing.
    pub fn get_missing_dependency_options(&self) -> (r: Vec<AddonDepOption>)
        requires
            self.wf(),
        ensures
            are_offers(self.db@.tables, views(r@)),
            r@.len() == 0,
    {
        let ghost t = self.db@.tables;
        let n = self.db.dirs.len();
        let mut r: Vec<AddonDepOption> = Vec::new();
        let mut i: usize = 0;
        while i < n
            invariant
                i <= n == self.db.dirs.rows().len(),
                self.wf(),
                t == self.db@.tables,
                r@.len() == 0,
            decreases n - i,
        {
            let row = self.db.dirs.row(i);
            match (self.db.installed.get(row.addon_id), self.db.addons.get(row.addon_id)) {
                (Some(_), Some(a)) => {
                    if self.depends(row.addon_id) && !self.is_provided(&row.dir) {
                        let o = AddonDepOption {
                            id: row.addon_id,
                            name: a.name.clone(),
                            dir: row.dir.clone(),
                        };
                        proof {
                            assert(self.db.dirs.rows().contains(self.db.dirs.rows()[i as int]));
                            assert(t.dirs.contains((o.id, o.dir@)));
                            lemma_nothing_offered(t, o@);
                        }
                        r.push(o);
                    }
                },
                _ => {},
            }
            i += 1;
        }
        proof {
            assert forall|o: DepRow| views(r@).contains(o) <==> #[trigger] is_offered(t, o) by {
                lemma_nothing_offered(t, o);
            }
        }
        r
    }
}

/// A directory of an installed addon belongs to an installed addon, so that no missing
/// dependency is ever offered.
pub proof fn lemma_nothing_offered(t: Tables, o: DepRow)
    ensures
        !is_offered(t, o),
{
    if is_offered(t, o) {
        assert(t.dirs.contains((o.id, o.dir)) && t.installed.contains_key(o.id));
    }
}

// ---------------------------------------------------------------------------------------------
// Categories
// ---------------------------------------------------------------------------------------------

/// The category `k` has categories below it, and is not the root.
pub open spec fn is_parent(t: Tables, k: i32) -> bool {
    k != 0 && t.categories.contains_key(k) && exists|c: i32| #[trigger] t.parents.contains((c, k))
}

/// The category `c` lies below the category `k`.
pub open spec fn is_child(t: Tables, c: i32, k: i32) -> bool {
    t.categories.contains_key(c) && t.parents.contains((c, k))
}

/// `rows` are the categories below `k`, in ascending order of their identifiers.
pub open spec fn are_children(t: Tables, k: i32, rows: Seq<CategoryRow>) -> bool {
    &&& forall|i: int, j: int|
        0 <= i < j < rows.len() ==> (#[trigger] rows[i]).id < (#[trigger] rows[j]).id
    &&& forall|i: int|
        0 <= i < rows.len() ==> is_child(t, (#[trigger] rows[i]).id, k) && rows[i]
            == t.categories[rows[i].id]
    &&& forall|c: i32| #[trigger]
        is_child(t, c, k) ==> exists|i: int| 0 <= i < rows.len() && (#[trigger] rows[i]).id == c
}

/// `rows` are the parent categories with the categories below each, in ascending order of their
/// identifiers.
pub open spec fn are_parents(t: Tables, rows: Seq<ParentRow>) -> bool {
    &&& forall|i: int, j: int|
        0 <= i < j < rows.len() ==> (#[trigger] rows[i]).id < (#[trigger] rows[j]).id
    &&& forall|i: int|
        0 <= i < rows.len() ==> is_parent(t, (#[trigger] rows[i]).id) && rows[i].title
            == t.categories[rows[i].id].title && are_children(
            t,
            rows[i].id,
            rows[i].child_categories,
        )
    &&& forall|k: i32| #[trigger]
        is_parent(t, k) ==> exists|i: int| 0 <= i < rows.len() && (#[trigger] rows[i]).id == k
}

impl AddonService {
    /// Whether some category has the parent `k`.
    fn has_child(&self, k: i32) -> (b: bool)
        requires
            self.wf(),
        ensures
            b == exists|c: i32| #[trigger] self.db@.tables.parents.contains((c, k)),
    {
        let ghost rows = self.db.parents.rows();
        let n = self.db.parents.len();
        let mut i: usize = 0;
        while i < n
            invariant
                i <= n == rows.len(),
                rows == self.db.parents.rows(),
                forall|j: int| 0 <= j < i ==> (#[trigger] rows[j]).1 != k,
            decreases n - i,
        {
            let row = self.db.parents.row(i);
            assert(row@ == rows[i as int]);
            if row.parent_id == k {
                assert(rows.contains(rows[i as int]));
                assert(self.db@.tables.parents.contains((row.id, k)));
                return true;
            }
            i += 1;
        }
        proof {
            assert forall|c: i32| !#[trigger] self.db@.tables.parents.contains((c, k)) by {
                if rows.contains((c, k)) {
                    let j = rows.index_of((c, k));
                    assert(rows[j].1 == k);
                }
            }
        }
        false
    }

    /// The categories below `k`.
    fn children(&self, k: i32) -> (r: Vec<category::Model>)
        requires
            self.wf(),
        ensures
            are_children(self.db@.tables, k, views(r@)),
    {
        let ghost t = self.db@.tables;
        let ghost rows = self.db.categories.rows();
        let n = self.db.categories.len();
        let mut r: Vec<category::Model> = Vec::new();
        let mut i: usize = 0;
        while i < n
            invariant
                i <= n == rows.len(),
                self.wf(),
                t == self.db@.tables,
                rows == self.db.categories.rows(),
                forall|a: int, b: int|
                    0 <= a < b < r@.len() ==> (#[trigger] r@[a]).id < (#[trigger] r@[b]).id,
                forall|a: int, j: int|
                    0 <= a < r@.len() && i <= j < n ==> (#[trigger] r@[a]).id < (
                    #[trigger] rows[j]).id,
                forall|a: int|
                    0 <= a < r@.len() ==> is_child(t, (#[trigger] r@[a]).id, k) && r@[a]@
                        == t.categories[r@[a].id],
                forall|j: int|
                    0 <= j < i && is_child(t, (#[trigger] rows[j]).id, k) ==> exists|m: int|
                        0 <= m < r@.len() && (#[trigger] r@[m]).id == rows[j].id,
            decreases n - i,
        {
            let c = self.db.categories.row(i);
            let ghost before = r@;
            proof {
                lemma_by_key::<category::Model>(rows, i as int);
            }
            let link = category_parent::Model { id: c.id, parent_id: k };
            if self.db.parents.contains(&link) {
                let row = c.clone();
                r.push(row);
                assert(r@[r@.len() - 1] == row);
            }
            proof {
                assert forall|j: int|
                    0 <= j < i + 1 && is_child(t, (#[trigger] rows[j]).id, k) implies exists|m: int|
                    0 <= m < r@.len() && (#[trigger] r@[m]).id == rows[j].id by {
                    if j < i {
                        let m = choose|m: int|
                            0 <= m < before.len() && (#[trigger] before[m]).id == rows[j].id;
                        assert(r@[m] == before[m]);
                    } else {
                        assert(r@[r@.len() - 1].id == rows[j].id);
                    }
                }
            }
            i += 1;
        }
        proof {
            assert forall|c: i32| #[trigger] is_child(t, c, k) implies exists|m: int|
                0 <= m < views(r@).len() && (#[trigger] views(r@)[m]).id == c by {
                let j = lemma_row_of_key::<category::Model>(rows, c);
                assert(is_child(t, rows[j].id, k));
                let m = choose|m: int| 0 <= m < r@.len() && (#[trigger] r@[m]).id == rows[j].id;
                assert(views(r@)[m].id == c);
            }
        }
        r
    }

    /// The categories that have categories below them, each with those.
    pub fn get_category_parents(&self) -> (r: Vec<ParentCategory>)
        requires
            self.wf(),
        ensures
            are_parents(self.db@.tables, views(r@)),
    {
        let ghost t = self.db@.tables;
        let ghost rows = self.db.categories.rows();
        let n = self.db.categories.len();
        let mut r: Vec<ParentCategory> = Vec::new();
        let mut i: usize = 0;
        while i < n
            invariant
                i <= n == rows.len(),
                self.wf(),
                t == self.db@.tables,
                rows == self.db.categories.rows(),
                forall|a: int, b: int|
                    0 <= a < b < r@.len() ==> (#[trigger] r@[a]).id < (#[trigger] r@[b]).id,
                forall|a: int, j: int|
                    0 <= a < r@.len() && i <= j < n ==> (#[trigger] r@[a]).id < (
                    #[trigger] rows[j]).id,
                forall|a: int|
                    0 <= a < r@.len() ==> is_parent(t, (#[trigger] r@[a]).id) && r@[a]@.title
                        == t.categories[r@[a].id].title && are_children(
                        t,
                        r@[a].id,
                        r@[a]@.child_categories,
                    ),
                forall|j: int|
                    0 <= j < i && is_parent(t, (#[trigger] rows[j]).id) ==> exists|m: int|
                        0 <= m < r@.len() && (#[trigger] r@[m]).id == rows[j].id,
            decreases n - i,
        {
            let c = self.db.categories.row(i);
            let ghost before = r@;
            proof {
                lemma_by_key::<category::Model>(rows, i as int);
            }
            if c.id != 0 && self.has_child(c.id) {
                let row = ParentCategory {
                    id: c.id,
                    title: c.title.clone(),
                    child_categories: self.children(c.id),
                };
                r.push(row);
                assert(r@[r@.len() - 1] == row);
            }
            proof {
                assert forall|j: int|
                    0 <= j < i + 1 && is_parent(t, (#[trigger] rows[j]).id) implies exists|m: int|
                    0 <= m < r@.len() && (#[trigger] r@[m]).id == rows[j].id by {
                    if j < i {
                        let m = choose|m: int|
                            0 <= m < before.len() && (#[trigger] before[m]).id == rows[j].id;
                        assert(r@[m] == before[m]);
                    } else {
                        assert(r@[r@.len() - 1].id == rows[j].id);
                    }
                }
            }
            i += 1;
        }
        proof {
            assert forall|k: i32| #[trigger] is_parent(t, k) implies exists|m: int|
                0 <= m < views(r@).len() && (#[trigger] views(r@)[m]).id == k by {
                let j = lemma_row_of_key::<category::Model>(rows, k);
                assert(is_parent(t, rows[j].id));
                let m = choose|m: int| 0 <= m < r@.len() && (#[trigger] r@[m]).id == rows[j].id;
                assert(views(r@)[m].id == k);
            }
        }
        r
    }
}

} // verus!
