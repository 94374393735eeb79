//! The catalogue: its tables, and the statements that change them.

use vstd::prelude::*;
use crate::entity::addon;
use crate::entity::addon::AddonRow;
use crate::entity::addon_dependency;
use crate::entity::addon_detail;
use crate::entity::addon_detail::DetailRow;
use crate::entity::addon_dir;
use crate::entity::category;
use crate::entity::category::CategoryRow;
use crate::entity::category_parent;
use crate::entity::installed_addon;
use crate::entity::installed_addon::InstalledRow;
use crate::error::ServiceError;
use crate::table::{lemma_union_push, views, Comparable, Owned, RowSet, Table};
use crate::text::copy_text;

verus! {

/// What the catalogue service tells of an addon in its list: the columns of `addon` that a
/// refresh of the list sets.
#[derive(Debug, PartialEq, Eq)]
pub struct Listing {
    pub id: i32,
    pub category_id: String,
    pub version: String,
    pub date: String,
    pub name: String,
    pub author_name: String,
    pub file_info_url: String,
    pub download_total: String,
    pub download_monthly: String,
    pub favorite_total: String,
}

/// What a listing holds.
#[verifier::ext_equal]
pub struct ListingRow {
    pub id: i32,
    pub category_id: Seq<char>,
    pub version: Seq<char>,
    pub date: Seq<char>,
    pub name: Seq<char>,
    pub author_name: Seq<char>,
    pub file_info_url: Seq<char>,
    pub download_total: Seq<char>,
    pub download_monthly: Seq<char>,
    pub favorite_total: Seq<char>,
}

impl View for Listing {
    type V = ListingRow;

    open spec fn view(&self) -> ListingRow {
        ListingRow {
            id: self.id,
            category_id: self.category_id@,
            version: self.version@,
            date: self.date@,
            name: self.name@,
            author_name: self.author_name@,
            file_info_url: self.file_info_url@,
            download_total: self.download_total@,
            download_monthly: self.download_monthly@,
            favorite_total: self.favorite_total@,
        }
    }
}

/// A statement that changes the catalogue.
#[derive(Debug, PartialEq, Eq)]
pub enum Write {
    /// Adds the listed addons; where an addon is there already, sets the listed columns and
    /// leaves the others.
    UpsertAddons(Vec<Listing>),
    /// Deletes the directories of the given addons.
    DeleteAddonDirs(Vec<i32>),
    /// Adds directories, all or none; a directory that the addon has already is an error.
    InsertAddonDirs(Vec<addon_dir::Model>),
    /// Adds categories or replaces them.
    UpsertCategories(Vec<category::Model>),
    /// Adds parents of categories; what is there already stays.
    InsertCategoryParents(Vec<category_parent::Model>),
    /// Records an installed addon or replaces the record.
    UpsertInstalled(installed_addon::Model),
    /// Adds dependencies; what is there already stays.
    InsertDependencies(Vec<addon_dependency::Model>),
    /// Deletes the record of an installed addon.
    DeleteInstalled(i32),
    /// Sets the file columns of an addon.
    SetAddonFile { id: i32, md5: String, file_name: String, download: String },
    /// Adds the details of an addon or replaces them.
    UpsertDetail(addon_detail::Model),
}

/// What a statement holds.
pub enum WriteView {
    UpsertAddons(Seq<ListingRow>),
    DeleteAddonDirs(Seq<i32>),
    InsertAddonDirs(Seq<(i32, Seq<char>)>),
    UpsertCategories(Seq<CategoryRow>),
    InsertCategoryParents(Seq<(i32, i32)>),
    UpsertInstalled(InstalledRow),
    InsertDependencies(Seq<(i32, Seq<char>)>),
    DeleteInstalled(i32),
    SetAddonFile { id: i32, md5: Seq<char>, file_name: Seq<char>, download: Seq<char> },
    UpsertDetail(DetailRow),
}

impl View for Write {
    type V = WriteView;

    open spec fn view(&self) -> WriteView {
        match *self {
            Write::UpsertAddons(rows) => WriteView::UpsertAddons(views(rows@)),
            Write::DeleteAddonDirs(ids) => WriteView::DeleteAddonDirs(ids@),
            Write::InsertAddonDirs(rows) => WriteView::InsertAddonDirs(views(rows@)),
            Write::UpsertCategories(rows) => WriteView::UpsertCategories(views(rows@)),
            Write::InsertCategoryParents(rows) => WriteView::InsertCategoryParents(views(rows@)),
            Write::UpsertInstalled(row) => WriteView::UpsertInstalled(row@),
            Write::InsertDependencies(rows) => WriteView::InsertDependencies(views(rows@)),
            Write::DeleteInstalled(id) => WriteView::DeleteInstalled(id),
            Write::SetAddonFile { id, md5, file_name, download } => WriteView::SetAddonFile {
                id,
                md5: md5@,
                file_name: file_name@,
                download: download@,
            },
            Write::UpsertDetail(row) => WriteView::UpsertDetail(row@),
        }
    }
}

/// The contents of the tables.
#[verifier::ext_equal]
pub struct Tables {
    pub addons: Map<i32, AddonRow>,
    pub installed: Map<i32, InstalledRow>,
    pub dirs: Set<(i32, Seq<char>)>,
    pub dependencies: Set<(i32, Seq<char>)>,
    pub details: Map<i32, DetailRow>,
    pub categories: Map<i32, CategoryRow>,
    pub parents: Set<(i32, i32)>,
}

/// An addon after it was listed: the listed columns from the listing, the others from the row
/// that was there, or empty.
pub open spec fn listed(addons: Map<i32, AddonRow>, l: ListingRow) -> AddonRow {
    let known = addons.contains_key(l.id);
    AddonRow {
        id: l.id,
        category_id: l.category_id,
        version: l.version,
        date: l.date,
        name: l.name,
        author_name: Some(l.author_name),
        file_info_url: Some(l.file_info_url),
        download_total: Some(l.download_total),
        download_monthly: Some(l.download_monthly),
        favorite_total: Some(l.favorite_total),
        md5: if known { addons[l.id].md5 } else { None },
        file_name: if known { addons[l.id].file_name } else { None },
        download: if known { addons[l.id].download } else { None },
    }
}

/// The addons after a list of listings, one after the other.
pub open spec fn all_listed(addons: Map<i32, AddonRow>, list: Seq<ListingRow>) -> Map<i32, AddonRow>
    decreases list.len(),
{
    if list.len() == 0 {
        addons
    } else {
        let before = all_listed(addons, list.drop_last());
        before.insert(list.last().id, listed(before, list.last()))
    }
}

/// The categories after a list of categories, one after the other.
pub open spec fn all_categories(
    categories: Map<i32, CategoryRow>,
    list: Seq<CategoryRow>,
) -> Map<i32, CategoryRow>
    decreases list.len(),
{
    if list.len() == 0 {
        categories
    } else {
        all_categories(categories, list.drop_last()).insert(list.last().id, list.last())
    }
}

impl Tables {
    /// The tables after a statement, or `None` if it cannot be carried out. A statement that
    /// inserts a list of rows cannot be carried out without rows.
    pub open spec fn after(self, w: WriteView) -> Option<Tables> {
        match w {
            WriteView::UpsertAddons(list) => if list.len() == 0 {
                None
            } else {
                Some(Tables { addons: all_listed(self.addons, list), ..self })
            },
            WriteView::DeleteAddonDirs(ids) => Some(
                Tables {
                    dirs: self.dirs.filter(|d: (i32, Seq<char>)| !ids.contains(d.0)),
                    ..self
                },
            ),
            WriteView::InsertAddonDirs(list) => if list.len() == 0 || !list.no_duplicates() || (
            exists|i: int| 0 <= i < list.len() && self.dirs.contains(#[trigger] list[i])) {
                None
            } else {
                Some(Tables { dirs: self.dirs.union(list.to_set()), ..self })
            },
            WriteView::UpsertCategories(list) => if list.len() == 0 {
                None
            } else {
                Some(Tables { categories: all_categories(self.categories, list), ..self })
            },
            WriteView::InsertCategoryParents(list) => if list.len() == 0 {
                None
            } else {
                Some(Tables { parents: self.parents.union(list.to_set()), ..self })
            },
            WriteView::UpsertInstalled(row) => Some(
                Tables { installed: self.installed.insert(row.addon_id, row), ..self },
            ),
            WriteView::InsertDependencies(list) => if list.len() == 0 {
                None
            } else {
                Some(Tables { dependencies: self.dependencies.union(list.to_set()), ..self })
            },
            WriteView::DeleteInstalled(id) => Some(
                Tables { installed: self.installed.remove(id), ..self },
            ),
            WriteView::SetAddonFile { id, md5, file_name, download } => if self.addons.contains_key(
                id,
            ) {
                Some(
                    Tables {
                        addons: self.addons.insert(
                            id,
                            AddonRow {
                                md5: Some(md5),
                                file_name: Some(file_name),
                                download: Some(download),
                                ..self.addons[id]
                            },
                        ),
                        ..self
                    },
                )
            } else {
                None
            },
            WriteView::UpsertDetail(row) => Some(
                Tables { details: self.details.insert(row.id, row), ..self },
            ),
        }
    }
}

/// The catalogue as seen from outside.
#[verifier::ext_equal]
pub struct DatabaseView {
    /// The contents of the tables.
    pub tables: Tables,
    /// The statements that led to them and are still to be stored.
    pub journal: Seq<WriteView>,
}

impl DatabaseView {
    /// The catalogue after a statement: a statement that cannot be carried out changes nothing.
    pub open spec fn after(self, w: WriteView) -> DatabaseView {
        match self.tables.after(w) {
            Some(tables) => DatabaseView { tables, journal: self.journal.push(w) },
            None => self,
        }
    }

    /// All of the statements can be carried out, one after the other.
    pub open spec fn accepts(self, list: Seq<WriteView>) -> bool
        decreases list.len(),
    {
        list.len() == 0 || (self.accepts(list.drop_last()) && self.run(
            list.drop_last(),
        ).tables.after(list.last()) is Some)
    }

    /// The catalogue after statements, one after the other, up to the first that cannot be
    /// carried out.
    pub open spec fn run(self, list: Seq<WriteView>) -> DatabaseView
        decreases list.len(),
    {
        if list.len() == 0 {
            self
        } else {
            let before = self.run(list.drop_last());
            if self.accepts(list.drop_last()) {
                before.after(list.last())
            } else {
                before
            }
        }
    }
}

/// A statement more.
pub proof fn lemma_run_push(d: DatabaseView, list: Seq<WriteView>, w: WriteView)
    ensures
        d.accepts(list.push(w)) == (d.accepts(list) && d.run(list).tables.after(w) is Some),
        d.accepts(list) ==> d.run(list.push(w)) == d.run(list).after(w),
        !d.accepts(list) ==> d.run(list.push(w)) == d.run(list),
{
    assert(list.push(w).drop_last() =~= list);
}

/// No statements.
pub proof fn lemma_run_none(d: DatabaseView)
    ensures
        d.accepts(Seq::empty()),
        d.run(Seq::empty()) == d,
{
}

/// The catalogue.
pub struct Database {
    pub addons: Table<addon::Model>,
    pub installed: Table<installed_addon::Model>,
    pub dirs: RowSet<addon_dir::Model>,
    pub dependencies: RowSet<addon_dependency::Model>,
    pub details: Table<addon_detail::Model>,
    pub categories: Table<category::Model>,
    pub parents: RowSet<category_parent::Model>,
    pub journal: Vec<Write>,
}

impl View for Database {
    type V = DatabaseView;

    open spec fn view(&self) -> DatabaseView {
        DatabaseView {
            tables: Tables {
                addons: self.addons@,
                installed: self.installed@,
                dirs: self.dirs@,
                dependencies: self.dependencies@,
                details: self.details@,
                categories: self.categories@,
                parents: self.parents@,
            },
            journal: views(self.journal@),
        }
    }
}

impl Database {
    /// Every table is well formed.
    pub open spec fn wf(&self) -> bool {
        &&& self.addons.wf()
        &&& self.installed.wf()
        &&& self.dirs.wf()
        &&& self.dependencies.wf()
        &&& self.details.wf()
        &&& self.categories.wf()
        &&& self.parents.wf()
    }

    /// An empty catalogue.
    pub fn new() -> (d: Database)
        ensures
            d.wf(),
            d@ == (DatabaseView {
                tables: Tables {
                    addons: Map::empty(),
                    installed: Map::empty(),
                    dirs: Set::empty(),
                    dependencies: Set::empty(),
                    details: Map::empty(),
                    categories: Map::empty(),
                    parents: Set::empty(),
                },
                journal: Seq::empty(),
            }),
    {
        let d = Database {
            addons: Table::new(),
            installed: Table::new(),
            dirs: RowSet::new(),
            dependencies: RowSet::new(),
            details: Table::new(),
            categories: Table::new(),
            parents: RowSet::new(),
            journal: Vec::new(),
        };
        assert(views(d.journal@) =~= Seq::<WriteView>::empty());
        d
    }

    fn upsert_addons(&mut self, list: &Vec<Listing>)
        requires
            old(self).wf(),
        ensures
            final(self).wf(),
            final(self)@ == (DatabaseView {
                tables: Tables {
                    addons: all_listed(old(self)@.tables.addons, views(list@)),
                    ..old(self)@.tables
                },
                ..old(self)@
            }),
    {
        let ghost start = self@;
        let ghost rows = views(list@);
        let mut i: usize = 0;
        assert(rows.take(0) =~= Seq::empty());
        while i < list.len()
            invariant
                i <= list.len(),
                rows == views(list@),
                self.wf(),
                self@ == (DatabaseView {
                    tables: Tables {
                        addons: all_listed(start.tables.addons, rows.take(i as int)),
                        ..start.tables
                    },
                    ..start
                }),
            decreases list.len() - i,
        {
            let l = &list[i];
            let (md5, file_name, download) = match self.addons.get(l.id) {
                Some(a) => (copy_text(&a.md5), copy_text(&a.file_name), copy_text(&a.download)),
                None => (None, None, None),
            };
            let row = addon::Model {
                id: l.id,
                category_id: l.category_id.clone(),
                version: l.version.clone(),
                date: l.date.clone(),
                name: l.name.clone(),
                author_name: Some(l.author_name.clone()),
                file_info_url: Some(l.file_info_url.clone()),
                download_total: Some(l.download_total.clone()),
                download_monthly: Some(l.download_monthly.clone()),
                favorite_total: Some(l.favorite_total.clone()),
                md5,
                file_name,
                download,
            };
            assert(row@ == listed(self@.tables.addons, rows[i as int]));
            assert(rows.take(i + 1).drop_last() =~= rows.take(i as int));
            self.addons.put(row);
            i += 1;
        }
        assert(rows.take(i as int) =~= rows);
    }

    fn upsert_categories(&mut self, list: &Vec<category::Model>)
        requires
            old(self).wf(),
        ensures
            final(self).wf(),
            final(self)@ == (DatabaseView {
                tables: Tables {
                    categories: all_categories(old(self)@.tables.categories, views(list@)),
                    ..old(self)@.tables
                },
                ..old(self)@
            }),
    {
        let ghost start = self@;
        let ghost rows = views(list@);
        let mut i: usize = 0;
        assert(rows.take(0) =~= Seq::empty());
        while i < list.len()
            invariant
                i <= list.len(),
                rows == views(list@),
                self.wf(),
                self@ == (DatabaseView {
                    tables: Tables {
                        categories: all_categories(start.tables.categories, rows.take(i as int)),
                        ..start.tables
                    },
                    ..start
                }),
            decreases list.len() - i,
        {
            assert(rows.take(i + 1).drop_last() =~= rows.take(i as int));
            assert(rows[i as int] == list@[i as int]@);
            self.categories.put(list[i].clone());
            i += 1;
        }
        assert(rows.take(i as int) =~= rows);
    }

    fn insert_dirs(&mut self, list: &Vec<addon_dir::Model>)
        requires
            old(self).wf(),
        ensures
            final(self).wf(),
            final(self)@ == (DatabaseView {
                tables: Tables {
                    dirs: old(self)@.tables.dirs.union(views(list@).to_set()),
                    ..old(self)@.tables
                },
                ..old(self)@
            }),
    {
        let ghost start = self@;
        let ghost rows = views(list@);
        let mut i: usize = 0;
        assert(start.tables.dirs.union(rows.take(0).to_set()) =~= start.tables.dirs);
        while i < list.len()
            invariant
                i <= list.len(),
                rows == views(list@),
                self.wf(),
                self@ == (DatabaseView {
                    tables: Tables {
                        dirs: start.tables.dirs.union(rows.take(i as int).to_set()),
                        ..start.tables
                    },
                    ..start
                }),
            decreases list.len() - i,
        {
            proof {
                lemma_union_push(start.tables.dirs, rows, i as int);
            }
            assert(rows[i as int] == list@[i as int]@);
            self.dirs.add_row(list[i].clone());
            i += 1;
        }
        assert(rows.take(i as int) =~= rows);
    }

    fn insert_dependencies(&mut self, list: &Vec<addon_dependency::Model>)
        requires
            old(self).wf(),
        ensures
            final(self).wf(),
            final(self)@ == (DatabaseView {
                tables: Tables {
                    dependencies: old(self)@.tables.dependencies.union(views(list@).to_set()),
                    ..old(self)@.tables
                },
                ..old(self)@
            }),
    {
        let ghost start = self@;
        let ghost rows = views(list@);
        let mut i: usize = 0;
        assert(start.tables.dependencies.union(rows.take(0).to_set())
            =~= start.tables.dependencies);
        while i < list.len()
            invariant
                i <= list.len(),
                rows == views(list@),
                self.wf(),
                self@ == (DatabaseView {
                    tables: Tables {
                        dependencies: start.tables.dependencies.union(
                            rows.take(i as int).to_set(),
                        ),
                        ..start.tables
                    },
                    ..start
                }),
            decreases list.len() - i,
        {
            proof {
                lemma_union_push(start.tables.dependencies, rows, i as int);
            }
            assert(rows[i as int] == list@[i as int]@);
            self.dependencies.add_row(list[i].clone());
            i += 1;
        }
        assert(rows.take(i as int) =~= rows);
    }

    fn insert_parents(&mut self, list: &Vec<category_parent::Model>)
        requires
            old(self).wf(),
        ensures
            final(self).wf(),
            final(self)@ == (DatabaseView {
                tables: Tables {
                    parents: old(self)@.tables.parents.union(views(list@).to_set()),
                    ..old(self)@.tables
                },
                ..old(self)@
            }),
    {
        let ghost start = self@;
        let ghost rows = views(list@);
        let mut i: usize = 0;
        assert(start.tables.parents.union(rows.take(0).to_set()) =~= start.tables.parents);
        while i < list.len()
            invariant
                i <= list.len(),
                rows == views(list@),
                self.wf(),
                self@ == (DatabaseView {
                    tables: Tables {
                        parents: start.tables.parents.union(rows.take(i as int).to_set()),
                        ..start.tables
                    },
                    ..start
                }),
            decreases list.len() - i,
        {
            proof {
                lemma_union_push(start.tables.parents, rows, i as int);
            }
            assert(rows[i as int] == list@[i as int]@);
            self.parents.add_row(list[i]);
            i += 1;
        }
        assert(rows.take(i as int) =~= rows);
    }

    /// Whether the directories can be added: none is there twice, none is in the table.
    fn are_new_dirs(&self, list: &Vec<addon_dir::Model>) -> (b: bool)
        ensures
            b == (views(list@).no_duplicates() && !exists|i: int|
                0 <= i < views(list@).len() && self@.tables.dirs.contains(
                    #[trigger] views(list@)[i],
                )),
    {
        let ghost rows = views(list@);
        let mut i: usize = 0;
        while i < list.len()
            invariant
                i <= list.len(),
                rows == views(list@),
                rows.len() == list.len(),
                forall|a: int, b: int| 0 <= a < b < i ==> rows[a] != rows[b],
                forall|a: int| 0 <= a < i ==> !self.dirs@.contains(#[trigger] rows[a]),
            decreases list.len() - i,
        {
            let row = &list[i];
            assert(rows[i as int] == row@);
            if self.dirs.contains(row) {
                return false;
            }
            let mut j: usize = 0;
            while j < i
                invariant
                    j <= i < list.len(),
                    rows == views(list@),
                    rows.len() == list.len(),
                    row@ == rows[i as int],
                    forall|a: int| 0 <= a < j ==> rows[a] != rows[i as int],
                decreases i - j,
            {
                assert(rows[j as int] == list@[j as int]@);
                if list[j].same(row) {
                    return false;
                }
                j += 1;
            }
            i += 1;
        }
        true
    }

    /// Carries out a statement and notes it in the journal.
    pub fn execute(&mut self, w: Write) -> (r: Result<(), ServiceError>)
        requires
            old(self).wf(),
        ensures
            final(self).wf(),
            final(self)@ == old(self)@.after(w@),
            r == (if old(self)@.tables.after(w@) is Some {
                Ok::<(), ServiceError>(())
            } else {
                Err::<(), ServiceError>(ServiceError::DbPut)
            }),
    {
        let ghost start = self@;
        match &w {
            Write::UpsertAddons(list) => {
                if list.len() == 0 {
                    return Err(ServiceError::DbPut);
                }
                self.upsert_addons(list);
            },
            Write::DeleteAddonDirs(ids) => {
                self.dirs.remove_owned(ids);
                assert(start.tables.dirs.filter(
                    |v: (i32, Seq<char>)| !ids@.contains(addon_dir::Model::owner_of(v)),
                ) =~= start.tables.dirs.filter(|d: (i32, Seq<char>)| !ids@.contains(d.0)));
            },
            Write::InsertAddonDirs(list) => {
                if list.len() == 0 || !self.are_new_dirs(list) {
                    return Err(ServiceError::DbPut);
                }
                self.insert_dirs(list);
            },
            Write::UpsertCategories(list) => {
                if list.len() == 0 {
                    return Err(ServiceError::DbPut);
                }
                self.upsert_categories(list);
            },
            Write::InsertCategoryParents(list) => {
                if list.len() == 0 {
                    return Err(ServiceError::DbPut);
                }
                self.insert_parents(list);
            },
            Write::UpsertInstalled(row) => {
                self.installed.put(row.clone());
            },
            Write::InsertDependencies(list) => {
                if list.len() == 0 {
                    return Err(ServiceError::DbPut);
                }
                self.insert_dependencies(list);
            },
            Write::DeleteInstalled(id) => {
                self.installed.delete(*id);
            },
            Write::SetAddonFile { id, md5, file_name, download } => {
                let row = match self.addons.get(*id) {
                    Some(a) => addon::Model {
                        md5: Some(md5.clone()),
                        file_name: Some(file_name.clone()),
                        download: Some(download.clone()),
                        ..a.clone()
                    },
                    None => {
                        return Err(ServiceError::DbPut);
                    },
                };
                self.addons.put(row);
            },
            Write::UpsertDetail(row) => {
                self.details.put(row.clone());
            },
        }
        let ghost v = w@;
        self.journal.push(w);
        assert(views(self.journal@) =~= start.journal.push(v));
        Ok(())
    }
}

} // verus!
