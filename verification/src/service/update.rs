//! Refreshing the catalogue.

use vstd::prelude::*;
use crate::api::{CategoryItem, CategoryItemRow, FileListItem, FileListRow};
use crate::config::Config;
use crate::database::{
    lemma_run_none, lemma_run_push, Listing, ListingRow, Write, WriteView,
};
use crate::entity::addon_dir;
use crate::entity::category;
use crate::entity::category::CategoryRow;
use crate::entity::category_parent;
use crate::error::ServiceError;
use crate::result::UpdateResult;
use crate::service::query::{are_lacking, are_offers};
use crate::service::AddonService;
use crate::table::views;
use crate::text::{number_of, parse_number};

verus! {

// ---------------------------------------------------------------------------------------------
// Categories
// ---------------------------------------------------------------------------------------------

/// Every item of the list has the numbers it needs.
pub open spec fn all_categories_numbered(list: Seq<CategoryItemRow>) -> bool {
    forall|i: int| 0 <= i < list.len() ==> (#[trigger] list[i]).is_numbered()
}

/// The row of a category.
pub open spec fn category_row(c: CategoryItemRow) -> CategoryRow {
    CategoryRow {
        id: number_of(c.id)->0,
        title: c.title,
        icon: Some(c.icon),
        file_count: Some(number_of(c.file_count)->0),
    }
}

/// The rows of a list of categories.
pub open spec fn category_rows(list: Seq<CategoryItemRow>) -> Seq<CategoryRow> {
    list.map_values(|c: CategoryItemRow| category_row(c))
}

/// The parents of a category, one row for each.
pub open spec fn parents_of(c: CategoryItemRow) -> Seq<(i32, i32)> {
    c.parent_ids.map_values(|p: Seq<char>| (number_of(c.id)->0, number_of(p)->0))
}

/// The parents of a list of categories.
pub open spec fn parent_rows(list: Seq<CategoryItemRow>) -> Seq<(i32, i32)>
    decreases list.len(),
{
    if list.len() == 0 {
        Seq::empty()
    } else {
        parent_rows(list.drop_last()) + parents_of(list.last())
    }
}

/// The statements that store a list of categories.
pub open spec fn category_writes(list: Seq<CategoryItemRow>) -> Seq<WriteView> {
    Seq::<WriteView>::empty().push(WriteView::UpsertCategories(category_rows(list))).push(
        WriteView::InsertCategoryParents(parent_rows(list)),
    )
}

impl AddonService {
    /// Stores the categories of the catalogue service. It fails if there is no category, and
    /// after the categories were stored if none has a parent.
    pub fn update_categories(&mut self, categories: &Vec<CategoryItem>) -> (r: Result<
        (),
        ServiceError,
    >)
        requires
            old(self).wf(),
            all_categories_numbered(views(categories@)),
        ensures
            final(self).wf(),
            final(self).db@ == old(self).db@.run(category_writes(views(categories@))),
            r == (if old(self).db@.accepts(category_writes(views(categories@))) {
                Ok::<(), ServiceError>(())
            } else {
                Err::<(), ServiceError>(ServiceError::DbPut)
            }),
            final(self).api == old(self).api,
            final(self).config == old(self).config,
            final(self).config_filepath == old(self).config_filepath,
    {
        let ghost start = self.db@;
        let ghost list = views(categories@);
        let mut rows: Vec<category::Model> = Vec::new();
        let mut parents: Vec<category_parent::Model> = Vec::new();
        let mut i: usize = 0;
        assert(views(rows@) =~= category_rows(list.take(0)));
        assert(views(parents@) =~= parent_rows(list.take(0)));
        while i < categories.len()
            invariant
                i <= categories.len(),
                list == views(categories@),
                all_categories_numbered(list),
                views(rows@) == category_rows(list.take(i as int)),
                views(parents@) == parent_rows(list.take(i as int)),
            decreases categories.len() - i,
        {
            let c = &categories[i];
            let ghost v = c@;
            let ghost old_rows = rows@;
            let ghost old_parents = parents@;
            assert(list[i as int] == v);
            assert(list[i as int].is_numbered());
            let id = parse_number(c.id.as_str()).unwrap();
            let row = category::Model {
                id,
                title: c.title.clone(),
                icon: Some(c.icon.clone()),
                file_count: Some(parse_number(c.file_count.as_str()).unwrap()),
            };
            rows.push(row);
            proof {
                assert(list.take(i + 1).drop_last() =~= list.take(i as int));
                assert(views(rows@) =~= views(old_rows).push(row@));
                assert(category_rows(list.take(i + 1)) =~= category_rows(list.take(i as int)).push(
                    category_row(v),
                ));
            }
            let mut k: usize = 0;
            assert(views(parents@) =~= views(old_parents) + parents_of(v).take(0));
            while k < c.parent_ids.len()
                invariant
                    k <= c.parent_ids.len(),
                    c@ == v,
                    v.is_numbered(),
                    id == number_of(v.id)->0,
                    views(parents@) == views(old_parents) + parents_of(v).take(k as int),
                decreases c.parent_ids.len() - k,
            {
                assert(v.parent_ids[k as int] == c.parent_ids@[k as int]@);
                let ghost now = parents@;
                let link = category_parent::Model {
                    id,
                    parent_id: parse_number(c.parent_ids[k].as_str()).unwrap(),
                };
                parents.push(link);
                proof {
                    assert(views(parents@) =~= views(now).push(link@));
                    assert(parents_of(v)[k as int] == link@);
                    assert(parents_of(v).take(k + 1) =~= parents_of(v).take(k as int).push(link@));
                    assert(views(parents@) =~= views(old_parents) + parents_of(v).take(k + 1));
                }
                k += 1;
            }
            assert(parents_of(v).take(k as int) =~= parents_of(v));
            i += 1;
        }
        assert(list.take(i as int) =~= list);
        let ghost none = Seq::<WriteView>::empty();
        let first = Write::UpsertCategories(rows);
        let second = Write::InsertCategoryParents(parents);
        let ghost w = first@;
        let ghost w2 = second@;
        proof {
            lemma_run_none(start);
            lemma_run_push(start, none, w);
            lemma_run_push(start, none.push(w), w2);
        }
        let stored = self.db.execute(first);
        if stored.is_err() {
            return Err(ServiceError::DbPut);
        }
        self.db.execute(second)
    }
}

// ---------------------------------------------------------------------------------------------
// Addons
// ---------------------------------------------------------------------------------------------

/// Every item of the list has the number it needs.
pub open spec fn all_files_numbered(list: Seq<FileListRow>) -> bool {
    forall|i: int| 0 <= i < list.len() ==> (#[trigger] list[i]).is_numbered()
}

/// The listing of an item.
pub open spec fn listing_of(f: FileListRow) -> ListingRow {
    ListingRow {
        id: number_of(f.id)->0,
        category_id: f.category,
        version: f.version,
        date: f.date,
        name: f.name,
        author_name: f.author_name,
        file_info_url: f.file_info_url,
        download_total: f.download_total,
        download_monthly: f.download_monthly,
        favorite_total: f.favorite_total,
    }
}

/// The listings of a list.
pub open spec fn listings(list: Seq<FileListRow>) -> Seq<ListingRow> {
    list.map_values(|f: FileListRow| listing_of(f))
}

/// The identifiers of a list.
pub open spec fn ids_of(list: Seq<FileListRow>) -> Seq<i32> {
    list.map_values(|f: FileListRow| number_of(f.id)->0)
}

/// The directories of an item, one row for each.
pub open spec fn dirs_in(f: FileListRow) -> Seq<(i32, Seq<char>)> {
    f.directories.map_values(|d: Seq<char>| (number_of(f.id)->0, d))
}

/// The directories of a list.
pub open spec fn dir_rows(list: Seq<FileListRow>) -> Seq<(i32, Seq<char>)>
    decreases list.len(),
{
    if list.len() == 0 {
        Seq::empty()
    } else {
        dir_rows(list.drop_last()) + dirs_in(list.last())
    }
}

/// The statements that store a list of addons.
pub open spec fn update_writes(list: Seq<FileListRow>) -> Seq<WriteView> {
    Seq::<WriteView>::empty().push(WriteView::UpsertAddons(listings(list))).push(
        WriteView::DeleteAddonDirs(ids_of(list)),
    ).push(WriteView::InsertAddonDirs(dir_rows(list)))
}

impl AddonService {
    /// Stores the list of addons of the catalogue service and tells what is left to do. It fails
    /// if the list is empty, and after the addons were stored and their directories deleted if
    /// the list has no directories or one of them twice. The service keeps its settings and
    /// addresses; what is to be saved is told by [`AddonService::config_to_save`].
    pub fn update(&mut self, file_list: &Vec<FileListItem>, upgrade_all: bool) -> (r: Result<
        UpdateResult,
        ServiceError,
    >)
        requires
            old(self).wf(),
            all_files_numbered(views(file_list@)),
        ensures
            final(self).wf(),
            final(self).db@ == old(self).db@.run(update_writes(views(file_list@))),
            r is Ok <==> old(self).db@.accepts(update_writes(views(file_list@))),
            r matches Err(e) ==> e == ServiceError::DbPut,
            r matches Ok(u) ==> are_offers(final(self).db@.tables, views(u.missing_deps@))
                && are_lacking(final(self).db@.tables, u.missing_details@),
            final(self).api == old(self).api,
            final(self).config == old(self).config,
            final(self).config_filepath == old(self).config_filepath,
    {
        let ghost start = self.db@;
        let ghost list = views(file_list@);
        let mut addons: Vec<Listing> = Vec::new();
        let mut dirs: Vec<addon_dir::Model> = Vec::new();
        let mut ids: Vec<i32> = Vec::new();
        let mut i: usize = 0;
        assert(views(addons@) =~= listings(list.take(0)));
        assert(views(dirs@) =~= dir_rows(list.take(0)));
        assert(ids@ =~= ids_of(list.take(0)));
        while i < file_list.len()
            invariant
                i <= file_list.len(),
                list == views(file_list@),
                all_files_numbered(list),
                views(addons@) == listings(list.take(i as int)),
                views(dirs@) == dir_rows(list.take(i as int)),
                ids@ == ids_of(list.take(i as int)),
            decreases file_list.len() - i,
        {
            let f = &file_list[i];
            let ghost v = f@;
            let ghost old_addons = addons@;
            let ghost old_dirs = dirs@;
            assert(list[i as int] == v);
            assert(list[i as int].is_numbered());
            let id = parse_number(f.id.as_str()).unwrap();
            ids.push(id);
            let addon = Listing {
                id,
                category_id: f.category.clone(),
                version: f.version.clone(),
                date: f.date.clone(),
                name: f.name.clone(),
                author_name: f.author_name.clone(),
                file_info_url: f.file_info_url.clone(),
                download_total: f.download_total.clone(),
                download_monthly: f.download_monthly.clone(),
                favorite_total: f.favorite_total.clone(),
            };
            proof {
                assert(list.take(i + 1).drop_last() =~= list.take(i as int));
                assert(ids@ =~= ids_of(list.take(i + 1)));
            }
            let mut k: usize = 0;
            assert(views(dirs@) =~= views(old_dirs) + dirs_in(v).take(0));
            while k < f.directories.len()
                invariant
                    k <= f.directories.len(),
                    f@ == v,
                    id == number_of(v.id)->0,
                    views(dirs@) == views(old_dirs) + dirs_in(v).take(k as int),
                decreases f.directories.len() - k,
            {
                assert(v.directories[k as int] == f.directories@[k as int]@);
                let ghost now = dirs@;
                let row = addon_dir::Model { addon_id: id, dir: f.directories[k].clone() };
                dirs.push(row);
                proof {
                    assert(views(dirs@) =~= views(now).push(row@));
                    assert(dirs_in(v)[k as int] == row@);
                    assert(dirs_in(v).take(k + 1) =~= dirs_in(v).take(k as int).push(row@));
                    assert(views(dirs@) =~= views(old_dirs) + dirs_in(v).take(k + 1));
                }
                k += 1;
            }
            assert(dirs_in(v).take(k as int) =~= dirs_in(v));
            addons.push(addon);
            proof {
                assert(views(addons@) =~= views(old_addons).push(addon@));
                assert(listings(list.take(i + 1)) =~= listings(list.take(i as int)).push(
                    listing_of(v),
                ));
            }
            i += 1;
        }
        assert(list.take(i as int) =~= list);
        let ghost none = Seq::<WriteView>::empty();
        let first = Write::UpsertAddons(addons);
        let second = Write::DeleteAddonDirs(ids);
        let third = Write::InsertAddonDirs(dirs);
        let ghost w = first@;
        let ghost w2 = second@;
        let ghost w3 = third@;
        proof {
            lemma_run_none(start);
            lemma_run_push(start, none, w);
            lemma_run_push(start, none.push(w), w2);
            lemma_run_push(start, none.push(w).push(w2), w3);
        }
        if self.db.execute(first).is_err() {
            return Err(ServiceError::DbPut);
        }
        // directories that were taken out of the list go
        let _ = self.db.execute(second);
        if self.db.execute(third).is_err() {
            return Err(ServiceError::DbPut);
        }
        let mut result = if upgrade_all {
            self.upgrade()
        } else {
            UpdateResult {
                missing_deps: self.get_missing_dependency_options(),
                missing_details: Vec::new(),
            }
        };
        result.missing_details = self.get_missing_addon_detail_ids();
        Ok(result)
    }

    /// The settings to save after a refresh: those of the service, with the addresses in use.
    pub fn config_to_save(&self) -> (c: Config)
        ensures
            c@ == self.config@.with_api(self.api@),
            c.addon_dir@ == self.config.addon_dir@,
            c.file_details@ == self.api.file_details_url@,
            c.file_list@ == self.api.file_list_url@,
            c.list_files@ == self.api.list_files_url@,
            c.category_list@ == self.api.category_list_url@,
    {
        Config {
            addon_dir: self.config.addon_dir.clone(),
            file_details: self.api.file_details_url.clone(),
            file_list: self.api.file_list_url.clone(),
            list_files: self.api.list_files_url.clone(),
            category_list: self.api.category_list_url.clone(),
        }
    }

    /// What is left to do for the installed addons.
    pub fn upgrade(&self) -> (r: UpdateResult)
        requires
            self.wf(),
        ensures
            are_offers(self.db@.tables, views(r.missing_deps@)),
            r.missing_details@.len() == 0,
    {
        UpdateResult {
            missing_deps: self.get_missing_dependency_options(),
            missing_details: Vec::new(),
        }
    }
}

} // verus!
