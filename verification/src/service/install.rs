//! Installing and removing addons.

use vstd::prelude::*;
use crate::api::{FileDetails, FileDetailsRow};
use crate::database::{lemma_run_none, lemma_run_push, Tables, Write, WriteView};
use crate::entity::addon_dependency;
use crate::entity::addon_detail;
use crate::entity::addon_detail::DetailRow;
use crate::entity::installed_addon;
use crate::entity::installed_addon::InstalledRow;
use crate::service::AddonService;
use crate::table::views;
use crate::text::texts_of;

verus! {

// ---------------------------------------------------------------------------------------------
// Installing
// ---------------------------------------------------------------------------------------------

/// What installing an addon starts with.
#[derive(Debug, PartialEq, Eq)]
pub enum InstallStep {
    /// Nothing is to be done: the version of the catalogue is installed.
    UpToDate,
    /// The archive is to be downloaded and unpacked; then the record is to be stored.
    Download { url: String, record: installed_addon::Model },
}

/// The addon `id` is installed in the version of the catalogue.
pub open spec fn is_current(t: Tables, id: i32) -> bool {
    t.installed.contains_key(id) && t.installed[id].version == t.addons[id].version
}

/// The record of the addon `id`, once it is installed.
pub open spec fn record_of(t: Tables, id: i32) -> InstalledRow {
    InstalledRow { addon_id: id, version: t.addons[id].version, date: t.addons[id].date }
}

/// The dependencies of an addon, one for each directory.
pub open spec fn dependency_rows(id: i32, dirs: Seq<Seq<char>>) -> Seq<(i32, Seq<char>)> {
    dirs.map_values(|d: Seq<char>| (id, d))
}

/// The statements that store an installed addon.
pub open spec fn install_writes(record: InstalledRow, depends_on: Seq<Seq<char>>) -> Seq<
    WriteView,
> {
    let stored = Seq::<WriteView>::empty().push(WriteView::UpsertInstalled(record));
    if depends_on.len() == 0 {
        stored
    } else {
        stored.push(
            WriteView::InsertDependencies(dependency_rows(record.addon_id, depends_on)),
        )
    }
}

/// The statements that store the details of an addon.
pub open spec fn detail_writes(id: i32, d: FileDetailsRow) -> Seq<WriteView> {
    Seq::<WriteView>::empty().push(
        WriteView::SetAddonFile {
            id,
            md5: d.md5,
            file_name: d.file_name,
            download: d.download_url,
        },
    ).push(
        WriteView::UpsertDetail(
            DetailRow {
                id,
                description: Some(d.description),
                change_log: Some(d.change_log),
                version: Some(d.version),
            },
        ),
    )
}

impl AddonService {
    /// Decides what installing an addon starts with. With `update`, an addon that is up to date
    /// is installed anew. The addon is in the catalogue, and the address of its archive is known
    /// if it is needed.
    pub fn install(&self, addon_id: i32, update: bool) -> (step: InstallStep)
        requires
            self.wf(),
            self.db@.tables.addons.contains_key(addon_id),
            is_current(self.db@.tables, addon_id) && !update
                || self.db@.tables.addons[addon_id].download is Some,
        ensures
            step is UpToDate <==> is_current(self.db@.tables, addon_id) && !update,
            step is UpToDate <==> !update && self.db@.tables.installed.contains_key(addon_id)
                && self.db@.tables.installed[addon_id].version
                == self.db@.tables.addons[addon_id].version,
            step matches InstallStep::Download { url, record } ==> record.addon_id == addon_id
                && record.version@ == self.db@.tables.addons[addon_id].version && record.date@
                == self.db@.tables.addons[addon_id].date,
            step matches InstallStep::Download { url, record } ==> Some(url@)
                == self.db@.tables.addons[addon_id].download && record@ == record_of(
                self.db@.tables,
                addon_id,
            ),
    {
        let entry = self.db.addons.get(addon_id).unwrap();
        match self.db.installed.get(addon_id) {
            Some(installed) => {
                if installed.version == entry.version && !update {
                    return InstallStep::UpToDate;
                }
            },
            None => {},
        }
        InstallStep::Download {
            url: entry.download.as_ref().unwrap().clone(),
            record: installed_addon::Model {
                addon_id,
                version: entry.version.clone(),
                date: entry.date.clone(),
            },
        }
    }

    /// Stores an addon that was unpacked, and the directories that it depends on.
    pub fn finish_install(&mut self, record: installed_addon::Model, depends_on: &Vec<String>)
        requires
            old(self).wf(),
        ensures
            final(self).wf(),
            final(self).db@ == old(self).db@.run(install_writes(record@, texts_of(depends_on@))),
            old(self).db@.accepts(install_writes(record@, texts_of(depends_on@))),
            final(self).api == old(self).api,
            final(self).config == old(self).config,
            final(self).config_filepath == old(self).config_filepath,
    {
        let ghost start = self.db@;
        let ghost row = record@;
        let ghost dirs = texts_of(depends_on@);
        let ghost none = Seq::<WriteView>::empty();
        let addon_id = record.addon_id;
        let first = Write::UpsertInstalled(record);
        let ghost w = first@;
        let _ = self.db.execute(first);
        proof {
            lemma_run_none(start);
            lemma_run_push(start, none, w);
        }
        if depends_on.len() > 0 {
            let mut rows: Vec<addon_dependency::Model> = Vec::new();
            let mut i: usize = 0;
            while i < depends_on.len()
                invariant
                    i <= depends_on.len(),
                    rows.len() == i,
                    forall|j: int|
                        0 <= j < i ==> (#[trigger] rows@[j])@ == (addon_id, depends_on@[j]@),
                decreases depends_on.len() - i,
            {
                rows.push(
                    addon_dependency::Model { addon_id, dependency_dir: depends_on[i].clone() },
                );
                i += 1;
            }
            assert(views(rows@) =~= dependency_rows(addon_id, dirs));
            let second = Write::InsertDependencies(rows);
            let ghost w2 = second@;
            let _ = self.db.execute(second);
            proof {
                lemma_run_push(start, none.push(w), w2);
            }
        }
    }

    /// Stores the details of an addon that is in the catalogue.
    pub fn update_addon_details(&mut self, id: i32, details: &FileDetails)
        requires
            old(self).wf(),
            old(self).db@.tables.addons.contains_key(id),
        ensures
            final(self).wf(),
            final(self).db@ == old(self).db@.run(detail_writes(id, details@)),
            old(self).db@.accepts(detail_writes(id, details@)),
            final(self).api == old(self).api,
            final(self).config == old(self).config,
            final(self).config_filepath == old(self).config_filepath,
    {
        let ghost start = self.db@;
        let ghost none = Seq::<WriteView>::empty();
        let first = Write::SetAddonFile {
            id,
            md5: details.md5.clone(),
            file_name: details.file_name.clone(),
            download: details.download_url.clone(),
        };
        let ghost w = first@;
        let _ = self.db.execute(first);
        let second = Write::UpsertDetail(
            addon_detail::Model {
                id,
                description: Some(details.description.clone()),
                change_log: Some(details.change_log.clone()),
                version: Some(details.version.clone()),
            },
        );
        let ghost w2 = second@;
        let _ = self.db.execute(second);
        proof {
            lemma_run_none(start);
            lemma_run_push(start, none, w);
            lemma_run_push(start, none.push(w), w2);
        }
    }
}

// ---------------------------------------------------------------------------------------------
// Removing
// ---------------------------------------------------------------------------------------------

/// What came of removing an addon.
#[derive(Debug, PartialEq, Eq)]
pub enum RemoveOutcome {
    /// The catalogue has no such addon.
    NotListed,
    /// The addon is not installed.
    NotInstalled,
    /// The addon is no longer recorded; its directories are to be deleted.
    Removed { dirs: Vec<String> },
}

/// `list` are the directories of the addon `id`, each once.
pub open spec fn are_dirs_of(t: Tables, id: i32, list: Seq<Seq<char>>) -> bool {
    &&& list.no_duplicates()
    &&& forall|d: Seq<char>| list.contains(d) <==> #[trigger] t.dirs.contains((id, d))
}

impl AddonService {
    /// The directories of an addon.
    fn dirs_of(&self, id: i32) -> (r: Vec<String>)
        requires
            self.wf(),
        ensures
            are_dirs_of(self.db@.tables, id, texts_of(r@)),
    {
        let ghost rows = self.db.dirs.rows();
        let n = self.db.dirs.len();
        let mut r: Vec<String> = Vec::new();
        let mut i: usize = 0;
        while i < n
            invariant
                i <= n == rows.len(),
                self.wf(),
                rows == self.db.dirs.rows(),
                texts_of(r@).no_duplicates(),
                forall|a: int|
                    0 <= a < r@.len() ==> rows.take(i as int).contains(
                        (id, (#[trigger] texts_of(r@)[a])),
                    ),
                forall|j: int|
                    0 <= j < i && (#[trigger] rows[j]).0 == id ==> texts_of(r@).contains(rows[j].1),
            decreases n - i,
        {
            let row = self.db.dirs.row(i);
            let ghost before = texts_of(r@);
            assert(row@ == rows[i as int]);
            if row.addon_id == id {
                let ghost d = row.dir@;
                r.push(row.dir.clone());
                proof {
                    assert(texts_of(r@) =~= before.push(d));
                    if before.contains(d) {
                        let a = before.index_of(d);
                        assert(rows.take(i as int).contains((id, before[a])));
                        let m = rows.take(i as int).index_of((id, d));
                        assert(rows[m] == rows[i as int]);
                    }
                }
            }
            proof {
                let after = texts_of(r@);
                assert forall|a: int| 0 <= a < r@.len() implies rows.take(i + 1).contains(
                    (id, (#[trigger] after[a])),
                ) by {
                    if a < before.len() {
                        assert(after[a] == before[a]);
                        let m = rows.take(i as int).index_of((id, before[a]));
                        assert(rows.take(i + 1)[m] == (id, before[a]));
                    } else {
                        assert(rows.take(i + 1)[i as int] == (id, after[a]));
                    }
                }
                assert forall|j: int|
                    0 <= j < i + 1 && (#[trigger] rows[j]).0 == id implies after.contains(
                    rows[j].1,
                ) by {
                    if j < i {
                        let a = before.index_of(rows[j].1);
                        assert(after[a] == before[a]);
                    } else {
                        assert(after[after.len() - 1] == rows[j].1);
                    }
                }
            }
            i += 1;
        }
        proof {
            let list = texts_of(r@);
            assert(rows.take(n as int) =~= rows);
            assert forall|d: Seq<char>| list.contains(d) <==> #[trigger]
                self.db@.tables.dirs.contains((id, d)) by {
                if list.contains(d) {
                    let a = list.index_of(d);
                    assert(rows.take(n as int).contains((id, list[a])));
                }
                if rows.contains((id, d)) {
                    let j = rows.index_of((id, d));
                    assert(rows[j] == (id, d));
                }
            }
        }
        r
    }

    /// Takes an installed addon off the record and tells which directories are to be deleted.
    pub fn remove(&mut self, addon_id: i32) -> (r: RemoveOutcome)
        requires
            old(self).wf(),
        ensures
            final(self).wf(),
            r is NotListed <==> !old(self).db@.tables.addons.contains_key(addon_id),
            r is NotInstalled <==> old(self).db@.tables.addons.contains_key(addon_id) && !old(
                self,
            ).db@.tables.installed.contains_key(addon_id),
            r matches RemoveOutcome::Removed { dirs } ==> are_dirs_of(
                old(self).db@.tables,
                addon_id,
                texts_of(dirs@),
            ),
            final(self).db@ == (if r is Removed {
                old(self).db@.after(WriteView::DeleteInstalled(addon_id))
            } else {
                old(self).db@
            }),
            final(self).api == old(self).api,
            final(self).config == old(self).config,
            final(self).config_filepath == old(self).config_filepath,
    {
        if self.db.addons.get(addon_id).is_none() {
            return RemoveOutcome::NotListed;
        }
        if self.db.installed.get(addon_id).is_none() {
            return RemoveOutcome::NotInstalled;
        }
        let dirs = self.dirs_of(addon_id);
        let _ = self.db.execute(Write::DeleteInstalled(addon_id));
        RemoveOutcome::Removed { dirs }
    }
}

} // verus!
