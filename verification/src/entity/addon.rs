//! The `addon` table: every addon that the catalogue lists.

use vstd::prelude::*;
use crate::entity::relation::{Column, RelationDef};
use crate::table::Keyed;
use crate::text::{copy_text, text_of};

verus! {

/// An addon of the catalogue.
#[derive(Debug, PartialEq, Eq)]
pub struct Model {
    pub id: i32,
    pub category_id: String,
    pub version: String,
    pub date: String,
    pub name: String,
    pub author_name: Option<String>,
    pub file_info_url: Option<String>,
    pub download_total: Option<String>,
    pub download_monthly: Option<String>,
    pub favorite_total: Option<String>,
    pub md5: Option<String>,
    pub file_name: Option<String>,
    pub download: Option<String>,
}

/// What an addon row holds.
#[verifier::ext_equal]
pub struct AddonRow {
    pub id: i32,
    pub category_id: Seq<char>,
    pub version: Seq<char>,
    pub date: Seq<char>,
    pub name: Seq<char>,
    pub author_name: Option<Seq<char>>,
    pub file_info_url: Option<Seq<char>>,
    pub download_total: Option<Seq<char>>,
    pub download_monthly: Option<Seq<char>>,
    pub favorite_total: Option<Seq<char>>,
    pub md5: Option<Seq<char>>,
    pub file_name: Option<Seq<char>>,
    pub download: Option<Seq<char>>,
}

impl View for Model {
    type V = AddonRow;

    open spec fn view(&self) -> AddonRow {
        AddonRow {
            id: self.id,
            category_id: self.category_id@,
            version: self.version@,
            date: self.date@,
            name: self.name@,
            author_name: text_of(self.author_name),
            file_info_url: text_of(self.file_info_url),
            download_total: text_of(self.download_total),
            download_monthly: text_of(self.download_monthly),
            favorite_total: text_of(self.favorite_total),
            md5: text_of(self.md5),
            file_name: text_of(self.file_name),
            download: text_of(self.download),
        }
    }
}

impl Keyed for Model {
    open spec fn key_of(v: AddonRow) -> i32 {
        v.id
    }

    fn key(&self) -> (k: i32) {
        self.id
    }
}

impl Clone for Model {
    fn clone(&self) -> (r: Model)
        ensures
            r == *self,
    {
        Model {
            id: self.id,
            category_id: self.category_id.clone(),
            version: self.version.clone(),
            date: self.date.clone(),
            name: self.name.clone(),
            author_name: copy_text(&self.author_name),
            file_info_url: copy_text(&self.file_info_url),
            download_total: copy_text(&self.download_total),
            download_monthly: copy_text(&self.download_monthly),
            favorite_total: copy_text(&self.favorite_total),
            md5: copy_text(&self.md5),
            file_name: copy_text(&self.file_name),
            download: copy_text(&self.download),
        }
    }
}

/// What belongs to an addon.
#[derive(Clone, Copy, Debug, PartialEq, Eq, Structural)]
pub enum Relation {
    InstalledAddon,
    AddonDir,
    AddonDependency,
}

impl Relation {
    /// The join that the relation stands for.
    pub open spec fn join(self) -> RelationDef {
        RelationDef {
            from: Column::AddonId,
            to: match self {
                Relation::InstalledAddon => Column::InstalledAddonAddonId,
                Relation::AddonDir => Column::AddonDirAddonId,
                Relation::AddonDependency => Column::AddonDependencyAddonId,
            },
        }
    }

    /// The join that the relation stands for.
    pub fn def(&self) -> (r: RelationDef)
        ensures
            r == self.join(),
            r.from == Column::AddonId,
            *self == Relation::InstalledAddon ==> r.to == Column::InstalledAddonAddonId,
            *self == Relation::AddonDir ==> r.to == Column::AddonDirAddonId,
            *self == Relation::AddonDependency ==> r.to == Column::AddonDependencyAddonId,
    {
        match self {
            Relation::InstalledAddon => RelationDef {
                from: Column::AddonId,
                to: Column::InstalledAddonAddonId,
            },
            Relation::AddonDir => RelationDef {
                from: Column::AddonId,
                to: Column::AddonDirAddonId,
            },
            Relation::AddonDependency => RelationDef {
                from: Column::AddonId,
                to: Column::AddonDependencyAddonId,
            },
        }
    }
}

} // verus!
