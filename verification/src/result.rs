//! What the service answers.

use vstd::prelude::*;
use crate::entity::category;
use crate::entity::category::CategoryRow;
use crate::table::views;
use crate::text::text_of;

verus! {

/// An addon as it is shown: its row of the catalogue and what belongs to it.
#[derive(Debug, PartialEq, Eq)]
pub struct AddonShowDetails {
    pub id: i32,
    pub category_id: String,
    pub version: String,
    pub date: String,
    pub name: String,
    pub author_name: Option<String>,
    pub file_info_url: Option<String>,
    pub download_total: Option<String>,
    pub download_monthly: Option<String>,
    pub favorite_total: Option<String>,
    pub md5: Option<String>,
    pub file_name: Option<String>,
    pub download: Option<String>,
    /// The title of the addon's category.
    pub category: String,
    /// Whether the addon is installed.
    pub installed: bool,
    /// The version that is installed.
    pub installed_version: Option<String>,
    pub description: Option<String>,
    pub change_log: Option<String>,
}

/// What a shown addon holds.
#[verifier::ext_equal]
pub struct ShowRow {
    pub id: i32,
    pub category_id: Seq<char>,
    pub version: Seq<char>,
    pub date: Seq<char>,
    pub name: Seq<char>,
    pub author_name: Option<Seq<char>>,
    pub file_info_url: Option<Seq<char>>,
    pub download_total: Option<Seq<char>>,
    pub download_monthly: Option<Seq<char>>,
    pub favorite_total: Option<Seq<char>>,
    pub md5: Option<Seq<char>>,
    pub file_name: Option<Seq<char>>,
    pub download: Option<Seq<char>>,
    pub category: Seq<char>,
    pub installed: bool,
    pub installed_version: Option<Seq<char>>,
    pub description: Option<Seq<char>>,
    pub change_log: Option<Seq<char>>,
}

impl View for AddonShowDetails {
    type V = ShowRow;

    open spec fn view(&self) -> ShowRow {
        ShowRow {
            id: self.id,
            category_id: self.category_id@,
            version: self.version@,
            date: self.date@,
            name: self.name@,
            author_name: text_of(self.author_name),
            file_info_url: text_of(self.file_info_url),
            download_total: text_of(self.download_total),
            download_monthly: text_of(self.download_monthly),
            favorite_total: text_of(self.favorite_total),
            md5: text_of(self.md5),
            file_name: text_of(self.file_name),
            download: text_of(self.download),
            category: self.category@,
            installed: self.installed,
            installed_version: text_of(self.installed_version),
            description: text_of(self.description),
            change_log: text_of(self.change_log),
        }
    }
}

/// An installed addon that the catalogue has in another version or with a later date.
#[derive(Debug, PartialEq, Eq)]
pub struct AddonDetails {
    pub id: i32,
    pub category_id: String,
    pub name: String,
    /// The installed version.
    pub version: String,
    /// The date of the installed version.
    pub date: String,
    pub installed: bool,
}

/// What an outdated addon holds.
#[verifier::ext_equal]
pub struct DetailsRow {
    pub id: i32,
    pub category_id: Seq<char>,
    pub name: Seq<char>,
    pub version: Seq<char>,
    pub date: Seq<char>,
    pub installed: bool,
}

impl View for AddonDetails {
    type V = DetailsRow;

    open spec fn view(&self) -> DetailsRow {
        DetailsRow {
            id: self.id,
            category_id: self.category_id@,
            name: self.name@,
            version: self.version@,
            date: self.date@,
            installed: self.installed,
        }
    }
}

/// An addon that would provide a missing directory.
#[derive(Debug, PartialEq, Eq)]
pub struct AddonDepOption {
    pub id: i32,
    pub name: String,
    pub dir: String,
}

/// What a dependency option holds.
#[verifier::ext_equal]
pub struct DepRow {
    pub id: i32,
    pub name: Seq<char>,
    pub dir: Seq<char>,
}

impl View for AddonDepOption {
    type V = DepRow;

    open spec fn view(&self) -> DepRow {
        DepRow { id: self.id, name: self.name@, dir: self.dir@ }
    }
}

/// What is left to do after a refresh.
#[derive(Debug, PartialEq, Eq)]
pub struct UpdateResult {
    /// Addons that would provide directories that installed addons need.
    pub missing_deps: Vec<AddonDepOption>,
    /// Addons whose details are missing or outdated.
    pub missing_details: Vec<i32>,
}

/// A category and the categories below it.
#[derive(Debug, PartialEq, Eq)]
pub struct ParentCategory {
    pub id: i32,
    pub title: String,
    pub child_categories: Vec<category::Model>,
}

/// What a parent category holds.
#[verifier::ext_equal]
pub struct ParentRow {
    pub id: i32,
    pub title: Seq<char>,
    pub child_categories: Seq<CategoryRow>,
}

impl View for ParentCategory {
    type V = ParentRow;

    open spec fn view(&self) -> ParentRow {
        ParentRow {
            id: self.id,
            title: self.title@,
            child_categories: views(self.child_categories@),
        }
    }
}

} // verus!
