//! The catalogue service: its addresses, and what it answers.

use vstd::prelude::*;
use crate::config::{Config, ConfigView};
use crate::text::{number_of, parse_number, texts_of};

verus! {

/// The addresses of the catalogue service.
#[derive(Clone, Debug, PartialEq, Eq)]
pub struct ApiClient {
    /// The address that the others are asked from.
    pub endpoint_url: String,
    pub file_details_url: String,
    pub file_list_url: String,
    pub list_files_url: String,
    pub category_list_url: String,
}

/// What the addresses are.
#[verifier::ext_equal]
pub struct ApiView {
    pub endpoint_url: Seq<char>,
    pub file_details_url: Seq<char>,
    pub file_list_url: Seq<char>,
    pub list_files_url: Seq<char>,
    pub category_list_url: Seq<char>,
}

impl View for ApiClient {
    type V = ApiView;

    open spec fn view(&self) -> ApiView {
        ApiView {
            endpoint_url: self.endpoint_url@,
            file_details_url: self.file_details_url@,
            file_list_url: self.file_list_url@,
            list_files_url: self.list_files_url@,
            category_list_url: self.category_list_url@,
        }
    }
}

impl ApiView {
    /// The addresses with those that the settings hold.
    pub open spec fn with_config(self, c: ConfigView) -> ApiView {
        ApiView {
            endpoint_url: self.endpoint_url,
            file_details_url: c.file_details,
            file_list_url: c.file_list,
            list_files_url: c.list_files,
            category_list_url: c.category_list,
        }
    }
}

impl ConfigView {
    /// The settings with the addresses in use.
    pub open spec fn with_api(self, a: ApiView) -> ConfigView {
        ConfigView {
            addon_dir: self.addon_dir,
            file_details: a.file_details_url,
            file_list: a.file_list_url,
            list_files: a.list_files_url,
            category_list: a.category_list_url,
        }
    }
}

impl ApiClient {
    /// A service of which only the first address is known.
    pub fn new(endpoint_url: &str) -> (a: ApiClient)
        ensures
            a@ == (ApiView {
                endpoint_url: endpoint_url@,
                file_details_url: Seq::empty(),
                file_list_url: Seq::empty(),
                list_files_url: Seq::empty(),
                category_list_url: Seq::empty(),
            }),
    {
        ApiClient {
            endpoint_url: endpoint_url.to_owned(),
            file_details_url: String::new(),
            file_list_url: String::new(),
            list_files_url: String::new(),
            category_list_url: String::new(),
        }
    }

    /// Takes the addresses over that the settings hold.
    pub fn update_endpoints_from_config(&mut self, config: &Config)
        ensures
            final(self)@ == old(self)@.with_config(config@),
            final(self).endpoint_url == old(self).endpoint_url,
            final(self).file_details_url@ == config.file_details@,
            final(self).file_list_url@ == config.file_list@,
            final(self).list_files_url@ == config.list_files@,
            final(self).category_list_url@ == config.category_list@,
    {
        self.file_details_url = config.file_details.clone();
        self.file_list_url = config.file_list.clone();
        self.list_files_url = config.list_files.clone();
        self.category_list_url = config.category_list.clone();
    }
}

/// An addon in the list of the catalogue service.
#[derive(Debug, PartialEq, Eq)]
pub struct FileListItem {
    pub id: String,
    pub category: String,
    pub version: String,
    pub date: String,
    pub name: String,
    pub author_name: String,
    pub file_info_url: String,
    pub download_total: String,
    pub download_monthly: String,
    pub favorite_total: String,
    pub directories: Vec<String>,
}

/// What an item of the list holds.
#[verifier::ext_equal]
pub struct FileListRow {
    pub id: Seq<char>,
    pub category: Seq<char>,
    pub version: Seq<char>,
    pub date: Seq<char>,
    pub name: Seq<char>,
    pub author_name: Seq<char>,
    pub file_info_url: Seq<char>,
    pub download_total: Seq<char>,
    pub download_monthly: Seq<char>,
    pub favorite_total: Seq<char>,
    pub directories: Seq<Seq<char>>,
}

impl View for FileListItem {
    type V = FileListRow;

    open spec fn view(&self) -> FileListRow {
        FileListRow {
            id: self.id@,
            category: self.category@,
            version: self.version@,
            date: self.date@,
            name: self.name@,
            author_name: self.author_name@,
            file_info_url: self.file_info_url@,
            download_total: self.download_total@,
            download_monthly: self.download_monthly@,
            favorite_total: self.favorite_total@,
            directories: texts_of(self.directories@),
        }
    }
}

impl FileListRow {
    /// The identifier is a number.
    pub open spec fn is_numbered(self) -> bool {
        number_of(self.id) is Some
    }
}

impl FileListItem {
    /// Whether the identifier is a number.
    pub fn is_numbered(&self) -> (b: bool)
        ensures
            b == self@.is_numbered(),
    {
        parse_number(self.id.as_str()).is_some()
    }
}

/// A category of the catalogue service.
#[derive(Debug, PartialEq, Eq)]
pub struct CategoryItem {
    pub id: String,
    pub title: String,
    pub icon: String,
    pub file_count: String,
    pub parent_ids: Vec<String>,
}

/// What a category of the service holds.
#[verifier::ext_equal]
pub struct CategoryItemRow {
    pub id: Seq<char>,
    pub title: Seq<char>,
    pub icon: Seq<char>,
    pub file_count: Seq<char>,
    pub parent_ids: Seq<Seq<char>>,
}

impl View for CategoryItem {
    type V = CategoryItemRow;

    open spec fn view(&self) -> CategoryItemRow {
        CategoryItemRow {
            id: self.id@,
            title: self.title@,
            icon: self.icon@,
            file_count: self.file_count@,
            parent_ids: texts_of(self.parent_ids@),
        }
    }
}

impl CategoryItemRow {
    /// The identifier, the number of files and the parents are numbers.
    pub open spec fn is_numbered(self) -> bool {
        &&& number_of(self.id) is Some
        &&& number_of(self.file_count) is Some
        &&& forall|i: int|
            0 <= i < self.parent_ids.len() ==> number_of(#[trigger] self.parent_ids[i]) is Some
    }
}

impl CategoryItem {
    /// Whether the identifier, the number of files and the parents are numbers.
    pub fn is_numbered(&self) -> (b: bool)
        ensures
            b == self@.is_numbered(),
    {
        if parse_number(self.id.as_str()).is_none() || parse_number(
            self.file_count.as_str(),
        ).is_none() {
            return false;
        }
        let ghost parents = self@.parent_ids;
        let mut i: usize = 0;
        while i < self.parent_ids.len()
            invariant
                i <= self.parent_ids.len(),
                parents == texts_of(self.parent_ids@),
                parents == self@.parent_ids,
                forall|j: int| 0 <= j < i ==> number_of(#[trigger] parents[j]) is Some,
            decreases self.parent_ids.len() - i,
        {
            assert(parents[i as int] == self.parent_ids@[i as int]@);
            if parse_number(self.parent_ids[i].as_str()).is_none() {
                return false;
            }
            i += 1;
        }
        true
    }
}

/// The details of an addon.
#[derive(Debug, PartialEq, Eq)]
pub struct FileDetails {
    pub description: String,
    pub change_log: String,
    pub version: String,
    pub md5: String,
    pub file_name: String,
    pub download_url: String,
}

/// What the details hold.
#[verifier::ext_equal]
pub struct FileDetailsRow {
    pub description: Seq<char>,
    pub change_log: Seq<char>,
    pub version: Seq<char>,
    pub md5: Seq<char>,
    pub file_name: Seq<char>,
    pub download_url: Seq<char>,
}

impl View for FileDetails {
    type V = FileDetailsRow;

    open spec fn view(&self) -> FileDetailsRow {
        FileDetailsRow {
            description: self.description@,
            change_log: self.change_log@,
            version: self.version@,
            md5: self.md5@,
            file_name: self.file_name@,
            download_url: self.download_url@,
        }
    }
}

} // verus!
