//! The settings that are kept between runs.

use vstd::prelude::*;

verus! {

/// The settings.
#[derive(Clone, Debug, PartialEq, Eq)]
pub struct Config {
    /// The directory that addons are unpacked to.
    pub addon_dir: String,
    /// The address of an addon's details.
    pub file_details: String,
    /// The address of the list of addons.
    pub file_list: String,
    /// The address that lists files.
    pub list_files: String,
    /// The address of the list of categories.
    pub category_list: String,
}

/// What the settings hold.
#[verifier::ext_equal]
pub struct ConfigView {
    pub addon_dir: Seq<char>,
    pub file_details: Seq<char>,
    pub file_list: Seq<char>,
    pub list_files: Seq<char>,
    pub category_list: Seq<char>,
}

impl View for Config {
    type V = ConfigView;

    open spec fn view(&self) -> ConfigView {
        ConfigView {
            addon_dir: self.addon_dir@,
            file_details: self.file_details@,
            file_list: self.file_list@,
            list_files: self.list_files@,
            category_list: self.category_list@,
        }
    }
}

} // verus!
