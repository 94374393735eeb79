//! The addon service.

pub mod download;
pub mod import;
pub mod install;
pub mod query;
pub mod update;

use vstd::prelude::*;
use crate::api::{ApiClient, ApiView};
use crate::config::Config;
use crate::database::Database;

verus! {

/// The address of the catalogue service.
pub const API_ENDPOINT: &'static str = "https://api.mmoui.com/v3";

/// The service: the addresses it asks, the settings, and the catalogue.
pub struct AddonService {
    pub api: ApiClient,
    pub config: Config,
    pub config_filepath: String,
    pub db: Database,
}

impl AddonService {
    /// The catalogue is well formed.
    pub open spec fn wf(&self) -> bool {
        self.db.wf()
    }

    /// A service over a catalogue, with the addresses that the settings hold.
    pub fn new(config: Config, config_filepath: String, db: Database) -> (s: AddonService)
        requires
            db.wf(),
        ensures
            s.wf(),
            s.api@ == (ApiView {
                endpoint_url: API_ENDPOINT@,
                file_details_url: config@.file_details,
                file_list_url: config@.file_list,
                list_files_url: config@.list_files,
                category_list_url: config@.category_list,
            }),
            s.api.endpoint_url@ == "https://api.mmoui.com/v3"@,
            s.api.file_details_url@ == config.file_details@,
            s.api.file_list_url@ == config.file_list@,
            s.api.list_files_url@ == config.list_files@,
            s.api.category_list_url@ == config.category_list@,
            s.config == config,
            s.config_filepath == config_filepath,
            s.db == db,
    {
        let mut api = ApiClient::new(API_ENDPOINT);
        api.update_endpoints_from_config(&config);
        AddonService { api, config, config_filepath, db }
    }

    /// The directory that addons are unpacked to.
    pub fn get_addon_dir(&self) -> (dir: String)
        ensures
            dir@ == self.config@.addon_dir,
            dir@ == self.config.addon_dir@,
    {
        self.config.addon_dir.clone()
    }
}

/// The address under which the catalogue file is opened.
pub fn database_url(db_file: &str) -> (url: String)
    ensures
        url@ == "sqlite://"@ + db_file@,
{
    let mut url = "sqlite://".to_owned();
    url.append(db_file);
    url
}

} // verus!
