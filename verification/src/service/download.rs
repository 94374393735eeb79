//! Unpacking what was downloaded.

use vstd::prelude::*;
use crate::archive::{
    is_extraction, plan_extraction, read_archive, zip_contents, Contents, Extraction,
};
use crate::error::ServiceError;
use crate::service::AddonService;
use crate::text::texts_of;

verus! {

/// The address of the price table.
pub const TTC_URL: &'static str = "https://us.tamrieltradecentre.com/download/PriceTable";

/// The directory of the addon directory that the price table is unpacked to.
pub const TTC_DIR: &'static str = "TamrielTradeCentre";

/// What is to be downloaded, and where it is to be unpacked.
#[derive(Debug, PartialEq, Eq)]
pub struct Download {
    pub url: String,
    /// The directory of the addon directory to unpack to, if it is not the addon directory
    /// itself.
    pub inside: Option<String>,
}

/// A download: what is in it, and how to unpack it.
#[derive(Debug, PartialEq, Eq)]
pub struct Unpacked {
    pub contents: Contents,
    pub extraction: Extraction,
}

/// A downloaded addon.
#[derive(Debug, PartialEq, Eq)]
pub struct UnpackedAddon {
    pub unpacked: Unpacked,
    /// The parts of the path below the addon directory where the addon lies.
    pub addon_path: Result<Vec<String>, ServiceError>,
}

/// The directory that an addon lies in is the first part of the name of its first entry.
pub open spec fn is_addon_path(path: Result<Vec<String>, ServiceError>, c: Contents) -> bool {
    match path {
        Ok(p) => c.entries@.len() > 0 && texts_of(p@) == texts_of(
            if c.entries@[0].plain_parts@.len() > 0 {
                c.entries@[0].plain_parts@.take(1)
            } else {
                Seq::empty()
            },
        ),
        Err(e) => c.entries@.len() == 0 && e == ServiceError::AddonDownloadZipRead { file: 0 },
    }
}

/// Tells where an addon lies once its archive is unpacked.
pub fn find_addon_path(contents: &Contents) -> (r: Result<Vec<String>, ServiceError>)
    ensures
        is_addon_path(r, *contents),
{
    if contents.entries.len() == 0 {
        return Err(ServiceError::AddonDownloadZipRead { file: 0 });
    }
    let parts = &contents.entries[0].plain_parts;
    let mut path: Vec<String> = Vec::new();
    if parts.len() > 0 {
        path.push(parts[0].clone());
        assert(texts_of(path@) =~= texts_of(parts@.take(1)));
    } else {
        assert(texts_of(path@) =~= texts_of(Seq::empty()));
    }
    Ok(path)
}

impl AddonService {
    /// Opens a download and decides how to unpack it, inside the directory `path_addr` of the
    /// addon directory if there is one. It fails if the download is no archive.
    pub fn base_fs_download_extract(&self, bytes: Vec<u8>, path_addr: Option<&str>) -> (r: Result<
        Unpacked,
        ServiceError,
    >)
        ensures
            match r {
                Ok(u) => zip_contents(bytes@) is Some && u.contents.reads(zip_contents(bytes@)->0)
                    && is_extraction(
                    u.extraction,
                    u.contents,
                    match path_addr {
                        Some(dir) => Some(dir@),
                        None => None,
                    },
                ),
                Err(e) => zip_contents(bytes@) is None && e == ServiceError::AddonDownloadZipCreate,
            },
    {
        let contents = match read_archive(bytes) {
            Ok(c) => c,
            Err(e) => {
                return Err(e);
            },
        };
        let extraction = plan_extraction(&contents, path_addr);
        Ok(Unpacked { contents, extraction })
    }

    /// Opens the download of an addon, decides how to unpack it, and tells where the addon lies
    /// then.
    pub fn fs_download_addon(&self, bytes: Vec<u8>) -> (r: Result<UnpackedAddon, ServiceError>)
        ensures
            match r {
                Ok(a) => zip_contents(bytes@) is Some && a.unpacked.contents.reads(
                    zip_contents(bytes@)->0,
                ) && is_extraction(a.unpacked.extraction, a.unpacked.contents, None)
                    && is_addon_path(a.addon_path, a.unpacked.contents),
                Err(e) => zip_contents(bytes@) is None && e == ServiceError::AddonDownloadZipCreate,
            },
    {
        let unpacked = match self.base_fs_download_extract(bytes, None) {
            Ok(u) => u,
            Err(e) => {
                return Err(e);
            },
        };
        let addon_path = find_addon_path(&unpacked.contents);
        Ok(UnpackedAddon { unpacked, addon_path })
    }

    /// What is to be downloaded for the price table.
    pub fn update_ttc_pricetable(&self) -> (d: Download)
        ensures
            d.url@ == TTC_URL@,
            d.url@ == "https://us.tamrieltradecentre.com/download/PriceTable"@,
            d.inside matches Some(dir) && dir@ == TTC_DIR@ && dir@ == "TamrielTradeCentre"@,
    {
        Download { url: TTC_URL.to_owned(), inside: Some(TTC_DIR.to_owned()) }
    }
}

} // verus!
