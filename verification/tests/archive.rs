use eso_addons_core::api::ApiClient;
use eso_addons_core::archive::{plan_extraction, read_archive, ArchiveEntry, Contents};
use eso_addons_core::config::Config;
use eso_addons_core::database::Database;
use eso_addons_core::error::ServiceError;
use eso_addons_core::service::download::{find_addon_path, TTC_DIR, TTC_URL};
use eso_addons_core::service::{database_url, AddonService, API_ENDPOINT};
use std::io::{Cursor, Write};
use zip::write::FileOptions;
use zip::{CompressionMethod, ZipWriter};

fn service() -> AddonService {
    let config = Config {
        addon_dir: "/games/eso/AddOns".to_string(),
        file_details: "d".to_string(),
        file_list: "f".to_string(),
        list_files: "l".to_string(),
        category_list: "c".to_string(),
    };
    AddonService::new(config, "/home/me/eam.conf".to_string(), Database::new())
}

fn zipped(files: &[(&str, &[u8])], method: CompressionMethod) -> Vec<u8> {
    let mut writer = ZipWriter::new(Cursor::new(Vec::new()));
    for (name, data) in files.iter() {
        let options = FileOptions::default().compression_method(method);
        writer.start_file(*name, options).unwrap();
        writer.write_all(data).unwrap();
    }
    writer.finish().unwrap().into_inner()
}

/// One stored entry, written by hand: `flags` and `extra` go into its headers as they are.
fn by_hand(name: &str, flags: u16, extra: &[u8], data: &[u8], crc: u32) -> Vec<u8> {
    let mut out: Vec<u8> = Vec::new();
    let size = data.len() as u32;
    out.extend_from_slice(&0x04034b50u32.to_le_bytes());
    out.extend_from_slice(&20u16.to_le_bytes());
    out.extend_from_slice(&flags.to_le_bytes());
    out.extend_from_slice(&[0; 6]);
    out.extend_from_slice(&crc.to_le_bytes());
    out.extend_from_slice(&size.to_le_bytes());
    out.extend_from_slice(&size.to_le_bytes());
    out.extend_from_slice(&(name.len() as u16).to_le_bytes());
    out.extend_from_slice(&0u16.to_le_bytes());
    out.extend_from_slice(name.as_bytes());
    out.extend_from_slice(data);
    let directory = out.len() as u32;
    out.extend_from_slice(&0x02014b50u32.to_le_bytes());
    out.extend_from_slice(&[20, 0, 20, 0]);
    out.extend_from_slice(&flags.to_le_bytes());
    out.extend_from_slice(&[0; 6]);
    out.extend_from_slice(&crc.to_le_bytes());
    out.extend_from_slice(&size.to_le_bytes());
    out.extend_from_slice(&size.to_le_bytes());
    out.extend_from_slice(&(name.len() as u16).to_le_bytes());
    out.extend_from_slice(&(extra.len() as u16).to_le_bytes());
    out.extend_from_slice(&[0; 14]);
    out.extend_from_slice(name.as_bytes());
    out.extend_from_slice(extra);
    let length = out.len() as u32 - directory;
    out.extend_from_slice(&0x06054b50u32.to_le_bytes());
    out.extend_from_slice(&[0; 4]);
    out.extend_from_slice(&1u16.to_le_bytes());
    out.extend_from_slice(&1u16.to_le_bytes());
    out.extend_from_slice(&length.to_le_bytes());
    out.extend_from_slice(&directory.to_le_bytes());
    out.extend_from_slice(&0u16.to_le_bytes());
    out
}

fn entry(name: &str, enclosed: bool, intact: bool) -> ArchiveEntry {
    ArchiveEntry {
        name: name.to_string(),
        enclosed: if enclosed { Some(name.to_string()) } else { None },
        plain_parts: name.split('/').filter(|p| !p.is_empty()).map(|p| p.to_string()).collect(),
        data: Vec::new(),
        intact,
    }
}

#[test]
fn an_addon_is_unpacked_whole() {
    let files: [(&str, &[u8]); 3] = [
        ("MyAddon/", b""),
        ("MyAddon/MyAddon.txt", b"## Title: MyAddon"),
        ("MyAddon/lib/x.lua", b"x = 1 x = 1 x = 1 x = 1"),
    ];
    for method in [CompressionMethod::Stored, CompressionMethod::Deflated] {
        let addon = service().fs_download_addon(zipped(&files, method)).unwrap();
        let contents = &addon.unpacked.contents;
        assert_eq!(contents.unreadable, None);
        assert_eq!(contents.entries.len(), 3);
        assert_eq!(contents.entries[1].data, b"## Title: MyAddon".to_vec());
        assert_eq!(contents.entries[2].data, b"x = 1 x = 1 x = 1 x = 1".to_vec());
        assert!(contents.entries.iter().all(|e| e.intact));
        let extraction = &addon.unpacked.extraction;
        assert_eq!(extraction.failure, None);
        assert_eq!(extraction.steps.len(), 3);
        assert!(extraction.steps[0].is_dir);
        assert_eq!(extraction.steps[0].path, vec!["MyAddon/".to_string()]);
        assert!(!extraction.steps[1].is_dir);
        assert_eq!(extraction.steps[1].path, vec!["MyAddon/MyAddon.txt".to_string()]);
        assert_eq!(extraction.steps[2].entry, 2);
        assert_eq!(addon.addon_path, Ok(vec!["MyAddon".to_string()]));
    }
}

#[test]
fn steps_stay_inside() {
    let files: [(&str, &[u8]); 5] = [
        ("../evil.txt", b"1"),
        ("/etc/passwd", b"2"),
        ("a/../../b", b"3"),
        ("a/../b", b"4"),
        ("ok.txt", b"5"),
    ];
    let bytes = zipped(&files, CompressionMethod::Stored);
    let unpacked = service().base_fs_download_extract(bytes, Some("Inner")).unwrap();
    assert_eq!(unpacked.contents.entries.len(), 5);
    assert_eq!(unpacked.contents.entries[0].enclosed, None);
    assert_eq!(unpacked.contents.entries[1].enclosed, None);
    assert_eq!(unpacked.contents.entries[2].enclosed, None);
    assert_eq!(unpacked.contents.entries[0].plain_parts, vec!["evil.txt".to_string()]);
    assert_eq!(
        unpacked.contents.entries[1].plain_parts,
        vec!["etc".to_string(), "passwd".to_string()]
    );
    let steps = &unpacked.extraction.steps;
    assert_eq!(steps.len(), 2);
    assert_eq!(steps[0].path, vec!["Inner".to_string(), "a/../b".to_string()]);
    assert_eq!(steps[0].entry, 3);
    assert_eq!(steps[1].path, vec!["Inner".to_string(), "ok.txt".to_string()]);
    assert_eq!(steps[1].entry, 4);
    assert_eq!(unpacked.extraction.failure, None);
}

#[test]
fn plain_parts_name_directories_and_files() {
    let files: [(&str, &[u8]); 2] = [("./A//b/../c.txt", b"1"), ("..", b"")];
    let addon = service().fs_download_addon(zipped(&files, CompressionMethod::Stored)).unwrap();
    let entries = &addon.unpacked.contents.entries;
    assert_eq!(
        entries[0].plain_parts,
        vec!["A".to_string(), "b".to_string(), "c.txt".to_string()]
    );
    assert_eq!(entries[0].enclosed, Some("./A//b/../c.txt".to_string()));
    assert_eq!(entries[1].plain_parts, Vec::<String>::new());
    assert_eq!(entries[1].enclosed, None);
    assert_eq!(addon.addon_path, Ok(vec!["A".to_string()]));
}

#[test]
fn names_with_a_colon_or_a_backslash() {
    let names = ["Lib/:x", "../a:b", "A\\b.txt", "../..\\x", "a\\..\\b/c", "x/long:name"];
    for name in names {
        let bytes = by_hand(name, 0, &[], b"123456789", 0xcbf43926);
        let unpacked = service().base_fs_download_extract(bytes, None).unwrap();
        let e = &unpacked.contents.entries[0];
        assert_eq!(e.name, name);
        let climbs = name.starts_with("../");
        assert_eq!(e.enclosed, if climbs { None } else { Some(name.to_string()) });
        assert_eq!(unpacked.extraction.steps.len(), if climbs { 0 } else { 1 });
        assert_eq!(unpacked.extraction.failure, None);
    }
    let parts = |name: &str| {
        let bytes = by_hand(name, 0, &[], b"123456789", 0xcbf43926);
        read_archive(bytes).unwrap().entries.remove(0).plain_parts
    };
    assert_eq!(parts("Lib/:x"), vec!["Lib".to_string(), ":x".to_string()]);
    assert_eq!(parts("A\\b.txt"), vec!["A".to_string(), "b.txt".to_string()]);
    assert_eq!(parts("../..\\x"), vec!["x".to_string()]);
    assert_eq!(parts("/etc\\passwd"), vec!["etc".to_string(), "passwd".to_string()]);
    assert_eq!(parts("x/long:name"), vec!["x".to_string(), "long:name".to_string()]);
}

#[test]
fn a_name_with_a_null_character() {
    let bytes = by_hand("A/b\0c/d", 0, &[], b"123456789", 0xcbf43926);
    let addon = service().fs_download_addon(bytes).unwrap();
    let e = &addon.unpacked.contents.entries[0];
    assert_eq!(e.enclosed, None);
    assert_eq!(e.plain_parts, vec!["A".to_string(), "b".to_string()]);
    assert_eq!(addon.unpacked.extraction.steps.len(), 0);
    assert_eq!(addon.addon_path, Ok(vec!["A".to_string()]));
}

#[test]
fn no_archive() {
    assert_eq!(
        service().base_fs_download_extract(b"<html>".to_vec(), None),
        Err(ServiceError::AddonDownloadZipCreate)
    );
    assert_eq!(
        service().fs_download_addon(Vec::new()),
        Err(ServiceError::AddonDownloadZipCreate)
    );
}

#[test]
fn an_empty_archive_has_no_addon() {
    let addon = service().fs_download_addon(zipped(&[], CompressionMethod::Stored)).unwrap();
    assert_eq!(addon.unpacked.extraction.steps.len(), 0);
    assert_eq!(addon.unpacked.extraction.failure, None);
    assert_eq!(addon.addon_path, Err(ServiceError::AddonDownloadZipRead { file: 0 }));
}

#[test]
fn a_handmade_archive_opens() {
    // CRC-32 of "123456789"
    let bytes = by_hand("n.txt", 0, &[], b"123456789", 0xcbf43926);
    let contents = read_archive(bytes).unwrap();
    assert_eq!(contents.unreadable, None);
    assert_eq!(contents.entries[0].data, b"123456789".to_vec());
    assert!(contents.entries[0].intact);
}

#[test]
fn a_wrong_check_sum_breaks_an_entry() {
    let bytes = by_hand("dir/n.txt", 0, &[], b"123456789", 1);
    let unpacked = service().base_fs_download_extract(bytes, Some("In")).unwrap();
    assert!(!unpacked.contents.entries[0].intact);
    assert_eq!(unpacked.extraction.steps.len(), 1);
    assert_eq!(
        unpacked.extraction.failure,
        Some(ServiceError::AddonDownloadZipExtract {
            path: vec!["In".to_string(), "dir/n.txt".to_string()]
        })
    );
}

#[test]
fn an_entry_with_a_password_cannot_be_read() {
    let bytes = by_hand("n.txt", 1, &[], b"123456789abcdef", 7);
    let unpacked = service().base_fs_download_extract(bytes, None).unwrap();
    assert_eq!(unpacked.contents.unreadable, Some(0));
    assert_eq!(unpacked.contents.entries.len(), 0);
    assert_eq!(
        unpacked.extraction.failure,
        Some(ServiceError::AddonDownloadZipRead { file: 0 })
    );
}

#[test]
fn an_entry_marked_as_aes_cannot_be_read() {
    // an extra field 0x9901: version 2, vendor "AE", strength 3, stored
    let extra = [0x01, 0x99, 7, 0, 2, 0, 0x41, 0x45, 3, 0, 0];
    for flags in [0, 1] {
        let bytes = by_hand("n.txt", flags, &extra, b"123456789", 0xcbf43926);
        let unpacked = service().base_fs_download_extract(bytes, None).unwrap();
        assert_eq!(unpacked.contents.unreadable, Some(0));
        assert_eq!(
            unpacked.extraction.failure,
            Some(ServiceError::AddonDownloadZipRead { file: 0 })
        );
    }
}

#[test]
fn unpacking_ends_at_a_broken_file() {
    let contents = Contents {
        entries: vec![
            entry("a/", true, false),
            entry("up", false, false),
            entry("a/b", true, true),
            entry("a/c", true, false),
            entry("a/d", true, true),
        ],
        unreadable: Some(5),
    };
    let x = plan_extraction(&contents, None);
    let entries: Vec<usize> = x.steps.iter().map(|s| s.entry).collect();
    assert_eq!(entries, vec![0, 2, 3]);
    assert_eq!(
        x.failure,
        Some(ServiceError::AddonDownloadZipExtract { path: vec!["a/c".to_string()] })
    );
}

#[test]
fn the_addon_lies_in_the_first_part() {
    let contents = Contents { entries: vec![entry("A/b/c", true, true)], unreadable: None };
    assert_eq!(find_addon_path(&contents), Ok(vec!["A".to_string()]));
    let contents = Contents { entries: vec![entry("/", false, true)], unreadable: None };
    assert_eq!(find_addon_path(&contents), Ok(vec![]));
}

#[test]
fn the_price_table() {
    let d = service().update_ttc_pricetable();
    assert_eq!(d.url, "https://us.tamrieltradecentre.com/download/PriceTable");
    assert_eq!(d.url, TTC_URL);
    assert_eq!(d.inside, Some("TamrielTradeCentre".to_string()));
    assert_eq!(d.inside, Some(TTC_DIR.to_string()));
}

#[test]
fn a_service_starts_with_its_settings() {
    let s = service();
    assert_eq!(API_ENDPOINT, "https://api.mmoui.com/v3");
    assert_eq!(
        s.api,
        ApiClient {
            endpoint_url: "https://api.mmoui.com/v3".to_string(),
            file_details_url: "d".to_string(),
            file_list_url: "f".to_string(),
            list_files_url: "l".to_string(),
            category_list_url: "c".to_string(),
        }
    );
    assert_eq!(s.get_addon_dir(), "/games/eso/AddOns");
    assert_eq!(s.config_filepath, "/home/me/eam.conf");
    assert_eq!(database_url("/home/me/addons.db"), "sqlite:///home/me/addons.db");
}
