use eso_addons_core::api::{CategoryItem, FileDetails, FileListItem};
use eso_addons_core::config::Config;
use eso_addons_core::database::{Database, Write};
use eso_addons_core::entity::{addon, addon_detail, addon_dir, category, installed_addon};
use eso_addons_core::error::ServiceError;
use eso_addons_core::result::{AddonDetails, AddonShowDetails, UpdateResult};
use eso_addons_core::service::install::{InstallStep, RemoveOutcome};
use eso_addons_core::service::query::CATEGORY_LIMIT;
use eso_addons_core::service::AddonService;

fn empty() -> AddonService {
    let config = Config {
        addon_dir: "/AddOns".to_string(),
        file_details: "old_details".to_string(),
        file_list: "old_list".to_string(),
        list_files: "old_files".to_string(),
        category_list: "old_categories".to_string(),
    };
    AddonService::new(config, "/eam.conf".to_string(), Database::new())
}

fn texts(list: &[&str]) -> Vec<String> {
    list.iter().map(|s| s.to_string()).collect()
}

fn item(id: &str, category: &str, version: &str, date: &str, name: &str, dirs: &[&str]) -> FileListItem {
    FileListItem {
        id: id.to_string(),
        category: category.to_string(),
        version: version.to_string(),
        date: date.to_string(),
        name: name.to_string(),
        author_name: "someone".to_string(),
        file_info_url: "http://info".to_string(),
        download_total: "10".to_string(),
        download_monthly: "2".to_string(),
        favorite_total: "1".to_string(),
        directories: texts(dirs),
    }
}

fn kind(id: &str, title: &str, parents: &[&str]) -> CategoryItem {
    CategoryItem {
        id: id.to_string(),
        title: title.to_string(),
        icon: "icon".to_string(),
        file_count: "5".to_string(),
        parent_ids: texts(parents),
    }
}

fn details(version: &str) -> FileDetails {
    FileDetails {
        description: "what it does".to_string(),
        change_log: "what is new".to_string(),
        version: version.to_string(),
        md5: "d41d8cd9".to_string(),
        file_name: "a.zip".to_string(),
        download_url: "http://files/a.zip".to_string(),
    }
}

fn kinds() -> Vec<CategoryItem> {
    vec![
        kind("10", "Maps", &["0"]),
        kind("11", "Minimaps", &["10"]),
        kind("12", "Libraries", &["0", "10"]),
        kind("13", "Orphans", &[]),
    ]
}

fn items() -> Vec<FileListItem> {
    vec![
        item("7", "11", "1.0", "1500", "Votan's Minimap", &["VotansMiniMap"]),
        item("3", "12", "2.1", "1600", "LibAddonMenu", &["LibAddonMenu-2.0", "LibStub"]),
        item("5", "13", "1", "1400", "Orphan map", &["Orphan"]),
        item("9", "99", "1", "1700", "Lost map", &["Lost"]),
    ]
}

fn filled() -> AddonService {
    let mut s = empty();
    assert_eq!(s.update_categories(&kinds()), Ok(()));
    assert!(s.update(&items(), false).is_ok());
    s
}

fn record(id: i32, version: &str, date: &str) -> installed_addon::Model {
    installed_addon::Model { addon_id: id, version: version.to_string(), date: date.to_string() }
}

fn ids(rows: &[AddonShowDetails]) -> Vec<i32> {
    rows.iter().map(|r| r.id).collect()
}

#[test]
fn a_refresh_stores_the_list() {
    let mut s = empty();
    assert_eq!(s.update_categories(&kinds()), Ok(()));
    let r = s.update(&items(), false);
    assert_eq!(
        r,
        Ok(UpdateResult { missing_deps: vec![], missing_details: vec![3, 5, 7, 9] })
    );
    assert_eq!(
        s.db.addons.get(7),
        Some(&addon::Model {
            id: 7,
            category_id: "11".to_string(),
            version: "1.0".to_string(),
            date: "1500".to_string(),
            name: "Votan's Minimap".to_string(),
            author_name: Some("someone".to_string()),
            file_info_url: Some("http://info".to_string()),
            download_total: Some("10".to_string()),
            download_monthly: Some("2".to_string()),
            favorite_total: Some("1".to_string()),
            md5: None,
            file_name: None,
            download: None,
        })
    );
    assert_eq!(s.db.addons.len(), 4);
    assert_eq!(s.db.dirs.len(), 5);
    assert!(s.db.dirs.contains(&addon_dir::Model { addon_id: 3, dir: "LibStub".to_string() }));
}

#[test]
fn the_journal_holds_the_statements() {
    let s = filled();
    assert_eq!(s.db.journal.len(), 5);
    assert!(matches!(&s.db.journal[0], Write::UpsertCategories(rows) if rows.len() == 4));
    assert!(matches!(&s.db.journal[1], Write::InsertCategoryParents(rows) if rows.len() == 4));
    assert!(matches!(&s.db.journal[2], Write::UpsertAddons(rows) if rows.len() == 4));
    assert_eq!(s.db.journal[3], Write::DeleteAddonDirs(vec![7, 3, 5, 9]));
    assert!(matches!(&s.db.journal[4], Write::InsertAddonDirs(rows) if rows.len() == 5));
    // carried out on an empty catalogue, they lead to the same tables
    let mut again = Database::new();
    for w in s.db.journal {
        assert_eq!(again.execute(w), Ok(()));
    }
    assert_eq!(again.addons.len(), 4);
    assert_eq!(again.categories.len(), 4);
    assert_eq!(again.parents.len(), 4);
    assert_eq!(again.dirs.len(), 5);
}

#[test]
fn a_refresh_leaves_the_settings_alone() {
    let mut s = empty();
    s.api.file_details_url = "new_details".to_string();
    s.api.file_list_url = "new_list".to_string();
    s.api.list_files_url = "new_files".to_string();
    s.api.category_list_url = "new_categories".to_string();
    assert!(s.update(&vec![], false).is_err());
    assert_eq!(s.config.file_details, "old_details");
    assert!(s.update(&items(), true).is_ok());
    assert_eq!(s.config, empty().config);
    assert_eq!(s.api.file_list_url, "new_list");
    // what is to be saved holds the addresses in use
    let saved = s.config_to_save();
    assert_eq!(
        saved,
        Config {
            addon_dir: "/AddOns".to_string(),
            file_details: "new_details".to_string(),
            file_list: "new_list".to_string(),
            list_files: "new_files".to_string(),
            category_list: "new_categories".to_string(),
        }
    );
    let fresh = AddonService::new(saved, s.config_filepath, Database::new());
    assert_eq!(fresh.api, s.api);
}

#[test]
fn a_refresh_keeps_what_the_list_does_not_tell() {
    let mut s = filled();
    s.update_addon_details(7, &details("1.0"));
    s.finish_install(record(7, "1.0", "1500"), &vec![]);
    let list = vec![item("7", "11", "1.1", "1800", "Minimap", &["Mini"])];
    let r = s.update(&list, false);
    assert_eq!(
        r,
        Ok(UpdateResult { missing_deps: vec![], missing_details: vec![3, 5, 7, 9] })
    );
    let row = s.db.addons.get(7).unwrap();
    assert_eq!(row.version, "1.1");
    assert_eq!(row.name, "Minimap");
    assert_eq!(row.md5, Some("d41d8cd9".to_string()));
    assert_eq!(row.file_name, Some("a.zip".to_string()));
    assert_eq!(row.download, Some("http://files/a.zip".to_string()));
    assert_eq!(s.db.installed.get(7), Some(&record(7, "1.0", "1500")));
    // its directories are replaced, those of the others stay
    assert_eq!(s.db.dirs.len(), 5);
    assert!(s.db.dirs.contains(&addon_dir::Model { addon_id: 7, dir: "Mini".to_string() }));
    assert!(!s.db.dirs.contains(&addon_dir::Model {
        addon_id: 7,
        dir: "VotansMiniMap".to_string()
    }));
    assert_eq!(s.db.addons.len(), 4);
}

#[test]
fn a_refresh_twice_is_a_refresh_once() {
    let mut s = filled();
    let r = s.update(&items(), false);
    assert_eq!(
        r,
        Ok(UpdateResult { missing_deps: vec![], missing_details: vec![3, 5, 7, 9] })
    );
    assert_eq!(s.db.addons.len(), 4);
    assert_eq!(s.db.dirs.len(), 5);
    assert_eq!(s.update_categories(&kinds()), Ok(()));
    assert_eq!(s.db.categories.len(), 4);
    assert_eq!(s.db.parents.len(), 4);
}

#[test]
fn the_last_item_of_an_identifier_counts() {
    let mut s = empty();
    let list = vec![
        item("1", "1", "1", "1", "first", &["A"]),
        item("+1", "2", "2", "2", "second", &["B"]),
    ];
    assert!(s.update(&list, false).is_ok());
    assert_eq!(s.db.addons.len(), 1);
    assert_eq!(s.db.addons.get(1).unwrap().name, "second");
    assert_eq!(s.db.dirs.len(), 2);
    let list = vec![kind("4", "a", &["0"]), kind("4", "b", &[])];
    assert_eq!(s.update_categories(&list), Ok(()));
    assert_eq!(
        s.db.categories.get(4),
        Some(&category::Model {
            id: 4,
            title: "b".to_string(),
            icon: Some("icon".to_string()),
            file_count: Some(5),
        })
    );
}

#[test]
fn a_refresh_that_fails() {
    let mut s = filled();
    let before = s.db.journal.len();
    // no addons
    assert_eq!(s.update(&vec![], false), Err(ServiceError::DbPut));
    assert_eq!(s.db.journal.len(), before);
    // a directory twice: the addons are stored, the directories are gone
    let list = vec![item("7", "11", "9.9", "1", "M", &["A", "A"])];
    assert_eq!(s.update(&list, true), Err(ServiceError::DbPut));
    assert_eq!(s.db.addons.get(7).unwrap().version, "9.9");
    assert_eq!(s.db.dirs.len(), 4);
    assert_eq!(s.db.journal.len(), before + 2);
    // no directories
    let list = vec![item("7", "11", "9.8", "1", "M", &[])];
    assert_eq!(s.update(&list, false), Err(ServiceError::DbPut));
    assert_eq!(s.db.addons.get(7).unwrap().version, "9.8");
}

#[test]
fn categories_that_fail() {
    let mut s = empty();
    assert_eq!(s.update_categories(&vec![]), Err(ServiceError::DbPut));
    assert_eq!(s.db.journal.len(), 0);
    assert_eq!(s.update_categories(&vec![kind("1", "a", &[])]), Err(ServiceError::DbPut));
    assert_eq!(s.db.categories.len(), 1);
    assert_eq!(s.db.journal.len(), 1);
}

#[test]
fn numbers_of_items() {
    assert!(kind("1", "a", &["0", "-5"]).is_numbered());
    assert!(!kind("x", "a", &[]).is_numbered());
    assert!(!kind("1", "a", &["0", ""]).is_numbered());
    assert!(item("12", "x", "", "", "", &[]).is_numbered());
    assert!(!item("12a", "1", "", "", "", &[]).is_numbered());
}

#[test]
fn an_installation() {
    let mut s = filled();
    s.update_addon_details(3, &details("2.1"));
    assert_eq!(s.get_installed_addon_count(), 0);
    let step = s.install(3, false);
    assert_eq!(
        step,
        InstallStep::Download {
            url: "http://files/a.zip".to_string(),
            record: record(3, "2.1", "1600"),
        }
    );
    s.finish_install(record(3, "2.1", "1600"), &texts(&["LibStub", "LibOther", "LibStub"]));
    assert_eq!(s.get_installed_addon_count(), 1);
    assert_eq!(s.db.dependencies.len(), 2);
    assert_eq!(s.install(3, false), InstallStep::UpToDate);
    assert!(matches!(s.install(3, true), InstallStep::Download { .. }));
    // the same dependencies once more
    s.finish_install(record(3, "2.1", "1600"), &texts(&["LibOther"]));
    assert_eq!(s.db.dependencies.len(), 2);
    assert_eq!(s.get_installed_addon_count(), 1);
    assert_eq!(ids(&s.get_installed_addons()), vec![3]);
    assert_eq!(s.get_outdated_addons(), vec![]);
    // nothing is offered, though a dependency is missing
    assert_eq!(s.get_missing_dependency_options(), vec![]);
    assert_eq!(s.upgrade(), UpdateResult { missing_deps: vec![], missing_details: vec![] });
}

#[test]
fn an_installation_of_another_version() {
    let mut s = filled();
    s.update_addon_details(3, &details("2.1"));
    s.finish_install(record(3, "2.0", "1600"), &vec![]);
    assert!(matches!(s.install(3, false), InstallStep::Download { .. }));
    assert_eq!(
        s.get_outdated_addons(),
        vec![AddonDetails {
            id: 3,
            category_id: "12".to_string(),
            name: "LibAddonMenu".to_string(),
            version: "2.0".to_string(),
            date: "1600".to_string(),
            installed: true,
        }]
    );
    // dates are texts: "1600" comes after "1500", and "9" after both
    s.finish_install(record(3, "2.1", "1599"), &vec![]);
    assert_eq!(s.get_outdated_addons().len(), 1);
    s.finish_install(record(3, "2.1", "9"), &vec![]);
    assert_eq!(s.get_outdated_addons().len(), 0);
}

#[test]
fn a_removal_undoes_an_installation() {
    let mut s = filled();
    s.finish_install(record(3, "2.1", "1600"), &texts(&["X"]));
    s.finish_install(record(7, "1.0", "1500"), &vec![]);
    assert_eq!(s.remove(1000), RemoveOutcome::NotListed);
    assert_eq!(s.remove(5), RemoveOutcome::NotInstalled);
    assert_eq!(s.get_installed_addon_count(), 2);
    assert_eq!(
        s.remove(3),
        RemoveOutcome::Removed { dirs: texts(&["LibAddonMenu-2.0", "LibStub"]) }
    );
    assert_eq!(s.get_installed_addon_count(), 1);
    assert_eq!(s.db.installed.get(3), None);
    assert_eq!(s.db.installed.get(7), Some(&record(7, "1.0", "1500")));
    assert_eq!(s.db.dependencies.len(), 1);
    assert_eq!(s.db.addons.len(), 4);
    assert_eq!(s.remove(3), RemoveOutcome::NotInstalled);
    assert_eq!(s.db.journal[s.db.journal.len() - 1], Write::DeleteInstalled(3));
}

#[test]
fn details_are_stored_and_shown() {
    let mut s = filled();
    assert_eq!(s.get_addon_details(7), None);
    s.update_addon_details(7, &details("1.0"));
    s.finish_install(record(7, "0.9", "1"), &vec![]);
    assert_eq!(
        s.get_addon_details(7),
        Some(AddonShowDetails {
            id: 7,
            category_id: "11".to_string(),
            version: "1.0".to_string(),
            date: "1500".to_string(),
            name: "Votan's Minimap".to_string(),
            author_name: Some("someone".to_string()),
            file_info_url: Some("http://info".to_string()),
            download_total: Some("10".to_string()),
            download_monthly: Some("2".to_string()),
            favorite_total: Some("1".to_string()),
            md5: Some("d41d8cd9".to_string()),
            file_name: Some("a.zip".to_string()),
            download: Some("http://files/a.zip".to_string()),
            category: "Minimaps".to_string(),
            installed: true,
            installed_version: Some("0.9".to_string()),
            description: Some("what it does".to_string()),
            change_log: Some("what is new".to_string()),
        })
    );
    assert_eq!(s.get_missing_addon_detail_ids(), vec![3, 5, 9]);
    // details of another version
    s.update_addon_details(7, &details("0.9"));
    assert_eq!(s.get_missing_addon_detail_ids(), vec![3, 5, 7, 9]);
    assert_eq!(
        s.db.details.get(7),
        Some(&addon_detail::Model {
            id: 7,
            description: Some("what it does".to_string()),
            change_log: Some("what is new".to_string()),
            version: Some("0.9".to_string()),
        })
    );
    // an addon whose category is not in the catalogue is not shown
    s.update_addon_details(9, &details("1"));
    assert_eq!(s.get_addon_details(9), None);
    assert_eq!(s.get_addon_details(1000), None);
}

#[test]
fn a_search() {
    let mut s = filled();
    // later dates come first; a category that is not in the catalogue hides the addon
    assert_eq!(ids(&s.search("map")), vec![7, 5]);
    assert_eq!(ids(&s.search("MAP")), vec![7, 5]);
    assert_eq!(ids(&s.search("")), vec![3, 7, 5]);
    assert_eq!(ids(&s.search("nothing")), vec![] as Vec<i32>);
    // wildcards
    assert_eq!(ids(&s.search("l_b")), vec![3]);
    assert_eq!(ids(&s.search("v%map")), vec![7]);
    s.finish_install(record(7, "1.0", "1500"), &vec![]);
    let rows = s.search("Votan's");
    assert_eq!(rows.len(), 1);
    assert_eq!(rows[0].category, "Minimaps");
    assert!(rows[0].installed);
    assert_eq!(rows[0].installed_version, Some("1.0".to_string()));
    assert_eq!(rows[0].description, Some("NULL".to_string()));
    assert_eq!(rows[0].change_log, Some("NULL".to_string()));
    let rows = s.search("menu");
    assert!(!rows[0].installed);
    assert_eq!(rows[0].installed_version, None);
}

#[test]
fn a_category_is_found_by_its_number() {
    let mut s = empty();
    assert_eq!(s.update_categories(&kinds()), Ok(()));
    let list = vec![
        item("1", " 11", "1", "1", "a\0b", &["A"]),
        item("2", "11.0", "1", "2", "ab", &["B"]),
        item("3", "1.1e1", "1", "3", "b", &["C"]),
        item("4", "11.5", "1", "4", "b", &["D"]),
    ];
    assert!(s.update(&list, false).is_ok());
    assert_eq!(ids(&s.get_addons_by_category(11)), vec![1, 2, 3]);
    assert_eq!(s.search("a")[0].category, "Minimaps");
    // a name is searched up to its first null character
    assert_eq!(ids(&s.search("b")), vec![3, 2]);
    assert_eq!(ids(&s.search("a")), vec![2, 1]);
}

#[test]
fn the_installed_addons() {
    let mut s = filled();
    assert_eq!(s.get_installed_addons(), vec![]);
    s.finish_install(record(7, "1.0", "1500"), &vec![]);
    s.finish_install(record(3, "2.1", "1600"), &vec![]);
    s.finish_install(record(9, "1", "1700"), &vec![]);
    assert_eq!(ids(&s.get_installed_addons()), vec![3, 7]);
    assert_eq!(s.get_installed_addon_count(), 3);
}

#[test]
fn the_addons_of_a_category() {
    let s = filled();
    assert_eq!(ids(&s.get_addons_by_category(11)), vec![7]);
    // with the categories below it, each addon once
    assert_eq!(ids(&s.get_addons_by_category(10)), vec![3, 7]);
    assert_eq!(ids(&s.get_addons_by_category(12)), vec![3]);
    assert_eq!(ids(&s.get_addons_by_category(0)), vec![3]);
    // a category without a parent shows nothing
    assert_eq!(ids(&s.get_addons_by_category(13)), vec![] as Vec<i32>);
}

#[test]
fn the_limit_of_a_category() {
    let mut s = empty();
    assert_eq!(s.update_categories(&kinds()), Ok(()));
    let list: Vec<FileListItem> = (0..150)
        .map(|i| item(&format!("{}", 1000 - i), "11", "1", "1", "x", &["d"]))
        .collect();
    assert!(s.update(&list, false).is_ok());
    assert_eq!(CATEGORY_LIMIT, 100);
    let rows = s.get_addons_by_category(11);
    assert_eq!(rows.len(), 100);
    assert_eq!(rows[0].id, 851);
    assert_eq!(rows[99].id, 950);
    assert_eq!(s.search("x").len(), 150);
}

#[test]
fn the_parents_of_categories() {
    let s = filled();
    let parents = s.get_category_parents();
    assert_eq!(parents.len(), 1);
    assert_eq!(parents[0].id, 10);
    assert_eq!(parents[0].title, "Maps");
    let children: Vec<i32> = parents[0].child_categories.iter().map(|c| c.id).collect();
    assert_eq!(children, vec![11, 12]);
    assert_eq!(parents[0].child_categories[0].title, "Minimaps");
    assert_eq!(parents[0].child_categories[0].file_count, Some(5));
}

#[test]
fn statements_that_cannot_be_carried_out() {
    let mut d = Database::new();
    assert_eq!(d.execute(Write::InsertDependencies(vec![])), Err(ServiceError::DbPut));
    assert_eq!(d.execute(Write::InsertAddonDirs(vec![])), Err(ServiceError::DbPut));
    assert_eq!(
        d.execute(Write::SetAddonFile {
            id: 1,
            md5: "".to_string(),
            file_name: "".to_string(),
            download: "".to_string(),
        }),
        Err(ServiceError::DbPut)
    );
    let dir = || addon_dir::Model { addon_id: 1, dir: "A".to_string() };
    assert_eq!(d.execute(Write::InsertAddonDirs(vec![dir()])), Ok(()));
    assert_eq!(d.execute(Write::InsertAddonDirs(vec![dir()])), Err(ServiceError::DbPut));
    assert_eq!(d.dirs.len(), 1);
    assert_eq!(d.execute(Write::DeleteAddonDirs(vec![])), Ok(()));
    assert_eq!(d.dirs.len(), 1);
    assert_eq!(d.execute(Write::DeleteInstalled(1)), Ok(()));
    assert_eq!(d.journal.len(), 3);
}
