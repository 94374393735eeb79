use eso_addons_core::config::Config;
use eso_addons_core::database::Database;
use eso_addons_core::entity::relation::{Column, RelationDef};
use eso_addons_core::entity::{addon, installed_addon};
use eso_addons_core::migration::Migrator;
use eso_addons_core::service::import::InstallState;
use eso_addons_core::service::AddonService;

fn service() -> AddonService {
    let config = Config {
        addon_dir: String::new(),
        file_details: String::new(),
        file_list: String::new(),
        list_files: String::new(),
        category_list: String::new(),
    };
    AddonService::new(config, String::new(), Database::new())
}

#[test]
fn an_import_waits_for_all() {
    let mut m = service().import_minion_file("7,3,,7,5");
    assert_eq!(m.installs, vec![7, 3, 7, 5]);
    assert_eq!(m.pending, vec![7, 3, 5]);
    assert!(!m.is_done());
    m.on_poll(&vec![InstallState::Updating, InstallState::Success, InstallState::Error]);
    assert_eq!(m.pending, vec![7, 5]);
    // one that failed, or whose outcome was taken away, keeps the import from ending
    m.on_poll(&vec![InstallState::Success, InstallState::Empty]);
    assert_eq!(m.pending, vec![5]);
    assert!(!m.is_done());
    m.on_poll(&vec![InstallState::Success]);
    assert!(m.is_done());
    assert_eq!(m.installs, vec![7, 3, 7, 5]);
}

#[test]
fn an_empty_import_is_done() {
    let m = service().import_minion_file("");
    assert_eq!(m.installs, vec![]);
    assert!(m.is_done());
}

#[test]
fn the_migrations() {
    let names = Migrator::migrations();
    assert_eq!(
        names,
        vec![
            "m20220101_000001_create_table",
            "m20230208_165547_add_categories",
            "m20230302_100852_addon_detail_version",
            "m20230519_153409_manual_deps",
        ]
    );
    assert!(names.windows(2).all(|w| w[0] < w[1]));
}

#[test]
fn the_relations() {
    assert_eq!(
        addon::Relation::InstalledAddon.def(),
        RelationDef { from: Column::AddonId, to: Column::InstalledAddonAddonId }
    );
    assert_eq!(
        addon::Relation::AddonDir.def(),
        RelationDef { from: Column::AddonId, to: Column::AddonDirAddonId }
    );
    assert_eq!(
        addon::Relation::AddonDependency.def(),
        RelationDef { from: Column::AddonId, to: Column::AddonDependencyAddonId }
    );
    let up = installed_addon::Relation::Addon.def();
    let down = addon::Relation::InstalledAddon.def();
    assert_eq!((up.from, up.to), (down.to, down.from));
}
