use eso_addons_core::api::{CategoryItem, FileDetails, FileListItem};
use eso_addons_core::config::Config;
use eso_addons_core::database::{Database, Write};
use eso_addons_core::entity::{category, installed_addon};
use eso_addons_core::service::AddonService;
use eso_addons_core::statement::{plan, Cell, Conflict, Plan};
use eso_addons_core::text::{is_before, is_like, read_column};
use sea_orm::sea_query::{Alias, Expr, OnConflict, Query, SimpleExpr};
use sea_orm::{
    ConnectOptions, ConnectionTrait, DatabaseConnection, DbBackend, DbErr, QueryResult, Statement,
};

const TABLES: [&str; 7] = [
    "CREATE TABLE addon (id INTEGER NOT NULL PRIMARY KEY, category_id TEXT NOT NULL, \
     version TEXT NOT NULL, date TEXT NOT NULL, name TEXT NOT NULL, author_name TEXT, \
     file_info_url TEXT, download_total TEXT, download_monthly TEXT, favorite_total TEXT, \
     md5 TEXT, file_name TEXT, download TEXT)",
    "CREATE TABLE installed_addon (addon_id INTEGER NOT NULL PRIMARY KEY, version TEXT NOT NULL, \
     date TEXT NOT NULL)",
    "CREATE TABLE addon_dir (addon_id INTEGER NOT NULL, dir TEXT NOT NULL, \
     PRIMARY KEY (addon_id, dir))",
    "CREATE TABLE addon_dependency (addon_id INTEGER NOT NULL, dependency_dir TEXT NOT NULL, \
     PRIMARY KEY (addon_id, dependency_dir))",
    "CREATE TABLE addon_detail (id INTEGER NOT NULL PRIMARY KEY, description TEXT, \
     change_log TEXT, version TEXT)",
    "CREATE TABLE category (id INTEGER NOT NULL PRIMARY KEY, title TEXT NOT NULL, icon TEXT, \
     file_count INTEGER)",
    "CREATE TABLE category_parent (id INTEGER NOT NULL, parent_id INTEGER NOT NULL, \
     PRIMARY KEY (id, parent_id))",
];

async fn open() -> DatabaseConnection {
    let mut options = ConnectOptions::new("sqlite::memory:".to_string());
    options.max_connections(1).sqlx_logging(false);
    let db = sea_orm::Database::connect(options).await.unwrap();
    for sql in TABLES {
        db.execute(Statement::from_string(DbBackend::Sqlite, sql.to_string())).await.unwrap();
    }
    db
}

fn expr(cell: Cell) -> SimpleExpr {
    match cell {
        Cell::Number(n) => Expr::value(n),
        Cell::Text(t) => Expr::value(t),
        Cell::Null => Expr::value(Option::<String>::None),
    }
}

fn aliases(names: &[&str]) -> Vec<Alias> {
    names.iter().map(|n| Alias::new(n)).collect()
}

fn rule(conflict: Conflict) -> Option<OnConflict> {
    match conflict {
        Conflict::Fail => None,
        Conflict::Keep { key } => Some(OnConflict::columns(aliases(&key)).do_nothing().to_owned()),
        Conflict::Overwrite { key, columns } => {
            Some(OnConflict::columns(aliases(&key)).update_columns(aliases(&columns)).to_owned())
        }
    }
}

fn build(p: Plan) -> Statement {
    match p {
        Plan::Insert { table, columns, rows, conflict } => {
            let mut q = Query::insert();
            q.into_table(Alias::new(table)).columns(aliases(&columns));
            for row in rows {
                q.values_panic(row.into_iter().map(expr));
            }
            if let Some(c) = rule(conflict) {
                q.on_conflict(c);
            }
            DbBackend::Sqlite.build(&q)
        }
        Plan::Delete { table, column, values } => {
            let mut q = Query::delete();
            q.from_table(Alias::new(table)).cond_where(Expr::col(Alias::new(column)).is_in(values));
            DbBackend::Sqlite.build(&q)
        }
        Plan::Update { table, columns, cells, key, value } => {
            let mut q = Query::update();
            q.table(Alias::new(table)).values(
                aliases(&columns).into_iter().zip(cells.into_iter().map(expr)),
            );
            q.cond_where(Expr::col(Alias::new(key)).eq(value));
            DbBackend::Sqlite.build(&q)
        }
    }
}

async fn rows(db: &DatabaseConnection, sql: &str) -> Vec<QueryResult> {
    db.query_all(Statement::from_string(DbBackend::Sqlite, sql.to_string())).await.unwrap()
}

async fn ids(db: &DatabaseConnection, sql: &str) -> Vec<i32> {
    rows(db, sql).await.iter().map(|r| r.try_get("", "id").unwrap()).collect()
}

async fn pairs(db: &DatabaseConnection, sql: &str) -> Vec<(i32, String)> {
    rows(db, sql)
        .await
        .iter()
        .map(|r| (r.try_get("", "a").unwrap(), r.try_get("", "b").unwrap()))
        .collect()
}

fn run<F: std::future::Future>(f: F) -> F::Output {
    tokio::runtime::Builder::new_current_thread().enable_all().build().unwrap().block_on(f)
}

fn empty() -> AddonService {
    let config = Config {
        addon_dir: String::new(),
        file_details: String::new(),
        file_list: String::new(),
        list_files: String::new(),
        category_list: String::new(),
    };
    AddonService::new(config, String::new(), Database::new())
}

fn texts(list: &[&str]) -> Vec<String> {
    list.iter().map(|s| s.to_string()).collect()
}

fn item(id: &str, category: &str, version: &str, date: &str, name: &str, dirs: &[&str]) -> FileListItem {
    FileListItem {
        id: id.to_string(),
        category: category.to_string(),
        version: version.to_string(),
        date: date.to_string(),
        name: name.to_string(),
        author_name: "o'brien".to_string(),
        file_info_url: "u".to_string(),
        download_total: "1".to_string(),
        download_monthly: "2".to_string(),
        favorite_total: "3".to_string(),
        directories: texts(dirs),
    }
}

fn kind(id: &str, title: &str, parents: &[&str]) -> CategoryItem {
    CategoryItem {
        id: id.to_string(),
        title: title.to_string(),
        icon: "i".to_string(),
        file_count: "4".to_string(),
        parent_ids: texts(parents),
    }
}

fn record(id: i32, version: &str, date: &str) -> installed_addon::Model {
    installed_addon::Model { addon_id: id, version: version.to_string(), date: date.to_string() }
}

fn busy() -> AddonService {
    let mut s = empty();
    let kinds = vec![
        kind("10", "Maps", &["0"]),
        kind("11", "Minimaps", &["10", "10"]),
        kind("12", "Libs", &["0", "10"]),
        kind("13", "Orphans", &[]),
        kind("13", "Orphans again", &[]),
    ];
    assert!(s.update_categories(&kinds).is_ok());
    let list = vec![
        item("7", "11", "1.0", "1500", "Votan's Minimap", &["VotansMiniMap"]),
        item("3", "12", "2.1", "1600", "LibAddonMenu", &["LAM", "LibStub"]),
        item("5", "13", "1", "1400", "Orphan map", &["Orphan"]),
        item("9", "99", "1", "1700", "Lost map", &["Lost"]),
        item("7", "11", "1.1", "1550", "Votan's MiniMap", &["Votan2"]),
    ];
    assert!(s.update(&list, false).is_ok());
    let details = FileDetails {
        description: "d".to_string(),
        change_log: "c".to_string(),
        version: "2.1".to_string(),
        md5: "m".to_string(),
        file_name: "f".to_string(),
        download_url: "w".to_string(),
    };
    s.update_addon_details(3, &details);
    s.update_addon_details(7, &details);
    s.finish_install(record(3, "2.0", "1599"), &texts(&["A", "B", "A"]));
    s.finish_install(record(3, "2.1", "1600"), &texts(&["B", "C"]));
    s.finish_install(record(5, "1", "1399"), &vec![]);
    s.finish_install(record(7, "1.0", "1600"), &texts(&["LAM"]));
    s.remove(5);
    // a second list, one of whose directories comes twice, and a third
    assert!(s.update(&vec![item("9", "10", "2", "1701", "Map_%", &["X", "X"])], false).is_err());
    assert!(s.update(&vec![item("3", "12", "2.2", "1600", "LibAddonMenu", &["LAM"])], true).is_ok());
    s
}

async fn stored(s: &AddonService) -> DatabaseConnection {
    let db = open().await;
    for w in s.db.journal.iter() {
        db.execute(build(plan(w))).await.unwrap();
    }
    db
}

#[test]
fn statements_are_laid_out() {
    assert_eq!(
        plan(&Write::DeleteInstalled(4)),
        Plan::Delete { table: "installed_addon", column: "addon_id", values: vec![4] }
    );
    assert_eq!(
        plan(&Write::UpsertInstalled(record(4, "v", "d"))),
        Plan::Insert {
            table: "installed_addon",
            columns: vec!["addon_id", "version", "date"],
            rows: vec![vec![
                Cell::Number(4),
                Cell::Text("v".to_string()),
                Cell::Text("d".to_string()),
            ]],
            conflict: Conflict::Overwrite {
                key: vec!["addon_id"],
                columns: vec!["date", "version"],
            },
        }
    );
    assert_eq!(
        plan(&Write::UpsertCategories(vec![category::Model {
            id: 1,
            title: "t".to_string(),
            icon: None,
            file_count: None,
        }])),
        Plan::Insert {
            table: "category",
            columns: vec!["id", "title", "icon", "file_count"],
            rows: vec![vec![Cell::Number(1), Cell::Text("t".to_string()), Cell::Null, Cell::Null]],
            conflict: Conflict::Overwrite {
                key: vec!["id"],
                columns: vec!["title", "icon", "file_count"],
            },
        }
    );
    assert_eq!(
        build(plan(&Write::DeleteAddonDirs(vec![1, 2]))).sql,
        "DELETE FROM \"addon_dir\" WHERE \"addon_id\" IN (?, ?)"
    );
}

#[test]
fn the_journal_leads_to_the_same_tables() {
    let s = busy();
    run(async {
        let db = stored(&s).await;
        let addons = rows(&db, "SELECT * FROM addon ORDER BY id").await;
        assert_eq!(addons.len(), s.db.addons.len());
        for (i, r) in addons.iter().enumerate() {
            let a = s.db.addons.row(i);
            let get = |c: &str| -> Option<String> { r.try_get("", c).unwrap() };
            assert_eq!(r.try_get::<i32>("", "id").unwrap(), a.id);
            assert_eq!(get("category_id"), Some(a.category_id.clone()));
            assert_eq!(get("version"), Some(a.version.clone()));
            assert_eq!(get("date"), Some(a.date.clone()));
            assert_eq!(get("name"), Some(a.name.clone()));
            assert_eq!(get("author_name"), a.author_name);
            assert_eq!(get("file_info_url"), a.file_info_url);
            assert_eq!(get("download_total"), a.download_total);
            assert_eq!(get("download_monthly"), a.download_monthly);
            assert_eq!(get("favorite_total"), a.favorite_total);
            assert_eq!(get("md5"), a.md5);
            assert_eq!(get("file_name"), a.file_name);
            assert_eq!(get("download"), a.download);
        }
        let installed = rows(&db, "SELECT * FROM installed_addon ORDER BY addon_id").await;
        assert_eq!(installed.len(), s.db.installed.len());
        for (i, r) in installed.iter().enumerate() {
            let a = s.db.installed.row(i);
            assert_eq!(r.try_get::<i32>("", "addon_id").unwrap(), a.addon_id);
            assert_eq!(r.try_get::<String>("", "version").unwrap(), a.version);
            assert_eq!(r.try_get::<String>("", "date").unwrap(), a.date);
        }
        let details = rows(&db, "SELECT * FROM addon_detail ORDER BY id").await;
        assert_eq!(details.len(), s.db.details.len());
        for (i, r) in details.iter().enumerate() {
            let a = s.db.details.row(i);
            let get = |c: &str| -> Option<String> { r.try_get("", c).unwrap() };
            assert_eq!(r.try_get::<i32>("", "id").unwrap(), a.id);
            assert_eq!(get("description"), a.description);
            assert_eq!(get("change_log"), a.change_log);
            assert_eq!(get("version"), a.version);
        }
        let categories = rows(&db, "SELECT * FROM category ORDER BY id").await;
        assert_eq!(categories.len(), s.db.categories.len());
        for (i, r) in categories.iter().enumerate() {
            let a = s.db.categories.row(i);
            assert_eq!(r.try_get::<i32>("", "id").unwrap(), a.id);
            assert_eq!(r.try_get::<String>("", "title").unwrap(), a.title);
            assert_eq!(r.try_get::<Option<String>>("", "icon").unwrap(), a.icon);
            assert_eq!(r.try_get::<Option<i32>>("", "file_count").unwrap(), a.file_count);
        }
        let mut dirs: Vec<(i32, String)> = (0..s.db.dirs.len())
            .map(|i| (s.db.dirs.row(i).addon_id, s.db.dirs.row(i).dir.clone()))
            .collect();
        dirs.sort();
        assert_eq!(pairs(&db, "SELECT addon_id a, dir b FROM addon_dir ORDER BY 1, 2").await, dirs);
        let mut needs: Vec<(i32, String)> = (0..s.db.dependencies.len())
            .map(|i| {
                let r = s.db.dependencies.row(i);
                (r.addon_id, r.dependency_dir.clone())
            })
            .collect();
        needs.sort();
        assert_eq!(
            pairs(&db, "SELECT addon_id a, dependency_dir b FROM addon_dependency ORDER BY 1, 2")
                .await,
            needs
        );
        let mut links: Vec<(i32, String)> = (0..s.db.parents.len())
            .map(|i| (s.db.parents.row(i).id, format!("{}", s.db.parents.row(i).parent_id)))
            .collect();
        links.sort();
        assert_eq!(
            pairs(
                &db,
                "SELECT id a, CAST(parent_id AS TEXT) b FROM category_parent ORDER BY 1, 2"
            )
            .await,
            links
        );
    });
}

#[test]
fn the_answers_are_those_of_the_file() {
    let s = busy();
    run(async {
        let db = stored(&s).await;
        for text in ["map", "MAP", "", "_", "%", "lib", "n's m", "\u{e4}"] {
            let sql = format!(
                "SELECT addon.id FROM addon INNER JOIN category ON addon.category_id = category.id \
                 LEFT JOIN installed_addon ON addon.id = installed_addon.addon_id \
                 WHERE addon.name LIKE '%{}%' ORDER BY addon.date DESC",
                text.replace('\'', "''")
            );
            let found: Vec<i32> = s.search(text).iter().map(|r| r.id).collect();
            assert_eq!(ids(&db, &sql).await, found);
        }
        for k in [0, 10, 11, 12, 13, 99] {
            let sql = format!(
                "SELECT addon.id FROM addon INNER JOIN category ON addon.category_id = category.id \
                 INNER JOIN category_parent ON category_parent.id = category.id \
                 LEFT JOIN installed_addon ON addon.id = installed_addon.addon_id \
                 WHERE category.id = {k} OR category_parent.parent_id = {k} GROUP BY addon.id"
            );
            let found: Vec<i32> = s.get_addons_by_category(k).iter().map(|r| r.id).collect();
            assert_eq!(ids(&db, &sql).await, found);
        }
        let lacking = "SELECT addon.id FROM addon \
             LEFT JOIN addon_detail ON addon.id = addon_detail.id \
             WHERE addon_detail.version IS NULL OR addon.version <> addon_detail.version \
             OR addon.md5 IS NULL OR addon.file_name IS NULL OR addon.download IS NULL";
        assert_eq!(ids(&db, lacking).await, s.get_missing_addon_detail_ids());
        let outdated = "SELECT addon.id FROM installed_addon \
             INNER JOIN addon ON installed_addon.addon_id = addon.id \
             WHERE installed_addon.date < addon.date OR installed_addon.version <> addon.version";
        let found: Vec<i32> = s.get_outdated_addons().iter().map(|r| r.id).collect();
        assert_eq!(ids(&db, outdated).await, found);
        assert_eq!(found, vec![3, 7]);
        let missing = "SELECT addon.id FROM installed_addon \
             INNER JOIN addon ON installed_addon.addon_id = addon.id \
             INNER JOIN addon_dir ON addon.id = addon_dir.addon_id \
             INNER JOIN addon_dependency ON addon.id = addon_dependency.addon_id \
             WHERE addon_dir.dir NOT IN (SELECT DISTINCT dir FROM addon_dir \
             INNER JOIN installed_addon ON addon_dir.addon_id = installed_addon.addon_id)";
        assert_eq!(ids(&db, missing).await, vec![] as Vec<i32>);
        assert_eq!(s.get_missing_dependency_options(), vec![]);
        let parents = "SELECT category.id FROM category \
             INNER JOIN category_parent ON category_parent.parent_id = category.id \
             WHERE category_parent.parent_id <> 0 GROUP BY category_parent.parent_id \
             ORDER BY category.id";
        let found: Vec<i32> = s.get_category_parents().iter().map(|p| p.id).collect();
        assert_eq!(ids(&db, parents).await, found);
        for p in s.get_category_parents() {
            let sql = format!(
                "SELECT category.id FROM category \
                 INNER JOIN category_parent ON category_parent.id = category.id \
                 WHERE category_parent.parent_id = {} ORDER BY category.id",
                p.id
            );
            let found: Vec<i32> = p.child_categories.iter().map(|c| c.id).collect();
            assert_eq!(ids(&db, &sql).await, found);
        }
    });
}

#[test]
fn patterns_and_order_are_those_of_the_file() {
    let words = ["", "a", "A", "ab", "%", "_", "a%", "_b", "%b%", "a_c", "abc", "ABC", "\u{e9}", "\u{c9}", "10", "9", "%%", "a%c%"];
    run(async {
        let db = open().await;
        for p in words {
            for t in words {
                let sql = format!("SELECT '{t}' LIKE '{p}' a, CAST('{p}' < '{t}' AS TEXT) b");
                let answer = pairs(&db, &sql).await;
                let like = if is_like(p, t) { 1 } else { 0 };
                let before = if is_before(p, t) { "1" } else { "0" };
                assert_eq!(answer, vec![(like, before.to_string())], "{p} {t}");
            }
        }
    });
}

#[test]
fn categories_are_joined_as_in_the_file() {
    let texts = [
        "1", " 1", "1 ", "\t1\n", "+1", "01", "1.0", "1.", "1e0", "1E+0", "10e-1", ".1e1", "-1", "- 1",
        "", " ", ".", "1e", "1e+", "1.5", "1x", "1 1", "0x1", "1e10", "1e-1", "0", "-0.0", "0e999999",
        "1000.000e-3", "1e100000", "00000000000000000000000000000000000007", "7.000000000000000000000",
        "10000000000000000000000000000e-28", "1.0000000000000000000000000000000009", "1e-400",
        "-7.00000000000000000000000000009e-999999", "1000000000000000000000000000000000001e-36", "2147483647", "2147483648", "\u{a0}1", "1\u{1c}", "\u{661}",
    ];
    run(async {
        let db = open().await;
        for id in [-1, 0, 1, 7, 10, 2147483647] {
            let sql = format!("INSERT INTO category (id, title) VALUES ({id}, 't')");
            db.execute(Statement::from_string(DbBackend::Sqlite, sql)).await.unwrap();
        }
        for text in texts {
            db.execute(Statement::from_string(DbBackend::Sqlite, "DELETE FROM addon".to_string()))
                .await
                .unwrap();
            let row = "INSERT INTO addon (id, category_id, version, date, name) VALUES (5, ?, '', '', '')";
            db.execute(Statement::from_sql_and_values(DbBackend::Sqlite, row, [text.into()]))
                .await
                .unwrap();
            let joined = "SELECT category.id FROM addon \
                          INNER JOIN category ON addon.category_id = category.id";
            let expected: Vec<i32> = read_column(text)
                .into_iter()
                .filter(|k| [-1, 0, 1, 7, 10, 2147483647].contains(k))
                .collect();
            assert_eq!(ids(&db, joined).await, expected, "{text:?}");
        }
    });
}

#[test]
fn null_characters_end_patterns_as_in_the_file() {
    let words = ["a", "a\0b", "b", "\0", "%b%", "%a\0%", "%\0b", "_\0", "\u{fffe}", "\u{ffff}", "\u{fffd}", "%\u{ffff}%"];
    run(async {
        let db = open().await;
        for p in words {
            for t in words {
                let asked = Statement::from_sql_and_values(
                    DbBackend::Sqlite,
                    "SELECT ? LIKE ? a, '' b",
                    [t.into(), p.into()],
                );
                let answer = db.query_all(asked).await.unwrap();
                let like: i32 = answer[0].try_get("", "a").unwrap();
                assert_eq!(like == 1, is_like(p, t), "{p:?} {t:?}");
            }
        }
    });
}

#[test]
fn an_update_of_no_row_changes_nothing() {
    run(async {
        let db = open().await;
        let w = Write::SetAddonFile {
            id: 1,
            md5: "m".to_string(),
            file_name: "f".to_string(),
            download: "d".to_string(),
        };
        assert_eq!(db.execute(build(plan(&w))).await.unwrap().rows_affected(), 0);
    });
}

#[test]
fn statements_without_rows_fail() {
    run(async {
        let db = open().await;
        let attempt = |table: &'static str, c: Option<OnConflict>| {
            let mut q = Query::insert();
            q.into_table(Alias::new(table)).or_default_values();
            if let Some(c) = c {
                q.on_conflict(c);
            }
            DbBackend::Sqlite.build(&q)
        };
        let keep = OnConflict::columns(aliases(&["id", "parent_id"])).do_nothing().to_owned();
        let set = OnConflict::columns(aliases(&["id"])).update_columns(aliases(&["name"])).to_owned();
        let failed: Vec<Result<_, DbErr>> = vec![
            db.execute(attempt("category_parent", Some(keep))).await,
            db.execute(attempt("addon", Some(set))).await,
            db.execute(attempt("addon_dir", None)).await,
        ];
        assert!(failed.iter().all(|r| r.is_err()));
    });
}
