//! The steps by which the catalogue file came to its present form.

use vstd::prelude::*;
use crate::text::texts_of;

verus! {

/// The steps of the catalogue file.
pub struct Migrator;

/// The names of the steps, in the order in which they are taken.
pub open spec fn migration_names() -> Seq<Seq<char>> {
    seq![
        "m20220101_000001_create_table"@,
        "m20230208_165547_add_categories"@,
        "m20230302_100852_addon_detail_version"@,
        "m20230519_153409_manual_deps"@,
    ]
}

impl Migrator {
    /// The names of the steps, in the order in which they are taken.
    pub fn migrations() -> (r: Vec<String>)
        ensures
            texts_of(r@) == migration_names(),
            r@.len() == 4,
            r@[0]@ == "m20220101_000001_create_table"@,
            r@[1]@ == "m20230208_165547_add_categories"@,
            r@[2]@ == "m20230302_100852_addon_detail_version"@,
            r@[3]@ == "m20230519_153409_manual_deps"@,
    {
        let mut r: Vec<String> = Vec::new();
        r.push("m20220101_000001_create_table".to_owned());
        r.push("m20230208_165547_add_categories".to_owned());
        r.push("m20230302_100852_addon_detail_version".to_owned());
        r.push("m20230519_153409_manual_deps".to_owned());
        assert(texts_of(r@) =~= migration_names());
        r
    }
}

} // verus!
