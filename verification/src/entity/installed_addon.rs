//! The `installed_addon` table: what was installed, in which version.

use vstd::prelude::*;
use crate::entity::relation::{Column, RelationDef};
use crate::table::Keyed;

verus! {

/// An installed addon.
#[derive(Debug, PartialEq, Eq)]
pub struct Model {
    pub addon_id: i32,
    pub version: String,
    pub date: String,
}

/// What an installed-addon row holds.
#[verifier::ext_equal]
pub struct InstalledRow {
    pub addon_id: i32,
    pub version: Seq<char>,
    pub date: Seq<char>,
}

impl View for Model {
    type V = InstalledRow;

    open spec fn view(&self) -> InstalledRow {
        InstalledRow { addon_id: self.addon_id, version: self.version@, date: self.date@ }
    }
}

impl Keyed for Model {
    open spec fn key_of(v: InstalledRow) -> i32 {
        v.addon_id
    }

    fn key(&self) -> (k: i32) {
        self.addon_id
    }
}

impl Clone for Model {
    fn clone(&self) -> (r: Model)
        ensures
            r == *self,
    {
        Model {
            addon_id: self.addon_id,
            version: self.version.clone(),
            date: self.date.clone(),
        }
    }
}

/// What an installed addon belongs to.
#[derive(Clone, Copy, Debug, PartialEq, Eq, Structural)]
pub enum Relation {
    Addon,
}

impl Relation {
    /// The join that the relation stands for.
    pub open spec fn join(self) -> RelationDef {
        RelationDef { from: Column::InstalledAddonAddonId, to: Column::AddonId }
    }

    /// The join that the relation stands for.
    pub fn def(&self) -> (r: RelationDef)
        ensures
            r == self.join(),
            r.from == Column::InstalledAddonAddonId,
            r.to == Column::AddonId,
    {
        match self {
            Relation::Addon => RelationDef {
                from: Column::InstalledAddonAddonId,
                to: Column::AddonId,
            },
        }
    }
}

} // verus!
