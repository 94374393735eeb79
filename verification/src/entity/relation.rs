//! Joins between tables.

use vstd::prelude::*;

verus! {

/// A column by which rows of two tables are joined.
#[derive(Clone, Copy, Debug, PartialEq, Eq, Structural)]
pub enum Column {
    /// `addon.id`
    AddonId,
    /// `installed_addon.addon_id`
    InstalledAddonAddonId,
    /// `addon_dir.addon_id`
    AddonDirAddonId,
    /// `addon_dependency.addon_id`
    AddonDependencyAddonId,
}

/// A join: rows belong together where the two columns are equal.
#[derive(Clone, Copy, Debug, PartialEq, Eq, Structural)]
pub struct RelationDef {
    /// The column on the side that the join starts from.
    pub from: Column,
    /// The column on the other side.
    pub to: Column,
}

impl RelationDef {
    /// The same join, started from the other side.
    pub open spec fn reversed(self) -> RelationDef {
        RelationDef { from: self.to, to: self.from }
    }
}

} // verus!
