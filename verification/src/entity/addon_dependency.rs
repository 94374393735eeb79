//! The `addon_dependency` table: the directories an installed addon depends on.

use vstd::prelude::*;
use crate::table::Comparable;

verus! {

/// A directory that an addon needs.
#[derive(Debug, PartialEq, Eq)]
pub struct Model {
    pub addon_id: i32,
    pub dependency_dir: String,
}

impl View for Model {
    type V = (i32, Seq<char>);

    open spec fn view(&self) -> (i32, Seq<char>) {
        (self.addon_id, self.dependency_dir@)
    }
}

impl Comparable for Model {
    fn same(&self, other: &Self) -> (b: bool) {
        self.addon_id == other.addon_id && self.dependency_dir == other.dependency_dir
    }
}

impl Clone for Model {
    fn clone(&self) -> (r: Model)
        ensures
            r == *self,
    {
        Model { addon_id: self.addon_id, dependency_dir: self.dependency_dir.clone() }
    }
}

} // verus!
