//! The `addon_dir` table: the directories of an addon.

use vstd::prelude::*;
use crate::table::{Comparable, Owned};

verus! {

/// A directory that an addon unpacks to.
#[derive(Debug, PartialEq, Eq)]
pub struct Model {
    pub addon_id: i32,
    pub dir: String,
}

impl View for Model {
    type V = (i32, Seq<char>);

    open spec fn view(&self) -> (i32, Seq<char>) {
        (self.addon_id, self.dir@)
    }
}

impl Comparable for Model {
    fn same(&self, other: &Self) -> (b: bool) {
        self.addon_id == other.addon_id && self.dir == other.dir
    }
}

impl Owned for Model {
    open spec fn owner_of(v: (i32, Seq<char>)) -> i32 {
        v.0
    }

    fn owner(&self) -> (k: i32) {
        self.addon_id
    }
}

impl Clone for Model {
    fn clone(&self) -> (r: Model)
        ensures
            r == *self,
    {
        Model { addon_id: self.addon_id, dir: self.dir.clone() }
    }
}

} // verus!
