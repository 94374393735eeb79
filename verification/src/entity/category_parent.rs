//! The `category_parent` table: which categories lie below which.

use vstd::prelude::*;
use crate::table::Comparable;

verus! {

/// The category `id` lies below the category `parent_id`.
#[derive(Clone, Copy, Debug, PartialEq, Eq)]
pub struct Model {
    pub id: i32,
    pub parent_id: i32,
}

impl View for Model {
    type V = (i32, i32);

    open spec fn view(&self) -> (i32, i32) {
        (self.id, self.parent_id)
    }
}

impl Comparable for Model {
    fn same(&self, other: &Self) -> (b: bool) {
        self.id == other.id && self.parent_id == other.parent_id
    }
}

} // verus!
