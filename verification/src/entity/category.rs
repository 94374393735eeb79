//! The `category` table.

use vstd::prelude::*;
use crate::table::Keyed;
use crate::text::{copy_text, text_of};

verus! {

/// A category of addons.
#[derive(Debug, PartialEq, Eq)]
pub struct Model {
    pub id: i32,
    pub title: String,
    pub icon: Option<String>,
    pub file_count: Option<i32>,
}

/// What a category row holds.
#[verifier::ext_equal]
pub struct CategoryRow {
    pub id: i32,
    pub title: Seq<char>,
    pub icon: Option<Seq<char>>,
    pub file_count: Option<i32>,
}

impl View for Model {
    type V = CategoryRow;

    open spec fn view(&self) -> CategoryRow {
        CategoryRow {
            id: self.id,
            title: self.title@,
            icon: text_of(self.icon),
            file_count: self.file_count,
        }
    }
}

impl Keyed for Model {
    open spec fn key_of(v: CategoryRow) -> i32 {
        v.id
    }

    fn key(&self) -> (k: i32) {
        self.id
    }
}

impl Clone for Model {
    fn clone(&self) -> (r: Model)
        ensures
            r == *self,
    {
        Model {
            id: self.id,
            title: self.title.clone(),
            icon: copy_text(&self.icon),
            file_count: self.file_count,
        }
    }
}

} // verus!
