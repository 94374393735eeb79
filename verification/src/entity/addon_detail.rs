//! The `addon_detail` table: the long texts of an addon, and the version they are of.

use vstd::prelude::*;
use crate::table::Keyed;
use crate::text::{copy_text, text_of};

verus! {

/// The details of an addon.
#[derive(Debug, PartialEq, Eq)]
pub struct Model {
    pub id: i32,
    pub description: Option<String>,
    pub change_log: Option<String>,
    pub version: Option<String>,
}

/// What a detail row holds.
#[verifier::ext_equal]
pub struct DetailRow {
    pub id: i32,
    pub description: Option<Seq<char>>,
    pub change_log: Option<Seq<char>>,
    pub version: Option<Seq<char>>,
}

impl View for Model {
    type V = DetailRow;

    open spec fn view(&self) -> DetailRow {
        DetailRow {
            id: self.id,
            description: text_of(self.description),
            change_log: text_of(self.change_log),
            version: text_of(self.version),
        }
    }
}

impl Keyed for Model {
    open spec fn key_of(v: DetailRow) -> i32 {
        v.id
    }

    fn key(&self) -> (k: i32) {
        self.id
    }
}

impl Clone for Model {
    fn clone(&self) -> (r: Model)
        ensures
            r == *self,
    {
        Model {
            id: self.id,
            description: copy_text(&self.description),
            change_log: copy_text(&self.change_log),
            version: copy_text(&self.version),
        }
    }
}

} // verus!
