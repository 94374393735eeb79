//! The rows of the catalogue, one module for each table, and how the tables belong together.

pub mod addon;
pub mod addon_dependency;
pub mod addon_detail;
pub mod addon_dir;
pub mod category;
pub mod category_parent;
pub mod installed_addon;
pub mod relation;
