//! The decision core of an addon manager for The Elder Scrolls Online.

pub mod answers;
pub mod api;
pub mod archive;
pub mod config;
pub mod database;
pub mod entity;
pub mod error;
pub mod holding;
pub mod laws;
pub mod migration;
pub mod reading;
pub mod refreshing;
pub mod result;
pub mod service;
pub mod statement;
pub mod stored;
pub mod table;
pub mod text;
pub mod unpacking;
