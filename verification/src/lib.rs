//! Verified core of a small artist portfolio web site: the page data that
//! the handlers build, the caches that hold pre-rendered fragments, and the
//! form and record processing of the admin area.

pub mod admin;
pub mod cache;
pub mod dates;
pub mod exhibitions;
pub mod forms;
pub mod json;
pub mod models;
pub mod numbers;
pub mod pages;
pub mod records;
pub mod text;
