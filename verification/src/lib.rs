//! Metadata database and build-order resolver for a local package repository.
//!
//! The crate parses the line-oriented `key = value` package-metadata format,
//! models package versions (epoch, upstream version, release) with the
//! packaging ecosystem's segment-wise comparison, indexes metadata records by
//! package base, reports duplicate package bases, and computes a
//! dependency-respecting build order or a precise cycle report.

use vstd::prelude::*;

pub mod database;
pub mod db_init;
pub mod extract;
pub mod srcinfo;
pub mod version;
pub mod version_cmp;

verus! {

/// Which build-metadata source a manifest member advertises.
#[derive(Debug, Copy, Clone, Eq, PartialEq, Structural)]
pub enum BuildMetadata {
    SrcInfo,
    PkgBuild,
    Either,
}

} // verus!
