//! Reads npm lockfiles of schema 1, 2 and 3 into one data model: the legacy
//! dependency tree, the flat package map keyed by package name, and a flat
//! list of top-level dependencies.
use vstd::prelude::*;

pub mod json;
pub mod lockfile;
pub mod model;
pub mod packages;
pub mod string_map;
pub mod text;

pub use json::JsonValue;
pub use lockfile::{dependencies_of, parse, parse_dependencies, reconcile_versions};
pub use model::{
    PackageLockJson, PackageLockJsonError, SimpleDependency, V1Dependency, V2Dependency,
};
pub use packages::{deserialize_packages, normalize_engines, normalize_entry};
pub use string_map::StringMap;

verus! {

} // verus!
