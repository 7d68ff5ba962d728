//! Dependency resolution core of the kirbo package manager: semantic
//! versions and ranges, the registry-backed resolver, the lock file model and
//! the workspace root search.

pub mod commands;
pub mod dict;
pub mod lock;
pub mod npm;
pub mod options;
pub mod package_json;
pub mod registry;
pub mod resolver;
pub mod semver;
pub mod sorted;
pub mod text;
pub mod workspace;
