//! A dependency manager core for a registry of versioned packages: a version
//! algebra over normalized version strings and constraint expressions, a
//! tolerant decoder for registry metadata, a breadth-first resolver that
//! selects one release per package, extraction planning for downloaded
//! archives, and the manifest and lockfile documents that drive it all.
#![verifier::loop_isolation(false)]
pub mod bytes;
pub mod cache;
pub mod installer;
pub mod json;
pub mod lock;
pub mod manifest;
pub mod pipeline;
pub mod registry;
pub mod resolver;
pub mod version;

use vstd::prelude::*;

verus! {

/// The error kinds the pipeline can surface.
#[derive(Clone, Copy, PartialEq, Eq, Structural, Debug)]
pub enum Error {
    ManifestMissing,
    ManifestParse,
    LockfileParse,
    RegistryConnect,
    RegistryStatus(u16),
    MetadataParse,
    PackageNotFound,
    Download(u16),
    Archive,
    Filesystem,
}

} // verus!
