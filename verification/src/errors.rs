//! Error kinds of the installation engine.

use vstd::prelude::*;

verus! {

/// Everything that can go wrong while opening a registry, decoding an
/// archive, or staging an update.
#[derive(Clone, Copy, Debug, PartialEq, Eq, Structural)]
pub enum Error {
    /// The persisted manifest uses an unknown (future) format version.
    BadInstallerVersion,
    /// The persisted manifest exists but cannot be understood.
    CorruptManifest,
    /// An install was staged for a component name that is already installed.
    DuplicateComponent,
    /// An archive entry's path would land outside the installation prefix
    /// or on the registry's own bookkeeping file.
    PathEscape,
    /// The archive bytes do not form a supported container.
    UnsupportedFormat,
    /// The archive container is recognized but its contents are corrupt.
    ArchiveError,
    /// No distributable matches the requested platform.
    NoBinaryForPlatform,
}

} // verus!
