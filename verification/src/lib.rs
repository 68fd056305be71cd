//! A transactional component-based installation engine.
//!
//! An installation prefix holds a set of named components, tracked by an
//! on-disk manifest.  Distribution archives (gzip-compressed tar or zip) are
//! decoded into component trees and applied to the prefix as a single logical
//! transaction: either every staged mutation commits, or rollback restores
//! the prefix byte for byte.

pub mod archive;
pub mod component;
pub mod dist;
pub mod errors;
pub mod laws;
pub mod manifest;
pub mod manifestation;
pub mod paths;
pub mod prefix;
pub mod transaction;
