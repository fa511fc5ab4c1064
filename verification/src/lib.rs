//! A content-addressable object store with a binary staging-area codec and a
//! status reconciler, in the style of a version-control system's storage
//! core.
//!
//! Objects (blobs, trees and commits) are framed, hashed and stored
//! compressed under their digest ([`store`], [`object`]); trees and commits
//! decode into structured records ([`tree`], [`commit`]); the staging area
//! has a binary reader and writer and a stat-based dirtiness predicate
//! ([`index`]); and [`status`] reconciles the staging area, the digests HEAD
//! reaches, and a working-directory walk.

pub mod bytes;
pub mod commit;
pub mod digest;
pub mod errors;
pub mod index;
pub mod object;
pub mod status;
pub mod store;
pub mod tree;
pub mod zlib;
