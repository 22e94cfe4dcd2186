//! A deduplicating, encrypted backup engine organised as a content-addressed
//! object store.
//!
//! Source bytes are split into content-defined chunks, each chunk is named by
//! the digest of its plaintext, novel chunks are gathered into size-bounded
//! packs, and packs, trees and snapshots are sealed before they leave the
//! library.  Everything here works on plain values: reading and writing of
//! blobs is left to the caller.

pub mod error;
pub mod hexcode;
pub mod types;
pub mod idset;
pub mod crypto;
pub mod chunker;
pub mod codec;
pub mod pack;
pub mod index;
pub mod snapshot;
pub mod scale;
pub mod retry;
pub mod repository;
pub mod commit;
pub mod restore;
pub mod backend;
pub mod hestia;
pub mod commands;
pub mod text;
pub mod glob;
