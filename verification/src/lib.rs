//! Incremental update packages between two versions of a directory tree.
//!
//! The library fingerprints two trees by content and location, computes which
//! paths of the new tree are added or changed, plans the staging of those
//! paths, archives the staged files, and describes the archive in a manifest.
//! Every function works on plain values; reading and writing the file system
//! is left to the caller.
//!
//! - [`config`]: the configuration of a run, from the command line.
//! - [`hash`], [`hex`]: digests, file identities and their hexadecimal text.
//! - [`paths`], [`text`]: paths as `/`-separated text.
//! - [`tree`], [`fingerprint`]: the entries of a walk and the fingerprint of
//!   a tree.
//! - [`diff`]: the difference between two fingerprints.
//! - [`staging`]: the steps that build the staging area.
//! - [`compress`]: the archive of the staged files.
//! - [`manifest`]: the manifest of the archive.
//! - [`update`]: the end of a run, from staging area to archive and manifest.

pub mod compress;
pub mod config;
pub mod diff;
pub mod fingerprint;
pub mod hash;
pub mod hex;
pub mod manifest;
pub mod paths;
pub mod staging;
pub mod text;
pub mod tree;
pub mod update;
