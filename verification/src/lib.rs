//! Read-only access library for the Monokakido dictionary container format.
//!
//! A dictionary is a directory tree holding a keyword index (the keystore),
//! compressed text resources (pages), and optional compressed media
//! resources.  This crate verifies the logic that reads, validates and
//! navigates the on-disk binary formats; the thin shell that performs file
//! and directory I/O lives outside it and hands the library plain bytes.

pub mod abi;
pub mod dict;
pub mod error;
pub mod key;
pub mod media;
pub mod resource;

pub use dict::Paths;
pub use error::Error;
pub use key::{KeyIndex, Keys, PageItemId};
pub use media::MediaId;
