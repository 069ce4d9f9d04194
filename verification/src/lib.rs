//! Signature search and in-place patching of byte buffers.
//!
//! A signature pairs a search pattern of fixed bytes and wildcards with a
//! replacement template of the same length. [`parse_sig`] and [`parse_rep`]
//! read the two texts, [`find`] locates the pattern in a buffer, and
//! [`apply`] lays the template over the match. [`apply_patch`] does all of
//! this for one signature, [`apply_all`] for a list of them.

pub mod error;
pub mod patch;
pub mod pattern;
pub mod search;

pub use error::PatchError;
pub use patch::{all_succeeded, apply, apply_all, apply_patch, Patch};
pub use pattern::{parse_rep, parse_sig, Replacement};
pub use search::{find, matches_at, sig_find};
