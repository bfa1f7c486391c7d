//! A version-history storage engine: an append-only archive that records
//! successive versions of a tree of files, stores later versions of a file as
//! compressed textual patches against earlier ones, and can reconstruct the
//! exact content of any file at any recorded version.
//!
//! The archive lives in a single byte string (`Vec<u8>`); reading it from and
//! writing it back to disk is the caller's concern.  Its layout:
//!
//! * bytes 0..8: the root pointer, the offset of the current version directory;
//! * at that offset: the version directory, the offsets of all version headers
//!   in commit order;
//! * at each such offset: a version header (version number, message, and a
//!   path-to-offset table), and at each offset the table lists, a file header
//!   followed by that file's compressed payload.
//!
//! A commit appends the new version's records and republishes the directory;
//! the single atomicity boundary is the final overwrite of the root pointer.

pub mod errors;
pub mod records;
pub mod codec;
pub mod parse;
pub mod compress;
pub mod textdiff;
pub mod reconstruct;
pub mod archive;
pub mod laws;
