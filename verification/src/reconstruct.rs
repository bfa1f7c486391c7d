//! The mathematical reading of content reconstruction: where the snapshot
//! anchor of a path lies, and what replaying the patch chain from it yields.
//! `ReadArchive::materialize` is proved to return exactly `materialize_model`
//! of the parsed archive.

use vstd::prelude::*;
use crate::records::{Contents, VersionModel, find_entry};
use crate::errors::ArchiveError;
use crate::compress::unlzma_of;
use crate::textdiff::apply_of;

verus! {

/// The anchor for `path` at version `v`: scanning backward from `v`, the
/// version of the first snapshot entry found for `path`.  The scan ends with
/// no anchor at a version holding no entry for `path` (the file did not exist
/// before), or below version 0.
pub open spec fn anchor_of(vs: Seq<VersionModel>, v: int, path: Seq<u8>) -> Option<int>
    decreases v + 1,
{
    if v < 0 || v >= vs.len() {
        None
    } else {
        match find_entry(vs[v].files, path) {
            None => None,
            Some(e) => if e.contents == Contents::Snapshot {
                Some(v)
            } else {
                anchor_of(vs, v - 1, path)
            },
        }
    }
}

/// The content of `path` at version `j`, replayed from its anchor at `a`: the
/// decompressed anchor payload, patched once per version in `(a, j]`.  A
/// payload that does not decompress is a `FormatError`; a missing entry or a
/// patch that does not apply is a `ReconstructionError`.
pub open spec fn chain_val(vs: Seq<VersionModel>, path: Seq<u8>, a: int, j: int) -> Result<Seq<u8>, ArchiveError>
    decreases j - a,
{
    if j <= a {
        match find_entry(vs[a].files, path) {
            None => Err(ArchiveError::ReconstructionError),
            Some(e) => match unlzma_of(e.payload) {
                Some(c) => Ok(c),
                None => Err(ArchiveError::FormatError),
            },
        }
    } else {
        match chain_val(vs, path, a, j - 1) {
            Err(e) => Err(e),
            Ok(c) => match find_entry(vs[j].files, path) {
                None => Err(ArchiveError::ReconstructionError),
                Some(e) => match unlzma_of(e.payload) {
                    None => Err(ArchiveError::FormatError),
                    Some(pb) => match apply_of(c, pb) {
                        None => Err(ArchiveError::ReconstructionError),
                        Some(n) => Ok(n),
                    },
                },
            },
        }
    }
}

/// What materializing `path` at version `v` yields on a parsed history: the
/// exact error for an out-of-range version, an absent path or an unresolvable
/// chain, and otherwise the replayed content.
pub open spec fn materialize_model(vs: Seq<VersionModel>, v: int, path: Seq<u8>) -> Result<Seq<u8>, ArchiveError> {
    if v < 0 || v >= vs.len() {
        Err(ArchiveError::IndexOutOfRange)
    } else if find_entry(vs[v].files, path) is None {
        Err(ArchiveError::NotFound)
    } else {
        match anchor_of(vs, v, path) {
            None => Err(ArchiveError::ReconstructionError),
            Some(a) => chain_val(vs, path, a, v),
        }
    }
}

/// Where the backward scan lands: at a snapshot entry at or before `v`, with
/// every version strictly between holding a patch entry for the path — the
/// scan never passes a snapshot and never skips a version.
pub proof fn lemma_anchor_properties(vs: Seq<VersionModel>, v: int, path: Seq<u8>)
    requires
        0 <= v < vs.len(),
        find_entry(vs[v].files, path) is Some,
    ensures
        match anchor_of(vs, v, path) {
            Some(a) => 0 <= a <= v && (find_entry(vs[a].files, path) matches Some(e)
                && e.contents == Contents::Snapshot) && (forall|j: int|
                a < j <= v ==> ((#[trigger] find_entry(vs[j].files, path)) matches Some(e2)
                    && e2.contents == Contents::Patch)),
            None => true,
        },
    decreases v,
{
    let e = find_entry(vs[v].files, path).unwrap();
    if e.contents == Contents::Snapshot {
    } else {
        assert(anchor_of(vs, v, path) == anchor_of(vs, v - 1, path));
        if v == 0 {
            assert(anchor_of(vs, v - 1, path) is None);
        } else if find_entry(vs[v - 1].files, path) is None {
            assert(anchor_of(vs, v - 1, path) is None);
        } else {
            lemma_anchor_properties(vs, v - 1, path);
            if anchor_of(vs, v - 1, path) is Some {
                let a = anchor_of(vs, v - 1, path).unwrap();
                assert forall|j: int| a < j <= v implies ((#[trigger] find_entry(
                    vs[j].files,
                    path,
                )) matches Some(e2) && e2.contents == Contents::Patch) by {
                    if j == v {
                        assert(find_entry(vs[j].files, path) == Some(e));
                    }
                }
            }
        }
    }
}

/// A failure anywhere in the chain is the failure of the whole replay.
pub proof fn lemma_chain_err(vs: Seq<VersionModel>, path: Seq<u8>, a: int, k: int, j: int)
    requires
        a <= k <= j,
        chain_val(vs, path, a, k) is Err,
    ensures
        chain_val(vs, path, a, j) == chain_val(vs, path, a, k),
    decreases j - k,
{
    if j == k {
    } else {
        lemma_chain_err(vs, path, a, k, j - 1);
    }
}

} // verus!
