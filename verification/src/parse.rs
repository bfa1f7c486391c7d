//! What a byte string means as an archive: the root pointer selects a version
//! directory, each directory entry selects a version header, and each header
//! entry selects a file header followed by its compressed payload.  `parse_archive`
//! is the single mathematical reading of an archive that the writer establishes
//! and the reader recovers.
//!
//! The stability lemmas state the property behind crash safety: no record read
//! ever touches the root pointer region or bytes past the end that the parse
//! succeeded on, so appending bytes leaves the parsed history unchanged, and
//! only the final root pointer rewrite can publish a new version.

use vstd::prelude::*;
use vstd::bytes::spec_u64_from_le_bytes;
use crate::records::{FileEntryModel, VersionModel};
use crate::codec::{
    dec_file_header, dec_version_header, dec_dir, agrees_past_root,
    lemma_dec_file_header_stable, lemma_dec_version_header_stable, lemma_dec_dir_stable,
    lemma_window,
};

verus! {

/// The offset the root pointer holds.
pub open spec fn root_of(s: Seq<u8>) -> u64 {
    spec_u64_from_le_bytes(s.subrange(0, 8))
}

/// Resolve one table entry: the file header at `off` and the payload bytes
/// that follow it.  A record may not overlap the root pointer region.
pub open spec fn parse_one_file(s: Seq<u8>, path: Seq<u8>, off: u64) -> Option<(Seq<u8>, FileEntryModel)> {
    if off < 8 {
        None
    } else {
        match dec_file_header(s, off as int) {
            None => None,
            Some((fh, q)) => if q + fh.compressed_size <= s.len() {
                Some(
                    (
                        path,
                        FileEntryModel {
                            contents: fh.contents,
                            meta: fh.meta,
                            payload: s.subrange(q, q + fh.compressed_size),
                        },
                    ),
                )
            } else {
                None
            },
        }
    }
}

/// Resolve a whole path-to-offset table, in table order.
pub open spec fn parse_files(s: Seq<u8>, pairs: Seq<(Seq<u8>, u64)>) -> Option<Seq<(Seq<u8>, FileEntryModel)>>
    decreases pairs.len(),
{
    if pairs.len() == 0 {
        Some(Seq::<(Seq<u8>, FileEntryModel)>::empty())
    } else {
        match parse_files(s, pairs.drop_last()) {
            None => None,
            Some(rest) => match parse_one_file(s, pairs.last().0, pairs.last().1) {
                None => None,
                Some(e) => Some(rest.push(e)),
            },
        }
    }
}

/// Resolve one version: its header at `off` and every file it lists.
pub open spec fn parse_version(s: Seq<u8>, off: u64) -> Option<VersionModel> {
    if off < 8 {
        None
    } else {
        match dec_version_header(s, off as int) {
            None => None,
            Some((hdr, _q)) => match parse_files(s, hdr.2) {
                None => None,
                Some(files) => Some(VersionModel { number: hdr.0, message: hdr.1, files }),
            },
        }
    }
}

/// Resolve every version the directory lists, in commit order.
pub open spec fn parse_versions(s: Seq<u8>, offs: Seq<u64>) -> Option<Seq<VersionModel>>
    decreases offs.len(),
{
    if offs.len() == 0 {
        Some(Seq::<VersionModel>::empty())
    } else {
        match parse_versions(s, offs.drop_last()) {
            None => None,
            Some(vs) => match parse_version(s, offs.last()) {
                None => None,
                Some(v) => Some(vs.push(v)),
            },
        }
    }
}

/// The archive as seen through a given directory offset.
pub open spec fn parse_with_root(s: Seq<u8>, root: u64) -> Option<Seq<VersionModel>> {
    if root < 8 {
        None
    } else {
        match dec_dir(s, root as int) {
            None => None,
            Some((offs, _q)) => parse_versions(s, offs),
        }
    }
}

/// The archive as seen through its root pointer: the committed history.
pub open spec fn parse_archive(s: Seq<u8>) -> Option<Seq<VersionModel>> {
    if s.len() < 8 {
        None
    } else {
        parse_with_root(s, root_of(s))
    }
}

// ---------------------------------------------------------------------------
// Stability
// ---------------------------------------------------------------------------

pub proof fn lemma_parse_one_file_stable(s1: Seq<u8>, s2: Seq<u8>, path: Seq<u8>, off: u64)
    requires
        parse_one_file(s1, path, off) is Some,
        agrees_past_root(s1, s2),
    ensures
        parse_one_file(s2, path, off) == parse_one_file(s1, path, off),
{
    lemma_dec_file_header_stable(s1, s2, off as int);
    let (fh, q) = dec_file_header(s1, off as int).unwrap();
    assert(s2.subrange(q, q + fh.compressed_size) =~= s1.subrange(q, q + fh.compressed_size));
}

pub proof fn lemma_parse_files_stable(s1: Seq<u8>, s2: Seq<u8>, pairs: Seq<(Seq<u8>, u64)>)
    requires
        parse_files(s1, pairs) is Some,
        agrees_past_root(s1, s2),
    ensures
        parse_files(s2, pairs) == parse_files(s1, pairs),
    decreases pairs.len(),
{
    if pairs.len() == 0 {
    } else {
        lemma_parse_files_stable(s1, s2, pairs.drop_last());
        lemma_parse_one_file_stable(s1, s2, pairs.last().0, pairs.last().1);
    }
}

pub proof fn lemma_parse_version_stable(s1: Seq<u8>, s2: Seq<u8>, off: u64)
    requires
        parse_version(s1, off) is Some,
        agrees_past_root(s1, s2),
    ensures
        parse_version(s2, off) == parse_version(s1, off),
{
    lemma_dec_version_header_stable(s1, s2, off as int);
    let (hdr, _q) = dec_version_header(s1, off as int).unwrap();
    lemma_parse_files_stable(s1, s2, hdr.2);
}

pub proof fn lemma_parse_versions_stable(s1: Seq<u8>, s2: Seq<u8>, offs: Seq<u64>)
    requires
        parse_versions(s1, offs) is Some,
        agrees_past_root(s1, s2),
    ensures
        parse_versions(s2, offs) == parse_versions(s1, offs),
    decreases offs.len(),
{
    if offs.len() == 0 {
    } else {
        lemma_parse_versions_stable(s1, s2, offs.drop_last());
        lemma_parse_version_stable(s1, s2, offs.last());
    }
}

pub proof fn lemma_parse_with_root_stable(s1: Seq<u8>, s2: Seq<u8>, root: u64)
    requires
        parse_with_root(s1, root) is Some,
        agrees_past_root(s1, s2),
    ensures
        parse_with_root(s2, root) == parse_with_root(s1, root),
{
    lemma_dec_dir_stable(s1, s2, root as int);
    let (offs, _q) = dec_dir(s1, root as int).unwrap();
    lemma_parse_versions_stable(s1, s2, offs);
}

/// Bytes appended past the end of a well-formed archive are unreachable: the
/// parsed history does not change.  This is why a commit that fails anywhere
/// before the final root pointer rewrite leaves the previous history intact.
pub proof fn lemma_parse_archive_extend(s1: Seq<u8>, s2: Seq<u8>)
    requires
        parse_archive(s1) is Some,
        s1.len() <= s2.len(),
        s2.subrange(0, s1.len() as int) == s1,
    ensures
        parse_archive(s2) == parse_archive(s1),
{
    lemma_window(s2, 0, s1, 0, 8);
    assert(s1.subrange(0, 8) =~= s2.subrange(0, 8));
    assert(root_of(s2) == root_of(s1));
    assert forall|i: int| 8 <= i < s1.len() implies s1[i] == s2[i] by {
        assert(s2.subrange(0, s1.len() as int)[i] == s2[i]);
    }
    lemma_parse_with_root_stable(s1, s2, root_of(s1));
}

} // verus!
