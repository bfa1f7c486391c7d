//! The records the archive is made of, and the mathematical model of a parsed
//! archive: a sequence of versions, each mapping paths to stored file entries.

use vstd::prelude::*;

verus! {

/// What a file entry's payload holds: the full (compressed) content of the
/// file, or a (compressed) textual patch against the file's content in the
/// immediately preceding version.
#[derive(Clone, Copy, Debug, PartialEq, Eq, Structural)]
pub enum Contents {
    Snapshot,
    Patch,
}

/// The kind of tree entry a file header describes.
#[derive(Clone, Copy, Debug, PartialEq, Eq, Structural)]
pub enum FileKind {
    File,
    Directory,
    SystemLink,
}

/// The metadata block of a file header.  Timestamps are seconds since the
/// epoch; a timestamp the filesystem did not report is `None`.
#[derive(Clone, Copy, Debug)]
pub struct Metadata {
    /// Uncompressed length of the file's content, in bytes.
    pub len: u64,
    pub kind: FileKind,
    pub read_only: bool,
    pub modified: Option<u64>,
    pub accessed: Option<u64>,
    pub created: Option<u64>,
}

/// A monotonically assigned commit sequence number.  The caller assigns it;
/// the format records it but does not interpret it.
#[derive(Clone, Copy, Debug, PartialEq, Eq, Structural)]
pub struct VersionNumber {
    pub number: u64,
}

/// The ordered offsets of every version header ever committed, oldest first.
#[derive(Debug)]
pub struct VersionDirectory {
    pub directory: Vec<u64>,
}

impl VersionDirectory {
    /// An empty directory: no version committed yet.
    pub fn new() -> (r: Self)
        ensures
            r.directory@ == Seq::<u64>::empty(),
    {
        VersionDirectory { directory: Vec::new() }
    }

    /// Record one more version header offset at the end.
    pub fn add(&mut self, offset: u64)
        ensures
            final(self).directory@ == old(self).directory@.push(offset),
    {
        self.directory.push(offset);
    }
}

/// One file header as stored in the archive: the size of the compressed
/// payload that follows it, the content kind, the metadata block, and the
/// file's path relative to the tree root.
#[derive(Debug)]
pub struct FileHeader {
    pub compressed_size: u64,
    pub contents: Contents,
    pub meta: Metadata,
    pub path: Vec<u8>,
}

/// The mathematical shadow of a `FileHeader`.
#[verifier::ext_equal]
pub ghost struct FileHeaderModel {
    pub compressed_size: u64,
    pub contents: Contents,
    pub meta: Metadata,
    pub path: Seq<u8>,
}

impl View for FileHeader {
    type V = FileHeaderModel;

    open spec fn view(&self) -> FileHeaderModel {
        FileHeaderModel {
            compressed_size: self.compressed_size,
            contents: self.contents,
            meta: self.meta,
            path: self.path@,
        }
    }
}

/// One stored file entry, resolved: its content kind, its metadata, and the
/// raw (still compressed) payload bytes the archive holds for it.
#[verifier::ext_equal]
pub ghost struct FileEntryModel {
    pub contents: Contents,
    pub meta: Metadata,
    pub payload: Seq<u8>,
}

/// One committed version, resolved: its number, its message, and, for each
/// path it stores, the file entry.  Keys are unique when the version was
/// written by this library; lookup takes the first match.
#[verifier::ext_equal]
pub ghost struct VersionModel {
    pub number: u64,
    pub message: Seq<u8>,
    pub files: Seq<(Seq<u8>, FileEntryModel)>,
}

/// First entry stored for `path` in one version, if any.
pub open spec fn find_entry(files: Seq<(Seq<u8>, FileEntryModel)>, path: Seq<u8>) -> Option<FileEntryModel>
    decreases files.len(),
{
    if files.len() == 0 {
        None
    } else if files[0].0 == path {
        Some(files[0].1)
    } else {
        find_entry(files.skip(1), path)
    }
}

/// A path is absolute when it begins with a slash separator; the writer
/// rejects such paths.
pub open spec fn is_absolute_path(path: Seq<u8>) -> bool {
    path.len() > 0 && path[0] == 47u8
}

/// Executable form of `is_absolute_path`.
pub fn check_absolute(path: &[u8]) -> (r: bool)
    ensures
        r == is_absolute_path(path@),
{
    path.len() > 0 && path[0] == 47u8
}

/// Byte-for-byte equality of two paths.
pub fn bytes_eq(a: &[u8], b: &[u8]) -> (r: bool)
    ensures
        r <==> a@ == b@,
{
    if a.len() != b.len() {
        assert(a@.len() != b@.len());
        return false;
    }
    let mut i: usize = 0;
    while i < a.len()
        invariant
            0 <= i <= a@.len(),
            a@.len() == b@.len(),
            forall|j: int| 0 <= j < i ==> a@[j] == b@[j],
        decreases a@.len() - i,
    {
        if a[i] != b[i] {
            return false;
        }
        i += 1;
    }
    assert(a@ =~= b@);
    true
}

} // verus!
