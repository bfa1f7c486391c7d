//! The archive handles: opening an archive held as bytes, appending one new
//! version in a commit transaction, and reading any file at any version back.

use vstd::prelude::*;
use crate::errors::ArchiveError;
use crate::records::{
    Contents, Metadata, VersionNumber, VersionDirectory, FileHeader, FileHeaderModel,
    FileEntryModel, VersionModel, find_entry, is_absolute_path, check_absolute, bytes_eq,
};
use crate::codec::{
    enc_u64, enc_file_header, enc_version_header, enc_dir, pairs_view, dec_dir, dec_version_header,
    dec_u64, rd_u64, rd_dir, rd_version_header, rd_file_header, copy_range, push_file_header,
    push_version_header, push_dir, splice_root_ptr, lemma_dec_dir_at,
    lemma_dec_version_header_at, lemma_dec_file_header_at, lemma_dec_dir_stable,
    lemma_enc_file_header_len, agrees_past_root,
};
use crate::parse::{
    root_of, parse_one_file, parse_files, parse_version, parse_versions, parse_with_root,
    parse_archive, lemma_parse_versions_stable, lemma_parse_with_root_stable,
    lemma_parse_archive_extend,
};
use crate::reconstruct::{anchor_of, chain_val, materialize_model, lemma_anchor_properties};
use crate::compress::{compress, decompress, lzma_of, unlzma_of};
use crate::textdiff::{apply_patch, apply_of};
use vstd::bytes::lemma_auto_spec_u64_to_from_le_bytes;

verus! {

// ---------------------------------------------------------------------------
// The in-memory index a reader builds
// ---------------------------------------------------------------------------

/// One indexed file of one version: where its payload starts and the header
/// that was read for it.
pub struct FileSlot {
    pub path: Vec<u8>,
    pub payload_off: usize,
    pub header: FileHeader,
}

/// One indexed version.
pub struct VersionIndex {
    pub number: u64,
    pub message: Vec<u8>,
    pub files: Vec<FileSlot>,
}

/// The file entry a slot stands for, given the archive bytes.
pub open spec fn slot_abs(s: Seq<u8>, sl: FileSlot) -> (Seq<u8>, FileEntryModel) {
    (
        sl.path@,
        FileEntryModel {
            contents: sl.header.contents,
            meta: sl.header.meta,
            payload: s.subrange(
                sl.payload_off as int,
                sl.payload_off + sl.header.compressed_size,
            ),
        },
    )
}

pub open spec fn slot_in_bounds(s: Seq<u8>, sl: FileSlot) -> bool {
    sl.payload_off + sl.header.compressed_size <= s.len()
}

/// The version a whole index entry stands for.
pub open spec fn vix_abs(s: Seq<u8>, vi: VersionIndex) -> VersionModel {
    VersionModel {
        number: vi.number,
        message: vi.message@,
        files: vi.files@.map_values(|sl: FileSlot| slot_abs(s, sl)),
    }
}

pub open spec fn vix_wf(s: Seq<u8>, vi: VersionIndex) -> bool {
    forall|j: int| 0 <= j < vi.files@.len() ==> slot_in_bounds(s, #[trigger] vi.files@[j])
}

// ---------------------------------------------------------------------------
// Path lookup in an index entry
// ---------------------------------------------------------------------------

/// The index of the first slot whose path matches, if any.
fn find_slot(files: &Vec<FileSlot>, path: &[u8]) -> (r: Option<usize>)
    ensures
        match r {
            Some(i) => 0 <= i < files@.len() && files@[i as int].path@ == path@ && (forall|k: int|
                0 <= k < i ==> (#[trigger] files@[k]).path@ != path@),
            None => forall|k: int| 0 <= k < files@.len() ==> (#[trigger] files@[k]).path@
                != path@,
        },
{
    let mut i: usize = 0;
    while i < files.len()
        invariant
            0 <= i <= files@.len(),
            forall|k: int| 0 <= k < i ==> (#[trigger] files@[k]).path@ != path@,
        decreases files@.len() - i,
    {
        if bytes_eq(files[i].path.as_slice(), path) {
            return Some(i);
        }
        i += 1;
    }
    None
}

/// A slot whose path matches first is what `find_entry` yields on the version
/// the index stands for.
proof fn lemma_find_entry_at(s: Seq<u8>, slots: Seq<FileSlot>, path: Seq<u8>, i: int)
    requires
        0 <= i < slots.len(),
        slots[i].path@ == path,
        forall|k: int| 0 <= k < i ==> (#[trigger] slots[k]).path@ != path,
    ensures
        find_entry(slots.map_values(|sl: FileSlot| slot_abs(s, sl)), path) == Some(
            slot_abs(s, slots[i]).1,
        ),
    decreases i,
{
    let m = slots.map_values(|sl: FileSlot| slot_abs(s, sl));
    if i == 0 {
        assert(m[0].0 == path);
    } else {
        assert(m[0].0 != path);
        assert(m.skip(1) =~= slots.skip(1).map_values(|sl: FileSlot| slot_abs(s, sl)));
        lemma_find_entry_at(s, slots.skip(1), path, i - 1);
    }
}

/// No slot matches: `find_entry` yields nothing.
proof fn lemma_find_entry_none(s: Seq<u8>, slots: Seq<FileSlot>, path: Seq<u8>)
    requires
        forall|k: int| 0 <= k < slots.len() ==> (#[trigger] slots[k]).path@ != path,
    ensures
        find_entry(slots.map_values(|sl: FileSlot| slot_abs(s, sl)), path) is None,
    decreases slots.len(),
{
    let m = slots.map_values(|sl: FileSlot| slot_abs(s, sl));
    if slots.len() == 0 {
    } else {
        assert(m[0].0 != path);
        assert(m.skip(1) =~= slots.skip(1).map_values(|sl: FileSlot| slot_abs(s, sl)));
        lemma_find_entry_none(s, slots.skip(1), path);
    }
}

// ---------------------------------------------------------------------------
// Loading the index from the bytes
// ---------------------------------------------------------------------------

/// If one table entry does not resolve, the whole table does not.
proof fn lemma_parse_files_fail(s: Seq<u8>, pairs: Seq<(Seq<u8>, u64)>, k: int)
    requires
        0 <= k < pairs.len(),
        parse_one_file(s, pairs[k].0, pairs[k].1) is None,
    ensures
        parse_files(s, pairs) is None,
    decreases pairs.len(),
{
    if k == pairs.len() - 1 {
    } else {
        lemma_parse_files_fail(s, pairs.drop_last(), k);
    }
}

/// If one listed version does not resolve, the whole archive does not.
proof fn lemma_parse_versions_fail(s: Seq<u8>, offs: Seq<u64>, k: int)
    requires
        0 <= k < offs.len(),
        parse_version(s, offs[k]) is None,
    ensures
        parse_versions(s, offs) is None,
    decreases offs.len(),
{
    if k == offs.len() - 1 {
    } else {
        lemma_parse_versions_fail(s, offs.drop_last(), k);
    }
}

/// Load one version's header and every file header it lists.
fn load_version(data: &Vec<u8>, off: u64) -> (r: Result<VersionIndex, ArchiveError>)
    ensures
        match r {
            Ok(vi) => parse_version(data@, off) == Some(vix_abs(data@, vi)) && vix_wf(data@, vi),
            Err(e) => parse_version(data@, off) is None && e == ArchiveError::FormatError,
        },
{
    let dl: usize = data.len();
    if off < 8 || off > dl as u64 {
        proof {
            if off > dl as u64 {
                assert(off as int > data@.len());
                assert(dec_u64(data@, off as int) is None);
            }
        }
        return Err(ArchiveError::FormatError);
    }
    let (hdr, _end) = match rd_version_header(data.as_slice(), off as usize) {
        None => {
            return Err(ArchiveError::FormatError);
        },
        Some(x) => x,
    };
    let (number, message, pairs) = hdr;
    let ghost ps = pairs_view(pairs@);
    let mut files: Vec<FileSlot> = Vec::new();
    let mut i: usize = 0;
    assert(ps.take(0) =~= Seq::<(Seq<u8>, u64)>::empty());
    assert(files@.map_values(|sl: FileSlot| slot_abs(data@, sl)) =~= Seq::<
        (Seq<u8>, FileEntryModel),
    >::empty());
    while i < pairs.len()
        invariant
            0 <= i <= pairs@.len(),
            dl == data@.len(),
            off >= 8,
            dec_version_header(data@, off as int) matches Some(h) && h.0 == (
                number,
                message@,
                ps,
            ),
            ps == pairs_view(pairs@),
            ps.len() == pairs@.len(),
            parse_files(data@, ps.take(i as int)) == Some(
                files@.map_values(|sl: FileSlot| slot_abs(data@, sl)),
            ),
            forall|j: int| 0 <= j < files@.len() ==> slot_in_bounds(
                data@,
                #[trigger] files@[j],
            ),
        decreases pairs@.len() - i,
    {
        let fhoff: u64 = pairs[i].1;
        let ghost pr = ps[i as int];
        if fhoff < 8 || fhoff > dl as u64 {
            proof {
                if fhoff > dl as u64 {
                    assert(fhoff as int > data@.len());
                    assert(dec_u64(data@, fhoff as int) is None);
                }
                assert(parse_one_file(data@, pr.0, pr.1) is None);
                lemma_parse_files_fail(data@, ps, i as int);
            }
            return Err(ArchiveError::FormatError);
        }
        match rd_file_header(data.as_slice(), fhoff as usize) {
            None => {
                proof {
                    assert(parse_one_file(data@, pr.0, pr.1) is None);
                    lemma_parse_files_fail(data@, ps, i as int);
                }
                return Err(ArchiveError::FormatError);
            },
            Some((fh, q)) => {
                assert(q as int <= data@.len());
                if fh.compressed_size > (dl - q) as u64 {
                    proof {
                        assert(parse_one_file(data@, pr.0, pr.1) is None);
                        lemma_parse_files_fail(data@, ps, i as int);
                    }
                    return Err(ArchiveError::FormatError);
                }
                let ghost files0 = files@;
                let path_copy = vstd::slice::slice_to_vec(pairs[i].0.as_slice());
                files.push(FileSlot { path: path_copy, payload_off: q, header: fh });
                proof {
                    let f = |sl: FileSlot| slot_abs(data@, sl);
                    assert(files@.map_values(f) =~= files0.map_values(f).push(
                        f(files@[files@.len() - 1]),
                    ));
                    assert(ps.take(i + 1).drop_last() =~= ps.take(i as int));
                    assert(ps.take(i + 1).last() == pr);
                    assert(parse_one_file(data@, pr.0, pr.1) == Some(
                        f(files@[files@.len() - 1]),
                    ));
                }
                i += 1;
            },
        }
    }
    proof {
        assert(ps.take(ps.len() as int) =~= ps);
    }
    let vi = VersionIndex { number, message, files };
    proof {
        assert(vix_abs(data@, vi) =~= VersionModel {
            number,
            message: vi.message@,
            files: vi.files@.map_values(|sl: FileSlot| slot_abs(data@, sl)),
        });
    }
    Ok(vi)
}

/// Load the whole index: the directory and every version it lists.
fn load_index(data: &Vec<u8>) -> (r: Result<(Vec<u64>, Vec<VersionIndex>), ArchiveError>)
    ensures
        match r {
            Ok(pr) => {
                &&& data@.len() >= 8
                &&& root_of(data@) >= 8
                &&& (dec_dir(data@, root_of(data@) as int) matches Some(d) && d.0 == pr.0@)
                &&& parse_archive(data@) == Some(
                    pr.1@.map_values(|vi: VersionIndex| vix_abs(data@, vi)),
                )
                &&& forall|i: int| 0 <= i < pr.1@.len() ==> vix_wf(data@, #[trigger] pr.1@[i])
            },
            Err(e) => parse_archive(data@) is None && e == ArchiveError::FormatError,
        },
{
    let dl: usize = data.len();
    let root: u64 = match rd_u64(data.as_slice(), 0) {
        None => {
            return Err(ArchiveError::FormatError);
        },
        Some((root, _)) => root,
    };
    assert(root == root_of(data@));
    if root < 8 || root > dl as u64 {
        proof {
            if root > dl as u64 {
                assert(root as int > data@.len());
                assert(dec_u64(data@, root as int) is None);
            }
        }
        return Err(ArchiveError::FormatError);
    }
    let offs: Vec<u64> = match rd_dir(data.as_slice(), root as usize) {
        None => {
            return Err(ArchiveError::FormatError);
        },
        Some((offs, _)) => offs,
    };
    let mut versions: Vec<VersionIndex> = Vec::new();
    let mut i: usize = 0;
    assert(offs@.take(0) =~= Seq::<u64>::empty());
    assert(versions@.map_values(|vi: VersionIndex| vix_abs(data@, vi)) =~= Seq::<
        VersionModel,
    >::empty());
    while i < offs.len()
        invariant
            0 <= i <= offs@.len(),
            data@.len() >= 8,
            root == root_of(data@),
            root >= 8,
            dec_dir(data@, root as int) matches Some(d) && d.0 == offs@,
            parse_versions(data@, offs@.take(i as int)) == Some(
                versions@.map_values(|vi: VersionIndex| vix_abs(data@, vi)),
            ),
            forall|j: int| 0 <= j < versions@.len() ==> vix_wf(data@, #[trigger] versions@[j]),
        decreases offs@.len() - i,
    {
        match load_version(data, offs[i]) {
            Err(e) => {
                proof {
                    lemma_parse_versions_fail(data@, offs@, i as int);
                }
                return Err(ArchiveError::FormatError);
            },
            Ok(vi) => {
                let ghost versions0 = versions@;
                versions.push(vi);
                proof {
                    let f = |v: VersionIndex| vix_abs(data@, v);
                    assert(versions@.map_values(f) =~= versions0.map_values(f).push(
                        f(versions@[versions@.len() - 1]),
                    ));
                    assert(offs@.take(i + 1).drop_last() =~= offs@.take(i as int));
                    assert(offs@.take(i + 1).last() == offs@[i as int]);
                }
                i += 1;
            },
        }
    }
    proof {
        assert(offs@.take(offs@.len() as int) =~= offs@);
    }
    Ok((offs, versions))
}

// ---------------------------------------------------------------------------
// The read handle
// ---------------------------------------------------------------------------

/// An archive opened for query: the bytes plus the eagerly built index of
/// every version header and file header they reference.
pub struct ReadArchive {
    pub data: Vec<u8>,
    pub versions: Vec<VersionIndex>,
}

impl View for ReadArchive {
    type V = Seq<VersionModel>;

    open spec fn view(&self) -> Seq<VersionModel> {
        self.versions@.map_values(|vi: VersionIndex| vix_abs(self.data@, vi))
    }
}

/// What fetching one raw payload yields: the decompressed payload stored for
/// the path at the version, or the exact error.
pub open spec fn raw_payload_model(vs: Seq<VersionModel>, v: int, path: Seq<u8>) -> Result<Seq<u8>, ArchiveError> {
    if v < 0 || v >= vs.len() {
        Err(ArchiveError::IndexOutOfRange)
    } else {
        match find_entry(vs[v].files, path) {
            None => Err(ArchiveError::NotFound),
            Some(e) => match unlzma_of(e.payload) {
                Some(c) => Ok(c),
                None => Err(ArchiveError::FormatError),
            },
        }
    }
}

impl ReadArchive {
    /// The index is exactly the parse of the bytes, and every payload window
    /// it records lies within them.
    pub open spec fn wf(&self) -> bool {
        &&& parse_archive(self.data@) == Some(self@)
        &&& forall|i: int| 0 <= i < self.versions@.len() ==> vix_wf(
            self.data@,
            #[trigger] self.versions@[i],
        )
    }

    /// How many versions the archive holds.
    pub fn version_count(&self) -> (r: usize)
        ensures
            r == self@.len(),
    {
        self.versions.len()
    }

    /// The stored content kind and (still compressed) payload bytes for
    /// `path` at version `v`, if the version holds the path.
    fn stored_entry(&self, v: usize, path: &[u8]) -> (r: Option<(Contents, Vec<u8>)>)
        requires
            self.wf(),
            v < self@.len(),
        ensures
            match r {
                Some(pr) => find_entry(self@[v as int].files, path@) matches Some(e)
                    && e.contents == pr.0 && e.payload == pr.1@,
                None => find_entry(self@[v as int].files, path@) is None,
            },
    {
        let vi = &self.versions[v];
        assert(self@[v as int] == vix_abs(self.data@, self.versions@[v as int]));
        match find_slot(&vi.files, path) {
            None => {
                proof {
                    lemma_find_entry_none(self.data@, vi.files@, path@);
                }
                None
            },
            Some(i) => {
                proof {
                    lemma_find_entry_at(self.data@, vi.files@, path@, i as int);
                }
                let sl = &vi.files[i];
                assert(slot_in_bounds(self.data@, vi.files@[i as int]));
                let dlen: usize = self.data.len();
                assert(sl.header.compressed_size as int <= dlen as int);
                assert((sl.header.compressed_size as usize) as int
                    == sl.header.compressed_size as int);
                let payload = copy_range(
                    self.data.as_slice(),
                    sl.payload_off,
                    sl.header.compressed_size as usize,
                );
                Some((sl.header.contents, payload))
            },
        }
    }

    /// Fetch and decompress the payload stored for `path` at version
    /// `version`: a snapshot's full content, or a patch's serialized text.
    pub fn raw_payload(&self, version: usize, path: &[u8]) -> (r: Result<Vec<u8>, ArchiveError>)
        requires
            self.wf(),
        ensures
            ({
                let m = raw_payload_model(self@, version as int, path@);
                match r {
                    Ok(c) => m == Ok::<Seq<u8>, ArchiveError>(c@),
                    Err(e) => m == Err::<Seq<u8>, ArchiveError>(e),
                }
            }),
    {
        if version >= self.versions.len() {
            return Err(ArchiveError::IndexOutOfRange);
        }
        match self.stored_entry(version, path) {
            None => Err(ArchiveError::NotFound),
            Some((_c, payload)) => match decompress(payload.as_slice()) {
                Some(content) => Ok(content),
                None => Err(ArchiveError::FormatError),
            },
        }
    }

    /// The snapshot anchor for `path` at `version`: scan backward until a
    /// snapshot entry is found; a version without the path, or the bottom of
    /// the history, ends the scan without an anchor.
    fn find_anchor(&self, version: usize, path: &[u8]) -> (r: Option<usize>)
        requires
            self.wf(),
            version < self@.len(),
            find_entry(self@[version as int].files, path@) is Some,
        ensures
            match r {
                Some(a) => anchor_of(self@, version as int, path@) == Some(a as int) && a
                    <= version,
                None => anchor_of(self@, version as int, path@) is None,
            },
    {
        let mut j: usize = version;
        loop
            invariant
                self.wf(),
                j <= version < self@.len(),
                find_entry(self@[version as int].files, path@) is Some,
                anchor_of(self@, version as int, path@) == anchor_of(self@, j as int, path@),
            decreases j,
        {
            match self.stored_entry(j, path) {
                None => {
                    return None;
                },
                Some((c, _payload)) => {
                    if c == Contents::Snapshot {
                        return Some(j);
                    }
                    if j == 0 {
                        assert(anchor_of(self@, 0, path@) == anchor_of(self@, -1, path@));
                        return None;
                    }
                    j = j - 1;
                },
            }
        }
    }

    /// Reconstruct the exact content of `path` at version `version`: locate
    /// the nearest snapshot at or before it, decompress it, and replay every
    /// later patch in the chain.  Fails with the exact error of
    /// `materialize_model`: `IndexOutOfRange` beyond the history,
    /// `NotFound` for a path the version does not hold, `FormatError` for a
    /// payload that does not decompress, and `ReconstructionError` for a
    /// chain without an anchor or a patch that does not apply; no partial
    /// content is ever returned.
    pub fn materialize(&self, version: usize, path: &[u8]) -> (r: Result<Vec<u8>, ArchiveError>)
        requires
            self.wf(),
        ensures
            ({
                let m = materialize_model(self@, version as int, path@);
                match r {
                    Ok(c) => m == Ok::<Seq<u8>, ArchiveError>(c@),
                    Err(e) => m == Err::<Seq<u8>, ArchiveError>(e),
                }
            }),
    {
        let ghost vs = self@;
        if version >= self.versions.len() {
            return Err(ArchiveError::IndexOutOfRange);
        }
        match self.stored_entry(version, path) {
            None => {
                return Err(ArchiveError::NotFound);
            },
            Some(_) => {},
        }
        let anchor: usize = match self.find_anchor(version, path) {
            None => {
                return Err(ArchiveError::ReconstructionError);
            },
            Some(a) => a,
        };
        proof {
            lemma_anchor_properties(vs, version as int, path@);
        }
        let seed = match self.stored_entry(anchor, path) {
            Some((_c2, p)) => p,
            None => {
                proof {
                    assert(false);
                }
                return Err(ArchiveError::ReconstructionError);
            },
        };
        let mut acc = match decompress(seed.as_slice()) {
            Some(c) => c,
            None => {
                proof {
                    assert(chain_val(vs, path@, anchor as int, anchor as int) == Err::<
                        Seq<u8>,
                        ArchiveError,
                    >(ArchiveError::FormatError));
                    crate::reconstruct::lemma_chain_err(
                        vs,
                        path@,
                        anchor as int,
                        anchor as int,
                        version as int,
                    );
                }
                return Err(ArchiveError::FormatError);
            },
        };
        let mut j: usize = anchor;
        while j < version
            invariant
                self.wf(),
                vs == self@,
                anchor <= j <= version < vs.len(),
                find_entry(vs[version as int].files, path@) is Some,
                anchor_of(vs, version as int, path@) == Some(anchor as int),
                forall|k: int| anchor < k <= version ==> ((#[trigger] find_entry(
                    vs[k].files,
                    path@,
                )) matches Some(e2) && e2.contents == Contents::Patch),
                chain_val(vs, path@, anchor as int, j as int) == Ok::<Seq<u8>, ArchiveError>(
                    acc@,
                ),
            decreases version - j,
        {
            let jn = j + 1;
            match self.stored_entry(jn, path) {
                None => {
                    proof {
                        assert(false);
                    }
                    return Err(ArchiveError::ReconstructionError);
                },
                Some((_ck, payload)) => {
                    match decompress(payload.as_slice()) {
                        None => {
                            proof {
                                crate::reconstruct::lemma_chain_err(
                                    vs,
                                    path@,
                                    anchor as int,
                                    jn as int,
                                    version as int,
                                );
                            }
                            return Err(ArchiveError::FormatError);
                        },
                        Some(pb) => {
                            match apply_patch(acc.as_slice(), pb.as_slice()) {
                                None => {
                                    proof {
                                        crate::reconstruct::lemma_chain_err(
                                            vs,
                                            path@,
                                            anchor as int,
                                            jn as int,
                                            version as int,
                                        );
                                    }
                                    return Err(ArchiveError::ReconstructionError);
                                },
                                Some(next) => {
                                    acc = next;
                                    j = jn;
                                },
                            }
                        },
                    }
                },
            }
        }
        Ok(acc)
    }
}

// ---------------------------------------------------------------------------
// The append handle: one commit transaction
// ---------------------------------------------------------------------------

/// The in-progress record for one appended file: the table entry `(path,
/// header offset)` the version header will carry, next to the entry it stands
/// for.  The header and the payload are already in the bytes, past the end of
/// the archive that was opened.
pub open spec fn pending_slot_ok(data: Seq<u8>, f: (Vec<u8>, u64), e: (Seq<u8>, FileEntryModel)) -> bool {
    let h = FileHeaderModel {
        compressed_size: e.1.payload.len() as u64,
        contents: e.1.contents,
        meta: e.1.meta,
        path: e.0,
    };
    let hlen = enc_file_header(h).len() as int;
    &&& f.0@ == e.0
    &&& f.1 >= 8
    &&& e.0.len() <= u64::MAX
    &&& e.1.payload.len() <= u64::MAX
    &&& f.1 + hlen + e.1.payload.len() <= data.len()
    &&& data.subrange(f.1 as int, f.1 + hlen) == enc_file_header(h)
    &&& data.subrange(f.1 + hlen, f.1 + hlen + e.1.payload.len()) == e.1.payload
}

/// Some pending entry already uses this path.
pub open spec fn has_pending_path(pending: Seq<(Seq<u8>, FileEntryModel)>, path: Seq<u8>) -> bool {
    exists|k: int| 0 <= k < pending.len() && (#[trigger] pending[k]).0 == path
}

/// Whether the in-progress table holds the path already.
fn contains_path(files: &Vec<(Vec<u8>, u64)>, path: &[u8]) -> (r: bool)
    ensures
        r <==> exists|k: int| 0 <= k < files@.len() && (#[trigger] files@[k]).0@ == path@,
{
    let mut k: usize = 0;
    while k < files.len()
        invariant
            0 <= k <= files@.len(),
            forall|t: int| 0 <= t < k ==> (#[trigger] files@[t]).0@ != path@,
        decreases files@.len() - k,
    {
        if bytes_eq(files[k].0.as_slice(), path) {
            return true;
        }
        k += 1;
    }
    false
}

/// One slot's windows survive any pure extension of the bytes.
proof fn lemma_slot_ok_extend(s1: Seq<u8>, s2: Seq<u8>, f: (Vec<u8>, u64), e: (Seq<u8>, FileEntryModel))
    requires
        pending_slot_ok(s1, f, e),
        s1.len() <= s2.len(),
        forall|i: int| 0 <= i < s1.len() ==> s1[i] == s2[i],
    ensures
        pending_slot_ok(s2, f, e),
{
    let h = FileHeaderModel {
        compressed_size: e.1.payload.len() as u64,
        contents: e.1.contents,
        meta: e.1.meta,
        path: e.0,
    };
    let hlen = enc_file_header(h).len() as int;
    assert(s2.subrange(f.1 as int, f.1 + hlen) =~= s1.subrange(f.1 as int, f.1 + hlen));
    assert(s2.subrange(f.1 + hlen, f.1 + hlen + e.1.payload.len()) =~= s1.subrange(
        f.1 + hlen,
        f.1 + hlen + e.1.payload.len(),
    ));
}

/// The pending slots parse back to exactly the pending entries.
proof fn lemma_pending_files_parse(data: Seq<u8>, files: Seq<(Vec<u8>, u64)>, pending: Seq<(Seq<u8>, FileEntryModel)>)
    requires
        files.len() == pending.len(),
        forall|i: int| 0 <= i < files.len() ==> pending_slot_ok(data, #[trigger] files[i], pending[i]),
    ensures
        parse_files(data, pairs_view(files)) == Some(pending),
    decreases files.len(),
{
    let pv = pairs_view(files);
    if files.len() == 0 {
        assert(pv.len() == 0);
        assert(pending =~= Seq::<(Seq<u8>, FileEntryModel)>::empty());
    } else {
        assert(pv.drop_last() =~= pairs_view(files.drop_last()));
        lemma_pending_files_parse(data, files.drop_last(), pending.drop_last());
        let f = files.last();
        let e = pending.last();
        assert(pending_slot_ok(data, f, e));
        let h = FileHeaderModel {
            compressed_size: e.1.payload.len() as u64,
            contents: e.1.contents,
            meta: e.1.meta,
            path: e.0,
        };
        lemma_enc_file_header_len(h);
        lemma_dec_file_header_at(data, f.1 as int, h);
        let q = f.1 + 54 + e.0.len() as int;
        assert(parse_one_file(data, e.0, f.1) matches Some(pr2) && pr2 == (e.0, e.1)) by {
            assert(data.subrange(q, q + e.1.payload.len()) == e.1.payload);
            assert(FileEntryModel {
                contents: h.contents,
                meta: h.meta,
                payload: data.subrange(q, q + h.compressed_size),
            } =~= e.1);
        }
        assert(pv.last() == (e.0, f.1));
        assert(pending.drop_last().push(e) =~= pending);
    }
}

/// An archive opened for append: the bytes, the directory backed up at open
/// time, and the version header under construction.  Appended records go past
/// the end of the opened bytes and stay unreachable — the root pointer still
/// selects the backed-up directory — until `finish` republishes it.
pub struct AppendArchive {
    pub data: Vec<u8>,
    pub backup_directory: VersionDirectory,
    pub number: u64,
    pub message: Vec<u8>,
    pub files: Vec<(Vec<u8>, u64)>,
    /// The bytes as they were when the transaction opened.
    pub base: Ghost<Seq<u8>>,
    /// The history those bytes parse to.
    pub committed: Ghost<Seq<VersionModel>>,
    /// The entries appended so far in this transaction.
    pub pending: Ghost<Seq<(Seq<u8>, FileEntryModel)>>,
}

impl AppendArchive {
    /// The version this transaction will commit.
    pub open spec fn pending_version(&self) -> VersionModel {
        VersionModel { number: self.number, message: self.message@, files: self.pending@ }
    }

    /// The transaction invariant.  The opened bytes are untouched — they are a
    /// prefix of the current bytes, so the committed history still parses —
    /// and every appended record sits fully encoded past them, under a path no
    /// other appended record uses.
    pub open spec fn wf(&self) -> bool {
        &&& self.base@.len() >= 8
        &&& parse_archive(self.base@) == Some(self.committed@)
        &&& root_of(self.base@) >= 8
        &&& (dec_dir(self.base@, root_of(self.base@) as int) matches Some(d) && d.0
            == self.backup_directory.directory@)
        &&& self.data@.len() >= self.base@.len()
        &&& self.data@.subrange(0, self.base@.len() as int) == self.base@
        &&& self.files@.len() == self.pending@.len()
        &&& forall|i: int| 0 <= i < self.files@.len() ==> pending_slot_ok(
            self.data@,
            #[trigger] self.files@[i],
            self.pending@[i],
        )
        &&& forall|i: int, k: int| 0 <= i < k < self.files@.len() ==> (#[trigger] self.files@[i]).0@
            != (#[trigger] self.files@[k]).0@
    }

    /// Append one file record: its header, then its compressed payload, with
    /// the true compressed size in the header.  An absolute path, or a path
    /// already appended in this transaction, fails with `PathError` and
    /// leaves the transaction untouched.
    fn append_entry(&mut self, path: &[u8], body: &[u8], contents: Contents, meta: Metadata) -> (r: Result<(), ArchiveError>)
        requires
            old(self).wf(),
        ensures
            final(self).wf(),
            final(self).base@ == old(self).base@,
            final(self).committed@ == old(self).committed@,
            final(self).number == old(self).number,
            final(self).message@ == old(self).message@,
            match r {
                Ok(u) => {
                    &&& !is_absolute_path(path@)
                    &&& !has_pending_path(old(self).pending@, path@)
                    &&& final(self).pending@ == old(self).pending@.push(
                        (path@, FileEntryModel { contents, meta, payload: lzma_of(body@) }),
                    )
                    &&& unlzma_of(lzma_of(body@)) == Some(body@)
                },
                Err(e) => {
                    &&& e == ArchiveError::PathError
                    &&& (is_absolute_path(path@) || has_pending_path(old(self).pending@, path@))
                    &&& *final(self) == *old(self)
                },
            },
    {
        if check_absolute(path) {
            return Err(ArchiveError::PathError);
        }
        if contains_path(&self.files, path) {
            proof {
                let k = choose|k: int| 0 <= k < self.files@.len() && (#[trigger] self.files@[k]).0@
                    == path@;
                assert(self.pending@[k].0 == path@);
            }
            return Err(ArchiveError::PathError);
        }
        proof {
            assert forall|k: int| 0 <= k < self.pending@.len() implies (
            #[trigger] self.pending@[k]).0 != path@ by {
                assert(pending_slot_ok(self.data@, self.files@[k], self.pending@[k]));
            }
        }
        let ghost self0 = *self;
        let pos: u64 = self.data.len() as u64;
        let compressed = compress(body);
        let size: u64 = compressed.len() as u64;
        let header = FileHeader {
            compressed_size: size,
            contents,
            meta,
            path: vstd::slice::slice_to_vec(path),
        };
        let ghost data0 = self.data@;
        push_file_header(&mut self.data, &header);
        let mut comp2 = compressed;
        self.data.append(&mut comp2);
        self.files.push((vstd::slice::slice_to_vec(path), pos));
        let ghost entry = FileEntryModel { contents, meta, payload: lzma_of(body@) };
        proof {
            self.pending@ = self.pending@.push((path@, entry));
        }
        proof {
            let hm = header@;
            let hlen = enc_file_header(hm).len() as int;
            assert(self.data@.subrange(0, self.base@.len() as int) =~= self0.data@.subrange(
                0,
                self0.base@.len() as int,
            ));
            assert forall|i: int| 0 <= i < self.files@.len() implies pending_slot_ok(
                self.data@,
                #[trigger] self.files@[i],
                self.pending@[i],
            ) by {
                if i < self0.files@.len() {
                    assert(pending_slot_ok(self0.data@, self0.files@[i], self0.pending@[i]));
                    lemma_slot_ok_extend(self0.data@, self.data@, self.files@[i], self.pending@[i]);
                } else {
                    assert(self.files@[i] == (self.files@[i].0, pos));
                    assert(self.data@.subrange(pos as int, pos + hlen) =~= enc_file_header(hm));
                    assert(self.data@.subrange(pos + hlen, pos + hlen + entry.payload.len()) =~=
                        entry.payload);
                    assert(hm =~= FileHeaderModel {
                        compressed_size: entry.payload.len() as u64,
                        contents: entry.contents,
                        meta: entry.meta,
                        path: path@,
                    });
                }
            }
        }
        Ok(())
    }

    /// Append one full file content as a snapshot.
    pub fn append_snapshot(&mut self, path: &[u8], content: &[u8], meta: Metadata) -> (r: Result<(), ArchiveError>)
        requires
            old(self).wf(),
        ensures
            final(self).wf(),
            final(self).base@ == old(self).base@,
            final(self).committed@ == old(self).committed@,
            final(self).number == old(self).number,
            final(self).message@ == old(self).message@,
            match r {
                Ok(u) => {
                    &&& !is_absolute_path(path@)
                    &&& !has_pending_path(old(self).pending@, path@)
                    &&& final(self).pending@ == old(self).pending@.push(
                        (
                            path@,
                            FileEntryModel {
                                contents: Contents::Snapshot,
                                meta,
                                payload: lzma_of(content@),
                            },
                        ),
                    )
                    &&& unlzma_of(lzma_of(content@)) == Some(content@)
                },
                Err(e) => {
                    &&& e == ArchiveError::PathError
                    &&& (is_absolute_path(path@) || has_pending_path(old(self).pending@, path@))
                    &&& *final(self) == *old(self)
                },
            },
    {
        self.append_entry(path, content, Contents::Snapshot, meta)
    }

    /// Append one serialized textual patch against the path's content in the
    /// immediately preceding version.
    pub fn append_patch(&mut self, path: &[u8], patch: &[u8], meta: Metadata) -> (r: Result<(), ArchiveError>)
        requires
            old(self).wf(),
        ensures
            final(self).wf(),
            final(self).base@ == old(self).base@,
            final(self).committed@ == old(self).committed@,
            final(self).number == old(self).number,
            final(self).message@ == old(self).message@,
            match r {
                Ok(u) => {
                    &&& !is_absolute_path(path@)
                    &&& !has_pending_path(old(self).pending@, path@)
                    &&& final(self).pending@ == old(self).pending@.push(
                        (
                            path@,
                            FileEntryModel {
                                contents: Contents::Patch,
                                meta,
                                payload: lzma_of(patch@),
                            },
                        ),
                    )
                    &&& unlzma_of(lzma_of(patch@)) == Some(patch@)
                },
                Err(e) => {
                    &&& e == ArchiveError::PathError
                    &&& (is_absolute_path(path@) || has_pending_path(old(self).pending@, path@))
                    &&& *final(self) == *old(self)
                },
            },
    {
        self.append_entry(path, patch, Contents::Patch, meta)
    }

    /// Write the version header and the republished directory, but not the
    /// root pointer: the new version is on disk yet unreachable.  A crash
    /// here — or anywhere earlier in the transaction — leaves an archive that
    /// still parses to exactly the committed history.  Returns the offset the
    /// root pointer must be set to.
    #[verifier::rlimit(100)]
    #[verifier::spinoff_prover]
    pub fn seal(&mut self) -> (r: u64)
        requires
            old(self).wf(),
        ensures
            r >= 8,
            final(self).data@.len() >= 8,
            parse_archive(final(self).data@) == Some(old(self).committed@),
            parse_with_root(final(self).data@, r) == Some(
                old(self).committed@.push(old(self).pending_version()),
            ),
            (dec_dir(final(self).data@, r as int) matches Some(d) && d.0
                == final(self).backup_directory.directory@),
            final(self).committed@ == old(self).committed@,
            final(self).pending@ == old(self).pending@,
            final(self).number == old(self).number,
            final(self).message@ == old(self).message@,
    {
        let ghost self0 = *self;
        let nfiles: usize = self.files.len();
        let mlen: usize = self.message.len();
        let vh_off: u64 = self.data.len() as u64;
        push_version_header(&mut self.data, self.number, self.message.as_slice(), &self.files);
        let dir_off: u64 = self.data.len() as u64;
        self.backup_directory.add(vh_off);
        let ndirs: usize = self.backup_directory.directory.len();
        push_dir(&mut self.data, &self.backup_directory.directory);
        proof {
            let base = self.base@;
            let nd = self.data@;
            let old_offs = self0.backup_directory.directory@;
            let ps = pairs_view(self0.files@);
            let vh = enc_version_header(self0.number, self0.message@, ps);
            // the opened bytes are still a prefix
            assert(nd.subrange(0, base.len() as int) =~= self0.data@.subrange(
                0,
                base.len() as int,
            ));
            lemma_parse_archive_extend(base, nd);
            assert(agrees_past_root(base, nd));
            // the old directory still resolves every committed version
            lemma_parse_versions_stable(base, nd, old_offs);
            // the new version header decodes at its offset
            assert(nd.subrange(vh_off as int, vh_off + vh.len()) =~= vh);
            assert(ps.len() == nfiles as int);
            assert(self0.message@.len() == mlen as int);
            assert forall|i: int| 0 <= i < ps.len() implies #[trigger] ps[i].0.len() <= u64::MAX by {
                assert(pending_slot_ok(self0.data@, self0.files@[i], self0.pending@[i]));
            }
            lemma_dec_version_header_at(nd, vh_off as int, self0.number, self0.message@, ps);
            // its file table resolves to exactly the pending entries
            assert forall|i: int| 0 <= i < self0.files@.len() implies pending_slot_ok(
                nd,
                #[trigger] self0.files@[i],
                self0.pending@[i],
            ) by {
                assert(pending_slot_ok(self0.data@, self0.files@[i], self0.pending@[i]));
                lemma_slot_ok_extend(self0.data@, nd, self0.files@[i], self0.pending@[i]);
            }
            lemma_pending_files_parse(nd, self0.files@, self0.pending@);
            assert(parse_version(nd, vh_off) matches Some(pv) && pv =~= self0.pending_version());
            // the republished directory decodes at its offset
            let newdir = self.backup_directory.directory@;
            assert(newdir.len() == ndirs as int);
            assert(newdir =~= old_offs.push(vh_off));
            assert(nd.subrange(dir_off as int, dir_off + enc_dir(newdir).len()) =~= enc_dir(
                newdir,
            ));
            lemma_dec_dir_at(nd, dir_off as int, newdir);
            // and lists the committed versions plus the new one
            assert(newdir.drop_last() =~= old_offs);
            assert(parse_versions(nd, newdir) == Some(
                self0.committed@.push(self0.pending_version()),
            ));
        }
        dir_off
    }

    /// Publish a sealed directory: overwrite the root pointer, the single
    /// atomicity boundary of the commit.  The archive now parses to whatever
    /// history the given directory offset holds.
    pub fn write_root_pointer(&mut self, dir_off: u64)
        requires
            old(self).data@.len() >= 8,
            dir_off >= 8,
            parse_with_root(old(self).data@, dir_off) is Some,
        ensures
            final(self).data@.len() == old(self).data@.len(),
            root_of(final(self).data@) == dir_off,
            agrees_past_root(old(self).data@, final(self).data@),
            parse_archive(final(self).data@) == parse_with_root(old(self).data@, dir_off),
            final(self).backup_directory.directory@ == old(self).backup_directory.directory@,
            final(self).number == old(self).number,
            final(self).message@ == old(self).message@,
            final(self).files@ == old(self).files@,
            final(self).base@ == old(self).base@,
            final(self).committed@ == old(self).committed@,
            final(self).pending@ == old(self).pending@,
    {
        let nd = splice_root_ptr(&self.data, dir_off);
        self.data = nd;
        proof {
            lemma_auto_spec_u64_to_from_le_bytes();
            assert(root_of(self.data@) == dir_off);
            lemma_parse_with_root_stable(old(self).data@, self.data@, dir_off);
        }
    }

    /// Seal the transaction: write the version header, append it to the
    /// backed-up directory, write the new directory copy, and finally
    /// republish the root pointer.  Afterwards the archive parses to the old
    /// history plus this one new version, and the handle is ready for another
    /// transaction.
    pub fn finish(&mut self)
        requires
            old(self).wf(),
        ensures
            final(self).wf(),
            parse_archive(final(self).data@) == Some(
                old(self).committed@.push(old(self).pending_version()),
            ),
            final(self).committed@ == old(self).committed@.push(old(self).pending_version()),
            final(self).pending@ == Seq::<(Seq<u8>, FileEntryModel)>::empty(),
    {
        let dir_off = self.seal();
        let ghost sealed = self.data@;
        self.write_root_pointer(dir_off);
        proof {
            lemma_dec_dir_stable(sealed, self.data@, dir_off as int);
        }
        self.files = Vec::new();
        proof {
            self.base@ = self.data@;
            self.committed@ = self.committed@.push(
                VersionModel { number: self.number, message: self.message@, files: self.pending@ },
            );
            self.pending@ = Seq::<(Seq<u8>, FileEntryModel)>::empty();
        }
        proof {
            assert(self.data@.subrange(0, self.data@.len() as int) =~= self.data@);
        }
    }

    /// Hand the archive bytes back, for the caller to store.
    pub fn into_data(self) -> (r: Vec<u8>)
        ensures
            r@ == self.data@,
    {
        self.data
    }
}

// ---------------------------------------------------------------------------
// The archive handle
// ---------------------------------------------------------------------------

/// An archive held as bytes.  Loading those bytes from disk and storing them
/// back is the caller's concern; everything between is verified.
pub struct Archive {
    pub data: Vec<u8>,
}

impl Archive {
    /// Wrap existing archive bytes.
    pub fn new(data: Vec<u8>) -> (r: Archive)
        ensures
            r.data@ == data@,
    {
        Archive { data }
    }

    /// A fresh archive: a root pointer that selects an empty version
    /// directory right behind it.
    pub fn create() -> (r: Archive)
        ensures
            parse_archive(r.data@) == Some(Seq::<VersionModel>::empty()),
    {
        let mut data: Vec<u8> = Vec::new();
        crate::codec::push_u64(&mut data, 8);
        let empty_dir: Vec<u64> = Vec::new();
        push_dir(&mut data, &empty_dir);
        proof {
            lemma_auto_spec_u64_to_from_le_bytes();
            assert(data@.subrange(0, 8) =~= enc_u64(8));
            assert(root_of(data@) == 8);
            assert(data@.subrange(8, 8 + enc_dir(empty_dir@).len() as int) =~= enc_dir(empty_dir@));
            lemma_dec_dir_at(data@, 8, empty_dir@);
        }
        Archive { data }
    }

    /// Open a commit transaction.  The whole archive is validated first, and
    /// its directory backed up; appends then go past the end of the file, and
    /// nothing becomes visible until `finish` republishes the root pointer.
    pub fn appender(&self, number: VersionNumber, message: Vec<u8>) -> (r: Result<AppendArchive, ArchiveError>)
        ensures
            match r {
                Ok(w) => {
                    &&& w.wf()
                    &&& parse_archive(self.data@) == Some(w.committed@)
                    &&& w.pending@ == Seq::<(Seq<u8>, FileEntryModel)>::empty()
                    &&& w.number == number.number
                    &&& w.message@ == message@
                    &&& w.data@ == self.data@
                },
                Err(e) => parse_archive(self.data@) is None && e == ArchiveError::FormatError,
            },
    {
        match load_index(&self.data) {
            Err(e) => Err(e),
            Ok((dir, ix)) => {
                let ghost committed = ix@.map_values(|vi: VersionIndex| vix_abs(self.data@, vi));
                let data = vstd::slice::slice_to_vec(self.data.as_slice());
                let w = AppendArchive {
                    data,
                    backup_directory: VersionDirectory { directory: dir },
                    number: number.number,
                    message,
                    files: Vec::new(),
                    base: Ghost(self.data@),
                    committed: Ghost(committed),
                    pending: Ghost(Seq::<(Seq<u8>, FileEntryModel)>::empty()),
                };
                proof {
                    assert(w.data@.subrange(0, w.base@.len() as int) =~= w.base@);
                }
                Ok(w)
            },
        }
    }

    /// Open the archive for query: build the whole in-memory index.
    pub fn reader(&self) -> (r: Result<ReadArchive, ArchiveError>)
        ensures
            match r {
                Ok(rd) => rd.wf() && parse_archive(self.data@) == Some(rd@) && rd.data@
                    == self.data@,
                Err(e) => parse_archive(self.data@) is None && e == ArchiveError::FormatError,
            },
    {
        match load_index(&self.data) {
            Err(e) => Err(e),
            Ok((_dir, ix)) => {
                let data = vstd::slice::slice_to_vec(self.data.as_slice());
                let rd = ReadArchive { data, versions: ix };
                proof {
                    assert(rd@ =~= rd.versions@.map_values(
                        |vi: VersionIndex| vix_abs(self.data@, vi),
                    ));
                }
                Ok(rd)
            },
        }
    }
}

} // verus!
