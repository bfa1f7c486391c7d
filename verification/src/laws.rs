//! The global laws of the archive, each proved once and for all over the
//! parsed history: snapshot contents round-trip, a patch chain replays to
//! exactly the diffed contents, and reconstruction reads nothing outside the
//! window between the nearest snapshot and the queried version.

use vstd::prelude::*;
use crate::records::{Contents, VersionModel, find_entry};
use crate::errors::ArchiveError;
use crate::compress::unlzma_of;
use crate::textdiff::apply_of;
use crate::reconstruct::{anchor_of, chain_val, materialize_model};

verus! {

/// Round-trip: a file stored as a snapshot materializes to exactly the
/// content that was compressed into it, whatever else the history holds.
pub proof fn lemma_snapshot_round_trip(vs: Seq<VersionModel>, v: int, path: Seq<u8>, c: Seq<u8>)
    requires
        0 <= v < vs.len(),
        find_entry(vs[v].files, path) matches Some(e) && e.contents == Contents::Snapshot
            && unlzma_of(e.payload) == Some(c),
    ensures
        materialize_model(vs, v, path) == Ok::<Seq<u8>, ArchiveError>(c),
{
    assert(anchor_of(vs, v, path) == Some(v));
    assert(chain_val(vs, path, v, v) == Ok::<Seq<u8>, ArchiveError>(c));
}

/// One step of the patch chain: versions `0..n` store the path as a snapshot
/// of `contents[0]` followed by patches, each turning the previous content
/// into the next.
proof fn lemma_patch_chain_step(vs: Seq<VersionModel>, path: Seq<u8>, contents: Seq<Seq<u8>>, n: int, i: int)
    requires
        0 < n <= vs.len(),
        contents.len() == n,
        find_entry(vs[0].files, path) matches Some(e) && e.contents == Contents::Snapshot
            && unlzma_of(e.payload) == Some(contents[0]),
        forall|j: int| 1 <= j < n ==> ((#[trigger] find_entry(vs[j].files, path)) matches Some(e2)
            && e2.contents == Contents::Patch && (unlzma_of(e2.payload) matches Some(pb)
            && apply_of(contents[j - 1], pb) == Some(contents[j]))),
        0 <= i < n,
    ensures
        anchor_of(vs, i, path) == Some(0int),
        chain_val(vs, path, 0, i) == Ok::<Seq<u8>, ArchiveError>(contents[i]),
    decreases i,
{
    if i == 0 {
        assert(anchor_of(vs, 0, path) == Some(0int));
    } else {
        lemma_patch_chain_step(vs, path, contents, n, i - 1);
        assert(find_entry(vs[i].files, path) matches Some(e2) && e2.contents == Contents::Patch);
        assert(anchor_of(vs, i, path) == anchor_of(vs, i - 1, path));
    }
}

/// Patch-chain correctness: when version 0 stores a path as a snapshot of
/// `contents[0]` and every later version `i < n` stores a patch that turns
/// `contents[i - 1]` into `contents[i]`, materializing any version `i < n`
/// yields exactly `contents[i]`.
pub proof fn lemma_patch_chain(vs: Seq<VersionModel>, path: Seq<u8>, contents: Seq<Seq<u8>>, n: int)
    requires
        0 < n <= vs.len(),
        contents.len() == n,
        find_entry(vs[0].files, path) matches Some(e) && e.contents == Contents::Snapshot
            && unlzma_of(e.payload) == Some(contents[0]),
        forall|j: int| 1 <= j < n ==> ((#[trigger] find_entry(vs[j].files, path)) matches Some(e2)
            && e2.contents == Contents::Patch && (unlzma_of(e2.payload) matches Some(pb)
            && apply_of(contents[j - 1], pb) == Some(contents[j]))),
    ensures
        forall|i: int| 0 <= i < n ==> materialize_model(vs, i, path) == Ok::<Seq<u8>, ArchiveError>(
            contents[i],
        ),
{
    assert forall|i: int| 0 <= i < n implies materialize_model(vs, i, path) == Ok::<
        Seq<u8>,
        ArchiveError,
    >(contents[i]) by {
        lemma_patch_chain_step(vs, path, contents, n, i);
        if i == 0 {
        } else {
            assert(find_entry(vs[i].files, path) is Some);
        }
    }
}

/// Anchor selection: when a snapshot for the path sits at `a` and every
/// version after it up to `v` stores a patch for the path, the backward scan
/// stops exactly at `a` — it never scans past the nearest snapshot.
pub proof fn lemma_anchor_is_nearest(vs: Seq<VersionModel>, v: int, path: Seq<u8>, a: int)
    requires
        0 <= a <= v < vs.len(),
        find_entry(vs[a].files, path) matches Some(e) && e.contents == Contents::Snapshot,
        forall|j: int| a < j <= v ==> ((#[trigger] find_entry(vs[j].files, path)) matches Some(e2)
            && e2.contents == Contents::Patch),
    ensures
        anchor_of(vs, v, path) == Some(a),
    decreases v - a,
{
    if v == a {
    } else {
        assert(find_entry(vs[v].files, path) matches Some(e2) && e2.contents == Contents::Patch);
        lemma_anchor_is_nearest(vs, v - 1, path, a);
        assert(anchor_of(vs, v, path) == anchor_of(vs, v - 1, path));
    }
}

proof fn lemma_anchor_local(vs1: Seq<VersionModel>, vs2: Seq<VersionModel>, j: int, path: Seq<u8>)
    requires
        j < vs1.len(),
        j < vs2.len(),
        forall|t: int| 0 <= t <= j ==> #[trigger] find_entry(vs1[t].files, path) == find_entry(
            vs2[t].files,
            path,
        ),
    ensures
        anchor_of(vs1, j, path) == anchor_of(vs2, j, path),
    decreases j + 1,
{
    if j < 0 {
    } else {
        match find_entry(vs1[j].files, path) {
            None => {},
            Some(e) => {
                if e.contents == Contents::Snapshot {
                } else {
                    lemma_anchor_local(vs1, vs2, j - 1, path);
                }
            },
        }
    }
}

proof fn lemma_chain_local(vs1: Seq<VersionModel>, vs2: Seq<VersionModel>, path: Seq<u8>, a: int, j: int)
    requires
        0 <= a <= j,
        j < vs1.len(),
        j < vs2.len(),
        forall|t: int| 0 <= t <= j ==> #[trigger] find_entry(vs1[t].files, path) == find_entry(
            vs2[t].files,
            path,
        ),
    ensures
        chain_val(vs1, path, a, j) == chain_val(vs2, path, a, j),
    decreases j - a,
{
    if j == a {
        assert(find_entry(vs1[a].files, path) == find_entry(vs2[a].files, path));
    } else {
        lemma_chain_local(vs1, vs2, path, a, j - 1);
    }
}

/// Locality: what materializing a version yields depends only on the path's
/// entries at that version and before it.  Entries of other paths, and
/// versions after the queried one, change nothing — in particular, querying a
/// version resolves against the nearest snapshot and never against anything
/// past it.
pub proof fn lemma_materialize_local(vs1: Seq<VersionModel>, vs2: Seq<VersionModel>, v: int, path: Seq<u8>)
    requires
        0 <= v,
        v < vs1.len(),
        v < vs2.len(),
        forall|t: int| 0 <= t <= v ==> #[trigger] find_entry(vs1[t].files, path) == find_entry(
            vs2[t].files,
            path,
        ),
    ensures
        materialize_model(vs1, v, path) == materialize_model(vs2, v, path),
{
    assert(find_entry(vs1[v].files, path) == find_entry(vs2[v].files, path));
    lemma_anchor_local(vs1, vs2, v, path);
    match anchor_of(vs1, v, path) {
        None => {},
        Some(a) => {
            if 0 <= a <= v {
                lemma_chain_local(vs1, vs2, path, a, v);
            } else {
                crate::reconstruct::lemma_anchor_properties(vs1, v, path);
            }
        },
    }
}

} // verus!
