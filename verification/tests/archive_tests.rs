use gud_archive::archive::Archive;
use gud_archive::errors::ArchiveError;
use gud_archive::records::{Contents, FileKind, Metadata, VersionDirectory, VersionNumber};
use gud_archive::textdiff::{apply_patch, diff_bytes};

fn meta(len: u64) -> Metadata {
    Metadata {
        len,
        kind: FileKind::File,
        read_only: false,
        modified: None,
        accessed: None,
        created: None,
    }
}

fn commit_snapshot(archive: Archive, number: u64, path: &[u8], content: &[u8]) -> Archive {
    let mut w = archive
        .appender(VersionNumber { number }, b"commit".to_vec())
        .unwrap();
    w.append_snapshot(path, content, meta(content.len() as u64))
        .unwrap();
    w.finish();
    Archive::new(w.into_data())
}

#[test]
fn round_trip_snapshot() {
    let archive = Archive::create();
    let archive = commit_snapshot(archive, 0, b"a.txt", b"hello\n");
    let rd = archive.reader().unwrap();
    assert_eq!(rd.materialize(0, b"a.txt"), Ok(b"hello\n".to_vec()));
}

#[test]
fn concrete_two_version_scenario() {
    let archive = Archive::create();
    let archive = commit_snapshot(archive, 0, b"a.txt", b"hello\n");

    let mut w = archive
        .appender(VersionNumber { number: 1 }, b"second".to_vec())
        .unwrap();
    let patch = diff_bytes(b"hello\n", b"hello world\n");
    w.append_patch(b"a.txt", &patch, meta(12)).unwrap();
    w.finish();
    let archive = Archive::new(w.into_data());

    let rd = archive.reader().unwrap();
    assert_eq!(rd.materialize(1, b"a.txt"), Ok(b"hello world\n".to_vec()));
    assert_eq!(rd.materialize(0, b"a.txt"), Ok(b"hello\n".to_vec()));
    // version 1 really stores a patch, not a second snapshot
    assert_eq!(rd.versions[1].files[0].header.contents, Contents::Patch);
    assert_eq!(rd.versions[0].files[0].header.contents, Contents::Snapshot);
}

#[test]
fn patch_chain_three_versions() {
    let contents: [&[u8]; 3] = [b"one\ntwo\n", b"one\nTWO\nthree\n", b"ONE\nTWO\nthree\n"];
    let mut archive = Archive::create();
    archive = commit_snapshot(archive, 0, b"f.txt", contents[0]);
    for i in 1..3 {
        let mut w = archive
            .appender(VersionNumber { number: i as u64 }, b"next".to_vec())
            .unwrap();
        let patch = diff_bytes(contents[i - 1], contents[i]);
        w.append_patch(b"f.txt", &patch, meta(contents[i].len() as u64))
            .unwrap();
        w.finish();
        archive = Archive::new(w.into_data());
    }
    let rd = archive.reader().unwrap();
    for i in 0..3 {
        assert_eq!(rd.materialize(i, b"f.txt"), Ok(contents[i].to_vec()));
    }
}

#[test]
fn anchor_resolves_at_nearest_snapshot() {
    // p.txt: snapshot at 0, patch at 1, fresh snapshot at 2, patches at 3 and
    // 4, absent at 5.  Queries at 2..4 must anchor at version 2, not at 0.
    let c = [
        b"zero\n".to_vec(),
        b"zero one\n".to_vec(),
        b"fresh\n".to_vec(),
        b"fresh three\n".to_vec(),
        b"fresh three four\n".to_vec(),
    ];
    let mut archive = Archive::create();
    archive = commit_snapshot(archive, 0, b"p.txt", &c[0]);

    let mut w = archive
        .appender(VersionNumber { number: 1 }, b"v1".to_vec())
        .unwrap();
    w.append_patch(b"p.txt", &diff_bytes(&c[0], &c[1]), meta(0))
        .unwrap();
    w.finish();
    archive = Archive::new(w.into_data());

    archive = commit_snapshot(archive, 2, b"p.txt", &c[2]);

    for i in 3..5 {
        let mut w = archive
            .appender(VersionNumber { number: i as u64 }, b"vn".to_vec())
            .unwrap();
        w.append_patch(b"p.txt", &diff_bytes(&c[i - 1], &c[i]), meta(0))
            .unwrap();
        w.finish();
        archive = Archive::new(w.into_data());
    }

    // version 5 exists but has no entry for p.txt
    archive = commit_snapshot(archive, 5, b"other.txt", b"unrelated\n");

    let rd = archive.reader().unwrap();
    assert_eq!(rd.materialize(2, b"p.txt"), Ok(c[2].clone()));
    assert_eq!(rd.materialize(3, b"p.txt"), Ok(c[3].clone()));
    assert_eq!(rd.materialize(4, b"p.txt"), Ok(c[4].clone()));
    assert_eq!(rd.materialize(1, b"p.txt"), Ok(c[1].clone()));
    // the queried version itself holds no entry for the path
    assert_eq!(rd.materialize(5, b"p.txt"), Err(ArchiveError::NotFound));
}

#[test]
fn absolute_path_rejected_and_transaction_unaffected() {
    let archive = Archive::create();
    let mut w = archive
        .appender(VersionNumber { number: 0 }, b"m".to_vec())
        .unwrap();
    assert_eq!(
        w.append_snapshot(b"/etc/abs.txt", b"nope\n", meta(5)),
        Err(ArchiveError::PathError)
    );
    assert_eq!(
        w.append_patch(b"/abs2", b"nope\n", meta(5)),
        Err(ArchiveError::PathError)
    );
    // the rejected calls left the in-progress state unchanged
    w.append_snapshot(b"ok.txt", b"fine\n", meta(5)).unwrap();
    w.finish();
    let archive = Archive::new(w.into_data());
    let rd = archive.reader().unwrap();
    assert_eq!(rd.version_count(), 1);
    assert_eq!(rd.materialize(0, b"ok.txt"), Ok(b"fine\n".to_vec()));
    assert_eq!(rd.versions[0].files.len(), 1);
}

#[test]
fn duplicate_path_rejected() {
    let archive = Archive::create();
    let mut w = archive
        .appender(VersionNumber { number: 0 }, b"m".to_vec())
        .unwrap();
    w.append_snapshot(b"a.txt", b"one\n", meta(4)).unwrap();
    assert_eq!(
        w.append_snapshot(b"a.txt", b"two\n", meta(4)),
        Err(ArchiveError::PathError)
    );
    w.finish();
    let archive = Archive::new(w.into_data());
    let rd = archive.reader().unwrap();
    assert_eq!(rd.materialize(0, b"a.txt"), Ok(b"one\n".to_vec()));
}

#[test]
fn crash_window_preserves_history() {
    let archive = Archive::create();
    let archive = commit_snapshot(archive, 0, b"a.txt", b"one\n");

    // a writer that fails after serializing the new version directory but
    // before overwriting the root pointer
    let mut w = archive
        .appender(VersionNumber { number: 1 }, b"doomed".to_vec())
        .unwrap();
    w.append_snapshot(b"a.txt", b"two\n", meta(4)).unwrap();
    let _dir_off = w.seal();
    let crashed_bytes = w.into_data();

    // reopening yields exactly the version set before the failed commit
    let rd = Archive::new(crashed_bytes).reader().unwrap();
    assert_eq!(rd.version_count(), 1);
    assert_eq!(rd.materialize(0, b"a.txt"), Ok(b"one\n".to_vec()));
    assert_eq!(
        rd.materialize(1, b"a.txt"),
        Err(ArchiveError::IndexOutOfRange)
    );
}

#[test]
fn out_of_range_query() {
    let mut archive = Archive::create();
    for i in 0..3 {
        archive = commit_snapshot(archive, i, b"a.txt", b"x\n");
    }
    let rd = archive.reader().unwrap();
    assert_eq!(rd.version_count(), 3);
    assert_eq!(
        rd.materialize(99, b"a.txt"),
        Err(ArchiveError::IndexOutOfRange)
    );
}

#[test]
fn not_found_for_unknown_path() {
    let archive = Archive::create();
    let archive = commit_snapshot(archive, 0, b"a.txt", b"x\n");
    let rd = archive.reader().unwrap();
    assert_eq!(rd.materialize(0, b"missing"), Err(ArchiveError::NotFound));
}

#[test]
fn reconstruction_error_on_bad_patch() {
    let archive = Archive::create();
    let archive = commit_snapshot(archive, 0, b"a.txt", b"aaa\n");
    let mut w = archive
        .appender(VersionNumber { number: 1 }, b"bad".to_vec())
        .unwrap();
    // a well-formed patch against entirely different content
    let misfit = diff_bytes(b"something else\nentirely\n", b"other\n");
    w.append_patch(b"a.txt", &misfit, meta(0)).unwrap();
    w.finish();
    let archive = Archive::new(w.into_data());
    let rd = archive.reader().unwrap();
    assert_eq!(
        rd.materialize(1, b"a.txt"),
        Err(ArchiveError::ReconstructionError)
    );
}

#[test]
fn format_error_on_garbage_bytes() {
    let archive = Archive::new(vec![1u8, 2, 3]);
    assert!(matches!(archive.reader(), Err(ArchiveError::FormatError)));
    assert!(matches!(
        archive.appender(VersionNumber { number: 0 }, Vec::new()),
        Err(ArchiveError::FormatError)
    ));
}

#[test]
fn empty_archive_has_no_versions() {
    let archive = Archive::create();
    let rd = archive.reader().unwrap();
    assert_eq!(rd.version_count(), 0);
    assert_eq!(
        rd.materialize(0, b"a.txt"),
        Err(ArchiveError::IndexOutOfRange)
    );
}

#[test]
fn raw_payload_returns_stored_bytes() {
    let archive = Archive::create();
    let archive = commit_snapshot(archive, 0, b"a.txt", b"hello\n");
    let mut w = archive
        .appender(VersionNumber { number: 1 }, b"p".to_vec())
        .unwrap();
    let patch = diff_bytes(b"hello\n", b"goodbye\n");
    w.append_patch(b"a.txt", &patch, meta(8)).unwrap();
    w.finish();
    let archive = Archive::new(w.into_data());
    let rd = archive.reader().unwrap();
    // a snapshot payload decompresses to the file content
    assert_eq!(rd.raw_payload(0, b"a.txt"), Ok(b"hello\n".to_vec()));
    // a patch payload decompresses to the serialized patch text
    assert_eq!(rd.raw_payload(1, b"a.txt"), Ok(patch.clone()));
    assert_eq!(rd.raw_payload(0, b"nope"), Err(ArchiveError::NotFound));
    assert_eq!(
        rd.raw_payload(7, b"a.txt"),
        Err(ArchiveError::IndexOutOfRange)
    );
}

#[test]
fn several_files_in_one_version() {
    let archive = Archive::create();
    let mut w = archive
        .appender(VersionNumber { number: 0 }, b"bulk".to_vec())
        .unwrap();
    w.append_snapshot(b"a.txt", b"AAA\n", meta(4)).unwrap();
    w.append_snapshot(b"b/c.txt", b"BBB\n", meta(4)).unwrap();
    w.append_snapshot(b"d.bin", &[0u8, 255, 7, 0, 1], meta(5))
        .unwrap();
    w.finish();
    let archive = Archive::new(w.into_data());
    let rd = archive.reader().unwrap();
    assert_eq!(rd.materialize(0, b"a.txt"), Ok(b"AAA\n".to_vec()));
    assert_eq!(rd.materialize(0, b"b/c.txt"), Ok(b"BBB\n".to_vec()));
    assert_eq!(rd.materialize(0, b"d.bin"), Ok(vec![0u8, 255, 7, 0, 1]));
}

#[test]
fn metadata_survives_the_round_trip() {
    let m = Metadata {
        len: 6,
        kind: FileKind::File,
        read_only: true,
        modified: Some(1_700_000_123),
        accessed: None,
        created: Some(42),
    };
    let archive = Archive::create();
    let mut w = archive
        .appender(VersionNumber { number: 7 }, b"meta".to_vec())
        .unwrap();
    w.append_snapshot(b"a.txt", b"hello\n", m).unwrap();
    w.finish();
    let archive = Archive::new(w.into_data());
    let rd = archive.reader().unwrap();
    let got = &rd.versions[0].files[0].header.meta;
    assert_eq!(got.len, 6);
    assert_eq!(got.kind, FileKind::File);
    assert!(got.read_only);
    assert_eq!(got.modified, Some(1_700_000_123));
    assert_eq!(got.accessed, None);
    assert_eq!(got.created, Some(42));
    assert_eq!(rd.versions[0].number, 7);
    assert_eq!(rd.versions[0].message, b"meta".to_vec());
}

#[test]
fn diff_and_apply_round_trip() {
    let old_text = b"alpha\nbeta\ngamma\n";
    let new_text = b"alpha\nBETA\ngamma\ndelta\n";
    let patch = diff_bytes(old_text, new_text);
    // the patch is a real diff, not the new text handed back unchanged
    assert_ne!(patch, new_text.to_vec());
    assert_eq!(apply_patch(old_text, &patch), Some(new_text.to_vec()));
    // applying a patch to a base it does not fit is an error, not silence
    let misfit = diff_bytes(b"old line\n", b"new line\n");
    assert_eq!(apply_patch(b"unrelated base\n", &misfit), None);
}

#[test]
fn version_directory_records_offsets() {
    let mut dir = VersionDirectory::new();
    assert_eq!(dir.directory.len(), 0);
    dir.add(8);
    dir.add(123);
    assert_eq!(dir.directory, vec![8, 123]);
}

#[test]
fn patch_chain_without_trailing_newline() {
    let contents: [&[u8]; 3] = [b"no newline at end", b"", b"back\nagain"];
    let mut archive = Archive::create();
    archive = commit_snapshot(archive, 0, b"f.txt", contents[0]);
    for i in 1..3 {
        let mut w = archive
            .appender(VersionNumber { number: i as u64 }, b"n".to_vec())
            .unwrap();
        let patch = diff_bytes(contents[i - 1], contents[i]);
        w.append_patch(b"f.txt", &patch, meta(contents[i].len() as u64))
            .unwrap();
        w.finish();
        archive = Archive::new(w.into_data());
    }
    let rd = archive.reader().unwrap();
    for i in 0..3 {
        assert_eq!(rd.materialize(i, b"f.txt"), Ok(contents[i].to_vec()));
    }
}

#[test]
fn empty_content_round_trip() {
    let archive = Archive::create();
    let archive = commit_snapshot(archive, 0, b"empty.txt", b"");
    let rd = archive.reader().unwrap();
    assert_eq!(rd.materialize(0, b"empty.txt"), Ok(Vec::new()));
}

#[test]
fn fresh_archive_byte_layout() {
    // root pointer 8 as eight little-endian bytes, then a directory with a
    // zero entry count
    let archive = Archive::create();
    assert_eq!(
        archive.data,
        vec![8u8, 0, 0, 0, 0, 0, 0, 0, 0, 0, 0, 0, 0, 0, 0, 0]
    );
}

#[test]
fn trailing_garbage_is_ignored() {
    // bytes past the reachable records never change the parsed history
    let archive = Archive::create();
    let archive = commit_snapshot(archive, 0, b"a.txt", b"keep\n");
    let mut bytes = archive.data;
    bytes.extend_from_slice(b"unreachable tail bytes from an interrupted writer");
    let rd = Archive::new(bytes).reader().unwrap();
    assert_eq!(rd.version_count(), 1);
    assert_eq!(rd.materialize(0, b"a.txt"), Ok(b"keep\n".to_vec()));
}

#[test]
fn truncated_archive_is_rejected() {
    let archive = Archive::create();
    let archive = commit_snapshot(archive, 0, b"a.txt", b"x\n");
    let mut bytes = archive.data;
    bytes.truncate(bytes.len() - 3);
    assert!(matches!(
        Archive::new(bytes).reader(),
        Err(ArchiveError::FormatError)
    ));
}

#[test]
fn writer_can_commit_again_after_finish() {
    let archive = Archive::create();
    let mut w = archive
        .appender(VersionNumber { number: 0 }, b"twice".to_vec())
        .unwrap();
    w.append_snapshot(b"a.txt", b"first\n", meta(6)).unwrap();
    w.finish();
    w.append_snapshot(b"a.txt", b"second\n", meta(7)).unwrap();
    w.finish();
    let rd = Archive::new(w.into_data()).reader().unwrap();
    assert_eq!(rd.version_count(), 2);
    assert_eq!(rd.materialize(0, b"a.txt"), Ok(b"first\n".to_vec()));
    assert_eq!(rd.materialize(1, b"a.txt"), Ok(b"second\n".to_vec()));
}
