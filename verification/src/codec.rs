//! Binary layout of the archive's records, as pure functions on byte
//! sequences: encoders, decoders, and the lemmas that connect them.
//!
//! Every integer is stored as eight little-endian bytes; a byte string is
//! stored as its length followed by its bytes.  A decoder takes the whole
//! archive and a position and yields the decoded value and the position just
//! past it, or `None` on a truncated or malformed record.

use vstd::prelude::*;
use vstd::bytes::*;
use crate::records::{Contents, FileKind, Metadata, FileHeaderModel, FileHeader};

verus! {

// ---------------------------------------------------------------------------
// Spec encoders
// ---------------------------------------------------------------------------

pub open spec fn enc_u64(x: u64) -> Seq<u8> {
    spec_u64_to_le_bytes(x)
}

pub open spec fn enc_bytes(b: Seq<u8>) -> Seq<u8> {
    enc_u64(b.len() as u64) + b
}

pub open spec fn contents_byte(c: Contents) -> u8 {
    match c {
        Contents::Snapshot => 0u8,
        Contents::Patch => 1u8,
    }
}

pub open spec fn kind_byte(k: FileKind) -> u8 {
    match k {
        FileKind::File => 0u8,
        FileKind::Directory => 1u8,
        FileKind::SystemLink => 2u8,
    }
}

pub open spec fn bool_byte(b: bool) -> u8 {
    if b {
        1u8
    } else {
        0u8
    }
}

pub open spec fn enc_opt_u64(o: Option<u64>) -> Seq<u8> {
    match o {
        Option::None => seq![0u8] + enc_u64(0),
        Option::Some(v) => seq![1u8] + enc_u64(v),
    }
}

pub open spec fn enc_meta(m: Metadata) -> Seq<u8> {
    enc_u64(m.len) + seq![kind_byte(m.kind), bool_byte(m.read_only)] + enc_opt_u64(m.modified)
        + enc_opt_u64(m.accessed) + enc_opt_u64(m.created)
}

pub open spec fn enc_file_header(h: FileHeaderModel) -> Seq<u8> {
    enc_u64(h.compressed_size) + seq![contents_byte(h.contents)] + enc_meta(h.meta)
        + enc_bytes(h.path)
}

/// The path-to-offset table of a version header, entry after entry.
pub open spec fn enc_pairs(ps: Seq<(Seq<u8>, u64)>) -> Seq<u8>
    decreases ps.len(),
{
    if ps.len() == 0 {
        Seq::<u8>::empty()
    } else {
        enc_pairs(ps.drop_last()) + enc_bytes(ps.last().0) + enc_u64(ps.last().1)
    }
}

pub open spec fn enc_version_header(number: u64, message: Seq<u8>, ps: Seq<(Seq<u8>, u64)>) -> Seq<u8> {
    enc_u64(number) + enc_bytes(message) + enc_u64(ps.len() as u64) + enc_pairs(ps)
}

pub open spec fn enc_u64_list(l: Seq<u64>) -> Seq<u8>
    decreases l.len(),
{
    if l.len() == 0 {
        Seq::<u8>::empty()
    } else {
        enc_u64_list(l.drop_last()) + enc_u64(l.last())
    }
}

pub open spec fn enc_dir(offs: Seq<u64>) -> Seq<u8> {
    enc_u64(offs.len() as u64) + enc_u64_list(offs)
}

// ---------------------------------------------------------------------------
// Spec decoders
// ---------------------------------------------------------------------------

pub open spec fn dec_u8(s: Seq<u8>, p: int) -> Option<(u8, int)> {
    if 0 <= p && p + 1 <= s.len() {
        Some((s[p], p + 1))
    } else {
        None
    }
}

pub open spec fn dec_u64(s: Seq<u8>, p: int) -> Option<(u64, int)> {
    if 0 <= p && p + 8 <= s.len() {
        Some((spec_u64_from_le_bytes(s.subrange(p, p + 8)), p + 8))
    } else {
        None
    }
}

pub open spec fn dec_bytes(s: Seq<u8>, p: int) -> Option<(Seq<u8>, int)> {
    match dec_u64(s, p) {
        None => None,
        Some((n, q)) => if q + n <= s.len() {
            Some((s.subrange(q, q + n), q + n))
        } else {
            None
        },
    }
}

pub open spec fn dec_contents(s: Seq<u8>, p: int) -> Option<(Contents, int)> {
    match dec_u8(s, p) {
        None => None,
        Some((b, q)) => if b == 0 {
            Some((Contents::Snapshot, q))
        } else if b == 1 {
            Some((Contents::Patch, q))
        } else {
            None
        },
    }
}

pub open spec fn dec_kind(s: Seq<u8>, p: int) -> Option<(FileKind, int)> {
    match dec_u8(s, p) {
        None => None,
        Some((b, q)) => if b == 0 {
            Some((FileKind::File, q))
        } else if b == 1 {
            Some((FileKind::Directory, q))
        } else if b == 2 {
            Some((FileKind::SystemLink, q))
        } else {
            None
        },
    }
}

pub open spec fn dec_bool(s: Seq<u8>, p: int) -> Option<(bool, int)> {
    match dec_u8(s, p) {
        None => None,
        Some((b, q)) => if b == 0 {
            Some((false, q))
        } else if b == 1 {
            Some((true, q))
        } else {
            None
        },
    }
}

pub open spec fn dec_opt_u64(s: Seq<u8>, p: int) -> Option<(Option<u64>, int)> {
    match dec_u8(s, p) {
        None => None,
        Some((f, q)) => match dec_u64(s, q) {
            None => None,
            Some((v, q2)) => if f == 0 {
                Some((Option::None, q2))
            } else if f == 1 {
                Some((Option::Some(v), q2))
            } else {
                None
            },
        },
    }
}

pub open spec fn dec_meta(s: Seq<u8>, p: int) -> Option<(Metadata, int)> {
    match dec_u64(s, p) {
        None => None,
        Some((len, q1)) => match dec_kind(s, q1) {
            None => None,
            Some((kind, q2)) => match dec_bool(s, q2) {
                None => None,
                Some((ro, q3)) => match dec_opt_u64(s, q3) {
                    None => None,
                    Some((modified, q4)) => match dec_opt_u64(s, q4) {
                        None => None,
                        Some((accessed, q5)) => match dec_opt_u64(s, q5) {
                            None => None,
                            Some((created, q6)) => Some(
                                (Metadata { len, kind, read_only: ro, modified, accessed, created }, q6),
                            ),
                        },
                    },
                },
            },
        },
    }
}

pub open spec fn dec_file_header(s: Seq<u8>, p: int) -> Option<(FileHeaderModel, int)> {
    match dec_u64(s, p) {
        None => None,
        Some((size, q1)) => match dec_contents(s, q1) {
            None => None,
            Some((contents, q2)) => match dec_meta(s, q2) {
                None => None,
                Some((meta, q3)) => match dec_bytes(s, q3) {
                    None => None,
                    Some((path, q4)) => Some(
                        (FileHeaderModel { compressed_size: size, contents, meta, path }, q4),
                    ),
                },
            },
        },
    }
}

pub open spec fn dec_pairs(s: Seq<u8>, p: int, n: u64) -> Option<(Seq<(Seq<u8>, u64)>, int)>
    decreases n,
{
    if n == 0 {
        Some((Seq::<(Seq<u8>, u64)>::empty(), p))
    } else {
        match dec_bytes(s, p) {
            None => None,
            Some((path, q1)) => match dec_u64(s, q1) {
                None => None,
                Some((off, q2)) => match dec_pairs(s, q2, (n - 1) as u64) {
                    None => None,
                    Some((rest, q3)) => Some((seq![(path, off)] + rest, q3)),
                },
            },
        }
    }
}

pub open spec fn dec_version_header(s: Seq<u8>, p: int) -> Option<((u64, Seq<u8>, Seq<(Seq<u8>, u64)>), int)> {
    match dec_u64(s, p) {
        None => None,
        Some((number, q1)) => match dec_bytes(s, q1) {
            None => None,
            Some((message, q2)) => match dec_u64(s, q2) {
                None => None,
                Some((count, q3)) => match dec_pairs(s, q3, count) {
                    None => None,
                    Some((ps, q4)) => Some(((number, message, ps), q4)),
                },
            },
        },
    }
}

pub open spec fn dec_u64_list(s: Seq<u8>, p: int, n: u64) -> Option<(Seq<u64>, int)>
    decreases n,
{
    if n == 0 {
        Some((Seq::<u64>::empty(), p))
    } else {
        match dec_u64(s, p) {
            None => None,
            Some((x, q1)) => match dec_u64_list(s, q1, (n - 1) as u64) {
                None => None,
                Some((rest, q2)) => Some((seq![x] + rest, q2)),
            },
        }
    }
}

pub open spec fn dec_dir(s: Seq<u8>, p: int) -> Option<(Seq<u64>, int)> {
    match dec_u64(s, p) {
        None => None,
        Some((count, q)) => match dec_u64_list(s, q, count) {
            None => None,
            Some((offs, q2)) => Some((offs, q2)),
        },
    }
}

// ---------------------------------------------------------------------------
// Window reasoning
// ---------------------------------------------------------------------------

/// A part of a window equals the corresponding part of its image.
pub proof fn lemma_window(s: Seq<u8>, p: int, w: Seq<u8>, a: int, b: int)
    requires
        0 <= p,
        p + w.len() <= s.len(),
        s.subrange(p, p + w.len() as int) == w,
        0 <= a <= b <= w.len(),
    ensures
        s.subrange(p + a, p + b) == w.subrange(a, b),
{
    assert forall|k: int| 0 <= k < b - a implies s.subrange(p + a, p + b)[k] == w.subrange(a, b)[k] by {
        assert(s.subrange(p, p + w.len() as int)[a + k] == w[a + k]);
    }
    assert(s.subrange(p + a, p + b) =~= w.subrange(a, b));
}

/// A single byte of a window equals the corresponding byte of its image.
pub proof fn lemma_window_byte(s: Seq<u8>, p: int, w: Seq<u8>, a: int)
    requires
        0 <= p,
        p + w.len() <= s.len(),
        s.subrange(p, p + w.len() as int) == w,
        0 <= a < w.len(),
    ensures
        s[p + a] == w[a],
{
    assert(s.subrange(p, p + w.len() as int)[a] == w[a]);
}

/// The front unrolling of the table encoder.
pub proof fn lemma_enc_pairs_front(ps: Seq<(Seq<u8>, u64)>)
    requires
        ps.len() > 0,
    ensures
        enc_pairs(ps) == enc_bytes(ps[0].0) + enc_u64(ps[0].1) + enc_pairs(ps.skip(1)),
    decreases ps.len(),
{
    if ps.len() == 1 {
        assert(ps.drop_last() =~= Seq::<(Seq<u8>, u64)>::empty());
        assert(ps.skip(1) =~= Seq::<(Seq<u8>, u64)>::empty());
        assert(enc_pairs(ps) =~= enc_bytes(ps[0].0) + enc_u64(ps[0].1) + enc_pairs(ps.skip(1)));
    } else {
        let d = ps.drop_last();
        lemma_enc_pairs_front(d);
        assert(ps.skip(1).drop_last() =~= d.skip(1));
        assert(ps.skip(1).last() == ps.last());
        assert(ps.skip(1).len() > 0);
        assert(enc_pairs(ps.skip(1)) == enc_pairs(ps.skip(1).drop_last()) + enc_bytes(
            ps.skip(1).last().0,
        ) + enc_u64(ps.skip(1).last().1));
        assert(d[0] == ps[0]);
        assert(enc_pairs(ps) =~= enc_bytes(ps[0].0) + enc_u64(ps[0].1) + enc_pairs(ps.skip(1)));
    }
}

/// The front unrolling of the offset-list encoder.
pub proof fn lemma_enc_u64_list_front(l: Seq<u64>)
    requires
        l.len() > 0,
    ensures
        enc_u64_list(l) == enc_u64(l[0]) + enc_u64_list(l.skip(1)),
    decreases l.len(),
{
    if l.len() == 1 {
        assert(l.drop_last() =~= Seq::<u64>::empty());
        assert(l.skip(1) =~= Seq::<u64>::empty());
        assert(enc_u64_list(l) =~= enc_u64(l[0]) + enc_u64_list(l.skip(1)));
    } else {
        let d = l.drop_last();
        lemma_enc_u64_list_front(d);
        assert(l.skip(1).drop_last() =~= d.skip(1));
        assert(l.skip(1).last() == l.last());
        assert(l.skip(1).len() > 0);
        assert(enc_u64_list(l.skip(1)) == enc_u64_list(l.skip(1).drop_last()) + enc_u64(
            l.skip(1).last(),
        ));
        assert(d[0] == l[0]);
        assert(enc_u64_list(l) =~= enc_u64(l[0]) + enc_u64_list(l.skip(1)));
    }
}

// ---------------------------------------------------------------------------
// Decoding an encoded record found at an offset
// ---------------------------------------------------------------------------

pub proof fn lemma_dec_u64_at(s: Seq<u8>, p: int, x: u64)
    requires
        0 <= p,
        p + 8 <= s.len(),
        s.subrange(p, p + 8) == enc_u64(x),
    ensures
        dec_u64(s, p) == Some((x, p + 8)),
{
    lemma_auto_spec_u64_to_from_le_bytes();
}

pub proof fn lemma_dec_bytes_at(s: Seq<u8>, p: int, b: Seq<u8>)
    requires
        0 <= p,
        b.len() <= u64::MAX,
        p + enc_bytes(b).len() <= s.len(),
        s.subrange(p, p + enc_bytes(b).len() as int) == enc_bytes(b),
    ensures
        dec_bytes(s, p) == Some((b, p + 8 + b.len())),
{
    lemma_auto_spec_u64_to_from_le_bytes();
    let w = enc_bytes(b);
    assert(w.len() == 8 + b.len());
    lemma_window(s, p, w, 0, 8);
    assert(w.subrange(0, 8) =~= enc_u64(b.len() as u64));
    lemma_dec_u64_at(s, p, b.len() as u64);
    lemma_window(s, p, w, 8, 8 + b.len() as int);
    assert(w.subrange(8, 8 + b.len() as int) =~= b);
}

pub proof fn lemma_dec_opt_u64_at(s: Seq<u8>, p: int, o: Option<u64>)
    requires
        0 <= p,
        p + 9 <= s.len(),
        s.subrange(p, p + 9) == enc_opt_u64(o),
    ensures
        dec_opt_u64(s, p) == Some((o, p + 9)),
{
    lemma_auto_spec_u64_to_from_le_bytes();
    let w = enc_opt_u64(o);
    assert(w.len() == 9);
    lemma_window_byte(s, p, w, 0);
    lemma_window(s, p, w, 1, 9);
    match o {
        Option::None => {
            assert(w[0] == 0u8);
            assert(w.subrange(1, 9) =~= enc_u64(0));
            lemma_dec_u64_at(s, p + 1, 0);
        },
        Option::Some(v) => {
            assert(w[0] == 1u8);
            assert(w.subrange(1, 9) =~= enc_u64(v));
            lemma_dec_u64_at(s, p + 1, v);
        },
    }
}

pub proof fn lemma_dec_meta_at(s: Seq<u8>, p: int, m: Metadata)
    requires
        0 <= p,
        p + 37 <= s.len(),
        enc_meta(m).len() == 37,
        s.subrange(p, p + 37) == enc_meta(m),
    ensures
        dec_meta(s, p) == Some((m, p + 37)),
{
    lemma_auto_spec_u64_to_from_le_bytes();
    let w = enc_meta(m);
    lemma_window(s, p, w, 0, 8);
    assert(w.subrange(0, 8) =~= enc_u64(m.len));
    lemma_dec_u64_at(s, p, m.len);
    lemma_window_byte(s, p, w, 8);
    assert(w[8] == kind_byte(m.kind));
    lemma_window_byte(s, p, w, 9);
    assert(w[9] == bool_byte(m.read_only));
    lemma_window(s, p, w, 10, 19);
    assert(w.subrange(10, 19) =~= enc_opt_u64(m.modified));
    lemma_dec_opt_u64_at(s, p + 10, m.modified);
    lemma_window(s, p, w, 19, 28);
    assert(w.subrange(19, 28) =~= enc_opt_u64(m.accessed));
    lemma_dec_opt_u64_at(s, p + 19, m.accessed);
    lemma_window(s, p, w, 28, 37);
    assert(w.subrange(28, 37) =~= enc_opt_u64(m.created));
    lemma_dec_opt_u64_at(s, p + 28, m.created);
}

/// The fixed sizes of the metadata block and of a file header.
pub proof fn lemma_enc_meta_len(m: Metadata)
    ensures
        enc_meta(m).len() == 37,
        enc_opt_u64(m.modified).len() == 9,
{
    lemma_auto_spec_u64_to_from_le_bytes();
}

pub proof fn lemma_enc_file_header_len(h: FileHeaderModel)
    ensures
        enc_file_header(h).len() == 54 + h.path.len(),
{
    lemma_auto_spec_u64_to_from_le_bytes();
    lemma_enc_meta_len(h.meta);
}

pub proof fn lemma_dec_file_header_at(s: Seq<u8>, p: int, h: FileHeaderModel)
    requires
        0 <= p,
        h.path.len() <= u64::MAX,
        p + enc_file_header(h).len() <= s.len(),
        s.subrange(p, p + enc_file_header(h).len() as int) == enc_file_header(h),
    ensures
        dec_file_header(s, p) == Some((h, p + 54 + h.path.len())),
{
    lemma_auto_spec_u64_to_from_le_bytes();
    lemma_enc_meta_len(h.meta);
    lemma_enc_file_header_len(h);
    let w = enc_file_header(h);
    lemma_window(s, p, w, 0, 8);
    assert(w.subrange(0, 8) =~= enc_u64(h.compressed_size));
    lemma_dec_u64_at(s, p, h.compressed_size);
    lemma_window_byte(s, p, w, 8);
    assert(w[8] == contents_byte(h.contents));
    lemma_window(s, p, w, 9, 46);
    assert(w.subrange(9, 46) =~= enc_meta(h.meta));
    lemma_dec_meta_at(s, p + 9, h.meta);
    lemma_window(s, p, w, 46, w.len() as int);
    assert(w.subrange(46, w.len() as int) =~= enc_bytes(h.path));
    lemma_dec_bytes_at(s, p + 46, h.path);
    match h.contents {
        Contents::Snapshot => {},
        Contents::Patch => {},
    }
}

pub proof fn lemma_dec_pairs_at(s: Seq<u8>, p: int, ps: Seq<(Seq<u8>, u64)>)
    requires
        0 <= p,
        ps.len() <= u64::MAX,
        forall|i: int| 0 <= i < ps.len() ==> #[trigger] ps[i].0.len() <= u64::MAX,
        p + enc_pairs(ps).len() <= s.len(),
        s.subrange(p, p + enc_pairs(ps).len() as int) == enc_pairs(ps),
    ensures
        dec_pairs(s, p, ps.len() as u64) == Some((ps, p + enc_pairs(ps).len())),
    decreases ps.len(),
{
    lemma_auto_spec_u64_to_from_le_bytes();
    if ps.len() == 0 {
        assert(enc_pairs(ps).len() == 0);
        assert(dec_pairs(s, p, 0) == Some((Seq::<(Seq<u8>, u64)>::empty(), p)));
        assert(ps =~= Seq::<(Seq<u8>, u64)>::empty());
    } else {
        lemma_enc_pairs_front(ps);
        let w = enc_pairs(ps);
        let head_len = enc_bytes(ps[0].0).len() + 8;
        assert(w.len() == head_len + enc_pairs(ps.skip(1)).len());
        lemma_window(s, p, w, 0, enc_bytes(ps[0].0).len() as int);
        assert(w.subrange(0, enc_bytes(ps[0].0).len() as int) =~= enc_bytes(ps[0].0));
        lemma_dec_bytes_at(s, p, ps[0].0);
        let q1 = p + enc_bytes(ps[0].0).len();
        lemma_window(s, p, w, enc_bytes(ps[0].0).len() as int, head_len as int);
        assert(w.subrange(enc_bytes(ps[0].0).len() as int, head_len as int) =~= enc_u64(ps[0].1));
        lemma_dec_u64_at(s, q1, ps[0].1);
        let q2 = q1 + 8;
        lemma_window(s, p, w, head_len as int, w.len() as int);
        assert(w.subrange(head_len as int, w.len() as int) =~= enc_pairs(ps.skip(1)));
        assert(forall|i: int| 0 <= i < ps.skip(1).len() ==> #[trigger] ps.skip(1)[i].0.len()
            <= u64::MAX);
        lemma_dec_pairs_at(s, q2, ps.skip(1));
        assert(ps.skip(1).len() as u64 == (ps.len() as u64 - 1) as u64);
        assert(seq![(ps[0].0, ps[0].1)] + ps.skip(1) =~= ps);
    }
}

pub proof fn lemma_dec_version_header_at(s: Seq<u8>, p: int, number: u64, message: Seq<u8>, ps: Seq<(Seq<u8>, u64)>)
    requires
        0 <= p,
        message.len() <= u64::MAX,
        ps.len() <= u64::MAX,
        forall|i: int| 0 <= i < ps.len() ==> #[trigger] ps[i].0.len() <= u64::MAX,
        p + enc_version_header(number, message, ps).len() <= s.len(),
        s.subrange(p, p + enc_version_header(number, message, ps).len() as int)
            == enc_version_header(number, message, ps),
    ensures
        dec_version_header(s, p) == Some(
            ((number, message, ps), p + enc_version_header(number, message, ps).len()),
        ),
{
    lemma_auto_spec_u64_to_from_le_bytes();
    let w = enc_version_header(number, message, ps);
    let mlen = enc_bytes(message).len();
    assert(w.len() == 8 + mlen + 8 + enc_pairs(ps).len());
    lemma_window(s, p, w, 0, 8);
    assert(w.subrange(0, 8) =~= enc_u64(number));
    lemma_dec_u64_at(s, p, number);
    lemma_window(s, p, w, 8, 8 + mlen as int);
    assert(w.subrange(8, 8 + mlen as int) =~= enc_bytes(message));
    lemma_dec_bytes_at(s, p + 8, message);
    let q2 = p + 8 + mlen;
    lemma_window(s, p, w, 8 + mlen as int, 16 + mlen as int);
    assert(w.subrange(8 + mlen as int, 16 + mlen as int) =~= enc_u64(ps.len() as u64));
    lemma_dec_u64_at(s, q2, ps.len() as u64);
    let q3 = q2 + 8;
    lemma_window(s, p, w, 16 + mlen as int, w.len() as int);
    assert(w.subrange(16 + mlen as int, w.len() as int) =~= enc_pairs(ps));
    lemma_dec_pairs_at(s, q3, ps);
}

pub proof fn lemma_dec_u64_list_at(s: Seq<u8>, p: int, l: Seq<u64>)
    requires
        0 <= p,
        l.len() <= u64::MAX,
        p + enc_u64_list(l).len() <= s.len(),
        s.subrange(p, p + enc_u64_list(l).len() as int) == enc_u64_list(l),
    ensures
        dec_u64_list(s, p, l.len() as u64) == Some((l, p + enc_u64_list(l).len())),
    decreases l.len(),
{
    lemma_auto_spec_u64_to_from_le_bytes();
    if l.len() == 0 {
        assert(l =~= Seq::<u64>::empty());
    } else {
        lemma_enc_u64_list_front(l);
        let w = enc_u64_list(l);
        assert(w.len() == 8 + enc_u64_list(l.skip(1)).len());
        lemma_window(s, p, w, 0, 8);
        assert(w.subrange(0, 8) =~= enc_u64(l[0]));
        lemma_dec_u64_at(s, p, l[0]);
        lemma_window(s, p, w, 8, w.len() as int);
        assert(w.subrange(8, w.len() as int) =~= enc_u64_list(l.skip(1)));
        lemma_dec_u64_list_at(s, p + 8, l.skip(1));
        assert(l.skip(1).len() as u64 == (l.len() as u64 - 1) as u64);
        assert(seq![l[0]] + l.skip(1) =~= l);
    }
}

pub proof fn lemma_dec_dir_at(s: Seq<u8>, p: int, offs: Seq<u64>)
    requires
        0 <= p,
        offs.len() <= u64::MAX,
        p + enc_dir(offs).len() <= s.len(),
        s.subrange(p, p + enc_dir(offs).len() as int) == enc_dir(offs),
    ensures
        dec_dir(s, p) == Some((offs, p + enc_dir(offs).len())),
{
    lemma_auto_spec_u64_to_from_le_bytes();
    let w = enc_dir(offs);
    lemma_window(s, p, w, 0, 8);
    assert(w.subrange(0, 8) =~= enc_u64(offs.len() as u64));
    lemma_dec_u64_at(s, p, offs.len() as u64);
    lemma_window(s, p, w, 8, w.len() as int);
    assert(w.subrange(8, w.len() as int) =~= enc_u64_list(offs));
    lemma_dec_u64_list_at(s, p + 8, offs);
}

// ---------------------------------------------------------------------------
// Stability: a decoder never reads the root pointer region or past the end of
// the bytes it succeeded on, so rewriting the root pointer or appending bytes
// never changes what it yields.
// ---------------------------------------------------------------------------

/// The two byte strings agree everywhere past the root pointer region of the
/// shorter (the longer may extend it).
pub open spec fn agrees_past_root(s1: Seq<u8>, s2: Seq<u8>) -> bool {
    s1.len() <= s2.len() && forall|i: int| 8 <= i < s1.len() ==> s1[i] == s2[i]
}

pub proof fn lemma_dec_u64_stable(s1: Seq<u8>, s2: Seq<u8>, p: int)
    requires
        dec_u64(s1, p) is Some,
        p >= 8,
        agrees_past_root(s1, s2),
    ensures
        dec_u64(s2, p) == dec_u64(s1, p),
{
    assert(s2.subrange(p, p + 8) =~= s1.subrange(p, p + 8));
}

pub proof fn lemma_dec_bytes_stable(s1: Seq<u8>, s2: Seq<u8>, p: int)
    requires
        dec_bytes(s1, p) is Some,
        p >= 8,
        agrees_past_root(s1, s2),
    ensures
        dec_bytes(s2, p) == dec_bytes(s1, p),
{
    lemma_dec_u64_stable(s1, s2, p);
    let (n, q) = dec_u64(s1, p).unwrap();
    assert(s2.subrange(q, q + n) =~= s1.subrange(q, q + n));
}

pub proof fn lemma_dec_opt_u64_stable(s1: Seq<u8>, s2: Seq<u8>, p: int)
    requires
        dec_opt_u64(s1, p) is Some,
        p >= 8,
        agrees_past_root(s1, s2),
    ensures
        dec_opt_u64(s2, p) == dec_opt_u64(s1, p),
{
    lemma_dec_u64_stable(s1, s2, p + 1);
}

pub proof fn lemma_dec_meta_stable(s1: Seq<u8>, s2: Seq<u8>, p: int)
    requires
        dec_meta(s1, p) is Some,
        p >= 8,
        agrees_past_root(s1, s2),
    ensures
        dec_meta(s2, p) == dec_meta(s1, p),
{
    lemma_dec_u64_stable(s1, s2, p);
    lemma_dec_opt_u64_stable(s1, s2, p + 10);
    lemma_dec_opt_u64_stable(s1, s2, p + 19);
    lemma_dec_opt_u64_stable(s1, s2, p + 28);
}

pub proof fn lemma_dec_file_header_stable(s1: Seq<u8>, s2: Seq<u8>, p: int)
    requires
        dec_file_header(s1, p) is Some,
        p >= 8,
        agrees_past_root(s1, s2),
    ensures
        dec_file_header(s2, p) == dec_file_header(s1, p),
{
    lemma_dec_u64_stable(s1, s2, p);
    lemma_dec_meta_stable(s1, s2, p + 9);
    lemma_dec_bytes_stable(s1, s2, p + 46);
}

pub proof fn lemma_dec_pairs_stable(s1: Seq<u8>, s2: Seq<u8>, p: int, n: u64)
    requires
        dec_pairs(s1, p, n) is Some,
        p >= 8,
        agrees_past_root(s1, s2),
    ensures
        dec_pairs(s2, p, n) == dec_pairs(s1, p, n),
    decreases n,
{
    if n == 0 {
    } else {
        lemma_dec_bytes_stable(s1, s2, p);
        let (path, q1) = dec_bytes(s1, p).unwrap();
        lemma_dec_u64_stable(s1, s2, q1);
        let (off, q2) = dec_u64(s1, q1).unwrap();
        lemma_dec_pairs_stable(s1, s2, q2, (n - 1) as u64);
    }
}

pub proof fn lemma_dec_version_header_stable(s1: Seq<u8>, s2: Seq<u8>, p: int)
    requires
        dec_version_header(s1, p) is Some,
        p >= 8,
        agrees_past_root(s1, s2),
    ensures
        dec_version_header(s2, p) == dec_version_header(s1, p),
{
    lemma_dec_u64_stable(s1, s2, p);
    lemma_dec_bytes_stable(s1, s2, p + 8);
    let (message, q2) = dec_bytes(s1, p + 8).unwrap();
    lemma_dec_u64_stable(s1, s2, q2);
    let (count, q3) = dec_u64(s1, q2).unwrap();
    lemma_dec_pairs_stable(s1, s2, q3, count);
}

pub proof fn lemma_dec_u64_list_stable(s1: Seq<u8>, s2: Seq<u8>, p: int, n: u64)
    requires
        dec_u64_list(s1, p, n) is Some,
        p >= 8,
        agrees_past_root(s1, s2),
    ensures
        dec_u64_list(s2, p, n) == dec_u64_list(s1, p, n),
    decreases n,
{
    if n == 0 {
    } else {
        lemma_dec_u64_stable(s1, s2, p);
        let (x, q1) = dec_u64(s1, p).unwrap();
        lemma_dec_u64_list_stable(s1, s2, q1, (n - 1) as u64);
    }
}

pub proof fn lemma_dec_dir_stable(s1: Seq<u8>, s2: Seq<u8>, p: int)
    requires
        dec_dir(s1, p) is Some,
        p >= 8,
        agrees_past_root(s1, s2),
    ensures
        dec_dir(s2, p) == dec_dir(s1, p),
{
    lemma_dec_u64_stable(s1, s2, p);
    let (count, q) = dec_u64(s1, p).unwrap();
    lemma_dec_u64_list_stable(s1, s2, q, count);
}

// ---------------------------------------------------------------------------
// Executable decoders
// ---------------------------------------------------------------------------

/// The mathematical image of an in-memory path-to-offset table.
pub open spec fn pairs_view(v: Seq<(Vec<u8>, u64)>) -> Seq<(Seq<u8>, u64)> {
    v.map_values(|pr: (Vec<u8>, u64)| (pr.0@, pr.1))
}

pub fn rd_u64(s: &[u8], p: usize) -> (r: Option<(u64, usize)>)
    ensures
        match r {
            Some(pr) => dec_u64(s@, p as int) == Some((pr.0, pr.1 as int)),
            None => dec_u64(s@, p as int) is None,
        },
{
    if s.len() >= 8 && p <= s.len() - 8 {
        let w = vstd::slice::slice_subrange(s, p, p + 8);
        let x = u64_from_le_bytes(w);
        Some((x, p + 8))
    } else {
        None
    }
}

pub fn rd_u8(s: &[u8], p: usize) -> (r: Option<(u8, usize)>)
    ensures
        match r {
            Some(pr) => dec_u8(s@, p as int) == Some((pr.0, pr.1 as int)),
            None => dec_u8(s@, p as int) is None,
        },
{
    if p < s.len() {
        let b = *vstd::slice::slice_index_get(s, p);
        Some((b, p + 1))
    } else {
        None
    }
}

pub fn rd_bytes(s: &[u8], p: usize) -> (r: Option<(Vec<u8>, usize)>)
    ensures
        match r {
            Some(pr) => dec_bytes(s@, p as int) == Some((pr.0@, pr.1 as int)),
            None => dec_bytes(s@, p as int) is None,
        },
{
    match rd_u64(s, p) {
        None => None,
        Some((n, q)) => {
            if n <= (s.len() - q) as u64 {
                let nn = n as usize;
                let w = vstd::slice::slice_subrange(s, q, q + nn);
                Some((vstd::slice::slice_to_vec(w), q + nn))
            } else {
                None
            }
        },
    }
}

pub fn rd_contents(s: &[u8], p: usize) -> (r: Option<(Contents, usize)>)
    ensures
        match r {
            Some(pr) => dec_contents(s@, p as int) == Some((pr.0, pr.1 as int)),
            None => dec_contents(s@, p as int) is None,
        },
{
    match rd_u8(s, p) {
        None => None,
        Some((b, q)) => {
            if b == 0 {
                Some((Contents::Snapshot, q))
            } else if b == 1 {
                Some((Contents::Patch, q))
            } else {
                None
            }
        },
    }
}

pub fn rd_kind(s: &[u8], p: usize) -> (r: Option<(FileKind, usize)>)
    ensures
        match r {
            Some(pr) => dec_kind(s@, p as int) == Some((pr.0, pr.1 as int)),
            None => dec_kind(s@, p as int) is None,
        },
{
    match rd_u8(s, p) {
        None => None,
        Some((b, q)) => {
            if b == 0 {
                Some((FileKind::File, q))
            } else if b == 1 {
                Some((FileKind::Directory, q))
            } else if b == 2 {
                Some((FileKind::SystemLink, q))
            } else {
                None
            }
        },
    }
}

pub fn rd_bool(s: &[u8], p: usize) -> (r: Option<(bool, usize)>)
    ensures
        match r {
            Some(pr) => dec_bool(s@, p as int) == Some((pr.0, pr.1 as int)),
            None => dec_bool(s@, p as int) is None,
        },
{
    match rd_u8(s, p) {
        None => None,
        Some((b, q)) => {
            if b == 0 {
                Some((false, q))
            } else if b == 1 {
                Some((true, q))
            } else {
                None
            }
        },
    }
}

pub fn rd_opt_u64(s: &[u8], p: usize) -> (r: Option<(Option<u64>, usize)>)
    ensures
        match r {
            Some(pr) => dec_opt_u64(s@, p as int) == Some((pr.0, pr.1 as int)),
            None => dec_opt_u64(s@, p as int) is None,
        },
{
    match rd_u8(s, p) {
        None => None,
        Some((f, q)) => match rd_u64(s, q) {
            None => None,
            Some((v, q2)) => {
                if f == 0 {
                    Some((None, q2))
                } else if f == 1 {
                    Some((Some(v), q2))
                } else {
                    None
                }
            },
        },
    }
}

pub fn rd_meta(s: &[u8], p: usize) -> (r: Option<(Metadata, usize)>)
    ensures
        match r {
            Some(pr) => dec_meta(s@, p as int) == Some((pr.0, pr.1 as int)),
            None => dec_meta(s@, p as int) is None,
        },
{
    match rd_u64(s, p) {
        None => None,
        Some((len, q1)) => match rd_kind(s, q1) {
            None => None,
            Some((kind, q2)) => match rd_bool(s, q2) {
                None => None,
                Some((ro, q3)) => match rd_opt_u64(s, q3) {
                    None => None,
                    Some((modified, q4)) => match rd_opt_u64(s, q4) {
                        None => None,
                        Some((accessed, q5)) => match rd_opt_u64(s, q5) {
                            None => None,
                            Some((created, q6)) => Some(
                                (Metadata { len, kind, read_only: ro, modified, accessed, created }, q6),
                            ),
                        },
                    },
                },
            },
        },
    }
}

pub fn rd_file_header(s: &[u8], p: usize) -> (r: Option<(FileHeader, usize)>)
    ensures
        match r {
            Some(pr) => dec_file_header(s@, p as int) == Some((pr.0@, pr.1 as int)),
            None => dec_file_header(s@, p as int) is None,
        },
{
    match rd_u64(s, p) {
        None => None,
        Some((size, q1)) => match rd_contents(s, q1) {
            None => None,
            Some((contents, q2)) => match rd_meta(s, q2) {
                None => None,
                Some((meta, q3)) => match rd_bytes(s, q3) {
                    None => None,
                    Some((path, q4)) => Some(
                        (FileHeader { compressed_size: size, contents, meta, path }, q4),
                    ),
                },
            },
        },
    }
}

pub fn rd_pairs(s: &[u8], p: usize, n: u64) -> (r: Option<(Vec<(Vec<u8>, u64)>, usize)>)
    ensures
        match r {
            Some(pr) => dec_pairs(s@, p as int, n) == Some((pairs_view(pr.0@), pr.1 as int)),
            None => dec_pairs(s@, p as int, n) is None,
        },
{
    let mut acc: Vec<(Vec<u8>, u64)> = Vec::new();
    let mut cur: usize = p;
    let mut i: u64 = 0;
    assert(pairs_view(acc@) =~= Seq::<(Seq<u8>, u64)>::empty());
    while i < n
        invariant
            i <= n,
            dec_pairs(s@, p as int, n) == (match dec_pairs(s@, cur as int, (n - i) as u64) {
                None => None::<(Seq<(Seq<u8>, u64)>, int)>,
                Some(pr) => Some((pairs_view(acc@) + pr.0, pr.1)),
            }),
        decreases n - i,
    {
        match rd_bytes(s, cur) {
            None => {
                return None;
            },
            Some((path, q1)) => {
                match rd_u64(s, q1) {
                    None => {
                        return None;
                    },
                    Some((off, q2)) => {
                        let ghost acc0 = acc@;
                        acc.push((path, off));
                        proof {
                            assert(pairs_view(acc@) =~= pairs_view(acc0).push((path@, off)));
                            let m = (n - i) as u64;
                            let (rest, q3) = dec_pairs(s@, q2 as int, (m - 1) as u64).unwrap();
                            assert(pairs_view(acc0) + (seq![(path@, off)] + rest) =~= pairs_view(
                                acc@,
                            ) + rest);
                        }
                        cur = q2;
                        i = i + 1;
                    },
                }
            },
        }
    }
    proof {
        assert(pairs_view(acc@) + Seq::<(Seq<u8>, u64)>::empty() =~= pairs_view(acc@));
    }
    Some((acc, cur))
}

pub fn rd_version_header(s: &[u8], p: usize) -> (r: Option<((u64, Vec<u8>, Vec<(Vec<u8>, u64)>), usize)>)
    ensures
        match r {
            Some(pr) => dec_version_header(s@, p as int) == Some(
                (((pr.0).0, (pr.0).1@, pairs_view((pr.0).2@)), pr.1 as int),
            ),
            None => dec_version_header(s@, p as int) is None,
        },
{
    match rd_u64(s, p) {
        None => None,
        Some((number, q1)) => match rd_bytes(s, q1) {
            None => None,
            Some((message, q2)) => match rd_u64(s, q2) {
                None => None,
                Some((count, q3)) => match rd_pairs(s, q3, count) {
                    None => None,
                    Some((ps, q4)) => Some(((number, message, ps), q4)),
                },
            },
        },
    }
}

pub fn rd_u64_list(s: &[u8], p: usize, n: u64) -> (r: Option<(Vec<u64>, usize)>)
    ensures
        match r {
            Some(pr) => dec_u64_list(s@, p as int, n) == Some((pr.0@, pr.1 as int)),
            None => dec_u64_list(s@, p as int, n) is None,
        },
{
    let mut acc: Vec<u64> = Vec::new();
    let mut cur: usize = p;
    let mut i: u64 = 0;
    assert(acc@ =~= Seq::<u64>::empty());
    while i < n
        invariant
            i <= n,
            dec_u64_list(s@, p as int, n) == (match dec_u64_list(s@, cur as int, (n - i) as u64) {
                None => None::<(Seq<u64>, int)>,
                Some(pr) => Some((acc@ + pr.0, pr.1)),
            }),
        decreases n - i,
    {
        match rd_u64(s, cur) {
            None => {
                return None;
            },
            Some((x, q1)) => {
                let ghost acc0 = acc@;
                acc.push(x);
                proof {
                    let m = (n - i) as u64;
                    let (rest, q2) = dec_u64_list(s@, q1 as int, (m - 1) as u64).unwrap();
                    assert(acc0 + (seq![x] + rest) =~= acc@ + rest);
                }
                cur = q1;
                i = i + 1;
            },
        }
    }
    proof {
        assert(acc@ + Seq::<u64>::empty() =~= acc@);
    }
    Some((acc, cur))
}

pub fn rd_dir(s: &[u8], p: usize) -> (r: Option<(Vec<u64>, usize)>)
    ensures
        match r {
            Some(pr) => dec_dir(s@, p as int) == Some((pr.0@, pr.1 as int)),
            None => dec_dir(s@, p as int) is None,
        },
{
    match rd_u64(s, p) {
        None => None,
        Some((count, q)) => match rd_u64_list(s, q, count) {
            None => None,
            Some((offs, q2)) => Some((offs, q2)),
        },
    }
}

/// A copy of `data[start..start + len]`.
pub fn copy_range(data: &[u8], start: usize, len: usize) -> (r: Vec<u8>)
    requires
        start + len <= data@.len(),
    ensures
        r@ == data@.subrange(start as int, start + len),
{
    let dl: usize = data.len();
    assert(dl == data@.len());
    let w = vstd::slice::slice_subrange(data, start, start + len);
    vstd::slice::slice_to_vec(w)
}

// ---------------------------------------------------------------------------
// Executable encoders: each appends one record to the byte string under
// construction.
// ---------------------------------------------------------------------------

pub fn push_u64(out: &mut Vec<u8>, x: u64)
    ensures
        final(out)@ == old(out)@ + enc_u64(x),
{
    let mut b = u64_to_le_bytes(x);
    out.append(&mut b);
}

pub fn push_u8(out: &mut Vec<u8>, b: u8)
    ensures
        final(out)@ == old(out)@ + seq![b],
{
    out.push(b);
    proof {
        assert(old(out)@.push(b) =~= old(out)@ + seq![b]);
    }
}

pub fn push_bytes(out: &mut Vec<u8>, b: &[u8])
    ensures
        final(out)@ == old(out)@ + enc_bytes(b@),
{
    push_u64(out, b.len() as u64);
    let mut v = vstd::slice::slice_to_vec(b);
    out.append(&mut v);
    proof {
        assert((old(out)@ + enc_u64(b@.len() as u64)) + b@ =~= old(out)@ + enc_bytes(b@));
    }
}

pub fn push_opt_u64(out: &mut Vec<u8>, o: Option<u64>)
    ensures
        final(out)@ == old(out)@ + enc_opt_u64(o),
{
    match o {
        None => {
            push_u8(out, 0);
            push_u64(out, 0);
            proof {
                assert((old(out)@ + seq![0u8]) + enc_u64(0) =~= old(out)@ + enc_opt_u64(
                    None::<u64>,
                ));
            }
        },
        Some(v) => {
            push_u8(out, 1);
            push_u64(out, v);
            proof {
                assert((old(out)@ + seq![1u8]) + enc_u64(v) =~= old(out)@ + enc_opt_u64(Some(v)));
            }
        },
    }
}

pub fn push_meta(out: &mut Vec<u8>, m: &Metadata)
    ensures
        final(out)@ == old(out)@ + enc_meta(*m),
{
    push_u64(out, m.len);
    let kb: u8 = match m.kind {
        FileKind::File => 0,
        FileKind::Directory => 1,
        FileKind::SystemLink => 2,
    };
    push_u8(out, kb);
    let rb: u8 = if m.read_only {
        1
    } else {
        0
    };
    push_u8(out, rb);
    push_opt_u64(out, m.modified);
    push_opt_u64(out, m.accessed);
    push_opt_u64(out, m.created);
    proof {
        assert(((((((old(out)@ + enc_u64(m.len)) + seq![kind_byte(m.kind)]) + seq![
            bool_byte(m.read_only),
        ]) + enc_opt_u64(m.modified)) + enc_opt_u64(m.accessed)) + enc_opt_u64(m.created)) =~= old(
            out,
        )@ + enc_meta(*m));
    }
}

pub fn push_file_header(out: &mut Vec<u8>, h: &FileHeader)
    ensures
        final(out)@ == old(out)@ + enc_file_header(h@),
{
    push_u64(out, h.compressed_size);
    let cb: u8 = match h.contents {
        Contents::Snapshot => 0,
        Contents::Patch => 1,
    };
    push_u8(out, cb);
    push_meta(out, &h.meta);
    push_bytes(out, h.path.as_slice());
    proof {
        assert(((((old(out)@ + enc_u64(h.compressed_size)) + seq![contents_byte(h.contents)])
            + enc_meta(h.meta)) + enc_bytes(h.path@)) =~= old(out)@ + enc_file_header(h@));
    }
}

pub fn push_version_header(out: &mut Vec<u8>, number: u64, message: &[u8], files: &Vec<(Vec<u8>, u64)>)
    ensures
        final(out)@ == old(out)@ + enc_version_header(number, message@, pairs_view(files@)),
{
    let ghost ps = pairs_view(files@);
    push_u64(out, number);
    push_bytes(out, message);
    push_u64(out, files.len() as u64);
    let ghost base = out@;
    assert(enc_pairs(ps.take(0)) =~= Seq::<u8>::empty());
    assert(base + enc_pairs(ps.take(0)) =~= base);
    let mut i: usize = 0;
    while i < files.len()
        invariant
            0 <= i <= files@.len(),
            ps == pairs_view(files@),
            ps.len() == files@.len(),
            out@ == base + enc_pairs(ps.take(i as int)),
        decreases files@.len() - i,
    {
        let pr = &files[i];
        push_bytes(out, pr.0.as_slice());
        push_u64(out, pr.1);
        proof {
            let t1 = ps.take(i + 1);
            assert(t1.drop_last() =~= ps.take(i as int));
            assert(t1.last() == (files@[i as int].0@, files@[i as int].1));
            assert(((base + enc_pairs(ps.take(i as int))) + enc_bytes(files@[i as int].0@))
                + enc_u64(files@[i as int].1) =~= base + enc_pairs(t1));
        }
        i = i + 1;
    }
    proof {
        assert(ps.take(files@.len() as int) =~= ps);
        assert(base + enc_pairs(ps) =~= old(out)@ + enc_version_header(
            number,
            message@,
            pairs_view(files@),
        ));
    }
}

pub fn push_dir(out: &mut Vec<u8>, offs: &Vec<u64>)
    ensures
        final(out)@ == old(out)@ + enc_dir(offs@),
{
    push_u64(out, offs.len() as u64);
    let ghost base = out@;
    assert(enc_u64_list(offs@.take(0)) =~= Seq::<u8>::empty());
    assert(base + enc_u64_list(offs@.take(0)) =~= base);
    let mut i: usize = 0;
    while i < offs.len()
        invariant
            0 <= i <= offs@.len(),
            out@ == base + enc_u64_list(offs@.take(i as int)),
        decreases offs@.len() - i,
    {
        push_u64(out, offs[i]);
        proof {
            let t1 = offs@.take(i + 1);
            assert(t1.drop_last() =~= offs@.take(i as int));
            assert(t1.last() == offs@[i as int]);
            assert((base + enc_u64_list(offs@.take(i as int))) + enc_u64(offs@[i as int]) =~= base
                + enc_u64_list(t1));
        }
        i = i + 1;
    }
    proof {
        assert(offs@.take(offs@.len() as int) =~= offs@);
        assert(base + enc_u64_list(offs@) =~= old(out)@ + enc_dir(offs@));
    }
}

/// The same bytes with the root pointer region rewritten to `x`.
pub fn splice_root_ptr(data: &Vec<u8>, x: u64) -> (r: Vec<u8>)
    requires
        data@.len() >= 8,
    ensures
        r@.len() == data@.len(),
        r@.subrange(0, 8) == enc_u64(x),
        forall|i: int| 8 <= i < data@.len() ==> r@[i] == data@[i],
{
    proof {
        lemma_auto_spec_u64_to_from_le_bytes();
    }
    let mut r = u64_to_le_bytes(x);
    let mut tail = copy_range(data.as_slice(), 8, data.len() - 8);
    r.append(&mut tail);
    proof {
        assert(r@.subrange(0, 8) =~= enc_u64(x));
    }
    r
}

} // verus!
