use vstd::prelude::*;
use vstd::string::{is_ascii, is_ascii_spec_bytes, StringSliceAdditionalSpecFns};
use vstd::utf8::is_ascii_chars_nat_bound;

use crate::cstring::{field_text, latin1, lemma_field_text_end, nul_free};
use crate::encode::{
    checksum_field, encoded_record, fits, flag_of, kept_path, name_part, numeric_field, padded,
    prefix_part, stated_size, unsigned_record, EntryKind, FileMeta,
};
use crate::header::{
    byte_sum, checksum_of, field, gid_of, mode_of, mtime_of, uid_of, resolved_name, size_of, stored_checksum, type_of_flag,
    zeros, FileType,
};
use crate::engine::{chunk_count, content_blocks, ends_archive, header_error, scan_from};
use crate::header::ArchiveError;
use crate::octal::{
    is_octal_digit, lemma_octal_digits, lemma_octal_digits_len, octal_digits,
    parse_field, pow8,
};

verus! {

/// The entry kind that a header written for an object of kind `k` names.
pub open spec fn type_of_kind(k: EntryKind) -> FileType {
    match k {
        EntryKind::File => FileType::Normal,
        EntryKind::Directory => FileType::Directory,
        EntryKind::Other => FileType::Unsupported(0x61),
    }
}

/// A NUL-free text padded with NUL bytes reads back as itself.
proof fn lemma_padded_text(s: Seq<u8>, w: nat)
    requires
        nul_free(s),
        s.len() <= w,
    ensures
        field_text(padded(s, w)) == s,
        padded(s, w).len() == w,
{
    let q = padded(s, w);
    assert(q.subrange(0, s.len() as int) =~= s);
    lemma_field_text_end(q, s.len() as int);
}

/// Octal digits followed by a NUL parse to their value.
proof fn lemma_parse_digits(v: nat, n: nat, tail: Seq<u8>)
    requires
        0 < n,
        v < pow8(n),
        tail.len() > 0,
        tail[0] == 0,
    ensures
        parse_field(octal_digits(v, n) + tail) == Some(v),
{
    let d = octal_digits(v, n);
    let q = d + tail;
    lemma_octal_digits(v, n);
    assert(q.subrange(0, n as int) =~= d);
    assert(nul_free(d)) by {
        assert forall|i: int| 0 <= i < d.len() implies #[trigger] d[i] != 0 by {
            assert(is_octal_digit(d[i]));
        }
    }
    lemma_field_text_end(q, n as int);
}

/// A numeric field parses to the value it was written for.
proof fn lemma_parse_numeric(v: nat, w: nat)
    requires
        1 < w,
        v < pow8((w - 1) as nat),
    ensures
        parse_field(numeric_field(v, w)) == Some(v),
{
    let d = octal_digits(v, (w - 1) as nat);
    assert(numeric_field(v, w) =~= d + seq![0u8]);
    lemma_parse_digits(v, (w - 1) as nat, seq![0u8]);
}

/// The field limits as powers of eight.
proof fn lemma_pow8_values()
    ensures
        pow8(6) == 0o1000000,
        pow8(7) == 0o10000000,
        pow8(11) == 0o100000000000,
{
    reveal_with_fuel(pow8, 12);
}

/// Where each field of a written record stands.
proof fn lemma_encoded_fields(p: Seq<u8>, m: FileMeta)
    ensures
        encoded_record(p, m).len() == 512,
        field(encoded_record(p, m), 0, 100) == padded(name_part(p), 100),
        field(encoded_record(p, m), 100, 8) == numeric_field(m.mode as nat, 8),
        field(encoded_record(p, m), 108, 8) == numeric_field(m.uid as nat, 8),
        field(encoded_record(p, m), 116, 8) == numeric_field(m.gid as nat, 8),
        field(encoded_record(p, m), 136, 12) == numeric_field(m.mtime as nat, 12),
        encoded_record(p, m).subrange(500, 512) == zeros(12),
        field(encoded_record(p, m), 124, 12) == numeric_field(stated_size(m), 12),
        field(encoded_record(p, m), 148, 8) == checksum_field(
            checksum_of(unsigned_record(p, m)),
        ),
        encoded_record(p, m)[156] == flag_of(m.kind),
        field(encoded_record(p, m), 345, 155) == padded(prefix_part(p), 155),
        checksum_of(encoded_record(p, m)) == checksum_of(unsigned_record(p, m)),
{
    let u = unsigned_record(p, m);
    let e = encoded_record(p, m);
    lemma_octal_digits_len(m.mode as nat, 7);
    lemma_octal_digits_len(m.uid as nat, 7);
    lemma_octal_digits_len(m.gid as nat, 7);
    lemma_octal_digits_len(stated_size(m), 11);
    lemma_octal_digits_len(m.mtime as nat, 11);
    lemma_octal_digits_len(checksum_of(u), 6);
    assert(u.len() == 512);
    assert(field(e, 0, 100) =~= padded(name_part(p), 100));
    assert(field(e, 100, 8) =~= numeric_field(m.mode as nat, 8));
    assert(field(e, 108, 8) =~= numeric_field(m.uid as nat, 8));
    assert(field(e, 116, 8) =~= numeric_field(m.gid as nat, 8));
    assert(field(e, 136, 12) =~= numeric_field(m.mtime as nat, 12));
    assert(e.subrange(500, 512) =~= zeros(12));
    assert(field(e, 124, 12) =~= numeric_field(stated_size(m), 12));
    assert(field(e, 148, 8) =~= checksum_field(checksum_of(u)));
    assert(field(e, 345, 155) =~= padded(prefix_part(p), 155));
    assert(e.subrange(0, 148) =~= u.subrange(0, 148));
    assert(e.subrange(156, 512) =~= u.subrange(156, 512));
}

/// No byte adds more than 255.
proof fn lemma_byte_sum_bound(s: Seq<u8>)
    ensures
        byte_sum(s) <= 255 * s.len(),
    decreases s.len(),
{
    if s.len() > 0 {
        lemma_byte_sum_bound(s.drop_last());
    }
}

/// Splitting a long path over the prefix and name fields loses nothing of
/// its first 253 bytes: the prefix part has at most 154 bytes, the name part
/// at most 99, and the name read back from the record is the path (or, past
/// 253 bytes, always the same first 253 bytes of it).
pub proof fn name_split(p: Seq<u8>, m: FileMeta)
    requires
        nul_free(p),
    ensures
        prefix_part(p).len() <= 154,
        name_part(p).len() <= 99,
        resolved_name(encoded_record(p, m)) == kept_path(p),
        p.len() <= 253 ==> resolved_name(encoded_record(p, m)) == p,
{
    lemma_encoded_fields(p, m);
    let np = name_part(p);
    let pp = prefix_part(p);
    assert(nul_free(np)) by {
        assert forall|i: int| 0 <= i < np.len() implies #[trigger] np[i] != 0 by {
            if p.len() > 154 {
                assert(np[i] == p[154 + i]);
            }
        }
    }
    assert(nul_free(pp)) by {
        assert forall|i: int| 0 <= i < pp.len() implies #[trigger] pp[i] != 0 by {
            assert(pp[i] == p[i]);
        }
    }
    lemma_padded_text(np, 100);
    lemma_padded_text(pp, 155);
    assert(pp + np =~= kept_path(p));
}

/// A written header reads back as written: the same name, size, entry kind,
/// permission bits, owner ids and modification time, and a stored checksum
/// that matches the record. Its padding is zero, so serializing the header
/// gives back the whole record.
pub proof fn round_trip(p: Seq<u8>, m: FileMeta)
    requires
        fits(m),
        nul_free(p),
    ensures
        resolved_name(encoded_record(p, m)) == kept_path(p),
        size_of(encoded_record(p, m)) == Some(stated_size(m)),
        type_of_flag(encoded_record(p, m)[156]) == type_of_kind(m.kind),
        mode_of(encoded_record(p, m)) == Some(m.mode as nat),
        uid_of(encoded_record(p, m)) == Some(m.uid as nat),
        gid_of(encoded_record(p, m)) == Some(m.gid as nat),
        mtime_of(encoded_record(p, m)) == Some(m.mtime as nat),
        encoded_record(p, m).subrange(0, 500) + zeros(12) == encoded_record(p, m),
        stored_checksum(encoded_record(p, m)) == Some(checksum_of(encoded_record(p, m))),
{
    let u = unsigned_record(p, m);
    lemma_encoded_fields(p, m);
    name_split(p, m);
    lemma_pow8_values();
    lemma_parse_numeric(stated_size(m), 12);
    lemma_parse_numeric(m.mode as nat, 8);
    lemma_parse_numeric(m.uid as nat, 8);
    lemma_parse_numeric(m.gid as nat, 8);
    lemma_parse_numeric(m.mtime as nat, 12);
    assert(encoded_record(p, m).subrange(0, 500) + zeros(12) =~= encoded_record(p, m));
    lemma_byte_sum_bound(u.subrange(0, 148));
    lemma_byte_sum_bound(u.subrange(156, 512));
    lemma_parse_digits(checksum_of(u), 6, seq![0u8, 0x20u8]);
}

/// A directory's header states size zero, whatever size the directory has
/// on disk.
pub proof fn directory_size_zero(p: Seq<u8>, m: FileMeta)
    requires
        m.kind is Directory,
    ensures
        size_of(encoded_record(p, m)) == Some(0nat),
{
    lemma_encoded_fields(p, m);
    lemma_pow8_values();
    reveal_with_fuel(pow8, 12);
    lemma_parse_numeric(0, 12);
}

/// Two directories whose metadata differ only in their on-disk size get the
/// same header.
pub proof fn directory_size_ignored(p: Seq<u8>, m1: FileMeta, m2: FileMeta)
    requires
        m1.kind is Directory,
        m2 == (FileMeta { size: m2.size, ..m1 }),
    ensures
        encoded_record(p, m1) == encoded_record(p, m2),
{
    assert(unsigned_record(p, m1) == unsigned_record(p, m2));
}

/// The checksum of a record does not depend on what its checksum field holds.
pub proof fn checksum_ignores_field(rec: Seq<u8>, x: Seq<u8>)
    requires
        rec.len() == 512,
        x.len() == 8,
    ensures
        checksum_of(rec.subrange(0, 148) + x + rec.subrange(156, 512)) == checksum_of(rec),
{
    let r2 = rec.subrange(0, 148) + x + rec.subrange(156, 512);
    assert(r2.subrange(0, 148) =~= rec.subrange(0, 148));
    assert(r2.subrange(156, 512) =~= rec.subrange(156, 512));
}

/// Replacing one byte changes the sum by the difference.
proof fn lemma_byte_sum_update(s: Seq<u8>, j: int, b: u8)
    requires
        0 <= j < s.len(),
    ensures
        byte_sum(s.update(j, b)) + s[j] == byte_sum(s) + b,
    decreases s.len(),
{
    let t = s.update(j, b);
    if j < s.len() - 1 {
        lemma_byte_sum_update(s.drop_last(), j, b);
        assert(t.drop_last() =~= s.drop_last().update(j, b));
    } else {
        assert(t.drop_last() =~= s.drop_last());
    }
}

/// Changing one byte of a valid header outside its checksum field makes the
/// checksum disagree: reading such a record fails with a checksum mismatch,
/// unless the change emptied the name and so ends the archive.
pub proof fn header_corruption_detected(rec: Seq<u8>, i: int, b: u8)
    requires
        rec.len() == 512,
        stored_checksum(rec) == Some(checksum_of(rec)),
        0 <= i < 512,
        !(148 <= i < 156),
        b != rec[i],
    ensures
        stored_checksum(rec.update(i, b)) == stored_checksum(rec),
        checksum_of(rec.update(i, b)) != checksum_of(rec),
        !ends_archive(rec.update(i, b)) ==> header_error(rec.update(i, b)) == Some(
            ArchiveError::ChecksumMismatch,
        ),
{
    let r2 = rec.update(i, b);
    assert(field(r2, 148, 8) =~= field(rec, 148, 8));
    if i < 148 {
        assert(r2.subrange(0, 148) =~= rec.subrange(0, 148).update(i, b));
        assert(r2.subrange(156, 512) =~= rec.subrange(156, 512));
        lemma_byte_sum_update(rec.subrange(0, 148), i, b);
    } else {
        assert(r2.subrange(0, 148) =~= rec.subrange(0, 148));
        assert(r2.subrange(156, 512) =~= rec.subrange(156, 512).update(i - 156, b));
        lemma_byte_sum_update(rec.subrange(156, 512), i - 156, b);
    }
}

/// A file whose length is a multiple `k` of 512 is written as `k + 1`
/// content blocks, the last of them all NUL bytes.
pub proof fn content_chunking(data: Seq<u8>, k: nat)
    requires
        data.len() == 512 * k,
    ensures
        chunk_count(data.len()) == k + 1,
        content_blocks(data).len() == 512 * (k + 1),
        content_blocks(data).subrange(512 * k as int, 512 * (k + 1) as int) == zeros(512),
{
    assert((512 * k) / 512 == k) by (nonlinear_arith);
    let c = content_blocks(data);
    assert(c.subrange(512 * k as int, 512 * (k + 1) as int) =~= zeros(512));
}

/// Every header written for a regular file or a directory with a non-empty
/// path is accepted when read back: it does not end the archive and no
/// check refuses it.
pub proof fn encoded_header_accepted(p: Seq<u8>, m: FileMeta)
    requires
        fits(m),
        nul_free(p),
        p.len() > 0,
        !(m.kind is Other),
    ensures
        !ends_archive(encoded_record(p, m)),
        header_error(encoded_record(p, m)) is None,
{
    round_trip(p, m);
    lemma_pow8_values();
    lemma_parse_numeric(m.mode as nat, 8);
    if p.len() > 253 {
        assert(kept_path(p).len() == 253);
    }
}

/// An ASCII path with no NUL character and at most 253 bytes is read back
/// from the header written for it as the very same string.
pub proof fn ascii_name_round_trip(s: &str, m: FileMeta)
    requires
        is_ascii(s),
        s@.len() <= 253,
        forall|i: int| 0 <= i < s@.len() ==> #[trigger] s@[i] != '\0',
    ensures
        latin1(resolved_name(encoded_record(s.spec_bytes(), m))) == s@,
{
    is_ascii_spec_bytes(s);
    is_ascii_chars_nat_bound(s@);
    let b = s.spec_bytes();
    assert(nul_free(b)) by {
        assert forall|i: int| 0 <= i < b.len() implies #[trigger] b[i] != 0 by {
            assert(s@[i] != '\0');
            assert((s@[i] as nat) < 128);
        }
    }
    name_split(b, m);
    assert forall|i: int| 0 <= i < s@.len() implies #[trigger] latin1(b)[i] == s@[i] by {
        assert((s@[i] as nat) < 128);
        assert(b[i] == s@[i] as u8);
    }
    assert(latin1(b) =~= s@);
}

/// Reading stops at a refused header: the walk from there yields no entry,
/// neither that one nor any after it, and ends with the header's error. A
/// header with a mismatched checksum or an unsupported kind thus aborts the
/// whole read.
pub proof fn scan_stops_at_refused_header(a: Seq<u8>, at: nat)
    requires
        at + 512 <= a.len(),
        !ends_archive(a.subrange(at as int, at + 512int)),
        header_error(a.subrange(at as int, at + 512int)) is Some,
    ensures
        scan_from(a, at).0.len() == 0,
        scan_from(a, at).1 == header_error(a.subrange(at as int, at + 512int)),
{
}

/// Changing a byte of an archive after the header at `at` leaves what that
/// header decides unchanged: content corruption is not detected by the
/// header's checksum.
pub proof fn content_change_keeps_header(a: Seq<u8>, at: nat, i: int, b: u8)
    requires
        at + 512 <= i < a.len(),
    ensures
        a.update(i, b).subrange(at as int, at + 512int) == a.subrange(at as int, at + 512int),
{
    assert(a.update(i, b).subrange(at as int, at + 512int) =~= a.subrange(at as int, at + 512int));
}

} // verus!
