use vstd::prelude::*;
use vstd::string::StringSliceAdditionalSpecFns;

use crate::header::{checksum_of, checksum_sum, zeros, UstarHeader, CHECKSUM_AT, HEADER, TYPE_AT};
use crate::octal::{octal_digits, render_octal};

verus! {

/// What kind of filesystem object an entry comes from.
#[derive(Debug, Clone, Copy, PartialEq, Eq, Structural)]
pub enum EntryKind {
    File,
    Directory,
    Other,
}

/// The metadata of a filesystem object that goes into its header.
#[derive(Debug, Clone, Copy, PartialEq, Eq, Structural)]
pub struct FileMeta {
    /// Permission bits (with the file-type bits, as the filesystem gives them).
    pub mode: u32,
    pub uid: u32,
    pub gid: u32,
    /// Modification time in seconds since the Unix epoch.
    pub mtime: u64,
    /// Length in bytes.
    pub size: u64,
    pub kind: EntryKind,
}

/// Largest value of a seven-digit octal field, plus one.
pub const MAX_SHORT: u64 = 0o10000000;

/// Largest value of an eleven-digit octal field, plus one.
pub const MAX_LONG: u64 = 0o100000000000;

/// The metadata's numbers fit the widths of their fields (a directory's
/// size is never written, so it may be anything).
pub open spec fn fits(m: FileMeta) -> bool {
    &&& m.mode < MAX_SHORT
    &&& m.uid < MAX_SHORT
    &&& m.gid < MAX_SHORT
    &&& m.mtime < MAX_LONG
    &&& (m.kind is Directory || m.size < MAX_LONG)
}

/// The part of a path that goes into the name field.
pub open spec fn name_part(p: Seq<u8>) -> Seq<u8> {
    if p.len() <= 99 {
        p
    } else if p.len() <= 154 {
        Seq::empty()
    } else if p.len() <= 253 {
        p.subrange(154, p.len() as int)
    } else {
        p.subrange(154, 253)
    }
}

/// The part of a path that goes into the prefix field.
pub open spec fn prefix_part(p: Seq<u8>) -> Seq<u8> {
    if p.len() <= 99 {
        Seq::empty()
    } else if p.len() <= 154 {
        p
    } else {
        p.subrange(0, 154)
    }
}

/// What of a path an archive keeps: its first 253 bytes.
pub open spec fn kept_path(p: Seq<u8>) -> Seq<u8> {
    if p.len() <= 253 {
        p
    } else {
        p.subrange(0, 253)
    }
}

/// `s` followed by NUL bytes up to width `w`.
pub open spec fn padded(s: Seq<u8>, w: nat) -> Seq<u8> {
    s + zeros((w - s.len()) as nat)
}

/// A numeric field of width `w`: `w - 1` octal digits and a NUL.
pub open spec fn numeric_field(v: nat, w: nat) -> Seq<u8> {
    octal_digits(v, (w - 1) as nat).push(0)
}

/// The checksum field: six octal digits, a NUL and a space.
pub open spec fn checksum_field(c: nat) -> Seq<u8> {
    octal_digits(c, 6) + seq![0u8, 0x20u8]
}

/// The typeflag written for each kind of object.
pub open spec fn flag_of(k: EntryKind) -> u8 {
    match k {
        EntryKind::File => 0x30,
        EntryKind::Directory => 0x35,
        EntryKind::Other => 0x61,
    }
}

/// The size written in the header: zero for a directory.
pub open spec fn stated_size(m: FileMeta) -> nat {
    match m.kind {
        EntryKind::Directory => 0,
        _ => m.size as nat,
    }
}

/// The magic field.
pub open spec fn magic() -> Seq<u8> {
    seq![0x75u8, 0x73, 0x74, 0x61, 0x72, 0x20, 0x20, 0x00]
}

/// The record of an entry before its checksum is known: the checksum field
/// holds eight spaces.
pub open spec fn unsigned_record(p: Seq<u8>, m: FileMeta) -> Seq<u8> {
    padded(name_part(p), 100) + numeric_field(m.mode as nat, 8) + numeric_field(m.uid as nat, 8)
        + numeric_field(m.gid as nat, 8) + numeric_field(stated_size(m), 12) + numeric_field(
        m.mtime as nat,
        12,
    ) + Seq::new(8, |i: int| 0x20u8) + seq![flag_of(m.kind)] + zeros(100) + magic() + zeros(32)
        + zeros(32) + zeros(8) + zeros(8) + padded(prefix_part(p), 155) + zeros(12)
}

/// The record written for the path `p` with metadata `m`.
pub open spec fn encoded_record(p: Seq<u8>, m: FileMeta) -> Seq<u8> {
    let u = unsigned_record(p, m);
    u.subrange(0, 148) + checksum_field(checksum_of(u)) + u.subrange(156, 512)
}

/// Appends `src[lo .. hi]` and then NUL bytes up to `w` bytes in all.
fn append_padded(buf: &mut Vec<u8>, src: &[u8], lo: usize, hi: usize, w: usize)
    requires
        lo <= hi <= src@.len(),
        hi - lo <= w,
        old(buf)@.len() + w <= HEADER,
    ensures
        final(buf)@ == old(buf)@ + padded(src@.subrange(lo as int, hi as int), w as nat),
        final(buf)@.len() == old(buf)@.len() + w,
{
    let ghost start = buf@;
    let mut i: usize = lo;
    while i < hi
        invariant
            lo <= i <= hi <= src@.len(),
            hi - lo <= w,
            start.len() + w <= HEADER,
            buf@ == start + src@.subrange(lo as int, i as int),
        decreases hi - i,
    {
        buf.push(src[i]);
        proof {
            assert(src@.subrange(lo as int, i + 1) =~= src@.subrange(lo as int, i as int).push(src@[i as int]));
        }
        i = i + 1;
    }
    let mut k: usize = hi - lo;
    while k < w
        invariant
            hi - lo <= k <= w,
            start.len() + w <= HEADER,
            buf@ == start + src@.subrange(lo as int, hi as int) + zeros((k - (hi - lo)) as nat),
        decreases w - k,
    {
        buf.push(0);
        proof {
            assert(zeros((k + 1 - (hi - lo)) as nat) =~= zeros((k - (hi - lo)) as nat).push(0u8));
        }
        k = k + 1;
    }
    assert(buf@ =~= start + padded(src@.subrange(lo as int, hi as int), w as nat));
}

/// Appends `v` as a numeric field of width `w`.
fn append_numeric(buf: &mut Vec<u8>, v: u64, w: usize)
    requires
        1 <= w <= 12,
        old(buf)@.len() + w <= HEADER,
    ensures
        final(buf)@ == old(buf)@ + numeric_field(v as nat, w as nat),
        final(buf)@.len() == old(buf)@.len() + w,
{
    let mut digits = render_octal(v, w - 1);
    digits.push(0);
    proof {
        assert(digits@.subrange(0, w as int) =~= digits@);
    }
    append_padded(buf, digits.as_slice(), 0, w, w);
    assert(padded(digits@.subrange(0, w as int), w as nat) =~= numeric_field(v as nat, w as nat));
}

impl UstarHeader {
    /// The header of the entry at path `name` with metadata `meta`.
    ///
    /// A path of up to 99 bytes goes into the name field. A longer one puts
    /// its first 154 bytes into the prefix field and the next 99 at most into
    /// the name field; what lies beyond is dropped. A directory states size
    /// zero; the checksum is computed last, over all other fields.
    pub fn from_metadata(name: &str, meta: &FileMeta) -> (r: UstarHeader)
        requires
            fits(*meta),
        ensures
            r.record() == encoded_record(name.spec_bytes(), *meta),
    {
        let p = name.as_bytes();
        let n = p.len();
        let mut u: Vec<u8> = Vec::new();
        if n <= 99 {
            append_padded(&mut u, p, 0, n, 100);
        } else if n <= 154 {
            append_padded(&mut u, p, 0, 0, 100);
        } else if n <= 253 {
            append_padded(&mut u, p, 154, n, 100);
        } else {
            append_padded(&mut u, p, 154, 253, 100);
        }
        proof {
            assert(u@ =~= padded(name_part(p@), 100));
        }
        append_numeric(&mut u, meta.mode as u64, 8);
        append_numeric(&mut u, meta.uid as u64, 8);
        append_numeric(&mut u, meta.gid as u64, 8);
        let size: u64 = match meta.kind {
            EntryKind::Directory => 0,
            _ => meta.size,
        };
        append_numeric(&mut u, size, 12);
        append_numeric(&mut u, meta.mtime, 12);
        let spaces = [0x20u8; 8];
        append_padded(&mut u, &spaces, 0, 8, 8);
        let flag: u8 = match meta.kind {
            EntryKind::File => 0x30,
            EntryKind::Directory => 0x35,
            EntryKind::Other => 0x61,
        };
        let flags = [flag];
        append_padded(&mut u, &flags, 0, 1, 1);
        append_padded(&mut u, &flags, 0, 0, 100);
        let magic_bytes = [0x75u8, 0x73, 0x74, 0x61, 0x72, 0x20, 0x20, 0x00];
        append_padded(&mut u, &magic_bytes, 0, 8, 8);
        append_padded(&mut u, &flags, 0, 0, 32);
        append_padded(&mut u, &flags, 0, 0, 32);
        append_padded(&mut u, &flags, 0, 0, 8);
        append_padded(&mut u, &flags, 0, 0, 8);
        if n <= 99 {
            append_padded(&mut u, p, 0, 0, 155);
        } else if n <= 154 {
            append_padded(&mut u, p, 0, n, 155);
        } else {
            append_padded(&mut u, p, 0, 154, 155);
        }
        append_padded(&mut u, &flags, 0, 0, 12);
        proof {
            assert(spaces@ =~= Seq::new(8, |i: int| 0x20u8));
            assert(magic_bytes@ =~= magic());
            assert(u@ =~= unsigned_record(p@, *meta));
        }
        let c = checksum_sum(u.as_slice());
        let mut rec: Vec<u8> = Vec::new();
        append_padded(&mut rec, u.as_slice(), 0, CHECKSUM_AT, CHECKSUM_AT);
        let digits = render_octal(c as u64, 6);
        append_padded(&mut rec, digits.as_slice(), 0, 6, 6);
        let tail = [0u8, 0x20];
        append_padded(&mut rec, &tail, 0, 2, 2);
        append_padded(&mut rec, u.as_slice(), TYPE_AT, HEADER, HEADER - TYPE_AT);
        proof {
            assert(digits@.subrange(0, 6) =~= digits@);
            assert(tail@.subrange(0, 2) =~= seq![0u8, 0x20u8]);
            assert(u@.subrange(0, 148) =~= u@.subrange(0, 148).subrange(0, 148));
            assert(rec@ =~= encoded_record(p@, *meta));
        }
        UstarHeader::from_bytes(rec.as_slice())
    }
}

} // verus!
