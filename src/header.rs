use vstd::prelude::*;

use crate::cstring::{field_text, lemma_field_text_len, latin1, CString};
use crate::octal::{lemma_octal_value_bound, lemma_pow8_mono, parse_field, parse_octal, pow8};

verus! {

/// Size of one header record, and of every block of the archive.
pub const HEADER: usize = 512;

/// Width of the name field.
pub const FILE_NAME: usize = 100;

/// Width of the mode, uid, gid, checksum, devmajor and devminor fields.
pub const SHORT_FIELD: usize = 8;

/// Width of the size, mtime and padding fields.
pub const LONG_FIELD: usize = 12;

/// Width of the user and group name fields.
pub const OWNER_NAME: usize = 32;

/// Width of the prefix field.
pub const FILE_PREFIX: usize = 155;

/// Offsets of the fields inside a record.
pub const MODE_AT: usize = 100;
pub const UID_AT: usize = 108;
pub const GID_AT: usize = 116;
pub const SIZE_AT: usize = 124;
pub const MTIME_AT: usize = 136;
pub const CHECKSUM_AT: usize = 148;
pub const TYPE_AT: usize = 156;
pub const LINK_AT: usize = 157;
pub const MAGIC_AT: usize = 257;
pub const UNAME_AT: usize = 265;
pub const GNAME_AT: usize = 297;
pub const MAJOR_AT: usize = 329;
pub const MINOR_AT: usize = 337;
pub const PREFIX_AT: usize = 345;
pub const PADDING_AT: usize = 500;

/// One archive entry's header, field by field.
#[derive(Debug)]
pub struct UstarHeader {
    pub file_name: [u8; FILE_NAME],
    pub file_mode: [u8; SHORT_FIELD],
    pub uid: [u8; SHORT_FIELD],
    pub gid: [u8; SHORT_FIELD],
    pub file_size: [u8; LONG_FIELD],
    pub modified: [u8; LONG_FIELD],
    pub checksum: [u8; SHORT_FIELD],
    pub file_type: [u8; 1],
    pub linked_file: [u8; FILE_NAME],
    pub ustar: [u8; SHORT_FIELD],
    pub username: [u8; OWNER_NAME],
    pub groupname: [u8; OWNER_NAME],
    pub major_number: [u8; SHORT_FIELD],
    pub minor_number: [u8; SHORT_FIELD],
    pub file_prefix: [u8; FILE_PREFIX],
    pub padding: [u8; LONG_FIELD],
}

/// The kind of entry that a header's typeflag names.
#[derive(Debug, Clone, Copy, PartialEq, Eq, Structural)]
pub enum FileType {
    Normal,
    Directory,
    HardLink,
    SymLink,
    /// Any other typeflag byte.
    Unsupported(u8),
}

/// Why a header could not be read or accepted.
#[derive(Debug, Clone, Copy, PartialEq, Eq, Structural)]
pub enum ArchiveError {
    /// A numeric field is not octal text.
    MalformedOctal,
    /// The stored checksum disagrees with the record's bytes.
    ChecksumMismatch,
    /// The typeflag names a kind of entry that is not handled.
    UnsupportedEntryType(u8),
    /// The archive ends inside a header or inside an entry's content.
    Truncated,
}

/// `n` NUL bytes.
pub open spec fn zeros(n: nat) -> Seq<u8> {
    Seq::new(n, |i: int| 0u8)
}

/// The bytes `lo .. lo + w` of a record.
pub open spec fn field(rec: Seq<u8>, lo: int, w: int) -> Seq<u8> {
    rec.subrange(lo, lo + w)
}

/// The entry kind that a typeflag byte names.
pub open spec fn type_of_flag(b: u8) -> FileType {
    if b == 0x30 {
        FileType::Normal
    } else if b == 0x31 {
        FileType::HardLink
    } else if b == 0x32 {
        FileType::SymLink
    } else if b == 0x35 {
        FileType::Directory
    } else {
        FileType::Unsupported(b)
    }
}

/// The path that a record names: the prefix's text, then the name's.
pub open spec fn resolved_name(rec: Seq<u8>) -> Seq<u8> {
    field_text(field(rec, 345, 155)) + field_text(field(rec, 0, 100))
}

/// The size that a record states, if its field is well formed.
pub open spec fn size_of(rec: Seq<u8>) -> Option<nat> {
    parse_field(field(rec, 124, 12))
}

/// The owner's user id that a record states, if its field is well formed.
pub open spec fn uid_of(rec: Seq<u8>) -> Option<nat> {
    parse_field(field(rec, 108, 8))
}

/// The owner's group id that a record states, if its field is well formed.
pub open spec fn gid_of(rec: Seq<u8>) -> Option<nat> {
    parse_field(field(rec, 116, 8))
}

/// The modification time that a record states, if its field is well formed.
pub open spec fn mtime_of(rec: Seq<u8>) -> Option<nat> {
    parse_field(field(rec, 136, 12))
}

/// The permission bits that a record states, if its field is well formed.
pub open spec fn mode_of(rec: Seq<u8>) -> Option<nat> {
    parse_field(field(rec, 100, 8))
}

/// The checksum that a record states, if its field is well formed.
pub open spec fn stored_checksum(rec: Seq<u8>) -> Option<nat> {
    parse_field(field(rec, 148, 8))
}

/// The sum of some bytes.
pub open spec fn byte_sum(s: Seq<u8>) -> nat
    decreases s.len(),
{
    if s.len() == 0 {
        0
    } else {
        byte_sum(s.drop_last()) + s.last() as nat
    }
}

/// The checksum of a record: the sum of its 512 bytes with the checksum
/// field counted as eight spaces.
pub open spec fn checksum_of(rec: Seq<u8>) -> nat {
    byte_sum(rec.subrange(0, 148)) + 8 * 0x20 + byte_sum(rec.subrange(156, 512))
}

/// Fills a field from `src[at .. at + N]`.
pub(crate) fn copy_field<const N: usize>(src: &[u8], at: usize) -> (r: [u8; N])
    requires
        at + N <= src@.len(),
    ensures
        r@ == src@.subrange(at as int, at + N),
{
    let mut r = [0u8; N];
    let n = src.len();
    let mut i: usize = 0;
    while i < N
        invariant
            0 <= i <= N,
            at + N <= src@.len() == n,
            r@.len() == N,
            forall|k: int| 0 <= k < i ==> r@[k] == src@[at + k],
        decreases N - i,
    {
        r[i] = src[at + i];
        i = i + 1;
    }
    assert(r@ =~= src@.subrange(at as int, at + N));
    r
}

/// Writes `src` into `buf[at .. at + N]`.
fn put_field<const N: usize>(buf: &mut [u8; 512], at: usize, src: &[u8; N])
    requires
        at + N <= 512,
    ensures
        final(buf)@ == old(buf)@.subrange(0, at as int) + src@ + old(buf)@.subrange(
            at + N,
            512,
        ),
{
    let mut i: usize = 0;
    while i < N
        invariant
            0 <= i <= N,
            at + N <= 512,
            buf@.len() == 512,
            forall|k: int| 0 <= k < at ==> buf@[k] == old(buf)@[k],
            forall|k: int| at + N <= k < 512 ==> buf@[k] == old(buf)@[k],
            forall|k: int| 0 <= k < i ==> buf@[at + k] == src@[k],
        decreases N - i,
    {
        buf[at + i] = src[i];
        i = i + 1;
    }
    assert(buf@ =~= old(buf)@.subrange(0, at as int) + src@ + old(buf)@.subrange(at + N, 512));
}

/// Adds `buf[lo .. hi]`.
fn sum_range(buf: &[u8], lo: usize, hi: usize) -> (r: u32)
    requires
        lo <= hi <= buf@.len() <= 512,
    ensures
        r == byte_sum(buf@.subrange(lo as int, hi as int)),
        r <= 255 * (hi - lo),
{
    let mut sum: u32 = 0;
    let mut i: usize = lo;
    while i < hi
        invariant
            lo <= i <= hi <= buf@.len() <= 512,
            sum == byte_sum(buf@.subrange(lo as int, i as int)),
            sum <= 255 * (i - lo),
        decreases hi - i,
    {
        proof {
            assert(buf@.subrange(lo as int, i + 1).drop_last() =~= buf@.subrange(lo as int, i as int));
        }
        sum = sum + buf[i] as u32;
        i = i + 1;
    }
    sum
}

/// A size field holds a value below `8^12`.
pub proof fn lemma_size_bound(rec: Seq<u8>)
    requires
        rec.len() == 512,
        size_of(rec) is Some,
    ensures
        size_of(rec).unwrap() < 0x1000000000,
{
    let f = field(rec, 124, 12);
    let t = field_text(f);
    lemma_field_text_len(f);
    lemma_octal_value_bound(t);
    lemma_pow8_mono(t.len(), 12);
    reveal_with_fuel(pow8, 13);
}

/// A twelve-byte numeric field holds a value below `8^12`.
proof fn lemma_parse_long_bound(f: Seq<u8>)
    requires
        f.len() == 12,
        parse_field(f) is Some,
    ensures
        parse_field(f).unwrap() < 0x1000000000,
{
    let t = field_text(f);
    lemma_field_text_len(f);
    lemma_octal_value_bound(t);
    lemma_pow8_mono(t.len(), 12);
    reveal_with_fuel(pow8, 13);
}

/// An eight-byte numeric field holds a value below `8^8`.
proof fn lemma_parse_field_bound(f: Seq<u8>)
    requires
        f.len() == 8,
        parse_field(f) is Some,
    ensures
        parse_field(f).unwrap() < 0x1000000,
{
    let t = field_text(f);
    lemma_field_text_len(f);
    lemma_octal_value_bound(t);
    lemma_pow8_mono(t.len(), 8);
    reveal_with_fuel(pow8, 9);
}

/// The checksum of a 512-byte record.
pub(crate) fn checksum_sum(buf: &[u8]) -> (r: u32)
    requires
        buf@.len() == 512,
    ensures
        r == checksum_of(buf@),
        r < 0o1000000,
{
    let head = sum_range(buf, 0, CHECKSUM_AT);
    let tail = sum_range(buf, TYPE_AT, HEADER);
    256 + head + tail
}

impl UstarHeader {
    /// The 512 bytes that this header stands for, field after field.
    pub open spec fn record(&self) -> Seq<u8> {
        self.file_name@ + self.file_mode@ + self.uid@ + self.gid@ + self.file_size@
            + self.modified@ + self.checksum@ + self.file_type@ + self.linked_file@ + self.ustar@
            + self.username@ + self.groupname@ + self.major_number@ + self.minor_number@
            + self.file_prefix@ + self.padding@
    }

    /// Each field stands at its offset in the record.
    pub proof fn lemma_fields(&self)
        ensures
            self.record().len() == 512,
            field(self.record(), 0, 100) == self.file_name@,
            field(self.record(), 100, 8) == self.file_mode@,
            field(self.record(), 108, 8) == self.uid@,
            field(self.record(), 116, 8) == self.gid@,
            field(self.record(), 136, 12) == self.modified@,
            field(self.record(), 124, 12) == self.file_size@,
            field(self.record(), 148, 8) == self.checksum@,
            self.record()[156] == self.file_type@[0],
            field(self.record(), 345, 155) == self.file_prefix@,
    {
        let r = self.record();
        assert(field(r, 0, 100) =~= self.file_name@);
        assert(field(r, 100, 8) =~= self.file_mode@);
        assert(field(r, 108, 8) =~= self.uid@);
        assert(field(r, 116, 8) =~= self.gid@);
        assert(field(r, 136, 12) =~= self.modified@);
        assert(field(r, 124, 12) =~= self.file_size@);
        assert(field(r, 148, 8) =~= self.checksum@);
        assert(field(r, 345, 155) =~= self.file_prefix@);
    }

    /// A blank header: every field NUL-filled but the checksum, which holds
    /// eight spaces, and the magic, `"ustar  "` and a NUL.
    pub fn new() -> (r: UstarHeader)
        ensures
            r.file_name@ == zeros(100),
            r.file_mode@ == zeros(8),
            r.uid@ == zeros(8),
            r.gid@ == zeros(8),
            r.file_size@ == zeros(12),
            r.modified@ == zeros(12),
            r.checksum@ == seq![0x20u8, 0x20, 0x20, 0x20, 0x20, 0x20, 0x20, 0x20],
            r.file_type@ == zeros(1),
            r.linked_file@ == zeros(100),
            r.ustar@ == seq![0x75u8, 0x73, 0x74, 0x61, 0x72, 0x20, 0x20, 0x00],
            r.username@ == zeros(32),
            r.groupname@ == zeros(32),
            r.major_number@ == zeros(8),
            r.minor_number@ == zeros(8),
            r.file_prefix@ == zeros(155),
            r.padding@ == zeros(12),
    {
        let r = UstarHeader {
            file_name: [0u8; 100],
            file_mode: [0u8; 8],
            uid: [0u8; 8],
            gid: [0u8; 8],
            file_size: [0u8; 12],
            modified: [0u8; 12],
            checksum: [0x20u8; 8],
            file_type: [0u8; 1],
            linked_file: [0u8; 100],
            ustar: [0x75u8, 0x73, 0x74, 0x61, 0x72, 0x20, 0x20, 0x00],
            username: [0u8; 32],
            groupname: [0u8; 32],
            major_number: [0u8; 8],
            minor_number: [0u8; 8],
            file_prefix: [0u8; 155],
            padding: [0u8; 12],
        };
        assert(r.file_name@ =~= zeros(100));
        assert(r.file_mode@ =~= zeros(8));
        assert(r.uid@ =~= zeros(8));
        assert(r.gid@ =~= zeros(8));
        assert(r.file_size@ =~= zeros(12));
        assert(r.modified@ =~= zeros(12));
        assert(r.checksum@ =~= seq![0x20u8, 0x20, 0x20, 0x20, 0x20, 0x20, 0x20, 0x20]);
        assert(r.file_type@ =~= zeros(1));
        assert(r.linked_file@ =~= zeros(100));
        assert(r.ustar@ =~= seq![0x75u8, 0x73, 0x74, 0x61, 0x72, 0x20, 0x20, 0x00]);
        assert(r.username@ =~= zeros(32));
        assert(r.groupname@ =~= zeros(32));
        assert(r.major_number@ =~= zeros(8));
        assert(r.minor_number@ =~= zeros(8));
        assert(r.file_prefix@ =~= zeros(155));
        assert(r.padding@ =~= zeros(12));
        r
    }

    /// The path this header names: the prefix's text followed by the name's,
    /// each byte taken as one character.
    pub fn file_name(&self) -> (r: String)
        ensures
            r@ == latin1(resolved_name(self.record())),
    {
        proof {
            self.lemma_fields();
        }
        let prefix = CString::from_bytes(&self.file_prefix).to_string();
        let name = CString::from_bytes(&self.file_name);
        let r = prefix.concat(name.as_str());
        assert(r@ =~= latin1(resolved_name(self.record())));
        r
    }

    /// The size of the entry's content in bytes.
    pub fn file_size(&self) -> (r: Result<u64, ArchiveError>)
        ensures
            r matches Ok(v) ==> size_of(self.record()) == Some(v as nat),
            r is Err <==> size_of(self.record()) is None,
            r matches Err(e) ==> e is MalformedOctal,
    {
        proof {
            self.lemma_fields();
        }
        match parse_octal(&self.file_size) {
            Some(v) => Ok(v),
            None => Err(ArchiveError::MalformedOctal),
        }
    }

    /// The checksum stored in the header.
    pub fn checksum(&self) -> (r: Result<u32, ArchiveError>)
        ensures
            r matches Ok(v) ==> stored_checksum(self.record()) == Some(v as nat),
            r is Err <==> stored_checksum(self.record()) is None,
            r matches Err(e) ==> e is MalformedOctal,
    {
        proof {
            self.lemma_fields();
        }
        match parse_octal(&self.checksum) {
            Some(v) => {
                proof {
                    lemma_parse_field_bound(self.checksum@);
                }
                Ok(v as u32)
            },
            None => Err(ArchiveError::MalformedOctal),
        }
    }

    /// The checksum that the header's bytes call for: their sum, with the
    /// checksum field counted as eight spaces.
    pub fn compute_checksum(&self) -> (r: u32)
        ensures
            r == checksum_of(self.record()),
    {
        let buf = self.record_bytes();
        checksum_sum(&buf)
    }

    /// The kind of entry that the typeflag names.
    pub fn file_type(&self) -> (r: FileType)
        ensures
            r == type_of_flag(self.record()[156]),
    {
        proof {
            self.lemma_fields();
        }
        let b = self.file_type[0];
        if b == 0x30 {
            FileType::Normal
        } else if b == 0x31 {
            FileType::HardLink
        } else if b == 0x32 {
            FileType::SymLink
        } else if b == 0x35 {
            FileType::Directory
        } else {
            FileType::Unsupported(b)
        }
    }

    /// The owner's user id stored in the header.
    pub fn uid(&self) -> (r: Result<u32, ArchiveError>)
        ensures
            r matches Ok(v) ==> uid_of(self.record()) == Some(v as nat),
            r is Err <==> uid_of(self.record()) is None,
            r matches Err(e) ==> e is MalformedOctal,
    {
        proof {
            self.lemma_fields();
        }
        match parse_octal(&self.uid) {
            Some(v) => {
                proof {
                    lemma_parse_field_bound(self.uid@);
                }
                Ok(v as u32)
            },
            None => Err(ArchiveError::MalformedOctal),
        }
    }

    /// The owner's group id stored in the header.
    pub fn gid(&self) -> (r: Result<u32, ArchiveError>)
        ensures
            r matches Ok(v) ==> gid_of(self.record()) == Some(v as nat),
            r is Err <==> gid_of(self.record()) is None,
            r matches Err(e) ==> e is MalformedOctal,
    {
        proof {
            self.lemma_fields();
        }
        match parse_octal(&self.gid) {
            Some(v) => {
                proof {
                    lemma_parse_field_bound(self.gid@);
                }
                Ok(v as u32)
            },
            None => Err(ArchiveError::MalformedOctal),
        }
    }

    /// The modification time stored in the header, in seconds since the
    /// Unix epoch.
    pub fn modified_time(&self) -> (r: Result<u64, ArchiveError>)
        ensures
            r matches Ok(v) ==> mtime_of(self.record()) == Some(v as nat),
            r is Err <==> mtime_of(self.record()) is None,
            r matches Err(e) ==> e is MalformedOctal,
    {
        proof {
            self.lemma_fields();
        }
        match parse_octal(&self.modified) {
            Some(v) => Ok(v),
            None => Err(ArchiveError::MalformedOctal),
        }
    }

    /// The permission bits stored in the header.
    pub fn to_numeric_mode(&self) -> (r: Result<u32, ArchiveError>)
        ensures
            r matches Ok(v) ==> mode_of(self.record()) == Some(v as nat),
            r is Err <==> mode_of(self.record()) is None,
            r matches Err(e) ==> e is MalformedOctal,
    {
        proof {
            self.lemma_fields();
        }
        match parse_octal(&self.file_mode) {
            Some(v) => {
                proof {
                    lemma_parse_field_bound(self.file_mode@);
                }
                Ok(v as u32)
            },
            None => Err(ArchiveError::MalformedOctal),
        }
    }

    /// Reads a header from the 512 bytes of a record.
    pub fn from_bytes(buf: &[u8]) -> (r: UstarHeader)
        requires
            buf@.len() == 512,
        ensures
            r.record() == buf@,
    {
        let r = UstarHeader {
            file_name: copy_field(buf, 0),
            file_mode: copy_field(buf, MODE_AT),
            uid: copy_field(buf, UID_AT),
            gid: copy_field(buf, GID_AT),
            file_size: copy_field(buf, SIZE_AT),
            modified: copy_field(buf, MTIME_AT),
            checksum: copy_field(buf, CHECKSUM_AT),
            file_type: copy_field(buf, TYPE_AT),
            linked_file: copy_field(buf, LINK_AT),
            ustar: copy_field(buf, MAGIC_AT),
            username: copy_field(buf, UNAME_AT),
            groupname: copy_field(buf, GNAME_AT),
            major_number: copy_field(buf, MAJOR_AT),
            minor_number: copy_field(buf, MINOR_AT),
            file_prefix: copy_field(buf, PREFIX_AT),
            padding: copy_field(buf, PADDING_AT),
        };
        assert(r.record() =~= buf@);
        r
    }

    /// The 512 bytes of this header's record, with the reserved padding
    /// field zero-filled.
    pub fn serialize_to_array(&self) -> (r: [u8; 512])
        ensures
            r@ == self.record().subrange(0, 500) + zeros(12),
    {
        let mut buf = [0u8; 512];
        put_field(&mut buf, 0, &self.file_name);
        put_field(&mut buf, MODE_AT, &self.file_mode);
        put_field(&mut buf, UID_AT, &self.uid);
        put_field(&mut buf, GID_AT, &self.gid);
        put_field(&mut buf, SIZE_AT, &self.file_size);
        put_field(&mut buf, MTIME_AT, &self.modified);
        put_field(&mut buf, CHECKSUM_AT, &self.checksum);
        put_field(&mut buf, TYPE_AT, &self.file_type);
        put_field(&mut buf, LINK_AT, &self.linked_file);
        put_field(&mut buf, MAGIC_AT, &self.ustar);
        put_field(&mut buf, UNAME_AT, &self.username);
        put_field(&mut buf, GNAME_AT, &self.groupname);
        put_field(&mut buf, MAJOR_AT, &self.major_number);
        put_field(&mut buf, MINOR_AT, &self.minor_number);
        put_field(&mut buf, PREFIX_AT, &self.file_prefix);
        assert(buf@ =~= self.record().subrange(0, 500) + zeros(12));
        buf
    }

    /// All 512 bytes of the record as the header holds them, padding
    /// included.
    fn record_bytes(&self) -> (r: [u8; 512])
        ensures
            r@ == self.record(),
    {
        let mut buf = [0u8; 512];
        put_field(&mut buf, 0, &self.file_name);
        put_field(&mut buf, MODE_AT, &self.file_mode);
        put_field(&mut buf, UID_AT, &self.uid);
        put_field(&mut buf, GID_AT, &self.gid);
        put_field(&mut buf, SIZE_AT, &self.file_size);
        put_field(&mut buf, MTIME_AT, &self.modified);
        put_field(&mut buf, CHECKSUM_AT, &self.checksum);
        put_field(&mut buf, TYPE_AT, &self.file_type);
        put_field(&mut buf, LINK_AT, &self.linked_file);
        put_field(&mut buf, MAGIC_AT, &self.ustar);
        put_field(&mut buf, UNAME_AT, &self.username);
        put_field(&mut buf, GNAME_AT, &self.groupname);
        put_field(&mut buf, MAJOR_AT, &self.major_number);
        put_field(&mut buf, MINOR_AT, &self.minor_number);
        put_field(&mut buf, PREFIX_AT, &self.file_prefix);
        put_field(&mut buf, PADDING_AT, &self.padding);
        assert(buf@ =~= self.record());
        buf
    }
}

} // verus!
