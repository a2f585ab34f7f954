use vstd::prelude::*;

use crate::cstring::{field_text, latin1};
use crate::header::{
    checksum_of, gid_of, mode_of, mtime_of, resolved_name, uid_of, size_of, stored_checksum, type_of_flag, zeros,
    copy_field, ArchiveError, FileType, UstarHeader, HEADER,
};

verus! {

/// What to do with an archive.
#[derive(Debug, Clone, Copy, PartialEq, Eq, Structural)]
pub enum Action {
    Extract,
    Display,
    Archive,
    Nop,
}

/// An entry read from an archive, checked and ready to be listed or unpacked.
#[derive(Debug)]
pub struct Entry {
    /// The path the entry names.
    pub name: String,
    /// Length of its content in bytes.
    pub size: u64,
    /// Permission bits to give the restored object.
    pub mode: u32,
    /// Either `Normal` or `Directory`.
    pub file_type: FileType,
    /// Number of 512-byte content blocks that follow the header.
    pub blocks: u64,
}

impl Entry {
    /// The entry is one that `next_entry` hands out: a regular file or a
    /// directory, with a size that an octal size field can hold and the
    /// number of content blocks that follow its header.
    pub open spec fn wf(&self) -> bool {
        &&& self.file_type is Normal || self.file_type is Directory
        &&& self.size < 0x1000000000
        &&& self.blocks == blocks_for(self.file_type, self.size as nat)
    }
}

/// What to do with an entry's content while reading an archive.
#[derive(Debug, Clone, Copy, PartialEq, Eq, Structural)]
pub enum Step {
    /// Read this many bytes of content blocks and write the file from them.
    WriteFile(u64),
    /// Create the directory (and its missing parents); no content follows.
    MakeDir,
    /// Pass over this many bytes of content blocks.
    Skip(u64),
}

/// What reading an archive with `action` does with `e`'s content.
pub open spec fn step_of(action: Action, e: Entry) -> Step {
    let span = (e.blocks * 512) as u64;
    match action {
        Action::Extract => match e.file_type {
            FileType::Normal => Step::WriteFile(span),
            _ => Step::MakeDir,
        },
        _ => Step::Skip(span),
    }
}

/// Decides how to handle the content of an entry: only extraction writes
/// anything; listing passes over the content blocks.
pub fn step_for(action: Action, e: &Entry) -> (r: Step)
    requires
        e.wf(),
    ensures
        r == step_of(action, *e),
        e.blocks * 512 <= u64::MAX,
{
    assert(e.size / 512 <= 0x8000000) by (nonlinear_arith)
        requires
            e.size < 0x1000000000,
    ;
    let span = e.blocks * 512;
    match action {
        Action::Extract => match e.file_type {
            FileType::Normal => Step::WriteFile(span),
            _ => Step::MakeDir,
        },
        _ => Step::Skip(span),
    }
}

/// What follows a header when writing an archive.
#[derive(Debug, Clone, Copy, PartialEq, Eq, Structural)]
pub enum WriteStep {
    /// A directory: no content; its children are archived next.
    ListChildren,
    /// Anything else: this many bytes of content, padded by `pad_content`.
    CopyContent(u64),
}

/// Decides what to write after a header: a directory's children, or the
/// content of any other entry, whose length the header states.
pub fn write_step(h: &UstarHeader) -> (r: Result<WriteStep, ArchiveError>)
    ensures
        type_of_flag(h.record()[156]) is Directory ==> r == Ok::<WriteStep, ArchiveError>(
            WriteStep::ListChildren,
        ),
        !(type_of_flag(h.record()[156]) is Directory) ==> {
            &&& r is Err <==> size_of(h.record()) is None
            &&& r matches Ok(s) ==> s matches WriteStep::CopyContent(n) && size_of(h.record())
                == Some(n as nat)
            &&& r matches Err(e) ==> e is MalformedOctal
        },
{
    match h.file_type() {
        FileType::Directory => Ok(WriteStep::ListChildren),
        _ => match h.file_size() {
            Ok(n) => Ok(WriteStep::CopyContent(n)),
            Err(e) => Err(e),
        },
    }
}

/// Number of 512-byte blocks that hold `n` bytes of content in this format:
/// one more than the full blocks `n` fills.
pub open spec fn chunk_count(n: nat) -> nat {
    n / 512 + 1
}

/// Content blocks that follow a header of the given kind and size.
pub open spec fn blocks_for(t: FileType, size: nat) -> nat {
    match t {
        FileType::Normal => chunk_count(size),
        _ => 0,
    }
}

/// The first reason to refuse a record that names an entry, if any: its
/// checksum field is not octal, the checksum disagrees, its kind is neither
/// a regular file nor a directory, or one of its other numeric fields
/// (mode, uid, gid, size, mtime) is not octal.
pub open spec fn header_error(rec: Seq<u8>) -> Option<ArchiveError> {
    if stored_checksum(rec) is None {
        Some(ArchiveError::MalformedOctal)
    } else if stored_checksum(rec).unwrap() != checksum_of(rec) {
        Some(ArchiveError::ChecksumMismatch)
    } else if !(type_of_flag(rec[156]) is Normal || type_of_flag(rec[156]) is Directory) {
        Some(ArchiveError::UnsupportedEntryType(rec[156]))
    } else if mode_of(rec) is None || uid_of(rec) is None || gid_of(rec) is None || size_of(rec)
        is None || mtime_of(rec) is None {
        Some(ArchiveError::MalformedOctal)
    } else {
        None
    }
}

/// A record whose name is empty ends the archive.
pub open spec fn ends_archive(rec: Seq<u8>) -> bool {
    resolved_name(rec).len() == 0
}

/// A field's text is empty exactly when its first byte is NUL.
proof fn lemma_text_empty(f: Seq<u8>)
    requires
        f.len() > 0,
    ensures
        (field_text(f).len() == 0) == (f[0] == 0),
{
}

/// Decides what a header read from an archive stands for: the end of the
/// archive (`Ok(None)`), an entry to list or unpack, or an error that aborts
/// the whole operation.
pub fn next_entry(h: &UstarHeader) -> (r: Result<Option<Entry>, ArchiveError>)
    ensures
        r matches Ok(None) <==> ends_archive(h.record()),
        !ends_archive(h.record()) ==> (r is Err <==> header_error(h.record()) is Some),
        r matches Err(e) ==> header_error(h.record()) == Some(e),
        r matches Ok(Some(e)) ==> {
            &&& e.name@ == latin1(resolved_name(h.record()))
            &&& size_of(h.record()) == Some(e.size as nat)
            &&& mode_of(h.record()) == Some(e.mode as nat)
            &&& e.file_type == type_of_flag(h.record()[156])
            &&& e.blocks == blocks_for(e.file_type, e.size as nat)
            &&& e.wf()
        },
{
    proof {
        h.lemma_fields();
        lemma_text_empty(h.file_name@);
        lemma_text_empty(h.file_prefix@);
    }
    if h.file_name[0] == 0 && h.file_prefix[0] == 0 {
        return Ok(None);
    }
    let stored = match h.checksum() {
        Ok(c) => c,
        Err(e) => {
            return Err(e);
        },
    };
    if stored != h.compute_checksum() {
        return Err(ArchiveError::ChecksumMismatch);
    }
    let file_type = h.file_type();
    match file_type {
        FileType::Normal => {},
        FileType::Directory => {},
        _ => {
            return Err(ArchiveError::UnsupportedEntryType(h.file_type[0]));
        },
    }
    let size = match h.file_size() {
        Ok(s) => s,
        Err(e) => {
            return Err(e);
        },
    };
    let mode = match h.to_numeric_mode() {
        Ok(m) => m,
        Err(e) => {
            return Err(e);
        },
    };
    if let Err(e) = h.uid() {
        return Err(e);
    }
    if let Err(e) = h.gid() {
        return Err(e);
    }
    if let Err(e) = h.modified_time() {
        return Err(e);
    }
    proof {
        assert(size_of(h.record()).unwrap() < 0x1000000000) by {
            crate::header::lemma_size_bound(h.record());
        }
    }
    let blocks: u64 = match file_type {
        FileType::Normal => size / 512 + 1,
        _ => 0,
    };
    let name = h.file_name();
    Ok(Some(Entry { name, size, mode, file_type, blocks }))
}

/// Content blocks that follow an accepted record.
pub open spec fn record_blocks(rec: Seq<u8>) -> nat {
    blocks_for(type_of_flag(rec[156]), size_of(rec).unwrap())
}

/// Reading an archive from offset `at`: the offsets of the headers of the
/// entries that are accepted, in order, and why reading stopped (`None` at
/// the end of the archive). Reading stops at the first header that is
/// refused, or where the bytes run out; nothing after it is read.
pub open spec fn scan_from(a: Seq<u8>, at: nat) -> (Seq<nat>, Option<ArchiveError>)
    decreases a.len() - at,
{
    if at + 512 > a.len() {
        (Seq::empty(), Some(ArchiveError::Truncated))
    } else {
        let rec = a.subrange(at as int, at + 512int);
        if ends_archive(rec) {
            (Seq::empty(), None)
        } else if header_error(rec) is Some {
            (Seq::empty(), header_error(rec))
        } else {
            let next = at + 512 + record_blocks(rec) * 512;
            if next > a.len() {
                (Seq::empty(), Some(ArchiveError::Truncated))
            } else {
                let rest = scan_from(a, next);
                (seq![at] + rest.0, rest.1)
            }
        }
    }
}

/// Offsets as mathematical numbers.
pub open spec fn offsets_view(v: Seq<usize>) -> Seq<nat> {
    v.map_values(|x: usize| x as nat)
}

/// Walks an archive held in memory: returns the offsets of the headers of
/// the entries to list or unpack, in order, and the error that stopped the
/// walk, if any. Entries before a refused header are returned; that header
/// and everything after it are not.
pub fn scan_archive(a: &[u8]) -> (r: (Vec<usize>, Option<ArchiveError>))
    ensures
        offsets_view(r.0@) == scan_from(a@, 0).0,
        r.1 == scan_from(a@, 0).1,
{
    let n = a.len();
    let mut offsets: Vec<usize> = Vec::new();
    let mut at: usize = 0;
    loop
        invariant
            at <= n == a@.len(),
            scan_from(a@, 0).0 == offsets_view(offsets@) + scan_from(a@, at as nat).0,
            scan_from(a@, 0).1 == scan_from(a@, at as nat).1,
        decreases n - at,
    {
        if n - at < HEADER {
            proof {
                assert(offsets_view(offsets@) + Seq::<nat>::empty() =~= offsets_view(offsets@));
            }
            return (offsets, Some(ArchiveError::Truncated));
        }
        let buf: [u8; 512] = copy_field(a, at);
        let h = UstarHeader::from_bytes(&buf);
        let ghost rec = a@.subrange(at as int, at + 512);
        assert(h.record() == rec);
        match next_entry(&h) {
            Ok(None) => {
                proof {
                    assert(offsets_view(offsets@) + Seq::<nat>::empty() =~= offsets_view(offsets@));
                }
                return (offsets, None);
            },
            Err(e) => {
                proof {
                    assert(offsets_view(offsets@) + Seq::<nat>::empty() =~= offsets_view(offsets@));
                }
                return (offsets, Some(e));
            },
            Ok(Some(e)) => {
                assert(e.blocks <= 0x8000001) by {
                    assert(e.size / 512 <= 0x8000000) by (nonlinear_arith)
                        requires
                            e.size < 0x1000000000,
                    ;
                }
                let span: u64 = e.blocks * 512;
                let room = n - at - HEADER;
                if (room as u64) < span {
                    proof {
                        assert(offsets_view(offsets@) + Seq::<nat>::empty() =~= offsets_view(offsets@));
                    }
                    return (offsets, Some(ArchiveError::Truncated));
                }
                let ghost old_offsets = offsets@;
                offsets.push(at);
                proof {
                    assert(offsets_view(offsets@) =~= offsets_view(old_offsets).push(at as nat));
                    let next = (at + 512 + record_blocks(rec) * 512) as nat;
                    assert(scan_from(a@, at as nat).0 == seq![at as nat] + scan_from(a@, next).0);
                    assert(offsets_view(old_offsets) + (seq![at as nat] + scan_from(a@, next).0)
                        =~= offsets_view(offsets@) + scan_from(a@, next).0);
                }
                at = at + HEADER + span as usize;
            },
        }
    }
}

/// The content blocks written for a file's bytes: the bytes, then NUL bytes
/// up to the end of the last of `chunk_count` blocks.
pub open spec fn content_blocks(data: Seq<u8>) -> Seq<u8> {
    data + zeros((chunk_count(data.len()) * 512 - data.len()) as nat)
}

/// The content blocks that follow a regular file's header.
pub fn pad_content(data: &[u8]) -> (r: Vec<u8>)
    requires
        data@.len() + HEADER <= usize::MAX,
    ensures
        r@ == content_blocks(data@),
        r@.len() == chunk_count(data@.len()) * 512,
{
    let n = data.len();
    let total = (n / 512 + 1) * 512;
    let mut r: Vec<u8> = Vec::new();
    let mut i: usize = 0;
    while i < n
        invariant
            0 <= i <= n == data@.len(),
            r@ == data@.subrange(0, i as int),
        decreases n - i,
    {
        r.push(data[i]);
        proof {
            assert(data@.subrange(0, i + 1) =~= data@.subrange(0, i as int).push(data@[i as int]));
        }
        i = i + 1;
    }
    while i < total
        invariant
            n <= i <= total,
            n == data@.len(),
            r@ == data@ + zeros((i - n) as nat),
        decreases total - i,
    {
        r.push(0);
        proof {
            assert(zeros((i + 1 - n) as nat) =~= zeros((i - n) as nat).push(0u8));
        }
        i = i + 1;
    }
    proof {
        assert(data@.subrange(0, n as int) =~= data@);
    }
    r
}

/// The bytes of a regular file restored from its content blocks: the first
/// `size` of them; the padding of the last block is dropped.
pub fn content_of(entry: &Entry, blocks: &[u8]) -> (r: Vec<u8>)
    requires
        entry.size <= blocks@.len(),
    ensures
        r@ == blocks@.subrange(0, entry.size as int),
{
    let len = blocks.len();
    assert(entry.size <= len);
    let n = entry.size as usize;
    let mut r: Vec<u8> = Vec::new();
    let mut i: usize = 0;
    while i < n
        invariant
            0 <= i <= n == entry.size <= blocks@.len(),
            r@ == blocks@.subrange(0, i as int),
        decreases n - i,
    {
        r.push(blocks[i]);
        proof {
            assert(blocks@.subrange(0, i + 1) =~= blocks@.subrange(0, i as int).push(blocks@[i as int]));
        }
        i = i + 1;
    }
    r
}

/// The paths still to be archived, in the order they will be written: a
/// directory's children come right after it, before the paths that followed
/// it.
#[derive(Debug)]
pub struct PathQueue {
    /// The pending paths, the next one last.
    stack: Vec<String>,
}

impl View for PathQueue {
    type V = Seq<String>;

    closed spec fn view(&self) -> Seq<String> {
        Seq::new(self.stack@.len(), |i: int| self.stack@[self.stack@.len() - 1 - i])
    }
}

impl PathQueue {
    /// A queue that holds `paths`, in their order.
    pub fn new(paths: Vec<String>) -> (r: PathQueue)
        ensures
            r@ == paths@,
    {
        let mut r = PathQueue { stack: Vec::new() };
        r.push_children(paths);
        assert(r@ =~= paths@);
        r
    }

    /// Whether no path is left.
    pub fn is_empty(&self) -> (r: bool)
        ensures
            r == (self@.len() == 0),
    {
        self.stack.len() == 0
    }

    /// Takes the next path, if any.
    pub fn next(&mut self) -> (r: Option<String>)
        ensures
            old(self)@.len() == 0 ==> r is None && final(self)@ == old(self)@,
            old(self)@.len() > 0 ==> r == Some(old(self)@[0]) && final(self)@ == old(
                self,
            )@.drop_first(),
    {
        let r = self.stack.pop();
        proof {
            if old(self)@.len() > 0 {
                assert(self@ =~= old(self)@.drop_first());
            } else {
                assert(self@ =~= old(self)@);
            }
        }
        r
    }

    /// Puts a directory's children, in their order, before all pending paths.
    pub fn push_children(&mut self, children: Vec<String>)
        ensures
            final(self)@ == children@ + old(self)@,
    {
        let mut children = children;
        let ghost all = children@;
        while children.len() > 0
            invariant
                children@.len() <= all.len(),
                self@ == all.subrange(children@.len() as int, all.len() as int) + old(self)@,
                children@ == all.subrange(0, children@.len() as int),
            decreases children@.len(),
        {
            let ghost before = self@;
            let ghost prev = children@;
            let c = children.pop().unwrap();
            self.stack.push(c);
            proof {
                let n = children@.len() as int;
                assert(c == prev[n]);
                assert(children@ =~= all.subrange(0, n));
                assert(self@ =~= seq![c] + before);
                assert(all.subrange(n, all.len() as int) =~= seq![c] + all.subrange(n + 1, all.len() as int));
                assert(self@ =~= all.subrange(n, all.len() as int) + old(self)@);
            }
        }
        assert(all.subrange(0, all.len() as int) =~= all);
    }
}

} // verus!
