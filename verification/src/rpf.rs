//! RPF7 archives: the header, the entry table, and what each file entry holds.
use vstd::prelude::*;
use crate::text::{chars_of, ends_with, ends_with_str};

verus! {

/// The magic number that opens an RPF7 archive ("RPF7").
pub const RPF7_MAGIC: u32 = 0x52504637;

/// The identifier that opens an RSC7 resource header.
pub const RESOURCE_IDENT: u32 = 0x37435352;

#[derive(Debug, Clone, Copy, PartialEq, Eq, Structural)]
pub enum RpfEncryption {
    /// No encryption (header word 0).
    Unencrypted,
    Open,
    Aes,
    Ng,
}

/// The encryption named by the header's encryption word; unknown values count as NG.
pub open spec fn encryption_of(v: u32) -> RpfEncryption {
    if v == 0x00000000 {
        RpfEncryption::Unencrypted
    } else if v == 0x4E45504F {
        RpfEncryption::Open
    } else if v == 0x0FFFFFF9 {
        RpfEncryption::Aes
    } else {
        RpfEncryption::Ng
    }
}

impl RpfEncryption {
    pub fn from_u32(v: u32) -> (r: Self)
        ensures
            r == encryption_of(v),
    {
        match v {
            0x00000000 => Self::Unencrypted,
            0x4E45504F => Self::Open,  // "OPEN" - no encryption
            0x0FFFFFF9 => Self::Aes,
            0x0FEFFFFF => Self::Ng,
            _ => Self::Ng,  // default to NG for unknown values
        }
    }
}

#[derive(Debug)]
pub struct RpfEntry {
    pub name: String,
    pub name_lower: String,
    pub kind: RpfEntryKind,
}

#[derive(Debug, Clone, Copy, PartialEq, Eq, Structural)]
pub enum RpfEntryKind {
    Directory { entries_index: u32, entries_count: u32 },
    BinaryFile { file_offset: u32, file_size: u32, uncompressed_size: u32, is_encrypted: bool },
    ResourceFile {
        file_offset: u32,
        file_size: u32,
        system_flags: u32,
        graphics_flags: u32,
        is_encrypted: bool,
    },
}

pub struct RpfArchive {
    pub path: String,
    pub start_pos: u64,
    pub encryption: RpfEncryption,
    pub entries: Vec<RpfEntry>,
}

/// Little-endian 16-bit value at `i`.
pub open spec fn le_u16(b: Seq<u8>, i: int) -> int {
    b[i] + 256 * b[i + 1]
}

/// Little-endian 24-bit value at `i`.
pub open spec fn le_u24(b: Seq<u8>, i: int) -> int {
    b[i] + 256 * b[i + 1] + 65536 * b[i + 2]
}

/// Little-endian 32-bit value at `i`.
pub open spec fn le_u32(b: Seq<u8>, i: int) -> int {
    b[i] + 256 * b[i + 1] + 65536 * b[i + 2] + 16777216 * b[i + 3]
}

/// Reads the little-endian `u32` at `offset`.
pub fn read_u32(data: &[u8], offset: usize) -> (r: u32)
    requires
        offset + 4 <= data@.len(),
    ensures
        r == le_u32(data@, offset as int),
{
    (data[offset] as u32) + (data[offset + 1] as u32) * 256 + (data[offset + 2] as u32) * 65536
        + (data[offset + 3] as u32) * 16777216
}

/// The bytes `data[a..b]`, copied.
pub fn copy_range(data: &[u8], a: usize, b: usize) -> (r: Vec<u8>)
    requires
        a <= b <= data@.len(),
    ensures
        r@ == data@.subrange(a as int, b as int),
{
    let mut r: Vec<u8> = Vec::new();
    let mut i = a;
    while i < b
        invariant
            a <= i <= b <= data@.len(),
            r@ == data@.subrange(a as int, i as int),
        decreases b - i,
    {
        r.push(data[i]);
        i = i + 1;
        assert(r@ =~= data@.subrange(a as int, i as int));
    }
    r
}

/// The first index at or after `i` that holds a zero byte, or the length.
pub open spec fn zero_from(data: Seq<u8>, i: int) -> int
    decreases data.len() - i,
{
    if i >= data.len() {
        data.len() as int
    } else if data[i] == 0 {
        i
    } else {
        zero_from(data, i + 1)
    }
}

pub proof fn lemma_zero_from(data: Seq<u8>, i: int)
    requires
        0 <= i <= data.len(),
    ensures
        i <= zero_from(data, i) <= data.len(),
    decreases data.len() - i,
{
    if i < data.len() && data[i] != 0 {
        lemma_zero_from(data, i + 1);
    }
}

/// The bytes of the NUL-terminated string at `offset` (none when `offset` is past the end).
pub open spec fn cstring_bytes(data: Seq<u8>, offset: int) -> Seq<u8> {
    if offset >= data.len() {
        seq![]
    } else {
        data.subrange(offset, zero_from(data, offset))
    }
}

/// What `String::from_utf8_lossy` makes of some bytes: the decoded text, with
/// each invalid sequence replaced by U+FFFD.
pub uninterp spec fn utf8_lossy(bytes: Seq<u8>) -> Seq<char>;

/// `String::from_utf8_lossy(bytes).into_owned()`. Its result is a function of
/// the bytes alone; for valid UTF-8 it is the decoded text. What it makes of
/// invalid sequences (U+FFFD per maximal invalid subpart) is not stated.
#[verifier::external_body]
fn decode_lossy(bytes: &[u8]) -> (s: String)
    ensures
        s@ == utf8_lossy(bytes@),
        vstd::utf8::valid_utf8(bytes@) ==> s@ == vstd::utf8::decode_utf8(bytes@),
{
    String::from_utf8_lossy(bytes).into_owned()
}

/// What `str::to_lowercase` makes of a string: the Unicode lowercase mapping.
pub uninterp spec fn unicode_lowercase(s: Seq<char>) -> Seq<char>;

/// `str::to_lowercase`. Its result is a function of the string alone (the
/// Unicode `Lowercase` mapping); the mapping itself is not stated.
#[verifier::external_body]
pub fn to_lowercase(s: &str) -> (r: String)
    ensures
        r@ == unicode_lowercase(s@),
{
    s.to_lowercase()
}

/// The NUL-terminated string at `offset`, decoded leniently.
fn read_cstring(data: &[u8], offset: usize) -> (s: String)
    ensures
        s@ == utf8_lossy(cstring_bytes(data@, offset as int)),
        vstd::utf8::valid_utf8(cstring_bytes(data@, offset as int)) ==> s@ == vstd::utf8::decode_utf8(
            cstring_bytes(data@, offset as int),
        ),
{
    if offset >= data.len() {
        let empty: Vec<u8> = Vec::new();
        assert(empty@ =~= cstring_bytes(data@, offset as int));
        return decode_lossy(&empty);
    }
    proof {
        lemma_zero_from(data@, offset as int);
    }
    let mut end = offset;
    while end < data.len() && data[end] != 0
        invariant
            offset <= end <= data@.len(),
            zero_from(data@, offset as int) == zero_from(data@, end as int),
        decreases data.len() - end,
    {
        end = end + 1;
    }
    let b = copy_range(data, offset, end);
    decode_lossy(&b)
}

/// Whether a lower-cased name ends in `.ysc` (script resources are stored encrypted).
pub fn name_lower_is_ysc(name: &str) -> (r: bool)
    ensures
        r == ends_with(unicode_lowercase(name@), ".ysc"@),
{
    let lower = to_lowercase(name);
    let cs = chars_of(lower.as_str());
    ends_with_str(&cs, ".ysc")
}

/// The name offset of a 16-byte entry record.
pub open spec fn name_offset_of(chunk: Seq<u8>) -> int {
    if le_u32(chunk, 4) == 0x7FFFFF00 {
        le_u32(chunk, 0)
    } else {
        le_u16(chunk, 0)
    }
}

/// The kind of a 16-byte entry record: a directory when the second word is
/// `0x7FFFFF00`, a binary file when its top bit is clear, a resource otherwise.
pub open spec fn kind_of(chunk: Seq<u8>, name_lower: Seq<char>) -> RpfEntryKind {
    if le_u32(chunk, 4) == 0x7FFFFF00 {
        RpfEntryKind::Directory {
            entries_index: le_u32(chunk, 8) as u32,
            entries_count: le_u32(chunk, 12) as u32,
        }
    } else if le_u32(chunk, 4) < 0x80000000 {
        RpfEntryKind::BinaryFile {
            file_offset: le_u24(chunk, 5) as u32,
            file_size: le_u24(chunk, 2) as u32,
            uncompressed_size: le_u32(chunk, 8) as u32,
            is_encrypted: le_u32(chunk, 12) == 1,
        }
    } else {
        RpfEntryKind::ResourceFile {
            file_offset: (le_u24(chunk, 5) % 0x800000) as u32,
            file_size: le_u24(chunk, 2) as u32,
            system_flags: le_u32(chunk, 8) as u32,
            graphics_flags: le_u32(chunk, 12) as u32,
            is_encrypted: ends_with(name_lower, ".ysc"@),
        }
    }
}

/// Decodes the kind of the 16-byte entry record `chunk`, given its lower-cased name.
pub fn decode_entry_kind(chunk: &[u8], name_lower: &str) -> (k: RpfEntryKind)
    requires
        chunk@.len() == 16,
    ensures
        k == kind_of(chunk@, name_lower@),
{
    let h2 = read_u32(chunk, 4);
    if h2 == 0x7FFFFF00 {
        RpfEntryKind::Directory {
            entries_index: read_u32(chunk, 8),
            entries_count: read_u32(chunk, 12),
        }
    } else {
        let file_size = (chunk[2] as u32) + (chunk[3] as u32) * 256 + (chunk[4] as u32) * 65536;
        let offset_raw = (chunk[5] as u32) + (chunk[6] as u32) * 256 + (chunk[7] as u32) * 65536;
        if h2 < 0x80000000 {
            RpfEntryKind::BinaryFile {
                file_offset: offset_raw,
                file_size,
                uncompressed_size: read_u32(chunk, 8),
                is_encrypted: read_u32(chunk, 12) == 1,
            }
        } else {
            let cs = chars_of(name_lower);
            RpfEntryKind::ResourceFile {
                file_offset: offset_raw % 0x800000,
                file_size,
                system_flags: read_u32(chunk, 8),
                graphics_flags: read_u32(chunk, 12),
                is_encrypted: ends_with_str(&cs, ".ysc"),
            }
        }
    }
}

/// How a 16-byte entry record reads, byte by byte. Bytes 4..8 equal to
/// `00 FF FF 7F` mark a directory (index in bytes 8..12, count in 12..16).
/// Otherwise bytes 2..5 hold the stored size and bytes 5..8 the offset in
/// 512-byte blocks, both little-endian over three bytes; when the top bit of
/// byte 7 is clear the entry is a binary file (uncompressed size in bytes
/// 8..12, encrypted when bytes 12..16 read 1), else a resource (that bit not
/// part of its offset, system flags in bytes 8..12, graphics flags in 12..16,
/// encrypted when its name ends in `.ysc`).
pub proof fn lemma_entry_record_layout(c: Seq<u8>, name_lower: Seq<char>)
    requires
        c.len() == 16,
    ensures
        ({
            let marker = c[4] + 256 * c[5] + 65536 * c[6] + 16777216 * c[7];
            let size = c[2] + 256 * c[3] + 65536 * c[4];
            let blocks = c[5] + 256 * c[6] + 65536 * c[7];
            let w8 = c[8] + 256 * c[9] + 65536 * c[10] + 16777216 * c[11];
            let w12 = c[12] + 256 * c[13] + 65536 * c[14] + 16777216 * c[15];
            &&& marker == 0x7FFFFF00 ==> (kind_of(c, name_lower) matches RpfEntryKind::Directory {
                entries_index,
                entries_count,
            } && entries_index == w8 && entries_count == w12)
            &&& marker != 0x7FFFFF00 && c[7] < 0x80 ==> (kind_of(c, name_lower) matches RpfEntryKind::BinaryFile {
                file_offset,
                file_size,
                uncompressed_size,
                is_encrypted,
            } && file_offset == blocks && file_size == size && uncompressed_size == w8 && is_encrypted == (
            w12 == 1))
            &&& c[7] >= 0x80 ==> (kind_of(c, name_lower) matches RpfEntryKind::ResourceFile {
                file_offset,
                file_size,
                system_flags,
                graphics_flags,
                is_encrypted,
            } && file_offset == blocks - 0x800000 && file_size == size && system_flags == w8
                && graphics_flags == w12 && is_encrypted == ends_with(name_lower, ".ysc"@))
        }),
{
    let blocks = c[5] + 256 * c[6] + 65536 * c[7];
    if c[7] >= 0x80 {
        assert(0x800000 <= blocks < 0x1000000);
        assert(blocks % 0x800000 == blocks - 0x800000);
    }
}

/// The record of entry `i` in an entry table.
pub open spec fn record(entries_data: Seq<u8>, i: int) -> Seq<u8> {
    entries_data.subrange(16 * i, 16 * i + 16)
}

/// `e` is what the 16-byte record `chunk` describes, with its name taken from `names`.
pub open spec fn entry_decoded(e: RpfEntry, chunk: Seq<u8>, names: Seq<u8>) -> bool {
    &&& e.name@ == utf8_lossy(cstring_bytes(names, name_offset_of(chunk)))
    &&& vstd::utf8::valid_utf8(cstring_bytes(names, name_offset_of(chunk))) ==> e.name@
        == vstd::utf8::decode_utf8(cstring_bytes(names, name_offset_of(chunk)))
    &&& e.name_lower@ == unicode_lowercase(e.name@)
    &&& e.kind == kind_of(chunk, e.name_lower@)
}

/// The number of entries decoded from a table: `count`, or as many whole
/// records as the table holds.
pub open spec fn decoded_count(entries_data: Seq<u8>, count: int) -> int {
    if count <= (entries_data.len() / 16) as int {
        count
    } else {
        (entries_data.len() / 16) as int
    }
}

/// All entries decoded from the table.
pub open spec fn entries_decoded(
    entries: Seq<RpfEntry>,
    entries_data: Seq<u8>,
    names: Seq<u8>,
    count: int,
) -> bool {
    &&& entries.len() == decoded_count(entries_data, count)
    &&& forall|i: int|
        0 <= i < entries.len() ==> entry_decoded(
            #[trigger] entries[i],
            record(entries_data, i),
            names,
        )
}

/// Decodes up to `count` 16-byte records, naming each from the name table.
fn parse_entries(entries_data: &[u8], names_data: &[u8], count: usize) -> (r: Vec<RpfEntry>)
    ensures
        entries_decoded(r@, entries_data@, names_data@, count as int),
{
    let mut entries: Vec<RpfEntry> = Vec::new();
    let mut i: usize = 0;
    let mut offset: usize = 0;
    while i < count && offset <= entries_data.len() && 16 <= entries_data.len() - offset
        invariant
            offset == 16 * i,
            offset <= entries_data@.len(),
            i <= count,
            entries@.len() == i,
            forall|k: int|
                0 <= k < i ==> entry_decoded(
                    #[trigger] entries@[k],
                    record(entries_data@, k),
                    names_data@,
                ),
        decreases count - i,
    {
        let chunk = copy_range(entries_data, offset, offset + 16);
        assert(chunk@ == record(entries_data@, i as int));
        let h2 = read_u32(&chunk, 4);
        let name_offset: usize = if h2 == 0x7FFFFF00 {
            read_u32(&chunk, 0) as usize
        } else {
            (chunk[0] as usize) + (chunk[1] as usize) * 256
        };
        let name = read_cstring(names_data, name_offset);
        let name_lower = to_lowercase(name.as_str());
        let kind = decode_entry_kind(&chunk, name_lower.as_str());
        entries.push(RpfEntry { name, name_lower, kind });
        i = i + 1;
        offset = offset + 16;
    }
    entries
}


/// Why an RPF archive header was refused.
#[derive(Debug, Clone, Copy, PartialEq, Eq, Structural)]
pub enum RpfError {
    /// Fewer than 16 bytes from the start position.
    TooShort,
    /// The first word is not the RPF7 magic; it holds the word found.
    BadMagic(u32),
    /// The entry table and name table run past the end of the data.
    Truncated,
}

/// The archive view of the bytes from the start position on: header fields
/// at 0 (magic), 4 (entry count), 8 (name table length), 12 (encryption).
pub open spec fn header_entry_count(d: Seq<u8>) -> int {
    le_u32(d, 4)
}

pub open spec fn header_names_length(d: Seq<u8>) -> int {
    le_u32(d, 8)
}

/// Where the name table ends: header, 16 bytes per entry, then the names.
pub open spec fn tables_end(d: Seq<u8>) -> int {
    16 + 16 * header_entry_count(d) + header_names_length(d)
}

/// The outcome of reading an archive header from `d` when it fails.
pub open spec fn header_error(d: Seq<u8>) -> Option<RpfError> {
    if d.len() < 16 {
        Some(RpfError::TooShort)
    } else if le_u32(d, 0) != RPF7_MAGIC {
        Some(RpfError::BadMagic(le_u32(d, 0) as u32))
    } else if d.len() < tables_end(d) {
        Some(RpfError::Truncated)
    } else {
        None
    }
}

/// `a` is the archive described by the header at `start_pos` of `data`.
pub open spec fn archive_parsed(a: RpfArchive, data: Seq<u8>, path: Seq<char>, start_pos: int) -> bool {
    let d = data.skip(start_pos);
    let n = header_entry_count(d);
    &&& a.path@ == path
    &&& a.start_pos == start_pos
    &&& a.encryption == encryption_of(le_u32(d, 12) as u32)
    &&& entries_decoded(
        a.entries@,
        d.subrange(16, 16 + 16 * n),
        d.subrange(16 + 16 * n, tables_end(d)),
        n,
    )
}

impl RpfArchive {
    /// Parses the RPF7 header, entry table and name table found at `start_pos`
    /// of `data`. Entry and name tables are read as stored (no decryption).
    pub fn parse_from_bytes(data: &[u8], path: &str, start_pos: usize) -> (r: Result<
        Self,
        RpfError,
    >)
        requires
            start_pos <= data@.len(),
        ensures
            match r {
                Ok(a) => header_error(data@.skip(start_pos as int)) is None && archive_parsed(
                    a,
                    data@,
                    path@,
                    start_pos as int,
                ),
                Err(e) => header_error(data@.skip(start_pos as int)) == Some(e),
            },
    {
        let ghost d = data@.skip(start_pos as int);
        let avail = data.len() - start_pos;
        if avail < 16 {
            return Err(RpfError::TooShort);
        }
        let version = read_u32(data, start_pos);
        assert(le_u32(d, 0) == le_u32(data@, start_pos as int));
        if version != RPF7_MAGIC {
            return Err(RpfError::BadMagic(version));
        }
        let entry_count = read_u32(data, start_pos + 4);
        let names_length = read_u32(data, start_pos + 8);
        let encryption_raw = read_u32(data, start_pos + 12);
        assert(le_u32(d, 4) == entry_count);
        assert(le_u32(d, 8) == names_length);
        assert(le_u32(d, 12) == encryption_raw);
        let encryption = RpfEncryption::from_u32(encryption_raw);
        let entries_size: u64 = (entry_count as u64) * 16;
        let end: u64 = 16 + entries_size + (names_length as u64);
        if (avail as u64) < end {
            return Err(RpfError::Truncated);
        }
        let entries_start = start_pos + 16;
        let names_start = entries_start + entries_size as usize;
        let names_end = names_start + names_length as usize;
        let entries_data = copy_range(data, entries_start, names_start);
        let names_data = copy_range(data, names_start, names_end);
        assert(entries_data@ =~= d.subrange(16, 16 + 16 * entry_count));
        assert(names_data@ =~= d.subrange(16 + 16 * entry_count, tables_end(d)));
        let entries = parse_entries(&entries_data, &names_data, entry_count as usize);
        Ok(RpfArchive {
            path: path.to_string(),
            start_pos: start_pos as u64,
            encryption,
            entries,
        })
    }
}


/// The four little-endian bytes of `v`.
pub open spec fn le_bytes(v: int) -> Seq<u8> {
    seq![(v % 256) as u8, ((v / 256) % 256) as u8, ((v / 65536) % 256) as u8, ((v / 16777216) % 256) as u8]
}

/// The RSC7 header put in front of a resource: the resource identifier, the
/// version (top nibble of the system flags), the system flags and the graphics flags.
pub open spec fn resource_header_spec(system_flags: u32, graphics_flags: u32) -> Seq<u8> {
    le_bytes(RESOURCE_IDENT as int) + le_bytes((system_flags / 0x10000000) as int) + le_bytes(
        system_flags as int,
    ) + le_bytes(graphics_flags as int)
}

fn push_le_u32(out: &mut Vec<u8>, v: u32)
    ensures
        final(out)@ == old(out)@ + le_bytes(v as int),
{
    out.push((v % 256) as u8);
    out.push(((v / 256) % 256) as u8);
    out.push(((v / 65536) % 256) as u8);
    out.push(((v / 16777216) % 256) as u8);
    assert(out@ =~= old(out)@ + le_bytes(v as int));
}

/// The 16-byte RSC7 header for a resource with these flags.
pub fn resource_header(system_flags: u32, graphics_flags: u32) -> (h: Vec<u8>)
    ensures
        h@ == resource_header_spec(system_flags, graphics_flags),
        h@.len() == 16,
{
    let mut h: Vec<u8> = Vec::new();
    push_le_u32(&mut h, RESOURCE_IDENT);
    push_le_u32(&mut h, system_flags / 0x10000000);
    push_le_u32(&mut h, system_flags);
    push_le_u32(&mut h, graphics_flags);
    assert(h@ =~= resource_header_spec(system_flags, graphics_flags));
    h
}

/// A file stored in an archive, as stored.
pub enum RpfPayload {
    /// A binary file; `compressed` when its stored size is non-zero (the bytes are deflated).
    File { name: String, bytes: Vec<u8>, compressed: bool },
    /// A binary file whose name ends in `.rpf`: an archive held inside this one.
    Nested { name: String, bytes: Vec<u8>, compressed: bool },
    /// A resource file: its RSC7 header and its stored body (after the 16-byte stored header).
    Resource { name: String, header: Vec<u8>, body: Vec<u8> },
}

pub enum PayloadView {
    File { name: Seq<char>, bytes: Seq<u8>, compressed: bool },
    Nested { name: Seq<char>, bytes: Seq<u8>, compressed: bool },
    Resource { name: Seq<char>, header: Seq<u8>, body: Seq<u8> },
}

impl View for RpfPayload {
    type V = PayloadView;

    open spec fn view(&self) -> PayloadView {
        match self {
            RpfPayload::File { name, bytes, compressed } => PayloadView::File {
                name: name@,
                bytes: bytes@,
                compressed: *compressed,
            },
            RpfPayload::Nested { name, bytes, compressed } => PayloadView::Nested {
                name: name@,
                bytes: bytes@,
                compressed: *compressed,
            },
            RpfPayload::Resource { name, header, body } => PayloadView::Resource {
                name: name@,
                header: header@,
                body: body@,
            },
        }
    }
}

/// Where an entry's stored data begins: 512-byte blocks from the archive start.
pub open spec fn data_offset(start_pos: int, file_offset: u32) -> int {
    start_pos + file_offset * 512
}

/// What extraction reads of an entry: its lower-cased name and its kind.
pub open spec fn entry_keys(entries: Seq<RpfEntry>) -> Seq<(Seq<char>, RpfEntryKind)> {
    entries.map_values(|e: RpfEntry| (e.name_lower@, e.kind))
}

/// What `data` holds for an entry (given by its lower-cased name and kind) of
/// an archive starting at `start_pos`, or nothing: directories, empty
/// resources, and entries whose data would run past the end of `data` are skipped.
pub open spec fn payload_of(k: (Seq<char>, RpfEntryKind), start_pos: int, data: Seq<u8>) -> Option<PayloadView> {
    match k.1 {
        RpfEntryKind::BinaryFile { file_offset, file_size, uncompressed_size, .. } => {
            let off = data_offset(start_pos, file_offset);
            let size: int = if file_size == 0 {
                uncompressed_size as int
            } else {
                file_size as int
            };
            if off + size > data.len() {
                None
            } else if ends_with(k.0, ".rpf"@) {
                Some(PayloadView::Nested { name: k.0, bytes: data.subrange(off, off + size), compressed: file_size > 0 })
            } else {
                Some(PayloadView::File { name: k.0, bytes: data.subrange(off, off + size), compressed: file_size > 0 })
            }
        },
        RpfEntryKind::ResourceFile { file_offset, file_size, system_flags, graphics_flags, .. } => {
            let off = data_offset(start_pos, file_offset);
            if file_size == 0 || file_size <= 16 || off + file_size > data.len() {
                None
            } else {
                Some(
                    PayloadView::Resource {
                        name: k.0,
                        header: resource_header_spec(system_flags, graphics_flags),
                        body: data.subrange(off + 16, off + file_size),
                    },
                )
            }
        },
        RpfEntryKind::Directory { .. } => None,
    }
}

/// The payloads of the entries, in entry order.
pub open spec fn payloads(keys: Seq<(Seq<char>, RpfEntryKind)>, start_pos: int, data: Seq<u8>) -> Seq<PayloadView>
    decreases keys.len(),
{
    if keys.len() == 0 {
        seq![]
    } else {
        let rest = payloads(keys.drop_last(), start_pos, data);
        match payload_of(keys.last(), start_pos, data) {
            Some(p) => rest.push(p),
            None => rest,
        }
    }
}

/// An entry's data range, computed in machine integers, does not overflow.
pub open spec fn entry_span_fits(kind: RpfEntryKind, start_pos: int) -> bool {
    match kind {
        RpfEntryKind::BinaryFile { file_offset, file_size, uncompressed_size, .. } => {
            let size: int = if file_size == 0 {
                uncompressed_size as int
            } else {
                file_size as int
            };
            data_offset(start_pos, file_offset) + size <= usize::MAX
        },
        RpfEntryKind::ResourceFile { file_offset, file_size, .. } => file_size == 0
            || data_offset(start_pos, file_offset) + file_size <= usize::MAX,
        RpfEntryKind::Directory { .. } => true,
    }
}

pub open spec fn keys_fit(keys: Seq<(Seq<char>, RpfEntryKind)>, start_pos: int) -> bool {
    forall|i: int| 0 <= i < keys.len() ==> entry_span_fits(#[trigger] keys[i].1, start_pos)
}

pub open spec fn spans_fit(a: RpfArchive) -> bool {
    keys_fit(entry_keys(a.entries@), a.start_pos as int)
}

/// An archive read from `data` can always have its files taken out when it
/// starts at least 12 GiB below the top of the address space: entry offsets
/// reach at most 8 GiB past the archive start and sizes at most 4 GiB more.
pub proof fn lemma_parsed_archive_extractable(a: RpfArchive, data: Seq<u8>, path: Seq<char>, start_pos: int)
    requires
        archive_parsed(a, data, path, start_pos),
        0 <= start_pos,
        start_pos + 0x3_0000_0000 <= usize::MAX,
    ensures
        spans_fit(a),
{
    let d = data.skip(start_pos);
    let n = header_entry_count(d);
    let table = d.subrange(16, 16 + 16 * n);
    let keys = entry_keys(a.entries@);
    assert forall|i: int| 0 <= i < keys.len() implies entry_span_fits(#[trigger] keys[i].1, a.start_pos as int) by {
        let chunk = record(table, i);
        assert(keys[i].1 == a.entries@[i].kind);
        assert(a.entries@[i].kind == kind_of(chunk, a.entries@[i].name_lower@));
        assert(le_u24(chunk, 5) <= 0xFFFFFF);
        assert(le_u24(chunk, 2) <= 0xFFFFFF);
    }
}

/// The entry table read from the archive at the start of `d`: each entry's
/// lower-cased name and kind.
pub open spec fn entry_views(d: Seq<u8>) -> Seq<(Seq<char>, RpfEntryKind)> {
    let n = header_entry_count(d);
    let table = d.subrange(16, 16 + 16 * n);
    let names = d.subrange(16 + 16 * n, tables_end(d));
    Seq::new(
        decoded_count(table, n) as nat,
        |i: int|
            {
                let nl = unicode_lowercase(utf8_lossy(cstring_bytes(names, name_offset_of(record(table, i)))));
                (nl, kind_of(record(table, i), nl))
            },
    )
}

/// The stored files of the archive at the start of `data`, or none when no
/// archive can be read there or its entry ranges overflow.
pub open spec fn archive_payloads(data: Seq<u8>) -> Seq<PayloadView> {
    if header_error(data) is None && keys_fit(entry_views(data), 0) {
        payloads(entry_views(data), 0, data)
    } else {
        seq![]
    }
}

/// The files of the first `k` payloads of the archive at the start of `data`,
/// each nested archive replaced by its own files. (A nested archive as long as
/// the data holding it would be read again without end; `tree_ends` rules it
/// out, and the guard here only keeps the definition well-founded.)
pub open spec fn tree_from(data: Seq<u8>, k: int) -> Seq<PayloadView>
    decreases data.len(), k,
{
    if k <= 0 || k > archive_payloads(data).len() {
        seq![]
    } else {
        let p = archive_payloads(data)[k - 1];
        tree_from(data, k - 1) + match p {
            PayloadView::Nested { bytes, .. } => if bytes.len() < data.len() {
                tree_from(bytes, archive_payloads(bytes).len() as int)
            } else {
                seq![]
            },
            _ => seq![p],
        }
    }
}

/// All files of the archive at the start of `data`, nested archives opened.
pub open spec fn tree_payloads(data: Seq<u8>) -> Seq<PayloadView> {
    tree_from(data, archive_payloads(data).len() as int)
}

/// A payload with nested archives (shorter than `bound`) replaced by their files.
pub open spec fn expand_one(p: PayloadView, bound: int) -> Seq<PayloadView> {
    match p {
        PayloadView::Nested { bytes, .. } => if bytes.len() < bound {
            tree_payloads(bytes)
        } else {
            seq![]
        },
        _ => seq![p],
    }
}

pub open spec fn expand_nested(ps: Seq<PayloadView>, bound: int) -> Seq<PayloadView>
    decreases ps.len(),
{
    if ps.len() == 0 {
        seq![]
    } else {
        expand_nested(ps.drop_last(), bound) + expand_one(ps.last(), bound)
    }
}

/// Reading the first `k` payloads of the archive at the start of `data`, and
/// in turn every nested archive, comes to an end: no nested archive is as long
/// as the data holding it (such an archive would be read again and again).
pub open spec fn ends_from(data: Seq<u8>, k: int) -> bool
    decreases data.len(), k,
{
    if k <= 0 || k > archive_payloads(data).len() {
        true
    } else {
        ends_from(data, k - 1) && match archive_payloads(data)[k - 1] {
            PayloadView::Nested { bytes, .. } => if bytes.len() < data.len() {
                ends_from(bytes, archive_payloads(bytes).len() as int)
            } else {
                false
            },
            _ => true,
        }
    }
}

/// Reading the archive at the start of `data`, nested archives included, ends.
pub open spec fn tree_ends(data: Seq<u8>) -> bool {
    ends_from(data, archive_payloads(data).len() as int)
}

/// A nested archive among the payloads of data of length `bound` is shorter
/// than that data and can itself be read to the end.
pub open spec fn nested_ends(p: PayloadView, bound: int) -> bool {
    match p {
        PayloadView::Nested { bytes, .. } => bytes.len() < bound && tree_ends(bytes),
        _ => true,
    }
}

pub open spec fn payloads_end(ps: Seq<PayloadView>, bound: int) -> bool {
    forall|i: int| 0 <= i < ps.len() ==> nested_ends(#[trigger] ps[i], bound)
}

proof fn lemma_ends_from(data: Seq<u8>, k: int)
    requires
        0 <= k <= archive_payloads(data).len(),
    ensures
        ends_from(data, k) == payloads_end(archive_payloads(data).take(k), data.len() as int),
    decreases k,
{
    let ps = archive_payloads(data);
    if k > 0 {
        lemma_ends_from(data, k - 1);
        let t = ps.take(k);
        assert(t.take(k - 1) =~= ps.take(k - 1));
        assert(t[k - 1] == ps[k - 1]);
        if payloads_end(t, data.len() as int) {
            assert forall|i: int| 0 <= i < k - 1 implies nested_ends(#[trigger] ps.take(k - 1)[i], data.len() as int) by {
                assert(ps.take(k - 1)[i] == t[i]);
            }
            assert(nested_ends(t[k - 1], data.len() as int));
        }
        if ends_from(data, k) {
            assert forall|i: int| 0 <= i < k implies nested_ends(#[trigger] t[i], data.len() as int) by {
                if i < k - 1 {
                    assert(t[i] == ps.take(k - 1)[i]);
                }
            }
        }
    }
}

proof fn lemma_tree_ends(data: Seq<u8>)
    ensures
        tree_ends(data) == payloads_end(archive_payloads(data), data.len() as int),
{
    let ps = archive_payloads(data);
    lemma_ends_from(data, ps.len() as int);
    assert(ps.take(ps.len() as int) =~= ps);
}

/// Nothing that the tree extraction gives back is itself a nested archive.
proof fn lemma_tree_from_flat(data: Seq<u8>, k: int)
    ensures
        forall|i: int| 0 <= i < tree_from(data, k).len() ==> !(#[trigger] tree_from(data, k)[i] is Nested),
    decreases data.len(), k,
{
    if k > 0 && k <= archive_payloads(data).len() {
        lemma_tree_from_flat(data, k - 1);
        let p = archive_payloads(data)[k - 1];
        let left = tree_from(data, k - 1);
        let right = match p {
            PayloadView::Nested { bytes, .. } => if bytes.len() < data.len() {
                tree_from(bytes, archive_payloads(bytes).len() as int)
            } else {
                seq![]
            },
            _ => seq![p],
        };
        match p {
            PayloadView::Nested { bytes, .. } => {
                if bytes.len() < data.len() {
                    lemma_tree_from_flat(bytes, archive_payloads(bytes).len() as int);
                }
            },
            _ => {},
        }
        assert(tree_from(data, k) == left + right);
        assert forall|i: int| 0 <= i < tree_from(data, k).len() implies !(#[trigger] tree_from(data, k)[i] is Nested) by {
            if i < left.len() {
                assert(tree_from(data, k)[i] == left[i]);
            } else {
                assert(tree_from(data, k)[i] == right[i - left.len()]);
            }
        }
    }
}

proof fn lemma_expand_flat(ps: Seq<PayloadView>, bound: int)
    ensures
        forall|i: int| 0 <= i < expand_nested(ps, bound).len() ==> !(#[trigger] expand_nested(ps, bound)[i] is Nested),
    decreases ps.len(),
{
    if ps.len() > 0 {
        lemma_expand_flat(ps.drop_last(), bound);
        let left = expand_nested(ps.drop_last(), bound);
        let right = expand_one(ps.last(), bound);
        match ps.last() {
            PayloadView::Nested { bytes, .. } => {
                lemma_tree_from_flat(bytes, archive_payloads(bytes).len() as int);
            },
            _ => {},
        }
        assert forall|i: int| 0 <= i < expand_nested(ps, bound).len() implies !(#[trigger] expand_nested(ps, bound)[i] is Nested) by {
            if i < left.len() {
                assert(expand_nested(ps, bound)[i] == left[i]);
            } else {
                assert(expand_nested(ps, bound)[i] == right[i - left.len()]);
            }
        }
    }
}

proof fn lemma_tree_from_expand(data: Seq<u8>, k: int)
    requires
        0 <= k <= archive_payloads(data).len(),
    ensures
        tree_from(data, k) == expand_nested(archive_payloads(data).take(k), data.len() as int),
    decreases k,
{
    let ps = archive_payloads(data);
    if k > 0 {
        lemma_tree_from_expand(data, k - 1);
        assert(ps.take(k).drop_last() =~= ps.take(k - 1));
        assert(ps.take(k).last() == ps[k - 1]);
    } else {
        assert(ps.take(0) =~= Seq::<PayloadView>::empty());
    }
}

proof fn lemma_tree_expand(data: Seq<u8>)
    ensures
        tree_payloads(data) == expand_nested(archive_payloads(data), data.len() as int),
{
    let ps = archive_payloads(data);
    lemma_tree_from_expand(data, ps.len() as int);
    assert(ps.take(ps.len() as int) =~= ps);
}

/// The archive read from `data` has the entry table `entry_views` describes.
proof fn lemma_parsed_keys(a: RpfArchive, data: Seq<u8>, path: Seq<char>)
    requires
        archive_parsed(a, data, path, 0),
    ensures
        entry_keys(a.entries@) == entry_views(data),
{
    let d = data.skip(0);
    assert(d =~= data);
    let n = header_entry_count(d);
    let table = d.subrange(16, 16 + 16 * n);
    let names = d.subrange(16 + 16 * n, tables_end(d));
    let ev = entry_views(data);
    let ek = entry_keys(a.entries@);
    assert forall|i: int| 0 <= i < ek.len() implies ek[i] == ev[i] by {
        assert(entry_decoded(a.entries@[i], record(table, i), names));
    }
    assert(ek =~= ev);
}

pub open spec fn payload_views(v: Seq<RpfPayload>) -> Seq<PayloadView> {
    v.map_values(|p: RpfPayload| p@)
}

fn clone_string(s: &String) -> (r: String)
    ensures
        r@ == s@,
{
    s.clone()
}

fn clone_bytes(v: &Vec<u8>) -> (r: Vec<u8>)
    ensures
        r@ == v@,
{
    let r = copy_range(v, 0, v.len());
    assert(r@ =~= v@);
    r
}

fn clone_payload(p: &RpfPayload) -> (r: RpfPayload)
    ensures
        r@ == p@,
{
    match p {
        RpfPayload::File { name, bytes, compressed } => RpfPayload::File {
            name: clone_string(name),
            bytes: clone_bytes(bytes),
            compressed: *compressed,
        },
        RpfPayload::Nested { name, bytes, compressed } => RpfPayload::Nested {
            name: clone_string(name),
            bytes: clone_bytes(bytes),
            compressed: *compressed,
        },
        RpfPayload::Resource { name, header, body } => RpfPayload::Resource {
            name: clone_string(name),
            header: clone_bytes(header),
            body: clone_bytes(body),
        },
    }
}

impl RpfArchive {
    /// Whether every entry's data range can be computed without overflow, so
    /// that the entries' data may be read.
    pub fn spans_in_range(&self) -> (r: bool)
        ensures
            r == spans_fit(*self),
    {
        let ghost keys = entry_keys(self.entries@);
        let mut i: usize = 0;
        while i < self.entries.len()
            invariant
                i <= self.entries@.len(),
                keys == entry_keys(self.entries@),
                forall|k: int| 0 <= k < i ==> entry_span_fits(#[trigger] keys[k].1, self.start_pos as int),
            decreases self.entries.len() - i,
        {
            assert(keys[i as int].1 == self.entries@[i as int].kind);
            let fits = match self.entries[i].kind {
                RpfEntryKind::BinaryFile { file_offset, file_size, uncompressed_size, .. } => {
                    let size: u64 = if file_size == 0 {
                        uncompressed_size as u64
                    } else {
                        file_size as u64
                    };
                    let span: u64 = (file_offset as u64) * 512 + size;
                    span <= usize::MAX as u64 && self.start_pos <= (usize::MAX as u64) - span
                },
                RpfEntryKind::ResourceFile { file_offset, file_size, .. } => {
                    let span: u64 = (file_offset as u64) * 512 + (file_size as u64);
                    file_size == 0 || (span <= usize::MAX as u64 && self.start_pos <= (usize::MAX as u64) - span)
                },
                RpfEntryKind::Directory { .. } => true,
            };
            if !fits {
                return false;
            }
            i = i + 1;
        }
        true
    }

    /// The stored data of every file entry, in entry order. Entries whose data
    /// lies outside `data` are skipped, as are directories and empty
    /// resources. Nested archives come back as they are stored.
    pub fn stored_payloads(&self, data: &[u8]) -> (r: Vec<RpfPayload>)
        requires
            spans_fit(*self),
        ensures
            payload_views(r@) == payloads(entry_keys(self.entries@), self.start_pos as int, data@),
    {
        let mut out: Vec<RpfPayload> = Vec::new();
        let mut i: usize = 0;
        let ghost start = self.start_pos as int;
        let ghost keys = entry_keys(self.entries@);
        while i < self.entries.len()
            invariant
                i <= self.entries@.len(),
                spans_fit(*self),
                keys == entry_keys(self.entries@),
                start == self.start_pos as int,
                payload_views(out@) == payloads(keys.take(i as int), start, data@),
            decreases self.entries.len() - i,
        {
            let entry = &self.entries[i];
            assert(keys[i as int] == (entry.name_lower@, entry.kind));
            assert(entry_span_fits(keys[i as int].1, start));
            assert(keys.take(i + 1).drop_last() =~= keys.take(i as int));
            assert(keys.take(i + 1).last() == keys[i as int]);
            match entry.kind {
                RpfEntryKind::BinaryFile { file_offset, file_size, uncompressed_size, .. } => {
                    let off: u64 = self.start_pos + (file_offset as u64) * 512;
                    let size: u64 = if file_size == 0 {
                        uncompressed_size as u64
                    } else {
                        file_size as u64
                    };
                    if off + size <= data.len() as u64 {
                        let a = off as usize;
                        let b = (off + size) as usize;
                        let bytes = copy_range(data, a, b);
                        let name = clone_string(&entry.name_lower);
                        let cs = chars_of(entry.name_lower.as_str());
                        if ends_with_str(&cs, ".rpf") {
                            out.push(RpfPayload::Nested { name, bytes, compressed: file_size > 0 });
                        } else {
                            out.push(RpfPayload::File { name, bytes, compressed: file_size > 0 });
                        }
                    }
                },
                RpfEntryKind::ResourceFile { file_offset, file_size, system_flags, graphics_flags, .. } => {
                    if file_size != 0 {
                        let off: u64 = self.start_pos + (file_offset as u64) * 512;
                        let total: u64 = file_size as u64;
                        if !(total <= 16 || off + total > data.len() as u64) {
                            let a = (off + 16) as usize;
                            let b = (off + total) as usize;
                            let body = copy_range(data, a, b);
                            let header = resource_header(system_flags, graphics_flags);
                            let name = clone_string(&entry.name_lower);
                            out.push(RpfPayload::Resource { name, header, body });
                        }
                    }
                },
                RpfEntryKind::Directory { .. } => {},
            }
            i = i + 1;
            assert(payload_views(out@) =~= payloads(keys.take(i as int), start, data@));
        }
        assert(keys.take(i as int) =~= keys);
        out
    }

    /// Whether reading the nested archives of this archive comes to an end, so
    /// that `extract_all` may be called.
    pub fn nested_archives_end(&self, data: &[u8]) -> (r: bool)
        requires
            spans_fit(*self),
        ensures
            r == payloads_end(payloads(entry_keys(self.entries@), self.start_pos as int, data@), data@.len() as int),
    {
        let ps = self.stored_payloads(data);
        payloads_end_exec(&ps, data.len())
    }

    /// All files of this archive, nested archives opened (as `extract_all`),
    /// or `None` when an entry's data range overflows or a nested archive
    /// holds itself, so that reading it would never end.
    pub fn extract_checked(&self, data: &[u8]) -> (r: Option<Vec<RpfPayload>>)
        ensures
            r is None <==> !(spans_fit(*self) && payloads_end(
                payloads(entry_keys(self.entries@), self.start_pos as int, data@),
                data@.len() as int,
            )),
            r matches Some(v) ==> payload_views(v@) == expand_nested(
                payloads(entry_keys(self.entries@), self.start_pos as int, data@),
                data@.len() as int,
            ),
            r matches Some(v) ==> forall|k: int| 0 <= k < v@.len() ==> !(#[trigger] v@[k]@ is Nested),
    {
        if !self.spans_in_range() {
            return None;
        }
        if !self.nested_archives_end(data) {
            return None;
        }
        Some(self.extract_all(data))
    }

    /// Every file stored in this archive, in entry order, with each nested
    /// archive read from its stored bytes and replaced by its own files.
    /// Entries whose data lies outside `data` are skipped, as are directories,
    /// empty resources and nested data that holds no readable archive.
    pub fn extract_all(&self, data: &[u8]) -> (r: Vec<RpfPayload>)
        requires
            spans_fit(*self),
            payloads_end(payloads(entry_keys(self.entries@), self.start_pos as int, data@), data@.len() as int),
        ensures
            payload_views(r@) == expand_nested(
                payloads(entry_keys(self.entries@), self.start_pos as int, data@),
                data@.len() as int,
            ),
            forall|k: int| 0 <= k < r@.len() ==> !(#[trigger] r@[k]@ is Nested),
    {
        let ps = self.stored_payloads(data);
        let mut out: Vec<RpfPayload> = Vec::new();
        expand_into(&ps, data.len(), &mut out);
        assert(payload_views(out@) =~= expand_nested(payload_views(ps@), data@.len() as int));
        proof {
            lemma_expand_flat(payload_views(ps@), data@.len() as int);
            assert forall|k: int| 0 <= k < out@.len() implies !(#[trigger] out@[k]@ is Nested) by {
                assert(out@[k]@ == payload_views(out@)[k]);
            }
        }
        out
    }
}

/// Appends the files of `ps`, nested archives shorter than `bound` opened.
fn expand_into(ps: &Vec<RpfPayload>, bound: usize, out: &mut Vec<RpfPayload>)
    requires
        payloads_end(payload_views(ps@), bound as int),
    ensures
        payload_views(final(out)@) == payload_views(old(out)@) + expand_nested(payload_views(ps@), bound as int),
    decreases bound, 0nat,
{
    let ghost pv = payload_views(ps@);
    let ghost o = payload_views(out@);
    let mut i: usize = 0;
    while i < ps.len()
        invariant
            i <= ps@.len(),
            pv == payload_views(ps@),
            payloads_end(pv, bound as int),
            payload_views(out@) == o + expand_nested(pv.take(i as int), bound as int),
        decreases ps.len() - i,
    {
        assert(pv.take(i + 1).drop_last() =~= pv.take(i as int));
        assert(pv.take(i + 1).last() == ps@[i as int]@);
        let ghost before = payload_views(out@);
        match &ps[i] {
            RpfPayload::Nested { name, bytes, .. } => {
                assert(nested_ends(pv[i as int], bound as int));
                extract_nested_into(bytes, name.as_str(), out);
                assert(payload_views(out@) =~= before + expand_one(ps@[i as int]@, bound as int));
            },
            _ => {
                let c = clone_payload(&ps[i]);
                out.push(c);
                assert(payload_views(out@) =~= before.push(ps@[i as int]@));
                assert(expand_one(ps@[i as int]@, bound as int) =~= seq![ps@[i as int]@]);
            },
        }
        i = i + 1;
        assert(payload_views(out@) =~= o + expand_nested(pv.take(i as int), bound as int));
    }
    assert(pv.take(i as int) =~= pv);
}

/// Appends every file of the archive at the start of `data` (named `name`),
/// nested archives opened; nothing when no archive can be read there.
fn extract_nested_into(data: &[u8], name: &str, out: &mut Vec<RpfPayload>)
    requires
        tree_ends(data@),
    ensures
        payload_views(final(out)@) == payload_views(old(out)@) + tree_payloads(data@),
    decreases data@.len(), 1nat,
{
    proof {
        lemma_tree_expand(data@);
        lemma_tree_ends(data@);
    }
    let a = match RpfArchive::parse_from_bytes(data, name, 0) {
        Ok(a) => a,
        Err(_) => {
            assert(archive_payloads(data@) =~= Seq::<PayloadView>::empty());
            assert(payload_views(out@) =~= payload_views(out@) + tree_payloads(data@));
            return;
        },
    };
    proof {
        assert(data@.skip(0) =~= data@);
        lemma_parsed_keys(a, data@, name@);
    }
    if !a.spans_in_range() {
        assert(archive_payloads(data@) =~= Seq::<PayloadView>::empty());
        assert(payload_views(out@) =~= payload_views(out@) + tree_payloads(data@));
        return;
    }
    let ps = a.stored_payloads(data);
    assert(payload_views(ps@) == archive_payloads(data@));
    expand_into(&ps, data.len(), out);
}

/// Whether the nested archives among `ps` (from data of length `bound`) are
/// shorter than that data and can be read to the end.
fn payloads_end_exec(ps: &Vec<RpfPayload>, bound: usize) -> (r: bool)
    ensures
        r == payloads_end(payload_views(ps@), bound as int),
    decreases bound, 0nat,
{
    let ghost pv = payload_views(ps@);
    let mut i: usize = 0;
    while i < ps.len()
        invariant
            i <= ps@.len(),
            pv == payload_views(ps@),
            forall|j: int| 0 <= j < i ==> nested_ends(#[trigger] pv[j], bound as int),
        decreases ps.len() - i,
    {
        assert(pv[i as int] == ps@[i as int]@);
        match &ps[i] {
            RpfPayload::Nested { bytes, .. } => {
                if bytes.len() >= bound {
                    assert(!nested_ends(pv[i as int], bound as int));
                    return false;
                }
                if !tree_ends_exec(bytes) {
                    assert(!nested_ends(pv[i as int], bound as int));
                    return false;
                }
            },
            _ => {},
        }
        i = i + 1;
    }
    true
}

/// Whether reading the archive at the start of `data`, nested archives
/// included, comes to an end.
fn tree_ends_exec(data: &[u8]) -> (r: bool)
    ensures
        r == tree_ends(data@),
    decreases data@.len(), 1nat,
{
    proof {
        lemma_tree_ends(data@);
    }
    let a = match RpfArchive::parse_from_bytes(data, "", 0) {
        Ok(a) => a,
        Err(_) => {
            assert(archive_payloads(data@) =~= Seq::<PayloadView>::empty());
            return true;
        },
    };
    proof {
        assert(data@.skip(0) =~= data@);
        lemma_parsed_keys(a, data@, ""@);
    }
    if !a.spans_in_range() {
        assert(archive_payloads(data@) =~= Seq::<PayloadView>::empty());
        return true;
    }
    let ps = a.stored_payloads(data);
    assert(payload_views(ps@) == archive_payloads(data@));
    payloads_end_exec(&ps, data.len())
}

/// The bytes of a resource file as written out: its RSC7 header, then its body.
pub fn resource_bytes(header: &[u8], body: &[u8]) -> (r: Vec<u8>)
    ensures
        r@ == header@ + body@,
{
    let mut r = copy_range(header, 0, header.len());
    let mut i: usize = 0;
    assert(r@ =~= header@ + body@.take(0));
    while i < body.len()
        invariant
            i <= body@.len(),
            r@ == header@ + body@.take(i as int),
        decreases body.len() - i,
    {
        r.push(body[i]);
        i = i + 1;
        assert(r@ =~= header@ + body@.take(i as int));
    }
    assert(body@.take(i as int) =~= body@);
    r
}

/// The RPF7 magic as stored: its four little-endian bytes.
pub open spec fn magic_bytes() -> Seq<u8> {
    seq![0x37u8, 0x46u8, 0x50u8, 0x52u8]
}

/// `data[i..i + 4]` is the RPF7 magic.
pub open spec fn magic_at(data: Seq<u8>, i: int) -> bool {
    0 <= i && i + 4 <= data.len() && data.subrange(i, i + 4) == magic_bytes()
}

/// Scans from `i` in steps of 4, jumping 512 bytes past each magic found.
pub open spec fn magic_scan(data: Seq<u8>, i: int) -> Seq<int>
    decreases data.len() + 512 - i,
{
    if i < 0 || i + 4 > data.len() {
        seq![]
    } else if magic_at(data, i) {
        seq![i] + magic_scan(data, i + 512)
    } else {
        magic_scan(data, i + 4)
    }
}

/// Every offset the scan reports holds the magic, lies at or after `i`, and
/// each lies at least 512 bytes after the one before.
pub proof fn lemma_magic_scan(data: Seq<u8>, i: int)
    requires
        0 <= i,
    ensures
        forall|k: int| 0 <= k < magic_scan(data, i).len() ==> magic_at(data, #[trigger] magic_scan(data, i)[k]),
        forall|k: int| 0 <= k < magic_scan(data, i).len() ==> i <= #[trigger] magic_scan(data, i)[k],
        forall|k: int|
            0 < k < magic_scan(data, i).len() ==> magic_scan(data, i)[k - 1] + 512
                <= #[trigger] magic_scan(data, i)[k],
    decreases data.len() + 512 - i,
{
    if i + 4 > data.len() {
    } else if magic_at(data, i) {
        lemma_magic_scan(data, i + 512);
        let rest = magic_scan(data, i + 512);
        assert forall|k: int| 0 < k < magic_scan(data, i).len() implies magic_scan(data, i)[k - 1] + 512
            <= #[trigger] magic_scan(data, i)[k] by {
            assert(magic_scan(data, i)[k] == rest[k - 1]);
            if k > 1 {
                assert(magic_scan(data, i)[k - 1] == rest[k - 2]);
            }
        }
        assert(magic_scan(data, i) == seq![i] + rest);
        assert forall|k: int| 0 <= k < magic_scan(data, i).len() implies magic_at(data, #[trigger] magic_scan(data, i)[k]) && i <= magic_scan(data, i)[k] by {
            if k > 0 {
                assert(magic_scan(data, i)[k] == rest[k - 1]);
            } else {
                assert(magic_scan(data, i)[0] == i);
            }
        }
    } else {
        lemma_magic_scan(data, i + 4);
        assert(magic_scan(data, i) == magic_scan(data, i + 4));
    }
}

/// Find all .rpf files nested within extracted data and return their byte ranges.
pub fn find_nested_rpfs(data: &[u8], start: usize) -> (r: Vec<usize>)
    requires
        start <= usize::MAX - 4,
        data@.len() + 512 <= usize::MAX,
    ensures
        r@.map_values(|o: usize| o as int) == magic_scan(data@, start as int),
        forall|k: int| 0 <= k < r@.len() ==> magic_at(data@, #[trigger] r@[k] as int),
        forall|k: int| 0 <= k < r@.len() ==> start <= #[trigger] r@[k],
        forall|k: int| 0 < k < r@.len() ==> r@[k - 1] + 512 <= #[trigger] r@[k],
{
    let mut offsets: Vec<usize> = Vec::new();
    let mut i = start;
    while i + 4 <= data.len()
        invariant
            start <= i,
            i <= usize::MAX - 4,
            data@.len() + 512 <= usize::MAX,
            offsets@.map_values(|o: usize| o as int) + magic_scan(data@, i as int) == magic_scan(
                data@,
                start as int,
            ),
        decreases data.len() + 512 - i,
    {
        let ghost before = offsets@.map_values(|o: usize| o as int);
        if data[i] == 0x37 && data[i + 1] == 0x46 && data[i + 2] == 0x50 && data[i + 3] == 0x52 {
            assert(data@.subrange(i as int, i + 4) =~= magic_bytes());
            offsets.push(i);
            assert(offsets@.map_values(|o: usize| o as int) =~= before.push(i as int));
            assert(before.push(i as int) + magic_scan(data@, i + 512) =~= before + magic_scan(
                data@,
                i as int,
            ));
            i = i + 512;
        } else {
            assert(!magic_at(data@, i as int)) by {
                if magic_at(data@, i as int) {
                    assert(data@.subrange(i as int, i + 4)[0] == 0x37);
                    assert(data@.subrange(i as int, i + 4)[1] == 0x46);
                    assert(data@.subrange(i as int, i + 4)[2] == 0x50);
                    assert(data@.subrange(i as int, i + 4)[3] == 0x52);
                }
            }
            i = i + 4;
        }
    }
    assert(magic_scan(data@, i as int) =~= Seq::<int>::empty());
    assert(offsets@.map_values(|o: usize| o as int) =~= magic_scan(data@, start as int));
    proof {
        lemma_magic_scan(data@, start as int);
        let ov = offsets@.map_values(|o: usize| o as int);
        assert forall|k: int| 0 <= k < offsets@.len() implies magic_at(data@, #[trigger] offsets@[k] as int) by {
            assert(ov[k] == offsets@[k] as int);
        }
        assert forall|k: int| 0 <= k < offsets@.len() implies start <= #[trigger] offsets@[k] by {
            assert(ov[k] == offsets@[k] as int);
        }
        assert forall|k: int| 0 < k < offsets@.len() implies offsets@[k - 1] + 512 <= #[trigger] offsets@[k] by {
            assert(ov[k] == offsets@[k] as int);
            assert(ov[k - 1] == offsets@[k - 1] as int);
        }
    }
    offsets
}

} // verus!
