//! What a reader finds in the ZIP records.

use vstd::prelude::*;
use vstd::utf8::encode_utf8;

use crate::zip_format::{
    be32, cdfh_extra, cdfh_record, eocd_size_is_record_length, le16, le32, le64, lemma_crc_len,
    loc_extra, loc_record, over_u32, stored_fields, CentralDirectoryFileHeader,
    EndOfCentralDirectory64, LocModel, LocalFileHeader, ZipSerialize, CDFH_MAGIC, CRC32,
    EOCD64_LOCATOR_MAGIC, EOCD64_MAGIC, EOCD_MAGIC, LOC_MAGIC,
};

verus! {

/// The number that little-endian bytes stand for.
pub open spec fn le_value(bytes: Seq<u8>) -> nat
    decreases bytes.len(),
{
    if bytes.len() == 0 {
        0
    } else {
        bytes[0] as nat + 256 * le_value(bytes.skip(1))
    }
}

/// The number in the `len` bytes at `at`.
pub open spec fn field(record: Seq<u8>, at: int, len: int) -> nat {
    le_value(record.subrange(at, at + len))
}

/// A number reads back from its two little-endian bytes.
pub proof fn le16_reads_back(x: u16)
    ensures
        le_value(le16(x)) == x,
{
    let b = le16(x);
    assert(b.skip(1) =~= seq![b[1]]);
    assert(seq![b[1]].skip(1) =~= Seq::empty());
    reveal_with_fuel(le_value, 3);
}

/// A number reads back from its four little-endian bytes.
pub proof fn le32_reads_back(x: u32)
    ensures
        le_value(le32(x)) == x,
{
    let b = le32(x);
    let b1 = seq![b[1], b[2], b[3]];
    let b2 = seq![b[2], b[3]];
    let b3 = seq![b[3]];
    assert(b.skip(1) =~= b1);
    assert(b1.skip(1) =~= b2);
    assert(b2.skip(1) =~= b3);
    assert(b3.skip(1) =~= Seq::empty());
    assert(le_value(b3) == b[3]) by {
        reveal_with_fuel(le_value, 2);
    }
    assert(le_value(b2) == b[2] + 256 * le_value(b3));
    assert(le_value(b1) == b[1] + 256 * le_value(b2));
    assert(le_value(b) == b[0] + 256 * le_value(b1));
}

/// The value of a concatenation, lower bytes first.
proof fn lemma_le_value_four(low: Seq<u8>, high: Seq<u8>)
    requires
        low.len() == 4,
    ensures
        le_value(low + high) == le_value(low) + 0x1_0000_0000 * le_value(high),
{
    let s = low + high;
    let s1 = s.skip(1);
    let s2 = s1.skip(1);
    let s3 = s2.skip(1);
    let l1 = low.skip(1);
    let l2 = l1.skip(1);
    let l3 = l2.skip(1);
    assert(s3.skip(1) =~= high);
    assert(l3.skip(1) =~= Seq::empty());
    assert(le_value(l3.skip(1)) == 0);
    assert(le_value(s3) == s3[0] + 256 * le_value(high));
    assert(le_value(s2) == s2[0] + 256 * le_value(s3));
    assert(le_value(s1) == s1[0] + 256 * le_value(s2));
    assert(le_value(s) == s[0] + 256 * le_value(s1));
    assert(le_value(l3) == l3[0] + 256 * le_value(l3.skip(1)));
    assert(le_value(l2) == l2[0] + 256 * le_value(l3));
    assert(le_value(l1) == l1[0] + 256 * le_value(l2));
    assert(le_value(low) == low[0] + 256 * le_value(l1));
}

/// A number reads back from its eight little-endian bytes.
pub proof fn le64_reads_back(x: u64)
    ensures
        le_value(le64(x)) == x,
{
    let low = (x % 0x1_0000_0000) as u32;
    let high = (x / 0x1_0000_0000) as u32;
    le32_reads_back(low);
    le32_reads_back(high);
    lemma_le_value_four(le32(low), le32(high));
}

// ---------- Local file header ----------

/// The file size that a local header declares: that of the four-byte field, or, where this is
/// all ones, that of the ZIP64 extra field behind the name.
pub open spec fn loc_declared_size(record: Seq<u8>) -> nat {
    let size = field(record, 22, 4);
    if size == u32::MAX {
        field(record, 30 + field(record, 26, 2) as int + 4, 8)
    } else {
        size
    }
}

/// The compressed size that a local header declares. The ZIP64 extra field has it behind the file
/// size.
pub open spec fn loc_declared_packed_size(record: Seq<u8>) -> nat {
    let size = field(record, 18, 4);
    if size == u32::MAX {
        field(record, 30 + field(record, 26, 2) as int + 12, 8)
    } else {
        size
    }
}

/// A local header reads back: its checksum, its name, its file size and its compressed size, which
/// is the file size since entries are stored. A size whose four-byte
/// form is all ones would be taken for a reference to an extra field that is not there.
pub proof fn loc_reads_back(loc: LocModel, crc: Seq<u8>)
    requires
        crc.len() == 4,
        encode_utf8(loc.name).len() <= u16::MAX,
        loc.file_size <= u64::MAX,
        loc.file_size != u32::MAX,
    ensures
        ({
            let record = loc_record(loc, crc);
            let name = encode_utf8(loc.name);
            &&& record.take(4) == be32(LOC_MAGIC)
            &&& record.subrange(14, 18) == crc
            &&& field(record, 26, 2) == name.len()
            &&& record.subrange(30, (30 + name.len()) as int) == name
            &&& loc_declared_size(record) == loc.file_size
            &&& loc_declared_packed_size(record) == loc.file_size
        }),
{
    loc_fields(loc, crc);
    lemma_signature(LOC_MAGIC, 3, 4);
}

// ---------- Central directory file header ----------

/// The file size that a central directory header declares.
pub open spec fn cdfh_declared_size(record: Seq<u8>) -> nat {
    let size = field(record, 24, 4);
    if size == u32::MAX {
        field(record, 46 + field(record, 28, 2) as int + 4, 8)
    } else {
        size
    }
}

/// The compressed size that a central directory header declares. The ZIP64 extra field has it
/// behind the file size.
pub open spec fn cdfh_declared_packed_size(record: Seq<u8>) -> nat {
    let size = field(record, 20, 4);
    if size == u32::MAX {
        field(record, 46 + field(record, 28, 2) as int + 12, 8)
    } else {
        size
    }
}

/// The offset of the local header that a central directory header declares.
pub open spec fn cdfh_declared_offset(record: Seq<u8>) -> nat {
    let offset = field(record, 42, 4);
    if offset == u32::MAX {
        field(record, 46 + field(record, 28, 2) as int + 20, 8)
    } else {
        offset
    }
}

/// A central directory header reads back: its checksum, its name, its file size, its compressed
/// size, which is the file size since entries are stored, and the offset of its local header. Values whose four-byte form is all ones would be taken for references to an
/// extra field.
pub proof fn cdfh_reads_back(loc: LocModel, crc: Seq<u8>)
    requires
        crc.len() == 4,
        encode_utf8(loc.name).len() <= u16::MAX,
        loc.file_size <= u64::MAX,
        loc.offset <= u64::MAX,
        loc.file_size != u32::MAX || loc.offset > u32::MAX,
        loc.offset != u32::MAX,
    ensures
        ({
            let record = cdfh_record(loc, crc);
            let name = encode_utf8(loc.name);
            &&& record.take(4) == be32(CDFH_MAGIC)
            &&& record.subrange(16, 20) == crc
            &&& field(record, 28, 2) == name.len()
            &&& record.subrange(46, (46 + name.len()) as int) == name
            &&& cdfh_declared_size(record) == loc.file_size
            &&& cdfh_declared_packed_size(record) == loc.file_size
            &&& cdfh_declared_offset(record) == loc.offset
        }),
{
    cdfh_fields(loc, crc);
    lemma_signature(CDFH_MAGIC, 1, 2);
}

// ---------- Closing records ----------

/// Where the classic end record starts: it is the last one.
pub open spec fn classic_at(records: Seq<u8>) -> int {
    records.len() - 22
}

/// Whether the classic record refers to the ZIP64 record: its entry count is all ones.
pub open spec fn refers_to_zip64(records: Seq<u8>) -> bool {
    field(records, classic_at(records) + 10, 2) == u16::MAX
}

/// Where a reader finds the ZIP64 record: the locator, which stands directly before the classic
/// record, names its offset in the archive; the closing records start at `start`.
pub open spec fn zip64_at(records: Seq<u8>, start: nat) -> int {
    field(records, classic_at(records) - 20 + 8, 8) - start
}

/// The number of entries, the length and the offset of the central directory as the closing
/// records declare them.
pub open spec fn declared_directory(records: Seq<u8>, start: nat) -> (nat, nat, nat) {
    if refers_to_zip64(records) {
        let at = zip64_at(records, start);
        (field(records, at + 32, 8), field(records, at + 40, 8), field(records, at + 48, 8))
    } else {
        let at = classic_at(records);
        (field(records, at + 10, 2), field(records, at + 12, 4), field(records, at + 16, 4))
    }
}

/// The closing records read back, where they stand directly behind the central directory: the
/// number of entries, and where the central directory is. A count whose two-byte form is all ones
/// would be taken for a reference to a ZIP64 record that is not there.
pub proof fn eocd_reads_back(eocd: EndOfCentralDirectory64)
    requires
        eocd.record_count != u16::MAX || eocd.is_zip64(),
        eocd.eocd64_offset == eocd.central_directory_offset + eocd.central_directory_size,
    ensures
        declared_directory(eocd.zip_bytes(), eocd.eocd64_offset as nat) == (
            eocd.record_count as nat,
            eocd.central_directory_size as nat,
            eocd.central_directory_offset as nat,
        ),
{
    eocd_size_is_record_length(eocd);
    if eocd.is_zip64() {
        let head = eocd.eocd64_record();
        let locator = eocd.eocd64_locator();
        let tail = eocd.eocd_record(true);
        lemma_zip64_fields(eocd);
        lemma_locator_fields(eocd);
        lemma_referring_field(eocd);
        lemma_subrange_of_join(head, locator, tail, 32, 40);
        lemma_subrange_of_join(head, locator, tail, 40, 48);
        lemma_subrange_of_join(head, locator, tail, 48, 56);
        lemma_subrange_of_join(head, locator, tail, 64, 72);
        lemma_subrange_of_join(head, locator, tail, 86, 88);
        le16_reads_back(u16::MAX);
        le64_reads_back(eocd.eocd64_offset as u64);
        le64_reads_back(eocd.record_count as u64);
        le64_reads_back(eocd.central_directory_size as u64);
        le64_reads_back(eocd.central_directory_offset as u64);
    } else {
        lemma_classic_fields(eocd);
        le16_reads_back(eocd.record_count as u16);
        le32_reads_back(eocd.central_directory_size as u32);
        le32_reads_back(eocd.central_directory_offset as u32);
    }
}

/// A range that lies in one of three joined pieces.
proof fn lemma_subrange_of_join(a: Seq<u8>, b: Seq<u8>, c: Seq<u8>, i: int, j: int)
    requires
        0 <= i <= j <= a.len() + b.len() + c.len(),
    ensures
        j <= a.len() ==> (a + b + c).subrange(i, j) == a.subrange(i, j),
        a.len() <= i && j <= a.len() + b.len() ==> (a + b + c).subrange(i, j) == b.subrange(
            i - a.len(),
            j - a.len(),
        ),
        a.len() + b.len() <= i ==> (a + b + c).subrange(i, j) == c.subrange(
            i - a.len() - b.len(),
            j - a.len() - b.len(),
        ),
{
    let s = (a + b + c).subrange(i, j);
    if j <= a.len() {
        assert(s =~= a.subrange(i, j));
    }
    if a.len() <= i && j <= a.len() + b.len() {
        assert(s =~= b.subrange(i - a.len(), j - a.len()));
    }
    if a.len() + b.len() <= i {
        assert(s =~= c.subrange(i - a.len() - b.len(), j - a.len() - b.len()));
    }
}

#[verifier::rlimit(30)]
proof fn lemma_zip64_fields(eocd: EndOfCentralDirectory64)
    ensures
        eocd.eocd64_record().len() == 56,
        eocd.eocd64_record().subrange(32, 40) == le64(eocd.record_count as u64),
        eocd.eocd64_record().subrange(40, 48) == le64(eocd.central_directory_size as u64),
        eocd.eocd64_record().subrange(48, 56) == le64(eocd.central_directory_offset as u64),
{
    let r = eocd.eocd64_record();
    assert(r.subrange(32, 40) =~= le64(eocd.record_count as u64));
    assert(r.subrange(40, 48) =~= le64(eocd.central_directory_size as u64));
    assert(r.subrange(48, 56) =~= le64(eocd.central_directory_offset as u64));
}

proof fn lemma_locator_fields(eocd: EndOfCentralDirectory64)
    ensures
        eocd.eocd64_locator().len() == 20,
        eocd.eocd64_locator().subrange(8, 16) == le64(eocd.eocd64_offset as u64),
{
    assert(eocd.eocd64_locator().subrange(8, 16) =~= le64(eocd.eocd64_offset as u64));
}

proof fn lemma_referring_field(eocd: EndOfCentralDirectory64)
    ensures
        eocd.eocd_record(true).len() == 22,
        eocd.eocd_record(true).subrange(10, 12) == le16(u16::MAX),
{
    assert(eocd.eocd_record(true).subrange(10, 12) =~= le16(u16::MAX));
}

#[verifier::rlimit(30)]
proof fn lemma_classic_fields(eocd: EndOfCentralDirectory64)
    ensures
        eocd.eocd_record(false).len() == 22,
        eocd.eocd_record(false).subrange(10, 12) == le16(eocd.record_count as u16),
        eocd.eocd_record(false).subrange(12, 16) == le32(eocd.central_directory_size as u32),
        eocd.eocd_record(false).subrange(16, 20) == le32(eocd.central_directory_offset as u32),
{
    let r = eocd.eocd_record(false);
    assert(r.subrange(10, 12) =~= le16(eocd.record_count as u16));
    assert(r.subrange(12, 16) =~= le32(eocd.central_directory_size as u32));
    assert(r.subrange(16, 20) =~= le32(eocd.central_directory_offset as u32));
}

// ---------- All fields ----------

/// The fields that are the same in every header: extraction needs version 1.0, no flag is set, the
/// entry is stored, and time and date are zero.
pub open spec fn is_plainly_stored(fields: Seq<u8>) -> bool {
    &&& fields.len() == 10
    &&& field(fields, 0, 2) == 10
    &&& field(fields, 2, 2) == 0
    &&& field(fields, 4, 2) == 0
    &&& field(fields, 6, 2) == 0
    &&& field(fields, 8, 2) == 0
}

proof fn lemma_stored_fields()
    ensures
        is_plainly_stored(stored_fields()),
{
    let f = stored_fields();
    assert(f.subrange(0, 2) =~= le16(10));
    assert(f.subrange(2, 4) =~= le16(0));
    assert(f.subrange(4, 6) =~= le16(0));
    assert(f.subrange(6, 8) =~= le16(0));
    assert(f.subrange(8, 10) =~= le16(0));
    le16_reads_back(10);
    le16_reads_back(0);
}

/// A signature starts with the letters `PK`.
proof fn lemma_signature(magic: u32, low: u8, high: u8)
    requires
        magic == 0x504B_0000 + 0x100 * low + high,
    ensures
        be32(magic) == seq![0x50u8, 0x4B, low, high],
{
    assert(be32(magic) =~= seq![0x50u8, 0x4B, low, high]);
}

/// Every field of a local header. Two four-byte fields have the file size, stored and extracted,
/// and nothing follows the name; only where the size does not fit them they are all ones, and an
/// extra field behind the name has both.
#[verifier::spinoff_prover]
#[verifier::rlimit(30)]
pub proof fn loc_fields(loc: LocModel, crc: Seq<u8>)
    requires
        crc.len() == 4,
        encode_utf8(loc.name).len() <= u16::MAX,
        loc.file_size <= u64::MAX,
    ensures
        ({
            let record = loc_record(loc, crc);
            let name = encode_utf8(loc.name);
            let extra = 30 + name.len() as int;
            &&& record.take(4) == seq![0x50u8, 0x4B, 3, 4]
            &&& is_plainly_stored(record.subrange(4, 14))
            &&& record.subrange(14, 18) == crc
            &&& field(record, 26, 2) == name.len()
            &&& field(record, 28, 2) == record.len() - extra
            &&& record.subrange(30, extra) == name
            &&& if loc.file_size <= 0xFFFF_FFFF {
                &&& record.len() == extra
                &&& field(record, 18, 4) == loc.file_size
                &&& field(record, 22, 4) == loc.file_size
            } else {
                &&& record.len() == extra + 20
                &&& field(record, 18, 4) == 0xFFFF_FFFF
                &&& field(record, 22, 4) == 0xFFFF_FFFF
                &&& field(record, extra, 2) == 1
                &&& field(record, extra + 2, 2) == 16
                &&& field(record, extra + 4, 8) == loc.file_size
                &&& field(record, extra + 12, 8) == loc.file_size
            }
        }),
{
    let record = loc_record(loc, crc);
    let name = encode_utf8(loc.name);
    let extra = 30 + name.len() as int;
    let big = over_u32(loc.file_size);
    let size32: u32 = if big {
        u32::MAX
    } else {
        loc.file_size as u32
    };
    let extra_len: u16 = if big {
        20
    } else {
        0
    };
    lemma_stored_fields();
    lemma_signature(LOC_MAGIC, 3, 4);
    assert(record.take(4) =~= be32(LOC_MAGIC));
    assert(record.subrange(4, 14) =~= stored_fields());
    assert(record.subrange(14, 18) =~= crc);
    assert(record.subrange(18, 22) =~= le32(size32));
    assert(record.subrange(22, 26) =~= le32(size32));
    assert(record.subrange(26, 28) =~= le16(name.len() as u16));
    assert(record.subrange(28, 30) =~= le16(extra_len));
    assert(record.subrange(30, extra) =~= name);
    le16_reads_back(name.len() as u16);
    le16_reads_back(extra_len);
    le32_reads_back(size32);
    if big {
        let size = loc.file_size as u64;
        let e = loc_extra(loc);
        assert(record.skip(extra) =~= e);
        assert(record.subrange(extra, extra + 2) =~= le16(1));
        assert(record.subrange(extra + 2, extra + 4) =~= le16(16));
        assert(record.subrange(extra + 4, extra + 12) =~= le64(size));
        assert(record.subrange(extra + 12, extra + 20) =~= le64(size));
        le16_reads_back(1);
        le16_reads_back(16);
        le64_reads_back(size);
    }
}

/// The fixed fields of a central directory header, up to the sizes.
#[verifier::spinoff_prover]
#[verifier::rlimit(30)]
proof fn lemma_cdfh_head(loc: LocModel, crc: Seq<u8>)
    requires
        crc.len() == 4,
    ensures
        ({
            let record = cdfh_record(loc, crc);
            &&& record.take(4) == seq![0x50u8, 0x4B, 1, 2]
            &&& field(record, 4, 2) == 10
            &&& is_plainly_stored(record.subrange(6, 16))
            &&& record.subrange(16, 20) == crc
            &&& field(record, 32, 2) == 0
            &&& field(record, 34, 2) == 0
            &&& field(record, 36, 2) == 0
            &&& field(record, 38, 4) == 0
        }),
{
    let record = cdfh_record(loc, crc);
    lemma_stored_fields();
    lemma_signature(CDFH_MAGIC, 1, 2);
    assert(record.take(4) =~= be32(CDFH_MAGIC));
    assert(record.subrange(4, 6) =~= le16(10));
    assert(record.subrange(6, 16) =~= stored_fields());
    assert(record.subrange(16, 20) =~= crc);
    assert(record.subrange(32, 34) =~= le16(0));
    assert(record.subrange(34, 36) =~= le16(0));
    assert(record.subrange(36, 38) =~= le16(0));
    assert(record.subrange(38, 42) =~= le32(0));
    le16_reads_back(10);
    le16_reads_back(0);
    le32_reads_back(0);
}

/// What the four-byte size fields of a central directory header hold.
spec fn cdfh_size32(loc: LocModel) -> u32 {
    if loc.offset > 0xFFFF_FFFF || loc.file_size > 0xFFFF_FFFF {
        u32::MAX
    } else {
        loc.file_size as u32
    }
}

/// What the four-byte offset field of a central directory header holds.
spec fn cdfh_offset32(loc: LocModel) -> u32 {
    if loc.offset > 0xFFFF_FFFF {
        u32::MAX
    } else {
        loc.offset as u32
    }
}

/// The bytes of a central directory header that depend on its entry.
spec fn has_cdfh_pieces(loc: LocModel, record: Seq<u8>) -> bool {
    &&& record.subrange(20, 24) == le32(cdfh_size32(loc))
    &&& record.subrange(24, 28) == le32(cdfh_size32(loc))
    &&& record.subrange(28, 30) == le16(encode_utf8(loc.name).len() as u16)
    &&& record.subrange(30, 32) == le16(cdfh_extra(loc).len() as u16)
    &&& record.subrange(42, 46) == le32(cdfh_offset32(loc))
}

#[verifier::spinoff_prover]
#[verifier::rlimit(30)]
proof fn lemma_cdfh_pieces(loc: LocModel, crc: Seq<u8>)
    requires
        crc.len() == 4,
    ensures
        has_cdfh_pieces(loc, cdfh_record(loc, crc)),
{
    let record = cdfh_record(loc, crc);
    assert(record.subrange(20, 24) =~= le32(cdfh_size32(loc)));
    assert(record.subrange(24, 28) =~= le32(cdfh_size32(loc)));
    assert(record.subrange(28, 30) =~= le16(encode_utf8(loc.name).len() as u16));
    assert(record.subrange(30, 32) =~= le16(cdfh_extra(loc).len() as u16));
    assert(record.subrange(42, 46) =~= le32(cdfh_offset32(loc)));
}

#[verifier::rlimit(30)]
proof fn lemma_cdfh_name(loc: LocModel, crc: Seq<u8>)
    requires
        crc.len() == 4,
    ensures
        ({
            let record = cdfh_record(loc, crc);
            let at = 46 + encode_utf8(loc.name).len() as int;
            &&& record.len() == at + cdfh_extra(loc).len()
            &&& record.subrange(46, at) == encode_utf8(loc.name)
            &&& record.skip(at) == cdfh_extra(loc)
        }),
{
    let record = cdfh_record(loc, crc);
    let at = 46 + encode_utf8(loc.name).len() as int;
    assert(record.subrange(46, at) =~= encode_utf8(loc.name));
    assert(record.skip(at) =~= cdfh_extra(loc));
}

/// The sizes, the lengths and the offset in a central directory header.
proof fn lemma_cdfh_sizes(loc: LocModel, record: Seq<u8>)
    requires
        encode_utf8(loc.name).len() <= u16::MAX,
        has_cdfh_pieces(loc, record),
        record.len() == 46 + encode_utf8(loc.name).len() + cdfh_extra(loc).len(),
    ensures
        field(record, 20, 4) == cdfh_size32(loc),
        field(record, 24, 4) == cdfh_size32(loc),
        field(record, 42, 4) == cdfh_offset32(loc),
        field(record, 28, 2) == encode_utf8(loc.name).len(),
        field(record, 30, 2) == record.len() - 46 - encode_utf8(loc.name).len(),
{
    assert(cdfh_extra(loc).len() <= 28);
    le16_reads_back(encode_utf8(loc.name).len() as u16);
    le16_reads_back(cdfh_extra(loc).len() as u16);
    le32_reads_back(cdfh_size32(loc));
    le32_reads_back(cdfh_offset32(loc));
}

/// A field behind the start of a record.
proof fn lemma_field_of_tail(record: Seq<u8>, start: int, at: int, len: int)
    requires
        0 <= start,
        0 <= at,
        0 <= len,
        start + at + len <= record.len(),
    ensures
        field(record, start + at, len) == field(record.skip(start), at, len),
{
    assert(record.subrange(start + at, start + at + len) =~= record.skip(start).subrange(
        at,
        at + len,
    ));
}

/// Every field of a central directory header. The version is 1.0, and there is no comment, no
/// other disk and no attribute. Two four-byte fields have the file size, stored and extracted, and
/// one the offset of the local header; only where one of the values does not fit, an extra field
/// behind the name has both sizes, and the offset where that is what does not fit.
pub proof fn cdfh_fields(loc: LocModel, crc: Seq<u8>)
    requires
        crc.len() == 4,
        encode_utf8(loc.name).len() <= u16::MAX,
        loc.file_size <= u64::MAX,
        loc.offset <= u64::MAX,
    ensures
        ({
            let record = cdfh_record(loc, crc);
            let name = encode_utf8(loc.name);
            let extra = 46 + name.len() as int;
            let far = loc.offset > 0xFFFF_FFFF;
            let big = loc.file_size > 0xFFFF_FFFF;
            &&& record.take(4) == seq![0x50u8, 0x4B, 1, 2]
            &&& field(record, 4, 2) == 10
            &&& is_plainly_stored(record.subrange(6, 16))
            &&& record.subrange(16, 20) == crc
            &&& field(record, 28, 2) == name.len()
            &&& field(record, 30, 2) == record.len() - extra
            &&& field(record, 32, 2) == 0
            &&& field(record, 34, 2) == 0
            &&& field(record, 36, 2) == 0
            &&& field(record, 38, 4) == 0
            &&& record.subrange(46, extra) == name
            &&& !far && !big ==> {
                &&& record.len() == extra
                &&& field(record, 20, 4) == loc.file_size
                &&& field(record, 24, 4) == loc.file_size
                &&& field(record, 42, 4) == loc.offset
            }
            &&& far || big ==> {
                &&& record.len() == extra + if far {
                    28int
                } else {
                    20
                }
                &&& field(record, 20, 4) == 0xFFFF_FFFF
                &&& field(record, 24, 4) == 0xFFFF_FFFF
                &&& field(record, extra, 2) == 1
                &&& field(record, extra + 2, 2) == record.len() - extra - 4
                &&& field(record, extra + 4, 8) == loc.file_size
                &&& field(record, extra + 12, 8) == loc.file_size
            }
            &&& !far ==> field(record, 42, 4) == loc.offset
            &&& far ==> {
                &&& field(record, 42, 4) == 0xFFFF_FFFF
                &&& field(record, extra + 20, 8) == loc.offset
            }
        }),
{
    lemma_cdfh_head(loc, crc);
    lemma_cdfh_pieces(loc, crc);
    lemma_cdfh_name(loc, crc);
    lemma_cdfh_sizes(loc, cdfh_record(loc, crc));
    lemma_cdfh_tail(loc, cdfh_record(loc, crc), 46 + encode_utf8(loc.name).len() as int);
}

/// The extra field of a central directory header, as it stands at the end of the record.
proof fn lemma_cdfh_tail(loc: LocModel, record: Seq<u8>, at: int)
    requires
        0 <= at <= record.len(),
        record.skip(at) == cdfh_extra(loc),
        loc.file_size <= u64::MAX,
        loc.offset <= u64::MAX,
    ensures
        ({
            let far = loc.offset > 0xFFFF_FFFF;
            let big = loc.file_size > 0xFFFF_FFFF;
            &&& !far && !big ==> record.len() == at
            &&& far || big ==> {
                &&& record.len() == at + if far {
                    28int
                } else {
                    20
                }
                &&& field(record, at, 2) == 1
                &&& field(record, at + 2, 2) == record.len() - at - 4
                &&& field(record, at + 4, 8) == loc.file_size
                &&& field(record, at + 12, 8) == loc.file_size
            }
            &&& far ==> field(record, at + 20, 8) == loc.offset
        }),
{
    let far = over_u32(loc.offset);
    let e = cdfh_extra(loc);
    assert(record.len() == at + e.len());
    if far || over_u32(loc.file_size) {
        let size = loc.file_size as u64;
        let len: u16 = if far {
            24
        } else {
            16
        };
        assert(e.subrange(0, 2) =~= le16(1));
        assert(e.subrange(2, 4) =~= le16(len));
        assert(e.subrange(4, 12) =~= le64(size));
        assert(e.subrange(12, 20) =~= le64(size));
        le16_reads_back(1);
        le16_reads_back(len);
        le64_reads_back(size);
        lemma_field_of_tail(record, at, 0, 2);
        lemma_field_of_tail(record, at, 2, 2);
        lemma_field_of_tail(record, at, 4, 8);
        lemma_field_of_tail(record, at, 12, 8);
    }
    if far {
        assert(e.subrange(20, 28) =~= le64(loc.offset as u64));
        le64_reads_back(loc.offset as u64);
        lemma_field_of_tail(record, at, 20, 8);
    }
}

/// Every field of the classic end record, where all values fit it: it is the only closing record.
#[verifier::spinoff_prover]
#[verifier::rlimit(30)]
pub proof fn classic_end_fields(eocd: EndOfCentralDirectory64)
    requires
        eocd.record_count <= 0xFFFF,
        eocd.central_directory_size <= 0xFFFF_FFFF,
        eocd.central_directory_offset <= 0xFFFF_FFFF,
    ensures
        ({
            let record = eocd.zip_bytes();
            &&& record.len() == 22
            &&& record.take(4) == seq![0x50u8, 0x4B, 5, 6]
            &&& field(record, 4, 2) == 0
            &&& field(record, 6, 2) == 0
            &&& field(record, 8, 2) == eocd.record_count
            &&& field(record, 10, 2) == eocd.record_count
            &&& field(record, 12, 4) == eocd.central_directory_size
            &&& field(record, 16, 4) == eocd.central_directory_offset
            &&& field(record, 20, 2) == 0
        }),
{
    let record = eocd.eocd_record(false);
    lemma_signature(EOCD_MAGIC, 5, 6);
    assert(record.take(4) =~= be32(EOCD_MAGIC));
    assert(record.subrange(4, 6) =~= le16(0));
    assert(record.subrange(6, 8) =~= le16(0));
    assert(record.subrange(8, 10) =~= le16(eocd.record_count as u16));
    assert(record.subrange(10, 12) =~= le16(eocd.record_count as u16));
    assert(record.subrange(12, 16) =~= le32(eocd.central_directory_size as u32));
    assert(record.subrange(16, 20) =~= le32(eocd.central_directory_offset as u32));
    assert(record.subrange(20, 22) =~= le16(0));
    le16_reads_back(0);
    le16_reads_back(eocd.record_count as u16);
    le32_reads_back(eocd.central_directory_size as u32);
    le32_reads_back(eocd.central_directory_offset as u32);
}

/// Every field of the closing records where a value does not fit the classic one: the ZIP64 record
/// has the values, the locator says where that record is, and the classic record is all ones.
pub proof fn zip64_end_fields(eocd: EndOfCentralDirectory64)
    requires
        eocd.record_count > 0xFFFF || eocd.central_directory_size > 0xFFFF_FFFF
            || eocd.central_directory_offset > 0xFFFF_FFFF,
    ensures
        ({
            let records = eocd.zip_bytes();
            let end = records.subrange(0, 56);
            let locator = records.subrange(56, 76);
            let classic = records.subrange(76, 98);
            &&& records.len() == 98
            &&& end.take(4) == seq![0x50u8, 0x4B, 6, 6]
            &&& field(end, 4, 8) == 44
            &&& field(end, 12, 2) == 10
            &&& field(end, 14, 2) == 10
            &&& field(end, 16, 4) == 0
            &&& field(end, 20, 4) == 0
            &&& field(end, 24, 8) == eocd.record_count
            &&& field(end, 32, 8) == eocd.record_count
            &&& field(end, 40, 8) == eocd.central_directory_size
            &&& field(end, 48, 8) == eocd.central_directory_offset
            &&& locator.take(4) == seq![0x50u8, 0x4B, 6, 7]
            &&& field(locator, 4, 4) == 0
            &&& field(locator, 8, 8) == eocd.eocd64_offset
            &&& field(locator, 16, 4) == 0
            &&& classic.take(4) == seq![0x50u8, 0x4B, 5, 6]
            &&& field(classic, 4, 2) == 0xFFFF
            &&& field(classic, 6, 2) == 0xFFFF
            &&& field(classic, 8, 2) == 0xFFFF
            &&& field(classic, 10, 2) == 0xFFFF
            &&& field(classic, 12, 4) == 0xFFFF_FFFF
            &&& field(classic, 16, 4) == 0xFFFF_FFFF
            &&& field(classic, 20, 2) == 0
        }),
{
    let (end, locator, classic) = (
        eocd.eocd64_record(),
        eocd.eocd64_locator(),
        eocd.eocd_record(true),
    );
    lemma_zip64_end_record(eocd);
    lemma_zip64_locator(eocd);
    lemma_all_ones_record(eocd);
    lemma_subrange_of_join(end, locator, classic, 0, 56);
    lemma_subrange_of_join(end, locator, classic, 56, 76);
    lemma_subrange_of_join(end, locator, classic, 76, 98);
    assert(end.subrange(0, 56) =~= end);
    assert(locator.subrange(0, 20) =~= locator);
    assert(classic.subrange(0, 22) =~= classic);
}

#[verifier::spinoff_prover]
#[verifier::rlimit(30)]
proof fn lemma_zip64_end_record(eocd: EndOfCentralDirectory64)
    ensures
        ({
            let end = eocd.eocd64_record();
            &&& end.len() == 56
            &&& end.take(4) == seq![0x50u8, 0x4B, 6, 6]
            &&& field(end, 4, 8) == 44
            &&& field(end, 12, 2) == 10
            &&& field(end, 14, 2) == 10
            &&& field(end, 16, 4) == 0
            &&& field(end, 20, 4) == 0
            &&& field(end, 24, 8) == eocd.record_count
            &&& field(end, 32, 8) == eocd.record_count
            &&& field(end, 40, 8) == eocd.central_directory_size
            &&& field(end, 48, 8) == eocd.central_directory_offset
        }),
{
    let end = eocd.eocd64_record();
    lemma_signature(EOCD64_MAGIC, 6, 6);
    lemma_zip64_fields(eocd);
    assert(end.take(4) =~= be32(EOCD64_MAGIC));
    assert(end.subrange(4, 12) =~= le64(44));
    assert(end.subrange(12, 14) =~= le16(10));
    assert(end.subrange(14, 16) =~= le16(10));
    assert(end.subrange(16, 20) =~= le32(0));
    assert(end.subrange(20, 24) =~= le32(0));
    assert(end.subrange(24, 32) =~= le64(eocd.record_count as u64));
    le16_reads_back(10);
    le32_reads_back(0);
    le64_reads_back(44);
    le64_reads_back(eocd.record_count as u64);
    le64_reads_back(eocd.central_directory_size as u64);
    le64_reads_back(eocd.central_directory_offset as u64);
}

proof fn lemma_zip64_locator(eocd: EndOfCentralDirectory64)
    ensures
        ({
            let locator = eocd.eocd64_locator();
            &&& locator.len() == 20
            &&& locator.take(4) == seq![0x50u8, 0x4B, 6, 7]
            &&& field(locator, 4, 4) == 0
            &&& field(locator, 8, 8) == eocd.eocd64_offset
            &&& field(locator, 16, 4) == 0
        }),
{
    let locator = eocd.eocd64_locator();
    lemma_signature(EOCD64_LOCATOR_MAGIC, 6, 7);
    lemma_locator_fields(eocd);
    assert(locator.take(4) =~= be32(EOCD64_LOCATOR_MAGIC));
    assert(locator.subrange(4, 8) =~= le32(0));
    assert(locator.subrange(16, 20) =~= le32(0));
    le32_reads_back(0);
    le64_reads_back(eocd.eocd64_offset as u64);
}

#[verifier::spinoff_prover]
#[verifier::rlimit(30)]
proof fn lemma_all_ones_record(eocd: EndOfCentralDirectory64)
    ensures
        ({
            let classic = eocd.eocd_record(true);
            &&& classic.len() == 22
            &&& classic.take(4) == seq![0x50u8, 0x4B, 5, 6]
            &&& field(classic, 4, 2) == 0xFFFF
            &&& field(classic, 6, 2) == 0xFFFF
            &&& field(classic, 8, 2) == 0xFFFF
            &&& field(classic, 10, 2) == 0xFFFF
            &&& field(classic, 12, 4) == 0xFFFF_FFFF
            &&& field(classic, 16, 4) == 0xFFFF_FFFF
            &&& field(classic, 20, 2) == 0
        }),
{
    let classic = eocd.eocd_record(true);
    lemma_signature(EOCD_MAGIC, 5, 6);
    assert(classic.take(4) =~= be32(EOCD_MAGIC));
    assert(classic.subrange(4, 6) =~= le16(u16::MAX));
    assert(classic.subrange(6, 8) =~= le16(u16::MAX));
    assert(classic.subrange(8, 10) =~= le16(u16::MAX));
    assert(classic.subrange(10, 12) =~= le16(u16::MAX));
    assert(classic.subrange(12, 16) =~= le32(u32::MAX));
    assert(classic.subrange(16, 20) =~= le32(u32::MAX));
    assert(classic.subrange(20, 22) =~= le16(0));
    le16_reads_back(0);
    le16_reads_back(u16::MAX);
    le32_reads_back(u32::MAX);
}

/// Integers are little-endian and take as many bytes as their type.
pub proof fn integers_read_back(a: u8, b: u16, c: u32, d: u64)
    ensures
        a.zip_bytes().len() == 1 && le_value(a.zip_bytes()) == a,
        b.zip_bytes().len() == 2 && le_value(b.zip_bytes()) == b,
        c.zip_bytes().len() == 4 && le_value(c.zip_bytes()) == c,
        d.zip_bytes().len() == 8 && le_value(d.zip_bytes()) == d,
{
    assert(a.zip_bytes().skip(1) =~= Seq::empty());
    reveal_with_fuel(le_value, 2);
    le16_reads_back(b);
    le32_reads_back(c);
    le64_reads_back(d);
}

/// A dumped local header reads back, and so does the central directory header that is made of it.
pub proof fn dumped_headers_read_back(
    loc: LocalFileHeader<CRC32>,
    cdfh: CentralDirectoryFileHeader,
)
    requires
        encode_utf8(loc@.name).len() <= u16::MAX,
        loc@.file_size <= u64::MAX,
        loc@.file_size != u32::MAX,
        loc@.offset <= u64::MAX,
        loc@.offset != u32::MAX,
        cdfh@ == loc@,
        cdfh.crc() == loc.crc(),
    ensures
        ({
            let record = loc.zip_bytes();
            let name = encode_utf8(loc@.name);
            &&& record.take(4) == seq![0x50u8, 0x4B, 3, 4]
            &&& record.subrange(14, 18) == loc.crc()@
            &&& record.subrange(30, 30 + name.len() as int) == name
            &&& loc_declared_size(record) == loc@.file_size
            &&& loc_declared_packed_size(record) == loc@.file_size
        }),
        ({
            let record = cdfh.zip_bytes();
            let name = encode_utf8(loc@.name);
            &&& record.take(4) == seq![0x50u8, 0x4B, 1, 2]
            &&& record.subrange(16, 20) == loc.crc()@
            &&& record.subrange(46, 46 + name.len() as int) == name
            &&& cdfh_declared_size(record) == loc@.file_size
            &&& cdfh_declared_packed_size(record) == loc@.file_size
            &&& cdfh_declared_offset(record) == loc@.offset
        }),
{
    lemma_crc_len(loc.crc());
    loc_fields(loc@, loc.crc()@);
    cdfh_fields(loc@, loc.crc()@);
}

} // verus!
