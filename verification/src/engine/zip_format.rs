//! ZIP records of the engine's entries.

use vstd::prelude::*;
use vstd::utf8::encode_utf8;

use crate::byte_sink::lemma_offer_fits;
use crate::byte_sink::ByteSink;
use crate::zip_format::{
    cdfh_record, cdfh_size_is_record_length, eocd_size_is_record_length, le32, loc_record, loc_size,
    loc_size_is_record_length, write_cdfh, write_loc, EndOfCentralDirectory64, LocModel,
    ZipSerialize, CRC32,
};
use crate::zip_reading::{
    cdfh_declared_offset, cdfh_declared_packed_size, cdfh_declared_size, cdfh_reads_back, field,
    le32_reads_back, loc_declared_packed_size, loc_declared_size, loc_reads_back,
};

verus! {

/// Everything a ZIP record says about one entry.
#[derive(Debug, Clone)]
pub struct EntryMeta {
    pub name: String,
    pub size: u64,
    pub crc: u32,
    pub local_header_offset: u64,
}

impl EntryMeta {
    pub open spec fn loc(&self) -> LocModel {
        LocModel {
            offset: self.local_header_offset as nat,
            name: self.name@,
            file_size: self.size as nat,
        }
    }

    /// The entry's local header as the archive holds it.
    pub open spec fn header(&self) -> Seq<u8> {
        loc_record(self.loc(), le32(self.crc))
    }

    /// The entry's central directory record.
    pub open spec fn directory_record(&self) -> Seq<u8> {
        cdfh_record(self.loc(), le32(self.crc))
    }
}

/// The bytes that an entry takes in the archive: its header and its body.
pub open spec fn entry_len(name: Seq<char>, size: nat) -> nat {
    loc_size(size, encode_utf8(name).len()) + size
}

/// The bytes that an entry takes in the archive: its local header and its body.
pub fn entry_total_len(name: &str, size: u64) -> (n: u64)
    requires
        entry_len(name@, size as nat) <= u64::MAX,
    ensures
        n == entry_len(name@, size as nat),
{
    let name_len: u64 = name.as_bytes().len() as u64;
    if size > u32::MAX as u64 {
        50 + name_len + size
    } else {
        30 + name_len + size
    }
}

/// The local file header of an entry.
pub fn local_header(entry: &EntryMeta) -> (header: Vec<u8>)
    requires
        entry.loc().size() <= usize::MAX,
    ensures
        header@ == entry.header(),
        header@.len() == entry.loc().size(),
{
    let mut header: Vec<u8> = Vec::new();
    let crc = CRC32::from_u32(entry.crc);
    proof {
        loc_size_is_record_length(entry.loc(), le32(entry.crc));
        lemma_offer_fits(header.state(), entry.header());
    }
    let _ = write_loc(entry.name.as_str(), crc, entry.size, Ghost(entry.loc()), &mut header);
    header
}

/// The central directory file header of an entry.
pub fn central_dir_entry(entry: &EntryMeta) -> (record: Vec<u8>)
    requires
        entry.directory_record().len() <= usize::MAX,
    ensures
        record@ == entry.directory_record(),
{
    let mut record: Vec<u8> = Vec::new();
    let crc = CRC32::from_u32(entry.crc);
    proof {
        cdfh_size_is_record_length(entry.loc(), le32(entry.crc));
        lemma_offer_fits(record.state(), entry.directory_record());
    }
    let _ = write_cdfh(
        entry.local_header_offset,
        entry.name.as_str(),
        crc,
        entry.size,
        &mut record,
    );
    record
}

/// The closing records of an archive with `count` entries whose central
/// directory takes `cd_size` bytes from `cd_offset` on.
pub fn end_records(count: u64, cd_offset: u64, cd_size: u64) -> (records: Vec<u8>)
    requires
        count <= usize::MAX,
        cd_offset + cd_size <= usize::MAX,
    ensures
        records@ == (EndOfCentralDirectory64 {
            record_count: count as usize,
            central_directory_size: cd_size as usize,
            central_directory_offset: cd_offset as usize,
            eocd64_offset: (cd_offset + cd_size) as usize,
        }).zip_bytes(),
{
    let mut records: Vec<u8> = Vec::new();
    let end = EndOfCentralDirectory64 {
        record_count: count as usize,
        central_directory_size: cd_size as usize,
        central_directory_offset: cd_offset as usize,
        eocd64_offset: (cd_offset + cd_size) as usize,
    };
    proof {
        eocd_size_is_record_length(end);
        lemma_offer_fits(records.state(), end.zip_bytes());
    }
    let _ = end.dump(&mut records);
    records
}

// ---------- Laws ----------

/// An entry takes its local header and its body: 30 bytes, the name, the body, and 20 bytes more
/// where the size does not fit four bytes.
pub proof fn entry_takes_header_and_body(entry: EntryMeta)
    ensures
        entry_len(entry.name@, entry.size as nat) == entry.header().len() + entry.size,
        entry.header().len() == 30 + encode_utf8(entry.name@).len() + if entry.size
            <= 0xFFFF_FFFF {
            0int
        } else {
            20
        },
{
    loc_size_is_record_length(entry.loc(), le32(entry.crc));
}

/// The records of an entry read back: both have the entry's checksum, name and size, the latter
/// twice since the entry is stored, and the directory record has the offset of the local header.
pub proof fn entry_records_read_back(entry: EntryMeta)
    requires
        encode_utf8(entry.name@).len() <= u16::MAX,
        entry.size != u32::MAX,
        entry.local_header_offset != u32::MAX,
    ensures
        ({
            let name = encode_utf8(entry.name@);
            let header = entry.header();
            let record = entry.directory_record();
            &&& field(header, 14, 4) == entry.crc
            &&& header.subrange(30, 30 + name.len() as int) == name
            &&& loc_declared_size(header) == entry.size
            &&& loc_declared_packed_size(header) == entry.size
            &&& field(record, 16, 4) == entry.crc
            &&& record.subrange(46, 46 + name.len() as int) == name
            &&& cdfh_declared_size(record) == entry.size
            &&& cdfh_declared_packed_size(record) == entry.size
            &&& cdfh_declared_offset(record) == entry.local_header_offset
        }),
{
    loc_reads_back(entry.loc(), le32(entry.crc));
    cdfh_reads_back(entry.loc(), le32(entry.crc));
    le32_reads_back(entry.crc);
}

} // verus!
