//! ZIP records and their exact serialised form.

use base64::Engine;
use vstd::prelude::*;
use vstd::utf8::encode_utf8;

use crate::byte_sink::{lemma_offer_twice, ByteSink, SinkState};
use crate::error::{Base64Error, Error};

verus! {

// ---------- Integers ----------

/// Little-endian bytes of a `u16`.
pub open spec fn le16(x: u16) -> Seq<u8> {
    seq![(x % 256) as u8, (x / 256) as u8]
}

/// Little-endian bytes of a `u32`.
pub open spec fn le32(x: u32) -> Seq<u8> {
    seq![
        (x % 0x100) as u8,
        (x / 0x100 % 0x100) as u8,
        (x / 0x1_0000 % 0x100) as u8,
        (x / 0x100_0000) as u8,
    ]
}

/// Big-endian bytes of a `u32`.
pub open spec fn be32(x: u32) -> Seq<u8> {
    le32(x).reverse()
}

/// Little-endian bytes of a `u64`.
pub open spec fn le64(x: u64) -> Seq<u8> {
    le32((x % 0x1_0000_0000) as u32) + le32((x / 0x1_0000_0000) as u32)
}

/// Serialises a value as raw ZIP bytes into a target, returning how many bytes
/// the target accepted. Integers are little-endian.
pub trait ZipSerialize {
    /// The value's serialised form.
    spec fn zip_bytes(&self) -> Seq<u8>;

    fn dump<S: ByteSink>(&self, buf: &mut S) -> (r: Result<usize, Error>)
        requires
            self.zip_bytes().len() <= usize::MAX,
        ensures
            r matches Ok(n) && n == old(buf).state().accepts(self.zip_bytes().len()),
            final(buf).state() == old(buf).state().offer(self.zip_bytes()),
    ;
}

impl ZipSerialize for u8 {
    open spec fn zip_bytes(&self) -> Seq<u8> {
        seq![*self]
    }

    fn dump<S: ByteSink>(&self, buf: &mut S) -> (r: Result<usize, Error>) {
        let bytes: [u8; 1] = [*self];
        assert(bytes@ =~= self.zip_bytes());
        Ok(buf.write(bytes.as_slice()))
    }
}

impl ZipSerialize for u16 {
    open spec fn zip_bytes(&self) -> Seq<u8> {
        le16(*self)
    }

    fn dump<S: ByteSink>(&self, buf: &mut S) -> (r: Result<usize, Error>) {
        let x: u16 = *self;
        let bytes: [u8; 2] = [(x % 256) as u8, (x / 256) as u8];
        assert(bytes@ =~= le16(x));
        Ok(buf.write(bytes.as_slice()))
    }
}

/// The little-endian bytes of `x`.
fn u32_to_le(x: u32) -> (bytes: [u8; 4])
    ensures
        bytes@ == le32(x),
{
    let bytes: [u8; 4] = [
        (x % 0x100) as u8,
        (x / 0x100 % 0x100) as u8,
        (x / 0x1_0000 % 0x100) as u8,
        (x / 0x100_0000) as u8,
    ];
    assert(bytes@ =~= le32(x));
    bytes
}

impl ZipSerialize for u32 {
    open spec fn zip_bytes(&self) -> Seq<u8> {
        le32(*self)
    }

    fn dump<S: ByteSink>(&self, buf: &mut S) -> (r: Result<usize, Error>) {
        let bytes = u32_to_le(*self);
        Ok(buf.write(bytes.as_slice()))
    }
}

impl ZipSerialize for u64 {
    open spec fn zip_bytes(&self) -> Seq<u8> {
        le64(*self)
    }

    fn dump<S: ByteSink>(&self, buf: &mut S) -> (r: Result<usize, Error>) {
        let x: u64 = *self;
        let lo = u32_to_le((x % 0x1_0000_0000) as u32);
        let hi = u32_to_le((x / 0x1_0000_0000) as u32);
        let bytes: [u8; 8] = [lo[0], lo[1], lo[2], lo[3], hi[0], hi[1], hi[2], hi[3]];
        assert(bytes@ =~= le64(x));
        Ok(buf.write(bytes.as_slice()))
    }
}

impl ZipSerialize for &[u8] {
    open spec fn zip_bytes(&self) -> Seq<u8> {
        self@
    }

    fn dump<S: ByteSink>(&self, buf: &mut S) -> (r: Result<usize, Error>) {
        Ok(buf.write(self))
    }
}

/// A ZIP record signature, written big-endian so that the bytes read `PK..`.
#[derive(Debug, Clone, Copy)]
struct Magic(u32);

impl ZipSerialize for Magic {
    closed spec fn zip_bytes(&self) -> Seq<u8> {
        be32(self.0)
    }

    fn dump<S: ByteSink>(&self, buf: &mut S) -> (r: Result<usize, Error>) {
        let le = u32_to_le(self.0);
        let bytes: [u8; 4] = [le[3], le[2], le[1], le[0]];
        assert(bytes@ =~= be32(self.0));
        Ok(buf.write(bytes.as_slice()))
    }
}

/// Appends one field of a record. `start` is the target before the record and
/// `done` what the record has offered so far; `written` counts what was accepted.
fn put<T: ZipSerialize, S: ByteSink>(
    field: T,
    buf: &mut S,
    written: &mut usize,
    done: &mut Ghost<Seq<u8>>,
    Ghost(start): Ghost<SinkState>,
) -> (r: Result<(), Error>)
    requires
        old(buf).state() == start.offer(old(done)@),
        *old(written) == start.accepts(old(done)@.len()),
        old(done)@.len() + field.zip_bytes().len() <= usize::MAX,
    ensures
        r is Ok,
        final(done)@ == old(done)@ + field.zip_bytes(),
        final(buf).state() == start.offer(final(done)@),
        *final(written) == start.accepts(final(done)@.len()),
{
    proof {
        lemma_offer_twice(start, done@, field.zip_bytes());
    }
    let n: usize = field.dump(buf)?;
    *written = *written + n;
    proof {
        *done = Ghost(done@ + field.zip_bytes());
    }
    Ok(())
}

// ---------- CRC-32 ----------

/// Symbol number `v` of the standard base64 alphabet.
pub open spec fn base64_symbol(v: int) -> char {
    if v < 26 {
        (65 + v) as char
    } else if v < 52 {
        (97 + v - 26) as char
    } else if v < 62 {
        (48 + v - 52) as char
    } else if v == 62 {
        '+'
    } else {
        '/'
    }
}

/// The standard, padded base64 text of four bytes.
pub open spec fn base64_of_four(b: Seq<u8>) -> Seq<char> {
    seq![
        base64_symbol(b[0] as int / 4),
        base64_symbol(b[0] as int % 4 * 16 + b[1] as int / 16),
        base64_symbol(b[1] as int % 16 * 4 + b[2] as int / 64),
        base64_symbol(b[2] as int % 64),
        base64_symbol(b[3] as int / 4),
        base64_symbol(b[3] as int % 4 * 16),
        '=',
        '=',
    ]
}

/// What `base64`'s standard engine leaves in a zeroed four-byte buffer when it
/// decodes the text `s` into it, or why it does not.
pub uninterp spec fn base64_into_four(s: Seq<char>) -> Result<Seq<u8>, Base64Error>;

/// A decoding outcome over the view of its bytes.
pub open spec fn four_bytes(r: Result<[u8; 4], Base64Error>) -> Result<Seq<u8>, Base64Error> {
    match r {
        Ok(b) => Ok(b@),
        Err(e) => Err(e),
    }
}

/// If `s` is the standard text of four bytes, the outcome is those bytes.
pub open spec fn undoes_standard_encoding(
    s: Seq<char>,
    outcome: Result<Seq<u8>, Base64Error>,
) -> bool {
    forall|b: Seq<u8>|
        b.len() == 4 && s == #[trigger] base64_of_four(b) ==> outcome == Ok::<Seq<u8>, Base64Error>(
            b,
        )
}

/// `Engine::decode_slice` of `base64::prelude::BASE64_STANDARD`, with a zeroed
/// four-byte buffer as output. The contract says that the outcome depends on
/// the text alone, and that the standard text of four bytes decodes to them.
#[verifier::external_body]
fn decode_into_four(s: &str) -> (r: Result<[u8; 4], Base64Error>)
    ensures
        four_bytes(r) == base64_into_four(s@),
        undoes_standard_encoding(s@, four_bytes(r)),
{
    let mut bytes = [0u8; 4];
    match base64::prelude::BASE64_STANDARD.decode_slice(s, &mut bytes) {
        Ok(_) => Ok(bytes),
        Err(base64::DecodeSliceError::OutputSliceTooSmall) => Err(Base64Error::OutputTooSmall),
        Err(base64::DecodeSliceError::DecodeError(e)) => Err(match e {
            base64::DecodeError::InvalidByte(i, b) => Base64Error::InvalidByte(i, b),
            base64::DecodeError::InvalidLength(n) => Base64Error::InvalidLength(n),
            base64::DecodeError::InvalidLastSymbol(i, b) => Base64Error::InvalidLastSymbol(i, b),
            base64::DecodeError::InvalidPadding => Base64Error::InvalidPadding,
        }),
    }
}

/// A CRC-32 checksum in the little-endian form that ZIP records hold.
#[derive(Debug, Clone, Copy)]
pub struct CRC32([u8; 4]);

impl View for CRC32 {
    type V = Seq<u8>;

    closed spec fn view(&self) -> Seq<u8> {
        self.0@
    }
}

impl Default for CRC32 {
    fn default() -> (crc: Self)
        ensures
            crc@ == seq![0u8, 0, 0, 0],
    {
        let crc = CRC32([0, 0, 0, 0]);
        assert(crc@ =~= seq![0u8, 0, 0, 0]);
        crc
    }
}

impl CRC32 {
    /// Parses the base64 text of a big-endian CRC-32, the form S3 reports.
    pub fn from_str(s: &str) -> (r: Result<CRC32, Error>)
        ensures
            match base64_into_four(s@) {
                Ok(b) => r matches Ok(crc) && crc@ == b.reverse(),
                Err(e) => r == Err::<CRC32, Error>(Error::Crc32Parse(e)),
            },
            forall|x: u32| s@ == base64_of_four(#[trigger] be32(x)) ==> (r matches Ok(crc)
                && crc@ == le32(x)),
    {
        match decode_into_four(s) {
            Ok(bytes) => {
                let crc = CRC32::from_be_bytes(bytes);
                proof {
                    assert forall|x: u32| s@ == base64_of_four(#[trigger] be32(x)) implies crc@
                        == le32(x) by {
                        assert(le32(x).reverse().reverse() =~= le32(x));
                    }
                }
                Ok(crc)
            },
            Err(e) => Err(Error::Crc32Parse(e)),
        }
    }

    /// The checksum with the given value.
    pub fn from_u32(x: u32) -> (crc: CRC32)
        ensures
            crc@ == le32(x),
    {
        CRC32(u32_to_le(x))
    }

    /// The checksum whose little-endian bytes are given.
    pub fn from_le_bytes(bytes: [u8; 4]) -> (crc: CRC32)
        ensures
            crc@ == bytes@,
    {
        CRC32(bytes)
    }

    /// The little-endian bytes.
    pub fn to_le_bytes(&self) -> (bytes: [u8; 4])
        ensures
            bytes@ == self@,
    {
        self.0
    }

    /// The checksum whose big-endian bytes are given.
    pub fn from_be_bytes(bytes: [u8; 4]) -> (crc: CRC32)
        ensures
            crc@ == bytes@.reverse(),
            crc@.len() == 4,
    {
        let crc = CRC32([bytes[3], bytes[2], bytes[1], bytes[0]]);
        assert(crc@ =~= bytes@.reverse());
        crc
    }
}

impl ZipSerialize for CRC32 {
    open spec fn zip_bytes(&self) -> Seq<u8> {
        self@
    }

    fn dump<S: ByteSink>(&self, buf: &mut S) -> (r: Result<usize, Error>) {
        Ok(buf.write(self.0.as_slice()))
    }
}

/// A checksum has four bytes.
pub proof fn lemma_crc_len(crc: CRC32)
    ensures
        crc@.len() == 4,
{
}

// ---------- Local file header ----------

/// Minimum version needed to extract (1.0).
pub const MIN_VER: u16 = 10;

pub const GENERAL_PURPOSE_BIG_FLAG: u16 = 0;

/// Stored (uncompressed).
pub const COMPRESSION_METHOD: u16 = 0;

pub const FILE_LAST_MOD_TIME: u16 = 0;

pub const FILE_LAST_MOD_DATE: u16 = 0;

/// Local file header signature (`PK\x03\x04`).
pub const LOC_MAGIC: u32 = 0x504B_0304;

/// Fixed bytes of a local file header, without the name and the extra field.
pub const BASE_LOC_LENGTH: usize = 30;

/// Size of the ZIP64 extra field of a file larger than a `u32` can say.
pub const LOC_ZIP64EXT_LENGTH: usize = 20;

/// Typestate marker: whether a header's CRC-32 is filled in.
pub trait CRCStatus {

}

/// The CRC-32 is not known yet.
#[derive(Debug)]
pub struct NoCRC;

impl CRCStatus for NoCRC {

}

impl CRCStatus for CRC32 {

}

/// What a local file header says, apart from the checksum.
#[verifier::ext_equal]
pub struct LocModel {
    /// Where the header stands in the archive.
    pub offset: nat,
    pub name: Seq<char>,
    pub file_size: nat,
}

impl LocModel {
    /// The header's serialised length.
    pub open spec fn size(self) -> nat {
        loc_size(self.file_size, encode_utf8(self.name).len())
    }
}

/// Whether `x` does not fit a four-byte field.
pub open spec fn over_u32(x: nat) -> bool {
    x > u32::MAX
}

/// A four-byte field: the value, or all ones when the real value is in the extra field.
pub open spec fn capped32(x: nat, extra: bool) -> Seq<u8> {
    le32(
        if extra {
            u32::MAX
        } else {
            x as u32
        },
    )
}

/// Length of the local file header of a file of `file_size` bytes whose name
/// takes `name_len` bytes.
pub open spec fn loc_size(file_size: nat, name_len: nat) -> nat {
    30 + name_len + if over_u32(file_size) {
        20nat
    } else {
        0
    }
}

/// Version, flags, method, time and date: the fields that are the same for
/// every stored entry.
pub open spec fn stored_fields() -> Seq<u8> {
    le16(MIN_VER) + le16(GENERAL_PURPOSE_BIG_FLAG) + le16(COMPRESSION_METHOD) + le16(
        FILE_LAST_MOD_TIME,
    ) + le16(FILE_LAST_MOD_DATE)
}

/// A local file header as the archive holds it.
pub open spec fn loc_record(loc: LocModel, crc: Seq<u8>) -> Seq<u8> {
    let big = over_u32(loc.file_size);
    let name = encode_utf8(loc.name);
    be32(LOC_MAGIC) + stored_fields() + crc + capped32(loc.file_size, big) + capped32(
        loc.file_size,
        big,
    ) + le16(name.len() as u16) + le16(
        if big {
            20
        } else {
            0
        },
    ) + name + loc_extra(loc)
}

/// The ZIP64 extra field of a local file header: the real sizes, where four
/// bytes are too few.
pub open spec fn loc_extra(loc: LocModel) -> Seq<u8> {
    if over_u32(loc.file_size) {
        le16(1) + le16(16) + le64(loc.file_size as u64) + le64(loc.file_size as u64)
    } else {
        Seq::empty()
    }
}

/// ZIP local file header (LOC).
///
/// It is made with an unknown CRC-32 while the archive is laid out, and gets
/// the checksum through [`set_crc`](LocalFileHeader::set_crc). Only then can it
/// be serialised.
#[derive(Debug)]
pub struct LocalFileHeader<C: CRCStatus> {
    offset: usize,
    name: String,
    crc32: C,
    file_size: usize,
}

impl<C: CRCStatus> View for LocalFileHeader<C> {
    type V = LocModel;

    closed spec fn view(&self) -> LocModel {
        LocModel {
            offset: self.offset as nat,
            name: self.name@,
            file_size: self.file_size as nat,
        }
    }
}

impl<C: CRCStatus> LocalFileHeader<C> {
    /// The checksum, or its absence.
    pub closed spec fn crc(&self) -> C {
        self.crc32
    }

    /// The serialised byte size of this header.
    pub fn size(&self) -> (n: usize)
        requires
            self@.size() <= usize::MAX,
        ensures
            n == self@.size(),
    {
        Self::predict_size(self.file_size, self.name.as_str().as_bytes().len())
    }

    pub fn offset(&self) -> (n: usize)
        ensures
            n == self@.offset,
    {
        self.offset
    }

    pub fn name(&self) -> (name: &str)
        ensures
            name@ == self@.name,
    {
        self.name.as_str()
    }

    pub fn file_size(&self) -> (n: usize)
        ensures
            n == self@.file_size,
    {
        self.file_size
    }

    /// The size of a header that was not made yet.
    pub fn predict_size(file_size: usize, name_len: usize) -> (n: usize)
        requires
            loc_size(file_size as nat, name_len as nat) <= usize::MAX,
        ensures
            n == loc_size(file_size as nat, name_len as nat),
    {
        if file_size as u64 > u32::MAX as u64 {
            BASE_LOC_LENGTH + LOC_ZIP64EXT_LENGTH + name_len
        } else {
            BASE_LOC_LENGTH + name_len
        }
    }
}

impl LocalFileHeader<NoCRC> {
    /// A header at the given archive offset, with the CRC-32 not known yet.
    pub fn new(offset: usize, name: String, size: usize) -> (h: Self)
        ensures
            h@ == (LocModel { offset: offset as nat, name: name@, file_size: size as nat }),
    {
        LocalFileHeader { offset, name, crc32: NoCRC, file_size: size }
    }

    /// Fills in the CRC-32.
    pub fn set_crc(self, crc32: CRC32) -> (h: LocalFileHeader<CRC32>)
        ensures
            h@ == self@,
            h.crc() == crc32,
    {
        LocalFileHeader { offset: self.offset, name: self.name, crc32, file_size: self.file_size }
    }
}

impl LocalFileHeader<CRC32> {
    pub fn crc32(&self) -> (crc: CRC32)
        ensures
            crc == self.crc(),
    {
        self.crc32
    }
}

/// Writes a local file header.
pub(crate) fn write_loc<S: ByteSink>(
    name: &str,
    crc32: CRC32,
    file_size: u64,
    Ghost(loc): Ghost<LocModel>,
    buf: &mut S,
) -> (r: Result<usize, Error>)
    requires
        loc.name == name@,
        loc.file_size == file_size,
        loc.size() <= usize::MAX,
    ensures
        r matches Ok(n) && n == old(buf).state().accepts(loc_record(loc, crc32@).len()),
        final(buf).state() == old(buf).state().offer(loc_record(loc, crc32@)),
{
    let mut written: usize = 0;
    let ghost start = buf.state();
    let mut done: Ghost<Seq<u8>> = Ghost(Seq::empty());
    assert(start.offer(done@) =~= start);
    let need_zip64_extension: bool = file_size > u32::MAX as u64;
    let name_bytes: &[u8] = name.as_bytes();

    put(Magic(LOC_MAGIC), buf, &mut written, &mut done, Ghost(start))?;
    put(MIN_VER, buf, &mut written, &mut done, Ghost(start))?;
    put(GENERAL_PURPOSE_BIG_FLAG, buf, &mut written, &mut done, Ghost(start))?;
    put(COMPRESSION_METHOD, buf, &mut written, &mut done, Ghost(start))?;
    put(FILE_LAST_MOD_TIME, buf, &mut written, &mut done, Ghost(start))?;
    put(FILE_LAST_MOD_DATE, buf, &mut written, &mut done, Ghost(start))?;
    assert(done@ =~= be32(LOC_MAGIC) + stored_fields());
    put(crc32, buf, &mut written, &mut done, Ghost(start))?;
    let size32: u32 = if need_zip64_extension {
        u32::MAX
    } else {
        file_size as u32
    };
    // Compressed and uncompressed size, which are the same for a stored entry.
    put(size32, buf, &mut written, &mut done, Ghost(start))?;
    put(size32, buf, &mut written, &mut done, Ghost(start))?;
    let name_len: u16 = name_bytes.len() as u16;
    let extra_len: u16 = if need_zip64_extension {
        LOC_ZIP64EXT_LENGTH as u16
    } else {
        0
    };
    put(name_len, buf, &mut written, &mut done, Ghost(start))?;
    put(extra_len, buf, &mut written, &mut done, Ghost(start))?;
    put(name_bytes, buf, &mut written, &mut done, Ghost(start))?;
    let ghost fixed = done@;
    if need_zip64_extension {
        let header_id: u16 = 1;
        let chunk_len: u16 = 16;
        put(header_id, buf, &mut written, &mut done, Ghost(start))?;
        put(chunk_len, buf, &mut written, &mut done, Ghost(start))?;
        put(file_size, buf, &mut written, &mut done, Ghost(start))?;
        put(file_size, buf, &mut written, &mut done, Ghost(start))?;
    }
    assert(done@ =~= fixed + loc_extra(loc));
    Ok(written)
}

impl ZipSerialize for LocalFileHeader<CRC32> {
    open spec fn zip_bytes(&self) -> Seq<u8> {
        loc_record(self@, self.crc()@)
    }

    fn dump<S: ByteSink>(&self, buf: &mut S) -> (r: Result<usize, Error>) {
        proof {
            lemma_crc_len(self.crc32);
        }
        write_loc(self.name.as_str(), self.crc32, self.file_size as u64, Ghost(self@), buf)
    }
}

// ---------- Central directory file header ----------

/// Central directory file header signature (`PK\x01\x02`).
pub const CDFH_MAGIC: u32 = 0x504B_0102;

pub const VER_MADE_BY: u16 = 10;

/// Fixed bytes of a central directory file header, without the name and the extra field.
pub const BASE_CDFH_LENGTH: usize = 46;

/// Size of the extra field when only the file size needs it.
pub const CDFH_SIZE_ZIP64EXT_LENGTH: usize = LOC_ZIP64EXT_LENGTH;

/// Size of the extra field when the header offset needs it too.
pub const CDFH_OFFSET_ZIP64EXT_LENGTH: usize = 28;

/// Length of the central directory file header of a file of `file_size` bytes
/// whose name takes `name_len` bytes and whose local header is at `loc_offset`.
pub open spec fn cdfh_size(file_size: nat, name_len: nat, loc_offset: nat) -> nat {
    46 + name_len + if over_u32(loc_offset) {
        28nat
    } else if over_u32(file_size) {
        20
    } else {
        0
    }
}

/// A central directory file header as the archive holds it.
pub open spec fn cdfh_record(loc: LocModel, crc: Seq<u8>) -> Seq<u8> {
    let far = over_u32(loc.offset);
    let extra = far || over_u32(loc.file_size);
    let name = encode_utf8(loc.name);
    be32(CDFH_MAGIC) + le16(VER_MADE_BY) + stored_fields() + crc + capped32(loc.file_size, extra)
        + capped32(loc.file_size, extra) + le16(name.len() as u16) + le16(
        if far {
            28
        } else if extra {
            20
        } else {
            0
        },
    ) + le16(0) + le16(0) + le16(0) + le32(0) + capped32(loc.offset, far) + name + cdfh_extra(loc)
}

/// The ZIP64 extra field of a central directory file header: the sizes, and the
/// offset where it is too large too.
pub open spec fn cdfh_extra(loc: LocModel) -> Seq<u8> {
    let far = over_u32(loc.offset);
    if far || over_u32(loc.file_size) {
        le16(1) + le16(
            if far {
                24
            } else {
                16
            },
        ) + le64(loc.file_size as u64) + le64(loc.file_size as u64) + if far {
            le64(loc.offset as u64)
        } else {
            Seq::empty()
        }
    } else {
        Seq::empty()
    }
}

/// ZIP central directory file header (CDFH), made from a completed local header.
#[derive(Debug)]
pub struct CentralDirectoryFileHeader(LocalFileHeader<CRC32>);

impl View for CentralDirectoryFileHeader {
    type V = LocModel;

    closed spec fn view(&self) -> LocModel {
        self.0@
    }
}

impl From<LocalFileHeader<CRC32>> for CentralDirectoryFileHeader {
    fn from(value: LocalFileHeader<CRC32>) -> (h: Self) {
        CentralDirectoryFileHeader(value)
    }
}

impl vstd::std_specs::convert::FromSpecImpl<LocalFileHeader<CRC32>> for CentralDirectoryFileHeader {
    open spec fn obeys_from_spec() -> bool {
        true
    }

    closed spec fn from_spec(value: LocalFileHeader<CRC32>) -> Self {
        CentralDirectoryFileHeader(value)
    }
}

impl CentralDirectoryFileHeader {
    /// The checksum.
    pub closed spec fn crc(&self) -> CRC32 {
        self.0.crc()
    }

    /// Reuses all fields of a completed local header.
    pub fn from_loc(loc: LocalFileHeader<CRC32>) -> (h: Self)
        ensures
            h@ == loc@,
            h.crc() == loc.crc(),
    {
        CentralDirectoryFileHeader(loc)
    }

    /// The local header that it was made from.
    pub fn loc(&self) -> (loc: &LocalFileHeader<CRC32>)
        ensures
            loc@ == self@,
            loc.crc() == self.crc(),
    {
        &self.0
    }

    pub fn loc_offset(&self) -> (n: usize)
        ensures
            n == self@.offset,
    {
        self.0.offset()
    }

    /// The size of a header that was not made yet.
    pub fn predict_size(file_size: usize, name_len: usize, loc_offset: usize) -> (n: usize)
        requires
            cdfh_size(file_size as nat, name_len as nat, loc_offset as nat) <= usize::MAX,
        ensures
            n == cdfh_size(file_size as nat, name_len as nat, loc_offset as nat),
    {
        if loc_offset as u64 > u32::MAX as u64 {
            BASE_CDFH_LENGTH + CDFH_OFFSET_ZIP64EXT_LENGTH + name_len
        } else if file_size as u64 > u32::MAX as u64 {
            BASE_CDFH_LENGTH + CDFH_SIZE_ZIP64EXT_LENGTH + name_len
        } else {
            BASE_CDFH_LENGTH + name_len
        }
    }
}

/// Writes a central directory file header.
#[verifier::rlimit(30)]
pub(crate) fn write_cdfh<S: ByteSink>(
    offset: u64,
    name: &str,
    crc32: CRC32,
    file_size: u64,
    buf: &mut S,
) -> (r: Result<usize, Error>)
    requires
        cdfh_size(file_size as nat, encode_utf8(name@).len(), offset as nat) <= usize::MAX,
    ensures
        ({
            let loc = LocModel { offset: offset as nat, name: name@, file_size: file_size as nat };
            &&& r matches Ok(n) && n == old(buf).state().accepts(cdfh_record(loc, crc32@).len())
            &&& final(buf).state() == old(buf).state().offer(cdfh_record(loc, crc32@))
        }),
{
    let ghost loc = LocModel { offset: offset as nat, name: name@, file_size: file_size as nat };
    let mut written: usize = 0;
    let ghost start = buf.state();
    let mut done: Ghost<Seq<u8>> = Ghost(Seq::empty());
    assert(start.offer(done@) =~= start);
    let need_offset_zip64_extension: bool = offset > u32::MAX as u64;
    let need_size_zip64_extension: bool = need_offset_zip64_extension || file_size
        > u32::MAX as u64;
    let name_bytes: &[u8] = name.as_bytes();

    put(Magic(CDFH_MAGIC), buf, &mut written, &mut done, Ghost(start))?;
    put(VER_MADE_BY, buf, &mut written, &mut done, Ghost(start))?;
    put(MIN_VER, buf, &mut written, &mut done, Ghost(start))?;
    put(GENERAL_PURPOSE_BIG_FLAG, buf, &mut written, &mut done, Ghost(start))?;
    put(COMPRESSION_METHOD, buf, &mut written, &mut done, Ghost(start))?;
    put(FILE_LAST_MOD_TIME, buf, &mut written, &mut done, Ghost(start))?;
    put(FILE_LAST_MOD_DATE, buf, &mut written, &mut done, Ghost(start))?;
    assert(done@ =~= be32(CDFH_MAGIC) + le16(VER_MADE_BY) + stored_fields());
    put(crc32, buf, &mut written, &mut done, Ghost(start))?;
    let size32: u32 = if need_size_zip64_extension {
        u32::MAX
    } else {
        file_size as u32
    };
    // Compressed and uncompressed size.
    put(size32, buf, &mut written, &mut done, Ghost(start))?;
    put(size32, buf, &mut written, &mut done, Ghost(start))?;
    let name_len: u16 = name_bytes.len() as u16;
    let extra_len: u16 = if need_offset_zip64_extension {
        CDFH_OFFSET_ZIP64EXT_LENGTH as u16
    } else if need_size_zip64_extension {
        CDFH_SIZE_ZIP64EXT_LENGTH as u16
    } else {
        0
    };
    put(name_len, buf, &mut written, &mut done, Ghost(start))?;
    put(extra_len, buf, &mut written, &mut done, Ghost(start))?;
    // Comment length, disk number, internal and external attributes.
    put(0u16, buf, &mut written, &mut done, Ghost(start))?;
    put(0u16, buf, &mut written, &mut done, Ghost(start))?;
    put(0u16, buf, &mut written, &mut done, Ghost(start))?;
    put(0u32, buf, &mut written, &mut done, Ghost(start))?;
    let offset32: u32 = if need_offset_zip64_extension {
        u32::MAX
    } else {
        offset as u32
    };
    put(offset32, buf, &mut written, &mut done, Ghost(start))?;
    put(name_bytes, buf, &mut written, &mut done, Ghost(start))?;
    let ghost fixed = done@;
    if need_size_zip64_extension {
        let chunk_len: u16 = if need_offset_zip64_extension {
            24
        } else {
            16
        };
        put(1u16, buf, &mut written, &mut done, Ghost(start))?;
        put(chunk_len, buf, &mut written, &mut done, Ghost(start))?;
        put(file_size, buf, &mut written, &mut done, Ghost(start))?;
        put(file_size, buf, &mut written, &mut done, Ghost(start))?;
        if need_offset_zip64_extension {
            put(offset, buf, &mut written, &mut done, Ghost(start))?;
        }
    }
    assert(done@ =~= fixed + cdfh_extra(loc));
    Ok(written)
}

impl ZipSerialize for CentralDirectoryFileHeader {
    open spec fn zip_bytes(&self) -> Seq<u8> {
        cdfh_record(self@, self.crc()@)
    }

    fn dump<S: ByteSink>(&self, buf: &mut S) -> (r: Result<usize, Error>) {
        proof {
            cdfh_size_is_record_length(self@, self.crc()@);
        }
        write_cdfh(
            self.0.offset as u64,
            self.0.name.as_str(),
            self.0.crc32,
            self.0.file_size as u64,
            buf,
        )
    }
}

// ---------- End of central directory ----------

/// End of central directory signature (`PK\x05\x06`).
pub const EOCD_MAGIC: u32 = 0x504B_0506;

/// ZIP64 end of central directory record signature (`PK\x06\x06`).
pub const EOCD64_MAGIC: u32 = 0x504B_0606;

/// ZIP64 end of central directory locator signature (`PK\x06\x07`).
pub const EOCD64_LOCATOR_MAGIC: u32 = 0x504B_0607;

/// Size of the classic record, without a comment.
pub const EOCD_LENGTH: usize = 22;

/// Size of the ZIP64 record.
pub const EOCD64_LENGTH: usize = 56;

/// Size of the ZIP64 locator.
pub const EOCD64_LOCATOR_LENGTH: usize = 20;

/// The records that close an archive: the classic end record, preceded by the
/// ZIP64 record and its locator when a field of the classic one is too narrow.
#[derive(Debug, Clone, Copy)]
pub struct EndOfCentralDirectory64 {
    pub record_count: usize,
    pub central_directory_size: usize,
    /// Byte offset of the first central directory file header.
    pub central_directory_offset: usize,
    /// Byte offset of the ZIP64 record.
    pub eocd64_offset: usize,
}

impl EndOfCentralDirectory64 {
    /// Whether a field does not fit the classic record.
    pub open spec fn is_zip64(&self) -> bool {
        ||| self.central_directory_size > u32::MAX
        ||| self.central_directory_offset > u32::MAX
        ||| self.record_count > u16::MAX
    }

    /// The length of all closing records.
    pub open spec fn spec_size(&self) -> nat {
        if self.is_zip64() {
            98
        } else {
            22
        }
    }

    pub open spec fn eocd64_record(&self) -> Seq<u8> {
        be32(EOCD64_MAGIC) + le64(44) + le16(VER_MADE_BY) + le16(MIN_VER) + le32(0) + le32(0)
            + le64(self.record_count as u64) + le64(self.record_count as u64) + le64(
            self.central_directory_size as u64,
        ) + le64(self.central_directory_offset as u64)
    }

    pub open spec fn eocd64_locator(&self) -> Seq<u8> {
        be32(EOCD64_LOCATOR_MAGIC) + le32(0) + le64(self.eocd64_offset as u64) + le32(0)
    }

    /// The classic record: its fields, or all ones in each of them.
    pub open spec fn eocd_record(&self, zip64: bool) -> Seq<u8> {
        be32(EOCD_MAGIC) + (if zip64 {
            le16(u16::MAX) + le16(u16::MAX) + le16(u16::MAX) + le16(u16::MAX) + le32(u32::MAX)
                + le32(u32::MAX)
        } else {
            le16(0) + le16(0) + le16(self.record_count as u16) + le16(self.record_count as u16)
                + le32(self.central_directory_size as u32) + le32(
                self.central_directory_offset as u32,
            )
        }) + le16(0)
    }

    fn need_eocd64(
        central_directory_size: usize,
        central_directory_offset: usize,
        record_count: usize,
    ) -> (b: bool)
        ensures
            b == (central_directory_size > u32::MAX || central_directory_offset > u32::MAX
                || record_count > u16::MAX),
    {
        central_directory_size as u64 > u32::MAX as u64 || central_directory_offset as u64
            > u32::MAX as u64 || record_count > u16::MAX as usize
    }

    /// Total byte size of the closing records.
    pub fn size(&self) -> (n: usize)
        ensures
            n == self.spec_size(),
    {
        if Self::need_eocd64(
            self.central_directory_size,
            self.central_directory_offset,
            self.record_count,
        ) {
            EOCD_LENGTH + EOCD64_LENGTH + EOCD64_LOCATOR_LENGTH
        } else {
            EOCD_LENGTH
        }
    }

    /// Writes the ZIP64 record.
    fn dump_eocd64<S: ByteSink>(&self, buf: &mut S) -> (r: Result<usize, Error>)
        ensures
            r matches Ok(n) && n == old(buf).state().accepts(self.eocd64_record().len()),
            final(buf).state() == old(buf).state().offer(self.eocd64_record()),
    {
        let mut written: usize = 0;
        let ghost start = buf.state();
        let mut done: Ghost<Seq<u8>> = Ghost(Seq::empty());
        assert(start.offer(done@) =~= start);
        put(Magic(EOCD64_MAGIC), buf, &mut written, &mut done, Ghost(start))?;
        // The bytes that follow this field: 56 in all, less the signature and the field itself.
        put(44u64, buf, &mut written, &mut done, Ghost(start))?;
        put(VER_MADE_BY, buf, &mut written, &mut done, Ghost(start))?;
        put(MIN_VER, buf, &mut written, &mut done, Ghost(start))?;
        // This disk, and the disk where the central directory starts.
        put(0u32, buf, &mut written, &mut done, Ghost(start))?;
        put(0u32, buf, &mut written, &mut done, Ghost(start))?;
        // Records on this disk, and records in all.
        put(self.record_count as u64, buf, &mut written, &mut done, Ghost(start))?;
        put(self.record_count as u64, buf, &mut written, &mut done, Ghost(start))?;
        put(self.central_directory_size as u64, buf, &mut written, &mut done, Ghost(start))?;
        put(self.central_directory_offset as u64, buf, &mut written, &mut done, Ghost(start))?;
        assert(done@ =~= self.eocd64_record());
        Ok(written)
    }

    /// Writes the locator that points to the ZIP64 record.
    fn dump_eocd64_locator<S: ByteSink>(&self, buf: &mut S) -> (r: Result<usize, Error>)
        ensures
            r matches Ok(n) && n == old(buf).state().accepts(self.eocd64_locator().len()),
            final(buf).state() == old(buf).state().offer(self.eocd64_locator()),
    {
        let mut written: usize = 0;
        let ghost start = buf.state();
        let mut done: Ghost<Seq<u8>> = Ghost(Seq::empty());
        assert(start.offer(done@) =~= start);
        put(Magic(EOCD64_LOCATOR_MAGIC), buf, &mut written, &mut done, Ghost(start))?;
        // The disk where the record starts, its offset, the number of disks.
        put(0u32, buf, &mut written, &mut done, Ghost(start))?;
        put(self.eocd64_offset as u64, buf, &mut written, &mut done, Ghost(start))?;
        put(0u32, buf, &mut written, &mut done, Ghost(start))?;
        assert(done@ =~= self.eocd64_locator());
        Ok(written)
    }

    /// Writes the classic record, with all ones where the ZIP64 record has the value.
    fn dump_eocd<S: ByteSink>(&self, buf: &mut S, need_eocd64: bool) -> (r: Result<usize, Error>)
        ensures
            r matches Ok(n) && n == old(buf).state().accepts(self.eocd_record(need_eocd64).len()),
            final(buf).state() == old(buf).state().offer(self.eocd_record(need_eocd64)),
    {
        let mut written: usize = 0;
        let ghost start = buf.state();
        let mut done: Ghost<Seq<u8>> = Ghost(Seq::empty());
        assert(start.offer(done@) =~= start);
        put(Magic(EOCD_MAGIC), buf, &mut written, &mut done, Ghost(start))?;
        if need_eocd64 {
            put(u16::MAX, buf, &mut written, &mut done, Ghost(start))?;
            put(u16::MAX, buf, &mut written, &mut done, Ghost(start))?;
            put(u16::MAX, buf, &mut written, &mut done, Ghost(start))?;
            put(u16::MAX, buf, &mut written, &mut done, Ghost(start))?;
            put(u32::MAX, buf, &mut written, &mut done, Ghost(start))?;
            put(u32::MAX, buf, &mut written, &mut done, Ghost(start))?;
        } else {
            put(0u16, buf, &mut written, &mut done, Ghost(start))?;
            put(0u16, buf, &mut written, &mut done, Ghost(start))?;
            put(self.record_count as u16, buf, &mut written, &mut done, Ghost(start))?;
            put(self.record_count as u16, buf, &mut written, &mut done, Ghost(start))?;
            put(self.central_directory_size as u32, buf, &mut written, &mut done, Ghost(start))?;
            put(self.central_directory_offset as u32, buf, &mut written, &mut done, Ghost(start))?;
        }
        // Comment length.
        put(0u16, buf, &mut written, &mut done, Ghost(start))?;
        assert(done@ =~= self.eocd_record(need_eocd64));
        Ok(written)
    }
}

impl ZipSerialize for EndOfCentralDirectory64 {
    open spec fn zip_bytes(&self) -> Seq<u8> {
        if self.is_zip64() {
            self.eocd64_record() + self.eocd64_locator() + self.eocd_record(true)
        } else {
            self.eocd_record(false)
        }
    }

    fn dump<S: ByteSink>(&self, buf: &mut S) -> (r: Result<usize, Error>) {
        let ghost start = buf.state();
        let need_eocd64 = Self::need_eocd64(
            self.central_directory_size,
            self.central_directory_offset,
            self.record_count,
        );
        let mut written: usize = 0;
        if need_eocd64 {
            proof {
                lemma_offer_twice(start, self.eocd64_record(), self.eocd64_locator());
                lemma_offer_twice(
                    start,
                    self.eocd64_record() + self.eocd64_locator(),
                    self.eocd_record(true),
                );
            }
            written = written + self.dump_eocd64(buf)?;
            written = written + self.dump_eocd64_locator(buf)?;
        }
        written = written + self.dump_eocd(buf, need_eocd64)?;
        Ok(written)
    }
}

// ---------- Laws ----------

/// A central directory header that was converted from a local header says the same and has the
/// same checksum.
pub proof fn conversion_keeps_the_header(loc: LocalFileHeader<CRC32>)
    ensures
        <CentralDirectoryFileHeader as vstd::std_specs::convert::FromSpec<
            LocalFileHeader<CRC32>,
        >>::from_spec(loc)@ == loc@,
        <CentralDirectoryFileHeader as vstd::std_specs::convert::FromSpec<
            LocalFileHeader<CRC32>,
        >>::from_spec(loc).crc() == loc.crc(),
{
}

/// The size predicted for a local file header is the length of its record.
pub proof fn loc_size_is_record_length(loc: LocModel, crc: Seq<u8>)
    requires
        crc.len() == 4,
    ensures
        loc_record(loc, crc).len() == loc.size(),
{
}

/// The size predicted for a central directory file header is the length of its record.
pub proof fn cdfh_size_is_record_length(loc: LocModel, crc: Seq<u8>)
    requires
        crc.len() == 4,
    ensures
        cdfh_record(loc, crc).len() == cdfh_size(
            loc.file_size,
            encode_utf8(loc.name).len(),
            loc.offset,
        ),
{
}

/// The size reported for the closing records is the length of what is written.
pub proof fn eocd_size_is_record_length(eocd: EndOfCentralDirectory64)
    ensures
        eocd.zip_bytes().len() == eocd.spec_size(),
{
}

} // verus!
