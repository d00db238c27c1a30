use s3_archiver::byte_sink::{ByteSink, SliceBuf};
use s3_archiver::error::{Base64Error, Error};
use s3_archiver::zip_format::{
    CentralDirectoryFileHeader, EndOfCentralDirectory64, LocalFileHeader, ZipSerialize, CRC32,
};

fn bytes_of<T: ZipSerialize>(value: &T) -> Vec<u8> {
    let mut bytes: Vec<u8> = Vec::new();
    let n = value.dump(&mut bytes).unwrap();
    assert_eq!(n, bytes.len());
    bytes
}

#[test]
fn integers_are_little_endian() {
    assert_eq!(bytes_of(&0x12u8), vec![0x12]);
    assert_eq!(bytes_of(&0x1234u16), vec![0x34, 0x12]);
    assert_eq!(bytes_of(&0x1234_5678u32), vec![0x78, 0x56, 0x34, 0x12]);
    assert_eq!(
        bytes_of(&0x0102_0304_0506_0708u64),
        vec![8, 7, 6, 5, 4, 3, 2, 1]
    );
    let slice: &[u8] = &[9, 8, 7];
    assert_eq!(bytes_of(&slice), vec![9, 8, 7]);
}

// The checksum of "123456789" as S3 reports it.
#[test]
fn crc_is_parsed_and_reversed() {
    let crc = CRC32::from_str("y/Q5Jg==").unwrap();
    assert_eq!(bytes_of(&crc), vec![0x26, 0x39, 0xF4, 0xCB]);
    assert_eq!(bytes_of(&CRC32::from_u32(0xCBF4_3926)), bytes_of(&crc));
    assert_eq!(
        bytes_of(&CRC32::from_be_bytes([0xCB, 0xF4, 0x39, 0x26])),
        bytes_of(&crc)
    );
}

#[test]
fn crc_bytes_go_both_ways() {
    let crc = CRC32::from_le_bytes([1, 2, 3, 4]);
    assert_eq!(crc.to_le_bytes(), [1, 2, 3, 4]);
    assert_eq!(bytes_of(&crc), vec![1, 2, 3, 4]);
    assert_eq!(CRC32::default().to_le_bytes(), [0; 4]);
}

#[test]
fn short_checksum_text_leaves_zeros_in_front() {
    // Two bytes decode to the first two of the buffer; the other two stay zero.
    let crc = CRC32::from_str("AQI=").unwrap();
    assert_eq!(bytes_of(&crc), vec![0, 0, 2, 1]);
}

fn parse_error(text: &str) -> Base64Error {
    match CRC32::from_str(text) {
        Err(Error::Crc32Parse(e)) => e,
        other => panic!("expected a parse error, got {other:?}"),
    }
}

#[test]
fn malformed_checksums_are_refused() {
    assert_eq!(parse_error("y/Q*Jg=="), Base64Error::InvalidByte(3, b'*'));
    assert_eq!(parse_error("y/Q5Jh=="), Base64Error::InvalidLastSymbol(5, b'h'));
    assert_eq!(parse_error("y/Q5Jg"), Base64Error::InvalidPadding);
    assert_eq!(parse_error("y/Q5J"), Base64Error::InvalidLength(5));
    assert_eq!(parse_error("AAAAAAAA"), Base64Error::OutputTooSmall);
}

fn small_loc() -> LocalFileHeader<CRC32> {
    LocalFileHeader::new(0x1234, "ab".to_string(), 5).set_crc(CRC32::from_u32(0xCBF4_3926))
}

#[test]
fn local_header_bytes() {
    let loc = small_loc();
    assert_eq!(loc.size(), 32);
    assert_eq!(loc.offset(), 0x1234);
    assert_eq!(loc.file_size(), 5);
    assert_eq!(loc.name(), "ab");
    assert_eq!(loc.crc32().to_le_bytes(), [0x26, 0x39, 0xF4, 0xCB]);
    let mut expected = vec![0x50, 0x4B, 3, 4, 10, 0, 0, 0, 0, 0, 0, 0, 0, 0];
    expected.extend([0x26, 0x39, 0xF4, 0xCB]);
    expected.extend([5, 0, 0, 0, 5, 0, 0, 0, 2, 0, 0, 0]);
    expected.extend(b"ab");
    assert_eq!(bytes_of(&loc), expected);
}

#[test]
fn local_header_of_a_large_file_has_an_extra_field() {
    let loc = LocalFileHeader::new(0, "ab".to_string(), 0x1_0000_0001)
        .set_crc(CRC32::from_u32(0));
    let bytes = bytes_of(&loc);
    assert_eq!(bytes.len(), 52);
    assert_eq!(loc.size(), 52);
    assert_eq!(bytes[18..26], [0xFF; 8]);
    assert_eq!(bytes[28..30], [20, 0]);
    assert_eq!(bytes[32..36], [1, 0, 16, 0]);
    assert_eq!(bytes[36..44], [1, 0, 0, 0, 1, 0, 0, 0]);
    assert_eq!(bytes[44..52], [1, 0, 0, 0, 1, 0, 0, 0]);
}

#[test]
fn the_largest_size_without_extra_field() {
    assert_eq!(LocalFileHeader::<CRC32>::predict_size(0xFFFF_FFFF, 3), 33);
    assert_eq!(LocalFileHeader::<CRC32>::predict_size(0x1_0000_0000, 3), 53);
    assert_eq!(CentralDirectoryFileHeader::predict_size(0xFFFF_FFFF, 3, 0xFFFF_FFFF), 49);
    assert_eq!(CentralDirectoryFileHeader::predict_size(0x1_0000_0000, 3, 0), 69);
    assert_eq!(CentralDirectoryFileHeader::predict_size(0, 3, 0x1_0000_0000), 77);
}

#[test]
fn central_directory_header_bytes() {
    let cdfh = CentralDirectoryFileHeader::from_loc(small_loc());
    assert_eq!(cdfh.loc_offset(), 0x1234);
    assert_eq!(cdfh.loc().name(), "ab");
    let mut expected = vec![0x50, 0x4B, 1, 2, 10, 0, 10, 0, 0, 0, 0, 0, 0, 0, 0, 0];
    expected.extend([0x26, 0x39, 0xF4, 0xCB]);
    expected.extend([5, 0, 0, 0, 5, 0, 0, 0, 2, 0, 0, 0]);
    expected.extend([0, 0, 0, 0, 0, 0, 0, 0, 0, 0]);
    expected.extend([0x34, 0x12, 0, 0]);
    expected.extend(b"ab");
    assert_eq!(bytes_of(&cdfh), expected);
    assert_eq!(bytes_of(&CentralDirectoryFileHeader::from(small_loc())), expected);
}

#[test]
fn central_directory_header_of_a_far_entry() {
    let loc = LocalFileHeader::new(0x2_0000_0003, "é".to_string(), 7).set_crc(CRC32::from_u32(1));
    let bytes = bytes_of(&CentralDirectoryFileHeader::from_loc(loc));
    assert_eq!(bytes.len(), 46 + 2 + 28);
    assert_eq!(bytes[20..28], [0xFF; 8]);
    assert_eq!(bytes[30..32], [28, 0]);
    assert_eq!(bytes[42..46], [0xFF; 4]);
    assert_eq!(bytes[48..52], [1, 0, 24, 0]);
    assert_eq!(bytes[52..60], [7, 0, 0, 0, 0, 0, 0, 0]);
    assert_eq!(bytes[68..76], [3, 0, 0, 0, 2, 0, 0, 0]);
}

#[test]
fn closing_record_bytes() {
    let eocd = EndOfCentralDirectory64 {
        record_count: 3,
        central_directory_size: 0x0201,
        central_directory_offset: 0x0403,
        eocd64_offset: 0x0604,
    };
    assert_eq!(eocd.size(), 22);
    assert_eq!(
        bytes_of(&eocd),
        vec![
            0x50, 0x4B, 5, 6, 0, 0, 0, 0, 3, 0, 3, 0, 1, 2, 0, 0, 3, 4, 0, 0, 0, 0
        ]
    );
}

#[test]
fn many_records_need_the_zip64_records() {
    let mut eocd = EndOfCentralDirectory64 {
        record_count: 0xFFFF,
        central_directory_size: 1,
        central_directory_offset: 2,
        eocd64_offset: 3,
    };
    assert_eq!(eocd.size(), 22);
    eocd.record_count = 0x1_0000;
    assert_eq!(eocd.size(), 98);
    let bytes = bytes_of(&eocd);
    assert_eq!(bytes.len(), 98);
    assert_eq!(bytes[0..4], [0x50, 0x4B, 6, 6]);
    assert_eq!(bytes[4..12], [44, 0, 0, 0, 0, 0, 0, 0]);
    assert_eq!(bytes[24..32], [0, 0, 1, 0, 0, 0, 0, 0]);
    assert_eq!(bytes[32..40], [0, 0, 1, 0, 0, 0, 0, 0]);
    assert_eq!(bytes[40..48], [1, 0, 0, 0, 0, 0, 0, 0]);
    assert_eq!(bytes[48..56], [2, 0, 0, 0, 0, 0, 0, 0]);
    assert_eq!(bytes[56..60], [0x50, 0x4B, 6, 7]);
    assert_eq!(bytes[64..72], [3, 0, 0, 0, 0, 0, 0, 0]);
    assert_eq!(bytes[76..80], [0x50, 0x4B, 5, 6]);
    assert_eq!(bytes[80..96], [0xFF; 16]);
}

#[test]
fn a_full_buffer_takes_a_prefix() {
    let loc = small_loc();
    let mut buf = SliceBuf::with_size(10);
    assert_eq!(loc.dump(&mut buf).unwrap(), 10);
    assert_eq!(loc.dump(&mut buf).unwrap(), 0);
    assert_eq!(buf.into_bytes(), bytes_of(&loc)[..10].to_vec());
}

#[test]
fn a_buffer_is_padded_with_zeros() {
    let mut buf = SliceBuf::with_size(5);
    assert_eq!(buf.write(&[1, 2]), 2);
    assert_eq!(buf.write(&[3]), 1);
    assert_eq!(buf.into_bytes(), vec![1, 2, 3, 0, 0]);
}

#[test]
fn a_growing_target_takes_everything() {
    let mut bytes: Vec<u8> = vec![1];
    assert_eq!(bytes.write(&[2, 3]), 2);
    assert_eq!(bytes, vec![1, 2, 3]);
}

#[test]
fn a_message_becomes_an_error() {
    assert!(matches!(Error::from("no luck".to_string()), Error::Custom(m) if m == "no luck"));
}
