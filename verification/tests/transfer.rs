use s3_archiver::byte_sink::SliceBuf;
use s3_archiver::error::{Base64Error, Error};
use s3_archiver::transfer::{
    complete_entry, deliver, deliver_all, delivered, entry_size, lay_out_part, leading_range,
    required, start_entry, write_chunk, write_entry_header, DirectoryAssembler, S3ObjectOperation,
};
use s3_archiver::zip_format::{
    CentralDirectoryFileHeader, EndOfCentralDirectory64, LocalFileHeader, NoCRC, ZipSerialize,
    CRC32,
};
use tokio::sync::mpsc::unbounded_channel;

fn loc() -> LocalFileHeader<NoCRC> {
    LocalFileHeader::new(100, "ab".to_string(), 9)
}

fn cdfh(offset: usize, crc: u32) -> CentralDirectoryFileHeader {
    CentralDirectoryFileHeader::from_loc(
        LocalFileHeader::new(offset, "ab".to_string(), 9).set_crc(CRC32::from_u32(crc)),
    )
}

fn bytes_of<T: ZipSerialize>(value: &T) -> Vec<u8> {
    let mut bytes: Vec<u8> = Vec::new();
    value.dump(&mut bytes).unwrap();
    bytes
}

fn message<T>(r: Result<T, Error>) -> String {
    match r {
        Err(Error::Custom(m)) => m,
        _ => panic!("expected a message"),
    }
}

#[test]
fn responses_have_to_hold_their_value() {
    assert_eq!(required(Some("v".to_string()), "none").unwrap(), "v");
    assert_eq!(message(required(None, "none")), "none");
}

#[test]
fn sizes_follow_the_operation() {
    assert_eq!(entry_size(&loc(), &S3ObjectOperation::Get), 32 + 9);
    assert_eq!(
        entry_size(&loc(), &S3ObjectOperation::PartialGet { size: 4 }),
        32 + 4
    );
    assert_eq!(entry_size(&loc(), &S3ObjectOperation::Head), 32);
    assert_eq!(leading_range(4), "bytes=0-3");
}

#[test]
fn an_entry_without_checksum_is_refused() {
    let mut buf = SliceBuf::with_size(41);
    for (operation, text) in [
        (S3ObjectOperation::Get, "No CRC32 in the GetObject response"),
        (
            S3ObjectOperation::PartialGet { size: 1 },
            "No CRC32 in the (partial) GetObject response",
        ),
        (
            S3ObjectOperation::Head,
            "No CRC32 in the HeadObject response",
        ),
    ] {
        assert_eq!(
            message(complete_entry(loc(), &operation, None, &mut buf)),
            text
        );
    }
    assert_eq!(buf.into_bytes(), vec![0; 41]);
}

#[test]
fn an_entry_with_a_malformed_checksum_is_refused() {
    let mut buf = SliceBuf::with_size(41);
    let r = complete_entry(
        loc(),
        &S3ObjectOperation::Get,
        Some("y/Q5Jg".to_string()),
        &mut buf,
    );
    assert!(matches!(
        r,
        Err(Error::Crc32Parse(Base64Error::InvalidPadding))
    ));
    assert_eq!(buf.into_bytes(), vec![0; 41]);
}

#[test]
fn an_entry_fills_its_buffer() {
    let (sender, mut receiver) = unbounded_channel();
    let operation = S3ObjectOperation::Get;
    let mut buf = SliceBuf::with_size(entry_size(&loc(), &operation));
    let n = write_entry_header(
        loc(),
        &operation,
        Some("y/Q5Jg==".to_string()),
        &sender,
        &mut buf,
    )
    .unwrap();
    assert_eq!(n, 32);
    assert_eq!(write_chunk(b"12345", &mut buf).unwrap(), 5);
    assert_eq!(write_chunk(b"6789", &mut buf).unwrap(), 4);
    assert_eq!(write_chunk(b"more", &mut buf).unwrap(), 0);
    let mut expected = bytes_of(&loc().set_crc(CRC32::from_u32(0xCBF4_3926)));
    expected.extend(b"123456789");
    assert_eq!(buf.into_bytes(), expected);
    let header = receiver.try_recv().unwrap();
    assert_eq!(header.loc_offset(), 100);
    assert_eq!(bytes_of(&header), bytes_of(&cdfh(100, 0xCBF4_3926)));
}

#[test]
fn a_started_entry_has_room_for_its_body() {
    let (sender, _receiver) = unbounded_channel();
    let operation = S3ObjectOperation::PartialGet { size: 4 };
    let text = Some("y/Q5Jg==".to_string());
    let mut buf = start_entry(loc(), &operation, text, &sender).unwrap();
    assert_eq!(write_chunk(b"12345", &mut buf).unwrap(), 4);
    let mut expected = bytes_of(&loc().set_crc(CRC32::from_u32(0xCBF4_3926)));
    expected.extend(b"1234");
    assert_eq!(buf.into_bytes(), expected);
    assert_eq!(
        message(start_entry(loc(), &operation, None, &sender)),
        "No CRC32 in the (partial) GetObject response"
    );
}

#[test]
fn the_directory_is_fitted_to_its_size() {
    let eocd64 = EndOfCentralDirectory64 {
        record_count: 1,
        central_directory_size: 48,
        central_directory_offset: 0,
        eocd64_offset: 48,
    };
    let mut expected = bytes_of(&cdfh(7, 1));
    expected.extend(bytes_of(&eocd64));
    for size in [70, 60, 72] {
        let mut assembler = DirectoryAssembler::new(eocd64);
        assembler.receive(cdfh(7, 1));
        let mut fitted = expected.clone();
        fitted.resize(size, 0);
        assert_eq!(assembler.into_bytes(size).unwrap(), fitted);
    }
}

#[test]
fn a_closed_channel_is_reported() {
    let (sender, receiver) = unbounded_channel();
    assert!(deliver(&sender, cdfh(1, 2)).is_ok());
    drop(receiver);
    let closed = "Could not send the CentralDirectoryFileHeader: Channel closed";
    assert_eq!(message(deliver(&sender, cdfh(1, 2))), closed);
    assert!(delivered(Ok(())).is_ok());
    assert_eq!(message(delivered(Err(cdfh(1, 2)))), closed);
    let mut buf = SliceBuf::with_size(32);
    let r = write_entry_header(
        loc(),
        &S3ObjectOperation::Head,
        Some("y/Q5Jg==".to_string()),
        &sender,
        &mut buf,
    );
    assert_eq!(message(r), closed);
}

#[test]
fn headers_are_delivered_in_order() {
    let (sender, mut receiver) = unbounded_channel();
    deliver_all(&sender, vec![cdfh(5, 1), cdfh(3, 2)]).unwrap();
    assert_eq!(receiver.try_recv().unwrap().loc_offset(), 5);
    assert_eq!(receiver.try_recv().unwrap().loc_offset(), 3);
    assert!(receiver.try_recv().is_err());
    drop(receiver);
    assert!(deliver_all(&sender, vec![]).is_ok());
    assert_eq!(
        message(deliver_all(&sender, vec![cdfh(1, 1)])),
        "Could not send the CentralDirectoryFileHeader: Channel closed"
    );
}

#[test]
fn the_directory_is_in_archive_order() {
    let eocd64 = EndOfCentralDirectory64 {
        record_count: 3,
        central_directory_size: 3 * 48,
        central_directory_offset: 500,
        eocd64_offset: 500 + 3 * 48,
    };
    let mut expected = bytes_of(&cdfh(7, 1));
    expected.extend(bytes_of(&cdfh(90, 2)));
    expected.extend(bytes_of(&cdfh(400, 3)));
    expected.extend(bytes_of(&eocd64));
    for order in [[7, 90, 400], [400, 90, 7], [90, 400, 7]] {
        let mut assembler = DirectoryAssembler::new(eocd64);
        for (i, offset) in order.iter().enumerate() {
            let crc = match offset {
                7 => 1,
                90 => 2,
                _ => 3,
            };
            assert_eq!(assembler.receive(cdfh(*offset, crc)), i == 2);
        }
        let mut buf = SliceBuf::with_size(3 * 48 + 22);
        assert_eq!(assembler.finish(&mut buf).unwrap(), 3 * 48 + 22);
        assert_eq!(buf.into_bytes(), expected);
    }
}

#[test]
fn of_two_headers_for_one_offset_the_later_stays() {
    let eocd64 = EndOfCentralDirectory64 {
        record_count: 1,
        central_directory_size: 48,
        central_directory_offset: 0,
        eocd64_offset: 48,
    };
    let mut assembler = DirectoryAssembler::new(eocd64);
    assert!(assembler.receive(cdfh(7, 1)));
    assert!(assembler.receive(cdfh(7, 2)));
    let mut buf = SliceBuf::with_size(70);
    assembler.finish(&mut buf).unwrap();
    let mut expected = bytes_of(&cdfh(7, 2));
    expected.extend(bytes_of(&eocd64));
    assert_eq!(buf.into_bytes(), expected);
}

#[test]
fn elements_are_laid_one_after_another() {
    assert_eq!(
        lay_out_part(6, vec![vec![1, 2], vec![], vec![3]]),
        vec![1, 2, 3, 0, 0, 0]
    );
    assert_eq!(lay_out_part(0, vec![]), Vec::<u8>::new());
}
