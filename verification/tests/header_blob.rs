use s3_archiver::engine::header_blob::{build_header_blob, HeaderBlob};
use s3_archiver::engine::plan::FileId;
use s3_archiver::engine::zip_format::{local_header, EntryMeta};

fn meta(id: u32, name: &str, size: u64, crc: u32, off: u64) -> (FileId, EntryMeta) {
    (
        FileId(id),
        EntryMeta {
            name: name.to_string(),
            size,
            crc,
            local_header_offset: off,
        },
    )
}

#[test]
fn ranges_cover_blob_contiguously_and_in_order() {
    let entries = vec![
        meta(0, "a.bin", 100, 0x1111_1111, 0),
        meta(1, "bb.bin", 200, 0x2222_2222, 130),
        meta(2, "ccc.bin", 4_998_471, 0xACBC_B7E5, 333),
    ];
    let (bytes, blob) = build_header_blob(entries.clone());

    // Total length equals sum of individual header lengths, contiguous, no gaps/overlaps.
    let mut expected_off = 0u64;
    for (id, m) in &entries {
        let r = blob.ranges.get(&id.0).expect("range present");
        assert_eq!(r.offset, expected_off, "range starts where previous ended");
        assert_eq!(r.len, local_header(m).len() as u64, "len == header len");
        expected_off = r.end();
    }
    assert_eq!(
        blob.bytes_len, expected_off,
        "blob len == sum of header lens"
    );
    assert_eq!(bytes.len() as u64, blob.bytes_len);
}

#[test]
fn each_range_slices_exactly_that_entrys_header() {
    let entries = vec![
        meta(0, "alpha", 10, 0xDEAD_BEEF, 0),
        meta(1, "beta-longer-name", 5_000_000, 0x0102_0304, 40),
        meta(2, "g", 0, 0, 5_000_080),
    ];
    let (bytes, blob) = build_header_blob(entries.clone());

    for (id, m) in &entries {
        let r = blob.ranges[&id.0];
        let slice = &bytes[r.offset as usize..r.end() as usize];
        let expected = local_header(m);
        assert_eq!(
            slice,
            expected.as_slice(),
            "H[range] must equal local_header(meta)"
        );
    }
}

#[test]
fn empty_input_yields_empty_blob() {
    let (bytes, blob) = build_header_blob(Vec::new());
    assert!(bytes.is_empty());
    assert_eq!(blob.bytes_len, 0);
    assert!(blob.ranges.is_empty());
}

#[test]
fn default_blob_is_empty() {
    let blob = HeaderBlob::default();
    assert_eq!(blob.bytes_len, 0);
    assert!(blob.ranges.is_empty());
}

#[test]
fn a_file_that_comes_twice_has_its_last_range() {
    let (_, blob) = build_header_blob(vec![meta(7, "a", 1, 1, 0), meta(7, "bcd", 1, 1, 0)]);
    assert_eq!(blob.ranges.len(), 1);
    assert_eq!(blob.ranges[&7].offset, 31);
    assert_eq!(blob.ranges[&7].len, 33);
    assert_eq!(blob.bytes_len, 64);
}
