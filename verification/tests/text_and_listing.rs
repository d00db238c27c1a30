use s3_archiver::chain::listing::list_source_files;
use s3_archiver::listing::{file_name, ListedObject};
use s3_archiver::text::{
    address_text, decimal_text, directory_prefix_text, parse_usize, range_text,
};
use s3_archiver::v3::s3_ops::list_files;

#[test]
fn decimal_texts() {
    assert_eq!(decimal_text(0), "0");
    assert_eq!(decimal_text(9), "9");
    assert_eq!(decimal_text(10), "10");
    assert_eq!(decimal_text(1_203_456_789), "1203456789");
    assert_eq!(decimal_text(u64::MAX), "18446744073709551615");
}

#[test]
fn ranges_and_addresses() {
    assert_eq!(range_text(0, 5_242_879), "bytes=0-5242879");
    assert_eq!(range_text(12, 34), "bytes=12-34");
    assert_eq!(address_text("bucket", "dir/key"), "bucket/dir/key");
    assert_eq!(directory_prefix_text("files"), "files/");
}

#[test]
fn numbers_are_parsed() {
    assert_eq!(parse_usize("0"), Some(0));
    assert_eq!(parse_usize("50"), Some(50));
    assert_eq!(parse_usize("+7"), Some(7));
    assert_eq!(parse_usize("007"), Some(7));
    assert_eq!(parse_usize("18446744073709551615"), Some(usize::MAX));
    assert_eq!(parse_usize("18446744073709551616"), None);
    assert_eq!(parse_usize("99999999999999999999999"), None);
    for text in ["", "+", "-1", " 1", "1 ", "1x", "x", "++1", "é"] {
        assert_eq!(parse_usize(text), None, "{text:?}");
        assert!(text.parse::<usize>().is_err());
    }
}

#[test]
fn names_lie_below_the_prefix() {
    assert_eq!(file_name("files/a.jpg", "files/"), Some("a.jpg"));
    assert_eq!(file_name("files/d/é", "files/"), Some("d/é"));
    assert_eq!(file_name("files/", "files/"), None);
    assert_eq!(file_name("file", "files/"), None);
    assert_eq!(file_name("other/a", "files/"), None);
}

fn object(key: Option<&str>, size: Option<i64>) -> ListedObject {
    ListedObject {
        key: key.map(|k| k.to_string()),
        size,
    }
}

fn objects() -> Vec<ListedObject> {
    vec![
        object(Some("files/"), Some(0)),
        object(Some("files/a"), Some(10)),
        object(None, Some(1)),
        object(Some("files/b"), None),
        object(Some("elsewhere/c"), Some(5)),
        object(Some("files/d"), Some(0)),
    ]
}

#[test]
fn source_files_are_numbered_in_listing_order() {
    let files = list_source_files("files", objects());
    assert_eq!(files.len(), 2);
    assert_eq!((files[0].id.0, files[1].id.0), (0, 1));
    assert_eq!((files[0].name.as_str(), files[1].name.as_str()), ("a", "d"));
    assert_eq!(
        (files[0].key.as_str(), files[1].key.as_str()),
        ("files/a", "files/d")
    );
    assert_eq!((files[0].size, files[1].size), (10, 0));
}

#[test]
fn negative_sizes_wrap() {
    let files = list_source_files("f", vec![object(Some("f/a"), Some(-1))]);
    assert_eq!(files[0].size, u64::MAX);
    let files = list_files("b".into(), "f", vec![object(Some("f/a"), Some(-1))]);
    assert_eq!(files[0].size, usize::MAX);
}

#[test]
fn listed_files_have_bucket_key_and_size() {
    let files = list_files("bucket".into(), "files", objects());
    assert_eq!(files.len(), 2);
    assert_eq!(files[0].name, "a");
    assert_eq!(files[0].key, "files/a");
    assert_eq!(&*files[0].bucket_name, "bucket");
    assert_eq!(files[0].size, 10);
    assert_eq!(files[1].name, "d");
    assert_eq!(files[1].size, 0);
}
