use train::{
    chunk_size_bytes, filename_from_path, parse_content_length, range_header,
    resource_from_probe, ChunkRange, TrainError,
};

#[test]
fn range_header_renders_inclusive_intervals() {
    assert_eq!(range_header(&ChunkRange { start: 0, end: 29 }), "bytes=0-29");
    assert_eq!(range_header(&ChunkRange { start: 90, end: 99 }), "bytes=90-99");
    assert_eq!(range_header(&ChunkRange { start: 0, end: 0 }), "bytes=0-0");
    assert_eq!(
        range_header(&ChunkRange { start: 1073741824, end: 1082130431 }),
        "bytes=1073741824-1082130431"
    );
}

#[test]
fn content_length_parses_plain_numbers() {
    assert_eq!(parse_content_length("0"), Some(0));
    assert_eq!(parse_content_length("123"), Some(123));
    assert_eq!(parse_content_length("+8"), Some(8));
    assert_eq!(parse_content_length("18446744073709551615"), Some(usize::MAX));
    assert_eq!(parse_content_length("007"), Some(7));
    assert_eq!(parse_content_length("+0008"), Some(8));
}

#[test]
fn content_length_rejects_everything_else() {
    assert_eq!(parse_content_length(""), None);
    assert_eq!(parse_content_length("+"), None);
    assert_eq!(parse_content_length("12a"), None);
    assert_eq!(parse_content_length(" 12"), None);
    assert_eq!(parse_content_length("-5"), None);
    assert_eq!(parse_content_length("1 2"), None);
    // one past the largest machine word: overflow
    assert_eq!(parse_content_length("18446744073709551616"), None);
    assert_eq!(parse_content_length("99999999999999999999999999"), None);
}

#[test]
fn filename_is_the_last_nonempty_segment() {
    assert_eq!(filename_from_path("/files/data.bin").as_deref(), Some("data.bin"));
    assert_eq!(filename_from_path("/a/b/").as_deref(), Some("b"));
    assert_eq!(filename_from_path("/a//").as_deref(), Some("a"));
    assert_eq!(filename_from_path("name").as_deref(), Some("name"));
    assert_eq!(filename_from_path("/"), None);
    assert_eq!(filename_from_path(""), None);
    assert_eq!(filename_from_path("///"), None);
    // segments stay percent-encoded; deriving does not decode
    assert_eq!(filename_from_path("/dir/a%20b.bin").as_deref(), Some("a%20b.bin"));
}

#[test]
fn probe_derives_filename_and_size() {
    let res = resource_from_probe("https://example.com/files/data.bin", Some("100"), None)
        .expect("a well-formed probe must succeed");
    assert_eq!(res.dest, "data.bin");
    assert_eq!(res.size, Some(100));
    assert_eq!(res.url.as_str(), "https://example.com/files/data.bin");
}

#[test]
fn probe_prefers_the_supplied_output() {
    let res = resource_from_probe(
        "https://example.com/a/",
        None,
        Some(String::from("out.bin")),
    )
    .expect("a supplied output never needs deriving");
    assert_eq!(res.dest, "out.bin");
    assert_eq!(res.size, None);
}

#[test]
fn probe_without_length_header_has_no_size() {
    let res = resource_from_probe("https://example.com/f", None, None).unwrap();
    assert_eq!(res.size, None);
}

#[test]
fn probe_with_unparsable_length_has_no_size() {
    let res = resource_from_probe("https://example.com/f", Some("gzip"), None).unwrap();
    assert_eq!(res.size, None);
}

#[test]
fn probe_fails_without_derivable_filename() {
    let err = resource_from_probe("https://example.com/", Some("5"), None).unwrap_err();
    assert!(matches!(err, TrainError::FilenameParseError));
    let err = resource_from_probe("mailto:someone@example.com", None, None).unwrap_err();
    assert!(matches!(err, TrainError::FilenameParseError));
}

#[test]
fn probe_fails_on_a_malformed_url() {
    let err = resource_from_probe("not a url at all", None, None).unwrap_err();
    assert!(matches!(err, TrainError::UrlParseError(_)));
}

#[test]
fn probe_with_output_succeeds_on_any_parsable_url() {
    // even a URL with no derivable filename is fine once a destination is given
    let res = resource_from_probe(
        "mailto:someone@example.com",
        None,
        Some(String::from("x.bin")),
    )
    .expect("a parsable URL and a supplied output owe success");
    assert_eq!(res.dest, "x.bin");
}

#[test]
fn chunk_size_is_megabytes() {
    assert_eq!(chunk_size_bytes(8), 8 * 1024 * 1024);
    assert_eq!(chunk_size_bytes(1), 1048576);
}
