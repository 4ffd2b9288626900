use batch_importer::byte_count::ByteCount;
use batch_importer::mime::Mime;

#[test]
fn format_from_extension() {
    assert_eq!(Mime::from_path("data.json"), Some(Mime::Json));
    assert_eq!(Mime::from_path("data.ndjson"), Some(Mime::NdJson));
    assert_eq!(Mime::from_path("data.jsonl"), Some(Mime::NdJson));
    assert_eq!(Mime::from_path("data.csv"), Some(Mime::Csv));
    assert_eq!(Mime::from_path("/var/data/export.2024.csv"), Some(Mime::Csv));
}

#[test]
fn paths_without_a_usable_extension() {
    assert_eq!(Mime::from_path("noext"), None);
    assert_eq!(Mime::from_path("archive.tar"), None);
    assert_eq!(Mime::from_path(".hidden"), None);
    assert_eq!(Mime::from_path("trailing."), None);
    assert_eq!(Mime::from_path("dir.json/file"), None);
    assert_eq!(Mime::from_path("-"), None);
    assert_eq!(Mime::from_path(""), None);
}

#[test]
fn extension_is_case_sensitive_names_are_not() {
    // the extension must match exactly, as a path lookup would
    assert_eq!(Mime::from_path("data.JSON"), None);
    // an explicit format name is taken in any case
    assert_eq!(Mime::from_str("JSON"), Some(Mime::Json));
    assert_eq!(Mime::from_str("NdJson"), Some(Mime::NdJson));
    assert_eq!(Mime::from_str("jsonl"), Some(Mime::NdJson));
    assert_eq!(Mime::from_str("Csv"), Some(Mime::Csv));
}

#[test]
fn unknown_format_name_is_rejected() {
    assert_eq!(Mime::from_str("xml"), None);
    assert_eq!(Mime::from_str(""), None);
    assert_eq!(Mime::from_str("jsonx"), None);
}

#[test]
fn content_types() {
    assert_eq!(Mime::Json.as_str(), "application/json");
    assert_eq!(Mime::NdJson.as_str(), "application/x-ndjson");
    assert_eq!(Mime::Csv.as_str(), "text/csv");
}

#[test]
fn byte_count_accumulates_written_lengths() {
    let mut counter = ByteCount::new();
    assert_eq!(counter.count(), 0);
    assert_eq!(counter.write(b"hello"), 5);
    assert_eq!(counter.write(b""), 0);
    assert_eq!(counter.write(b" world"), 6);
    counter.flush();
    assert_eq!(counter.count(), 11);
}
