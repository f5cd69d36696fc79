use plast::shard_loader::{
    contains_text, file_format, format_from_lowercase, is_column_missing_error, is_ipc_footer_error, FileFormat,
    ShardLoader,
};
use std::path::PathBuf;

#[test]
fn extensions_select_readers_without_regard_to_case() {
    assert_eq!(file_format(Some("parquet")), Some(FileFormat::Parquet));
    assert_eq!(file_format(Some("PARQUET")), Some(FileFormat::Parquet));
    assert_eq!(file_format(Some("arrow")), Some(FileFormat::Ipc));
    assert_eq!(file_format(Some("Ipc")), Some(FileFormat::Ipc));
    assert_eq!(file_format(Some("jsonl")), Some(FileFormat::JsonLines));
    assert_eq!(file_format(Some("NDJSON")), Some(FileFormat::JsonLines));
    assert_eq!(file_format(Some("csv")), Some(FileFormat::Csv));
    assert_eq!(file_format(Some("txt")), Some(FileFormat::Csv));
}

#[test]
fn unsupported_extension_selects_no_reader() {
    assert_eq!(file_format(Some("invalid")), None);
    assert_eq!(file_format(Some("")), None);
    assert_eq!(file_format(Some("parquet2")), None);
    assert_eq!(file_format(None), None);
    assert_eq!(format_from_lowercase("CSV"), None);
}

#[test]
fn reader_messages_are_classified() {
    assert!(is_ipc_footer_error("IO error: InvalidFooter at end of file"));
    assert!(is_ipc_footer_error("data is out-of-spec: bad magic"));
    assert!(!is_ipc_footer_error("column text_col not present"));
    assert!(is_column_missing_error("ColumnNotFound: \"text_col\""));
    assert!(is_column_missing_error("unable to find column \"text_col\"; not found"));
    assert!(!is_column_missing_error("schema mismatch"));
}

#[test]
fn substring_search_matches_str_contains() {
    let cases = [("", ""), ("abc", ""), ("", "a"), ("abc", "abc"), ("abcabd", "abd"), ("ab", "abc"), ("héllo", "él")];
    for (hay, needle) in cases {
        assert_eq!(contains_text(hay, needle), hay.contains(needle));
    }
}

#[test]
fn loader_visits_each_file_once_in_order() {
    let files = vec![PathBuf::from("a.parquet"), PathBuf::from("b.csv")];
    let mut loader = ShardLoader::new(files, "text_col".to_string());
    assert_eq!(loader.text_column_name(), "text_col");
    assert_eq!(loader.advance(), Some(0));
    assert_eq!(loader.dataset_file(0), &PathBuf::from("a.parquet"));
    assert_eq!(loader.advance(), Some(1));
    assert_eq!(loader.dataset_file(1), &PathBuf::from("b.csv"));
    assert_eq!(loader.advance(), None);
    assert_eq!(loader.advance(), None);
}
