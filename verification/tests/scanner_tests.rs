use contextor::app::{parse_max_file_size, ContextorApp};
use contextor::scanner::{
    is_binary, record_from_data, record_oversized, record_unreadable, truncate_text,
};

#[test]
fn test_is_binary() {
    let text_data = b"Hello, world!";
    let binary_data = b"\x00\xFF\xA0\x45";

    assert!(!is_binary(text_data));
    assert!(is_binary(binary_data));
}

#[test]
fn test_truncate_text() {
    let text = "Hello, this is a long text.".to_string();
    let truncated = truncate_text(text.clone(), 10);
    assert_eq!(truncated, "Hello, thi\n[Truncated: File too large]");
}

#[test]
fn test_truncate_text_at_boundary() {
    assert_eq!(truncate_text("abcde".to_string(), 5), "abcde");
    assert_eq!(
        truncate_text("abcdef".to_string(), 5),
        "abcde\n[Truncated: File too large]"
    );
    assert_eq!(truncate_text(String::new(), 0), "");
}

#[test]
fn test_binary_record() {
    let data = vec![0u8, 159, 146, 150];
    let record = record_from_data("binary.bin".to_string(), &data);
    assert_eq!(record.path, "binary.bin");
    assert!(record.is_binary);
    assert_eq!(record.content, None);
}

#[test]
fn test_text_record() {
    let data = b"Hello, world!".to_vec();
    let record = record_from_data("test.txt".to_string(), &data);
    assert_eq!(record.path, "test.txt");
    assert!(!record.is_binary);
    assert_eq!(record.content, Some("Hello, world!".to_string()));
}

#[test]
fn test_invalid_utf8_is_replaced_not_binary() {
    // 0xFF is not valid UTF-8 but holds no NUL: the record is text, with
    // the bad byte replaced.
    let data = vec![0xFFu8, 0x61];
    let record = record_from_data("odd.txt".to_string(), &data);
    assert!(!record.is_binary);
    assert_eq!(record.content, Some("\u{FFFD}a".to_string()));
}

#[test]
fn test_empty_file_record() {
    let data: Vec<u8> = vec![];
    let record = record_from_data("empty.txt".to_string(), &data);
    assert!(!record.is_binary);
    assert_eq!(record.content, Some(String::new()));
}

#[test]
fn test_unreadable_record() {
    let record = record_unreadable("gone.txt".to_string());
    assert!(record.is_binary);
    assert_eq!(record.content, None);
}

#[test]
fn test_oversized_record_message() {
    let record = record_oversized("big.bin".to_string(), 2_300_000, 1_000_000);
    assert!(!record.is_binary);
    assert_eq!(
        record.content,
        Some("[File size > 2.3MB (max: 1.0MB)]".to_string())
    );

    let record = record_oversized("huge.log".to_string(), 1_000_001, 1_000_000);
    assert_eq!(
        record.content,
        Some("[File size > 1.0MB (max: 1.0MB)]".to_string())
    );

    let record = record_oversized("wide.dat".to_string(), 123_456_789, 5_000_000);
    assert_eq!(
        record.content,
        Some("[File size > 123.5MB (max: 5.0MB)]".to_string())
    );
}

#[test]
fn test_parse_max_file_size() {
    assert_eq!(parse_max_file_size("1000000"), Some(1_000_000));
    assert_eq!(parse_max_file_size("1"), Some(1));
    assert_eq!(parse_max_file_size("0"), None);
    assert_eq!(parse_max_file_size(""), None);
    assert_eq!(parse_max_file_size("12a"), None);
    assert_eq!(parse_max_file_size("-5"), None);
    assert_eq!(
        parse_max_file_size("18446744073709551615"),
        Some(u64::MAX)
    );
    assert_eq!(parse_max_file_size("18446744073709551616"), None);
}

#[test]
fn test_default_app_state() {
    let app = ContextorApp::default();
    assert_eq!(app.selected_folder, None);
    assert_eq!(app.output_preview, "Select a folder to generate a summary");
    assert_eq!(app.max_file_size, "1000000");
    assert_eq!(app.error_message, None);
    assert!(!app.output_expanded);
    assert_eq!(app.validated_max_file_size(), Some(1_000_000));
}
