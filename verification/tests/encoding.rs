use k2v::encoding::{bytes_to_token, text_to_value, token_to_bytes, value_to_text};

#[test]
fn value_to_text_writes_padded_standard_base64() {
    assert_eq!(value_to_text(b"hello world"), Some("aGVsbG8gd29ybGQ=".to_string()));
    assert_eq!(value_to_text(b"x1"), Some("eDE=".to_string()));
    assert_eq!(value_to_text(b""), Some("".to_string()));
    assert_eq!(value_to_text(&[0xff, 0xfe, 0xfd]), Some("//79".to_string()));
}

#[test]
fn text_to_value_reads_standard_base64() {
    assert_eq!(text_to_value("aGVsbG8gd29ybGQ="), Some(b"hello world".to_vec()));
    assert_eq!(text_to_value("//79"), Some(vec![0xff, 0xfe, 0xfd]));
    assert_eq!(text_to_value(""), Some(vec![]));
}

#[test]
fn text_to_value_refuses_what_is_not_base64() {
    assert_eq!(text_to_value("not base64!"), None);
    assert_eq!(text_to_value("_-79"), None);
    assert_eq!(text_to_value("a"), None);
}

#[test]
fn bytes_to_token_writes_unpadded_url_safe_base64() {
    assert_eq!(bytes_to_token(&[0xff, 0xfe, 0xfd]), Some("__79".to_string()));
    assert_eq!(bytes_to_token(b"x1"), Some("eDE".to_string()));
}

#[test]
fn token_to_bytes_reads_url_safe_base64() {
    assert_eq!(token_to_bytes("__79"), Some(vec![0xff, 0xfe, 0xfd]));
    assert_eq!(token_to_bytes("eDE"), Some(b"x1".to_vec()));
    assert_eq!(token_to_bytes("//79"), None);
}

#[test]
fn text_read_back_is_the_value_written() {
    let value: Vec<u8> = (0..=255).collect();
    let text = value_to_text(&value).unwrap();
    assert_eq!(text_to_value(&text), Some(value.clone()));
    let token = bytes_to_token(&value).unwrap();
    assert_eq!(token_to_bytes(&token), Some(value));
}

#[test]
fn texts_have_the_length_of_their_kind() {
    for n in 0..10usize {
        let value = vec![7u8; n];
        assert_eq!(value_to_text(&value).unwrap().len(), (n + 2) / 3 * 4);
        let rest = if n % 3 == 0 { 0 } else { n % 3 + 1 };
        assert_eq!(bytes_to_token(&value).unwrap().len(), n / 3 * 4 + rest);
    }
}
