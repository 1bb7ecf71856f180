use bridge_core::errors::{FetchOffsetError, TransformationError};
use bridge_core::message::{
    extract_source_offset_from_message_headers, get_offset_from_header, MessageHeader,
};

fn header(key: &str, value: Option<&str>) -> MessageHeader {
    MessageHeader { key: key.to_string(), value: value.map(|v| v.as_bytes().to_vec()) }
}

#[test]
fn test_extract_source_offset_from_message_success() {
    let headers = vec![header("offset", Some("12345"))];

    let result = extract_source_offset_from_message_headers(Some(&headers), "offset");

    assert!(matches!(result, Ok(12345)));
}

#[test]
fn test_extract_source_offset_from_message_no_headers() {
    let headers: Vec<MessageHeader> = vec![];

    let result = extract_source_offset_from_message_headers(Some(&headers), "offset");

    assert!(matches!(
        result,
        Err(TransformationError::FetchOffsetError(FetchOffsetError::HeaderNotFound))
    ));
}

#[test]
fn test_extract_source_offset_from_message_header_not_found() {
    let headers = vec![header("other-header", Some("123"))];

    let result = extract_source_offset_from_message_headers(Some(&headers), "offset");

    assert!(matches!(
        result,
        Err(TransformationError::FetchOffsetError(FetchOffsetError::HeaderNotFound))
    ));
}

#[test]
fn extract_source_offset_without_headers_at_all() {
    let result = extract_source_offset_from_message_headers(None, "offset");
    assert!(matches!(
        result,
        Err(TransformationError::FetchOffsetError(FetchOffsetError::NoHeadersInMessage))
    ));
}

#[test]
fn test_get_offset_from_header_no_value() {
    let headers = vec![header("offset", None)];

    let result = get_offset_from_header(&headers, "offset");

    assert!(matches!(result, Err(FetchOffsetError::HeaderNotFound)));
}

#[test]
fn test_get_offset_from_header_empty_key() {
    let headers = vec![header("", Some("12345"))];

    let result = get_offset_from_header(&headers, "");

    assert!(matches!(result, Err(FetchOffsetError::ErrorParsingHeader(_))));
}

#[test]
fn test_get_offset_from_header_parse_error() {
    let headers = vec![header("offset", Some("not-a-number"))];

    let result = get_offset_from_header(&headers, "offset");

    match result {
        Err(FetchOffsetError::ErrorParsingHeader(e)) => {
            assert!(e.contains("Could not parse 'not-a-number' to i64"))
        }
        _ => panic!("Expected ErrorParsingHeader"),
    }
}

#[test]
fn get_offset_from_header_invalid_utf8() {
    let headers = vec![MessageHeader { key: "offset".to_string(), value: Some(vec![0xff, 0x31]) }];
    match get_offset_from_header(&headers, "offset") {
        Err(FetchOffsetError::ErrorParsingHeader(e)) => {
            assert!(e.starts_with("Failed to parse header value as UTF-8: "))
        }
        _ => panic!("Expected ErrorParsingHeader"),
    }
}

#[test]
fn get_offset_from_header_uses_first_matching_header() {
    let headers = vec![header("offset", Some("-7")), header("offset", Some("9"))];
    assert_eq!(get_offset_from_header(&headers, "offset").unwrap(), -7);
}
