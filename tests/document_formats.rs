use milli_core::formats::{
    ndjson_lines, read_json, read_ndjson, truncate_diagnostic, DocumentFormatError, PayloadError,
    PayloadType,
};
use milli_core::json::JsonValue;

fn object() -> JsonValue {
    JsonValue::Object(vec![("id".to_string(), JsonValue::Number("1".to_string()))])
}

#[test]
fn payload_type_names() {
    assert_eq!(PayloadType::Ndjson.to_text(), "ndjson");
    assert_eq!(PayloadType::Json.to_text(), "json");
    assert_eq!(PayloadType::Csv.to_text(), "csv");
}

#[test]
fn short_diagnostic_is_kept() {
    let msg = "a".repeat(103);
    assert_eq!(truncate_diagnostic(&msg), msg);
}

#[test]
fn long_diagnostic_is_cut_in_the_middle() {
    let msg: String = (0..200).map(|i| char::from(b'a' + (i % 26) as u8)).collect();
    let short = truncate_diagnostic(&msg);
    assert_eq!(short.chars().count(), 50 + 3 + 85);
    assert_eq!(&short[..50], &msg[..50]);
    assert_eq!(&short[50..53], "...");
    assert_eq!(&short[53..], &msg[115..]);
}

#[test]
fn error_messages() {
    let e = DocumentFormatError::Internal("disk full".to_string());
    assert_eq!(e.to_message(), "An internal error has occurred: `disk full`.");
    let e = DocumentFormatError::MalformedPayload(PayloadError::Json("EOF".to_string()), PayloadType::Ndjson);
    assert_eq!(
        e.to_message(),
        "The `ndjson` payload provided is malformed. `Couldn't serialize document value: EOF`."
    );
    let e = DocumentFormatError::MalformedPayload(PayloadError::Csv("bad row".to_string()), PayloadType::Csv);
    assert_eq!(e.to_message(), "The `csv` payload provided is malformed: `bad row`.");
    let long = "x".repeat(300);
    let e = DocumentFormatError::MalformedPayload(PayloadError::Json(long), PayloadType::Json);
    let expected = format!(
        "The `json` payload provided is malformed. `Couldn't serialize document value: {}...{}`.",
        "x".repeat(50),
        "x".repeat(85)
    );
    assert_eq!(e.to_message(), expected);
}

#[test]
fn error_from_payload_error() {
    let e = DocumentFormatError::from((PayloadType::Csv, PayloadError::Io("broken pipe".to_string())));
    assert_eq!(e, DocumentFormatError::Internal("broken pipe".to_string()));
    let e = DocumentFormatError::from((PayloadType::Json, PayloadError::Json("bad".to_string())));
    assert_eq!(
        e,
        DocumentFormatError::MalformedPayload(PayloadError::Json("bad".to_string()), PayloadType::Json)
    );
}

#[test]
fn read_json_counts_documents() {
    assert_eq!(read_json(&object()), Ok(1));
    assert_eq!(read_json(&JsonValue::Array(vec![object(), object(), object()])), Ok(3));
    assert_eq!(read_json(&JsonValue::Array(vec![])), Ok(0));
}

#[test]
fn read_json_rejects_non_objects() {
    let expected = DocumentFormatError::MalformedPayload(
        PayloadError::Json("invalid type: expected a map".to_string()),
        PayloadType::Json,
    );
    assert_eq!(read_json(&JsonValue::Array(vec![object(), JsonValue::Null])), Err(expected.clone()));
    assert_eq!(read_json(&JsonValue::Bool(true)), Err(expected));
}

#[test]
fn ndjson_lines_skip_empty_lines() {
    let input = b"{\"a\":1}\n\n{\"b\":2}\n{\"c\":3}";
    assert_eq!(ndjson_lines(input), vec![(0, 8), (9, 17), (17, 24)]);
    assert_eq!(ndjson_lines(b""), vec![]);
    assert_eq!(ndjson_lines(b"\n\n"), vec![]);
}

#[test]
fn read_ndjson_counts_and_fails_on_first_bad_line() {
    assert_eq!(read_ndjson(&vec![Ok(object()), Ok(object())]), Ok(2));
    assert_eq!(read_ndjson(&vec![]), Ok(0));
    let lines = vec![Ok(object()), Err("trailing characters".to_string()), Ok(JsonValue::Null)];
    assert_eq!(
        read_ndjson(&lines),
        Err(DocumentFormatError::MalformedPayload(
            PayloadError::Json("trailing characters".to_string()),
            PayloadType::Ndjson
        ))
    );
    let lines = vec![Ok(object()), Ok(JsonValue::Str("x".to_string()))];
    assert_eq!(
        read_ndjson(&lines),
        Err(DocumentFormatError::MalformedPayload(
            PayloadError::Json("invalid type: expected a map".to_string()),
            PayloadType::Ndjson
        ))
    );
}
