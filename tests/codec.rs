use yage::codec::{is_yage_encoded, YageEncodedValue};
use yage::error::YageError;

#[test]
fn decode_legacy_token() {
    let v = YageEncodedValue::from_str("yage[abc]").unwrap();
    assert_eq!(v.data, "abc");
    assert!(v.recipients.is_empty());
}

#[test]
fn decode_current_token() {
    let v = YageEncodedValue::from_str("yage[abc|r:x,y]").unwrap();
    assert_eq!(v.data, "abc");
    assert_eq!(v.recipients, vec!["x".to_string(), "y".to_string()]);
}

#[test]
fn decode_rejects_missing_close() {
    assert!(matches!(YageEncodedValue::from_str("yage[abc"), Err(YageError::InvalidValueEncoding)));
}

#[test]
fn decode_rejects_wrong_prefix() {
    assert!(matches!(YageEncodedValue::from_str("age[abc]"), Err(YageError::InvalidValueEncoding)));
}

#[test]
fn decode_rejects_wrong_marker() {
    assert!(matches!(
        YageEncodedValue::from_str("yage[abc|z:x]"),
        Err(YageError::InvalidValueEncoding)
    ));
}

#[test]
fn decode_rejects_two_bars() {
    assert!(YageEncodedValue::from_str("yage[a|r:x|r:y]").is_err());
}

#[test]
fn decode_empty_recipient_part() {
    let v = YageEncodedValue::from_str("yage[abc|r:]").unwrap();
    assert_eq!(v.recipients, vec![String::new()]);
}

#[test]
fn decode_non_ascii_payload() {
    let v = YageEncodedValue::from_str("yage[é€|r:ü]").unwrap();
    assert_eq!(v.data, "é€");
    assert_eq!(v.recipients, vec!["ü".to_string()]);
}

#[test]
fn encode_token_text() {
    let v = YageEncodedValue { data: "QUJD".to_string(), recipients: vec!["a".to_string(), "b".to_string()] };
    assert_eq!(v.to_string(), "yage[QUJD|r:a,b]");
}

#[test]
fn encode_then_decode() {
    let v = YageEncodedValue { data: "QUJD+/==".to_string(), recipients: vec!["age1x".to_string()] };
    let back = YageEncodedValue::from_str(&v.to_string()).unwrap();
    assert_eq!(back.data, v.data);
    assert_eq!(back.recipients, v.recipients);
}

#[test]
fn frame_detection() {
    assert!(is_yage_encoded("yage[]"));
    assert!(is_yage_encoded("yage[abc|z:x]"));
    assert!(!is_yage_encoded("yage["));
    assert!(!is_yage_encoded("plain"));
}
