use script_bridge::bridge::{bridge_response, json_to_msgpack, msgpack_to_json};
use script_bridge::eval::eval_outcome;
use script_bridge::msgpack::{decode, encode};
use script_bridge::json::parse;
use script_bridge::{MockType, Value};

#[test]
fn end_to_end_serialization() {
    let input = MockType { prop: "a".to_string() };
    let bytes = rmp_serde::encode::to_vec(&vec![input.prop.as_str()]).unwrap();

    let json = msgpack_to_json(&bytes).unwrap();
    let result = json_to_msgpack(&json).unwrap();

    assert_eq!(result, bytes);
}

#[test]
fn binary_round_trip_concrete() {
    let v = Value::Obj(vec![
        (b"x".to_vec(), Value::UInt(1)),
        (b"list".to_vec(), Value::Arr(vec![Value::Null, Value::Bool(true), Value::Int(-5)])),
        (b"name".to_vec(), Value::Text(b"turtle".to_vec())),
    ]);
    let bytes = encode(&v);
    let back = decode(&bytes).unwrap();
    assert_eq!(back, v);
}

#[test]
fn binary_reencode_is_identity() {
    let v = Value::Arr(vec![
        Value::UInt(0),
        Value::UInt(127),
        Value::UInt(128),
        Value::UInt(65536),
        Value::UInt(u64::MAX),
        Value::Int(-1),
        Value::Int(-32),
        Value::Int(-33),
        Value::Int(-129),
        Value::Int(i64::MIN),
        Value::Text(vec![]),
        Value::Obj(vec![]),
    ]);
    let bytes = encode(&v);
    let back = decode(&bytes).unwrap();
    assert_eq!(encode(&back), bytes);
}

#[test]
fn binary_layout_matches_common_encoders() {
    // {"x":1} in the wire format, as ordinary encoders write it.
    let v = Value::Obj(vec![(b"x".to_vec(), Value::UInt(1))]);
    assert_eq!(encode(&v), vec![0x81, 0xa1, 0x78, 0x01]);
    // The same bytes from an independent encoder.
    let m: serde_json::Value = serde_json::from_str("{\"x\":1}").unwrap();
    let other = rmp_serde::encode::to_vec(&m).unwrap();
    assert_eq!(encode(&v), other);
    let m2: serde_json::Value = serde_json::from_str("[-5,300]").unwrap();
    let other2 = rmp_serde::encode::to_vec(&m2).unwrap();
    let v2 = Value::Arr(vec![Value::Int(-5), Value::UInt(300)]);
    assert_eq!(encode(&v2), other2);
}

#[test]
fn document_round_trip_concrete() {
    let v = Value::Obj(vec![
        (b"a".to_vec(), Value::UInt(18446744073709551615)),
        (b"b".to_vec(), Value::Int(i64::MIN)),
        (b"c".to_vec(), Value::Text(b"line\nbreak \"quoted\" \\slash".to_vec())),
        (b"d".to_vec(), Value::Arr(vec![])),
    ]);
    let doc = script_bridge::json::format(&v);
    let back = parse(&doc).unwrap();
    assert_eq!(back, v);
}

#[test]
fn document_format_exact() {
    let v = Value::Obj(vec![
        (b"x".to_vec(), Value::UInt(1)),
        (b"y".to_vec(), Value::Arr(vec![Value::Null, Value::Bool(false)])),
    ]);
    let doc = script_bridge::json::format(&v);
    assert_eq!(String::from_utf8(doc).unwrap(), "{\"x\":1,\"y\":[null,false]}");
}

#[test]
fn document_escapes_match_standard_form() {
    // The document for a control character matches what standard emitters
    // produce, so the pivot text is interchangeable.
    let v = Value::Text(b"a\tb\x01c".to_vec());
    let doc = String::from_utf8(script_bridge::json::format(&v)).unwrap();
    let std_doc = serde_json::to_string(&serde_json::Value::String("a\tb\u{1}c".to_string()))
        .unwrap();
    assert_eq!(doc, std_doc);
}

#[test]
fn document_parse_accepts_standard_escapes() {
    let doc = "\"\\u0041\\n\\\"\\\\\\u00e9\"";
    let parsed = parse(doc.as_bytes()).unwrap();
    assert_eq!(parsed, Value::Text("A\n\"\\\u{e9}".to_string().into_bytes()));
}

#[test]
fn document_rejects_fractions_and_garbage() {
    assert!(parse(b"1.5").is_none());
    assert!(parse(b"1e3").is_none());
    assert!(parse(b"tru").is_none());
    assert!(parse(b"[1,]").is_none());
    assert!(parse(b"").is_none());
    assert!(parse(b"{\"a\"1}").is_none());
}

#[test]
fn json_to_msgpack_matches_original_pipeline() {
    // The same conversion the unverified stack produces.
    let doc = "{\"x\":1}";
    let mine = json_to_msgpack(doc).unwrap();
    let theirs: serde_json::Value = serde_json::from_str(doc).unwrap();
    let theirs = rmp_serde::encode::to_vec(&theirs).unwrap();
    assert_eq!(mine, theirs);
}

#[test]
fn json_to_msgpack_rejects_bad_documents() {
    assert!(json_to_msgpack("not a document").is_err());
    assert!(json_to_msgpack("{\"x\":}").is_err());
    assert!(json_to_msgpack("3.25").is_err());
}

#[test]
fn msgpack_to_json_rejects_bad_payloads() {
    assert!(msgpack_to_json(&[0xc1]).is_err());
    assert!(msgpack_to_json(&[]).is_err());
    // A truncated string header.
    assert!(msgpack_to_json(&[0xa5, 0x61]).is_err());
    // Trailing bytes after a complete value.
    assert!(msgpack_to_json(&[0xc0, 0xc0]).is_err());
}

#[test]
fn msgpack_to_json_decodes_nested_values() {
    let bytes = json_to_msgpack("{\"k\":[1,-2,\"three\",null,true]}").unwrap();
    let doc = msgpack_to_json(&bytes).unwrap();
    assert_eq!(doc, "{\"k\":[1,-2,\"three\",null,true]}");
}

#[test]
fn bridge_delivers_decoded_response_unchanged() {
    // A dispatcher that answers ('svc','m', <binary of {x:1}>) with the
    // binary of {x:1,y:2}: the script sees {"x":1,"y":2}.
    let args = json_to_msgpack("{\"x\":1}").unwrap();
    let respond = |payload: &[u8]| -> Result<Vec<u8>, String> {
        if payload == json_to_msgpack("{\"x\":1}").unwrap().as_slice() {
            Ok(json_to_msgpack("{\"x\":1,\"y\":2}").unwrap())
        } else {
            Err("unexpected payload".to_string())
        }
    };
    let outcome = respond(&args);
    let doc = bridge_response(outcome).unwrap();
    assert_eq!(doc, "{\"x\":1,\"y\":2}");
}

#[test]
fn bridge_returns_failure_message_as_string_value() {
    let doc = bridge_response(Err("unreachable".to_string())).unwrap();
    assert_eq!(doc, "\"unreachable\"");
}

#[test]
fn bridge_quotes_undecodable_response() {
    let doc = bridge_response(Ok(vec![0xc1])).unwrap();
    assert_eq!(doc, "\"invalid binary payload\"");
}

#[test]
fn eval_outcome_populates_exactly_one_field() {
    let ok = eval_outcome(Ok("{\"x\":1}".to_string()));
    assert_eq!(ok.value.as_deref(), Some("{\"x\":1}"));
    assert!(ok.error.is_none());

    let err = eval_outcome(Err("ReferenceError: nope is not defined".to_string()));
    assert!(err.value.is_none());
    assert_eq!(err.error.as_deref(), Some("ReferenceError: nope is not defined"));
}

#[test]
fn entropy_stub_reports_success_and_writes_nothing() {
    let mut buf = [7u8; 4];
    assert!(script_bridge::entropy::custom_getrandom(&mut buf).is_ok());
    assert_eq!(buf, [7u8; 4]);
}

#[test]
fn large_integers_keep_exact_text() {
    let doc = "[18446744073709551615,-9223372036854775808]";
    let bytes = json_to_msgpack(doc).unwrap();
    assert_eq!(msgpack_to_json(&bytes).unwrap(), doc);
    // One past either end no longer fits the wire format's integers.
    assert!(json_to_msgpack("18446744073709551616").is_err());
    assert!(json_to_msgpack("-9223372036854775809").is_err());
}

#[test]
fn mapping_key_order_is_preserved() {
    let doc = "{\"b\":1,\"a\":2,\"c\":3}";
    let bytes = json_to_msgpack(doc).unwrap();
    assert_eq!(msgpack_to_json(&bytes).unwrap(), doc);
}
