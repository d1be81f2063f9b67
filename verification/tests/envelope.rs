use rut::envelope::{base64, base64_decode, json_escape, run_envelope};
use rut::value::{err_of_value, Value};

fn escaped(s: &str) -> String {
    let mut out = String::new();
    json_escape(s, &mut out);
    out
}

#[test]
fn json_escape_quotes_and_escapes() {
    assert_eq!(escaped("hello"), "\"hello\"");
    assert_eq!(escaped("a\"b\\c"), "\"a\\\"b\\\\c\"");
    assert_eq!(escaped("l1\nl2\r\t"), "\"l1\\nl2\\r\\t\"");
    assert_eq!(escaped("\u{1}\u{1f}"), "\"\\u0001\\u001f\"");
    assert_eq!(escaped("héllo→"), "\"héllo→\"", "non-ASCII passes through");
    assert_eq!(escaped(""), "\"\"");
    let mut out = String::from("[");
    json_escape("x", &mut out);
    assert_eq!(out, "[\"x\"", "the escape appends");
}

#[test]
fn base64_matches_the_standard_vectors() {
    assert_eq!(base64(b""), "");
    assert_eq!(base64(b"f"), "Zg==");
    assert_eq!(base64(b"fo"), "Zm8=");
    assert_eq!(base64(b"foo"), "Zm9v");
    assert_eq!(base64(b"foob"), "Zm9vYg==");
    assert_eq!(base64(b"fooba"), "Zm9vYmE=");
    assert_eq!(base64(b"foobar"), "Zm9vYmFy");
    assert_eq!(base64(&[0xff, 0xfe, 0x00]), "//4A");
}

#[test]
fn base64_decode_reads_what_base64_writes() {
    assert_eq!(base64_decode("Zm9vYmFy"), Some(b"foobar".to_vec()));
    assert_eq!(base64_decode("Zg=="), Some(b"f".to_vec()));
    assert_eq!(base64_decode("Zm8="), Some(b"fo".to_vec()));
    assert_eq!(base64_decode("Zg"), Some(b"f".to_vec()), "padding is optional");
    assert_eq!(base64_decode(""), Some(Vec::new()));
    assert_eq!(base64_decode("Zm9v!"), None, "a byte outside the alphabet refuses the input");
    assert_eq!(base64_decode("Zg==garbage!"), Some(b"f".to_vec()), "decoding stops at the first pad");
    let all: Vec<u8> = (0..=255u8).collect();
    assert_eq!(base64_decode(&base64(&all)), Some(all));
}

#[test]
fn a_clean_run_envelope() {
    let out = vec!["hello".to_string()];
    let j = run_envelope(&out, None, None, 42, 1024, false);
    assert_eq!(
        j,
        "{\"output\":[\"hello\"],\"trap\":null,\"err\":null,\"fuelUsed\":42,\"heapBytes\":1024,\"parked\":false}"
    );
}

#[test]
fn a_parked_run_envelope_carries_the_trap() {
    let out = vec!["tick 1000000".to_string(), "a \"q\"".to_string()];
    let j = run_envelope(&out, Some("OutOfFuel"), None, 12_000_000, 0, true);
    assert_eq!(
        j,
        "{\"output\":[\"tick 1000000\",\"a \\\"q\\\"\"],\"trap\":\"OutOfFuel\",\"err\":null,\"fuelUsed\":12000000,\"heapBytes\":0,\"parked\":true}"
    );
}

#[test]
fn a_returned_err_rides_err_beside_a_null_trap() {
    let v = Value::Tuple(vec![Value::Nil, Value::Str("boom".to_string())]);
    let err = err_of_value(&v);
    assert_eq!(err.as_deref(), Some("boom"));
    let j = run_envelope(&[], None, err.as_deref(), 0, 0, false);
    assert_eq!(j, "{\"output\":[],\"trap\":null,\"err\":\"boom\",\"fuelUsed\":0,\"heapBytes\":0,\"parked\":false}");
}

#[test]
fn an_empty_err_and_every_other_shape_surfaces_no_err() {
    assert_eq!(err_of_value(&Value::Tuple(vec![Value::Nil, Value::Str(String::new())])), None);
    assert_eq!(err_of_value(&Value::Str("boom".to_string())), None);
    assert_eq!(err_of_value(&Value::Nil), None);
    assert_eq!(err_of_value(&Value::Tuple(vec![Value::Str("boom".to_string()), Value::I64(1)])), None);
    assert_eq!(
        err_of_value(&Value::Tuple(vec![Value::Nil, Value::Str("a".to_string()), Value::Nil])),
        None
    );
}

#[test]
fn value_kinds_in_words() {
    assert_eq!(Value::Nil.kind_name(), "nil");
    assert_eq!(Value::I64(3).kind_name(), "an integer");
    assert_eq!(Value::F64(1.5f64.to_bits()).kind_name(), "a float");
    assert_eq!(Value::Opaque(7).kind_name(), "an opaque");
    assert_eq!(Value::Bytes(vec![1]).kind_name(), "bytes");
    assert_eq!(Value::Tuple(vec![]).kind_name(), "a tuple");
}

#[test]
fn bad_base64_answers_its_own_envelope() {
    assert_eq!(
        rut::envelope::run_b64_input("AQ*D").unwrap_err(),
        "{\"output\":[],\"trap\":\"bad base64\",\"err\":null,\"fuelUsed\":0,\"heapBytes\":0,\"parked\":false}"
    );
    assert_eq!(rut::envelope::run_b64_input("AQID").unwrap(), vec![1, 2, 3]);
}
