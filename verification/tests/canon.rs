use gm_core::canon::{canonicalize, ecma_from_exponential, hash_bytes, hash_value, utf16_units, write_string, Json};

fn obj(members: Vec<(&str, Json)>) -> Json {
    Json::Object(members.into_iter().map(|(k, v)| (k.to_string(), v)).collect())
}

#[test]
fn keys_are_sorted_and_whitespace_stripped() {
    let v = obj(vec![("b", Json::Int(1)), ("a", obj(vec![("d", Json::Int(2)), ("c", Json::Int(3))]))]);
    assert_eq!(canonicalize(&v).unwrap(), r#"{"a":{"c":3,"d":2},"b":1}"#);
}

#[test]
fn key_order_uses_utf16_units_not_utf8_bytes() {
    let emoji = "\u{1F600}";
    let fullwidth_z = "\u{FF3A}";
    assert!(emoji > fullwidth_z, "UTF-8 order should put the emoji last");

    let v = obj(vec![(emoji, Json::Int(1)), (fullwidth_z, Json::Int(2))]);
    let out = canonicalize(&v).unwrap();
    assert!(
        out.find(emoji).unwrap() < out.find(fullwidth_z).unwrap(),
        "expected the emoji key first under UTF-16 order, got {out}"
    );
}

#[test]
fn numbers_follow_the_ecmascript_rules() {
    let cases: [(f64, &str); 9] = [
        (0.0, "0"),
        (-0.0, "0"),
        (1.0, "1"),
        (-2.5, "-2.5"),
        (1e21, "1e+21"),
        (1e-7, "1e-7"),
        (0.000001, "0.000001"),
        (9.81, "9.81"),
        (1e-6 / 10.0, "1e-7"),
    ];
    for (input, expected) in cases {
        let sci = format!("{:e}", input.abs());
        assert_eq!(
            ecma_from_exponential(input < 0.0, &sci).unwrap(),
            expected,
            "for {input}"
        );
    }
}

#[test]
fn more_numbers_take_the_right_form() {
    let cases: [(f64, &str); 6] = [
        (123456.0, "123456"),
        (1.5e20, "150000000000000000000"),
        (0.1234, "0.1234"),
        (12.5e-7, "0.00000125"),
        (1.25e-7, "1.25e-7"),
        (3.75e25, "3.75e+25"),
    ];
    for (input, expected) in cases {
        let sci = format!("{:e}", input.abs());
        assert_eq!(ecma_from_exponential(input < 0.0, &sci).unwrap(), expected, "for {input}");
    }
}

#[test]
fn non_finite_numbers_have_no_canonical_form() {
    for x in [f64::INFINITY, f64::NEG_INFINITY, f64::NAN] {
        let sci = format!("{:e}", x.abs());
        assert!(ecma_from_exponential(x < 0.0, &sci).is_err());
    }
    let v = Json::Float { negative: false, exponential: "inf".to_string() };
    assert_eq!(canonicalize(&v).unwrap_err().message(), "cannot canonicalise a non-finite number");
}

#[test]
fn control_characters_use_short_escapes() {
    let v = obj(vec![("k", Json::String("a\nb\u{1}c".to_string()))]);
    assert_eq!(canonicalize(&v).unwrap(), "{\"k\":\"a\\nb\\u0001c\"}");
}

#[test]
fn hashing_is_insensitive_to_input_key_order() {
    let a = obj(vec![("x", Json::Int(1)), ("y", Json::Array(vec![Json::Int(2), Json::Int(3)]))]);
    let b = obj(vec![("y", Json::Array(vec![Json::Int(2), Json::Int(3)])), ("x", Json::Int(1))]);
    assert_eq!(hash_value(&a).unwrap(), hash_value(&b).unwrap());
}

#[test]
fn every_scalar_has_its_canonical_text() {
    let v = Json::Array(vec![
        Json::Null,
        Json::Bool(true),
        Json::Bool(false),
        Json::Int(-42),
        Json::UInt(18446744073709551615),
        Json::String("q\"\\\u{8}\u{c}\r\t".to_string()),
    ]);
    assert_eq!(
        canonicalize(&v).unwrap(),
        "[null,true,false,-42,18446744073709551615,\"q\\\"\\\\\\b\\f\\r\\t\"]"
    );
    let mut out = String::new();
    write_string("\u{1f}", &mut out);
    assert_eq!(out, "\"\\u001f\"");
}

#[test]
fn an_object_id_is_the_hex_sha256_of_the_bytes() {
    assert_eq!(
        hash_bytes(b"abc"),
        "sha256-ba7816bf8f01cfea414140de5dae2223b00361a396177a9cb410ff61f20015ad"
    );
    assert_eq!(utf16_units("a\u{1F600}"), vec![0x61, 0xD83D, 0xDE00]);
}

#[test]
fn an_object_is_accepted_only_under_its_own_hash() {
    let abc = "sha256-ba7816bf8f01cfea414140de5dae2223b00361a396177a9cb410ff61f20015ad";
    assert!(gm_core::canon::verify_object(abc, b"abc").is_ok());
    match gm_core::canon::verify_object(abc, b"abd") {
        Err(gm_core::error::Error::CorruptObject { hash, actual }) => {
            assert_eq!(hash, abc);
            assert_eq!(actual, gm_core::canon::hash_bytes(b"abd"));
            assert_ne!(actual, abc);
        }
        other => panic!("expected a corrupt object, got {other:?}"),
    }
}
