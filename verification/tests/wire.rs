use gm_core::wire::{decode_bundle, encode_bundle, RemoteInfo, BUNDLE_MAGIC};

fn object(hash: &str, body: &str) -> (String, Vec<u8>) {
    (hash.to_string(), body.as_bytes().to_vec())
}

#[test]
fn a_bundle_round_trips() {
    let objects = vec![
        object("sha256-aa", r#"{"modelKey":"CH-100"}"#),
        object("sha256-bb", r#"{"materialKey":"LONDON_CLAY"}"#),
    ];
    let encoded = encode_bundle(&objects);
    assert_eq!(decode_bundle(&encoded).unwrap(), objects);
}

#[test]
fn an_empty_bundle_is_valid() {
    assert_eq!(decode_bundle(&encode_bundle(&[])).unwrap(), vec![]);
}

#[test]
fn payloads_containing_newlines_survive() {
    let objects = vec![object("sha256-aa", "line\nline\n42 not-a-header\n")];
    let encoded = encode_bundle(&objects);
    assert_eq!(decode_bundle(&encoded).unwrap(), objects);
}

#[test]
fn a_truncated_bundle_is_rejected_rather_than_half_applied() {
    let encoded = encode_bundle(&[object("sha256-aa", "0123456789")]);
    let truncated = &encoded[..encoded.len() - 4];
    let err = decode_bundle(truncated).expect_err("should refuse");
    assert!(err.message().contains("truncated"), "got: {}", err.message());
}

#[test]
fn something_that_is_not_a_bundle_is_rejected() {
    let err = decode_bundle(b"<!doctype html>\n<html>\n").expect_err("should refuse");
    assert!(
        err.message().contains("not a ground-model bundle"),
        "got: {}",
        err.message()
    );
}

#[test]
fn an_empty_body_is_rejected() {
    assert!(decode_bundle(b"").is_err());
}

#[test]
fn the_encoding_is_the_documented_layout() {
    let encoded = encode_bundle(&[object("sha256-aa", "xyz")]);
    assert_eq!(encoded, b"gm-bundle/1\nsha256-aa 3\nxyz".to_vec());
}

#[test]
fn each_decoding_error_says_what_went_wrong() {
    let cases: [(&[u8], &str); 6] = [
        (b"gm-bundle/1", "bundle ended mid-line"),
        (b"\xff\xfe\n", "bundle header is not valid UTF-8"),
        (b"gm-bundle/1\nsha256-aa\nabc", "malformed bundle entry: 'sha256-aa'"),
        (b"gm-bundle/1\nsha256-aa x\nabc", "malformed object length in 'sha256-aa x'"),
        (b"gm-bundle/1\nsha256-aa 5\nabc", "bundle is truncated: sha256-aa claims 5 bytes, 3 remain"),
        (
            b"not-a-bundle-at-all-and-quite-a-long-first-line-indeed\n",
            "not a ground-model bundle: expected 'gm-bundle/1', found 'not-a-bundle-at-all-and-quite-a-long-fir'",
        ),
    ];
    for (input, expected) in cases {
        let err = decode_bundle(input).expect_err("should refuse");
        assert_eq!(err.message(), expected);
    }
}

#[test]
fn a_length_may_carry_a_plus_sign_and_leading_zeros() {
    let decoded = decode_bundle(b"gm-bundle/1\nsha256-aa +003\nabc").unwrap();
    assert_eq!(decoded, vec![object("sha256-aa", "abc")]);
}

#[test]
fn the_magic_and_protocol_are_fixed() {
    assert_eq!(BUNDLE_MAGIC, "gm-bundle/1");
    assert_eq!(RemoteInfo::PROTOCOL, 1);
}

fn info(name: &str) -> RemoteInfo {
    RemoteInfo {
        protocol: RemoteInfo::PROTOCOL,
        file_id: "01J0000000000000000000000".to_string(),
        schema_version: "0.1.0".to_string(),
        head: None,
        name: name.to_string(),
        accepts_push: false,
    }
}

#[test]
fn a_clone_is_named_after_the_project() {
    assert_eq!(info("A13 corridor").clone_name(), "a13-corridor.gm");
    assert_eq!(info("  Route 7 -- Phase II ").clone_name(), "route-7-phase-ii.gm");
    assert_eq!(info("***").clone_name(), "ground-model.gm");
}
