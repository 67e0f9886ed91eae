use gm_core::canon::hash_value;
use gm_core::commit::{Manifest, ManifestEntry};

fn entry(kind: &str, key: &str, blob: &str) -> ManifestEntry {
    ManifestEntry {
        kind: kind.into(),
        key: key.into(),
        blob: blob.into(),
    }
}

#[test]
fn entry_order_does_not_affect_the_commit_id() {
    let a = Manifest::new(
        vec![],
        "a@example.com",
        "2026-09-02T14:00:00Z",
        "initial",
        vec![
            entry("material", "LONDON_CLAY", "sha256-bb"),
            entry("ground_model", "CH-100", "sha256-aa"),
        ],
    );
    let b = Manifest::new(
        vec![],
        "a@example.com",
        "2026-09-02T14:00:00Z",
        "initial",
        vec![
            entry("ground_model", "CH-100", "sha256-aa"),
            entry("material", "LONDON_CLAY", "sha256-bb"),
        ],
    );
    assert_eq!(a.hash().unwrap(), b.hash().unwrap());
}

#[test]
fn changing_one_document_changes_the_commit_id() {
    let base = Manifest::new(
        vec![],
        "a@example.com",
        "2026-09-02T14:00:00Z",
        "initial",
        vec![entry("ground_model", "CH-100", "sha256-aa")],
    );
    let changed = Manifest::new(
        vec![],
        "a@example.com",
        "2026-09-02T14:00:00Z",
        "initial",
        vec![entry("ground_model", "CH-100", "sha256-ab")],
    );
    assert_ne!(base.hash().unwrap(), changed.hash().unwrap());
}

#[test]
fn the_commit_id_is_the_hash_of_the_manifest_document() {
    let m = Manifest::new(
        vec!["sha256-parent".to_string()],
        "a@example.com",
        "2026-09-02T14:00:00Z",
        "second",
        vec![
            entry("material", "MADE_GROUND", "sha256-cc"),
            entry("file_metadata", "file", "sha256-dd"),
        ],
    );
    assert_eq!(m.hash().unwrap(), hash_value(&m.to_json()).unwrap());
    assert_eq!(
        m.canonical_text(),
        "{\"author\":\"a@example.com\",\"committedAt\":\"2026-09-02T14:00:00Z\",\"entries\":[\
         {\"blob\":\"sha256-dd\",\"key\":\"file\",\"kind\":\"file_metadata\"},\
         {\"blob\":\"sha256-cc\",\"key\":\"MADE_GROUND\",\"kind\":\"material\"}],\
         \"message\":\"second\",\"parents\":[\"sha256-parent\"],\"type\":\"gm.commit/1\"}"
    );
}

#[test]
fn entries_are_found_by_kind_and_key() {
    let m = Manifest::new(
        vec![],
        "a",
        "t",
        "m",
        vec![
            entry("material", "B", "sha256-2"),
            entry("ground_model", "X", "sha256-3"),
            entry("material", "A", "sha256-1"),
        ],
    );
    assert_eq!(m.entries[0].kind, "ground_model");
    assert_eq!(m.entries[1].key, "A");
    assert_eq!(m.entry("material", "B").map(|e| e.blob.clone()), Some("sha256-2".to_string()));
    assert!(m.entry("material", "C").is_none());
    let mats: Vec<String> = m.entries_of_kind("material").into_iter().map(|e| e.key).collect();
    assert_eq!(mats, vec!["A".to_string(), "B".to_string()]);
    assert_eq!(m.type_, Manifest::TYPE);
}
