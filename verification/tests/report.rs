use gm_core::docmap::DocMap;
use gm_core::error::{invalid, Error};
use gm_core::render::{changes, commit_line, issues};
use gm_core::store::{Change, ChangeKind, CommitInfo};
use gm_core::validate::{count, is_usable, unused_materials, Issue, Severity};

#[test]
fn findings_are_listed_errors_first() {
    let list = vec![
        Issue::warn(Some("CH-200"), "gammaW".to_string(), "odd".to_string()),
        Issue::error(Some("CH-100"), "layers[1].topLevel".to_string(), "inverted".to_string()),
        Issue::warn(None, "file.verticalDatum".to_string(), "no datum".to_string()),
    ];
    assert_eq!(
        issues(&list),
        "error    CH-100: layers[1].topLevel\n           inverted\n\
         warning  file.verticalDatum\n           no datum\n\
         warning  CH-200: gammaW\n           odd\n"
    );
    assert_eq!(issues(&[]), "no issues\n");
    assert_eq!(count(&list), (1, 2));
    assert!(!is_usable(&list));
    assert!(is_usable(&list[0..1]));
    assert_eq!(Severity::Error.as_str(), "error");
    assert_eq!(Severity::Warning.as_str(), "warning");
}

#[test]
fn changes_and_commits_are_one_line_each() {
    let list = vec![Change { kind: "material".to_string(), key: "CLAY".to_string(), change: ChangeKind::Added }];
    assert_eq!(changes(&list), "  A  material       CLAY\n");
    assert_eq!(changes(&[]), "working tree matches the last commit\n");
    let info = CommitInfo {
        hash: "sha256-0123456789abcdef".to_string(),
        author: "a@example.com".to_string(),
        committed_at: "2026-09-02T14:00:00Z".to_string(),
        message: "initial".to_string(),
        parents: vec![],
    };
    assert_eq!(
        commit_line(&info),
        "0123456789ab  2026-09-02T14:00:00Z  a@example.com             initial"
    );
}

#[test]
fn unused_materials_are_warned_about() {
    let mut mats = DocMap::new();
    mats.insert("CLAY", "1");
    mats.insert("PEAT", "2");
    let mut used = DocMap::new();
    used.insert("CLAY", "");
    let found = unused_materials(&mats, &used);
    assert_eq!(found.len(), 1);
    assert_eq!(found[0].field_path, "materials.PEAT");
    assert_eq!(found[0].message, "material 'PEAT' is not used by any model");
    assert_eq!(found[0].severity, Severity::Warning);
}

#[test]
fn errors_print_their_messages() {
    assert_eq!(invalid("bad".to_string()).message(), "bad");
    assert_eq!(
        Error::MissingObject("sha256-x".to_string()).message(),
        "object sha256-x is missing from the store"
    );
    assert_eq!(
        Error::CorruptObject { hash: "h".to_string(), actual: "a".to_string() }.message(),
        "object h is corrupt: content hashes to a"
    );
    assert_eq!(Error::NotARepository("p".to_string()).message(), "not a ground-model file");
}
