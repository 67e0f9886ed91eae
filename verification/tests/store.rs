use gm_core::docmap::DocMap;
use gm_core::error::Error;
use gm_core::store::{
    ancestry, diff_maps, hash_needle, history_times, layer_material, names_head, order_history, pick_commit, reachable,
    short_hash, Change, ChangeKind, CommitInfo,
};

fn info(hash: &str, at: &str, parents: &[&str]) -> CommitInfo {
    CommitInfo {
        hash: hash.to_string(),
        author: "a".to_string(),
        committed_at: at.to_string(),
        message: "m".to_string(),
        parents: parents.iter().map(|p| p.to_string()).collect(),
    }
}

fn hashes(v: &[CommitInfo]) -> Vec<String> {
    v.iter().map(|c| c.hash.clone()).collect()
}

#[test]
fn short_hashes_drop_the_prefix_and_keep_twelve_digits() {
    assert_eq!(short_hash("sha256-0123456789abcdef"), "0123456789ab");
    assert_eq!(short_hash("abc"), "abc");
    assert_eq!(info("sha256-ffffffffffffff", "t", &[]).short(), "ffffffffffff");
}

#[test]
fn markers_name_the_change() {
    assert_eq!(ChangeKind::Added.marker(), 'A');
    assert_eq!(ChangeKind::Modified.marker(), 'M');
    assert_eq!(ChangeKind::Deleted.marker(), 'D');
}

#[test]
fn status_lists_additions_and_edits_then_deletions() {
    let mut old = DocMap::new();
    old.insert("A", "1");
    old.insert("B", "2");
    old.insert("C", "3");
    let mut new = DocMap::new();
    new.insert("B", "2");
    new.insert("C", "33");
    new.insert("D", "4");
    let mut changes: Vec<Change> = Vec::new();
    diff_maps(&old, &new, "material", &mut changes);
    let got: Vec<(String, ChangeKind)> = changes.iter().map(|c| (c.key.clone(), c.change)).collect();
    assert_eq!(
        got,
        vec![
            ("C".to_string(), ChangeKind::Modified),
            ("D".to_string(), ChangeKind::Added),
            ("A".to_string(), ChangeKind::Deleted)
        ]
    );
    assert!(changes.iter().all(|c| c.kind == "material"));
}

#[test]
fn history_is_ordered_by_the_graph_not_the_clock() {
    // The child was stamped earlier than its parent by a skewed clock.
    let known = vec![
        info("root", "2026-01-01T00:00:00Z", &[]),
        info("parent", "2026-03-01T00:00:00Z", &["root"]),
        info("child", "2026-02-01T00:00:00Z", &["parent"]),
        info("unrelated", "2026-04-01T00:00:00Z", &[]),
    ];
    let out = ancestry("child", &known).unwrap();
    assert_eq!(hashes(&out), vec!["child", "parent", "root"]);
}

#[test]
fn the_sides_of_a_merge_are_ordered_by_time_then_hash() {
    let known = vec![
        info("root", "2026-01-01T00:00:00Z", &[]),
        info("left", "2026-01-02T00:00:00Z", &["root"]),
        info("right", "2026-01-03T00:00:00Z", &["root"]),
        info("merge", "2026-01-04T00:00:00Z", &["left", "right"]),
    ];
    let out = ancestry("merge", &known).unwrap();
    assert_eq!(hashes(&out), vec!["merge", "right", "left", "root"]);

    let tie = vec![
        info("root", "t0", &[]),
        info("aaa", "t1", &["root"]),
        info("bbb", "t1", &["root"]),
        info("top", "t2", &["aaa", "bbb"]),
    ];
    assert_eq!(hashes(&ancestry("top", &tie).unwrap()), vec!["top", "bbb", "aaa", "root"]);
}

#[test]
fn a_missing_commit_is_named() {
    let known = vec![info("child", "t", &["gone"])];
    let err = ancestry("child", &known).unwrap_err();
    assert_eq!(err.message(), "commit not found: gone");
    let err = reachable("nowhere", &known).unwrap_err();
    assert_eq!(err.message(), "commit not found: nowhere");
}

#[test]
fn reachable_commits_start_at_the_tip() {
    let known = vec![
        info("root", "t0", &[]),
        info("a", "t1", &["root"]),
        info("b", "t2", &["a", "root"]),
    ];
    let r = reachable("b", &known).unwrap();
    assert_eq!(hashes(&r), vec!["b", "a", "root"]);
    assert_eq!(hashes(&order_history(&r)), vec!["b", "a", "root"]);
}

#[test]
fn head_is_named_in_any_case() {
    assert!(names_head("HEAD"));
    assert!(names_head("head"));
    assert!(names_head("HeAd"));
    assert!(!names_head("heads"));
    assert!(!names_head("hed"));
}

#[test]
fn an_abbreviated_id_is_matched_without_its_prefix() {
    assert_eq!(hash_needle("sha256-abc123"), "abc123");
    assert_eq!(hash_needle("abc123"), "abc123");
}

#[test]
fn an_abbreviated_id_must_name_exactly_one_commit() {
    assert_eq!(pick_commit("abc", vec!["sha256-abcdef".to_string()]).unwrap(), "sha256-abcdef");
    match pick_commit("zzz", Vec::new()) {
        Err(Error::NotFound(what, name)) => {
            assert_eq!(what, "commit");
            assert_eq!(name, "zzz");
        }
        other => panic!("expected not found, got {other:?}"),
    }
    match pick_commit("a", vec!["sha256-a1".to_string(), "sha256-a2".to_string()]) {
        Err(Error::Invalid(m)) => assert_eq!(m, "a is ambiguous: 2 commits match"),
        other => panic!("expected ambiguity, got {other:?}"),
    }
}

fn entry(kind: &str, key: &str, blob: &str) -> (String, String, String) {
    (kind.to_string(), key.to_string(), blob.to_string())
}

#[test]
fn documents_take_their_times_from_the_commits_that_changed_them() {
    let history = vec![
        ("t1".to_string(), vec![entry("material", "CLAY", "b1"), entry("ground_model", "CH-0", "m1")]),
        ("t2".to_string(), vec![entry("material", "CLAY", "b1"), entry("ground_model", "CH-0", "m2")]),
        ("t3".to_string(), vec![entry("material", "CLAY", "b1"), entry("ground_model", "CH-0", "m2")]),
    ];
    let times = history_times(&history);
    assert_eq!(times.len(), 2);
    let clay = times.iter().find(|t| t.key == "CLAY").unwrap();
    assert_eq!((clay.created.as_str(), clay.updated.as_str()), ("t1", "t1"));
    let model = times.iter().find(|t| t.key == "CH-0").unwrap();
    assert_eq!((model.created.as_str(), model.updated.as_str()), ("t1", "t2"));
}

#[test]
fn a_missing_parent_off_the_path_does_not_matter() {
    let known = vec![info("c1", "t1", &[]), info("c2", "t2", &["c1"]), info("c9", "t9", &["gone"])];
    let got = reachable("c2", &known).expect("everything reachable from c2 is known");
    assert_eq!(hashes(&got), vec!["c2".to_string(), "c1".to_string()]);
    assert_eq!(hashes(&ancestry("c2", &known).unwrap()), vec!["c2".to_string(), "c1".to_string()]);
}

#[test]
fn history_keeps_every_field_of_each_commit() {
    let mut c2 = info("c2", "t2", &["c1"]);
    c2.author = "B. Driller".to_string();
    c2.message = "re-log".to_string();
    let known = vec![info("c1", "t1", &[]), c2];
    let log = ancestry("c2", &known).unwrap();
    assert_eq!(log[0].author, "B. Driller");
    assert_eq!(log[0].message, "re-log");
    assert_eq!(log[1].author, "a");
}

#[test]
fn a_layer_on_an_unknown_material_is_refused_by_name() {
    let mut ids = DocMap::new();
    ids.insert("CLAY", "sha256-c1");
    assert_eq!(layer_material(&ids, "CH-0", 0, "CLAY").unwrap(), "sha256-c1");
    match layer_material(&ids, "CH-0", 2, "PEAT") {
        Err(Error::Invalid(m)) => assert_eq!(m, "model 'CH-0' layer 3 references unknown material 'PEAT'"),
        other => panic!("expected a refusal, got {other:?}"),
    }
}
