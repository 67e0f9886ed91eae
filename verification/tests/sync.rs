use gm_core::docmap::DocMap;
use gm_core::sync::{
    merge_decision, merge_snapshots, merge_step, pull_decision, pull_step, push_go, MergeStep, PullStep, Snapshot,
};
use gm_core::sync::{
    check_same_project, is_ancestor, merge_base, merge_maps, merge_message, merge_one, objects_to_send,
    relation, union_keys, MergeResult, Merged, Relation,
};

fn map(pairs: &[(&str, &str)]) -> DocMap {
    let mut m = DocMap::new();
    for (k, v) in pairs {
        m.insert(k, v);
    }
    m
}

fn empty_result() -> MergeResult {
    MergeResult { conflicts: vec![], took_theirs: vec![], kept_ours: vec![] }
}

fn value(m: Merged) -> Option<String> {
    match m {
        Merged::Value(v) => Some(v),
        Merged::Conflict => None,
    }
}

#[test]
fn the_three_way_rule_for_one_document() {
    let (a, b, c) = ("sha256-a".to_string(), "sha256-b".to_string(), "sha256-c".to_string());
    assert_eq!(value(merge_one(Some(&a), &b, &b)), Some(b.clone()));
    assert_eq!(value(merge_one(Some(&a), &a, &b)), Some(b.clone()));
    assert_eq!(value(merge_one(Some(&a), &b, &a)), Some(b.clone()));
    assert_eq!(value(merge_one(Some(&a), &b, &c)), None);
    assert_eq!(value(merge_one(None, &b, &c)), None);
}

#[test]
fn edits_to_different_documents_merge_without_conflict() {
    let base = map(&[("CH-100", "m1"), ("CH-200", "m2"), ("CLAY", "c1")]);
    let ours = map(&[("CH-100", "m1-ours"), ("CH-200", "m2"), ("CLAY", "c1")]);
    let theirs = map(&[("CH-100", "m1"), ("CH-200", "m2-theirs"), ("CLAY", "c1"), ("SAND", "s1")]);
    let mut result = empty_result();
    let out = merge_maps(Some(&base), &ours, &theirs, "ground_model", &mut result);
    assert!(result.conflicts.is_empty());
    assert_eq!(out.get("CH-100").cloned(), Some("m1-ours".to_string()));
    assert_eq!(out.get("CH-200").cloned(), Some("m2-theirs".to_string()));
    assert_eq!(out.get("SAND").cloned(), Some("s1".to_string()));
    assert_eq!(result.took_theirs, vec!["CH-200".to_string(), "SAND".to_string()]);
    assert_eq!(result.kept_ours, vec!["CH-100".to_string()]);
}

#[test]
fn edits_to_the_same_document_conflict() {
    let base = map(&[("CH-100", "m1"), ("CH-300", "m3")]);
    let ours = map(&[("CH-100", "m1-ours")]);
    let theirs = map(&[("CH-100", "m1-theirs"), ("CH-300", "m3-theirs")]);
    let mut result = empty_result();
    let out = merge_maps(Some(&base), &ours, &theirs, "ground_model", &mut result);
    let keys: Vec<(String, String)> =
        result.conflicts.iter().map(|c| (c.kind.clone(), c.key.clone())).collect();
    assert_eq!(
        keys,
        vec![
            ("ground_model".to_string(), "CH-100".to_string()),
            ("ground_model".to_string(), "CH-300".to_string())
        ]
    );
    assert!(out.is_empty());
}

#[test]
fn a_deletion_against_an_untouched_document_is_accepted() {
    let base = map(&[("A", "1"), ("B", "2")]);
    let ours = map(&[("B", "2")]);
    let theirs = map(&[("A", "1")]);
    let mut result = empty_result();
    let out = merge_maps(Some(&base), &ours, &theirs, "material", &mut result);
    assert!(result.conflicts.is_empty());
    assert!(out.is_empty());
}

#[test]
fn without_a_base_a_document_on_one_side_is_an_addition() {
    let ours = map(&[("A", "1")]);
    let theirs = map(&[("B", "2")]);
    let mut result = empty_result();
    let out = merge_maps(None, &ours, &theirs, "material", &mut result);
    assert_eq!(out.keys(), vec!["A".to_string(), "B".to_string()]);
    assert_eq!(result.took_theirs, vec!["B".to_string()]);
    assert_eq!(union_keys(&ours, &theirs), vec!["A".to_string(), "B".to_string()]);
}

#[test]
fn relations_between_histories_are_reported_correctly() {
    let h = |s: &[&str]| s.iter().map(|x| x.to_string()).collect::<Vec<String>>();
    let a_anc = h(&["a", "root"]);
    let b_anc = h(&["b", "a", "root"]);
    let c_anc = h(&["c", "a", "root"]);
    assert!(matches!(relation("a", "a", &a_anc, &a_anc), Relation::Same));
    assert!(matches!(relation("a", "b", &a_anc, &b_anc), Relation::Behind));
    assert!(matches!(relation("b", "a", &b_anc, &a_anc), Relation::Ahead));
    match relation("b", "c", &b_anc, &c_anc) {
        Relation::Diverged { base } => assert_eq!(base, Some("a".to_string())),
        other => panic!("expected divergence, got {other:?}"),
    }
    assert!(is_ancestor(&b_anc, "root"));
    assert_eq!(merge_base(&h(&["x"]), &h(&["y"])), None);
}

#[test]
fn unrelated_projects_are_refused_and_merges_are_named() {
    assert!(check_same_project("01A", "01A").is_ok());
    let err = check_same_project("01A", "01B").unwrap_err();
    assert_eq!(
        err.message(),
        "these are different projects: 01A and 01B. Use `gm import` to bring models across from an unrelated file."
    );
    assert_eq!(
        merge_message("sha256-0123456789abcdef", "sha256-fedcba9876543210"),
        "Merge fedcba987654 into 0123456789ab"
    );
}

fn commit(hash: &str, blobs: &[&str]) -> (String, Vec<String>) {
    (hash.to_string(), blobs.iter().map(|b| b.to_string()).collect())
}

#[test]
fn a_bundle_holds_only_what_the_peer_lacks() {
    // Root commit c1 lists m1 and f; c2 changes m1 to m2 and keeps f.
    let history = vec![commit("c1", &["f", "m1"]), commit("c2", &["f", "m2"])];
    let peer = vec!["c1".to_string()];
    assert_eq!(objects_to_send(&history, &peer), vec!["m2".to_string(), "c2".to_string()]);
}

#[test]
fn a_peer_with_nothing_gets_everything_once() {
    let history = vec![commit("c1", &["f", "m1"]), commit("c2", &["f", "m2"])];
    let sent = objects_to_send(&history, &Vec::new());
    assert_eq!(sent, vec!["f", "m1", "c1", "m2", "c2"].into_iter().map(String::from).collect::<Vec<_>>());
}

#[test]
fn a_peer_at_our_head_gets_nothing() {
    let history = vec![commit("c1", &["f", "m1"]), commit("c2", &["f", "m2"])];
    let peer = vec!["c1".to_string(), "c2".to_string(), "elsewhere".to_string()];
    assert!(objects_to_send(&history, &peer).is_empty());
}

#[test]
fn a_pull_never_writes_over_uncommitted_work() {
    assert!(matches!(pull_step(Relation::Behind, false), Ok(PullStep::FastForward)));
    assert!(matches!(pull_step(Relation::Behind, true), Err(gm_core::error::Error::DirtyWorkingTree)));
    assert!(matches!(pull_step(Relation::Same, true), Ok(PullStep::Stay)));
    assert!(matches!(pull_step(Relation::Ahead, false), Ok(PullStep::Stay)));
    match pull_step(Relation::Diverged { base: Some("b".to_string()) }, true) {
        Ok(PullStep::Diverged { base }) => assert_eq!(base.as_deref(), Some("b")),
        other => panic!("expected divergence, got {other:?}"),
    }
}

#[test]
fn a_merge_is_refused_over_uncommitted_work_and_skipped_when_nothing_is_new() {
    assert!(matches!(merge_step(true, &Relation::Behind), Err(gm_core::error::Error::DirtyWorkingTree)));
    assert!(matches!(merge_step(false, &Relation::Same), Ok(MergeStep::AlreadyUpToDate)));
    assert!(matches!(merge_step(false, &Relation::Ahead), Ok(MergeStep::AlreadyUpToDate)));
    assert!(matches!(merge_step(false, &Relation::Behind), Ok(MergeStep::FastForward)));
    assert!(matches!(merge_step(false, &Relation::Diverged { base: None }), Ok(MergeStep::Merge)));
}

#[test]
fn a_push_goes_ahead_only_as_a_fast_forward() {
    let ours = vec!["c2".to_string(), "c1".to_string()];
    assert_eq!(push_go(None, "c2", &ours, false).unwrap(), true);
    assert_eq!(push_go(Some("c2"), "c2", &ours, true).unwrap(), false);
    assert_eq!(push_go(Some("c1"), "c2", &ours, false).unwrap(), true);
    match push_go(Some("x9"), "c2", &ours, false) {
        Err(gm_core::error::Error::Invalid(m)) => {
            assert_eq!(m, "the remote has commits you do not: pull and merge before pushing")
        }
        other => panic!("expected a refusal, got {other:?}"),
    }
    match push_go(Some("c1"), "c2", &ours, true) {
        Err(gm_core::error::Error::Invalid(m)) => assert!(m.contains("uncommitted changes")),
        other => panic!("expected a refusal, got {other:?}"),
    }
}

fn anc(v: &[&str]) -> Vec<String> {
    v.iter().map(|s| s.to_string()).collect()
}

#[test]
fn a_pull_fast_forwards_only_when_only_the_other_side_moved() {
    // c1 <- c2 (ours) ; c1 <- c2 <- c3 (theirs)
    let ours = anc(&["c2", "c1"]);
    let theirs = anc(&["c3", "c2", "c1"]);
    assert!(matches!(pull_decision("c2", "c3", &ours, &theirs, false), Ok(PullStep::FastForward)));
    assert!(matches!(pull_decision("c2", "c3", &ours, &theirs, true), Err(gm_core::error::Error::DirtyWorkingTree)));
    assert!(matches!(pull_decision("c3", "c2", &theirs, &ours, true), Ok(PullStep::Stay)));
    let other = anc(&["d2", "c1"]);
    match pull_decision("c2", "d2", &ours, &other, false) {
        Ok(PullStep::Diverged { base }) => assert_eq!(base.as_deref(), Some("c1")),
        other => panic!("expected divergence, got {other:?}"),
    }
}

#[test]
fn merging_what_we_already_hold_does_nothing() {
    let ours = anc(&["c3", "c2", "c1"]);
    let theirs = anc(&["c2", "c1"]);
    assert!(matches!(merge_decision(false, "c3", "c2", &ours, &theirs), Ok(MergeStep::AlreadyUpToDate)));
    assert!(matches!(merge_decision(false, "c2", "c3", &theirs, &ours), Ok(MergeStep::FastForward)));
    assert!(matches!(merge_decision(true, "c2", "c3", &theirs, &ours), Err(gm_core::error::Error::DirtyWorkingTree)));
}

fn snap(meta: &str, mats: &[(&str, &str)], models: &[(&str, &str)]) -> Snapshot {
    Snapshot { file_metadata: meta.to_string(), materials: map(mats), models: map(models) }
}

#[test]
fn edits_to_different_models_merge_and_the_same_model_conflicts() {
    let base = snap("f", &[("CLAY", "c")], &[("CH-0", "a"), ("CH-1", "b")]);
    let ours = snap("f", &[("CLAY", "c")], &[("CH-0", "a2"), ("CH-1", "b")]);
    let theirs = snap("f", &[("CLAY", "c")], &[("CH-0", "a"), ("CH-1", "b3")]);
    let (merged, result) = merge_snapshots(Some(&base), &ours, &theirs);
    assert!(result.conflicts.is_empty());
    assert_eq!(merged.models.get("CH-0").map(String::as_str), Some("a2"));
    assert_eq!(merged.models.get("CH-1").map(String::as_str), Some("b3"));
    assert_eq!(result.took_theirs, vec!["CH-1".to_string()]);
    assert_eq!(result.kept_ours, vec!["CH-0".to_string()]);

    let clash = snap("g", &[("CLAY", "c")], &[("CH-0", "a9"), ("CH-1", "b")]);
    let meta2 = snap("h", &[("CLAY", "c")], &[("CH-0", "a2"), ("CH-1", "b")]);
    let (_, result) = merge_snapshots(Some(&base), &meta2, &clash);
    let names: Vec<(String, String)> = result.conflicts.iter().map(|c| (c.kind.clone(), c.key.clone())).collect();
    assert_eq!(
        names,
        vec![("file_metadata".to_string(), "file".to_string()), ("ground_model".to_string(), "CH-0".to_string())]
    );
}

#[test]
fn only_a_commit_manifest_is_a_commit() {
    assert!(gm_core::commit::Manifest::is_commit_type("gm.commit/1"));
    assert!(!gm_core::commit::Manifest::is_commit_type("gm.file/1"));
}
