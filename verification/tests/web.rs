use gm_core::sync::Relation;
use gm_core::validate::Issue;
use gm_core::web::{
    authorized, escape, hue, not_found, parse_hashes, percent_decodable, percent_decode, push_precheck,
    push_step, render, section_hue, sync_request, title_for, PushStep, Reply, SyncRequest,
};

#[test]
fn percent_encoded_path_segments_decode() {
    assert_eq!(percent_decode("CH-100"), "CH-100");
    assert_eq!(percent_decode("CH%20100%2B250"), "CH 100+250");
    assert_eq!(percent_decode("a+b"), "a b");
}

#[test]
fn a_truncated_escape_is_left_alone_rather_than_panicking() {
    assert_eq!(percent_decode("100%"), "100%");
    assert_eq!(percent_decode("100%2"), "100%2");
    assert_eq!(percent_decode("%zz"), "%zz");
}

#[test]
fn an_escape_with_a_plus_sign_reads_one_digit() {
    assert_eq!(percent_decode("%+f"), "\u{f}");
    assert!(percent_decodable("caf\u{e9}"));
    assert!(!percent_decodable("%a\u{e9}"));
}

#[test]
fn escaping_neutralises_markup() {
    assert_eq!(
        escape(r#"<script>alert("x")</script>"#),
        "&lt;script&gt;alert(&quot;x&quot;)&lt;/script&gt;"
    );
    assert_eq!(escape("A & B"), "A &amp; B");
    assert_eq!(escape("it's"), "it&#39;s");
}

#[test]
fn escaping_leaves_ordinary_keys_alone() {
    assert_eq!(escape("CH-100"), "CH-100");
    assert_eq!(escape("LONDON_CLAY"), "LONDON_CLAY");
}

#[test]
fn a_material_keeps_its_colour_everywhere() {
    assert_eq!(hue("LONDON_CLAY"), hue("LONDON_CLAY"));
    assert_ne!(hue("LONDON_CLAY"), hue("MADE_GROUND"));
}

#[test]
fn the_hue_is_fnv1a_times_the_golden_angle() {
    // FNV-1a of the empty key is its offset basis, 2166136261.
    assert_eq!(hue(""), (((2_166_136_261u64 * 137) % (1u64 << 32) % 360) as u32).max(1));
    assert_eq!(section_hue("LONDON_CLAY"), hue("LONDON_CLAY"));
    let h = hue("MADE_GROUND");
    assert!((1..360).contains(&h));
}

#[test]
fn hash_lists_tolerate_blank_and_padded_lines() {
    let parsed = parse_hashes(b"sha256-aa\n\n  sha256-bb  \n\n");
    assert_eq!(parsed, vec!["sha256-aa".to_string(), "sha256-bb".to_string()]);
}

#[test]
fn an_empty_list_is_not_an_error() {
    assert!(parse_hashes(b"").is_empty());
}

#[test]
fn hash_lists_are_sorted_and_deduplicated() {
    let parsed = parse_hashes(b"sha256-bb\r\nsha256-aa\nsha256-bb\n");
    assert_eq!(parsed, vec!["sha256-aa".to_string(), "sha256-bb".to_string()]);
}

#[test]
fn titles_follow_the_path() {
    let segs = |s: &[&str]| s.iter().map(|x| x.to_string()).collect::<Vec<String>>();
    assert_eq!(title_for(&segs(&[])), ("Models".to_string(), "models"));
    assert_eq!(title_for(&segs(&["history"])), ("History".to_string(), "history"));
    assert_eq!(title_for(&segs(&["model", "CH-100"])), ("CH-100".to_string(), "models"));
    assert_eq!(title_for(&segs(&["commit", "abc"])), ("Commit abc".to_string(), "history"));
    assert_eq!(title_for(&segs(&["nope", "x", "y"])), ("Not found".to_string(), ""));
}

#[test]
fn the_page_shell_marks_the_active_section_and_escapes_names() {
    let page = render("A & B", "<T>", "history", "<p>body</p>");
    assert!(page.starts_with("<!doctype html>"));
    assert!(page.contains("<title>&lt;T&gt; \u{2014} A &amp; B</title>"));
    assert!(page.contains("<a href=\"/history\" class=\"on\">History</a>"));
    assert!(page.contains("<a href=\"/\">Models</a>"));
    assert!(page.ends_with("<main><p>body</p></main></body></html>"));
}

#[test]
fn not_found_names_what_was_missing() {
    let reply: Reply = not_found("route", "model", "<x>");
    assert_eq!(reply.status, 404);
    assert_eq!(reply.content_type, "text/html; charset=utf-8");
    assert!(reply.body.contains("No model called <code>&lt;x&gt;</code>."));
    let text = Reply::text(405, "gm ui is read-only");
    assert_eq!(text.content_type, "text/plain; charset=utf-8");
    assert_eq!(Reply::json("{}".to_string()).status, 200);
}

#[test]
fn sync_routes_name_their_endpoint() {
    assert_eq!(gm_core::web::handle("/sync/info"), Some("info".to_string()));
    assert_eq!(gm_core::web::handle("/model/CH-100"), None);
}

#[test]
fn the_four_sync_endpoints_are_routed() {
    assert!(matches!(sync_request("GET", "info"), SyncRequest::Info));
    assert!(matches!(sync_request("GET", "commits"), SyncRequest::Commits));
    assert!(matches!(sync_request("POST", "bundle"), SyncRequest::Bundle));
    assert!(matches!(sync_request("POST", "push"), SyncRequest::Push));
}

#[test]
fn a_wrong_method_on_a_sync_endpoint_is_refused_with_405() {
    match sync_request("GET", "push") {
        SyncRequest::Refused(reply) => {
            assert_eq!(reply.status, 405);
            assert_eq!(reply.body, "/sync/push does not accept GET");
            assert_eq!(reply.content_type, "text/plain; charset=utf-8");
        }
        other => panic!("expected a refusal, got {other:?}"),
    }
    match sync_request("POST", "info") {
        SyncRequest::Refused(reply) => assert_eq!(reply.status, 405),
        other => panic!("expected a refusal, got {other:?}"),
    }
}

#[test]
fn an_unknown_sync_endpoint_is_404() {
    match sync_request("GET", "nonsense") {
        SyncRequest::Refused(reply) => {
            assert_eq!(reply.status, 404);
            assert_eq!(reply.body, "no such endpoint: /sync/nonsense");
        }
        other => panic!("expected a refusal, got {other:?}"),
    }
}

#[test]
fn a_token_must_match_exactly_when_one_is_set() {
    assert!(authorized(None, None));
    assert!(authorized(None, Some("Bearer anything")));
    assert!(authorized(Some("s3cret"), Some("Bearer s3cret")));
    assert!(!authorized(Some("s3cret"), Some("Bearer wrong")));
    assert!(!authorized(Some("s3cret"), Some("s3cret")));
    assert!(!authorized(Some("s3cret"), None));
}

#[test]
fn a_push_is_checked_in_order_before_its_bundle_is_read() {
    let refused = |r: Result<String, Reply>| r.expect_err("should be refused");
    let r = refused(push_precheck(false, Some("sha256-aa"), true));
    assert_eq!(r.status, 403);
    assert!(r.body.contains("--allow-push"));
    let r = refused(push_precheck(true, None, true));
    assert_eq!(r.status, 400);
    assert_eq!(r.body, "missing X-GM-Head header: a push must say what its new head is");
    let r = refused(push_precheck(true, Some("sha256-aa"), true));
    assert_eq!(r.status, 409);
    assert!(r.body.contains("uncommitted changes"));
    assert_eq!(push_precheck(true, Some("sha256-aa"), false).ok(), Some("sha256-aa".to_string()));
}

#[test]
fn only_a_fast_forward_push_moves_the_head() {
    assert!(matches!(push_step(None), PushStep::Created));
    assert!(matches!(push_step(Some(&Relation::Same)), PushStep::UpToDate));
    assert!(matches!(push_step(Some(&Relation::Ahead)), PushStep::UpToDate));
    assert!(matches!(push_step(Some(&Relation::Behind)), PushStep::FastForward));
    match push_step(Some(&Relation::Diverged { base: None })) {
        PushStep::Refused(reply) => {
            assert_eq!(reply.status, 409);
            assert_eq!(reply.body, "this remote has commits you do not: pull and merge before pushing");
        }
        other => panic!("expected a refusal, got {other:?}"),
    }
    assert_eq!(push_step(None).outcome(), "created");
    assert_eq!(push_step(Some(&Relation::Behind)).outcome(), "fast-forward");
    assert_eq!(push_step(Some(&Relation::Same)).outcome(), "up-to-date");
}

fn commit_info(hash: &str, message: &str, parents: usize) -> gm_core::store::CommitInfo {
    gm_core::store::CommitInfo {
        hash: hash.to_string(),
        author: "A. Engineer".to_string(),
        committed_at: "2024-05-01T10:00:00Z".to_string(),
        message: message.to_string(),
        parents: (0..parents).map(|i| format!("sha256-p{i}")).collect(),
    }
}

#[test]
fn the_history_page_marks_the_current_revision_and_merges() {
    let log = vec![
        commit_info("sha256-0123456789abcdef", "Merge <x>", 2),
        commit_info("sha256-fedcba9876543210", "Root", 0),
    ];
    let page = gm_core::pages::history_page(&log, Some("sha256-0123456789abcdef"));
    assert!(page.starts_with("<h2>History</h2><table>"));
    assert!(page.contains(
        "<tr><td><a class=\"hash\" href=\"/commit/0123456789ab\">0123456789ab</a> <span class=\"tag\">current</span></td>"
    ));
    assert!(page.contains("<td>Merge &lt;x&gt; <span class=\"tag\">merge</span></td></tr>"));
    assert!(page.contains("<a class=\"hash\" href=\"/commit/fedcba987654\">fedcba987654</a></td>"));
    assert!(page.ends_with("</table>"));
}

#[test]
fn the_validation_page_lists_errors_first() {
    let issues = vec![
        Issue::warn(None, "file.crs".to_string(), "no CRS".to_string()),
        Issue::error(Some("CH-0"), "layers[1].topLevel".to_string(), "out of order".to_string()),
    ];
    let page = gm_core::pages::validate_page(&issues);
    assert!(page.starts_with(
        "<h2>Validation</h2><p><span class=\"sev-error\">1 error</span> and <span class=\"sev-warning\">1 warning</span>.</p>"
    ));
    let error_at = page.find("sev-error\">error").unwrap();
    let warning_at = page.find("sev-warning\">warning").unwrap();
    assert!(error_at < warning_at);
    assert!(page.contains("<a href=\"/model/CH-0\">CH-0</a>"));
    assert!(page.contains("<span class=\"empty\">file</span>"));
    assert!(page.contains("Errors block <code>gm commit</code>"));
}

#[test]
fn an_empty_validation_says_nothing_to_report() {
    let page = gm_core::pages::validate_page(&[]);
    assert_eq!(
        page,
        "<h2>Validation</h2><p><span class=\"sev-error\">0 errors</span> and <span class=\"sev-warning\">0 warnings</span>.</p><p class=\"note\">Nothing to report. Every model is coherent.</p>"
    );
}

#[test]
fn different_strata_get_different_colours() {
    assert_eq!(hue("LONDON_CLAY"), 217);
    assert_eq!(hue("MADE_GROUND"), 126);
    assert_ne!(hue("LONDON_CLAY"), hue("MADE_GROUND"));
    assert_eq!(section_hue("LONDON_CLAY"), hue("LONDON_CLAY"));
}
