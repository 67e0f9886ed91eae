//! The pages of the built-in web UI that involve no numbers: the history
//! and the validation findings.

use vstd::prelude::*;
use crate::render::{issue_lt, sort_issues};
use crate::sorting::sort_by;
use crate::store::{short_hash, short_spec, CommitInfo};
use crate::text::{decimal, decimal_string, owned, push_str, same_text};
use crate::validate::{count, error_count, issue_view, issues_view, Issue, Severity};
use crate::web::{escape, html_escaped};

verus! {

/// One row of the history page.
pub open spec fn history_row(c: CommitInfo, head: Option<Seq<char>>) -> Seq<char> {
    "<tr><td><a class=\"hash\" href=\"/commit/"@ + short_spec(c.hash@) + "\">"@ + short_spec(c.hash@) + "</a>"@
        + (if head == Some(c.hash@) {
        " <span class=\"tag\">current</span>"@
    } else {
        ""@
    }) + "</td><td class=\"mono\">"@ + html_escaped(c.committed_at@) + "</td><td>"@ + html_escaped(c.author@)
        + "</td><td>"@ + html_escaped(c.message@) + (if c.parents@.len() > 1 {
        " <span class=\"tag\">merge</span>"@
    } else {
        ""@
    }) + "</td></tr>"@
}

pub open spec fn history_rows(s: Seq<CommitInfo>, head: Option<Seq<char>>) -> Seq<char>
    decreases s.len(),
{
    if s.len() == 0 {
        seq![]
    } else {
        history_rows(s.drop_last(), head) + history_row(s.last(), head)
    }
}

pub open spec fn opt_view(h: Option<&str>) -> Option<Seq<char>> {
    match h {
        Some(t) => Some(t@),
        None => None,
    }
}

fn history_row_text(info: &CommitInfo, head: Option<&str>) -> (r: String)
    ensures
        r@ == history_row(*info, opt_view(head)),
{
    proof {
        reveal_strlit("");
    }
    let short = short_hash(info.hash.as_str());
    let mut out = owned("<tr><td><a class=\"hash\" href=\"/commit/");
    push_str(&mut out, short.as_str());
    push_str(&mut out, "\">");
    push_str(&mut out, short.as_str());
    push_str(&mut out, "</a>");
    let ghost a = out@;
    let current = match head {
        Some(h) => same_text(h, info.hash.as_str()),
        None => false,
    };
    assert(current == (opt_view(head) == Some(info.hash@)));
    if current {
        push_str(&mut out, " <span class=\"tag\">current</span>");
    }
    let ghost b = out@;
    push_str(&mut out, "</td><td class=\"mono\">");
    let at = escape(info.committed_at.as_str());
    push_str(&mut out, at.as_str());
    push_str(&mut out, "</td><td>");
    let author = escape(info.author.as_str());
    push_str(&mut out, author.as_str());
    push_str(&mut out, "</td><td>");
    let message = escape(info.message.as_str());
    push_str(&mut out, message.as_str());
    let ghost c = out@;
    if info.parents.len() > 1 {
        push_str(&mut out, " <span class=\"tag\">merge</span>");
    }
    let ghost d = out@;
    push_str(&mut out, "</td></tr>");
    assert(out@ =~= history_row(*info, opt_view(head)));
    out
}

/// The body of the history page: the log, newest first as given, with the
/// current revision and merges marked.
pub fn history_page(log: &Vec<CommitInfo>, head: Option<&str>) -> (r: String)
    ensures
        r@ == "<h2>History</h2><table><tr><th>Commit</th><th>When</th><th>Author</th><th>Message</th></tr>"@
            + history_rows(log@, opt_view(head)) + "</table>"@,
{
    let ghost start = "<h2>History</h2><table><tr><th>Commit</th><th>When</th><th>Author</th><th>Message</th></tr>"@;
    let mut out = owned("<h2>History</h2><table><tr><th>Commit</th><th>When</th><th>Author</th><th>Message</th></tr>");
    let mut i: usize = 0;
    while i < log.len()
        invariant
            i <= log@.len(),
            out@ == start + history_rows(log@.take(i as int), opt_view(head)),
        decreases log@.len() - i,
    {
        let ghost before = out@;
        let row = history_row_text(&log[i], head);
        push_str(&mut out, row.as_str());
        proof {
            let p = log@.take(i + 1);
            assert(p.drop_last() =~= log@.take(i as int));
            assert(p.last() == log@[i as int]);
        }
        assert(out@ =~= before + history_row(log@[i as int], opt_view(head)));
        i = i + 1;
    }
    assert(log@.take(log@.len() as int) =~= log@);
    push_str(&mut out, "</table>");
    out
}

/// `s` for a count other than one.
pub open spec fn plural(n: nat) -> Seq<char> {
    if n == 1 {
        ""@
    } else {
        "s"@
    }
}

pub open spec fn severity_name(s: Severity) -> Seq<char> {
    match s {
        Severity::Error => "error"@,
        Severity::Warning => "warning"@,
    }
}

/// One finding on the validation page.
pub open spec fn validation_row(i: (Severity, Option<Seq<char>>, Seq<char>, Seq<char>)) -> Seq<char> {
    "<tr><td><span class=\"sev-"@ + severity_name(i.0) + "\">"@ + severity_name(i.0) + "</span></td><td>"@
        + match i.1 {
        Some(k) => "<a href=\"/model/"@ + html_escaped(k) + "\">"@ + html_escaped(k) + "</a>"@,
        None => "<span class=\"empty\">file</span>"@,
    } + "</td><td><code>"@ + html_escaped(i.2) + "</code></td><td>"@ + html_escaped(i.3) + "</td></tr>"@
}

pub open spec fn validation_rows(s: Seq<(Severity, Option<Seq<char>>, Seq<char>, Seq<char>)>) -> Seq<char>
    decreases s.len(),
{
    if s.len() == 0 {
        seq![]
    } else {
        validation_rows(s.drop_last()) + validation_row(s.last())
    }
}

fn validation_row_text(issue: &Issue) -> (r: String)
    ensures
        r@ == validation_row(issue_view(*issue)),
{
    let sev = issue.severity.as_str();
    let mut out = owned("<tr><td><span class=\"sev-");
    push_str(&mut out, sev);
    push_str(&mut out, "\">");
    push_str(&mut out, sev);
    push_str(&mut out, "</span></td><td>");
    let model = match &issue.model_key {
        Some(k) => {
            let ek = escape(k.as_str());
            let mut m = owned("<a href=\"/model/");
            push_str(&mut m, ek.as_str());
            push_str(&mut m, "\">");
            push_str(&mut m, ek.as_str());
            push_str(&mut m, "</a>");
            m
        },
        None => owned("<span class=\"empty\">file</span>"),
    };
    push_str(&mut out, model.as_str());
    push_str(&mut out, "</td><td><code>");
    let path = escape(issue.field_path.as_str());
    push_str(&mut out, path.as_str());
    push_str(&mut out, "</code></td><td>");
    let message = escape(issue.message.as_str());
    push_str(&mut out, message.as_str());
    push_str(&mut out, "</td></tr>");
    assert(out@ =~= validation_row(issue_view(*issue)));
    out
}

/// The body of the validation page for a list of findings.
pub open spec fn validation_page(list: Seq<Issue>) -> Seq<char> {
    let errors = error_count(list);
    let warnings = (list.len() - errors) as nat;
    "<h2>Validation</h2><p><span class=\"sev-error\">"@ + decimal(errors) + " error"@ + plural(errors)
        + "</span> and <span class=\"sev-warning\">"@ + decimal(warnings) + " warning"@ + plural(warnings)
        + "</span>.</p>"@ + if list.len() == 0 {
        "<p class=\"note\">Nothing to report. Every model is coherent.</p>"@
    } else {
        "<table><tr><th>Severity</th><th>Model</th><th>Field</th><th>Message</th></tr>"@ + validation_rows(
            sort_by(issues_view(list), issue_lt()),
        ) + "</table>"@ + if errors > 0 {
            "<p class=\"note\">Errors block <code>gm commit</code>: a history of invalid states would remove the one thing a consumer could rely on.</p>"@
        } else {
            ""@
        }
    }
}

/// The body of the validation page: the counts, then every finding, errors
/// first, and why errors matter when there are any.
pub fn validate_page(list: &[Issue]) -> (r: String)
    ensures
        r@ == validation_page(list@),
{
    proof {
        reveal_strlit("");
    }
    let (errors, warnings) = count(list);
    let mut out = owned("<h2>Validation</h2><p><span class=\"sev-error\">");
    let e = decimal_string(errors as u64);
    push_str(&mut out, e.as_str());
    push_str(&mut out, " error");
    if errors != 1 {
        push_str(&mut out, "s");
    }
    push_str(&mut out, "</span> and <span class=\"sev-warning\">");
    let w = decimal_string(warnings as u64);
    push_str(&mut out, w.as_str());
    push_str(&mut out, " warning");
    if warnings != 1 {
        push_str(&mut out, "s");
    }
    push_str(&mut out, "</span>.</p>");
    let ghost head = out@;
    if list.len() == 0 {
        push_str(&mut out, "<p class=\"note\">Nothing to report. Every model is coherent.</p>");
        return out;
    }
    let sorted = sort_issues(list);
    let ghost sv = issues_view(sorted@);
    push_str(&mut out, "<table><tr><th>Severity</th><th>Model</th><th>Field</th><th>Message</th></tr>");
    let ghost top = out@;
    let mut i: usize = 0;
    while i < sorted.len()
        invariant
            i <= sorted@.len(),
            sv == issues_view(sorted@),
            out@ == top + validation_rows(sv.take(i as int)),
        decreases sorted@.len() - i,
    {
        let ghost before = out@;
        let row = validation_row_text(&sorted[i]);
        push_str(&mut out, row.as_str());
        proof {
            let p = sv.take(i + 1);
            assert(p.drop_last() =~= sv.take(i as int));
            assert(p.last() == sv[i as int]);
            assert(sv[i as int] == issue_view(sorted@[i as int]));
        }
        assert(out@ =~= before + validation_row(sv[i as int]));
        i = i + 1;
    }
    assert(sv.take(sv.len() as int) =~= sv);
    push_str(&mut out, "</table>");
    if errors > 0 {
        push_str(
            &mut out,
            "<p class=\"note\">Errors block <code>gm commit</code>: a history of invalid states would remove the one thing a consumer could rely on.</p>",
        );
    }
    out
}

} // verus!
