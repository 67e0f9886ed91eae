//! Human-readable listings that do not involve numbers: validation findings,
//! working-tree changes and commit lines.

use vstd::prelude::*;
use crate::sorting::{lemma_insert_sorted_at, sort_by};
use crate::store::{change_view, changes_view, short_hash, short_spec, Change, CommitInfo};
use crate::text::{chars_lt, copy_string, owned, push_char, push_str, same_text, text_lt};
use crate::validate::{issue_view, issues_view, Issue, Severity};

verus! {

/// `s` padded with spaces to `w` characters, as `{:<w}` writes it.
pub open spec fn pad(s: Seq<char>, w: nat) -> Seq<char> {
    if s.len() >= w {
        s
    } else {
        s + Seq::new((w - s.len()) as nat, |i: int| ' ')
    }
}

fn push_padded(out: &mut String, s: &str, w: usize)
    ensures
        final(out)@ == old(out)@ + pad(s@, w as nat),
{
    push_str(out, s);
    let n = crate::text::chars_of(s).len();
    let mut i = n;
    while i < w
        invariant
            n == s@.len(),
            n <= i <= w || (n > w && i == n),
            out@ == old(out)@ + s@ + Seq::new((i - n) as nat, |k: int| ' '),
        decreases w - i,
    {
        push_char(out, ' ');
        assert(Seq::new((i + 1 - n) as nat, |k: int| ' ') =~= Seq::new((i - n) as nat, |k: int| ' ').push(' '));
        i = i + 1;
    }
    assert(Seq::new(0nat, |k: int| ' ') =~= Seq::<char>::empty());
    assert(final(out)@ =~= old(out)@ + pad(s@, w as nat));
}

/// The order findings are listed in: errors first, then by model (file-level
/// findings first), then by field path.
pub open spec fn issue_lt() -> spec_fn(
    (Severity, Option<Seq<char>>, Seq<char>, Seq<char>),
    (Severity, Option<Seq<char>>, Seq<char>, Seq<char>),
) -> bool {
    |a: (Severity, Option<Seq<char>>, Seq<char>, Seq<char>), b: (Severity, Option<Seq<char>>, Seq<char>, Seq<char>)|
        (a.0 == Severity::Error && b.0 == Severity::Warning) || (a.0 == b.0 && (model_lt(a.1, b.1) || (a.1
            == b.1 && chars_lt(a.2, b.2))))
}

pub open spec fn model_lt(a: Option<Seq<char>>, b: Option<Seq<char>>) -> bool {
    match (a, b) {
        (None, Some(_)) => true,
        (Some(x), Some(y)) => chars_lt(x, y),
        _ => false,
    }
}

/// One finding as `gm validate` prints it.
pub open spec fn issue_line(i: (Severity, Option<Seq<char>>, Seq<char>, Seq<char>)) -> Seq<char> {
    (if i.0 == Severity::Error {
        "error  "@
    } else {
        "warning"@
    }) + "  "@ + (match i.1 {
        Some(m) => m + ": "@,
        None => Seq::<char>::empty(),
    }) + i.2 + "\n           "@ + i.3 + "\n"@
}

pub open spec fn issue_lines(s: Seq<(Severity, Option<Seq<char>>, Seq<char>, Seq<char>)>) -> Seq<char>
    decreases s.len(),
{
    if s.len() == 0 {
        seq![]
    } else {
        issue_lines(s.drop_last()) + issue_line(s.last())
    }
}

/// The listing of findings.
pub open spec fn issues_text(s: Seq<(Severity, Option<Seq<char>>, Seq<char>, Seq<char>)>) -> Seq<char> {
    if s.len() == 0 {
        "no issues\n"@
    } else {
        issue_lines(sort_by(s, issue_lt()))
    }
}

fn copy_issue(i: &Issue) -> (r: Issue)
    ensures
        issue_view(r) == issue_view(*i),
{
    Issue {
        severity: i.severity,
        model_key: match &i.model_key {
            Some(k) => Some(copy_string(k)),
            None => None,
        },
        field_path: copy_string(&i.field_path),
        message: copy_string(&i.message),
    }
}

fn issue_less(a: &Issue, b: &Issue) -> (r: bool)
    ensures
        r == (issue_lt())(issue_view(*a), issue_view(*b)),
{
    if a.severity == Severity::Error && b.severity == Severity::Warning {
        return true;
    }
    if a.severity != b.severity {
        return false;
    }
    let (ml, meq) = match (&a.model_key, &b.model_key) {
        (None, Some(_)) => (true, false),
        (Some(x), Some(y)) => (text_lt(x.as_str(), y.as_str()), same_text(x.as_str(), y.as_str())),
        (None, None) => (false, true),
        (Some(_), None) => (false, false),
    };
    ml || (meq && text_lt(a.field_path.as_str(), b.field_path.as_str()))
}

/// The issues in the order a listing shows them: errors first, then by model
/// (file-wide issues first) and by field path.
pub fn sort_issues(v: &[Issue]) -> (r: Vec<Issue>)
    ensures
        issues_view(r@) == sort_by(issues_view(v@), issue_lt()),
{
    let mut r: Vec<Issue> = Vec::new();
    let mut i: usize = 0;
    while i < v.len()
        invariant
            i <= v@.len(),
            issues_view(r@) == sort_by(issues_view(v@).take(i as int), issue_lt()),
        decreases v@.len() - i,
    {
        let x = copy_issue(&v[i]);
        let ghost xv = issue_view(x);
        let ghost rv = issues_view(r@);
        let mut j = r.len();
        while j > 0 && issue_less(&x, &r[j - 1])
            invariant
                j <= r@.len(),
                rv == issues_view(r@),
                xv == issue_view(x),
                forall|k: int| j <= k < rv.len() ==> (issue_lt())(xv, #[trigger] rv[k]),
            decreases j,
        {
            j = j - 1;
        }
        proof {
            lemma_insert_sorted_at(rv, xv, issue_lt(), j as int);
            let t = issues_view(v@).take(i + 1);
            assert(t.drop_last() =~= issues_view(v@).take(i as int));
            assert(t.last() == xv);
        }
        r.insert(j, x);
        assert(issues_view(r@) =~= rv.insert(j as int, xv));
        i = i + 1;
    }
    assert(issues_view(v@).take(v@.len() as int) =~= issues_view(v@));
    r
}

/// The findings of a validation, errors first.
pub fn issues(list: &[Issue]) -> (r: String)
    ensures
        r@ == issues_text(issues_view(list@)),
{
    if list.len() == 0 {
        return owned("no issues\n");
    }
    let sorted = sort_issues(list);
    let ghost sv = issues_view(sorted@);
    let mut out = String::new();
    let mut i: usize = 0;
    while i < sorted.len()
        invariant
            i <= sorted@.len(),
            sv == issues_view(sorted@),
            out@ == issue_lines(sv.take(i as int)),
        decreases sorted@.len() - i,
    {
        let issue = &sorted[i];
        let ghost before = out@;
        if issue.severity == Severity::Error {
            push_str(&mut out, "error  ");
        } else {
            push_str(&mut out, "warning");
        }
        push_str(&mut out, "  ");
        match &issue.model_key {
            Some(m) => {
                push_str(&mut out, m.as_str());
                push_str(&mut out, ": ");
            },
            None => {},
        }
        push_str(&mut out, issue.field_path.as_str());
        push_str(&mut out, "\n           ");
        push_str(&mut out, issue.message.as_str());
        push_str(&mut out, "\n");
        proof {
            let p = sv.take(i + 1);
            assert(p.drop_last() =~= sv.take(i as int));
            assert(p.last() == sv[i as int]);
            assert(sv[i as int] == issue_view(sorted@[i as int]));
        }
        assert(out@ =~= before + issue_line(sv[i as int]));
        i = i + 1;
    }
    assert(sv.take(sv.len() as int) =~= sv);
    out
}

/// One change as `gm status` prints it.
pub open spec fn change_line(c: (Seq<char>, Seq<char>, crate::store::ChangeKind)) -> Seq<char> {
    "  "@ + seq![
        match c.2 {
            crate::store::ChangeKind::Added => 'A',
            crate::store::ChangeKind::Modified => 'M',
            crate::store::ChangeKind::Deleted => 'D',
        },
    ] + "  "@ + pad(c.0, 14) + " "@ + c.1 + "\n"@
}

pub open spec fn change_lines(s: Seq<(Seq<char>, Seq<char>, crate::store::ChangeKind)>) -> Seq<char>
    decreases s.len(),
{
    if s.len() == 0 {
        seq![]
    } else {
        change_lines(s.drop_last()) + change_line(s.last())
    }
}

/// The working-tree changes, one per line.
pub fn changes(list: &[Change]) -> (r: String)
    ensures
        r@ == if list@.len() == 0 {
            "working tree matches the last commit\n"@
        } else {
            change_lines(changes_view(list@))
        },
{
    if list.len() == 0 {
        return owned("working tree matches the last commit\n");
    }
    let ghost cv = changes_view(list@);
    let mut out = String::new();
    let mut i: usize = 0;
    while i < list.len()
        invariant
            i <= list@.len(),
            cv == changes_view(list@),
            out@ == change_lines(cv.take(i as int)),
        decreases list@.len() - i,
    {
        let c = &list[i];
        let ghost before = out@;
        push_str(&mut out, "  ");
        push_char(&mut out, c.change.marker());
        push_str(&mut out, "  ");
        push_padded(&mut out, c.kind.as_str(), 14);
        push_str(&mut out, " ");
        push_str(&mut out, c.key.as_str());
        push_str(&mut out, "\n");
        proof {
            let p = cv.take(i + 1);
            assert(p.drop_last() =~= cv.take(i as int));
            assert(p.last() == cv[i as int]);
            assert(cv[i as int] == change_view(list@[i as int]));
        }
        assert(out@ =~= before + change_line(cv[i as int]));
        i = i + 1;
    }
    assert(cv.take(cv.len() as int) =~= cv);
    out
}

/// One commit as `gm log` prints it.
pub fn commit_line(info: &CommitInfo) -> (r: String)
    ensures
        r@ == short_spec(info.hash@) + "  "@ + info.committed_at@ + "  "@ + pad(info.author@, 24) + "  "@
            + info.message@,
{
    let mut out = short_hash(info.hash.as_str());
    push_str(&mut out, "  ");
    push_str(&mut out, info.committed_at.as_str());
    push_str(&mut out, "  ");
    push_padded(&mut out, info.author.as_str(), 24);
    push_str(&mut out, "  ");
    push_str(&mut out, info.message.as_str());
    out
}

} // verus!
