//! Validation results.
//!
//! An **error** means the file does not describe a coherent ground model and a
//! consumer would be wrong to use it; a **warning** means the model is
//! coherent but suspicious. The numeric checks themselves compare
//! floating-point levels and parameters and live with the program; what a
//! finding is, how findings are counted, and the rules about which materials a
//! file uses are decided here.

use vstd::prelude::*;
use crate::docmap::{lookup, DocMap};
use crate::text::{copy_string, owned, push_str};

verus! {

#[derive(Clone, Copy, PartialEq, Eq, Debug, Structural)]
pub enum Severity {
    Error,
    Warning,
}

impl Severity {
    pub fn as_str(self) -> (r: &'static str)
        ensures
            r@ == match self {
                Severity::Error => "error"@,
                Severity::Warning => "warning"@,
            },
    {
        match self {
            Severity::Error => "error",
            Severity::Warning => "warning",
        }
    }
}

#[derive(Debug, Clone)]
pub struct Issue {
    pub severity: Severity,
    /// The model this concerns, when it concerns one.
    pub model_key: Option<String>,
    /// A path into the interchange document, e.g. `layers[2].topLevel`.
    pub field_path: String,
    pub message: String,
}

/// An issue by its view: severity, model, path, message.
pub open spec fn issue_view(i: Issue) -> (Severity, Option<Seq<char>>, Seq<char>, Seq<char>) {
    (
        i.severity,
        match i.model_key {
            Some(k) => Some(k@),
            None => None,
        },
        i.field_path@,
        i.message@,
    )
}

pub open spec fn issues_view(s: Seq<Issue>) -> Seq<(Severity, Option<Seq<char>>, Seq<char>, Seq<char>)> {
    s.map_values(|i: Issue| issue_view(i))
}

fn model_of(model: Option<&str>) -> (r: Option<String>)
    ensures
        match model {
            Some(m) => r matches Some(k) && k@ == m@,
            None => r is None,
        },
{
    match model {
        Some(m) => Some(owned(m)),
        None => None,
    }
}

impl Issue {
    pub fn error(model: Option<&str>, path: String, message: String) -> (r: Issue)
        ensures
            r.severity == Severity::Error,
            r.field_path@ == path@,
            r.message@ == message@,
            match model {
                Some(m) => r.model_key matches Some(k) && k@ == m@,
                None => r.model_key is None,
            },
    {
        Issue { severity: Severity::Error, model_key: model_of(model), field_path: path, message }
    }

    pub fn warn(model: Option<&str>, path: String, message: String) -> (r: Issue)
        ensures
            r.severity == Severity::Warning,
            r.field_path@ == path@,
            r.message@ == message@,
            match model {
                Some(m) => r.model_key matches Some(k) && k@ == m@,
                None => r.model_key is None,
            },
    {
        Issue { severity: Severity::Warning, model_key: model_of(model), field_path: path, message }
    }
}

/// How many issues are errors.
pub open spec fn error_count(s: Seq<Issue>) -> nat
    decreases s.len(),
{
    if s.len() == 0 {
        0
    } else {
        error_count(s.drop_last()) + if s.last().severity == Severity::Error {
            1nat
        } else {
            0nat
        }
    }
}

proof fn lemma_error_count_bound(s: Seq<Issue>)
    ensures
        error_count(s) <= s.len(),
        error_count(s) == 0 <==> forall|i: int| 0 <= i < s.len() ==> (#[trigger] s[i]).severity != Severity::Error,
    decreases s.len(),
{
    if s.len() > 0 {
        let p = s.drop_last();
        lemma_error_count_bound(p);
        assert(forall|i: int| 0 <= i < s.len() - 1 ==> #[trigger] p[i] == s[i]);
        if error_count(s) == 0 {
            assert forall|i: int| 0 <= i < s.len() implies (#[trigger] s[i]).severity != Severity::Error by {
                if i < s.len() - 1 {
                    assert(p[i] == s[i]);
                }
            }
        }
        if forall|i: int| 0 <= i < s.len() ==> (#[trigger] s[i]).severity != Severity::Error {
            assert forall|i: int| 0 <= i < p.len() implies (#[trigger] p[i]).severity != Severity::Error by {
                assert(p[i] == s[i]);
            }
            assert(s[s.len() - 1].severity != Severity::Error);
        }
    }
}

/// The number of errors and the number of warnings.
pub fn count(issues: &[Issue]) -> (r: (usize, usize))
    ensures
        r.0 == error_count(issues@),
        r.0 + r.1 == issues@.len(),
{
    let mut errors: usize = 0;
    let mut i: usize = 0;
    while i < issues.len()
        invariant
            i <= issues@.len(),
            errors == error_count(issues@.take(i as int)),
            errors <= i,
        decreases issues@.len() - i,
    {
        proof {
            let p = issues@.take(i + 1);
            assert(p.drop_last() =~= issues@.take(i as int));
            assert(p.last() == issues@[i as int]);
        }
        if issues[i].severity == Severity::Error {
            errors = errors + 1;
        }
        i = i + 1;
    }
    assert(issues@.take(issues@.len() as int) =~= issues@);
    (errors, issues.len() - errors)
}

/// True when nothing in `issues` would stop a consumer using the file: no
/// issue is an error.
pub fn is_usable(issues: &[Issue]) -> (r: bool)
    ensures
        r == forall|i: int| 0 <= i < issues@.len() ==> (#[trigger] issues@[i]).severity != Severity::Error,
{
    let (errors, _) = count(issues);
    proof {
        lemma_error_count_bound(issues@);
    }
    errors == 0
}

/// `i` is the warning that material `k` is unused.
pub open spec fn unused_issue(i: Issue, k: Seq<char>) -> bool {
    &&& i.severity == Severity::Warning
    &&& i.model_key is None
    &&& i.field_path@ == "materials."@ + k
    &&& i.message@ == "material '"@ + k + "' is not used by any model"@
}

/// The keys of `mats` that `used` lacks, in order.
pub open spec fn unused_keys(mats: Seq<(Seq<char>, Seq<char>)>, used: Seq<(Seq<char>, Seq<char>)>) -> Seq<Seq<char>>
    decreases mats.len(),
{
    if mats.len() == 0 {
        seq![]
    } else if lookup(used, mats.last().0) is None {
        unused_keys(mats.drop_last(), used).push(mats.last().0)
    } else {
        unused_keys(mats.drop_last(), used)
    }
}

/// Warnings for the materials no model uses, in key order: `materials` holds
/// the file's materials, `used` the material key of every layer of every
/// model.
pub fn unused_materials(materials: &DocMap, used: &DocMap) -> (r: Vec<Issue>)
    ensures
        r@.len() == unused_keys(materials.pairs(), used.pairs()).len(),
        forall|i: int| 0 <= i < r@.len() ==> unused_issue(#[trigger] r@[i], unused_keys(materials.pairs(), used.pairs())[i]),
{
    let n = materials.len();
    let ghost mp = materials.pairs();
    let ghost up = used.pairs();
    let mut r: Vec<Issue> = Vec::new();
    let mut j: usize = 0;
    while j < n
        invariant
            j <= n == mp.len(),
            mp == materials.pairs(),
            up == used.pairs(),
            r@.len() == unused_keys(mp.take(j as int), up).len(),
            forall|i: int| 0 <= i < r@.len() ==> unused_issue(#[trigger] r@[i], unused_keys(mp.take(j as int), up)[i]),
        decreases n - j,
    {
        let key = materials.key_at(j);
        let ghost before = r@;
        let ghost uk = unused_keys(mp.take(j as int), up);
        proof {
            let p = mp.take(j + 1);
            assert(p.drop_last() =~= mp.take(j as int));
            assert(p.last() == mp[j as int]);
        }
        if !used.contains_key(key.as_str()) {
            let mut path = owned("materials.");
            push_str(&mut path, key.as_str());
            let mut msg = owned("material '");
            push_str(&mut msg, key.as_str());
            push_str(&mut msg, "' is not used by any model");
            r.push(Issue::warn(None, path, msg));
            proof {
                let nk = unused_keys(mp.take(j + 1), up);
                assert(nk == uk.push(key@));
                assert forall|i: int| 0 <= i < r@.len() implies unused_issue(#[trigger] r@[i], nk[i]) by {
                    if i < before.len() {
                        assert(r@[i] == before[i]);
                    }
                }
            }
        }
        j = j + 1;
    }
    assert(mp.take(n as int) =~= mp);
    r
}

} // verus!
