//! Synchronising two copies of a ground-model file.
//!
//! Because a commit is itself a blob, and every blob is named by the hash of
//! its content, syncing is "send me the objects I do not have". Divergence is
//! resolved by a three-way merge over documents, keyed by `(kind, key)`: two
//! engineers working on different chainages merge cleanly; two who both
//! re-logged the same borehole get a conflict.

use vstd::prelude::*;
use crate::docmap::{lookup, strictly_sorted, DocMap};
use crate::error::Error;
use crate::store::short_hash;
use crate::text::{
    chars_lt, copy_string, lemma_chars_lt_irreflexive, lemma_chars_lt_total, lemma_chars_lt_trans,
    owned, push_str, same_text, text_lt,
};

verus! {

/// How two histories relate.
#[derive(Debug, Clone)]
pub enum Relation {
    /// Both sides are at the same commit.
    Same,
    /// Ours is an ancestor of theirs: we can fast-forward.
    Behind,
    /// Theirs is an ancestor of ours: they have nothing new.
    Ahead,
    /// Both sides have commits the other lacks.
    Diverged { base: Option<String> },
}

#[derive(Debug, Clone, Copy, PartialEq, Eq, Structural)]
pub struct TransferReport {
    pub commits: usize,
    pub objects: usize,
}

#[derive(Debug)]
pub enum PullOutcome {
    UpToDate,
    FastForward { to: String, transferred: TransferReport },
    /// Objects were fetched, but both histories have moved on. Nothing has
    /// been changed locally.
    Diverged { ours: String, theirs: String, base: Option<String>, transferred: TransferReport },
}

#[derive(Debug)]
pub enum PushOutcome {
    UpToDate,
    FastForward { to: String, transferred: TransferReport },
}

/// A document both sides changed, differently.
#[derive(Debug, Clone)]
pub struct Conflict {
    pub kind: String,
    pub key: String,
}

#[derive(Debug, Clone)]
pub struct MergeResult {
    pub conflicts: Vec<Conflict>,
    /// Documents taken from the other side.
    pub took_theirs: Vec<String>,
    /// Documents where our side changed and theirs did not.
    pub kept_ours: Vec<String>,
}

#[derive(Debug)]
pub enum MergeOutcome {
    /// Their revision is already in our history; there is nothing to merge.
    AlreadyUpToDate,
    /// Ours is an ancestor of theirs, so no merge commit is needed.
    FastForward { to: String },
    /// A genuine merge, recorded with both revisions as parents.
    Merged { hash: String, result: MergeResult },
    /// Both sides changed the same documents. Nothing has been written.
    Conflicts(MergeResult),
}

/// The outcome of merging one document.
#[derive(Debug)]
pub enum Merged {
    Value(String),
    Conflict,
}

// ------------------------------------------------------------ ancestry ---

/// Whether `ancestor` is in the ancestry of a commit (which includes the
/// commit itself).
pub fn is_ancestor(ancestry: &Vec<String>, ancestor: &str) -> (r: bool)
    ensures
        r == exists|i: int| 0 <= i < ancestry@.len() && (#[trigger] ancestry@[i])@ == ancestor@,
{
    let mut i: usize = 0;
    while i < ancestry.len()
        invariant
            i <= ancestry@.len(),
            forall|j: int| 0 <= j < i ==> (#[trigger] ancestry@[j])@ != ancestor@,
        decreases ancestry@.len() - i,
    {
        if same_text(ancestry[i].as_str(), ancestor) {
            return true;
        }
        i = i + 1;
    }
    false
}

/// The first commit of `ours` (an ancestry, descendants first) that `theirs`
/// also holds: a lowest common ancestor.
pub fn merge_base(ours: &Vec<String>, theirs: &Vec<String>) -> (r: Option<String>)
    ensures
        match r {
            Some(b) => exists|i: int|
                0 <= i < ours@.len() && (#[trigger] ours@[i])@ == b@ && (exists|j: int|
                    0 <= j < theirs@.len() && (#[trigger] theirs@[j])@ == b@) && forall|k: int|
                    0 <= k < i ==> !(exists|j: int|
                        0 <= j < theirs@.len() && (#[trigger] theirs@[j])@ == (#[trigger] ours@[k])@),
            None => forall|k: int|
                0 <= k < ours@.len() ==> !(exists|j: int|
                    0 <= j < theirs@.len() && (#[trigger] theirs@[j])@ == (#[trigger] ours@[k])@),
        },
{
    let mut i: usize = 0;
    while i < ours.len()
        invariant
            i <= ours@.len(),
            forall|k: int|
                0 <= k < i ==> !(exists|j: int|
                    0 <= j < theirs@.len() && (#[trigger] theirs@[j])@ == (#[trigger] ours@[k])@),
        decreases ours@.len() - i,
    {
        if is_ancestor(theirs, ours[i].as_str()) {
            return Some(copy_string(&ours[i]));
        }
        i = i + 1;
    }
    None
}

/// How our head relates to theirs, given the ancestry of each.
pub fn relation(ours: &str, theirs: &str, our_ancestry: &Vec<String>, their_ancestry: &Vec<String>) -> (r: Relation)
    ensures
        ours@ == theirs@ ==> r is Same,
        ours@ != theirs@ && (exists|i: int|
            0 <= i < their_ancestry@.len() && (#[trigger] their_ancestry@[i])@ == ours@) ==> r is Behind,
        ours@ != theirs@ && !(exists|i: int|
            0 <= i < their_ancestry@.len() && (#[trigger] their_ancestry@[i])@ == ours@) && (exists|i: int|
            0 <= i < our_ancestry@.len() && (#[trigger] our_ancestry@[i])@ == theirs@) ==> r is Ahead,
        ours@ != theirs@ && !(exists|i: int|
            0 <= i < their_ancestry@.len() && (#[trigger] their_ancestry@[i])@ == ours@) && !(exists|i: int|
            0 <= i < our_ancestry@.len() && (#[trigger] our_ancestry@[i])@ == theirs@) ==> (r is Diverged
            && match r {
            Relation::Diverged { base } => match base {
                Some(b) => exists|i: int|
                    0 <= i < our_ancestry@.len() && (#[trigger] our_ancestry@[i])@ == b@ && (exists|j: int|
                        0 <= j < their_ancestry@.len() && (#[trigger] their_ancestry@[j])@ == b@) && forall|k: int|
                        0 <= k < i ==> !(exists|j: int|
                            0 <= j < their_ancestry@.len() && (#[trigger] their_ancestry@[j])@ == (#[trigger] our_ancestry@[k])@),
                None => forall|k: int|
                    0 <= k < our_ancestry@.len() ==> !(exists|j: int|
                        0 <= j < their_ancestry@.len() && (#[trigger] their_ancestry@[j])@ == (#[trigger] our_ancestry@[k])@),
            },
            _ => false,
        }),
{
    if same_text(ours, theirs) {
        return Relation::Same;
    }
    if is_ancestor(their_ancestry, ours) {
        return Relation::Behind;
    }
    if is_ancestor(our_ancestry, theirs) {
        return Relation::Ahead;
    }
    Relation::Diverged { base: merge_base(our_ancestry, their_ancestry) }
}

/// Two files may only sync when they are copies of one project.
pub fn check_same_project(local_id: &str, remote_id: &str) -> (r: Result<(), Error>)
    ensures
        r is Ok <==> local_id@ == remote_id@,
        match r {
            Err(Error::Invalid(m)) => m@ == "these are different projects: "@ + local_id@ + " and "@
                + remote_id@ + ". Use `gm import` to bring models across from an unrelated file."@,
            Err(_) => false,
            Ok(_) => true,
        },
{
    if same_text(local_id, remote_id) {
        return Ok(());
    }
    let mut msg = owned("these are different projects: ");
    push_str(&mut msg, local_id);
    push_str(&mut msg, " and ");
    push_str(&mut msg, remote_id);
    push_str(&mut msg, ". Use `gm import` to bring models across from an unrelated file.");
    Err(Error::Invalid(msg))
}

/// The message of a merge commit.
pub fn merge_message(ours: &str, theirs: &str) -> (r: String)
    ensures
        r@ == "Merge "@ + crate::store::short_spec(theirs@) + " into "@ + crate::store::short_spec(ours@),
{
    let mut m = owned("Merge ");
    let t = short_hash(theirs);
    push_str(&mut m, t.as_str());
    push_str(&mut m, " into ");
    let o = short_hash(ours);
    push_str(&mut m, o.as_str());
    m
}

// ------------------------------------------------------- three-way merge ---

/// Standard three-way rule: a side that did not change from the base loses
/// to the side that did; both changing to the same thing is agreement; both
/// changing to different things is a conflict (`None`).
pub open spec fn merge_one_spec(base: Option<Seq<char>>, ours: Seq<char>, theirs: Seq<char>) -> Option<Seq<char>> {
    if ours == theirs {
        Some(ours)
    } else if base == Some(ours) {
        Some(theirs)
    } else if base == Some(theirs) {
        Some(ours)
    } else {
        None
    }
}

/// Merges one document, by content id.
pub fn merge_one(base: Option<&String>, ours: &String, theirs: &String) -> (r: Merged)
    ensures
        match r {
            Merged::Value(v) => merge_one_spec(
                match base {
                    Some(b) => Some(b@),
                    None => None,
                },
                ours@,
                theirs@,
            ) == Some(v@),
            Merged::Conflict => merge_one_spec(
                match base {
                    Some(b) => Some(b@),
                    None => None,
                },
                ours@,
                theirs@,
            ) is None,
        },
{
    if same_text(ours.as_str(), theirs.as_str()) {
        return Merged::Value(copy_string(ours));
    }
    match base {
        Some(b) => {
            if same_text(b.as_str(), ours.as_str()) {
                Merged::Value(copy_string(theirs))
            } else if same_text(b.as_str(), theirs.as_str()) {
                Merged::Value(copy_string(ours))
            } else {
                Merged::Conflict
            }
        },
        None => Merged::Conflict,
    }
}

/// What the merged map holds under a key, given the base, ours and theirs.
/// A document on one side only was deleted by the other side if the base has
/// it, and added by this side if not.
pub open spec fn merged_value(b: Option<Seq<char>>, o: Option<Seq<char>>, t: Option<Seq<char>>) -> Option<Seq<char>> {
    match (o, t) {
        (Some(x), Some(y)) => merge_one_spec(b, x, y),
        (Some(x), None) => if b is Some {
            None
        } else {
            Some(x)
        },
        (None, Some(y)) => if b is Some {
            None
        } else {
            Some(y)
        },
        (None, None) => None,
    }
}

/// Whether a key is in conflict: both changed it differently, or one side
/// edited what the other deleted.
pub open spec fn conflicted(b: Option<Seq<char>>, o: Option<Seq<char>>, t: Option<Seq<char>>) -> bool {
    match (o, t) {
        (Some(x), Some(y)) => merge_one_spec(b, x, y) is None,
        (Some(x), None) => b is Some && b != Some(x),
        (None, Some(y)) => b is Some && b != Some(y),
        (None, None) => false,
    }
}

/// Whether the merge takes a key's document from their side.
pub open spec fn took_theirs(b: Option<Seq<char>>, o: Option<Seq<char>>, t: Option<Seq<char>>) -> bool {
    match (o, t) {
        (Some(x), Some(y)) => merge_one_spec(b, x, y) == Some(y) && y != x,
        (None, Some(y)) => b is None,
        _ => false,
    }
}

/// Whether the merge keeps our changed document against their unchanged one.
pub open spec fn kept_ours(b: Option<Seq<char>>, o: Option<Seq<char>>, t: Option<Seq<char>>) -> bool {
    match (o, t) {
        (Some(x), Some(y)) => merge_one_spec(b, x, y) == Some(x) && x != y,
        _ => false,
    }
}

pub open spec fn base_lookup(base: Option<&DocMap>, k: Seq<char>) -> Option<Seq<char>> {
    match base {
        Some(m) => lookup(m.pairs(), k),
        None => None,
    }
}

/// Keys in strictly increasing order.
pub open spec fn increasing(s: Seq<Seq<char>>) -> bool {
    forall|i: int, j: int| 0 <= i < j < s.len() ==> chars_lt(#[trigger] s[i], #[trigger] s[j])
}

pub open spec fn strings_view(s: Seq<String>) -> Seq<Seq<char>> {
    s.map_values(|x: String| x@)
}

pub open spec fn conflicts_view(s: Seq<Conflict>) -> Seq<(Seq<char>, Seq<char>)> {
    s.map_values(|c: Conflict| (c.kind@, c.key@))
}

/// The keys of two maps together, each once, in increasing order.
pub fn union_keys(a: &DocMap, b: &DocMap) -> (r: Vec<String>)
    ensures
        increasing(strings_view(r@)),
        forall|k: Seq<char>|
            strings_view(r@).contains(k) <==> (lookup(a.pairs(), k) is Some || lookup(b.pairs(), k) is Some),
{
    let la = a.len();
    let lb = b.len();
    let ghost pa = a.pairs();
    let ghost pb = b.pairs();
    let mut r: Vec<String> = Vec::new();
    let mut i: usize = 0;
    let mut j: usize = 0;
    while i < la || j < lb
        invariant
            i <= la == pa.len(),
            j <= lb == pb.len(),
            pa == a.pairs(),
            pb == b.pairs(),
            strictly_sorted(pa),
            strictly_sorted(pb),
            increasing(strings_view(r@)),
            forall|k: Seq<char>|
                strings_view(r@).contains(k) <==> ((exists|x: int| 0 <= x < i && #[trigger] pa[x].0 == k)
                    || (exists|y: int| 0 <= y < j && #[trigger] pb[y].0 == k)),
            forall|q: int, x: int| 0 <= q < r@.len() && i <= x < la ==> chars_lt(#[trigger] r@[q]@, #[trigger] pa[x].0),
            forall|q: int, y: int| 0 <= q < r@.len() && j <= y < lb ==> chars_lt(#[trigger] r@[q]@, #[trigger] pb[y].0),
        decreases la + lb - i - j,
    {
        let ghost before = strings_view(r@);
        let take_a: bool;
        let take_b: bool;
        if i < la && j < lb {
            let ka = a.key_at(i);
            let kb = b.key_at(j);
            if text_lt(ka.as_str(), kb.as_str()) {
                take_a = true;
                take_b = false;
            } else if text_lt(kb.as_str(), ka.as_str()) {
                take_a = false;
                take_b = true;
            } else {
                proof {
                    lemma_chars_lt_total(pa[i as int].0, pb[j as int].0);
                }
                take_a = true;
                take_b = true;
            }
        } else if i < la {
            take_a = true;
            take_b = false;
        } else {
            take_a = false;
            take_b = true;
        }
        let k = if take_a {
            copy_string(a.key_at(i))
        } else {
            copy_string(b.key_at(j))
        };
        proof {
            lemma_chars_lt_irreflexive(k@);
            if take_a && take_b {
                assert(k@ == pa[i as int].0 && k@ == pb[j as int].0);
            }
            // Everything still to come sorts after `k`.
            assert forall|x: int| i < x < la implies chars_lt(k@, #[trigger] pa[x].0) by {
                if take_a {
                    assert(chars_lt(pa[i as int].0, pa[x].0));
                } else {
                    assert(chars_lt(pa[i as int].0, pa[x].0));
                    lemma_chars_lt_total(pa[i as int].0, pb[j as int].0);
                    lemma_chars_lt_trans(pb[j as int].0, pa[i as int].0, pa[x].0);
                }
            }
            assert forall|y: int| j < y < lb implies chars_lt(k@, #[trigger] pb[y].0) by {
                if take_b {
                    assert(chars_lt(pb[j as int].0, pb[y].0));
                } else {
                    assert(chars_lt(pb[j as int].0, pb[y].0));
                    lemma_chars_lt_total(pa[i as int].0, pb[j as int].0);
                    lemma_chars_lt_trans(pa[i as int].0, pb[j as int].0, pb[y].0);
                }
            }
            if !take_a && i < la {
                lemma_chars_lt_total(pa[i as int].0, pb[j as int].0);
            }
            if !take_b && j < lb {
                lemma_chars_lt_total(pa[i as int].0, pb[j as int].0);
            }
        }
        r.push(k);
        proof {
            assert(strings_view(r@) =~= before.push(k@));
            assert forall|q: int| 0 <= q < before.len() implies chars_lt(#[trigger] before[q], k@) by {
                assert(before[q] == r@[q]@);
                if take_a {
                    assert(chars_lt(r@[q]@, pa[i as int].0));
                } else {
                    assert(chars_lt(r@[q]@, pb[j as int].0));
                }
            }
        }
        let ghost i0 = i;
        let ghost j0 = j;
        if take_a {
            i = i + 1;
        }
        if take_b {
            j = j + 1;
        }
        proof {
            let now = strings_view(r@);
            assert forall|kk: Seq<char>|
                now.contains(kk) <==> ((exists|x: int| 0 <= x < i && #[trigger] pa[x].0 == kk)
                    || (exists|y: int| 0 <= y < j && #[trigger] pb[y].0 == kk)) by {
                if now.contains(kk) {
                    let q = choose|q: int| 0 <= q < now.len() && now[q] == kk;
                    if q < before.len() {
                        assert(before[q] == kk);
                        assert(before.contains(kk));
                        if exists|x: int| 0 <= x < i0 && #[trigger] pa[x].0 == kk {
                            let x = choose|x: int| 0 <= x < i0 && #[trigger] pa[x].0 == kk;
                            assert(0 <= x < i && pa[x].0 == kk);
                        } else {
                            let y = choose|y: int| 0 <= y < j0 && #[trigger] pb[y].0 == kk;
                            assert(0 <= y < j && pb[y].0 == kk);
                        }
                    } else {
                        assert(kk == k@);
                        if take_a {
                            assert(0 <= i0 < i && pa[i0 as int].0 == kk);
                        } else {
                            assert(0 <= j0 < j && pb[j0 as int].0 == kk);
                        }
                    }
                }
                if exists|x: int| 0 <= x < i && #[trigger] pa[x].0 == kk {
                    let x = choose|x: int| 0 <= x < i && #[trigger] pa[x].0 == kk;
                    if x < i0 {
                        assert(before.contains(kk));
                        let q = choose|q: int| 0 <= q < before.len() && before[q] == kk;
                        assert(now[q] == kk);
                    } else {
                        assert(now[before.len() as int] == kk);
                    }
                }
                if exists|y: int| 0 <= y < j && #[trigger] pb[y].0 == kk {
                    let y = choose|y: int| 0 <= y < j && #[trigger] pb[y].0 == kk;
                    if y < j0 {
                        assert(before.contains(kk));
                        let q = choose|q: int| 0 <= q < before.len() && before[q] == kk;
                        assert(now[q] == kk);
                    } else {
                        assert(now[before.len() as int] == kk);
                    }
                }
            }
        }
    }
    proof {
        assert forall|k: Seq<char>|
            strings_view(r@).contains(k) <==> (lookup(pa, k) is Some || lookup(pb, k) is Some) by {
            if exists|x: int| 0 <= x < pa.len() && #[trigger] pa[x].0 == k {
                let x = choose|x: int| 0 <= x < pa.len() && #[trigger] pa[x].0 == k;
                assert(0 <= x < i && pa[x].0 == k);
            }
            if exists|y: int| 0 <= y < pb.len() && #[trigger] pb[y].0 == k {
                let y = choose|y: int| 0 <= y < pb.len() && #[trigger] pb[y].0 == k;
                assert(0 <= y < j && pb[y].0 == k);
            }
        }
    }
    r
}


/// `k` is among the first `i` keys of `u`.
pub open spec fn seen(u: Seq<Seq<char>>, i: int, k: Seq<char>) -> bool {
    exists|x: int| 0 <= x < i && #[trigger] u[x] == k
}

/// The part of a list appended after its first `n` items.
pub open spec fn appended<T>(s: Seq<T>, n: nat) -> Seq<T> {
    s.subrange(n as int, s.len() as int)
}

/// Three-way merge of two maps of one kind, against their common base.
/// Documents taken from their side, kept from ours, and in conflict are
/// reported in `result`, each list in increasing key order.
pub fn merge_maps(
    base: Option<&DocMap>,
    ours: &DocMap,
    theirs: &DocMap,
    kind: &str,
    result: &mut MergeResult,
) -> (out: DocMap)
    ensures
        forall|k: Seq<char>|
            lookup(out.pairs(), k) == merged_value(
                base_lookup(base, k),
                lookup(ours.pairs(), k),
                lookup(theirs.pairs(), k),
            ),
        final(result).took_theirs@.len() >= old(result).took_theirs@.len(),
        final(result).kept_ours@.len() >= old(result).kept_ours@.len(),
        final(result).conflicts@.len() >= old(result).conflicts@.len(),
        final(result).took_theirs@.subrange(0, old(result).took_theirs@.len() as int)
            == old(result).took_theirs@,
        final(result).kept_ours@.subrange(0, old(result).kept_ours@.len() as int)
            == old(result).kept_ours@,
        final(result).conflicts@.subrange(0, old(result).conflicts@.len() as int)
            == old(result).conflicts@,
        increasing(appended(strings_view(final(result).took_theirs@), old(result).took_theirs@.len())),
        increasing(appended(strings_view(final(result).kept_ours@), old(result).kept_ours@.len())),
        increasing(appended(conflicts_view(final(result).conflicts@), old(result).conflicts@.len()).map_values(|c: (Seq<char>, Seq<char>)| c.1)),
        forall|k: Seq<char>|
            appended(strings_view(final(result).took_theirs@), old(result).took_theirs@.len()).contains(k)
                <==> took_theirs(base_lookup(base, k), lookup(ours.pairs(), k), lookup(theirs.pairs(), k)),
        forall|k: Seq<char>|
            appended(strings_view(final(result).kept_ours@), old(result).kept_ours@.len()).contains(k)
                <==> kept_ours(base_lookup(base, k), lookup(ours.pairs(), k), lookup(theirs.pairs(), k)),
        forall|k: Seq<char>|
            appended(conflicts_view(final(result).conflicts@), old(result).conflicts@.len()).contains((kind@, k))
                <==> conflicted(base_lookup(base, k), lookup(ours.pairs(), k), lookup(theirs.pairs(), k)),
        forall|c: (Seq<char>, Seq<char>)|
            appended(conflicts_view(final(result).conflicts@), old(result).conflicts@.len()).contains(c)
                ==> c.0 == kind@,
{
    let keys = union_keys(ours, theirs);
    let ghost u = strings_view(keys@);
    let ghost t0 = old(result).took_theirs@.len();
    let ghost k0 = old(result).kept_ours@.len();
    let ghost c0 = old(result).conflicts@.len();
    let mut out = DocMap::new();
    let mut i: usize = 0;
    assert(appended(strings_view(result.took_theirs@), t0) =~= Seq::<Seq<char>>::empty());
    assert(appended(strings_view(result.kept_ours@), k0) =~= Seq::<Seq<char>>::empty());
    assert(appended(conflicts_view(result.conflicts@), c0) =~= Seq::<(Seq<char>, Seq<char>)>::empty());
    while i < keys.len()
        invariant
            i <= keys@.len(),
            u == strings_view(keys@),
            increasing(u),
            forall|k: Seq<char>|
                u.contains(k) <==> (lookup(ours.pairs(), k) is Some || lookup(theirs.pairs(), k) is Some),
            t0 <= result.took_theirs@.len(),
            k0 <= result.kept_ours@.len(),
            c0 <= result.conflicts@.len(),
            result.took_theirs@.subrange(0, t0 as int) == old(result).took_theirs@,
            result.kept_ours@.subrange(0, k0 as int) == old(result).kept_ours@,
            result.conflicts@.subrange(0, c0 as int) == old(result).conflicts@,
            t0 == old(result).took_theirs@.len(),
            k0 == old(result).kept_ours@.len(),
            c0 == old(result).conflicts@.len(),
            forall|k: Seq<char>|
                lookup(out.pairs(), k) == if seen(u, i as int, k) {
                    merged_value(base_lookup(base, k), lookup(ours.pairs(), k), lookup(theirs.pairs(), k))
                } else {
                    None
                },
            forall|k: Seq<char>|
                appended(strings_view(result.took_theirs@), t0).contains(k) <==> (seen(u, i as int, k)
                    && took_theirs(base_lookup(base, k), lookup(ours.pairs(), k), lookup(theirs.pairs(), k))),
            forall|k: Seq<char>|
                appended(strings_view(result.kept_ours@), k0).contains(k) <==> (seen(u, i as int, k)
                    && kept_ours(base_lookup(base, k), lookup(ours.pairs(), k), lookup(theirs.pairs(), k))),
            forall|k: Seq<char>|
                appended(conflicts_view(result.conflicts@), c0).contains((kind@, k)) <==> (seen(u, i as int, k)
                    && conflicted(base_lookup(base, k), lookup(ours.pairs(), k), lookup(theirs.pairs(), k))),
            forall|c: (Seq<char>, Seq<char>)|
                appended(conflicts_view(result.conflicts@), c0).contains(c) ==> c.0 == kind@ && seen(u, i as int, c.1),
            increasing(appended(strings_view(result.took_theirs@), t0)),
            increasing(appended(strings_view(result.kept_ours@), k0)),
            increasing(appended(conflicts_view(result.conflicts@), c0).map_values(|c: (Seq<char>, Seq<char>)| c.1)),
        decreases keys@.len() - i,
    {
        let key = &keys[i];
        let ghost k = key@;
        let ghost bt = appended(strings_view(result.took_theirs@), t0);
        let ghost bk = appended(strings_view(result.kept_ours@), k0);
        let ghost bc = appended(conflicts_view(result.conflicts@), c0);
        let ghost op = out.pairs();
        let o = ours.get(key.as_str());
        let t = theirs.get(key.as_str());
        let b = match base {
            Some(m) => m.get(key.as_str()),
            None => None,
        };
        let ghost bv = base_lookup(base, k);
        let ghost ov = lookup(ours.pairs(), k);
        let ghost tv = lookup(theirs.pairs(), k);
        let mut took = false;
        let mut kept = false;
        let mut conflict = false;
        match (o, t) {
            (Some(x), Some(y)) => {
                match merge_one(b, x, y) {
                    Merged::Value(v) => {
                        if same_text(v.as_str(), y.as_str()) && !same_text(v.as_str(), x.as_str()) {
                            took = true;
                        } else if same_text(v.as_str(), x.as_str()) && !same_text(v.as_str(), y.as_str()) {
                            kept = true;
                        }
                        out.insert(key.as_str(), v.as_str());
                    },
                    Merged::Conflict => {
                        conflict = true;
                    },
                }
            },
            (Some(x), None) => {
                match b {
                    Some(bb) => {
                        if !same_text(bb.as_str(), x.as_str()) {
                            conflict = true;
                        }
                    },
                    None => {
                        out.insert(key.as_str(), x.as_str());
                    },
                }
            },
            (None, Some(y)) => {
                match b {
                    Some(bb) => {
                        if !same_text(bb.as_str(), y.as_str()) {
                            conflict = true;
                        }
                    },
                    None => {
                        took = true;
                        out.insert(key.as_str(), y.as_str());
                    },
                }
            },
            (None, None) => {},
        }
        assert(took == took_theirs(bv, ov, tv));
        assert(kept == kept_ours(bv, ov, tv));
        assert(conflict == conflicted(bv, ov, tv));
        proof {
            assert(u[i as int] == k);
            assert(!seen(u, i as int, k)) by {
                if seen(u, i as int, k) {
                    let x = choose|x: int| 0 <= x < i && #[trigger] u[x] == k;
                    assert(chars_lt(u[x], u[i as int]));
                    lemma_chars_lt_irreflexive(k);
                }
            }
            assert forall|kk: Seq<char>| seen(u, i + 1, kk) <==> (seen(u, i as int, kk) || kk == k) by {
                if seen(u, i + 1, kk) {
                    let x = choose|x: int| 0 <= x < i + 1 && #[trigger] u[x] == kk;
                    if x < i {
                        assert(seen(u, i as int, kk));
                    }
                }
                if seen(u, i as int, kk) {
                    let x = choose|x: int| 0 <= x < i && #[trigger] u[x] == kk;
                    assert(0 <= x < i + 1 && u[x] == kk);
                }
                if kk == k {
                    assert(0 <= i < i + 1 && u[i as int] == kk);
                }
            }
            assert forall|kk: Seq<char>| seen(u, i as int, kk) implies chars_lt(kk, k) by {
                let x = choose|x: int| 0 <= x < i && #[trigger] u[x] == kk;
            }
            assert forall|kk: Seq<char>|
                lookup(out.pairs(), kk) == if seen(u, i + 1, kk) {
                    merged_value(base_lookup(base, kk), lookup(ours.pairs(), kk), lookup(theirs.pairs(), kk))
                } else {
                    None
                } by {}
        }
        if took {
            result.took_theirs.push(copy_string(key));
            proof {
                let nt = appended(strings_view(result.took_theirs@), t0);
                assert(nt =~= bt.push(k));
                assert forall|p: int, q: int| 0 <= p < q < nt.len() implies chars_lt(#[trigger] nt[p], #[trigger] nt[q]) by {
                    if q == nt.len() - 1 {
                        assert(bt.contains(nt[p]));
                    }
                }
            }
        }
        if kept {
            result.kept_ours.push(copy_string(key));
            proof {
                let nk = appended(strings_view(result.kept_ours@), k0);
                assert(nk =~= bk.push(k));
                assert forall|p: int, q: int| 0 <= p < q < nk.len() implies chars_lt(#[trigger] nk[p], #[trigger] nk[q]) by {
                    if q == nk.len() - 1 {
                        assert(bk.contains(nk[p]));
                    }
                }
            }
        }
        if conflict {
            result.conflicts.push(Conflict { kind: owned(kind), key: copy_string(key) });
            proof {
                let nc = appended(conflicts_view(result.conflicts@), c0);
                assert(nc =~= bc.push((kind@, k)));
                let m = nc.map_values(|c: (Seq<char>, Seq<char>)| c.1);
                let bm = bc.map_values(|c: (Seq<char>, Seq<char>)| c.1);
                assert(m =~= bm.push(k));
                assert forall|p: int, q: int| 0 <= p < q < m.len() implies chars_lt(#[trigger] m[p], #[trigger] m[q]) by {
                    if q == m.len() - 1 {
                        assert(bc.contains(bc[p]));
                        assert(m[p] == bc[p].1);
                    }
                }
            }
        }
        proof {
            let nt = appended(strings_view(result.took_theirs@), t0);
            let nk = appended(strings_view(result.kept_ours@), k0);
            let nc = appended(conflicts_view(result.conflicts@), c0);
            if !took {
                assert(nt =~= bt);
            }
            if !kept {
                assert(nk =~= bk);
            }
            if !conflict {
                assert(nc =~= bc);
            }
            assert forall|kk: Seq<char>| nt.contains(kk) <==> (seen(u, i + 1, kk) && took_theirs(
                base_lookup(base, kk),
                lookup(ours.pairs(), kk),
                lookup(theirs.pairs(), kk),
            )) by {
                assert(seen(u, i + 1, kk) == (seen(u, i as int, kk) || kk == k));
                if kk == k {
                    assert(!seen(u, i as int, k));
                }
                if !took {
                    assert(nt == bt);
                }
                if took {
                    assert(nt =~= bt.push(k));
                    if nt.contains(kk) && kk != k {
                        let q = choose|q: int| 0 <= q < nt.len() && nt[q] == kk;
                        assert(bt[q] == kk);
                    }
                    if bt.contains(kk) {
                        let q = choose|q: int| 0 <= q < bt.len() && bt[q] == kk;
                        assert(nt[q] == kk);
                    }
                    if kk == k {
                        assert(nt[nt.len() - 1] == kk);
                    }
                }
            }
            assert forall|kk: Seq<char>| nk.contains(kk) <==> (seen(u, i + 1, kk) && kept_ours(
                base_lookup(base, kk),
                lookup(ours.pairs(), kk),
                lookup(theirs.pairs(), kk),
            )) by {
                assert(seen(u, i + 1, kk) == (seen(u, i as int, kk) || kk == k));
                if kk == k {
                    assert(!seen(u, i as int, k));
                }
                if !kept {
                    assert(nk == bk);
                }
                if kept {
                    assert(nk =~= bk.push(k));
                    if nk.contains(kk) && kk != k {
                        let q = choose|q: int| 0 <= q < nk.len() && nk[q] == kk;
                        assert(bk[q] == kk);
                    }
                    if bk.contains(kk) {
                        let q = choose|q: int| 0 <= q < bk.len() && bk[q] == kk;
                        assert(nk[q] == kk);
                    }
                    if kk == k {
                        assert(nk[nk.len() - 1] == kk);
                    }
                }
            }
            assert forall|kk: Seq<char>| nc.contains((kind@, kk)) <==> (seen(u, i + 1, kk) && conflicted(
                base_lookup(base, kk),
                lookup(ours.pairs(), kk),
                lookup(theirs.pairs(), kk),
            )) by {
                assert(seen(u, i + 1, kk) == (seen(u, i as int, kk) || kk == k));
                if kk == k {
                    assert(!seen(u, i as int, k));
                    assert(!bc.contains((kind@, k)));
                }
                if !conflict {
                    assert(nc == bc);
                }
                if conflict {
                    assert(nc =~= bc.push((kind@, k)));
                    if nc.contains((kind@, kk)) && kk != k {
                        let q = choose|q: int| 0 <= q < nc.len() && nc[q] == (kind@, kk);
                        assert(bc[q] == (kind@, kk));
                    }
                    if bc.contains((kind@, kk)) {
                        let q = choose|q: int| 0 <= q < bc.len() && bc[q] == (kind@, kk);
                        assert(nc[q] == (kind@, kk));
                    }
                    if kk == k {
                        assert(nc[nc.len() - 1] == (kind@, kk));
                    }
                }
            }
            assert forall|c: (Seq<char>, Seq<char>)| nc.contains(c) implies c.0 == kind@ && seen(u, i + 1, c.1) by {
                if conflict {
                    assert(nc =~= bc.push((kind@, k)));
                    let q = choose|q: int| 0 <= q < nc.len() && nc[q] == c;
                    if q < bc.len() {
                        assert(bc[q] == c);
                        assert(bc.contains(c));
                        assert(seen(u, i as int, c.1));
                    } else {
                        assert(c == (kind@, k));
                    }
                } else {
                    assert(nc == bc);
                    assert(bc.contains(c));
                }
                assert(seen(u, i + 1, c.1) == (seen(u, i as int, c.1) || c.1 == k));
            }
            assert(result.took_theirs@.subrange(0, t0 as int) =~= old(result).took_theirs@);
            assert(result.kept_ours@.subrange(0, k0 as int) =~= old(result).kept_ours@);
            assert(result.conflicts@.subrange(0, c0 as int) =~= old(result).conflicts@);
        }
        i = i + 1;
    }
    proof {
        assert forall|k: Seq<char>| seen(u, i as int, k) <==> u.contains(k) by {
            if u.contains(k) {
                let x = choose|x: int| 0 <= x < u.len() && u[x] == k;
                assert(0 <= x < i && u[x] == k);
            }
            if seen(u, i as int, k) {
                let x = choose|x: int| 0 <= x < i && #[trigger] u[x] == k;
                assert(u[x] == k);
            }
        }
        assert forall|k: Seq<char>|
            lookup(out.pairs(), k) == merged_value(
                base_lookup(base, k),
                lookup(ours.pairs(), k),
                lookup(theirs.pairs(), k),
            ) by {
            if !seen(u, i as int, k) {
                assert(!u.contains(k));
            }
        }
        assert forall|k: Seq<char>|
            appended(strings_view(result.took_theirs@), t0).contains(k)
                <==> took_theirs(base_lookup(base, k), lookup(ours.pairs(), k), lookup(theirs.pairs(), k)) by {
            if !seen(u, i as int, k) {
                assert(!u.contains(k));
            }
        }
        assert forall|k: Seq<char>|
            appended(strings_view(result.kept_ours@), k0).contains(k)
                <==> kept_ours(base_lookup(base, k), lookup(ours.pairs(), k), lookup(theirs.pairs(), k)) by {
            if !seen(u, i as int, k) {
                assert(!u.contains(k));
            }
        }
        assert forall|k: Seq<char>|
            appended(conflicts_view(result.conflicts@), c0).contains((kind@, k))
                <==> conflicted(base_lookup(base, k), lookup(ours.pairs(), k), lookup(theirs.pairs(), k)) by {
            if !seen(u, i as int, k) {
                assert(!u.contains(k));
            }
        }
    }
    out
}

// ----------------------------------------------------- sync decisions ---

/// What a pull does once their history is here.
#[derive(Debug)]
pub enum PullStep {
    /// Nothing to move: we are at or ahead of them.
    Stay,
    /// Move our head (and the working tree) to theirs.
    FastForward,
    /// Both sides moved on; nothing changes here and the caller may merge.
    Diverged { base: Option<String> },
}

/// Decides a pull from how our head relates to theirs. A pull never writes
/// over uncommitted work: a fast-forward of a dirty working tree is refused.
pub fn pull_step(relation: Relation, dirty: bool) -> (r: Result<PullStep, Error>)
    ensures
        match relation {
            Relation::Same => r matches Ok(PullStep::Stay),
            Relation::Ahead => r matches Ok(PullStep::Stay),
            Relation::Behind => if dirty {
                r matches Err(Error::DirtyWorkingTree)
            } else {
                r matches Ok(PullStep::FastForward)
            },
            Relation::Diverged { base } => r matches Ok(PullStep::Diverged { base: b }) && b == base,
        },
{
    match relation {
        Relation::Same => Ok(PullStep::Stay),
        Relation::Ahead => Ok(PullStep::Stay),
        Relation::Behind => if dirty {
            Err(Error::DirtyWorkingTree)
        } else {
            Ok(PullStep::FastForward)
        },
        Relation::Diverged { base } => Ok(PullStep::Diverged { base }),
    }
}

/// What a merge does.
#[derive(Debug)]
pub enum MergeStep {
    /// Their revision is already in our history.
    AlreadyUpToDate,
    /// Ours is an ancestor of theirs: check theirs out, no merge commit.
    FastForward,
    /// A genuine three-way merge.
    Merge,
}

/// Decides a merge: never over uncommitted work, and never a merge commit
/// that records no decision.
pub fn merge_step(dirty: bool, relation: &Relation) -> (r: Result<MergeStep, Error>)
    ensures
        dirty ==> r matches Err(Error::DirtyWorkingTree),
        !dirty ==> match relation {
            Relation::Same => r matches Ok(MergeStep::AlreadyUpToDate),
            Relation::Ahead => r matches Ok(MergeStep::AlreadyUpToDate),
            Relation::Behind => r matches Ok(MergeStep::FastForward),
            Relation::Diverged { .. } => r matches Ok(MergeStep::Merge),
        },
{
    if dirty {
        return Err(Error::DirtyWorkingTree);
    }
    match relation {
        Relation::Same => Ok(MergeStep::AlreadyUpToDate),
        Relation::Ahead => Ok(MergeStep::AlreadyUpToDate),
        Relation::Behind => Ok(MergeStep::FastForward),
        Relation::Diverged { .. } => Ok(MergeStep::Merge),
    }
}

/// Whether a push goes ahead, given the remote's head, our head and its
/// ancestry, and whether the remote's working tree is dirty: `Ok(false)` when
/// the remote is already at our head, `Ok(true)` when ours descends from its
/// head (or it has none). A push is refused rather than forced.
pub fn push_go(
    remote_head: Option<&str>,
    ours: &str,
    our_ancestry: &Vec<String>,
    remote_dirty: bool,
) -> (r: Result<bool, Error>)
    ensures
        match remote_head {
            Some(t) if t@ == ours@ => r matches Ok(go) && !go,
            Some(t) if !(exists|i: int| 0 <= i < our_ancestry@.len() && (#[trigger] our_ancestry@[i])@ == t@) => r matches Err(
                Error::Invalid(m),
            ) && m@ == "the remote has commits you do not: pull and merge before pushing"@,
            _ => if remote_dirty {
                r matches Err(Error::Invalid(m)) && m@
                    == "the remote has uncommitted changes in its working tree; pushing would overwrite them"@
            } else {
                r matches Ok(go) && go
            },
        },
{
    match remote_head {
        Some(t) => {
            if same_text(t, ours) {
                return Ok(false);
            }
            if !is_ancestor(our_ancestry, t) {
                return Err(Error::Invalid(owned("the remote has commits you do not: pull and merge before pushing")));
            }
        },
        None => {},
    }
    if remote_dirty {
        return Err(
            Error::Invalid(owned("the remote has uncommitted changes in its working tree; pushing would overwrite them")),
        );
    }
    Ok(true)
}

/// `h` is in an ancestry.
pub open spec fn listed_in(ancestry: Seq<String>, h: Seq<char>) -> bool {
    exists|i: int| 0 <= i < ancestry.len() && (#[trigger] ancestry[i])@ == h
}

/// Two heads are not each a proper ancestor of the other: true of every
/// history, since a commit's id covers its parents.
pub open spec fn no_cycle(ours: Seq<char>, theirs: Seq<char>, our_ancestry: Seq<String>, their_ancestry: Seq<String>) -> bool {
    !(ours != theirs && listed_in(their_ancestry, ours) && listed_in(our_ancestry, theirs))
}

/// `b` is the merge base of two ancestries: the first commit of ours that
/// theirs also holds, or none when they share nothing.
pub open spec fn base_of(ours: Seq<String>, theirs: Seq<String>, b: Option<String>) -> bool {
    match b {
        Some(b) => exists|i: int|
            0 <= i < ours.len() && (#[trigger] ours[i])@ == b@ && (exists|j: int|
                0 <= j < theirs.len() && (#[trigger] theirs[j])@ == b@) && forall|k: int|
                0 <= k < i ==> !(exists|j: int|
                    0 <= j < theirs.len() && (#[trigger] theirs[j])@ == (#[trigger] ours[k])@),
        None => forall|k: int|
            0 <= k < ours.len() ==> !(exists|j: int|
                0 <= j < theirs.len() && (#[trigger] theirs[j])@ == (#[trigger] ours[k])@),
    }
}

/// What a pull does once their history is here, from our head, theirs and
/// the ancestry of each, and whether our working tree has uncommitted
/// changes: nothing when they have nothing new, a fast-forward when only they
/// moved (refused over uncommitted work), and a report of divergence, with the
/// merge base, when both moved.
pub fn pull_decision(
    ours: &str,
    theirs: &str,
    our_ancestry: &Vec<String>,
    their_ancestry: &Vec<String>,
    dirty: bool,
) -> (r: Result<PullStep, Error>)
    ensures
        no_cycle(ours@, theirs@, our_ancestry@, their_ancestry@) && (ours@ == theirs@ || listed_in(
            our_ancestry@,
            theirs@,
        )) ==> r matches Ok(PullStep::Stay),
        ours@ != theirs@ && listed_in(their_ancestry@, ours@) ==> if dirty {
            r matches Err(Error::DirtyWorkingTree)
        } else {
            r matches Ok(PullStep::FastForward)
        },
        ours@ != theirs@ && !listed_in(their_ancestry@, ours@) && !listed_in(our_ancestry@, theirs@) ==> (r matches Ok(
            PullStep::Diverged { base },
        ) && base_of(our_ancestry@, their_ancestry@, base)),
{
    let rel = relation(ours, theirs, our_ancestry, their_ancestry);
    pull_step(rel, dirty)
}

/// What a merge of `theirs` into `ours` does: refused over uncommitted work;
/// nothing when theirs is already in our history; a fast-forward when ours is
/// an ancestor of theirs; a three-way merge when both moved.
pub fn merge_decision(
    dirty: bool,
    ours: &str,
    theirs: &str,
    our_ancestry: &Vec<String>,
    their_ancestry: &Vec<String>,
) -> (r: Result<MergeStep, Error>)
    ensures
        dirty ==> r matches Err(Error::DirtyWorkingTree),
        !dirty && no_cycle(ours@, theirs@, our_ancestry@, their_ancestry@) && (ours@ == theirs@ || listed_in(
            our_ancestry@,
            theirs@,
        )) ==> r matches Ok(MergeStep::AlreadyUpToDate),
        !dirty && ours@ != theirs@ && listed_in(their_ancestry@, ours@) ==> r matches Ok(MergeStep::FastForward),
        !dirty && ours@ != theirs@ && !listed_in(their_ancestry@, ours@) && !listed_in(our_ancestry@, theirs@)
            ==> r matches Ok(MergeStep::Merge),
{
    let rel = relation(ours, theirs, our_ancestry, their_ancestry);
    merge_step(dirty, &rel)
}

// ------------------------------------------------------- whole revisions ---

/// A revision as the merge sees it: the content id of its file metadata, and
/// the content ids of its materials and models by key.
pub struct Snapshot {
    pub file_metadata: String,
    pub materials: DocMap,
    pub models: DocMap,
}

pub open spec fn base_meta(base: Option<&Snapshot>) -> Option<Seq<char>> {
    match base {
        Some(b) => Some(b.file_metadata@),
        None => None,
    }
}

pub open spec fn base_materials(base: Option<&Snapshot>) -> Option<&DocMap> {
    match base {
        Some(b) => Some(&b.materials),
        None => None,
    }
}

pub open spec fn base_models(base: Option<&Snapshot>) -> Option<&DocMap> {
    match base {
        Some(b) => Some(&b.models),
        None => None,
    }
}

/// Whether the three-way merge of two revisions runs into a document the two
/// sides changed differently (or that one edited and the other deleted), and
/// which: `(kind, key)`.
pub open spec fn revision_conflict(base: Option<&Snapshot>, ours: &Snapshot, theirs: &Snapshot, c: (Seq<char>, Seq<char>)) -> bool {
    ||| c == ("file_metadata"@, "file"@) && merge_one_spec(base_meta(base), ours.file_metadata@, theirs.file_metadata@) is None
    ||| c.0 == "material"@ && conflicted(
        base_lookup(base_materials(base), c.1),
        lookup(ours.materials.pairs(), c.1),
        lookup(theirs.materials.pairs(), c.1),
    )
    ||| c.0 == "ground_model"@ && conflicted(
        base_lookup(base_models(base), c.1),
        lookup(ours.models.pairs(), c.1),
        lookup(theirs.models.pairs(), c.1),
    )
}

proof fn lemma_prefix_contains<T>(s: Seq<T>, n: int, x: T)
    requires
        0 <= n <= s.len(),
    ensures
        s.contains(x) <==> (s.subrange(0, n).contains(x) || appended(s, n as nat).contains(x)),
{
    if s.contains(x) {
        let i = choose|i: int| 0 <= i < s.len() && s[i] == x;
        if i < n {
            assert(s.subrange(0, n)[i] == x);
        } else {
            assert(appended(s, n as nat)[i - n] == x);
        }
    }
    let p = s.subrange(0, n);
    if p.contains(x) {
        let i = choose|i: int| 0 <= i < p.len() && p[i] == x;
        assert(s[i] == x);
    }
    let a = appended(s, n as nat);
    if a.contains(x) {
        let i = choose|i: int| 0 <= i < a.len() && a[i] == x;
        assert(s[i + n] == x);
    }
}

/// The three-way merge of two revisions against their base, document by
/// document: the merged revision (our file metadata where it conflicts), and
/// the documents taken from their side, kept from ours, and in conflict. The
/// merge succeeds exactly when the conflict list is empty, that is when no
/// document was changed differently by the two sides.
pub fn merge_snapshots(base: Option<&Snapshot>, ours: &Snapshot, theirs: &Snapshot) -> (r: (Snapshot, MergeResult))
    ensures
        r.0.file_metadata@ == match merge_one_spec(base_meta(base), ours.file_metadata@, theirs.file_metadata@) {
            Some(v) => v,
            None => ours.file_metadata@,
        },
        forall|k: Seq<char>|
            lookup(r.0.materials.pairs(), k) == merged_value(
                base_lookup(base_materials(base), k),
                lookup(ours.materials.pairs(), k),
                lookup(theirs.materials.pairs(), k),
            ),
        forall|k: Seq<char>|
            lookup(r.0.models.pairs(), k) == merged_value(
                base_lookup(base_models(base), k),
                lookup(ours.models.pairs(), k),
                lookup(theirs.models.pairs(), k),
            ),
        forall|c: (Seq<char>, Seq<char>)|
            conflicts_view(r.1.conflicts@).contains(c) <==> revision_conflict(base, ours, theirs, c),
        forall|k: Seq<char>|
            strings_view(r.1.took_theirs@).contains(k) <==> (took_theirs(
                base_lookup(base_materials(base), k),
                lookup(ours.materials.pairs(), k),
                lookup(theirs.materials.pairs(), k),
            ) || took_theirs(
                base_lookup(base_models(base), k),
                lookup(ours.models.pairs(), k),
                lookup(theirs.models.pairs(), k),
            )),
        forall|k: Seq<char>|
            strings_view(r.1.kept_ours@).contains(k) <==> (kept_ours(
                base_lookup(base_materials(base), k),
                lookup(ours.materials.pairs(), k),
                lookup(theirs.materials.pairs(), k),
            ) || kept_ours(
                base_lookup(base_models(base), k),
                lookup(ours.models.pairs(), k),
                lookup(theirs.models.pairs(), k),
            )),
        r.1.conflicts@.len() == 0 <==> forall|c: (Seq<char>, Seq<char>)| !#[trigger] revision_conflict(base, ours, theirs, c),
{
    proof {
        reveal_strlit("file_metadata");
        reveal_strlit("material");
        reveal_strlit("ground_model");
        reveal_strlit("file");
    }
    let mut result = MergeResult { conflicts: Vec::new(), took_theirs: Vec::new(), kept_ours: Vec::new() };
    let base_meta_id = match base {
        Some(b) => Some(&b.file_metadata),
        None => None,
    };
    let meta = match merge_one(base_meta_id, &ours.file_metadata, &theirs.file_metadata) {
        Merged::Value(v) => v,
        Merged::Conflict => {
            result.conflicts.push(Conflict { kind: owned("file_metadata"), key: owned("file") });
            copy_string(&ours.file_metadata)
        },
    };
    let ghost r0 = result;
    let base_mats = match base {
        Some(b) => Some(&b.materials),
        None => None,
    };
    let materials = merge_maps(base_mats, &ours.materials, &theirs.materials, "material", &mut result);
    let ghost r1 = result;
    let base_mods = match base {
        Some(b) => Some(&b.models),
        None => None,
    };
    let models = merge_maps(base_mods, &ours.models, &theirs.models, "ground_model", &mut result);
    proof {
        let cv0 = conflicts_view(r0.conflicts@);
        let cv1 = conflicts_view(r1.conflicts@);
        let cv2 = conflicts_view(result.conflicts@);
        let n0 = r0.conflicts@.len();
        let n1 = r1.conflicts@.len();
        assert(cv1.subrange(0, n0 as int) =~= cv0) by {
            assert(r1.conflicts@.subrange(0, n0 as int) == r0.conflicts@);
        }
        assert(cv2.subrange(0, n1 as int) =~= cv1) by {
            assert(result.conflicts@.subrange(0, n1 as int) == r1.conflicts@);
        }
        assert forall|c: (Seq<char>, Seq<char>)| cv2.contains(c) <==> revision_conflict(base, ours, theirs, c) by {
            lemma_prefix_contains(cv2, n1 as int, c);
            lemma_prefix_contains(cv1, n0 as int, c);
            if cv0.contains(c) {
                let i = choose|i: int| 0 <= i < cv0.len() && cv0[i] == c;
                assert(c == ("file_metadata"@, "file"@));
            }
            if c == ("file_metadata"@, "file"@) && merge_one_spec(base_meta(base), ours.file_metadata@, theirs.file_metadata@) is None {
                assert(cv0[0] == c);
            }
            if appended(cv1, n0).contains(c) {
                assert(c.0 == "material"@);
            }
            if appended(cv2, n1).contains(c) {
                assert(c.0 == "ground_model"@);
            }
            if c.0 == "material"@ {
                assert(appended(cv1, n0).contains(("material"@, c.1)) <==> conflicted(
                    base_lookup(base_materials(base), c.1),
                    lookup(ours.materials.pairs(), c.1),
                    lookup(theirs.materials.pairs(), c.1),
                ));
                assert(("material"@, c.1) == c);
            }
            if c.0 == "ground_model"@ {
                assert(appended(cv2, n1).contains(("ground_model"@, c.1)) <==> conflicted(
                    base_lookup(base_models(base), c.1),
                    lookup(ours.models.pairs(), c.1),
                    lookup(theirs.models.pairs(), c.1),
                ));
                assert(("ground_model"@, c.1) == c);
            }
        }
        let t1 = strings_view(r1.took_theirs@);
        let t2 = strings_view(result.took_theirs@);
        assert(r0.took_theirs@.len() == 0);
        assert(t1 =~= appended(t1, 0));
        assert(t2.subrange(0, t1.len() as int) =~= t1) by {
            assert(result.took_theirs@.subrange(0, r1.took_theirs@.len() as int) == r1.took_theirs@);
        }
        assert forall|k: Seq<char>| t2.contains(k) <==> (t1.contains(k) || appended(t2, t1.len()).contains(k)) by {
            lemma_prefix_contains(t2, t1.len() as int, k);
        }
        let k1 = strings_view(r1.kept_ours@);
        let k2 = strings_view(result.kept_ours@);
        assert(r0.kept_ours@.len() == 0);
        assert(k1 =~= appended(k1, 0));
        assert(k2.subrange(0, k1.len() as int) =~= k1) by {
            assert(result.kept_ours@.subrange(0, r1.kept_ours@.len() as int) == r1.kept_ours@);
        }
        assert forall|k: Seq<char>| k2.contains(k) <==> (k1.contains(k) || appended(k2, k1.len()).contains(k)) by {
            lemma_prefix_contains(k2, k1.len() as int, k);
        }
        if result.conflicts@.len() == 0 {
            assert forall|c: (Seq<char>, Seq<char>)| !#[trigger] revision_conflict(base, ours, theirs, c) by {
                if revision_conflict(base, ours, theirs, c) {
                    assert(cv2.contains(c));
                }
            }
        } else {
            assert(cv2.contains(cv2[0]));
            assert(revision_conflict(base, ours, theirs, cv2[0]));
        }
    }
    (Snapshot { file_metadata: meta, materials, models }, result)
}

// ------------------------------------------------------------- bundles ---

/// A history as each commit with the blobs its manifest lists.
pub open spec fn history_view(h: Seq<(String, Vec<String>)>) -> Seq<(Seq<char>, Seq<Seq<char>>)> {
    h.map_values(|c: (String, Vec<String>)| (c.0@, strings_view(c.1@)))
}

/// Some commit of `hist` that the peer holds lists blob `b`: holding a
/// commit is proof of holding every document it references.
pub open spec fn peer_has_blob(hist: Seq<(Seq<char>, Seq<Seq<char>>)>, peer: Seq<Seq<char>>, b: Seq<char>) -> bool {
    exists|k: int| 0 <= k < hist.len() && peer.contains((#[trigger] hist[k]).0) && hist[k].1.contains(b)
}

/// Object `x` is one the peer lacks, of the first `n` commits of `hist`: a
/// commit the peer does not hold, or a blob such a commit lists that no
/// commit the peer holds lists.
pub open spec fn wanted(hist: Seq<(Seq<char>, Seq<Seq<char>>)>, peer: Seq<Seq<char>>, n: int, x: Seq<char>) -> bool {
    exists|i: int|
        0 <= i < n && !peer.contains((#[trigger] hist[i]).0) && (hist[i].0 == x || (hist[i].1.contains(x)
            && !peer_has_blob(hist, peer, x)))
}

/// Whether `x` is in `v`.
fn listed(v: &Vec<String>, x: &str) -> (r: bool)
    ensures
        r == strings_view(v@).contains(x@),
{
    let ghost sv = strings_view(v@);
    let mut i: usize = 0;
    while i < v.len()
        invariant
            i <= v@.len(),
            sv == strings_view(v@),
            forall|j: int| 0 <= j < i ==> sv[j] != x@,
        decreases v@.len() - i,
    {
        if same_text(v[i].as_str(), x) {
            assert(sv[i as int] == x@);
            return true;
        }
        i = i + 1;
    }
    false
}

proof fn lemma_wanted_step(hist: Seq<(Seq<char>, Seq<Seq<char>>)>, peer: Seq<Seq<char>>, n: int, x: Seq<char>)
    requires
        0 <= n < hist.len(),
    ensures
        wanted(hist, peer, n + 1, x) <==> (wanted(hist, peer, n, x) || (!peer.contains(hist[n].0) && (hist[n].0
            == x || (hist[n].1.contains(x) && !peer_has_blob(hist, peer, x))))),
{
    if wanted(hist, peer, n + 1, x) {
        let i = choose|i: int|
            0 <= i < n + 1 && !peer.contains((#[trigger] hist[i]).0) && (hist[i].0 == x || (hist[i].1.contains(x)
                && !peer_has_blob(hist, peer, x)));
        if i < n {
            assert(wanted(hist, peer, n, x));
        }
    }
    if wanted(hist, peer, n, x) {
        let i = choose|i: int|
            0 <= i < n && !peer.contains((#[trigger] hist[i]).0) && (hist[i].0 == x || (hist[i].1.contains(x)
                && !peer_has_blob(hist, peer, x)));
        assert(0 <= i < n + 1);
    }
}

proof fn lemma_push_contains(s: Seq<Seq<char>>, v: Seq<char>, x: Seq<char>)
    ensures
        s.push(v).contains(x) <==> (s.contains(x) || x == v),
{
    let t = s.push(v);
    if t.contains(x) {
        let p = choose|p: int| 0 <= p < t.len() && t[p] == x;
        if p < s.len() {
            assert(s[p] == x);
        }
    }
    if s.contains(x) {
        let p = choose|p: int| 0 <= p < s.len() && s[p] == x;
        assert(t[p] == x);
    }
    if x == v {
        assert(t[s.len() as int] == v);
    }
}

/// The blobs listed by the commits of `history` that the peer holds.
fn held_blobs(history: &Vec<(String, Vec<String>)>, peer_has: &Vec<String>) -> (r: Vec<String>)
    ensures
        forall|x: Seq<char>|
            strings_view(r@).contains(x) <==> peer_has_blob(history_view(history@), strings_view(peer_has@), x),
{
    let ghost hv = history_view(history@);
    let ghost pv = strings_view(peer_has@);
    let mut held: Vec<String> = Vec::new();
    let mut i: usize = 0;
    while i < history.len()
        invariant
            i <= history@.len(),
            hv == history_view(history@),
            pv == strings_view(peer_has@),
            forall|x: Seq<char>| strings_view(held@).contains(x) <==> exists|k: int|
                0 <= k < i && pv.contains((#[trigger] hv[k]).0) && hv[k].1.contains(x),
        decreases history@.len() - i,
    {
        let ghost before = strings_view(held@);
        let holds = listed(peer_has, history[i].0.as_str());
        let blobs = &history[i].1;
        let ghost bv = strings_view(blobs@);
        assert(hv[i as int].1 == bv && hv[i as int].0 == history@[i as int].0@);
        if holds {
            let mut j: usize = 0;
            while j < blobs.len()
                invariant
                    j <= blobs@.len(),
                    bv == strings_view(blobs@),
                    strings_view(held@) == before + bv.take(j as int),
                decreases blobs@.len() - j,
            {
                let ghost prev = strings_view(held@);
                held.push(copy_string(&blobs[j]));
                proof {
                    assert(strings_view(held@) =~= prev.push(bv[j as int]));
                    assert(bv.take(j + 1) =~= bv.take(j as int).push(bv[j as int]));
                    assert(before + bv.take(j + 1) =~= (before + bv.take(j as int)).push(bv[j as int]));
                }
                j = j + 1;
            }
            assert(bv.take(j as int) =~= bv);
        }
        proof {
            assert forall|x: Seq<char>| strings_view(held@).contains(x) <==> exists|k: int|
                0 <= k < i + 1 && pv.contains((#[trigger] hv[k]).0) && hv[k].1.contains(x) by {
                let now = strings_view(held@);
                if holds {
                    assert(now =~= before + bv);
                    if now.contains(x) {
                        let p = choose|p: int| 0 <= p < now.len() && now[p] == x;
                        if p < before.len() {
                            assert(before[p] == x);
                            assert(before.contains(x));
                        } else {
                            assert(bv[p - before.len()] == x);
                            assert(bv.contains(x));
                        }
                    }
                    if before.contains(x) {
                        let p = choose|p: int| 0 <= p < before.len() && before[p] == x;
                        assert(now[p] == x);
                    }
                    if bv.contains(x) {
                        let q = choose|q: int| 0 <= q < bv.len() && bv[q] == x;
                        assert(now[before.len() + q] == x);
                    }
                } else {
                    assert(now == before);
                }
                if exists|k: int| 0 <= k < i + 1 && pv.contains((#[trigger] hv[k]).0) && hv[k].1.contains(x) {
                    let k = choose|k: int| 0 <= k < i + 1 && pv.contains((#[trigger] hv[k]).0) && hv[k].1.contains(x);
                    if k < i {
                        assert(before.contains(x));
                    }
                }
            }
        }
        i = i + 1;
    }
    held
}

/// The objects to send a peer that holds the commits `peer_has`, from a
/// history given as each commit with the blobs its manifest lists, oldest
/// first: every commit the peer lacks, and every blob such a commit lists
/// that no commit the peer holds lists, each once.
pub fn objects_to_send(history: &Vec<(String, Vec<String>)>, peer_has: &Vec<String>) -> (r: Vec<String>)
    ensures
        forall|x: Seq<char>|
            strings_view(r@).contains(x) <==> wanted(
                history_view(history@),
                strings_view(peer_has@),
                history@.len() as int,
                x,
            ),
        forall|i: int, j: int| 0 <= i < j < r@.len() ==> r@[i]@ != r@[j]@,
{
    let ghost hv = history_view(history@);
    let ghost pv = strings_view(peer_has@);
    let held = held_blobs(history, peer_has);
    let mut out: Vec<String> = Vec::new();
    let mut i: usize = 0;
    while i < history.len()
        invariant
            i <= history@.len(),
            hv == history_view(history@),
            pv == strings_view(peer_has@),
            forall|x: Seq<char>| strings_view(held@).contains(x) <==> peer_has_blob(hv, pv, x),
            forall|x: Seq<char>| strings_view(out@).contains(x) <==> wanted(hv, pv, i as int, x),
            forall|a: int, b: int| 0 <= a < b < out@.len() ==> out@[a]@ != out@[b]@,
        decreases history@.len() - i,
    {
        let ghost before = strings_view(out@);
        let commit = &history[i].0;
        let holds = listed(peer_has, commit.as_str());
        let blobs = &history[i].1;
        let ghost bv = strings_view(blobs@);
        assert(hv[i as int].1 == bv && hv[i as int].0 == commit@);
        if !holds {
            let mut j: usize = 0;
            while j < blobs.len()
                invariant
                    j <= blobs@.len(),
                    bv == strings_view(blobs@),
                    forall|x: Seq<char>| strings_view(held@).contains(x) <==> peer_has_blob(hv, pv, x),
                    forall|x: Seq<char>| strings_view(out@).contains(x) <==> (before.contains(x) || (bv.take(
                        j as int,
                    ).contains(x) && !peer_has_blob(hv, pv, x))),
                    forall|a: int, b: int| 0 <= a < b < out@.len() ==> out@[a]@ != out@[b]@,
                decreases blobs@.len() - j,
            {
                let ghost prev = strings_view(out@);
                let ghost prev_out = out@;
                let b = &blobs[j];
                let in_held = listed(&held, b.as_str());
                let in_out = listed(&out, b.as_str());
                if !in_held && !in_out {
                    out.push(copy_string(b));
                    proof {
                        assert(strings_view(out@) =~= prev.push(b@));
                        assert forall|a: int, c: int| 0 <= a < c < out@.len() implies out@[a]@ != out@[c]@ by {
                            if c == out@.len() - 1 {
                                assert(prev[a] == out@[a]@);
                            } else {
                                assert(out@[a] == prev_out[a] && out@[c] == prev_out[c]);
                            }
                        }
                    }
                }
                proof {
                    let t0 = bv.take(j as int);
                    let t1 = bv.take(j + 1);
                    assert(t1 =~= t0.push(b@));
                    if !in_held && !in_out {
                        assert(strings_view(out@) == prev.push(b@));
                    } else {
                        assert(strings_view(out@) == prev);
                    }
                    assert forall|x: Seq<char>| strings_view(out@).contains(x) <==> (before.contains(x) || (t1.contains(x)
                        && !peer_has_blob(hv, pv, x))) by {
                        lemma_push_contains(t0, b@, x);
                        lemma_push_contains(prev, b@, x);
                        assert(prev.contains(x) <==> (before.contains(x) || (t0.contains(x) && !peer_has_blob(
                            hv,
                            pv,
                            x,
                        ))));
                        if x == b@ && in_held {
                            assert(strings_view(held@).contains(x));
                            assert(peer_has_blob(hv, pv, x));
                        }
                        if x == b@ && in_out {
                            assert(prev.contains(x));
                        }
                    }
                }
                j = j + 1;
            }
            assert(bv.take(j as int) =~= bv);
            let ghost prev = strings_view(out@);
            let ghost prev_out = out@;
            let in_out = listed(&out, commit.as_str());
            if !in_out {
                out.push(copy_string(commit));
                proof {
                    assert(strings_view(out@) =~= prev.push(commit@));
                    assert forall|a: int, c: int| 0 <= a < c < out@.len() implies out@[a]@ != out@[c]@ by {
                        if c == out@.len() - 1 {
                            assert(prev[a] == out@[a]@);
                        } else {
                            assert(out@[a] == prev_out[a] && out@[c] == prev_out[c]);
                        }
                    }
                }
            }
            proof {
                if !in_out {
                    assert(strings_view(out@) == prev.push(commit@));
                } else {
                    assert(strings_view(out@) == prev);
                }
                assert(!pv.contains(commit@));
                assert forall|x: Seq<char>| strings_view(out@).contains(x) <==> wanted(hv, pv, i + 1, x) by {
                    lemma_wanted_step(hv, pv, i as int, x);
                    lemma_push_contains(prev, commit@, x);
                    assert(prev.contains(x) <==> (before.contains(x) || (bv.contains(x) && !peer_has_blob(hv, pv, x))));
                }
            }
        } else {
            proof {
                assert forall|x: Seq<char>| strings_view(out@).contains(x) <==> wanted(hv, pv, i + 1, x) by {
                    lemma_wanted_step(hv, pv, i as int, x);
                }
            }
        }
        i = i + 1;
    }
    out
}

/// After a bundle lands, the peer holds every document of every commit it
/// received: each blob such a commit lists is either in the bundle or
/// listed by a commit the peer already held.
pub proof fn lemma_bundle_is_complete(
    hist: Seq<(Seq<char>, Seq<Seq<char>>)>,
    peer: Seq<Seq<char>>,
    i: int,
    b: Seq<char>,
)
    requires
        0 <= i < hist.len(),
        !peer.contains(hist[i].0),
        hist[i].1.contains(b),
    ensures
        wanted(hist, peer, hist.len() as int, hist[i].0),
        wanted(hist, peer, hist.len() as int, b) || peer_has_blob(hist, peer, b),
{
    let c = hist[i];
    assert(!peer.contains(c.0) && c.1.contains(b));
}

/// A peer that already holds every commit of the history is sent nothing.
pub proof fn lemma_nothing_for_a_peer_at_head(hist: Seq<(Seq<char>, Seq<Seq<char>>)>, peer: Seq<Seq<char>>)
    requires
        forall|i: int| 0 <= i < hist.len() ==> peer.contains((#[trigger] hist[i]).0),
    ensures
        forall|x: Seq<char>| !wanted(hist, peer, hist.len() as int, x),
{
}


/// Two strictly increasing lists with the same members are the same list.
pub proof fn lemma_increasing_unique(a: Seq<Seq<char>>, b: Seq<Seq<char>>)
    requires
        increasing(a),
        increasing(b),
        forall|x: Seq<char>| a.contains(x) <==> b.contains(x),
    ensures
        a == b,
    decreases a.len() + b.len(),
{
    if a.len() == 0 {
        if b.len() > 0 {
            assert(b.contains(b[0]));
        }
        assert(a =~= b);
    } else if b.len() == 0 {
        assert(a.contains(a[0]));
    } else {
        assert(a.contains(a[0]));
        assert(b.contains(b[0]));
        let j = choose|j: int| 0 <= j < b.len() && b[j] == a[0];
        let i = choose|i: int| 0 <= i < a.len() && a[i] == b[0];
        if a[0] != b[0] {
            assert(j > 0 && i > 0);
            assert(chars_lt(b[0], b[j]));
            assert(chars_lt(a[0], a[i]));
            lemma_chars_lt_trans(a[0], b[0], a[0]);
            lemma_chars_lt_irreflexive(a[0]);
        }
        let ta = a.drop_first();
        let tb = b.drop_first();
        assert forall|x: Seq<char>| ta.contains(x) <==> tb.contains(x) by {
            if ta.contains(x) {
                let p = choose|p: int| 0 <= p < ta.len() && ta[p] == x;
                assert(a[p + 1] == x && chars_lt(a[0], a[p + 1]));
                lemma_chars_lt_irreflexive(x);
                assert(a.contains(x));
                let q = choose|q: int| 0 <= q < b.len() && b[q] == x;
                assert(q != 0);
                assert(tb[q - 1] == x);
            }
            if tb.contains(x) {
                let p = choose|p: int| 0 <= p < tb.len() && tb[p] == x;
                assert(b[p + 1] == x && chars_lt(b[0], b[p + 1]));
                lemma_chars_lt_irreflexive(x);
                assert(b.contains(x));
                let q = choose|q: int| 0 <= q < a.len() && a[q] == x;
                assert(q != 0);
                assert(ta[q - 1] == x);
            }
        }
        assert forall|p: int, q: int| 0 <= p < q < ta.len() implies chars_lt(#[trigger] ta[p], #[trigger] ta[q]) by {
            assert(ta[p] == a[p + 1] && ta[q] == a[q + 1]);
        }
        assert forall|p: int, q: int| 0 <= p < q < tb.len() implies chars_lt(#[trigger] tb[p], #[trigger] tb[q]) by {
            assert(tb[p] == b[p + 1] && tb[q] == b[q + 1]);
        }
        lemma_increasing_unique(ta, tb);
        assert(a =~= seq![a[0]] + ta);
        assert(b =~= seq![b[0]] + tb);
    }
}

/// A key of an optional map given as pairs.
pub open spec fn opt_lookup(m: Option<Seq<(Seq<char>, Seq<char>)>>, k: Seq<char>) -> Option<Seq<char>> {
    match m {
        Some(p) => lookup(p, k),
        None => None,
    }
}

/// Merging is symmetric in ours and theirs: with the sides swapped, every
/// key gets the same merged document, and the conflicts listed (in key order,
/// as `merge_maps` lists them) are the same keys.
pub proof fn lemma_merge_is_symmetric(
    base: Option<Seq<(Seq<char>, Seq<char>)>>,
    ours: Seq<(Seq<char>, Seq<char>)>,
    theirs: Seq<(Seq<char>, Seq<char>)>,
    conflicts_one_way: Seq<Seq<char>>,
    conflicts_other_way: Seq<Seq<char>>,
)
    requires
        increasing(conflicts_one_way),
        increasing(conflicts_other_way),
        forall|k: Seq<char>|
            conflicts_one_way.contains(k) <==> conflicted(opt_lookup(base, k), lookup(ours, k), lookup(theirs, k)),
        forall|k: Seq<char>|
            conflicts_other_way.contains(k) <==> conflicted(opt_lookup(base, k), lookup(theirs, k), lookup(ours, k)),
    ensures
        forall|k: Seq<char>|
            merged_value(opt_lookup(base, k), lookup(ours, k), lookup(theirs, k)) == merged_value(
                opt_lookup(base, k),
                lookup(theirs, k),
                lookup(ours, k),
            ),
        conflicts_one_way == conflicts_other_way,
{
    assert forall|k: Seq<char>| conflicts_one_way.contains(k) <==> conflicts_other_way.contains(k) by {
        lemma_merge_one_symmetric(opt_lookup(base, k), lookup(ours, k), lookup(theirs, k));
    }
    assert forall|k: Seq<char>|
        merged_value(opt_lookup(base, k), lookup(ours, k), lookup(theirs, k)) == merged_value(
            opt_lookup(base, k),
            lookup(theirs, k),
            lookup(ours, k),
        ) by {
        lemma_merge_one_symmetric(opt_lookup(base, k), lookup(ours, k), lookup(theirs, k));
    }
    lemma_increasing_unique(conflicts_one_way, conflicts_other_way);
}

/// For one key, swapping the sides changes neither the merged document nor
/// whether it conflicts.
pub proof fn lemma_merge_one_symmetric(b: Option<Seq<char>>, o: Option<Seq<char>>, t: Option<Seq<char>>)
    ensures
        merged_value(b, o, t) == merged_value(b, t, o),
        conflicted(b, o, t) == conflicted(b, t, o),
{
}


/// Three-way merge laws: agreement is not a conflict; a side that kept the
/// base loses to the side that changed; and the outcome does not depend on
/// which side is called ours.
pub proof fn lemma_merge_one_laws(base: Option<Seq<char>>, x: Seq<char>, y: Seq<char>)
    ensures
        merge_one_spec(base, x, x) == Some(x),
        merge_one_spec(Some(x), x, y) == Some(y),
        merge_one_spec(Some(y), x, y) == Some(x),
        merge_one_spec(base, x, y) == merge_one_spec(base, y, x),
{
}

/// When, for every key, at most one side changed it from the base (or both
/// made the same change), merging two maps produces no conflict, and every
/// key ends up with the changed side's document (deletions included).
pub proof fn lemma_disjoint_edits_merge_cleanly(
    b: Option<Seq<char>>,
    o: Option<Seq<char>>,
    t: Option<Seq<char>>,
)
    requires
        o == b || t == b || o == t,
    ensures
        !conflicted(b, o, t),
        merged_value(b, o, t) == if o == b {
            t
        } else {
            o
        },
{
}

} // verus!
