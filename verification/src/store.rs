//! History: commits, their ancestry, and the differences between revisions.
//!
//! The repository itself lives in an SQLite file, which the program around this
//! library reads and writes. What is decided here is what that data means:
//! which commit an abbreviated id names, the order in which history is shown,
//! and which documents a revision added, changed or removed.

use vstd::prelude::*;
use crate::docmap::{lemma_lookup_at, lookup, strictly_sorted, DocMap};
use crate::error::Error;
use crate::text::{
    chars_lt, chars_of, copy_string, has_prefix, owned, push_str, same_text, starts_with,
    string_of_range, text_lt, decimal_string, decimal,
};

verus! {

/// The reserved key of the file-metadata document.
pub const FILE_META_KEY: &'static str = "file";

/// Document kinds.
pub const KIND_MODEL: &'static str = "ground_model";
pub const KIND_MATERIAL: &'static str = "material";
pub const KIND_FILE_META: &'static str = "file_metadata";

#[derive(Clone, Copy, PartialEq, Eq, Debug, Structural)]
pub enum ChangeKind {
    Added,
    Modified,
    Deleted,
}

impl ChangeKind {
    /// The one-letter marker shown in a status listing.
    pub fn marker(self) -> (c: char)
        ensures
            c == match self {
                ChangeKind::Added => 'A',
                ChangeKind::Modified => 'M',
                ChangeKind::Deleted => 'D',
            },
    {
        match self {
            ChangeKind::Added => 'A',
            ChangeKind::Modified => 'M',
            ChangeKind::Deleted => 'D',
        }
    }
}

#[derive(Debug, Clone)]
pub struct Change {
    /// One of the `KIND_*` constants.
    pub kind: String,
    pub key: String,
    pub change: ChangeKind,
}

pub open spec fn change_view(c: Change) -> (Seq<char>, Seq<char>, ChangeKind) {
    (c.kind@, c.key@, c.change)
}

pub open spec fn changes_view(s: Seq<Change>) -> Seq<(Seq<char>, Seq<char>, ChangeKind)> {
    s.map_values(|c: Change| change_view(c))
}

#[derive(Debug, Clone)]
pub struct CommitInfo {
    pub hash: String,
    pub author: String,
    pub committed_at: String,
    pub message: String,
    pub parents: Vec<String>,
}

/// The hex digits of a hash without its `sha256-` prefix.
pub open spec fn hash_hex(hash: Seq<char>) -> Seq<char> {
    if has_prefix(hash, "sha256-"@) {
        hash.skip(7)
    } else {
        hash
    }
}

/// The first twelve hex digits of a hash (all of them when there are fewer).
pub open spec fn short_spec(hash: Seq<char>) -> Seq<char> {
    let h = hash_hex(hash);
    if h.len() <= 12 {
        h
    } else {
        h.take(12)
    }
}

/// Enough of a hash to be unambiguous in practice, for display and for
/// accepting abbreviated ids on the command line.
pub fn short_hash(hash: &str) -> (r: String)
    ensures
        r@ == short_spec(hash@),
{
    let cs = chars_of(hash);
    let prefix = chars_of("sha256-");
    proof {
        reveal_strlit("sha256-");
    }
    let start: usize = if crate::text::starts_with_chars(&cs, &prefix) {
        7
    } else {
        0
    };
    let n = cs.len();
    let end = if n - start <= 12 {
        n
    } else {
        start + 12
    };
    let r = string_of_range(&cs, start, end);
    assert(r@ =~= short_spec(hash@));
    r
}

// ---------------------------------------------------------- revisions ---

/// Whether a revision names the head: `HEAD`, in any case.
pub open spec fn names_head_spec(rev: Seq<char>) -> bool {
    rev.len() == 4 && forall|i: int| 0 <= i < 4 ==> crate::wire::lower_char(#[trigger] rev[i]) == "head"@[i]
}

/// Whether a revision names the head: `HEAD`, in any case.
pub fn names_head(rev: &str) -> (r: bool)
    ensures
        r == names_head_spec(rev@),
{
    let cs = chars_of(rev);
    let want = chars_of("head");
    proof {
        reveal_strlit("head");
    }
    if cs.len() != want.len() {
        return false;
    }
    let mut i: usize = 0;
    while i < cs.len()
        invariant
            i <= cs@.len(),
            cs@ == rev@,
            cs@.len() == want@.len(),
            want@ == "head"@,
            forall|k: int| 0 <= k < i ==> crate::wire::lower_char(#[trigger] cs@[k]) == want@[k],
        decreases cs@.len() - i,
    {
        let c = cs[i];
        let l = if 'A' <= c && c <= 'Z' {
            (((c as u32) + 32) as u8) as char
        } else {
            c
        };
        assert(l == crate::wire::lower_char(cs@[i as int]));
        if l != want[i] {
            return false;
        }
        i = i + 1;
    }
    true
}

/// The text an abbreviated commit id is matched against: its hex digits,
/// without any `sha256-` prefix.
pub fn hash_needle(rev: &str) -> (r: String)
    ensures
        r@ == hash_hex(rev@),
{
    let cs = chars_of(rev);
    let prefix = chars_of("sha256-");
    proof {
        reveal_strlit("sha256-");
    }
    if crate::text::starts_with_chars(&cs, &prefix) {
        let r = string_of_range(&cs, 7, cs.len());
        assert(r@ =~= hash_hex(rev@));
        r
    } else {
        owned(rev)
    }
}

/// The commit an abbreviated id names, from the commits whose hash begins
/// with it: exactly one must.
pub fn pick_commit(rev: &str, matches: Vec<String>) -> (r: Result<String, Error>)
    ensures
        matches@.len() == 1 ==> (r matches Ok(h) && h@ == matches@[0]@),
        matches@.len() == 0 ==> (r matches Err(Error::NotFound(what, name)) && what@ == "commit"@ && name@
            == rev@),
        matches@.len() > 1 ==> (r matches Err(Error::Invalid(m)) && m@ == rev@ + " is ambiguous: "@ + decimal(
            matches@.len(),
        ) + " commits match"@),
{
    let n = matches.len();
    if n == 0 {
        return Err(Error::NotFound(owned("commit"), owned(rev)));
    }
    if n == 1 {
        let mut matches = matches;
        return Ok(matches.remove(0));
    }
    let mut m = owned(rev);
    push_str(&mut m, " is ambiguous: ");
    let count = decimal_string(n as u64);
    push_str(&mut m, count.as_str());
    push_str(&mut m, " commits match");
    Err(Error::Invalid(m))
}

impl CommitInfo {
    /// The short form of this commit's hash.
    pub fn short(&self) -> (r: String)
        ensures
            r@ == short_spec(self.hash@),
    {
        short_hash(self.hash.as_str())
    }
}

/// The changes between two maps of one kind: for the keys of `new`, in order,
/// those added or modified; then the keys of `old` that `new` lacks, deleted.
pub open spec fn diff_spec(
    old: Seq<(Seq<char>, Seq<char>)>,
    new: Seq<(Seq<char>, Seq<char>)>,
    kind: Seq<char>,
) -> Seq<(Seq<char>, Seq<char>, ChangeKind)> {
    changed_in(old, new, kind) + deleted_from(old, new, kind)
}

pub open spec fn changed_in(
    old: Seq<(Seq<char>, Seq<char>)>,
    new: Seq<(Seq<char>, Seq<char>)>,
    kind: Seq<char>,
) -> Seq<(Seq<char>, Seq<char>, ChangeKind)>
    decreases new.len(),
{
    if new.len() == 0 {
        seq![]
    } else {
        let rest = changed_in(old, new.drop_last(), kind);
        let (k, v) = new.last();
        match lookup(old, k) {
            None => rest.push((kind, k, ChangeKind::Added)),
            Some(p) => if p != v {
                rest.push((kind, k, ChangeKind::Modified))
            } else {
                rest
            },
        }
    }
}

pub open spec fn deleted_from(
    old: Seq<(Seq<char>, Seq<char>)>,
    new: Seq<(Seq<char>, Seq<char>)>,
    kind: Seq<char>,
) -> Seq<(Seq<char>, Seq<char>, ChangeKind)>
    decreases old.len(),
{
    if old.len() == 0 {
        seq![]
    } else {
        let rest = deleted_from(old.drop_last(), new, kind);
        let k = old.last().0;
        if lookup(new, k) is None {
            rest.push((kind, k, ChangeKind::Deleted))
        } else {
            rest
        }
    }
}

proof fn lemma_lookup_drop_last(s: Seq<(Seq<char>, Seq<char>)>, k: Seq<char>)
    requires
        strictly_sorted(s),
        s.len() > 0,
    ensures
        lookup(s.drop_last(), k) == if k == s.last().0 {
            None
        } else {
            lookup(s, k)
        },
        strictly_sorted(s.drop_last()),
{
    let t = s.drop_last();
    let n = s.len() - 1;
    assert forall|i: int, j: int| 0 <= i < j < t.len() implies chars_lt(#[trigger] t[i].0, #[trigger] t[j].0) by {
        assert(t[i] == s[i] && t[j] == s[j]);
    }
    if exists|i: int| 0 <= i < t.len() && #[trigger] t[i].0 == k {
        let i = choose|i: int| 0 <= i < t.len() && #[trigger] t[i].0 == k;
        assert(t[i] == s[i]);
        lemma_lookup_at(t, i);
        lemma_lookup_at(s, i);
        if k == s.last().0 {
            assert(chars_lt(s[i].0, s[n].0));
            crate::text::lemma_chars_lt_irreflexive(k);
        }
    } else {
        if k != s.last().0 && lookup(s, k) is Some {
            let i = choose|i: int| 0 <= i < s.len() && #[trigger] s[i].0 == k;
            assert(i != n);
            assert(t[i].0 == k);
        }
    }
}

/// What `changed_in` lists under a key.
proof fn lemma_changed_in(
    old: Seq<(Seq<char>, Seq<char>)>,
    new: Seq<(Seq<char>, Seq<char>)>,
    kind: Seq<char>,
    c: (Seq<char>, Seq<char>, ChangeKind),
)
    requires
        strictly_sorted(new),
    ensures
        changed_in(old, new, kind).contains(c) <==> (c.0 == kind && lookup(new, c.1) is Some && match lookup(old, c.1) {
            None => c.2 == ChangeKind::Added,
            Some(p) => c.2 == ChangeKind::Modified && Some(p) != lookup(new, c.1),
        }),
    decreases new.len(),
{
    if new.len() > 0 {
        let rest = changed_in(old, new.drop_last(), kind);
        lemma_lookup_drop_last(new, c.1);
        lemma_changed_in(old, new.drop_last(), kind, c);
        lemma_lookup_at(new, new.len() - 1);
        let (k, v) = new.last();
        match lookup(old, k) {
            None => lemma_push_contains3(rest, (kind, k, ChangeKind::Added), c),
            Some(p) => if p != v {
                lemma_push_contains3(rest, (kind, k, ChangeKind::Modified), c)
            },
        }
    }
}

/// What `deleted_from` lists under a key.
proof fn lemma_deleted_from(
    old: Seq<(Seq<char>, Seq<char>)>,
    new: Seq<(Seq<char>, Seq<char>)>,
    kind: Seq<char>,
    c: (Seq<char>, Seq<char>, ChangeKind),
)
    requires
        strictly_sorted(old),
    ensures
        deleted_from(old, new, kind).contains(c) <==> (c.0 == kind && c.2 == ChangeKind::Deleted && lookup(old, c.1)
            is Some && lookup(new, c.1) is None),
    decreases old.len(),
{
    if old.len() > 0 {
        let rest = deleted_from(old.drop_last(), new, kind);
        lemma_lookup_drop_last(old, c.1);
        lemma_deleted_from(old.drop_last(), new, kind, c);
        lemma_lookup_at(old, old.len() - 1);
        let k = old.last().0;
        if lookup(new, k) is None {
            lemma_push_contains3(rest, (kind, k, ChangeKind::Deleted), c);
        }
    }
}

proof fn lemma_push_contains3(
    s: Seq<(Seq<char>, Seq<char>, ChangeKind)>,
    v: (Seq<char>, Seq<char>, ChangeKind),
    x: (Seq<char>, Seq<char>, ChangeKind),
)
    ensures
        s.push(v).contains(x) <==> (s.contains(x) || x == v),
{
    let t = s.push(v);
    if t.contains(x) {
        let p = choose|p: int| 0 <= p < t.len() && t[p] == x;
        if p < s.len() {
            assert(s[p] == x);
        }
    }
    if s.contains(x) {
        let p = choose|p: int| 0 <= p < s.len() && s[p] == x;
        assert(t[p] == x);
    }
    if x == v {
        assert(t[s.len() as int] == v);
    }
}

/// The status of the working tree, document by document: a key is listed
/// as added exactly when only the new revision has it, as deleted exactly
/// when only the old one has it, and as modified exactly when both have it
/// with different content; nothing is listed exactly when the two agree on
/// every key.
pub proof fn lemma_status_lists_exactly_the_changes(
    old: Seq<(Seq<char>, Seq<char>)>,
    new: Seq<(Seq<char>, Seq<char>)>,
    kind: Seq<char>,
)
    requires
        strictly_sorted(old),
        strictly_sorted(new),
    ensures
        forall|k: Seq<char>|
            diff_spec(old, new, kind).contains((kind, k, ChangeKind::Added)) <==> (lookup(old, k) is None && lookup(
                new,
                k,
            ) is Some),
        forall|k: Seq<char>|
            diff_spec(old, new, kind).contains((kind, k, ChangeKind::Deleted)) <==> (lookup(old, k) is Some
                && lookup(new, k) is None),
        forall|k: Seq<char>|
            diff_spec(old, new, kind).contains((kind, k, ChangeKind::Modified)) <==> (lookup(old, k) is Some
                && lookup(new, k) is Some && lookup(old, k) != lookup(new, k)),
        forall|c: (Seq<char>, Seq<char>, ChangeKind)| #[trigger] diff_spec(old, new, kind).contains(c) ==> c.0 == kind,
        diff_spec(old, new, kind).len() == 0 <==> forall|k: Seq<char>| lookup(old, k) == lookup(new, k),
{
    assert forall|c: (Seq<char>, Seq<char>, ChangeKind)| diff_spec(old, new, kind).contains(c) <==> (changed_in(
        old,
        new,
        kind,
    ).contains(c) || deleted_from(old, new, kind).contains(c)) by {
        let a = changed_in(old, new, kind);
        let b = deleted_from(old, new, kind);
        let d = a + b;
        if d.contains(c) {
            let p = choose|p: int| 0 <= p < d.len() && d[p] == c;
            if p < a.len() {
                assert(a[p] == c);
            } else {
                assert(b[p - a.len()] == c);
            }
        }
        if a.contains(c) {
            let p = choose|p: int| 0 <= p < a.len() && a[p] == c;
            assert(d[p] == c);
        }
        if b.contains(c) {
            let p = choose|p: int| 0 <= p < b.len() && b[p] == c;
            assert(d[a.len() + p] == c);
        }
    }
    assert forall|c: (Seq<char>, Seq<char>, ChangeKind)| #[trigger] diff_spec(old, new, kind).contains(c) <==> (c.0 == kind
        && match (lookup(old, c.1), lookup(new, c.1)) {
        (None, Some(_)) => c.2 == ChangeKind::Added,
        (Some(_), None) => c.2 == ChangeKind::Deleted,
        (Some(p), Some(q)) => c.2 == ChangeKind::Modified && p != q,
        (None, None) => false,
    }) by {
        lemma_changed_in(old, new, kind, c);
        lemma_deleted_from(old, new, kind, c);
    }
    let d = diff_spec(old, new, kind);
    if d.len() == 0 {
        assert forall|k: Seq<char>| lookup(old, k) == lookup(new, k) by {
            match (lookup(old, k), lookup(new, k)) {
                (None, Some(_)) => assert(!d.contains((kind, k, ChangeKind::Added))),
                (Some(_), None) => assert(!d.contains((kind, k, ChangeKind::Deleted))),
                (Some(p), Some(q)) => assert(!d.contains((kind, k, ChangeKind::Modified))),
                (None, None) => {},
            }
        }
    } else {
        assert(d.contains(d[0]));
    }
}

/// The keys `changed_in` lists rise strictly.
proof fn lemma_changed_in_rising(old: Seq<(Seq<char>, Seq<char>)>, new: Seq<(Seq<char>, Seq<char>)>, kind: Seq<char>)
    requires
        strictly_sorted(new),
    ensures
        forall|i: int, j: int|
            0 <= i < j < changed_in(old, new, kind).len() ==> chars_lt(
                #[trigger] changed_in(old, new, kind)[i].1,
                #[trigger] changed_in(old, new, kind)[j].1,
            ),
    decreases new.len(),
{
    if new.len() > 0 {
        let t = new.drop_last();
        lemma_lookup_drop_last(new, new.last().0);
        lemma_changed_in_rising(old, t, kind);
        let rest = changed_in(old, t, kind);
        let cur = changed_in(old, new, kind);
        let last = new.last().0;
        assert forall|i: int| 0 <= i < rest.len() implies chars_lt(#[trigger] rest[i].1, last) by {
            assert(rest.contains(rest[i]));
            lemma_changed_in(old, t, kind, rest[i]);
            let q = choose|q: int| 0 <= q < t.len() && #[trigger] t[q].0 == rest[i].1;
            assert(new[q] == t[q]);
            assert(chars_lt(new[q].0, new[new.len() - 1].0));
        }
        assert forall|i: int, j: int| 0 <= i < j < cur.len() implies chars_lt(#[trigger] cur[i].1, #[trigger] cur[j].1) by {
            if cur.len() > rest.len() {
                assert(cur =~= rest.push(cur[cur.len() - 1]));
                assert(cur[cur.len() - 1].1 == last);
                if j == cur.len() - 1 {
                    assert(cur[i] == rest[i]);
                } else {
                    assert(cur[i] == rest[i] && cur[j] == rest[j]);
                }
            } else {
                assert(cur == rest);
            }
        }
    }
}

/// The keys `deleted_from` lists rise strictly.
proof fn lemma_deleted_from_rising(old: Seq<(Seq<char>, Seq<char>)>, new: Seq<(Seq<char>, Seq<char>)>, kind: Seq<char>)
    requires
        strictly_sorted(old),
    ensures
        forall|i: int, j: int|
            0 <= i < j < deleted_from(old, new, kind).len() ==> chars_lt(
                #[trigger] deleted_from(old, new, kind)[i].1,
                #[trigger] deleted_from(old, new, kind)[j].1,
            ),
    decreases old.len(),
{
    if old.len() > 0 {
        let t = old.drop_last();
        lemma_lookup_drop_last(old, old.last().0);
        lemma_deleted_from_rising(t, new, kind);
        let rest = deleted_from(t, new, kind);
        let cur = deleted_from(old, new, kind);
        let last = old.last().0;
        assert forall|i: int| 0 <= i < rest.len() implies chars_lt(#[trigger] rest[i].1, last) by {
            assert(rest.contains(rest[i]));
            lemma_deleted_from(t, new, kind, rest[i]);
            let q = choose|q: int| 0 <= q < t.len() && #[trigger] t[q].0 == rest[i].1;
            assert(old[q] == t[q]);
            assert(chars_lt(old[q].0, old[old.len() - 1].0));
        }
        assert forall|i: int, j: int| 0 <= i < j < cur.len() implies chars_lt(#[trigger] cur[i].1, #[trigger] cur[j].1) by {
            if cur.len() > rest.len() {
                assert(cur =~= rest.push(cur[cur.len() - 1]));
                assert(cur[cur.len() - 1].1 == last);
                if j == cur.len() - 1 {
                    assert(cur[i] == rest[i]);
                } else {
                    assert(cur[i] == rest[i] && cur[j] == rest[j]);
                }
            } else {
                assert(cur == rest);
            }
        }
    }
}

/// No key is listed twice in a status.
pub proof fn lemma_status_lists_each_key_once(
    old: Seq<(Seq<char>, Seq<char>)>,
    new: Seq<(Seq<char>, Seq<char>)>,
    kind: Seq<char>,
)
    requires
        strictly_sorted(old),
        strictly_sorted(new),
    ensures
        forall|i: int, j: int|
            0 <= i < j < diff_spec(old, new, kind).len() ==> (#[trigger] diff_spec(old, new, kind)[i]).1 != (
            #[trigger] diff_spec(old, new, kind)[j]).1,
{
    let a = changed_in(old, new, kind);
    let b = deleted_from(old, new, kind);
    let d = diff_spec(old, new, kind);
    lemma_changed_in_rising(old, new, kind);
    lemma_deleted_from_rising(old, new, kind);
    assert forall|i: int, j: int| 0 <= i < j < d.len() implies (#[trigger] d[i]).1 != (#[trigger] d[j]).1 by {
        if j < a.len() {
            assert(d[i] == a[i] && d[j] == a[j]);
            crate::text::lemma_chars_lt_irreflexive(a[i].1);
        } else if i >= a.len() {
            assert(d[i] == b[i - a.len()] && d[j] == b[j - a.len()]);
            crate::text::lemma_chars_lt_irreflexive(b[i - a.len()].1);
        } else {
            assert(d[i] == a[i] && d[j] == b[j - a.len()]);
            assert(a.contains(a[i]));
            assert(b.contains(b[j - a.len()]));
            lemma_changed_in(old, new, kind, a[i]);
            lemma_deleted_from(old, new, kind, b[j - a.len()]);
        }
    }
}

/// Appends the changes that turn `prev` into `next` to `changes`.
pub fn diff_maps(prev: &DocMap, next: &DocMap, kind: &str, changes: &mut Vec<Change>)
    ensures
        changes_view(final(changes)@) == changes_view(old(changes)@) + diff_spec(
            prev.pairs(),
            next.pairs(),
            kind@,
        ),
{
    let ghost start = changes_view(changes@);
    let nn = next.len();
    let mut i: usize = 0;
    while i < nn
        invariant
            i <= nn == next.pairs().len(),
            changes_view(changes@) == start + changed_in(
                prev.pairs(),
                next.pairs().take(i as int),
                kind@,
            ),
        decreases nn - i,
    {
        let key = next.key_at(i);
        let id = next.id_at(i);
        let ghost before = changes_view(changes@);
        match prev.get(key.as_str()) {
            None => {
                changes.push(Change { kind: owned(kind), key: copy_string(key), change: ChangeKind::Added });
                assert(changes_view(changes@) =~= before.push((kind@, key@, ChangeKind::Added)));
            },
            Some(prev) => {
                if !same_text(prev.as_str(), id.as_str()) {
                    changes.push(Change { kind: owned(kind), key: copy_string(key), change: ChangeKind::Modified });
                    assert(changes_view(changes@) =~= before.push((kind@, key@, ChangeKind::Modified)));
                }
            },
        }
        proof {
            let p = next.pairs().take(i + 1);
            assert(p.drop_last() =~= next.pairs().take(i as int));
            assert(p.last() == next.pairs()[i as int]);
        }
        i = i + 1;
    }
    assert(next.pairs().take(nn as int) =~= next.pairs());
    let ghost mid = changes_view(changes@);
    let no = prev.len();
    let mut j: usize = 0;
    while j < no
        invariant
            j <= no == prev.pairs().len(),
            changes_view(changes@) == mid + deleted_from(prev.pairs().take(j as int), next.pairs(), kind@),
        decreases no - j,
    {
        let key = prev.key_at(j);
        let ghost before = changes_view(changes@);
        if !next.contains_key(key.as_str()) {
            changes.push(Change { kind: owned(kind), key: copy_string(key), change: ChangeKind::Deleted });
            assert(changes_view(changes@) =~= before.push((kind@, key@, ChangeKind::Deleted)));
        }
        proof {
            let p = prev.pairs().take(j + 1);
            assert(p.drop_last() =~= prev.pairs().take(j as int));
            assert(p.last() == prev.pairs()[j as int]);
        }
        j = j + 1;
    }
    assert(prev.pairs().take(no as int) =~= prev.pairs());
}


// -------------------------------------------------------------- history ---

/// A commit by what history needs of it: its hash, its time, its parents.
pub open spec fn cv(c: CommitInfo) -> (Seq<char>, Seq<char>, Seq<Seq<char>>) {
    (c.hash@, c.committed_at@, c.parents@.map_values(|p: String| p@))
}

pub open spec fn cvs(s: Seq<CommitInfo>) -> Seq<(Seq<char>, Seq<char>, Seq<Seq<char>>)> {
    s.map_values(|c: CommitInfo| cv(c))
}

/// Some commit of `s` has hash `h`.
pub open spec fn has_hash(s: Seq<(Seq<char>, Seq<char>, Seq<Seq<char>>)>, h: Seq<char>) -> bool {
    exists|i: int| 0 <= i < s.len() && (#[trigger] s[i]).0 == h
}

/// `x` may be shown next after `done`: it belongs to `r`, has not been shown,
/// and no commit of `r` still to be shown lists it as a parent.
pub open spec fn ready(
    r: Seq<(Seq<char>, Seq<char>, Seq<Seq<char>>)>,
    done: Seq<(Seq<char>, Seq<char>, Seq<Seq<char>>)>,
    x: (Seq<char>, Seq<char>, Seq<Seq<char>>),
) -> bool {
    &&& r.contains(x)
    &&& !has_hash(done, x.0)
    &&& forall|c: (Seq<char>, Seq<char>, Seq<Seq<char>>)|
        #[trigger] r.contains(c) && !has_hash(done, c.0) ==> !c.2.contains(x.0)
}

/// Among commits the graph leaves unordered, `a` is shown before `b`: it is
/// more recent, or as recent with a greater hash.
pub open spec fn shows_before(
    a: (Seq<char>, Seq<char>, Seq<Seq<char>>),
    b: (Seq<char>, Seq<char>, Seq<Seq<char>>),
) -> bool {
    chars_lt(b.1, a.1) || (a.1 == b.1 && chars_lt(b.0, a.0))
}

/// `o` is the history order of the commits `r`: each commit shown is ready
/// when it is shown and comes first among those ready, and nothing is left
/// ready at the end.
pub open spec fn history_order(
    r: Seq<(Seq<char>, Seq<char>, Seq<Seq<char>>)>,
    o: Seq<(Seq<char>, Seq<char>, Seq<Seq<char>>)>,
) -> bool {
    &&& forall|i: int| 0 <= i < o.len() ==> ready(r, o.take(i), #[trigger] o[i])
    &&& forall|i: int, x: (Seq<char>, Seq<char>, Seq<Seq<char>>)|
        0 <= i < o.len() && #[trigger] ready(r, o.take(i), x) ==> x.0 == (#[trigger] o[i]).0 || shows_before(o[i], x)
    &&& forall|x: (Seq<char>, Seq<char>, Seq<Seq<char>>)| !#[trigger] ready(r, o, x)
}

/// How many entries of `hs` have a hash not yet in `done`.
pub open spec fn unseen(
    hs: Seq<(Seq<char>, Seq<char>, Seq<Seq<char>>)>,
    done: Seq<(Seq<char>, Seq<char>, Seq<Seq<char>>)>,
) -> nat
    decreases hs.len(),
{
    if hs.len() == 0 {
        0
    } else {
        unseen(hs.drop_last(), done) + if has_hash(done, hs.last().0) {
            0nat
        } else {
            1nat
        }
    }
}

proof fn lemma_unseen_shrinks(
    hs: Seq<(Seq<char>, Seq<char>, Seq<Seq<char>>)>,
    done: Seq<(Seq<char>, Seq<char>, Seq<Seq<char>>)>,
    x: (Seq<char>, Seq<char>, Seq<Seq<char>>),
)
    ensures
        unseen(hs, done.push(x)) <= unseen(hs, done),
        has_hash(hs, x.0) && !has_hash(done, x.0) ==> unseen(hs, done.push(x)) < unseen(hs, done),
    decreases hs.len(),
{
    if hs.len() > 0 {
        let d2 = done.push(x);
        lemma_unseen_shrinks(hs.drop_last(), done, x);
        if has_hash(done, hs.last().0) {
            let i = choose|i: int| 0 <= i < done.len() && (#[trigger] done[i]).0 == hs.last().0;
            assert(d2[i] == done[i]);
        }
        if hs.last().0 == x.0 {
            assert(d2[done.len() as int] == x);
        }
        if has_hash(hs, x.0) && !has_hash(done, x.0) {
            let k = choose|k: int| 0 <= k < hs.len() && (#[trigger] hs[k]).0 == x.0;
            if k < hs.len() - 1 {
                assert(hs.drop_last()[k] == hs[k]);
            }
        }
    }
}

/// Two records of one commit agree field for field.
pub open spec fn same_record(a: CommitInfo, b: CommitInfo) -> bool {
    cv(a) == cv(b) && a.author@ == b.author@ && a.message@ == b.message@
}

/// `x` is, field for field, one of the records of `known`.
pub open spec fn is_known_record(x: CommitInfo, known: Seq<CommitInfo>) -> bool {
    exists|j: int| 0 <= j < known.len() && #[trigger] same_record(x, known[j])
}

/// Every record of `v` is, field for field, one of the records of `known`.
pub open spec fn records_from(v: Seq<CommitInfo>, known: Seq<CommitInfo>) -> bool {
    forall|i: int| 0 <= i < v.len() ==> #[trigger] is_known_record(v[i], known)
}

proof fn lemma_records_from_trans(a: Seq<CommitInfo>, b: Seq<CommitInfo>, c: Seq<CommitInfo>)
    requires
        records_from(a, b),
        records_from(b, c),
    ensures
        records_from(a, c),
{
    assert forall|i: int| 0 <= i < a.len() implies #[trigger] is_known_record(a[i], c) by {
        assert(is_known_record(a[i], b));
        let j = choose|j: int| 0 <= j < b.len() && #[trigger] same_record(a[i], b[j]);
        assert(is_known_record(b[j], c));
        let k = choose|k: int| 0 <= k < c.len() && #[trigger] same_record(b[j], c[k]);
        assert(same_record(a[i], c[k]));
    }
}

proof fn lemma_records_from_push(v: Seq<CommitInfo>, known: Seq<CommitInfo>, x: CommitInfo, j: int)
    requires
        records_from(v, known),
        0 <= j < known.len(),
        same_record(x, known[j]),
    ensures
        records_from(v.push(x), known),
{
    let w = v.push(x);
    assert forall|i: int| 0 <= i < w.len() implies #[trigger] is_known_record(w[i], known) by {
        if i < v.len() {
            assert(w[i] == v[i]);
            assert(is_known_record(v[i], known));
        } else {
            assert(w[i] == x);
            assert(same_record(w[i], known[j]));
        }
    }
}

/// A chain of hashes from one commit down to another: each next hash is a
/// parent of a known commit with the hash before it.
pub open spec fn parent_path(known: Seq<(Seq<char>, Seq<char>, Seq<Seq<char>>)>, p: Seq<Seq<char>>) -> bool {
    p.len() > 0 && forall|i: int|
        #![trigger p[i]]
        0 <= i < p.len() - 1 ==> exists|c: (Seq<char>, Seq<char>, Seq<Seq<char>>)|
            #[trigger] known.contains(c) && c.0 == p[i] && c.2.contains(p[i + 1])
}

/// `h` is `start`, or is reached from it by following the parents of known
/// commits.
pub open spec fn reached(known: Seq<(Seq<char>, Seq<char>, Seq<Seq<char>>)>, start: Seq<char>, h: Seq<char>) -> bool {
    exists|p: Seq<Seq<char>>| #[trigger] parent_path(known, p) && p[0] == start && p.last() == h
}

proof fn lemma_reached_start(known: Seq<(Seq<char>, Seq<char>, Seq<Seq<char>>)>, start: Seq<char>)
    ensures
        reached(known, start, start),
{
    let p = seq![start];
    assert(parent_path(known, p));
}

proof fn lemma_reached_step(
    known: Seq<(Seq<char>, Seq<char>, Seq<Seq<char>>)>,
    start: Seq<char>,
    h: Seq<char>,
    c: (Seq<char>, Seq<char>, Seq<Seq<char>>),
    par: Seq<char>,
)
    requires
        reached(known, start, h),
        known.contains(c),
        c.0 == h,
        c.2.contains(par),
    ensures
        reached(known, start, par),
{
    let p = choose|p: Seq<Seq<char>>| #[trigger] parent_path(known, p) && p[0] == start && p.last() == h;
    let q = p.push(par);
    assert forall|i: int| #![trigger q[i]] 0 <= i < q.len() - 1 implies exists|d: (Seq<char>, Seq<char>, Seq<Seq<char>>)|
        #[trigger] known.contains(d) && d.0 == q[i] && d.2.contains(q[i + 1]) by {
        if i < p.len() - 1 {
            assert(q[i] == p[i] && q[i + 1] == p[i + 1]);
            let pi = p[i];
            assert(exists|d: (Seq<char>, Seq<char>, Seq<Seq<char>>)|
                #[trigger] known.contains(d) && d.0 == p[i] && d.2.contains(p[i + 1]));
        } else {
            assert(q[i] == h && q[i + 1] == par);
        }
    }
    assert(parent_path(known, q));
    assert(q[0] == start && q.last() == par);
}

/// A copy of a commit record.
pub fn copy_info(c: &CommitInfo) -> (r: CommitInfo)
    ensures
        cv(r) == cv(*c),
        r.author@ == c.author@,
        r.message@ == c.message@,
{
    let parents = crate::text::copy_strings(&c.parents);
    assert(parents@.map_values(|p: String| p@) =~= c.parents@.map_values(|p: String| p@));
    CommitInfo {
        hash: copy_string(&c.hash),
        author: copy_string(&c.author),
        committed_at: copy_string(&c.committed_at),
        message: copy_string(&c.message),
        parents,
    }
}

/// Whether a commit's parents include `h`.
fn lists_parent(c: &CommitInfo, h: &str) -> (r: bool)
    ensures
        r == cv(*c).2.contains(h@),
{
    let mut j: usize = 0;
    while j < c.parents.len()
        invariant
            j <= c.parents@.len(),
            forall|q: int| 0 <= q < j ==> (#[trigger] c.parents@[q])@ != h@,
        decreases c.parents@.len() - j,
    {
        if same_text(c.parents[j].as_str(), h) {
            assert(cv(*c).2[j as int] == h@);
            return true;
        }
        j = j + 1;
    }
    false
}

/// Whether some commit of `s` has hash `h`.
fn holds_hash(s: &Vec<CommitInfo>, h: &str) -> (r: bool)
    ensures
        r == has_hash(cvs(s@), h@),
{
    let mut j: usize = 0;
    while j < s.len()
        invariant
            j <= s@.len(),
            forall|q: int| 0 <= q < j ==> (#[trigger] s@[q]).hash@ != h@,
        decreases s@.len() - j,
    {
        if same_text(s[j].hash.as_str(), h) {
            assert(cvs(s@)[j as int].0 == h@);
            return true;
        }
        j = j + 1;
    }
    false
}

/// Whether the commit `r[x]` is ready to be shown after `done`.
fn is_ready(r: &Vec<CommitInfo>, done: &Vec<CommitInfo>, x: usize) -> (b: bool)
    requires
        x < r@.len(),
    ensures
        b == ready(cvs(r@), cvs(done@), cvs(r@)[x as int]),
{
    let ghost rv = cvs(r@);
    let h = r[x].hash.as_str();
    assert(rv[x as int] == cv(r@[x as int]));
    if holds_hash(done, h) {
        return false;
    }
    let mut c: usize = 0;
    while c < r.len()
        invariant
            c <= r@.len(),
            rv == cvs(r@),
            h@ == rv[x as int].0,
            forall|q: int| 0 <= q < c && !has_hash(cvs(done@), rv[q].0) ==> !(#[trigger] rv[q]).2.contains(h@),
        decreases r@.len() - c,
    {
        if !holds_hash(done, r[c].hash.as_str()) && lists_parent(&r[c], h) {
            assert(rv.contains(rv[c as int]));
            return false;
        }
        c = c + 1;
    }
    assert(rv.contains(rv[x as int]));
    assert forall|cc: (Seq<char>, Seq<char>, Seq<Seq<char>>)|
        #[trigger] rv.contains(cc) && !has_hash(cvs(done@), cc.0) implies !cc.2.contains(h@) by {
        let q = choose|q: int| 0 <= q < rv.len() && rv[q] == cc;
    }
    true
}

/// Orders commits for display, descendants before ancestors: repeatedly
/// show, of the commits that no commit still to be shown lists as a parent,
/// the most recent (the greatest hash among equally recent ones).
pub fn order_history(r: &Vec<CommitInfo>) -> (o: Vec<CommitInfo>)
    requires
        forall|i: int, j: int| 0 <= i < j < r@.len() ==> (#[trigger] r@[i]).hash@ != (#[trigger] r@[j]).hash@,
    ensures
        history_order(cvs(r@), cvs(o@)),
        records_from(o@, r@),
{
    let ghost rv = cvs(r@);
    let mut out: Vec<CommitInfo> = Vec::new();
    loop
        invariant
            rv == cvs(r@),
            records_from(out@, r@),
            forall|i: int, j: int| 0 <= i < j < r@.len() ==> (#[trigger] r@[i]).hash@ != (#[trigger] r@[j]).hash@,
            forall|i: int| 0 <= i < out@.len() ==> ready(rv, cvs(out@).take(i), #[trigger] cvs(out@)[i]),
            forall|i: int, x: (Seq<char>, Seq<char>, Seq<Seq<char>>)|
                0 <= i < out@.len() && #[trigger] ready(rv, cvs(out@).take(i), x) ==> x.0 == (#[trigger] cvs(out@)[i]).0
                    || shows_before(cvs(out@)[i], x),
        ensures
            history_order(rv, cvs(out@)),
            records_from(out@, r@),
        decreases unseen(rv, cvs(out@)),
    {
        let ghost ov = cvs(out@);
        let mut best: Option<usize> = None;
        let mut c: usize = 0;
        while c < r.len()
            invariant
                c <= r@.len(),
                rv == cvs(r@),
                ov == cvs(out@),
                forall|i: int, j: int| 0 <= i < j < r@.len() ==> (#[trigger] r@[i]).hash@ != (#[trigger] r@[j]).hash@,
                match best {
                    Some(b) => b < c && ready(rv, ov, rv[b as int]) && forall|q: int|
                        0 <= q < c && #[trigger] ready(rv, ov, rv[q]) ==> rv[q].0 == rv[b as int].0
                            || shows_before(rv[b as int], rv[q]),
                    None => forall|q: int| 0 <= q < c ==> !#[trigger] ready(rv, ov, rv[q]),
                },
            decreases r@.len() - c,
        {
            if is_ready(r, &out, c) {
                match best {
                    None => {
                        best = Some(c);
                    },
                    Some(b) => {
                        let later_time = text_lt(r[b].committed_at.as_str(), r[c].committed_at.as_str());
                        let same_time = same_text(r[b].committed_at.as_str(), r[c].committed_at.as_str());
                        let greater_hash = text_lt(r[b].hash.as_str(), r[c].hash.as_str());
                        if later_time || (same_time && greater_hash) {
                            proof {
                                assert(shows_before(rv[c as int], rv[b as int]));
                                assert forall|q: int|
                                    0 <= q < c + 1 && #[trigger] ready(rv, ov, rv[q]) implies rv[q].0 == rv[c as int].0
                                        || shows_before(rv[c as int], rv[q]) by {
                                    if q < c && rv[q].0 != rv[b as int].0 {
                                        assert(shows_before(rv[b as int], rv[q]));
                                        if chars_lt(rv[q].1, rv[b as int].1) && chars_lt(rv[b as int].1, rv[c as int].1) {
                                            crate::text::lemma_chars_lt_trans(rv[q].1, rv[b as int].1, rv[c as int].1);
                                        } else if chars_lt(rv[q].1, rv[b as int].1) {
                                        } else if chars_lt(rv[b as int].1, rv[c as int].1) {
                                        } else {
                                            crate::text::lemma_chars_lt_trans(rv[q].0, rv[b as int].0, rv[c as int].0);
                                        }
                                    }
                                    if q < c && rv[q].0 == rv[b as int].0 {
                                        if q != b {
                                            if q < b {
                                                assert(r@[q].hash@ != r@[b as int].hash@);
                                            } else {
                                                assert(r@[b as int].hash@ != r@[q].hash@);
                                            }
                                        }
                                    }
                                }
                            }
                            best = Some(c);
                        } else {
                            proof {
                                crate::text::lemma_chars_lt_total(rv[b as int].1, rv[c as int].1);
                                crate::text::lemma_chars_lt_total(rv[b as int].0, rv[c as int].0);
                                if rv[b as int].0 == rv[c as int].0 {
                                    // Same hash: `c` cannot be ready apart from `b`.
                                }
                            }
                        }
                    },
                }
            }
            c = c + 1;
        }
        match best {
            None => {
                proof {
                    assert forall|x: (Seq<char>, Seq<char>, Seq<Seq<char>>)| !ready(rv, ov, x) by {
                        if ready(rv, ov, x) {
                            let q = choose|q: int| 0 <= q < rv.len() && rv[q] == x;
                            assert(!ready(rv, ov, rv[q]));
                        }
                    }
                }
                break;
            },
            Some(b) => {
                let next = copy_info(&r[b]);
                proof {
                    lemma_records_from_push(out@, r@, next, b as int);
                    assert(rv[b as int] == cv(r@[b as int]));
                    assert(has_hash(rv, rv[b as int].0));
                    lemma_unseen_shrinks(rv, ov, rv[b as int]);
                }
                out.push(next);
                proof {
                    let nv = cvs(out@);
                    assert(nv =~= ov.push(rv[b as int]));
                    assert(nv.take(ov.len() as int) =~= ov);
                    assert forall|i: int| 0 <= i < nv.len() implies nv.take(i) == ov.take(i) || i == ov.len() by {
                        if i < ov.len() {
                            assert(nv.take(i) =~= ov.take(i));
                        }
                    }
                    assert forall|x: (Seq<char>, Seq<char>, Seq<Seq<char>>)| ready(rv, ov, x) implies x.0 == rv[b as int].0
                        || shows_before(rv[b as int], x) by {
                        let q = choose|q: int| 0 <= q < rv.len() && rv[q] == x;
                    }
                }
            },
        }
    }
    out
}


/// History is a topological order: no commit is shown before a commit that
/// lists it as a parent (descendants come before ancestors), and no commit is
/// shown twice. Commit times only break ties the graph leaves open.
pub proof fn lemma_history_is_topological(
    r: Seq<(Seq<char>, Seq<char>, Seq<Seq<char>>)>,
    o: Seq<(Seq<char>, Seq<char>, Seq<Seq<char>>)>,
)
    requires
        history_order(r, o),
    ensures
        forall|i: int, j: int| 0 <= i < j < o.len() ==> !(#[trigger] o[j]).2.contains((#[trigger] o[i]).0),
        forall|i: int, j: int| 0 <= i < j < o.len() ==> (#[trigger] o[i]).0 != (#[trigger] o[j]).0,
{
    assert forall|i: int, j: int| 0 <= i < j < o.len() implies !(#[trigger] o[j]).2.contains(
        (#[trigger] o[i]).0,
    ) && o[i].0 != o[j].0 by {
        assert(ready(r, o.take(i), o[i]));
        assert(ready(r, o.take(j), o[j]));
        assert(o.take(j)[i] == o[i]);
        if has_hash(o.take(i), o[j].0) {
            let q = choose|q: int| 0 <= q < o.take(i).len() && (#[trigger] o.take(i)[q]).0 == o[j].0;
            assert(o.take(j)[q] == o.take(i)[q]);
        }
        assert(r.contains(o[j]));
    }
}

/// `rv` is the set of commits reachable from `start` through parents, as
/// found in `known`: it starts at `start`, holds each hash once, takes every
/// commit from `known`, holds the parents of every commit it holds, and
/// reaches each commit after `start` through a commit before it.
pub open spec fn reachable_from(
    rv: Seq<(Seq<char>, Seq<char>, Seq<Seq<char>>)>,
    start: Seq<char>,
    known: Seq<(Seq<char>, Seq<char>, Seq<Seq<char>>)>,
) -> bool {
    &&& rv.len() > 0 && rv[0].0 == start
    &&& forall|i: int| 0 <= i < rv.len() ==> known.contains(#[trigger] rv[i])
    &&& forall|i: int, j: int| 0 <= i < j < rv.len() ==> (#[trigger] rv[i]).0 != (#[trigger] rv[j]).0
    &&& forall|i: int, p: Seq<char>| 0 <= i < rv.len() && #[trigger] rv[i].2.contains(p) ==> has_hash(rv, p)
    &&& forall|i: int| 1 <= i < rv.len() ==> exists|j: int| 0 <= j < i && (#[trigger] rv[j]).2.contains((#[trigger] rv[i]).0)
}

/// The position of the commit with hash `h` in `known`.
fn find_commit(known: &Vec<CommitInfo>, h: &str) -> (r: Option<usize>)
    ensures
        match r {
            Some(k) => k < known@.len() && known@[k as int].hash@ == h@,
            None => !has_hash(cvs(known@), h@),
        },
{
    let mut j: usize = 0;
    while j < known.len()
        invariant
            j <= known@.len(),
            forall|q: int| 0 <= q < j ==> (#[trigger] known@[q]).hash@ != h@,
        decreases known@.len() - j,
    {
        if same_text(known[j].hash.as_str(), h) {
            return Some(j);
        }
        j = j + 1;
    }
    proof {
        if has_hash(cvs(known@), h@) {
            let q = choose|q: int| 0 <= q < cvs(known@).len() && (#[trigger] cvs(known@)[q]).0 == h@;
            assert(known@[q].hash@ == h@);
        }
    }
    None
}

/// The commits reachable from `start` by following parents, `start` first.
/// A hash that `known` (every commit the file holds) lacks is an error.
pub fn reachable(start: &str, known: &Vec<CommitInfo>) -> (r: Result<Vec<CommitInfo>, Error>)
    ensures
        match r {
            Ok(v) => reachable_from(cvs(v@), start@, cvs(known@)) && records_from(v@, known@),
            Err(e) => match e {
                Error::NotFound(w, h) => w@ == "commit"@ && !has_hash(cvs(known@), h@) && reached(
                    cvs(known@),
                    start@,
                    h@,
                ),
                _ => false,
            },
        },
{
    let ghost kv = cvs(known@);
    proof {
        lemma_reached_start(kv, start@);
    }
    let mut queue: Vec<String> = Vec::new();
    queue.push(owned(start));
    let mut qi: usize = 0;
    let mut out: Vec<CommitInfo> = Vec::new();
    while qi < queue.len()
        invariant
            kv == cvs(known@),
            1 <= queue@.len(),
            queue@[0]@ == start@,
            qi <= queue@.len(),
            qi == 0 ==> out@.len() == 0,
            qi > 0 ==> out@.len() > 0,
            out@.len() > 0 ==> cvs(out@)[0].0 == start@,
            forall|i: int| 0 <= i < out@.len() ==> kv.contains(#[trigger] cvs(out@)[i]),
            records_from(out@, known@),
            forall|t: int| 0 <= t < queue@.len() ==> reached(kv, start@, #[trigger] queue@[t]@),
            forall|i: int, j: int| 0 <= i < j < out@.len() ==> (#[trigger] cvs(out@)[i]).0 != (#[trigger] cvs(out@)[j]).0,
            forall|i: int| 1 <= i < out@.len() ==> exists|j: int| 0 <= j < i && (#[trigger] cvs(out@)[j]).2.contains((#[trigger] cvs(out@)[i]).0),
            forall|t: int| 1 <= t < queue@.len() ==> exists|j: int| 0 <= j < out@.len() && (#[trigger] cvs(out@)[j]).2.contains((#[trigger] queue@[t])@),
            forall|i: int, p: Seq<char>| 0 <= i < out@.len() && #[trigger] cvs(out@)[i].2.contains(p) ==> has_hash(cvs(out@), p)
                || exists|t: int| qi <= t < queue@.len() && (#[trigger] queue@[t])@ == p,
        decreases unseen(kv, cvs(out@)), queue@.len() - qi,
    {
        let h = copy_string(&queue[qi]);
        let ghost qi0 = qi as int;
        let ghost ov = cvs(out@);
        qi = qi + 1;
        if holds_hash(&out, h.as_str()) {
            proof {
                assert forall|i: int, p: Seq<char>| 0 <= i < out@.len() && #[trigger] cvs(out@)[i].2.contains(p) implies has_hash(cvs(out@), p)
                    || exists|t: int| qi <= t < queue@.len() && (#[trigger] queue@[t])@ == p by {
                    if !has_hash(cvs(out@), p) {
                        let t = choose|t: int| qi0 <= t < queue@.len() && (#[trigger] queue@[t])@ == p;
                        assert(t != qi0);
                    }
                }
            }
            continue;
        }
        let k = match find_commit(known, h.as_str()) {
            None => {
                proof {
                    assert(queue@[qi0]@ == h@);
                    if qi0 > 0 {
                        let j = choose|j: int| 0 <= j < out@.len() && (#[trigger] cvs(out@)[j]).2.contains(queue@[qi0]@);
                        assert(kv.contains(cvs(out@)[j]));
                    }
                }
                return Err(Error::NotFound(owned("commit"), h));
            },
            Some(k) => k,
        };
        let info = copy_info(&known[k]);
        proof {
            lemma_records_from_push(out@, known@, info, k as int);
            assert(kv[k as int] == cv(known@[k as int]));
            assert(kv.contains(cv(info)));
            lemma_unseen_shrinks(kv, ov, cv(info));
            assert(has_hash(kv, cv(info).0)) by {
                assert(kv[k as int].0 == h@);
            }
        }
        proof {
            assert(queue@[qi0]@ == h@);
            assert(reached(kv, start@, h@));
            assert(cv(info).0 == h@);
        }
        let ghost q0 = queue@;
        let mut j: usize = 0;
        while j < info.parents.len()
            invariant
                j <= info.parents@.len(),
                queue@.len() == q0.len() + j,
                forall|t: int| 0 <= t < q0.len() ==> #[trigger] queue@[t] == q0[t],
                forall|t: int| 0 <= t < j ==> (#[trigger] queue@[q0.len() + t])@ == info.parents@[t]@,
                forall|t: int| 0 <= t < queue@.len() ==> reached(kv, start@, #[trigger] queue@[t]@),
                kv.contains(cv(info)),
                cv(info).0 == h@,
                reached(kv, start@, h@),
            decreases info.parents@.len() - j,
        {
            proof {
                assert(cv(info).2[j as int] == info.parents@[j as int]@);
                lemma_reached_step(kv, start@, h@, cv(info), info.parents@[j as int]@);
            }
            queue.push(copy_string(&info.parents[j]));
            j = j + 1;
        }
        out.push(info);
        proof {
            let nv = cvs(out@);
            assert(nv =~= ov.push(cv(info)));
            assert(ov.len() > 0 ==> nv[0] == ov[0]);
            assert forall|i: int, jj: int| 0 <= i < jj < nv.len() implies (#[trigger] nv[i]).0 != (#[trigger] nv[jj]).0 by {
                if jj == ov.len() {
                    if nv[i].0 == nv[jj].0 {
                        assert(ov[i].0 == h@);
                    }
                }
            }
            assert forall|i: int| 1 <= i < nv.len() implies exists|jj: int| 0 <= jj < i && (#[trigger] nv[jj]).2.contains((#[trigger] nv[i]).0) by {
                if i == ov.len() {
                    let jj = choose|jj: int| 0 <= jj < ov.len() && (#[trigger] ov[jj]).2.contains(queue@[qi0]@);
                    assert(nv[jj] == ov[jj]);
                } else {
                    let jj = choose|jj: int| 0 <= jj < i && (#[trigger] ov[jj]).2.contains(ov[i].0);
                    assert(nv[jj] == ov[jj]);
                }
            }
            assert forall|t: int| 1 <= t < queue@.len() implies exists|jj: int| 0 <= jj < nv.len() && (#[trigger] nv[jj]).2.contains((#[trigger] queue@[t])@) by {
                if t < q0.len() {
                    let jj = choose|jj: int| 0 <= jj < ov.len() && (#[trigger] ov[jj]).2.contains(q0[t]@);
                    assert(nv[jj] == ov[jj]);
                } else {
                    let pi = t - q0.len();
                    assert(queue@[q0.len() + pi]@ == info.parents@[pi]@);
                    assert(nv[ov.len() as int].2[pi] == info.parents@[pi]@);
                }
            }
            assert forall|i: int, p: Seq<char>| 0 <= i < nv.len() && #[trigger] nv[i].2.contains(p) implies has_hash(nv, p)
                || exists|t: int| qi <= t < queue@.len() && (#[trigger] queue@[t])@ == p by {
                if i == ov.len() {
                    let pi = choose|pi: int| 0 <= pi < nv[i].2.len() && nv[i].2[pi] == p;
                    assert(queue@[q0.len() + pi]@ == p);
                } else {
                    assert(nv[i] == ov[i]);
                    if has_hash(ov, p) {
                        let q = choose|q: int| 0 <= q < ov.len() && (#[trigger] ov[q]).0 == p;
                        assert(nv[q] == ov[q]);
                    } else {
                        let t = choose|t: int| qi0 <= t < q0.len() && (#[trigger] q0[t])@ == p;
                        if t == qi0 {
                            assert(nv[ov.len() as int].0 == p);
                        } else {
                            assert(queue@[t] == q0[t]);
                        }
                    }
                }
            }
        }
    }
    Ok(out)
}

/// `o` is the ancestry of `start`: the commits reachable from it, in history
/// order.
pub open spec fn is_ancestry(
    start: Seq<char>,
    known: Seq<(Seq<char>, Seq<char>, Seq<Seq<char>>)>,
    o: Seq<(Seq<char>, Seq<char>, Seq<Seq<char>>)>,
) -> bool {
    exists|rv: Seq<(Seq<char>, Seq<char>, Seq<Seq<char>>)>|
        reachable_from(rv, start, known) && #[trigger] history_order(rv, o)
}

/// The ancestry of `start`, descendants before ancestors. The parent graph
/// decides the order; commit time only breaks ties between commits the graph
/// leaves unordered, and the hash breaks ties between equal times.
pub fn ancestry(start: &str, known: &Vec<CommitInfo>) -> (r: Result<Vec<CommitInfo>, Error>)
    ensures
        match r {
            Ok(o) => is_ancestry(start@, cvs(known@), cvs(o@)) && records_from(o@, known@),
            Err(e) => match e {
                Error::NotFound(w, h) => w@ == "commit"@ && !has_hash(cvs(known@), h@) && reached(
                    cvs(known@),
                    start@,
                    h@,
                ),
                _ => false,
            },
        },
{
    let all = match reachable(start, known) {
        Ok(all) => all,
        Err(e) => return Err(e),
    };
    proof {
        let rv = cvs(all@);
        assert forall|i: int, j: int| 0 <= i < j < all@.len() implies (#[trigger] all@[i]).hash@ != (#[trigger] all@[j]).hash@ by {
            assert(rv[i].0 != rv[j].0);
        }
    }
    let o = order_history(&all);
    proof {
        lemma_records_from_trans(o@, all@, known@);
    }
    assert(reachable_from(cvs(all@), start@, cvs(known@)) && history_order(cvs(all@), cvs(o@)));
    assert(is_ancestry(start@, cvs(known@), cvs(o@)));
    Ok(o)
}

// --------------------------------------------------------- timestamps ---

/// When a document first appeared and when it last changed.
#[derive(Debug, Clone)]
pub struct DocTimes {
    pub kind: String,
    pub key: String,
    pub created: String,
    pub updated: String,
}

/// A history read oldest first, as events: the time of a commit and one
/// `(kind, key, blob)` entry of its manifest.
pub open spec fn history_events(chain: Seq<(String, Vec<(String, String, String)>)>) -> Seq<
    (Seq<char>, Seq<char>, Seq<char>, Seq<char>),
>
    decreases chain.len(),
{
    if chain.len() == 0 {
        seq![]
    } else {
        history_events(chain.drop_last()) + commit_events(chain.last())
    }
}

pub open spec fn commit_events(c: (String, Vec<(String, String, String)>)) -> Seq<
    (Seq<char>, Seq<char>, Seq<char>, Seq<char>),
> {
    c.1@.map_values(|e: (String, String, String)| (c.0@, e.0@, e.1@, e.2@))
}

/// Reading events in order: for each `(kind, key)` seen, the time it first
/// appeared, the time its blob last differed from the one before, and its
/// latest blob.
pub open spec fn doc_times(events: Seq<(Seq<char>, Seq<char>, Seq<char>, Seq<char>)>) -> Map<
    (Seq<char>, Seq<char>),
    (Seq<char>, Seq<char>, Seq<char>),
>
    decreases events.len(),
{
    if events.len() == 0 {
        Map::empty()
    } else {
        let m = doc_times(events.drop_last());
        let (t, kind, key, blob) = events.last();
        let d = (kind, key);
        if !m.contains_key(d) {
            m.insert(d, (t, t, blob))
        } else if m[d].2 != blob {
            m.insert(d, (m[d].0, t, blob))
        } else {
            m
        }
    }
}

/// The blob a document had after the last event that listed it.
pub open spec fn latest_blob(events: Seq<(Seq<char>, Seq<char>, Seq<char>, Seq<char>)>, d: (Seq<char>, Seq<char>)) -> Option<
    Seq<char>,
>
    decreases events.len(),
{
    if events.len() == 0 {
        None
    } else if (events.last().1, events.last().2) == d {
        Some(events.last().3)
    } else {
        latest_blob(events.drop_last(), d)
    }
}

/// The time of the first event that lists a document.
pub open spec fn first_seen(events: Seq<(Seq<char>, Seq<char>, Seq<char>, Seq<char>)>, d: (Seq<char>, Seq<char>)) -> Option<
    Seq<char>,
>
    decreases events.len(),
{
    if events.len() == 0 {
        None
    } else {
        match first_seen(events.drop_last(), d) {
            Some(t) => Some(t),
            None => if (events.last().1, events.last().2) == d {
                Some(events.last().0)
            } else {
                None
            },
        }
    }
}

/// The time of the last event that changed a document: one that lists it with
/// a blob other than the one it had before (its first listing included).
pub open spec fn last_change(events: Seq<(Seq<char>, Seq<char>, Seq<char>, Seq<char>)>, d: (Seq<char>, Seq<char>)) -> Option<
    Seq<char>,
>
    decreases events.len(),
{
    if events.len() == 0 {
        None
    } else if (events.last().1, events.last().2) == d && latest_blob(events.drop_last(), d) != Some(
        events.last().3,
    ) {
        Some(events.last().0)
    } else {
        last_change(events.drop_last(), d)
    }
}

/// A document's times are those of its history: it is tracked exactly when
/// some event lists it; it was created at its first listing, updated at the
/// last event that changed its blob (re-listing an unchanged blob is no
/// update), and its blob is the one it was last listed with.
pub proof fn lemma_doc_times_follow_history(events: Seq<(Seq<char>, Seq<char>, Seq<char>, Seq<char>)>, d: (Seq<char>, Seq<char>))
    ensures
        doc_times(events).contains_key(d) <==> first_seen(events, d) is Some,
        doc_times(events).contains_key(d) <==> latest_blob(events, d) is Some,
        doc_times(events).contains_key(d) ==> first_seen(events, d) == Some(doc_times(events)[d].0)
            && last_change(events, d) == Some(doc_times(events)[d].1) && latest_blob(events, d) == Some(
            doc_times(events)[d].2,
        ),
    decreases events.len(),
{
    if events.len() > 0 {
        lemma_doc_times_follow_history(events.drop_last(), d);
    }
}

/// One more commit entry after a history: listing a document with a blob other
/// than its latest makes that commit's time its updated time (and its created
/// time too when it is new); listing it with the same blob changes nothing; no
/// other document's times move.
pub proof fn lemma_next_event_times(
    events: Seq<(Seq<char>, Seq<char>, Seq<char>, Seq<char>)>,
    e: (Seq<char>, Seq<char>, Seq<char>, Seq<char>),
    other: (Seq<char>, Seq<char>),
)
    ensures
        ({
            let d = (e.1, e.2);
            let before = doc_times(events);
            let after = doc_times(events.push(e));
            &&& after.contains_key(d)
            &&& latest_blob(events, d) is None ==> after[d] == (e.0, e.0, e.3)
            &&& (latest_blob(events, d) is Some && latest_blob(events, d) != Some(e.3)) ==> after[d] == (before[d].0, e.0, e.3)
            &&& latest_blob(events, d) == Some(e.3) ==> after[d] == before[d]
            &&& other != d ==> (after.contains_key(other) == before.contains_key(other) && (before.contains_key(
                other,
            ) ==> after[other] == before[other]))
        }),
{
    let p = events.push(e);
    assert(p.drop_last() =~= events);
    lemma_doc_times_follow_history(events, (e.1, e.2));
}

/// The tracking state as a map from `(kind, key)`.
pub open spec fn tracks(
    v: Seq<(String, String, String, String, String)>,
    m: Map<(Seq<char>, Seq<char>), (Seq<char>, Seq<char>, Seq<char>)>,
) -> bool {
    &&& forall|i: int, j: int|
        0 <= i < j < v.len() ==> ((#[trigger] v[i]).0@, v[i].1@) != ((#[trigger] v[j]).0@, v[j].1@)
    &&& forall|i: int|
        0 <= i < v.len() ==> m.contains_key(((#[trigger] v[i]).0@, v[i].1@)) && m[(v[i].0@, v[i].1@)] == (
            v[i].2@,
            v[i].3@,
            v[i].4@,
        )
    &&& forall|d: (Seq<char>, Seq<char>)|
        #[trigger] m.contains_key(d) ==> exists|i: int| 0 <= i < v.len() && ((#[trigger] v[i]).0@, v[i].1@) == d
}

fn find_doc(v: &Vec<(String, String, String, String, String)>, kind: &str, key: &str) -> (r: Option<usize>)
    ensures
        match r {
            Some(i) => i < v@.len() && v@[i as int].0@ == kind@ && v@[i as int].1@ == key@,
            None => forall|i: int| 0 <= i < v@.len() ==> ((#[trigger] v@[i]).0@, v@[i].1@) != (kind@, key@),
        },
{
    let mut i: usize = 0;
    while i < v.len()
        invariant
            i <= v@.len(),
            forall|j: int| 0 <= j < i ==> ((#[trigger] v@[j]).0@, v@[j].1@) != (kind@, key@),
        decreases v@.len() - i,
    {
        if same_text(v[i].0.as_str(), kind) && same_text(v[i].1.as_str(), key) {
            return Some(i);
        }
        i = i + 1;
    }
    None
}

/// Reads one event into the tracking state.
fn note_event(
    v: &mut Vec<(String, String, String, String, String)>,
    time: &str,
    kind: &str,
    key: &str,
    blob: &str,
    Ghost(events): Ghost<Seq<(Seq<char>, Seq<char>, Seq<char>, Seq<char>)>>,
)
    requires
        tracks(old(v)@, doc_times(events)),
    ensures
        tracks(final(v)@, doc_times(events.push((time@, kind@, key@, blob@)))),
{
    let ghost m = doc_times(events);
    let ghost e = events.push((time@, kind@, key@, blob@));
    assert(e.drop_last() =~= events);
    let ghost m2 = doc_times(e);
    let ghost d = (kind@, key@);
    match find_doc(v, kind, key) {
        None => {
            assert(!m.contains_key(d));
            let ghost before = v@;
            v.push((owned(kind), owned(key), owned(time), owned(time), owned(blob)));
            assert(m2 == m.insert(d, (time@, time@, blob@)));
            assert forall|i: int, j: int| 0 <= i < j < v@.len() implies ((#[trigger] v@[i]).0@, v@[i].1@) != ((
            #[trigger] v@[j]).0@, v@[j].1@) by {
                if j == before.len() {
                    assert(v@[i] == before[i]);
                }
            }
            assert forall|i: int| 0 <= i < v@.len() implies m2.contains_key(((#[trigger] v@[i]).0@, v@[i].1@))
                && m2[(v@[i].0@, v@[i].1@)] == (v@[i].2@, v@[i].3@, v@[i].4@) by {
                if i < before.len() {
                    assert(v@[i] == before[i]);
                }
            }
            assert forall|x: (Seq<char>, Seq<char>)| #[trigger] m2.contains_key(x) implies exists|i: int|
                0 <= i < v@.len() && ((#[trigger] v@[i]).0@, v@[i].1@) == x by {
                if x == d {
                    assert(v@[before.len() as int].0@ == kind@);
                } else {
                    let i = choose|i: int| 0 <= i < before.len() && ((#[trigger] before[i]).0@, before[i].1@) == x;
                    assert(v@[i] == before[i]);
                }
            }
        },
        Some(i) => {
            assert(m.contains_key(d) && m[d] == (v@[i as int].2@, v@[i as int].3@, v@[i as int].4@));
            if !same_text(v[i].4.as_str(), blob) {
                let ghost before = v@;
                let created = copy_string(&v[i].2);
                v.set(i, (owned(kind), owned(key), created, owned(time), owned(blob)));
                assert(m2 == m.insert(d, (m[d].0, time@, blob@)));
                assert forall|a: int, b: int| 0 <= a < b < v@.len() implies ((#[trigger] v@[a]).0@, v@[a].1@) != ((
                #[trigger] v@[b]).0@, v@[b].1@) by {
                    assert((before[a].0@, before[a].1@) != (before[b].0@, before[b].1@));
                }
                assert forall|a: int| 0 <= a < v@.len() implies m2.contains_key(((#[trigger] v@[a]).0@, v@[a].1@))
                    && m2[(v@[a].0@, v@[a].1@)] == (v@[a].2@, v@[a].3@, v@[a].4@) by {
                    if a != i {
                        assert(v@[a] == before[a]);
                        assert((before[a].0@, before[a].1@) != (before[i as int].0@, before[i as int].1@));
                    }
                }
                assert forall|x: (Seq<char>, Seq<char>)| #[trigger] m2.contains_key(x) implies exists|a: int|
                    0 <= a < v@.len() && ((#[trigger] v@[a]).0@, v@[a].1@) == x by {
                    let a = choose|a: int| 0 <= a < before.len() && ((#[trigger] before[a]).0@, before[a].1@) == x;
                    if a == i {
                        assert(v@[a].0@ == kind@ && v@[a].1@ == key@);
                    } else {
                        assert(v@[a] == before[a]);
                    }
                }
            } else {
                assert(m2 == m);
            }
        },
    }
}

/// When each document first appeared and when it last changed, from a history
/// read oldest first: each commit's time and its `(kind, key, blob)` entries.
/// These are the documents' `created_at` and `updated_at`: timestamps belong
/// to commits, so re-saving an unchanged document does not fabricate an edit.
pub fn history_times(chain: &Vec<(String, Vec<(String, String, String)>)>) -> (r: Vec<DocTimes>)
    ensures
        forall|i: int, j: int|
            0 <= i < j < r@.len() ==> ((#[trigger] r@[i]).kind@, r@[i].key@) != ((#[trigger] r@[j]).kind@, r@[j].key@),
        forall|i: int|
            0 <= i < r@.len() ==> {
                let m = doc_times(history_events(chain@));
                let d = ((#[trigger] r@[i]).kind@, r@[i].key@);
                m.contains_key(d) && m[d].0 == r@[i].created@ && m[d].1 == r@[i].updated@
            },
        forall|d: (Seq<char>, Seq<char>)|
            #[trigger] doc_times(history_events(chain@)).contains_key(d) ==> exists|i: int|
                0 <= i < r@.len() && ((#[trigger] r@[i]).kind@, r@[i].key@) == d,
        forall|i: int|
            0 <= i < r@.len() ==> {
                let ev = history_events(chain@);
                let d = ((#[trigger] r@[i]).kind@, r@[i].key@);
                first_seen(ev, d) == Some(r@[i].created@) && last_change(ev, d) == Some(r@[i].updated@)
            },
        forall|d: (Seq<char>, Seq<char>)|
            #[trigger] first_seen(history_events(chain@), d) is Some ==> exists|i: int|
                0 <= i < r@.len() && ((#[trigger] r@[i]).kind@, r@[i].key@) == d,
{
    let mut state: Vec<(String, String, String, String, String)> = Vec::new();
    let mut c: usize = 0;
    while c < chain.len()
        invariant
            c <= chain@.len(),
            tracks(state@, doc_times(history_events(chain@.take(c as int)))),
        decreases chain@.len() - c,
    {
        let time = &chain[c].0;
        let entries = &chain[c].1;
        let ghost done = history_events(chain@.take(c as int));
        let ghost ce = commit_events(chain@[c as int]);
        let mut k: usize = 0;
        while k < entries.len()
            invariant
                k <= entries@.len(),
                entries@ == chain@[c as int].1@,
                time@ == chain@[c as int].0@,
                ce == commit_events(chain@[c as int]),
                tracks(state@, doc_times(done + ce.take(k as int))),
            decreases entries@.len() - k,
        {
            let e = &entries[k];
            proof {
                assert(ce[k as int] == (time@, e.0@, e.1@, e.2@));
                assert(done + ce.take(k + 1) =~= (done + ce.take(k as int)).push(ce[k as int]));
            }
            note_event(&mut state, time.as_str(), e.0.as_str(), e.1.as_str(), e.2.as_str(), Ghost(done + ce.take(k as int)));
            k = k + 1;
        }
        proof {
            assert(ce.take(k as int) =~= ce);
            assert(chain@.take(c + 1).drop_last() =~= chain@.take(c as int));
            assert(chain@.take(c + 1).last() == chain@[c as int]);
        }
        c = c + 1;
    }
    assert(chain@.take(chain@.len() as int) =~= chain@);
    let ghost m = doc_times(history_events(chain@));
    let mut r: Vec<DocTimes> = Vec::new();
    let mut i: usize = 0;
    while i < state.len()
        invariant
            i <= state@.len(),
            tracks(state@, m),
            r@.len() == i,
            forall|j: int|
                0 <= j < i ==> (#[trigger] r@[j]).kind@ == state@[j].0@ && r@[j].key@ == state@[j].1@
                    && r@[j].created@ == state@[j].2@ && r@[j].updated@ == state@[j].3@,
        decreases state@.len() - i,
    {
        let s = &state[i];
        r.push(DocTimes {
            kind: copy_string(&s.0),
            key: copy_string(&s.1),
            created: copy_string(&s.2),
            updated: copy_string(&s.3),
        });
        i = i + 1;
    }
    proof {
        assert forall|a: int, b: int| 0 <= a < b < r@.len() implies ((#[trigger] r@[a]).kind@, r@[a].key@) != ((
        #[trigger] r@[b]).kind@, r@[b].key@) by {
            assert((state@[a].0@, state@[a].1@) != (state@[b].0@, state@[b].1@));
        }
        assert forall|a: int| 0 <= a < r@.len() implies {
            let d = ((#[trigger] r@[a]).kind@, r@[a].key@);
            m.contains_key(d) && m[d].0 == r@[a].created@ && m[d].1 == r@[a].updated@
        } by {
            assert(m.contains_key((state@[a].0@, state@[a].1@)));
        }
        assert forall|d: (Seq<char>, Seq<char>)| #[trigger] m.contains_key(d) implies exists|a: int|
            0 <= a < r@.len() && ((#[trigger] r@[a]).kind@, r@[a].key@) == d by {
            let a = choose|a: int| 0 <= a < state@.len() && ((#[trigger] state@[a]).0@, state@[a].1@) == d;
            assert(r@[a].kind@ == state@[a].0@);
        }
        let ev = history_events(chain@);
        assert forall|a: int| 0 <= a < r@.len() implies {
            let d = ((#[trigger] r@[a]).kind@, r@[a].key@);
            first_seen(ev, d) == Some(r@[a].created@) && last_change(ev, d) == Some(r@[a].updated@)
        } by {
            lemma_doc_times_follow_history(ev, (r@[a].kind@, r@[a].key@));
        }
        assert forall|d: (Seq<char>, Seq<char>)| #[trigger] first_seen(ev, d) is Some implies exists|a: int|
            0 <= a < r@.len() && ((#[trigger] r@[a]).kind@, r@[a].key@) == d by {
            lemma_doc_times_follow_history(ev, d);
            assert(m.contains_key(d));
        }
    }
    r
}

/// The row id of the material a model's layer `index` (from 0) stands on,
/// from the ids of the file's materials; a layer on a material the file does
/// not define is refused, naming the model, the layer (from 1) and the key.
pub fn layer_material(material_ids: &DocMap, model_key: &str, index: usize, material_key: &str) -> (r: Result<
    String,
    Error,
>)
    requires
        index < usize::MAX,
    ensures
        match lookup(material_ids.pairs(), material_key@) {
            Some(id) => r matches Ok(v) && v@ == id,
            None => r matches Err(Error::Invalid(m)) && m@ == "model '"@ + model_key@ + "' layer "@ + decimal(
                (index + 1) as nat,
            ) + " references unknown material '"@ + material_key@ + "'"@,
        },
{
    match material_ids.get(material_key) {
        Some(id) => Ok(copy_string(id)),
        None => {
            let mut m = owned("model '");
            push_str(&mut m, model_key);
            push_str(&mut m, "' layer ");
            let n = decimal_string((index + 1) as u64);
            push_str(&mut m, n.as_str());
            push_str(&mut m, " references unknown material '");
            push_str(&mut m, material_key);
            push_str(&mut m, "'");
            Err(Error::Invalid(m))
        },
    }
}

} // verus!
