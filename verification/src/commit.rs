//! Commit manifests.
//!
//! A commit is not a special kind of record: it is a blob like any other, and
//! its hash is the hash of its canonical JSON. "Send me the blobs I do not
//! have" therefore transfers history, models and materials through one code
//! path, and a commit id verifies its own contents by construction.

use vstd::prelude::*;
use crate::canon::{
    canon, canon_items, canon_members, canon_object, json_string, join, lemma_ascii_key_lt, lemma_canon_members_map,
    lemma_literal_chars_unescaped, member_lt, member_texts, object_id, write_string, hash_bytes, Json,
};
use crate::error::Error;
use crate::sorting::{lemma_insert_sorted_at, lemma_sort_by_permutation, sort_by};
use crate::text::{
    chars_lt, copy_string, lemma_chars_lt_irreflexive, lemma_chars_lt_total,
    lemma_chars_lt_trans, owned, push_char, push_str, same_text, text_lt,
};

verus! {

/// One document in a commit, addressed by kind and stable key.
#[derive(Debug, Clone)]
pub struct ManifestEntry {
    pub kind: String,
    pub key: String,
    /// Hash of the document blob.
    pub blob: String,
}

/// An entry by its view: kind, key, blob.
pub open spec fn entry_view(e: ManifestEntry) -> (Seq<char>, Seq<char>, Seq<char>) {
    (e.kind@, e.key@, e.blob@)
}

pub open spec fn entries_view(s: Seq<ManifestEntry>) -> Seq<(Seq<char>, Seq<char>, Seq<char>)> {
    s.map_values(|e: ManifestEntry| entry_view(e))
}

/// Entries are ordered by `(kind, key)`, each compared as `str` compares.
pub open spec fn entry_lt() -> spec_fn(
    (Seq<char>, Seq<char>, Seq<char>),
    (Seq<char>, Seq<char>, Seq<char>),
) -> bool {
    |a: (Seq<char>, Seq<char>, Seq<char>), b: (Seq<char>, Seq<char>, Seq<char>)|
        chars_lt(a.0, b.0) || (a.0 == b.0 && chars_lt(a.1, b.1))
}

impl ManifestEntry {
    /// A copy of this entry.
    pub fn duplicate(&self) -> (r: ManifestEntry)
        ensures
            entry_view(r) == entry_view(*self),
    {
        ManifestEntry {
            kind: copy_string(&self.kind),
            key: copy_string(&self.key),
            blob: copy_string(&self.blob),
        }
    }
}

/// The complete contents of a revision. Manifests are snapshots, not deltas:
/// every document present at that revision is listed.
#[derive(Debug, Clone)]
pub struct Manifest {
    /// Discriminator, so a blob can be identified without an index.
    pub type_: String,
    /// First parent first. Empty for the root commit, two or more for a merge.
    pub parents: Vec<String>,
    pub author: String,
    /// RFC 3339, always UTC.
    pub committed_at: String,
    pub message: String,
    /// Sorted by `(kind, key)` before hashing, so two tools that assemble the
    /// same revision in different orders still agree on the commit id.
    pub entries: Vec<ManifestEntry>,
}

/// The canonical text of one entry (`blob`, `key`, `kind` is their UTF-16
/// order).
pub open spec fn entry_canon(e: (Seq<char>, Seq<char>, Seq<char>)) -> Seq<char> {
    "{\"blob\":"@ + json_string(e.2) + ",\"key\":"@ + json_string(e.1) + ",\"kind\":"@
        + json_string(e.0) + "}"@
}

pub open spec fn entry_texts(s: Seq<(Seq<char>, Seq<char>, Seq<char>)>) -> Seq<Seq<char>>
    decreases s.len(),
{
    if s.len() == 0 {
        seq![]
    } else {
        entry_texts(s.drop_last()).push(entry_canon(s.last()))
    }
}

pub open spec fn string_texts(s: Seq<String>) -> Seq<Seq<char>>
    decreases s.len(),
{
    if s.len() == 0 {
        seq![]
    } else {
        string_texts(s.drop_last()).push(json_string(s.last()@))
    }
}

/// The canonical JSON text of a manifest: its six members in the UTF-16
/// order of their names (`author`, `committedAt`, `entries`, `message`,
/// `parents`, `type`).
pub open spec fn manifest_canon(m: Manifest) -> Seq<char> {
    "{\"author\":"@ + json_string(m.author@) + ",\"committedAt\":"@ + json_string(
        m.committed_at@,
    ) + ",\"entries\":["@ + join(entry_texts(entries_view(m.entries@))) + "],\"message\":"@
        + json_string(m.message@) + ",\"parents\":["@ + join(string_texts(m.parents@))
        + "],\"type\":"@ + json_string(m.type_@) + "}"@
}

/// Whether `e` is the first entry of `s` with this kind and key.
pub open spec fn first_match(
    s: Seq<(Seq<char>, Seq<char>, Seq<char>)>,
    kind: Seq<char>,
    key: Seq<char>,
    i: int,
) -> bool {
    &&& 0 <= i < s.len()
    &&& s[i].0 == kind && s[i].1 == key
    &&& forall|j: int| 0 <= j < i ==> !(s[j].0 == kind && s[j].1 == key)
}

/// The entries of one kind, in order.
pub open spec fn of_kind(s: Seq<(Seq<char>, Seq<char>, Seq<char>)>, kind: Seq<char>) -> Seq<
    (Seq<char>, Seq<char>, Seq<char>),
>
    decreases s.len(),
{
    if s.len() == 0 {
        seq![]
    } else if s.last().0 == kind {
        of_kind(s.drop_last(), kind).push(s.last())
    } else {
        of_kind(s.drop_last(), kind)
    }
}

/// Sorts entries by `(kind, key)`, keeping equal ones in the order given.
fn sort_entries(v: &Vec<ManifestEntry>) -> (r: Vec<ManifestEntry>)
    ensures
        entries_view(r@) == sort_by(entries_view(v@), entry_lt()),
{
    let mut r: Vec<ManifestEntry> = Vec::new();
    let mut i: usize = 0;
    while i < v.len()
        invariant
            i <= v@.len(),
            entries_view(r@) == sort_by(entries_view(v@).take(i as int), entry_lt()),
        decreases v@.len() - i,
    {
        let x = v[i].duplicate();
        let ghost xv = entry_view(x);
        let ghost rv = entries_view(r@);
        let mut j = r.len();
        while j > 0 && (text_lt(x.kind.as_str(), r[j - 1].kind.as_str()) || (same_text(
            x.kind.as_str(),
            r[j - 1].kind.as_str(),
        ) && text_lt(x.key.as_str(), r[j - 1].key.as_str())))
            invariant
                j <= r@.len(),
                rv == entries_view(r@),
                xv == entry_view(x),
                forall|k: int| j <= k < rv.len() ==> (entry_lt())(xv, #[trigger] rv[k]),
            decreases j,
        {
            j = j - 1;
        }
        proof {
            lemma_insert_sorted_at(rv, xv, entry_lt(), j as int);
            let t = entries_view(v@).take(i + 1);
            assert(t.drop_last() =~= entries_view(v@).take(i as int));
            assert(t.last() == xv);
        }
        r.insert(j, x);
        assert(entries_view(r@) =~= rv.insert(j as int, xv));
        i = i + 1;
    }
    assert(entries_view(v@).take(v@.len() as int) =~= entries_view(v@));
    r
}

/// Appends the canonical text of one entry.
fn write_entry(e: &ManifestEntry, out: &mut String)
    ensures
        final(out)@ == old(out)@ + entry_canon(entry_view(*e)),
{
    push_str(out, "{\"blob\":");
    write_string(e.blob.as_str(), out);
    push_str(out, ",\"key\":");
    write_string(e.key.as_str(), out);
    push_str(out, ",\"kind\":");
    write_string(e.kind.as_str(), out);
    push_str(out, "}");
    assert(final(out)@ =~= old(out)@ + entry_canon(entry_view(*e)));
}

/// Appends the canonical texts of entries, separated by commas.
fn write_entries(entries: &Vec<ManifestEntry>, out: &mut String)
    ensures
        final(out)@ == old(out)@ + join(entry_texts(entries_view(entries@))),
{
    let ghost ev = entries_view(entries@);
    let mut i: usize = 0;
    assert(ev.take(0) =~= Seq::<(Seq<char>, Seq<char>, Seq<char>)>::empty());
    assert(out@ =~= old(out)@ + join(entry_texts(ev.take(0))));
    while i < entries.len()
        invariant
            i <= entries@.len(),
            ev == entries_view(entries@),
            out@ == old(out)@ + join(entry_texts(ev.take(i as int))),
        decreases entries@.len() - i,
    {
        if i > 0 {
            push_char(out, ',');
        }
        write_entry(&entries[i], out);
        proof {
            let p = ev.take(i + 1);
            assert(p.drop_last() =~= ev.take(i as int));
            assert(p.last() == ev[i as int]);
            lemma_entry_texts_len(ev.take(i as int));
            let et = entry_texts(ev.take(i as int));
            assert(entry_texts(p) == et.push(entry_canon(ev[i as int])));
            assert(et.push(entry_canon(ev[i as int])).drop_last() =~= et);
        }
        assert(out@ =~= old(out)@ + join(entry_texts(ev.take(i + 1))));
        i = i + 1;
    }
    assert(ev.take(ev.len() as int) =~= ev);
}

/// A member with this name whose value passes `value`.
pub open spec fn member_is(m: (String, Json), name: Seq<char>, value: spec_fn(Json) -> bool) -> bool {
    m.0@ == name && value(m.1)
}

/// A JSON string holding `s`.
pub open spec fn string_json(j: Json, s: Seq<char>) -> bool {
    j matches Json::String(t) && t@ == s
}

/// A JSON array of strings holding `ss`, in order.
pub open spec fn strings_json(j: Json, ss: Seq<Seq<char>>) -> bool {
    j matches Json::Array(items) && items@.len() == ss.len() && forall|i: int|
        0 <= i < ss.len() ==> string_json(#[trigger] items@[i], ss[i])
}

/// The JSON object of one entry: `kind`, `key`, `blob`.
pub open spec fn entry_json(j: Json, e: (Seq<char>, Seq<char>, Seq<char>)) -> bool {
    j matches Json::Object(ms) && ms@.len() == 3 && member_is(ms@[0], "kind"@, |v: Json| string_json(v, e.0))
        && member_is(ms@[1], "key"@, |v: Json| string_json(v, e.1)) && member_is(
        ms@[2],
        "blob"@,
        |v: Json| string_json(v, e.2),
    )
}

/// A JSON array of entry objects, in order.
pub open spec fn entries_json(j: Json, es: Seq<(Seq<char>, Seq<char>, Seq<char>)>) -> bool {
    j matches Json::Array(items) && items@.len() == es.len() && forall|i: int|
        0 <= i < es.len() ==> entry_json(#[trigger] items@[i], es[i])
}

impl Manifest {
    pub const TYPE: &'static str = "gm.commit/1";

    /// Whether a document's `type` says it is a commit manifest. Objects on
    /// the wire are untyped; this is how a receiver tells commits from the
    /// documents they list.
    pub fn is_commit_type(type_: &str) -> (r: bool)
        ensures
            r == (type_@ == Manifest::TYPE@),
    {
        same_text(type_, Manifest::TYPE)
    }

    /// A manifest with its entries sorted by `(kind, key)`.
    pub fn new(
        parents: Vec<String>,
        author: &str,
        committed_at: &str,
        message: &str,
        entries: Vec<ManifestEntry>,
    ) -> (m: Manifest)
        ensures
            m.type_@ == Manifest::TYPE@,
            m.parents@ == parents@,
            m.author@ == author@,
            m.committed_at@ == committed_at@,
            m.message@ == message@,
            entries_view(m.entries@) == sort_by(entries_view(entries@), entry_lt()),
    {
        let sorted = sort_entries(&entries);
        Manifest {
            type_: owned(Manifest::TYPE),
            parents,
            author: owned(author),
            committed_at: owned(committed_at),
            message: owned(message),
            entries: sorted,
        }
    }

    /// The canonical JSON text of this manifest.
    pub fn canonical_text(&self) -> (r: String)
        ensures
            r@ == manifest_canon(*self),
    {
        let mut out = owned("{\"author\":");
        write_string(self.author.as_str(), &mut out);
        push_str(&mut out, ",\"committedAt\":");
        write_string(self.committed_at.as_str(), &mut out);
        push_str(&mut out, ",\"entries\":[");
        write_entries(&self.entries, &mut out);
        push_str(&mut out, "],\"message\":");
        write_string(self.message.as_str(), &mut out);
        push_str(&mut out, ",\"parents\":[");
        let ghost before2 = out@;
        let mut k: usize = 0;
        while k < self.parents.len()
            invariant
                k <= self.parents@.len(),
                out@ == before2 + join(string_texts(self.parents@.take(k as int))),
            decreases self.parents@.len() - k,
        {
            if k > 0 {
                push_char(&mut out, ',');
            }
            write_string(self.parents[k].as_str(), &mut out);
            proof {
                let ps = self.parents@;
                let p = ps.take(k + 1);
                assert(p.drop_last() =~= ps.take(k as int));
                assert(p.last() == ps[k as int]);
                lemma_string_texts_len(ps.take(k as int));
                let st = string_texts(ps.take(k as int));
                assert(string_texts(p) == st.push(json_string(ps[k as int]@)));
                assert(st.push(json_string(ps[k as int]@)).drop_last() =~= st);
                if k == 0 {
                    assert(ps.take(0) =~= Seq::<String>::empty());
                }
            }
            assert(out@ =~= before2 + join(string_texts(self.parents@.take(k + 1))));
            k = k + 1;
        }
        assert(self.parents@.take(self.parents@.len() as int) =~= self.parents@);
        push_str(&mut out, "],\"type\":");
        write_string(self.type_.as_str(), &mut out);
        push_str(&mut out, "}");
        assert(out@ =~= manifest_canon(*self));
        out
    }

    /// The commit id: the hash of this manifest's canonical form.
    pub fn hash(&self) -> (r: Result<String, Error>)
        ensures
            r matches Ok(h) && h@ == object_id(vstd::utf8::encode_utf8(manifest_canon(*self))),
    {
        let text = self.canonical_text();
        Ok(hash_bytes(text.as_str().as_bytes()))
    }

    /// The manifest as a JSON document: `type`, `parents`, `author`,
    /// `committedAt`, `message` and `entries`, each entry an object of
    /// `kind`, `key` and `blob`.
    pub fn to_json(&self) -> (r: Json)
        ensures
            r matches Json::Object(ms) && ms@.len() == 6
                && member_is(ms@[0], "type"@, |j: Json| string_json(j, self.type_@))
                && member_is(ms@[1], "parents"@, |j: Json| strings_json(j, crate::sync::strings_view(self.parents@)))
                && member_is(ms@[2], "author"@, |j: Json| string_json(j, self.author@))
                && member_is(ms@[3], "committedAt"@, |j: Json| string_json(j, self.committed_at@))
                && member_is(ms@[4], "message"@, |j: Json| string_json(j, self.message@))
                && member_is(ms@[5], "entries"@, |j: Json| entries_json(j, entries_view(self.entries@))),
            canon(r) == Some(manifest_canon(*self)),
    {
        let ghost ev = entries_view(self.entries@);
        let mut entries: Vec<Json> = Vec::new();
        let mut i: usize = 0;
        while i < self.entries.len()
            invariant
                i <= self.entries@.len(),
                ev == entries_view(self.entries@),
                entries@.len() == i,
                forall|j: int| 0 <= j < i ==> entry_json(#[trigger] entries@[j], ev[j]),
            decreases self.entries@.len() - i,
        {
            let e = &self.entries[i];
            let mut members: Vec<(String, Json)> = Vec::new();
            members.push((owned("kind"), Json::String(copy_string(&e.kind))));
            members.push((owned("key"), Json::String(copy_string(&e.key))));
            members.push((owned("blob"), Json::String(copy_string(&e.blob))));
            entries.push(Json::Object(members));
            assert(entry_json(entries@[i as int], ev[i as int]));
            i = i + 1;
        }
        let mut parents: Vec<Json> = Vec::new();
        let mut k: usize = 0;
        while k < self.parents.len()
            invariant
                k <= self.parents@.len(),
                parents@.len() == k,
                forall|j: int| 0 <= j < k ==> string_json(#[trigger] parents@[j], self.parents@[j]@),
            decreases self.parents@.len() - k,
        {
            parents.push(Json::String(copy_string(&self.parents[k])));
            k = k + 1;
        }
        let mut members: Vec<(String, Json)> = Vec::new();
        members.push((owned("type"), Json::String(copy_string(&self.type_))));
        members.push((owned("parents"), Json::Array(parents)));
        members.push((owned("author"), Json::String(copy_string(&self.author))));
        members.push((owned("committedAt"), Json::String(copy_string(&self.committed_at))));
        members.push((owned("message"), Json::String(copy_string(&self.message))));
        members.push((owned("entries"), Json::Array(entries)));
        let r = Json::Object(members);
        proof {
            lemma_manifest_document_canon(*self, r);
        }
        r
    }

    /// The first entry with this kind and key.
    pub fn entry(&self, kind: &str, key: &str) -> (r: Option<&ManifestEntry>)
        ensures
            match r {
                Some(e) => exists|i: int|
                    first_match(entries_view(self.entries@), kind@, key@, i) && *e
                        == self.entries@[i],
                None => forall|i: int|
                    0 <= i < self.entries@.len() ==> !((#[trigger] self.entries@[i]).kind@ == kind@
                        && self.entries@[i].key@ == key@),
            },
    {
        let mut i: usize = 0;
        while i < self.entries.len()
            invariant
                i <= self.entries@.len(),
                forall|j: int|
                    0 <= j < i ==> !((#[trigger] self.entries@[j]).kind@ == kind@
                        && self.entries@[j].key@ == key@),
            decreases self.entries@.len() - i,
        {
            let e = &self.entries[i];
            if same_text(e.kind.as_str(), kind) && same_text(e.key.as_str(), key) {
                assert(first_match(entries_view(self.entries@), kind@, key@, i as int));
                return Some(e);
            }
            i = i + 1;
        }
        None
    }

    /// The entries of one kind, in order.
    pub fn entries_of_kind(&self, kind: &str) -> (r: Vec<ManifestEntry>)
        ensures
            entries_view(r@) == of_kind(entries_view(self.entries@), kind@),
    {
        let ghost ev = entries_view(self.entries@);
        let mut r: Vec<ManifestEntry> = Vec::new();
        let mut i: usize = 0;
        while i < self.entries.len()
            invariant
                i <= self.entries@.len(),
                ev == entries_view(self.entries@),
                entries_view(r@) == of_kind(ev.take(i as int), kind@),
            decreases self.entries@.len() - i,
        {
            let ghost before = entries_view(r@);
            if same_text(self.entries[i].kind.as_str(), kind) {
                r.push(self.entries[i].duplicate());
                assert(entries_view(r@) =~= before.push(ev[i as int]));
            } else {
                assert(entries_view(r@) =~= before);
            }
            proof {
                let p = ev.take(i + 1);
                assert(p.drop_last() =~= ev.take(i as int));
                assert(p.last() == ev[i as int]);
            }
            i = i + 1;
        }
        assert(ev.take(ev.len() as int) =~= ev);
        r
    }
}

/// The members of an entry object sort as `blob`, `key`, `kind`.
proof fn lemma_entry_member_order(a: Seq<char>, b: Seq<char>, c: Seq<char>)
    ensures
        sort_by(seq![("kind"@, a), ("key"@, b), ("blob"@, c)], member_lt()) == seq![
            ("blob"@, c),
            ("key"@, b),
            ("kind"@, a),
        ],
{
    reveal_strlit("kind");
    reveal_strlit("key");
    reveal_strlit("blob");
    let lt = member_lt();
    let p0 = ("kind"@, a);
    let p1 = ("key"@, b);
    let p2 = ("blob"@, c);
    lemma_ascii_key_lt("key"@, "kind"@);
    lemma_ascii_key_lt("key"@.drop_first(), "kind"@.drop_first());
    lemma_ascii_key_lt("blob"@, "kind"@);
    lemma_ascii_key_lt("blob"@, "key"@);
    assert(lt(p1, p0));
    assert(lt(p2, p0));
    assert(lt(p2, p1));
    let s1 = seq![p0];
    let s2 = seq![p0, p1];
    let s3 = seq![p0, p1, p2];
    assert(s1.drop_last() =~= Seq::<(Seq<char>, Seq<char>)>::empty());
    assert(sort_by(Seq::<(Seq<char>, Seq<char>)>::empty(), lt) =~= Seq::<(Seq<char>, Seq<char>)>::empty());
    lemma_insert_sorted_at(Seq::<(Seq<char>, Seq<char>)>::empty(), p0, lt, 0);
    assert(Seq::<(Seq<char>, Seq<char>)>::empty().insert(0, p0) =~= seq![p0]);
    assert(sort_by(s1, lt) == seq![p0]);
    assert(s2.drop_last() =~= s1);
    lemma_insert_sorted_at(seq![p0], p1, lt, 0);
    assert(seq![p0].insert(0, p1) =~= seq![p1, p0]);
    assert(sort_by(s2, lt) == seq![p1, p0]);
    assert(s3.drop_last() =~= s2);
    lemma_insert_sorted_at(seq![p1, p0], p2, lt, 0);
    assert(seq![p1, p0].insert(0, p2) =~= seq![p2, p1, p0]);
}

/// The members of a manifest object sort as `author`, `committedAt`,
/// `entries`, `message`, `parents`, `type`.
proof fn lemma_manifest_member_order(
    t0: Seq<char>,
    t1: Seq<char>,
    t2: Seq<char>,
    t3: Seq<char>,
    t4: Seq<char>,
    t5: Seq<char>,
)
    ensures
        sort_by(
            seq![
                ("type"@, t0),
                ("parents"@, t1),
                ("author"@, t2),
                ("committedAt"@, t3),
                ("message"@, t4),
                ("entries"@, t5),
            ],
            member_lt(),
        ) == seq![
            ("author"@, t2),
            ("committedAt"@, t3),
            ("entries"@, t5),
            ("message"@, t4),
            ("parents"@, t1),
            ("type"@, t0),
        ],
{
    reveal_strlit("type");
    reveal_strlit("parents");
    reveal_strlit("author");
    reveal_strlit("committedAt");
    reveal_strlit("message");
    reveal_strlit("entries");
    let lt = member_lt();
    let p0 = ("type"@, t0);
    let p1 = ("parents"@, t1);
    let p2 = ("author"@, t2);
    let p3 = ("committedAt"@, t3);
    let p4 = ("message"@, t4);
    let p5 = ("entries"@, t5);
    lemma_ascii_key_lt("parents"@, "type"@);
    lemma_ascii_key_lt("author"@, "type"@);
    lemma_ascii_key_lt("author"@, "parents"@);
    lemma_ascii_key_lt("committedAt"@, "type"@);
    lemma_ascii_key_lt("committedAt"@, "parents"@);
    lemma_ascii_key_lt("committedAt"@, "author"@);
    lemma_ascii_key_lt("message"@, "type"@);
    lemma_ascii_key_lt("message"@, "parents"@);
    lemma_ascii_key_lt("message"@, "committedAt"@);
    lemma_ascii_key_lt("entries"@, "type"@);
    lemma_ascii_key_lt("entries"@, "parents"@);
    lemma_ascii_key_lt("entries"@, "message"@);
    lemma_ascii_key_lt("entries"@, "committedAt"@);
    let s1 = seq![p0];
    let s2 = seq![p0, p1];
    let s3 = seq![p0, p1, p2];
    let s4 = seq![p0, p1, p2, p3];
    let s5 = seq![p0, p1, p2, p3, p4];
    let s6 = seq![p0, p1, p2, p3, p4, p5];
    assert(s1.drop_last() =~= Seq::<(Seq<char>, Seq<char>)>::empty());
    assert(sort_by(Seq::<(Seq<char>, Seq<char>)>::empty(), lt) =~= Seq::<(Seq<char>, Seq<char>)>::empty());
    lemma_insert_sorted_at(Seq::<(Seq<char>, Seq<char>)>::empty(), p0, lt, 0);
    assert(Seq::<(Seq<char>, Seq<char>)>::empty().insert(0, p0) =~= seq![p0]);
    assert(sort_by(s1, lt) == seq![p0]);
    assert(s2.drop_last() =~= s1);
    lemma_insert_sorted_at(seq![p0], p1, lt, 0);
    assert(seq![p0].insert(0, p1) =~= seq![p1, p0]);
    assert(sort_by(s2, lt) == seq![p1, p0]);
    assert(s3.drop_last() =~= s2);
    lemma_insert_sorted_at(seq![p1, p0], p2, lt, 0);
    assert(seq![p1, p0].insert(0, p2) =~= seq![p2, p1, p0]);
    assert(sort_by(s3, lt) == seq![p2, p1, p0]);
    assert(s4.drop_last() =~= s3);
    lemma_insert_sorted_at(seq![p2, p1, p0], p3, lt, 1);
    assert(seq![p2, p1, p0].insert(1, p3) =~= seq![p2, p3, p1, p0]);
    assert(sort_by(s4, lt) == seq![p2, p3, p1, p0]);
    assert(s5.drop_last() =~= s4);
    lemma_insert_sorted_at(seq![p2, p3, p1, p0], p4, lt, 2);
    assert(seq![p2, p3, p1, p0].insert(2, p4) =~= seq![p2, p3, p4, p1, p0]);
    assert(sort_by(s5, lt) == seq![p2, p3, p4, p1, p0]);
    assert(s6.drop_last() =~= s5);
    lemma_insert_sorted_at(seq![p2, p3, p4, p1, p0], p5, lt, 2);
    assert(seq![p2, p3, p4, p1, p0].insert(2, p5) =~= seq![p2, p3, p5, p4, p1, p0]);
}

proof fn lemma_join3(a: Seq<char>, b: Seq<char>, c: Seq<char>)
    ensures
        join(seq![a, b, c]) == a + seq![','] + b + seq![','] + c,
{
    assert(seq![a, b, c].drop_last() =~= seq![a, b]);
    assert(seq![a, b].drop_last() =~= seq![a]);
    assert(join(seq![a]) == a);
    assert(join(seq![a, b]) == a + seq![','] + b);
    assert(join(seq![a, b, c]) == join(seq![a, b]) + seq![','] + c);
}

proof fn lemma_join6(a: Seq<char>, b: Seq<char>, c: Seq<char>, d: Seq<char>, e: Seq<char>, f: Seq<char>)
    ensures
        join(seq![a, b, c, d, e, f]) == a + seq![','] + b + seq![','] + c + seq![','] + d + seq![','] + e
            + seq![','] + f,
{
    assert(seq![a, b, c, d, e, f].drop_last() =~= seq![a, b, c, d, e]);
    assert(seq![a, b, c, d, e].drop_last() =~= seq![a, b, c, d]);
    assert(seq![a, b, c, d].drop_last() =~= seq![a, b, c]);
    lemma_join3(a, b, c);
    assert(join(seq![a, b, c, d]) == join(seq![a, b, c]) + seq![','] + d);
    assert(join(seq![a, b, c, d, e]) == join(seq![a, b, c, d]) + seq![','] + e);
    assert(join(seq![a, b, c, d, e, f]) == join(seq![a, b, c, d, e]) + seq![','] + f);
}

/// A member written as `"key":value`.
pub open spec fn member_text(p: (Seq<char>, Seq<char>)) -> Seq<char> {
    json_string(p.0) + seq![':'] + p.1
}

proof fn lemma_member_texts3(p0: (Seq<char>, Seq<char>), p1: (Seq<char>, Seq<char>), p2: (Seq<char>, Seq<char>))
    ensures
        member_texts(seq![p0, p1, p2]) == seq![member_text(p0), member_text(p1), member_text(p2)],
{
    assert(seq![p0, p1, p2].drop_last() =~= seq![p0, p1]);
    assert(seq![p0, p1].drop_last() =~= seq![p0]);
    assert(seq![p0].drop_last() =~= Seq::<(Seq<char>, Seq<char>)>::empty());
    assert(member_texts(Seq::<(Seq<char>, Seq<char>)>::empty()) =~= Seq::<Seq<char>>::empty());
    assert(seq![p0].last() == p0);
    assert(member_texts(seq![p0]) =~= seq![member_text(p0)]);
    assert(member_texts(seq![p0, p1]) =~= seq![member_text(p0), member_text(p1)]);
    assert(member_texts(seq![p0, p1, p2]) =~= seq![member_text(p0), member_text(p1), member_text(p2)]);
}

proof fn lemma_member_texts6(
    p0: (Seq<char>, Seq<char>),
    p1: (Seq<char>, Seq<char>),
    p2: (Seq<char>, Seq<char>),
    p3: (Seq<char>, Seq<char>),
    p4: (Seq<char>, Seq<char>),
    p5: (Seq<char>, Seq<char>),
)
    ensures
        member_texts(seq![p0, p1, p2, p3, p4, p5]) == seq![
            member_text(p0),
            member_text(p1),
            member_text(p2),
            member_text(p3),
            member_text(p4),
            member_text(p5),
        ],
{
    assert(seq![p0, p1, p2, p3, p4, p5].drop_last() =~= seq![p0, p1, p2, p3, p4]);
    assert(seq![p0, p1, p2, p3, p4].drop_last() =~= seq![p0, p1, p2, p3]);
    assert(seq![p0, p1, p2, p3].drop_last() =~= seq![p0, p1, p2]);
    lemma_member_texts3(p0, p1, p2);
    assert(member_texts(seq![p0, p1, p2, p3]) =~= seq![member_text(p0), member_text(p1), member_text(p2), member_text(p3)]);
    assert(member_texts(seq![p0, p1, p2, p3, p4]) =~= seq![
        member_text(p0),
        member_text(p1),
        member_text(p2),
        member_text(p3),
        member_text(p4),
    ]);
    assert(member_texts(seq![p0, p1, p2, p3, p4, p5]) =~= seq![
        member_text(p0),
        member_text(p1),
        member_text(p2),
        member_text(p3),
        member_text(p4),
        member_text(p5),
    ]);
}

/// An entry's JSON object has the entry's canonical text.
proof fn lemma_entry_json_canon(j: Json, e: (Seq<char>, Seq<char>, Seq<char>))
    requires
        entry_json(j, e),
    ensures
        canon(j) == Some(entry_canon(e)),
{
    match j {
        Json::Object(ms) => {
            let s = ms@;
            assert(canon(s[0].1) == Some(json_string(e.0)));
            assert(canon(s[1].1) == Some(json_string(e.1)));
            assert(canon(s[2].1) == Some(json_string(e.2)));
            assert forall|i: int| 0 <= i < s.len() implies canon((#[trigger] s[i]).1) is Some by {
                assert(i == 0 || i == 1 || i == 2);
            }
            lemma_canon_members_map(s);
            let pairs = s.map_values(|m: (String, Json)| crate::canon::member_pair(m));
            reveal_strlit("kind");
            reveal_strlit("key");
            reveal_strlit("blob");
            assert(pairs =~= seq![("kind"@, json_string(e.0)), ("key"@, json_string(e.1)), ("blob"@, json_string(e.2))]);
            lemma_entry_member_order(json_string(e.0), json_string(e.1), json_string(e.2));
            let q0 = ("blob"@, json_string(e.2));
            let q1 = ("key"@, json_string(e.1));
            let q2 = ("kind"@, json_string(e.0));
            lemma_member_texts3(q0, q1, q2);
            lemma_join3(member_text(q0), member_text(q1), member_text(q2));
            assert(forall|i: int| 0 <= i < "kind"@.len() ==> crate::canon::literal_char(#[trigger] "kind"@[i]));
            assert(forall|i: int| 0 <= i < "key"@.len() ==> crate::canon::literal_char(#[trigger] "key"@[i]));
            assert(forall|i: int| 0 <= i < "blob"@.len() ==> crate::canon::literal_char(#[trigger] "blob"@[i]));
            lemma_literal_chars_unescaped("kind"@);
            lemma_literal_chars_unescaped("key"@);
            lemma_literal_chars_unescaped("blob"@);
            reveal_strlit("{\"blob\":");
            reveal_strlit(",\"key\":");
            reveal_strlit(",\"kind\":");
            reveal_strlit("}");
            assert(entry_canon(e) =~= seq!['{'] + (member_text(q0) + seq![','] + member_text(q1) + seq![','] + member_text(q2)) + seq!['}']);
        },
        _ => {},
    }
}

proof fn lemma_items_strings(items: Seq<Json>, ps: Seq<String>)
    requires
        items.len() == ps.len(),
        forall|i: int| 0 <= i < ps.len() ==> string_json(#[trigger] items[i], ps[i]@),
    ensures
        canon_items(items) == Some(string_texts(ps)),
    decreases ps.len(),
{
    if ps.len() > 0 {
        let a = items.drop_last();
        let b = ps.drop_last();
        assert forall|i: int| 0 <= i < b.len() implies string_json(#[trigger] a[i], b[i]@) by {
            assert(a[i] == items[i]);
            assert(string_json(items[i], ps[i]@));
        }
        lemma_items_strings(a, b);
        assert(string_json(items[ps.len() - 1], ps[ps.len() - 1]@));
        assert(canon(items.last()) == Some(json_string(ps.last()@)));
    }
}

proof fn lemma_items_entries(items: Seq<Json>, es: Seq<(Seq<char>, Seq<char>, Seq<char>)>)
    requires
        items.len() == es.len(),
        forall|i: int| 0 <= i < es.len() ==> entry_json(#[trigger] items[i], es[i]),
    ensures
        canon_items(items) == Some(entry_texts(es)),
    decreases es.len(),
{
    if es.len() > 0 {
        let a = items.drop_last();
        let b = es.drop_last();
        assert forall|i: int| 0 <= i < b.len() implies entry_json(#[trigger] a[i], b[i]) by {
            assert(a[i] == items[i]);
            assert(entry_json(items[i], es[i]));
        }
        lemma_items_entries(a, b);
        assert(entry_json(items[es.len() - 1], es[es.len() - 1]));
        lemma_entry_json_canon(items.last(), es.last());
    }
}

/// What a manifest is as a JSON document: an object of `type`, `parents`,
/// `author`, `committedAt`, `message` and `entries`, each entry an object of
/// `kind`, `key` and `blob`.
pub open spec fn manifest_document(m: Manifest, r: Json) -> bool {
    r matches Json::Object(ms) && ms@.len() == 6
        && member_is(ms@[0], "type"@, |j: Json| string_json(j, m.type_@))
        && member_is(ms@[1], "parents"@, |j: Json| strings_json(j, crate::sync::strings_view(m.parents@)))
        && member_is(ms@[2], "author"@, |j: Json| string_json(j, m.author@))
        && member_is(ms@[3], "committedAt"@, |j: Json| string_json(j, m.committed_at@))
        && member_is(ms@[4], "message"@, |j: Json| string_json(j, m.message@))
        && member_is(ms@[5], "entries"@, |j: Json| entries_json(j, entries_view(m.entries@)))
}

/// The member texts of a manifest's canonical object, in key order.
pub open spec fn manifest_members(m: Manifest) -> Seq<(Seq<char>, Seq<char>)> {
    seq![
        ("author"@, json_string(m.author@)),
        ("committedAt"@, json_string(m.committed_at@)),
        ("entries"@, seq!['['] + join(entry_texts(entries_view(m.entries@))) + seq![']']),
        ("message"@, json_string(m.message@)),
        ("parents"@, seq!['['] + join(string_texts(m.parents@)) + seq![']']),
        ("type"@, json_string(m.type_@)),
    ]
}

proof fn lemma_manifest_members_canon(m: Manifest, j: Json)
    requires
        manifest_document(m, j),
    ensures
        j matches Json::Object(ms) && canon_members(ms@) == Some(
            seq![
                ("type"@, json_string(m.type_@)),
                ("parents"@, seq!['['] + join(string_texts(m.parents@)) + seq![']']),
                ("author"@, json_string(m.author@)),
                ("committedAt"@, json_string(m.committed_at@)),
                ("message"@, json_string(m.message@)),
                ("entries"@, seq!['['] + join(entry_texts(entries_view(m.entries@))) + seq![']']),
            ],
        ),
{
    match j {
        Json::Object(ms) => {
            let s = ms@;
            let pv = crate::sync::strings_view(m.parents@);
            let ev = entries_view(m.entries@);
            let tp = seq!['['] + join(string_texts(m.parents@)) + seq![']'];
            let te = seq!['['] + join(entry_texts(ev)) + seq![']'];
            match s[1].1 {
                Json::Array(items) => {
                    assert(strings_json(s[1].1, pv));
                    assert forall|i: int| 0 <= i < m.parents@.len() implies string_json(
                        #[trigger] items@[i],
                        m.parents@[i]@,
                    ) by {
                        assert(string_json(items@[i], pv[i]));
                    }
                    lemma_items_strings(items@, m.parents@);
                },
                _ => {},
            }
            match s[5].1 {
                Json::Array(items) => {
                    assert(entries_json(s[5].1, ev));
                    assert forall|i: int| 0 <= i < ev.len() implies entry_json(#[trigger] items@[i], ev[i]) by {
                        assert(entry_json(items@[i], ev[i]));
                    }
                    lemma_items_entries(items@, ev);
                },
                _ => {},
            }
            assert(canon(s[0].1) == Some(json_string(m.type_@)));
            assert(canon(s[1].1) == Some(tp));
            assert(canon(s[2].1) == Some(json_string(m.author@)));
            assert(canon(s[3].1) == Some(json_string(m.committed_at@)));
            assert(canon(s[4].1) == Some(json_string(m.message@)));
            assert(canon(s[5].1) == Some(te));
            assert forall|i: int| 0 <= i < s.len() implies canon((#[trigger] s[i]).1) is Some by {
                assert(i == 0 || i == 1 || i == 2 || i == 3 || i == 4 || i == 5);
            }
            lemma_canon_members_map(s);
            let pairs = s.map_values(|x: (String, Json)| crate::canon::member_pair(x));
            assert(pairs =~= seq![
                ("type"@, json_string(m.type_@)),
                ("parents"@, tp),
                ("author"@, json_string(m.author@)),
                ("committedAt"@, json_string(m.committed_at@)),
                ("message"@, json_string(m.message@)),
                ("entries"@, te),
            ]);
        },
        _ => {},
    }
}

proof fn lemma_key_member_text(k: Seq<char>, v: Seq<char>)
    requires
        forall|i: int| 0 <= i < k.len() ==> crate::canon::literal_char(#[trigger] k[i]),
    ensures
        member_text((k, v)) == quoted_member(k, v),
{
    lemma_literal_chars_unescaped(k);
    assert(member_text((k, v)) =~= quoted_member(k, v));
}

proof fn lemma_manifest_literals()
    ensures
        "{\"author\":"@ == seq!['{', '"'] + "author"@ + seq!['"', ':'],
        ",\"committedAt\":"@ == seq![',', '"'] + "committedAt"@ + seq!['"', ':'],
        ",\"entries\":["@ == seq![',', '"'] + "entries"@ + seq!['"', ':', '['],
        "],\"message\":"@ == seq![']', ',', '"'] + "message"@ + seq!['"', ':'],
        ",\"parents\":["@ == seq![',', '"'] + "parents"@ + seq!['"', ':', '['],
        "],\"type\":"@ == seq![']', ',', '"'] + "type"@ + seq!['"', ':'],
        "}"@ == seq!['}'],
        forall|i: int| 0 <= i < "type"@.len() ==> crate::canon::literal_char(#[trigger] "type"@[i]),
        forall|i: int| 0 <= i < "parents"@.len() ==> crate::canon::literal_char(#[trigger] "parents"@[i]),
        forall|i: int| 0 <= i < "author"@.len() ==> crate::canon::literal_char(#[trigger] "author"@[i]),
        forall|i: int| 0 <= i < "committedAt"@.len() ==> crate::canon::literal_char(#[trigger] "committedAt"@[i]),
        forall|i: int| 0 <= i < "message"@.len() ==> crate::canon::literal_char(#[trigger] "message"@[i]),
        forall|i: int| 0 <= i < "entries"@.len() ==> crate::canon::literal_char(#[trigger] "entries"@[i]),
{
    reveal_strlit("type");
    reveal_strlit("parents");
    reveal_strlit("author");
    reveal_strlit("committedAt");
    reveal_strlit("message");
    reveal_strlit("entries");
    reveal_strlit("{\"author\":");
    reveal_strlit(",\"committedAt\":");
    reveal_strlit(",\"entries\":[");
    reveal_strlit("],\"message\":");
    reveal_strlit(",\"parents\":[");
    reveal_strlit("],\"type\":");
    reveal_strlit("}");
    assert("{\"author\":"@ =~= seq!['{', '"'] + "author"@ + seq!['"', ':']);
    assert(",\"committedAt\":"@ =~= seq![',', '"'] + "committedAt"@ + seq!['"', ':']);
    assert(",\"entries\":["@ =~= seq![',', '"'] + "entries"@ + seq!['"', ':', '[']);
    assert("],\"message\":"@ =~= seq![']', ',', '"'] + "message"@ + seq!['"', ':']);
    assert(",\"parents\":["@ =~= seq![',', '"'] + "parents"@ + seq!['"', ':', '[']);
    assert("],\"type\":"@ =~= seq![']', ',', '"'] + "type"@ + seq!['"', ':']);
    assert("}"@ =~= seq!['}']);
}

/// `"key":value`, spelled out.
pub open spec fn quoted_member(k: Seq<char>, v: Seq<char>) -> Seq<char> {
    seq!['"'] + k + seq!['"', ':'] + v
}

/// Six members joined in an object, regrouped around the members' values.
proof fn lemma_object_regroup(
    ka: Seq<char>,
    kc: Seq<char>,
    ke: Seq<char>,
    km: Seq<char>,
    kp: Seq<char>,
    kt: Seq<char>,
    a: Seq<char>,
    c: Seq<char>,
    je: Seq<char>,
    g: Seq<char>,
    jp: Seq<char>,
    t: Seq<char>,
)
    ensures
        seq!['{'] + (quoted_member(ka, a) + seq![','] + quoted_member(kc, c) + seq![','] + quoted_member(
            ke,
            seq!['['] + je + seq![']'],
        ) + seq![','] + quoted_member(km, g) + seq![','] + quoted_member(kp, seq!['['] + jp + seq![']'])
            + seq![','] + quoted_member(kt, t)) + seq!['}'] == (seq!['{', '"'] + ka + seq!['"', ':']) + a + (
        seq![',', '"'] + kc + seq!['"', ':']) + c + (seq![',', '"'] + ke + seq!['"', ':', '[']) + je + (seq![
            ']',
            ',',
            '"',
        ] + km + seq!['"', ':']) + g + (seq![',', '"'] + kp + seq!['"', ':', '[']) + jp + (seq![']', ',', '"']
            + kt + seq!['"', ':']) + t + seq!['}'],
{
    let mt0 = quoted_member(ka, a);
    let mt1 = quoted_member(kc, c);
    let mt2 = quoted_member(ke, seq!['['] + je + seq![']']);
    let mt3 = quoted_member(km, g);
    let mt4 = quoted_member(kp, seq!['['] + jp + seq![']']);
    let mt5 = quoted_member(kt, t);
    let l0 = seq!['{', '"'] + ka + seq!['"', ':'];
    let l1 = seq![',', '"'] + kc + seq!['"', ':'];
    let l2 = seq![',', '"'] + ke + seq!['"', ':', '['];
    let l3 = seq![']', ',', '"'] + km + seq!['"', ':'];
    let l4 = seq![',', '"'] + kp + seq!['"', ':', '['];
    let l5 = seq![']', ',', '"'] + kt + seq!['"', ':'];
    let e = Seq::<char>::empty();
    let b = seq![']'];
    let u1 = mt0;
    let u2 = u1 + seq![','] + mt1;
    let u3 = u2 + seq![','] + mt2;
    let u4 = u3 + seq![','] + mt3;
    let u5 = u4 + seq![','] + mt4;
    let u6 = u5 + seq![','] + mt5;
    let r1 = l0 + a;
    let r2 = r1 + l1 + c;
    let r3 = r2 + l2 + je;
    let r4 = r3 + l3 + g;
    let r5 = r4 + l4 + jp;
    let r6 = r5 + l5 + t;
    assert(seq!['{'] + u1 =~= r1 + e);
    assert(e + (seq![','] + mt1) =~= l1 + c + e);
    lemma_regroup_step(seq!['{'], u1, mt1, r1, e, l1, c, e);
    assert(e + (seq![','] + mt2) =~= l2 + je + b);
    lemma_regroup_step(seq!['{'], u2, mt2, r2, e, l2, je, b);
    assert(b + (seq![','] + mt3) =~= l3 + g + e);
    lemma_regroup_step(seq!['{'], u3, mt3, r3, b, l3, g, e);
    assert(e + (seq![','] + mt4) =~= l4 + jp + b);
    lemma_regroup_step(seq!['{'], u4, mt4, r4, e, l4, jp, b);
    assert(b + (seq![','] + mt5) =~= l5 + t + e);
    lemma_regroup_step(seq!['{'], u5, mt5, r5, b, l5, t, e);
    assert(r6 + e =~= r6);
    assert(seq!['{'] + u6 + seq!['}'] == r6 + seq!['}']);
}

proof fn lemma_regroup_step(
    x: Seq<char>,
    u: Seq<char>,
    mt: Seq<char>,
    r: Seq<char>,
    e: Seq<char>,
    l: Seq<char>,
    v: Seq<char>,
    e2: Seq<char>,
)
    requires
        x + u == r + e,
        e + (seq![','] + mt) == l + v + e2,
    ensures
        x + (u + seq![','] + mt) == r + l + v + e2,
{
    assert(x + (u + seq![','] + mt) =~= (x + u) + (seq![','] + mt));
    assert((r + e) + (seq![','] + mt) =~= r + (e + (seq![','] + mt)));
    assert(r + (l + v + e2) =~= r + l + v + e2);
}

/// A manifest's canonical text is its object with the members in key order.
proof fn lemma_manifest_text(m: Manifest)
    ensures
        manifest_canon(m) == seq!['{'] + join(member_texts(manifest_members(m))) + seq!['}'],
{
    let q = manifest_members(m);
    lemma_member_texts6(q[0], q[1], q[2], q[3], q[4], q[5]);
    assert(q =~= seq![q[0], q[1], q[2], q[3], q[4], q[5]]);
    lemma_join6(member_text(q[0]), member_text(q[1]), member_text(q[2]), member_text(q[3]), member_text(q[4]), member_text(q[5]));
    lemma_manifest_literals();
    let a = json_string(m.author@);
    let c = json_string(m.committed_at@);
    let je = join(entry_texts(entries_view(m.entries@)));
    let g = json_string(m.message@);
    let jp = join(string_texts(m.parents@));
    let t = json_string(m.type_@);
    lemma_key_member_text("author"@, a);
    lemma_key_member_text("committedAt"@, c);
    lemma_key_member_text("entries"@, seq!['['] + je + seq![']']);
    lemma_key_member_text("message"@, g);
    lemma_key_member_text("parents"@, seq!['['] + jp + seq![']']);
    lemma_key_member_text("type"@, t);
    lemma_object_regroup("author"@, "committedAt"@, "entries"@, "message"@, "parents"@, "type"@, a, c, je, g, jp, t);
}

/// The commit id is the content hash of the manifest document: the canonical
/// JSON of the document holding a manifest, every parent and every entry
/// included, is the text that is hashed into the commit id.
pub proof fn lemma_manifest_document_canon(m: Manifest, j: Json)
    requires
        manifest_document(m, j),
    ensures
        canon(j) == Some(manifest_canon(m)),
{
    lemma_manifest_members_canon(m, j);
    lemma_manifest_member_order(
        json_string(m.type_@),
        seq!['['] + join(string_texts(m.parents@)) + seq![']'],
        json_string(m.author@),
        json_string(m.committed_at@),
        json_string(m.message@),
        seq!['['] + join(entry_texts(entries_view(m.entries@))) + seq![']'],
    );
    lemma_manifest_text(m);
}

proof fn lemma_entry_texts_len(s: Seq<(Seq<char>, Seq<char>, Seq<char>)>)
    ensures
        entry_texts(s).len() == s.len(),
    decreases s.len(),
{
    if s.len() > 0 {
        lemma_entry_texts_len(s.drop_last());
    }
}

proof fn lemma_string_texts_len(s: Seq<String>)
    ensures
        string_texts(s).len() == s.len(),
    decreases s.len(),
{
    if s.len() > 0 {
        lemma_string_texts_len(s.drop_last());
    }
}

/// The order in which entries are given does not change the manifest, and so
/// not the commit id, as long as no `(kind, key)` occurs twice.
pub proof fn lemma_entry_order_irrelevant(a: Seq<ManifestEntry>, b: Seq<ManifestEntry>)
    requires
        entries_view(a).to_multiset() == entries_view(b).to_multiset(),
        forall|i: int, j: int|
            0 <= i < j < a.len() ==> !((#[trigger] a[i]).kind@ == (#[trigger] a[j]).kind@
                && a[i].key@ == a[j].key@),
    ensures
        sort_by(entries_view(a), entry_lt()) == sort_by(entries_view(b), entry_lt()),
{
    let va = entries_view(a);
    let lt = entry_lt();
    assert forall|p: (Seq<char>, Seq<char>, Seq<char>)| #[trigger] va.contains(p) implies !lt(
        p,
        p,
    ) by {
        lemma_chars_lt_irreflexive(p.0);
        lemma_chars_lt_irreflexive(p.1);
    }
    assert forall|
        p: (Seq<char>, Seq<char>, Seq<char>),
        q: (Seq<char>, Seq<char>, Seq<char>),
        r: (Seq<char>, Seq<char>, Seq<char>),
    |
        va.contains(p) && va.contains(q) && va.contains(r) && #[trigger] lt(p, q) && #[trigger] lt(
            q,
            r,
        ) implies lt(p, r) by {
        if chars_lt(p.0, q.0) && chars_lt(q.0, r.0) {
            lemma_chars_lt_trans(p.0, q.0, r.0);
        } else if chars_lt(p.1, q.1) && chars_lt(q.1, r.1) {
            lemma_chars_lt_trans(p.1, q.1, r.1);
        }
    }
    assert forall|p: (Seq<char>, Seq<char>, Seq<char>), q: (Seq<char>, Seq<char>, Seq<char>)|
        #[trigger] va.contains(p) && #[trigger] va.contains(q) implies p == q || lt(p, q) || lt(
            q,
            p,
        ) by {
        let i = choose|i: int| 0 <= i < va.len() && va[i] == p;
        let j = choose|j: int| 0 <= j < va.len() && va[j] == q;
        lemma_chars_lt_total(p.0, q.0);
        lemma_chars_lt_total(p.1, q.1);
        if i != j {
            if i < j {
                assert(!(a[i].kind@ == a[j].kind@ && a[i].key@ == a[j].key@));
            } else {
                assert(!(a[j].kind@ == a[i].kind@ && a[j].key@ == a[i].key@));
            }
        }
    }
    lemma_sort_by_permutation(va, entries_view(b), lt);
}

} // verus!
