//! Maps from document keys to content ids.
//!
//! Every document of a revision (a model, a material) is named by a stable
//! key, and its content is named by the hash of its canonical form. Two
//! documents are the same exactly when their content ids are, so comparing,
//! diffing and merging revisions is done on these maps.

use vstd::prelude::*;
use crate::text::{chars_lt, copy_string, lemma_chars_lt_total, lemma_chars_lt_trans, lemma_chars_lt_irreflexive, same_text, text_lt};

verus! {

/// Key/value pairs by their views.
pub open spec fn pair_seq(v: Seq<(String, String)>) -> Seq<(Seq<char>, Seq<char>)> {
    v.map_values(|p: (String, String)| (p.0@, p.1@))
}

/// Keys strictly increasing: no key twice, in the order a `BTreeMap` walks.
pub open spec fn strictly_sorted(s: Seq<(Seq<char>, Seq<char>)>) -> bool {
    forall|i: int, j: int| 0 <= i < j < s.len() ==> chars_lt(#[trigger] s[i].0, #[trigger] s[j].0)
}

/// The value stored under `k`.
pub open spec fn lookup(s: Seq<(Seq<char>, Seq<char>)>, k: Seq<char>) -> Option<Seq<char>> {
    if exists|i: int| 0 <= i < s.len() && #[trigger] s[i].0 == k {
        Some(s[choose|i: int| 0 <= i < s.len() && #[trigger] s[i].0 == k].1)
    } else {
        None
    }
}

/// Lookup at a position of a strictly sorted sequence finds that position.
pub proof fn lemma_lookup_at(s: Seq<(Seq<char>, Seq<char>)>, i: int)
    requires
        strictly_sorted(s),
        0 <= i < s.len(),
    ensures
        lookup(s, s[i].0) == Some(s[i].1),
{
    let k = s[i].0;
    assert(0 <= i < s.len() && s[i].0 == k);
    let j = choose|j: int| 0 <= j < s.len() && #[trigger] s[j].0 == k;
    lemma_chars_lt_irreflexive(k);
    if j < i {
        assert(chars_lt(s[j].0, s[i].0));
    } else if j > i {
        assert(chars_lt(s[i].0, s[j].0));
    }
    assert(j == i);
    assert(lookup(s, k) == Some(s[j].1));
}

/// A document map: each key at most once, keys in increasing order.
pub struct DocMap {
    entries: Vec<(String, String)>,
}

impl DocMap {
    #[verifier::type_invariant]
    spec fn keys_sorted(self) -> bool {
        strictly_sorted(pair_seq(self.entries@))
    }

    /// The key/id pairs, in increasing key order.
    pub closed spec fn pairs(self) -> Seq<(Seq<char>, Seq<char>)> {
        pair_seq(self.entries@)
    }

    /// An empty map.
    pub fn new() -> (r: DocMap)
        ensures
            r.pairs() == Seq::<(Seq<char>, Seq<char>)>::empty(),
    {
        let r = DocMap { entries: Vec::new() };
        assert(r.pairs() =~= Seq::<(Seq<char>, Seq<char>)>::empty());
        r
    }

    /// The number of keys. (Its contract also tells a caller that the keys
    /// are in increasing order.)
    pub fn len(&self) -> (n: usize)
        ensures
            n == self.pairs().len(),
            strictly_sorted(self.pairs()),
    {
        proof {
            use_type_invariant(self);
        }
        self.entries.len()
    }

    pub fn is_empty(&self) -> (r: bool)
        ensures
            r == (self.pairs().len() == 0),
    {
        self.entries.len() == 0
    }

    /// The key at position `i`.
    pub fn key_at(&self, i: usize) -> (k: &String)
        requires
            i < self.pairs().len(),
        ensures
            k@ == self.pairs()[i as int].0,
    {
        &self.entries[i].0
    }

    /// The content id at position `i`.
    pub fn id_at(&self, i: usize) -> (v: &String)
        requires
            i < self.pairs().len(),
        ensures
            v@ == self.pairs()[i as int].1,
    {
        &self.entries[i].1
    }

    /// The content id stored under `key`.
    pub fn get(&self, key: &str) -> (r: Option<&String>)
        ensures
            match r {
                Some(v) => lookup(self.pairs(), key@) == Some(v@),
                None => lookup(self.pairs(), key@) is None,
            },
    {
        proof {
            use_type_invariant(self);
        }
        let mut i: usize = 0;
        while i < self.entries.len()
            invariant
                i <= self.entries@.len(),
                strictly_sorted(self.pairs()),
                forall|j: int| 0 <= j < i ==> (#[trigger] self.pairs()[j]).0 != key@,
            decreases self.entries@.len() - i,
        {
            if same_text(self.entries[i].0.as_str(), key) {
                proof {
                    lemma_lookup_at(self.pairs(), i as int);
                }
                return Some(&self.entries[i].1);
            }
            i = i + 1;
        }
        None
    }

    /// Whether `key` is present.
    pub fn contains_key(&self, key: &str) -> (r: bool)
        ensures
            r == (lookup(self.pairs(), key@) is Some),
    {
        self.get(key).is_some()
    }

    /// Stores `id` under `key`, replacing what was there.
    pub fn insert(&mut self, key: &str, id: &str)
        ensures
            forall|k: Seq<char>|
                lookup(final(self).pairs(), k) == if k == key@ {
                    Some(id@)
                } else {
                    lookup(old(self).pairs(), k)
                },
            final(self).pairs().len() == old(self).pairs().len() + if lookup(
                old(self).pairs(),
                key@,
            ) is Some {
                0int
            } else {
                1int
            },
    {
        proof {
            use_type_invariant(&*self);
        }
        let ghost s = self.pairs();
        let mut j: usize = 0;
        while j < self.entries.len() && text_lt(self.entries[j].0.as_str(), key)
            invariant
                j <= self.entries@.len(),
                s == pair_seq(self.entries@),
                strictly_sorted(s),
                forall|k: int| 0 <= k < j ==> chars_lt(#[trigger] s[k].0, key@),
            decreases self.entries@.len() - j,
        {
            j = j + 1;
        }
        let present = j < self.entries.len() && same_text(self.entries[j].0.as_str(), key);
        let ghost ks = key@;
        proof {
            lemma_chars_lt_irreflexive(ks);
            assert forall|k: int| j <= k < s.len() implies !chars_lt(#[trigger] s[k].0, ks) by {
                if j < k {
                    assert(chars_lt(s[j as int].0, s[k].0));
                    lemma_chars_lt_total(s[k].0, ks);
                    if chars_lt(s[k].0, ks) {
                        lemma_chars_lt_trans(s[j as int].0, s[k].0, ks);
                    }
                }
            }
        }
        let mut v: Vec<(String, String)> = Vec::new();
        std::mem::swap(&mut v, &mut self.entries);
        if present {
            let k0 = copy_string(&v[j].0);
            v.set(j, (k0, id.to_owned()));
            assert(pair_seq(v@) =~= s.update(j as int, (ks, id@)));
            assert forall|a: int, b: int| 0 <= a < b < pair_seq(v@).len() implies chars_lt(
                #[trigger] pair_seq(v@)[a].0,
                #[trigger] pair_seq(v@)[b].0,
            ) by {
                assert(pair_seq(v@)[a].0 == s[a].0);
                assert(pair_seq(v@)[b].0 == s[b].0);
            }
            self.entries = v;
            proof {
                let t = self.pairs();
                assert(t =~= s.update(j as int, (ks, id@)));
                assert forall|k: Seq<char>| lookup(t, k) == if k == ks {
                    Some(id@)
                } else {
                    lookup(s, k)
                } by {
                    lemma_lookup_at(t, j as int);
                    if k != ks {
                        if exists|i: int| 0 <= i < s.len() && #[trigger] s[i].0 == k {
                            let i = choose|i: int| 0 <= i < s.len() && #[trigger] s[i].0 == k;
                            lemma_lookup_at(s, i);
                            lemma_lookup_at(t, i);
                        } else {
                            assert(!exists|i: int| 0 <= i < t.len() && #[trigger] t[i].0 == k) by {
                                if exists|i: int| 0 <= i < t.len() && #[trigger] t[i].0 == k {
                                    let i = choose|i: int| 0 <= i < t.len() && #[trigger] t[i].0 == k;
                                    assert(s[i].0 == k);
                                }
                            }
                        }
                    }
                }
                lemma_lookup_at(s, j as int);
            }
        } else {
            v.insert(j, (key.to_owned(), id.to_owned()));
            proof {
                let t = pair_seq(v@);
                assert(t =~= s.insert(j as int, (ks, id@)));
                assert forall|a: int, b: int| 0 <= a < b < t.len() implies chars_lt(
                    #[trigger] t[a].0,
                    #[trigger] t[b].0,
                ) by {
                    if b == j {
                        assert(chars_lt(s[a].0, ks));
                    } else if a == j {
                        assert(t[b] == s[b - 1]);
                        lemma_chars_lt_total(s[b - 1].0, ks);
                        assert(!chars_lt(s[j as int].0, ks));
                        assert(s[j as int].0 != ks);
                        if b - 1 > j {
                            assert(chars_lt(s[j as int].0, s[b - 1].0));
                        }
                        assert(s[b - 1].0 != ks);
                    } else if a < j && b > j {
                        assert(t[b] == s[b - 1]);
                    } else if a > j {
                        assert(t[a] == s[a - 1]);
                        assert(t[b] == s[b - 1]);
                    }
                }
            }
            self.entries = v;
            proof {
                let t = self.pairs();
                assert forall|k: Seq<char>| lookup(t, k) == if k == ks {
                    Some(id@)
                } else {
                    lookup(s, k)
                } by {
                    lemma_lookup_at(t, j as int);
                    if k != ks {
                        if exists|i: int| 0 <= i < s.len() && #[trigger] s[i].0 == k {
                            let i = choose|i: int| 0 <= i < s.len() && #[trigger] s[i].0 == k;
                            lemma_lookup_at(s, i);
                            if i < j {
                                lemma_lookup_at(t, i);
                            } else {
                                assert(t[i + 1] == s[i]);
                                lemma_lookup_at(t, i + 1);
                            }
                        } else {
                            assert(!exists|i: int| 0 <= i < t.len() && #[trigger] t[i].0 == k) by {
                                if exists|i: int| 0 <= i < t.len() && #[trigger] t[i].0 == k {
                                    let i = choose|i: int| 0 <= i < t.len() && #[trigger] t[i].0 == k;
                                    if i < j {
                                        assert(s[i].0 == k);
                                    } else if i > j {
                                        assert(s[i - 1].0 == k);
                                    }
                                }
                            }
                        }
                    }
                }
                assert(lookup(s, ks) is None) by {
                    if exists|i: int| 0 <= i < s.len() && #[trigger] s[i].0 == ks {
                        let i = choose|i: int| 0 <= i < s.len() && #[trigger] s[i].0 == ks;
                        if i < j {
                            assert(chars_lt(s[i].0, ks));
                        } else if i > j {
                            assert(chars_lt(s[j as int].0, s[i].0));
                            assert(!chars_lt(s[j as int].0, ks));
                            lemma_chars_lt_total(s[j as int].0, ks);
                        }
                    }
                }
            }
        }
    }

    /// The keys, in increasing order.
    pub fn keys(&self) -> (r: Vec<String>)
        ensures
            r@.len() == self.pairs().len(),
            forall|i: int| 0 <= i < r@.len() ==> (#[trigger] r@[i])@ == self.pairs()[i].0,
            strictly_sorted(self.pairs()),
    {
        proof {
            use_type_invariant(self);
        }
        let mut r: Vec<String> = Vec::new();
        let mut i: usize = 0;
        while i < self.entries.len()
            invariant
                i <= self.entries@.len(),
                r@.len() == i,
                forall|q: int| 0 <= q < i ==> (#[trigger] r@[q])@ == self.pairs()[q].0,
            decreases self.entries@.len() - i,
        {
            r.push(copy_string(&self.entries[i].0));
            i = i + 1;
        }
        r
    }
}

} // verus!
