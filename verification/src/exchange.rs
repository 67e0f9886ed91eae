//! Importing documents into a revision.
//!
//! The flat interchange document (one revision, no history) is read and
//! written by the program around this library; what is decided here is how
//! an import combines with what a file already holds: incoming documents win,
//! and the import reports how many it added, replaced and left unchanged.

use vstd::prelude::*;
use crate::docmap::{lookup, strictly_sorted, DocMap, lemma_lookup_at};
use crate::text::{chars_lt, lemma_chars_lt_irreflexive};

verus! {

#[derive(Debug, Clone, Copy, PartialEq, Eq, Structural)]
pub struct MergeCounts {
    pub added: usize,
    pub replaced: usize,
    pub unchanged: usize,
}

#[derive(Debug, Clone, Copy, PartialEq, Eq, Structural)]
pub struct MergeReport {
    pub materials: MergeCounts,
    pub models: MergeCounts,
}

impl MergeCounts {
    pub fn new() -> (r: MergeCounts)
        ensures
            r.added == 0 && r.replaced == 0 && r.unchanged == 0,
    {
        MergeCounts { added: 0, replaced: 0, unchanged: 0 }
    }
}

impl MergeReport {
    pub fn new() -> (r: MergeReport)
        ensures
            r.materials.added == 0 && r.materials.replaced == 0 && r.materials.unchanged == 0,
            r.models.added == 0 && r.models.replaced == 0 && r.models.unchanged == 0,
    {
        MergeReport { materials: MergeCounts::new(), models: MergeCounts::new() }
    }
}

/// How many incoming keys the base lacks.
pub open spec fn added_count(base: Seq<(Seq<char>, Seq<char>)>, inc: Seq<(Seq<char>, Seq<char>)>) -> nat
    decreases inc.len(),
{
    if inc.len() == 0 {
        0
    } else {
        added_count(base, inc.drop_last()) + if lookup(base, inc.last().0) is None {
            1nat
        } else {
            0nat
        }
    }
}

/// How many incoming keys the base holds with different content.
pub open spec fn replaced_count(base: Seq<(Seq<char>, Seq<char>)>, inc: Seq<(Seq<char>, Seq<char>)>) -> nat
    decreases inc.len(),
{
    if inc.len() == 0 {
        0
    } else {
        replaced_count(base, inc.drop_last()) + match lookup(base, inc.last().0) {
            Some(v) => if v != inc.last().1 {
                1nat
            } else {
                0nat
            },
            None => 0nat,
        }
    }
}

/// How many incoming keys the base already holds with the same content.
pub open spec fn unchanged_count(base: Seq<(Seq<char>, Seq<char>)>, inc: Seq<(Seq<char>, Seq<char>)>) -> nat
    decreases inc.len(),
{
    if inc.len() == 0 {
        0
    } else {
        unchanged_count(base, inc.drop_last()) + if lookup(base, inc.last().0) == Some(inc.last().1) {
            1nat
        } else {
            0nat
        }
    }
}

/// Merges `incoming` into `base`, incoming winning on conflicts, and counts
/// what happened to each incoming document.
pub fn merge_map(base: &mut DocMap, incoming: &DocMap, counts: &mut MergeCounts)
    requires
        old(counts).added + old(counts).replaced + old(counts).unchanged + incoming.pairs().len() <= usize::MAX,
    ensures
        forall|k: Seq<char>|
            lookup(final(base).pairs(), k) == match lookup(incoming.pairs(), k) {
                Some(v) => Some(v),
                None => lookup(old(base).pairs(), k),
            },
        final(counts).added == old(counts).added + added_count(old(base).pairs(), incoming.pairs()),
        final(counts).replaced == old(counts).replaced + replaced_count(old(base).pairs(), incoming.pairs()),
        final(counts).unchanged == old(counts).unchanged + unchanged_count(old(base).pairs(), incoming.pairs()),
{
    let ghost b0 = base.pairs();
    let ghost inc = incoming.pairs();
    let n = incoming.len();
    let mut i: usize = 0;
    while i < n
        invariant
            i <= n == inc.len(),
            inc == incoming.pairs(),
            strictly_sorted(inc),
            b0 == old(base).pairs(),
            forall|k: Seq<char>|
                lookup(base.pairs(), k) == if (exists|x: int| 0 <= x < i && #[trigger] inc[x].0 == k) {
                    lookup(inc, k)
                } else {
                    lookup(b0, k)
                },
            counts.added == old(counts).added + added_count(b0, inc.take(i as int)),
            counts.replaced == old(counts).replaced + replaced_count(b0, inc.take(i as int)),
            counts.unchanged == old(counts).unchanged + unchanged_count(b0, inc.take(i as int)),
            counts.added + counts.replaced + counts.unchanged + (n - i) <= usize::MAX,
        decreases n - i,
    {
        let key = incoming.key_at(i);
        let id = incoming.id_at(i);
        let ghost k = key@;
        proof {
            lemma_lookup_at(inc, i as int);
            assert(!(exists|x: int| 0 <= x < i && #[trigger] inc[x].0 == k)) by {
                if exists|x: int| 0 <= x < i && #[trigger] inc[x].0 == k {
                    let x = choose|x: int| 0 <= x < i && #[trigger] inc[x].0 == k;
                    assert(chars_lt(inc[x].0, inc[i as int].0));
                    lemma_chars_lt_irreflexive(k);
                }
            }
            assert(lookup(base.pairs(), k) == lookup(b0, k));
            let p = inc.take(i + 1);
            assert(p.drop_last() =~= inc.take(i as int));
            assert(p.last() == inc[i as int]);
        }
        let current = match base.get(key.as_str()) {
            Some(v) => Some(crate::text::copy_string(v)),
            None => None,
        };
        match current {
            Some(existing) => {
                if crate::text::same_text(existing.as_str(), id.as_str()) {
                    counts.unchanged = counts.unchanged + 1;
                } else {
                    counts.replaced = counts.replaced + 1;
                    base.insert(key.as_str(), id.as_str());
                }
            },
            None => {
                counts.added = counts.added + 1;
                base.insert(key.as_str(), id.as_str());
            },
        }
        proof {
            assert forall|kk: Seq<char>|
                lookup(base.pairs(), kk) == if (exists|x: int| 0 <= x < i + 1 && #[trigger] inc[x].0 == kk) {
                    lookup(inc, kk)
                } else {
                    lookup(b0, kk)
                } by {
                if kk != k {
                    if exists|x: int| 0 <= x < i + 1 && #[trigger] inc[x].0 == kk {
                        let x = choose|x: int| 0 <= x < i + 1 && #[trigger] inc[x].0 == kk;
                        assert(x < i);
                    }
                    if exists|x: int| 0 <= x < i && #[trigger] inc[x].0 == kk {
                        let x = choose|x: int| 0 <= x < i && #[trigger] inc[x].0 == kk;
                        assert(0 <= x < i + 1 && inc[x].0 == kk);
                    }
                } else {
                    assert(0 <= i < i + 1 && inc[i as int].0 == kk);
                }
            }
        }
        i = i + 1;
    }
    proof {
        assert(inc.take(n as int) =~= inc);
        assert forall|k: Seq<char>|
            lookup(base.pairs(), k) == match lookup(inc, k) {
                Some(v) => Some(v),
                None => lookup(b0, k),
            } by {
            if exists|x: int| 0 <= x < n && #[trigger] inc[x].0 == k {
                let x = choose|x: int| 0 <= x < n && #[trigger] inc[x].0 == k;
                lemma_lookup_at(inc, x);
            }
        }
    }
}

} // verus!
