//! A memo of solved linear MBAs for one caller, and the counters it
//! reports.
use vstd::prelude::*;
use crate::expr::{Expr, Term, clone_expr};
use crate::order::expr_equal;

verus! {

/// How a cache has performed.
#[derive(Debug, Clone, Copy, PartialEq, Eq)]
pub struct CacheStats {
    pub hits: u64,
    pub misses: u64,
    /// Distinct linear MBAs currently memoized.
    pub entries: usize,
}

impl Default for CacheStats {
    /// No lookups and no entries.
    fn default() -> (r: Self)
        ensures
            r.hits == 0 && r.misses == 0 && r.entries == 0,
    {
        CacheStats { hits: 0, misses: 0, entries: 0 }
    }
}

/// The memo of a list of (expression, solution) pairs whose expressions
/// differ: each expression's model maps to its solution's.
pub open spec fn memo_of(entries: Seq<(Expr, Expr)>) -> Map<Term, Term>
    decreases entries.len(),
{
    if entries.len() == 0 {
        Map::empty()
    } else {
        memo_of(entries.drop_last()).insert(entries.last().0@, entries.last().1@)
    }
}

/// No two entries have the same expression.
pub open spec fn keys_distinct(entries: Seq<(Expr, Expr)>) -> bool {
    forall|i: int, j: int| 0 <= i < j < entries.len() ==> entries[i].0@ != entries[j].0@
}

/// The memo holds exactly the expressions of the entries, each with its
/// entry's solution, and has as many keys as there are entries.
proof fn lemma_memo_of(entries: Seq<(Expr, Expr)>)
    requires
        keys_distinct(entries),
    ensures
        forall|k: Term| #[trigger] memo_of(entries).contains_key(k) <==> exists|i: int|
            0 <= i < entries.len() && entries[i].0@ == k,
        forall|i: int| 0 <= i < entries.len() ==> #[trigger] memo_of(entries)[entries[i].0@] == entries[i].1@,
        memo_of(entries).dom().finite(),
        memo_of(entries).len() == entries.len(),
    decreases entries.len(),
{
    if entries.len() > 0 {
        let pre = entries.drop_last();
        assert(keys_distinct(pre));
        lemma_memo_of(pre);
        let last = entries.last();
        assert(!memo_of(pre).contains_key(last.0@)) by {
            if memo_of(pre).contains_key(last.0@) {
                let i = choose|i: int| 0 <= i < pre.len() && pre[i].0@ == last.0@;
                assert(entries[i].0@ == entries[entries.len() - 1].0@);
            }
        }
        assert forall|k: Term| #[trigger] memo_of(entries).contains_key(k) <==> exists|i: int|
            0 <= i < entries.len() && entries[i].0@ == k by {
            if memo_of(entries).contains_key(k) && k != last.0@ {
                let i = choose|i: int| 0 <= i < pre.len() && pre[i].0@ == k;
                assert(entries[i] == pre[i]);
            }
            if exists|i: int| 0 <= i < entries.len() && entries[i].0@ == k {
                let i = choose|i: int| 0 <= i < entries.len() && entries[i].0@ == k;
                if i < entries.len() - 1 {
                    assert(pre[i] == entries[i]);
                }
            }
        }
        assert forall|i: int| 0 <= i < entries.len() implies #[trigger] memo_of(entries)[entries[i].0@]
            == entries[i].1@ by {
            if i < entries.len() - 1 {
                assert(pre[i] == entries[i]);
                assert(entries[i].0@ != last.0@);
            }
        }
    }
}

/// A memo of solved linear MBAs for one caller, counting its lookups.
pub struct LocalCache {
    entries: Vec<(Expr, Expr)>,
    hits: u64,
    misses: u64,
}

impl LocalCache {
    /// The solutions memoized, by expression.
    pub closed spec fn memo(&self) -> Map<Term, Term> {
        memo_of(self.entries@)
    }

    /// The lookups that found a solution.
    pub closed spec fn hit_count(&self) -> u64 {
        self.hits
    }

    /// The lookups that found none.
    pub closed spec fn miss_count(&self) -> u64 {
        self.misses
    }

    /// No expression is memoized twice.
    pub closed spec fn wf(&self) -> bool {
        keys_distinct(self.entries@)
    }

    /// An empty memo with no lookups.
    pub fn new() -> (r: LocalCache)
        ensures
            r.wf(),
            r.memo() == Map::<Term, Term>::empty(),
            r.hit_count() == 0,
            r.miss_count() == 0,
    {
        LocalCache { entries: Vec::new(), hits: 0, misses: 0 }
    }

    /// The position of the entry for `e`, if there is one.
    fn find(&self, e: &Expr) -> (r: Option<usize>)
        ensures
            match r {
                Some(i) => i < self.entries.len() && self.entries@[i as int].0@ == e@,
                None => forall|i: int| 0 <= i < self.entries.len() ==> self.entries@[i].0@ != e@,
            },
    {
        let mut i: usize = 0;
        while i < self.entries.len()
            invariant
                i <= self.entries.len(),
                forall|j: int| 0 <= j < i ==> self.entries@[j].0@ != e@,
            decreases self.entries.len() - i,
        {
            if expr_equal(&self.entries[i].0, e) {
                return Some(i);
            }
            i += 1;
        }
        None
    }

    /// The memoized solution for `e`, counting the lookup as a hit or a
    /// miss (the counters wrap around).
    pub fn get(&mut self, e: &Expr) -> (r: Option<Expr>)
        requires
            old(self).wf(),
        ensures
            final(self).wf(),
            final(self).memo() == old(self).memo(),
            match r {
                Some(s) => old(self).memo().contains_key(e@) && s@ == old(self).memo()[e@]
                    && final(self).hit_count() == old(self).hit_count().wrapping_add(1)
                    && final(self).miss_count() == old(self).miss_count(),
                None => !old(self).memo().contains_key(e@) && final(self).miss_count()
                    == old(self).miss_count().wrapping_add(1) && final(self).hit_count() == old(
                    self,
                ).hit_count(),
            },
    {
        proof {
            lemma_memo_of(self.entries@);
        }
        match self.find(e) {
            Some(i) => {
                let s = clone_expr(&self.entries[i].1);
                self.hits = self.hits.wrapping_add(1);
                Some(s)
            },
            None => {
                self.misses = self.misses.wrapping_add(1);
                None
            },
        }
    }

    /// Memoizes `solved` as the solution for `e`, replacing an earlier one.
    pub fn insert(&mut self, e: Expr, solved: Expr)
        requires
            old(self).wf(),
        ensures
            final(self).wf(),
            final(self).memo() == old(self).memo().insert(e@, solved@),
            final(self).hit_count() == old(self).hit_count(),
            final(self).miss_count() == old(self).miss_count(),
    {
        let ghost before = self.entries@;
        proof {
            lemma_memo_of(before);
        }
        match self.find(&e) {
            Some(i) => {
                let ghost old_entry = before[i as int];
                self.entries.set(i, (e, solved));
                proof {
                    let after = self.entries@;
                    assert(keys_distinct(after)) by {
                        assert forall|a: int, b: int| 0 <= a < b < after.len() implies after[a].0@ != after[b].0@ by {
                            if a != i && b != i {
                                assert(after[a] == before[a] && after[b] == before[b]);
                            } else if a == i {
                                assert(after[b] == before[b]);
                                assert(before[i as int].0@ != before[b].0@);
                            } else {
                                assert(after[a] == before[a]);
                                assert(before[a].0@ != before[i as int].0@);
                            }
                        }
                    }
                    lemma_memo_of(after);
                    let m = memo_of(before).insert(old_entry.0@, after[i as int].1@);
                    assert(memo_of(after) =~= m) by {
                        assert forall|k: Term| #[trigger] memo_of(after).contains_key(k) <==> m.contains_key(k) by {
                            if memo_of(after).contains_key(k) {
                                let j = choose|j: int| 0 <= j < after.len() && after[j].0@ == k;
                                if j != i {
                                    assert(after[j] == before[j]);
                                }
                            }
                            if memo_of(before).contains_key(k) {
                                let j = choose|j: int| 0 <= j < before.len() && before[j].0@ == k;
                                if j != i {
                                    assert(after[j] == before[j]);
                                } else {
                                    assert(after[j].0@ == k);
                                }
                            }
                        }
                        assert forall|k: Term| #[trigger] memo_of(after).contains_key(k) implies memo_of(after)[k]
                            == m[k] by {
                            let j = choose|j: int| 0 <= j < after.len() && after[j].0@ == k;
                            if j != i {
                                assert(after[j] == before[j]);
                                assert(memo_of(before)[before[j].0@] == before[j].1@);
                            }
                        }
                    }
                }
            },
            None => {
                self.entries.push((e, solved));
                proof {
                    let after = self.entries@;
                    assert(after.drop_last() =~= before);
                    assert(keys_distinct(after)) by {
                        assert forall|a: int, b: int| 0 <= a < b < after.len() implies after[a].0@ != after[b].0@ by {
                            assert(after[a] == before[a]);
                            if b < before.len() {
                                assert(after[b] == before[b]);
                            }
                        }
                    }
                }
            },
        }
    }

    /// The counters and the number of memoized expressions.
    pub fn stats(&self) -> (r: CacheStats)
        requires
            self.wf(),
        ensures
            r.hits == self.hit_count(),
            r.misses == self.miss_count(),
            r.entries == self.memo().len(),
    {
        proof {
            lemma_memo_of(self.entries@);
        }
        CacheStats { hits: self.hits, misses: self.misses, entries: self.entries.len() }
    }

    /// Forgets every entry and resets the counters.
    pub fn clear(&mut self)
        ensures
            final(self).wf(),
            final(self).memo() == Map::<Term, Term>::empty(),
            final(self).hit_count() == 0,
            final(self).miss_count() == 0,
    {
        self.entries = Vec::new();
        self.hits = 0;
        self.misses = 0;
    }
}

} // verus!
