//! Pair statistics: how often each adjacent pair of symbols occurs.

use vstd::prelude::*;
use crate::merge::{Pair, pair_at, occurs, same_pair};

verus! {

/// Number of positions `j` at which `s[j], s[j + 1]` is the pair `p`.
pub open spec fn count(s: Seq<u32>, p: Pair) -> nat
    decreases s.len(),
{
    if s.len() < 2 {
        0
    } else {
        count(s.drop_last(), p) + if s[s.len() - 2] == p.0 && s[s.len() - 1] == p.1 {
            1nat
        } else {
            0nat
        }
    }
}

/// The statistics of a sequence: each occurring pair mapped to its count.
pub open spec fn stats_of(s: Seq<u32>) -> Map<Pair, nat> {
    Map::new(|p: Pair| count(s, p) > 0, |p: Pair| count(s, p))
}

/// A pair is counted exactly when it occurs.
pub proof fn lemma_count_occurs(s: Seq<u32>, p: Pair)
    ensures
        count(s, p) > 0 <==> occurs(s, p),
        count(s, p) < s.len() || s.len() == 0,
    decreases s.len(),
{
    if s.len() >= 2 {
        let t = s.drop_last();
        lemma_count_occurs(t, p);
        if occurs(t, p) {
            let j = choose|j: int| pair_at(t, j, p);
            assert(pair_at(s, j, p));
        }
        if occurs(s, p) && !(s[s.len() - 2] == p.0 && s[s.len() - 1] == p.1) {
            let j = choose|j: int| pair_at(s, j, p);
            assert(pair_at(t, j, p));
        }
        if s[s.len() - 2] == p.0 && s[s.len() - 1] == p.1 {
            assert(pair_at(s, s.len() - 2, p));
        }
    } else if occurs(s, p) {
        let j = choose|j: int| pair_at(s, j, p);
    }
}

/// Lexicographic order on pairs.
pub open spec fn pair_lt(a: Pair, b: Pair) -> bool {
    a.0 < b.0 || (a.0 == b.0 && a.1 < b.1)
}

/// `a` is preferred to `b` for merging in `s`: it is more frequent, or as
/// frequent and lexicographically smaller.
pub open spec fn preferred(s: Seq<u32>, a: Pair, b: Pair) -> bool {
    count(s, a) > count(s, b) || (count(s, a) == count(s, b) && pair_lt(a, b))
}

/// `p` occurs in `s` and no pair is preferred to it.
pub open spec fn is_best_pair(s: Seq<u32>, p: Pair) -> bool {
    count(s, p) > 0 && forall|q: Pair| !#[trigger] preferred(s, q, p)
}

/// The most preferred among the pairs at positions `0 .. n`.
pub open spec fn best_upto(s: Seq<u32>, n: int) -> Pair
    decreases n,
{
    if n <= 1 {
        (s[0], s[1])
    } else {
        let b = best_upto(s, n - 1);
        let c = (s[n - 1], s[n]);
        if preferred(s, c, b) {
            c
        } else {
            b
        }
    }
}

/// The pair that training merges next in `s`: the most frequent adjacent
/// pair, ties going to the lexicographically smallest.
pub open spec fn best_pair(s: Seq<u32>) -> Pair {
    best_upto(s, s.len() - 1)
}

proof fn lemma_best_upto(s: Seq<u32>, n: int)
    requires
        1 <= n < s.len(),
    ensures
        occurs(s, best_upto(s, n)),
        forall|j: int| 0 <= j < n ==> !#[trigger] preferred(s, (s[j], s[j + 1]), best_upto(s, n)),
    decreases n,
{
    if n <= 1 {
        assert(pair_at(s, 0, best_upto(s, n)));
    } else {
        lemma_best_upto(s, n - 1);
        let c = (s[n - 1], s[n]);
        if preferred(s, c, best_upto(s, n - 1)) {
            assert(pair_at(s, n - 1, c));
        }
        assert forall|j: int| 0 <= j < n implies !#[trigger] preferred(
            s,
            (s[j], s[j + 1]),
            best_upto(s, n),
        ) by {
            if j < n - 1 {
                assert(!preferred(s, (s[j], s[j + 1]), best_upto(s, n - 1)));
            }
        }
    }
}

/// The pair that training picks is a best pair.
pub proof fn lemma_best_pair(s: Seq<u32>)
    requires
        s.len() >= 2,
    ensures
        is_best_pair(s, best_pair(s)),
        occurs(s, best_pair(s)),
{
    let b = best_pair(s);
    lemma_best_upto(s, s.len() - 1);
    lemma_count_occurs(s, b);
    assert forall|q: Pair| !#[trigger] preferred(s, q, b) by {
        lemma_count_occurs(s, q);
        if count(s, q) > 0 {
            let j = choose|j: int| pair_at(s, j, q);
            assert(q == (s[j], s[j + 1]));
        }
    }
}

/// There is at most one best pair.
pub proof fn lemma_best_unique(s: Seq<u32>, a: Pair, b: Pair)
    requires
        is_best_pair(s, a),
        is_best_pair(s, b),
    ensures
        a == b,
{
    assert(!preferred(s, a, b));
    assert(!preferred(s, b, a));
}

/// The count recorded for `p` in `e`: the last entry with key `p`, else 0.
pub open spec fn lookup(e: Seq<(Pair, usize)>, p: Pair) -> nat
    decreases e.len(),
{
    if e.len() == 0 {
        0
    } else if e.last().0 == p {
        e.last().1 as nat
    } else {
        lookup(e.drop_last(), p)
    }
}

/// No key stands in two entries.
pub open spec fn keys_distinct(e: Seq<(Pair, usize)>) -> bool {
    forall|i: int, j: int| 0 <= i < j < e.len() ==> e[i].0 != e[j].0
}

proof fn lemma_lookup_absent(e: Seq<(Pair, usize)>, p: Pair)
    requires
        forall|i: int| 0 <= i < e.len() ==> e[i].0 != p,
    ensures
        lookup(e, p) == 0,
    decreases e.len(),
{
    if e.len() > 0 {
        lemma_lookup_absent(e.drop_last(), p);
    }
}

proof fn lemma_lookup_at(e: Seq<(Pair, usize)>, i: int)
    requires
        keys_distinct(e),
        0 <= i < e.len(),
    ensures
        lookup(e, e[i].0) == e[i].1,
    decreases e.len(),
{
    if i < e.len() - 1 {
        lemma_lookup_at(e.drop_last(), i);
    }
}

proof fn lemma_lookup_update(e: Seq<(Pair, usize)>, k: int, v: usize, p: Pair)
    requires
        keys_distinct(e),
        0 <= k < e.len(),
    ensures
        lookup(e.update(k, (e[k].0, v)), p) == if p == e[k].0 {
            v as nat
        } else {
            lookup(e, p)
        },
    decreases e.len(),
{
    let u = e.update(k, (e[k].0, v));
    if k == e.len() - 1 {
        assert(u.drop_last() =~= e.drop_last());
        if p == e[k].0 {
        } else {
        }
    } else {
        assert(u.drop_last() =~= e.drop_last().update(k, (e[k].0, v)));
        lemma_lookup_update(e.drop_last(), k, v, p);
        if p == e[k].0 {
            lemma_lookup_at(e.drop_last(), k);
        }
    }
}

/// Counts of adjacent pairs, one entry per distinct pair.
pub struct PairStats {
    entries: Vec<(Pair, usize)>,
}

impl View for PairStats {
    type V = Map<Pair, nat>;

    closed spec fn view(&self) -> Map<Pair, nat> {
        Map::new(|p: Pair| lookup(self.entries@, p) > 0, |p: Pair| lookup(self.entries@, p))
    }
}

impl PairStats {
    /// Keys are distinct and every recorded count is positive.
    pub closed spec fn wf(&self) -> bool {
        keys_distinct(self.entries@) && forall|i: int|
            0 <= i < self.entries@.len() ==> #[trigger] self.entries@[i].1 > 0
    }

    /// The count of `pair`, if it occurs.
    pub fn get(&self, pair: (u32, u32)) -> (r: Option<usize>)
        requires
            self.wf(),
        ensures
            r == (if self@.contains_key(pair) {
                Some(self@[pair] as usize)
            } else {
                None
            }),
    {
        let mut k: usize = 0;
        while k < self.entries.len()
            invariant
                self.wf(),
                k <= self.entries@.len(),
                forall|i: int| 0 <= i < k ==> self.entries@[i].0 != pair,
            decreases self.entries@.len() - k,
        {
            if same_pair(self.entries[k].0, pair) {
                proof {
                    lemma_lookup_at(self.entries@, k as int);
                }
                return Some(self.entries[k].1);
            }
            k += 1;
        }
        proof {
            lemma_lookup_absent(self.entries@, pair);
        }
        None
    }

    /// The pair with the largest count; among equal counts, the
    /// lexicographically smallest.
    pub fn most_frequent(&self) -> (r: Pair)
        requires
            self.wf(),
            !self@.is_empty(),
        ensures
            self@.contains_key(r),
            forall|q: Pair|
                #[trigger] self@.contains_key(q) ==> self@[q] < self@[r] || (self@[q] == self@[r]
                    && !pair_lt(q, r)),
    {
        proof {
            let p = choose|p: Pair| self@.dom().contains(p);
            assert(lookup(self.entries@, p) > 0);
        }
        let mut b: usize = 0;
        let mut k: usize = 1;
        while k < self.entries.len()
            invariant
                self.wf(),
                1 <= k <= self.entries@.len(),
                b < k,
                forall|i: int|
                    0 <= i < k ==> #[trigger] self.entries@[i].1 < self.entries@[b as int].1 || (
                    self.entries@[i].1 == self.entries@[b as int].1 && !pair_lt(
                        self.entries@[i].0,
                        self.entries@[b as int].0,
                    )),
            decreases self.entries@.len() - k,
        {
            let (p, c) = self.entries[k];
            let (bp, bc) = self.entries[b];
            if c > bc || (c == bc && (p.0 < bp.0 || (p.0 == bp.0 && p.1 < bp.1))) {
                b = k;
            }
            k += 1;
        }
        let r = self.entries[b].0;
        proof {
            let e = self.entries@;
            lemma_lookup_at(e, b as int);
            assert forall|q: Pair| #[trigger] self@.contains_key(q) implies self@[q] < self@[r] || (
            self@[q] == self@[r] && !pair_lt(q, r)) by {
                if forall|i: int| 0 <= i < e.len() ==> e[i].0 != q {
                    lemma_lookup_absent(e, q);
                }
                let i = choose|i: int| 0 <= i < e.len() && e[i].0 == q;
                lemma_lookup_at(e, i);
            }
        }
        r
    }

    /// Number of distinct pairs.
    pub fn len(&self) -> (r: usize)
        requires
            self.wf(),
        ensures
            r == self@.dom().len(),
    {
        proof {
            self.lemma_dom();
        }
        self.entries.len()
    }

    /// True when no pair was counted.
    pub fn is_empty(&self) -> (r: bool)
        requires
            self.wf(),
        ensures
            r == self@.is_empty(),
    {
        proof {
            self.lemma_dom();
        }
        self.entries.len() == 0
    }

    proof fn lemma_dom(&self)
        requires
            self.wf(),
        ensures
            self@.dom() =~= self.entries@.map_values(|x: (Pair, usize)| x.0).to_set(),
            self@.dom().len() == self.entries@.len(),
    {
        let e = self.entries@;
        let ks = e.map_values(|x: (Pair, usize)| x.0);
        assert forall|p: Pair| self@.dom().contains(p) <==> ks.to_set().contains(p) by {
            if lookup(e, p) > 0 {
                if forall|i: int| 0 <= i < e.len() ==> e[i].0 != p {
                    lemma_lookup_absent(e, p);
                }
                let i = choose|i: int| 0 <= i < e.len() && e[i].0 == p;
                assert(ks[i] == p);
            }
            if ks.to_set().contains(p) {
                let i = choose|i: int| 0 <= i < ks.len() && ks[i] == p;
                lemma_lookup_at(e, i);
            }
        }
        assert(ks.no_duplicates());
        ks.unique_seq_to_set();
    }
}

/// Counts every adjacent pair of `ids`.
pub fn get_stats(ids: &[u32]) -> (r: PairStats)
    ensures
        r.wf(),
        r@ == stats_of(ids@),
{
    let mut entries: Vec<(Pair, usize)> = Vec::new();
    if ids.len() < 2 {
        let r = PairStats { entries };
        proof {
            assert forall|p: Pair| count(ids@, p) == 0 by {}
            assert(r@ =~= stats_of(ids@));
        }
        return r;
    }
    let mut j: usize = 0;
    proof {
        assert forall|p: Pair| lookup(entries@, p) == count(ids@.take(1), p) by {}
    }
    while j < ids.len() - 1
        invariant
            ids@.len() >= 2,
            j + 1 <= ids@.len(),
            keys_distinct(entries@),
            forall|i: int| 0 <= i < entries@.len() ==> #[trigger] entries@[i].1 > 0,
            forall|p: Pair| lookup(entries@, p) == count(ids@.take(j + 1), p),
        decreases ids@.len() - j,
    {
        let pair: Pair = (ids[j], ids[j + 1]);
        let ghost prev = entries@;
        let ghost s = ids@.take(j + 2);
        proof {
            assert(s.drop_last() =~= ids@.take(j + 1));
            assert forall|p: Pair| #[trigger] count(s, p) == count(ids@.take(j + 1), p) + if p == pair {
                1nat
            } else {
                0nat
            } by {
                assert(s[s.len() - 2] == pair.0);
                assert(s[s.len() - 1] == pair.1);
            }
        }
        let mut k: usize = 0;
        while k < entries.len() && !same_pair(entries[k].0, pair)
            invariant
                entries@ == prev,
                ids@.len() >= 2,
                j + 1 < ids@.len(),
                keys_distinct(prev),
                forall|i: int| 0 <= i < prev.len() ==> #[trigger] prev[i].1 > 0,
                forall|p: Pair| lookup(prev, p) == count(ids@.take(j + 1), p),
                k <= entries@.len(),
                forall|i: int| 0 <= i < k ==> entries@[i].0 != pair,
            decreases entries@.len() - k,
        {
            k += 1;
        }
        if k < entries.len() {
            let c = entries[k].1;
            proof {
                lemma_lookup_at(prev, k as int);
                lemma_count_occurs(ids@.take(j + 1), pair);
            }
            entries.set(k, (pair, c + 1));
            proof {
                assert(entries@ == prev.update(k as int, (prev[k as int].0, (c + 1) as usize)));
                assert forall|p: Pair| lookup(entries@, p) == count(s, p) by {
                    lemma_lookup_update(prev, k as int, (c + 1) as usize, p);
                }
            }
        } else {
            entries.push((pair, 1));
            proof {
                assert forall|p: Pair| lookup(entries@, p) == count(s, p) by {
                    assert(entries@.drop_last() =~= prev);
                    assert(entries@.last() == (pair, 1usize));
                    assert(count(s, p) == count(ids@.take(j + 1), p) + if p == pair {
                        1nat
                    } else {
                        0nat
                    });
                    if p == pair {
                        lemma_lookup_absent(prev, p);
                        assert(lookup(entries@, p) == 1);
                    } else {
                        assert(lookup(entries@, p) == lookup(prev, p));
                    }
                }
            }
        }
        j += 1;
    }
    let r = PairStats { entries };
    proof {
        assert(ids@.take(j + 1) =~= ids@);
        assert(r@ =~= stats_of(ids@));
    }
    r
}

} // verus!
