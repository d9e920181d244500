//! The merge table and the trainer that builds it.

use vstd::prelude::*;
use vstd::slice::slice_to_vec;
use crate::merge::{Pair, pair_at, occurs, merge_spec, merge, lemma_merge_bound, lemma_merge_removes, lemma_merge_keeps_absent};
use crate::pairs::{count, best_pair, is_best_pair, get_stats, lemma_best_pair, lemma_best_unique, lemma_count_occurs};

verus! {

/// Ids below this bound stand for single bytes.
pub const FIRST_MERGE_ID: u32 = 256;

/// The rules that training learns from `s` when `done` merges came before
/// and at most `m` remain: the best pair is merged into the next id, until
/// `m` is spent or fewer than two symbols are left.
pub open spec fn train_spec(s: Seq<u32>, done: nat, m: nat) -> Seq<Pair>
    decreases m,
{
    if m == 0 || s.len() < 2 {
        seq![]
    } else {
        let p = best_pair(s);
        seq![p] + train_spec(merge_spec(s, p, (256 + done) as u32), done + 1, (m - 1) as nat)
    }
}

/// Each rule merges symbols with smaller ids than its own, and every id fits
/// in a `u32`.
pub open spec fn rules_wf(rules: Seq<Pair>) -> bool {
    &&& rules.len() + 256 <= u32::MAX + 1
    &&& forall|k: int|
        0 <= k < rules.len() ==> #[trigger] rules[k].0 < 256 + k && rules[k].1 < 256 + k
}

/// No pair has two rules.
pub open spec fn pairs_distinct(rules: Seq<Pair>) -> bool {
    forall|a: int, b: int| 0 <= a < b < rules.len() ==> rules[a] != rules[b]
}

/// Every symbol of `s` is below `b`.
pub open spec fn all_below(s: Seq<u32>, b: int) -> bool {
    forall|i: int| 0 <= i < s.len() ==> s[i] < b
}

proof fn lemma_occurs_below(s: Seq<u32>, p: Pair, b: int)
    requires
        all_below(s, b),
        occurs(s, p),
    ensures
        p.0 < b,
        p.1 < b,
{
    let j = choose|j: int| pair_at(s, j, p);
    assert(s[j] < b && s[j + 1] < b);
}

/// A pair that does not occur, built from ids already given out, never gets
/// a rule later.
proof fn lemma_train_skips_absent(s: Seq<u32>, done: nat, m: nat, q: Pair)
    requires
        !occurs(s, q),
        q.0 < 256 + done,
        q.1 < 256 + done,
        256 + done + m <= u32::MAX + 1,
    ensures
        forall|k: int| 0 <= k < train_spec(s, done, m).len() ==> train_spec(s, done, m)[k] != q,
    decreases m,
{
    if m == 0 || s.len() < 2 {
    } else {
        let p = best_pair(s);
        lemma_best_pair(s);
        let id = (256 + done) as u32;
        lemma_merge_keeps_absent(s, p, id, q);
        let t = merge_spec(s, p, id);
        lemma_train_skips_absent(t, done + 1, (m - 1) as nat, q);
        let rest = train_spec(t, done + 1, (m - 1) as nat);
        let all = train_spec(s, done, m);
        assert(all == seq![p] + rest);
        assert forall|k: int| 0 <= k < all.len() implies all[k] != q by {
            if k > 0 {
                assert(all[k] == rest[k - 1]);
            }
        }
    }
}

/// Training hands out ids `256 + done`, `256 + done + 1`, ... in order, one
/// per rule, at most `m` of them; each rule merges symbols with smaller ids
/// than its own, and no pair gets two rules.
pub proof fn lemma_train_rules(s: Seq<u32>, done: nat, m: nat)
    requires
        all_below(s, 256 + done as int),
        256 + done + m <= u32::MAX + 1,
    ensures
        train_spec(s, done, m).len() <= m,
        pairs_distinct(train_spec(s, done, m)),
        forall|k: int|
            0 <= k < train_spec(s, done, m).len() ==> #[trigger] train_spec(s, done, m)[k].0 < 256
                + done + k && train_spec(s, done, m)[k].1 < 256 + done + k,
    decreases m,
{
    if m == 0 || s.len() < 2 {
    } else {
        let p = best_pair(s);
        lemma_best_pair(s);
        lemma_occurs_below(s, p, 256 + done as int);
        let id = (256 + done) as u32;
        let t = merge_spec(s, p, id);
        lemma_merge_bound(s, p, id, 256 + done as int + 1);
        lemma_merge_removes(s, p, id);
        lemma_train_rules(t, done + 1, (m - 1) as nat);
        lemma_train_skips_absent(t, done + 1, (m - 1) as nat, p);
        let rest = train_spec(t, done + 1, (m - 1) as nat);
        let all = train_spec(s, done, m);
        assert(all == seq![p] + rest);
        assert forall|k: int| 0 < k < all.len() implies #[trigger] all[k].0 < 256 + done + k && all[k].1
            < 256 + done + k by {
            assert(all[k] == rest[k - 1]);
        }
        assert forall|a: int, b: int| 0 <= a < b < all.len() implies all[a] != all[b] by {
            assert(all[b] == rest[b - 1]);
            if a > 0 {
                assert(all[a] == rest[a - 1]);
            }
        }
    }
}

/// An ordered table of merge rules: rule `k` replaces its pair by the id
/// `256 + k`, and earlier rules take priority.
pub struct MergeTable {
    rules: Vec<Pair>,
}

impl View for MergeTable {
    type V = Seq<Pair>;

    closed spec fn view(&self) -> Seq<Pair> {
        self.rules@
    }
}

impl MergeTable {
    /// Number of rules.
    pub fn len(&self) -> (r: usize)
        ensures
            r == self@.len(),
    {
        self.rules.len()
    }

    /// True when the table holds no rule.
    pub fn is_empty(&self) -> (r: bool)
        ensures
            r == (self@.len() == 0),
    {
        self.rules.len() == 0
    }

    /// The pair of rule `k`.
    pub fn rule(&self, k: usize) -> (r: Pair)
        requires
            k < self@.len(),
        ensures
            r == self@[k as int],
    {
        self.rules[k]
    }
}

/// Learns up to `num_merges` merge rules from the byte values `ids`.
pub fn train(ids: &[u32], num_merges: u32) -> (r: MergeTable)
    requires
        all_below(ids@, 256),
        num_merges <= u32::MAX - 255,
    ensures
        r@ == train_spec(ids@, 0, num_merges as nat),
        r@.len() <= num_merges,
        rules_wf(r@),
        pairs_distinct(r@),
{
    let mut rules: Vec<Pair> = Vec::new();
    let mut cur: Vec<u32> = slice_to_vec(ids);
    let mut i: u32 = 0;
    let mut stop = false;
    proof {
        lemma_train_rules(ids@, 0, num_merges as nat);
        assert(rules@ + train_spec(cur@, 0, num_merges as nat) =~= train_spec(ids@, 0, num_merges as nat));
    }
    while !stop && i < num_merges
        invariant
            i <= num_merges <= u32::MAX - 255,
            rules@ + train_spec(cur@, i as nat, (num_merges - i) as nat) == train_spec(
                ids@,
                0,
                num_merges as nat,
            ),
            stop ==> train_spec(cur@, i as nat, (num_merges - i) as nat) == Seq::<Pair>::empty(),
        decreases (num_merges - i) as int + if stop {
            0int
        } else {
            1int
        },
    {
        let stats = get_stats(&cur);
        if stats.is_empty() {
            proof {
                if cur@.len() >= 2 {
                    let p = (cur@[0], cur@[1]);
                    assert(pair_at(cur@, 0, p));
                    lemma_count_occurs(cur@, p);
                    assert(stats@.contains_key(p));
                }
            }
            stop = true;
        } else {
            let p = stats.most_frequent();
            let idx = FIRST_MERGE_ID + i;
            let ghost old_cur = cur@;
            proof {
                assert(count(cur@, p) > 0);
                lemma_count_occurs(cur@, p);
                if cur@.len() < 2 {
                    let j = choose|j: int| pair_at(cur@, j, p);
                }
                assert forall|q: Pair| !#[trigger] crate::pairs::preferred(cur@, q, p) by {
                    if count(cur@, q) > 0 {
                        assert(stats@.contains_key(q));
                    }
                }
                assert(is_best_pair(cur@, p));
                lemma_best_pair(cur@);
                lemma_best_unique(cur@, p, best_pair(cur@));
            }
            cur = merge(&cur, p, idx);
            rules.push(p);
            proof {
                let rest = train_spec(cur@, (i + 1) as nat, (num_merges - i - 1) as nat);
                assert(train_spec(old_cur, i as nat, (num_merges - i) as nat) == seq![p] + rest);
                assert(rules@ + rest =~= rules@.drop_last() + (seq![p] + rest));
            }
            i += 1;
        }
    }
    let r = MergeTable { rules };
    r
}

} // verus!
