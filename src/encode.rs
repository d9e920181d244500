//! The encoder: learned merges applied to new text, earliest rule first.

use vstd::prelude::*;
use vstd::utf8::encode_utf8;
use crate::merge::{Pair, pair_at, occurs, merge_spec, merge, lemma_merge_shortens};
use crate::table::{MergeTable, rules_wf, FIRST_MERGE_ID};

verus! {

/// The symbols of a byte string: one id per byte, equal to its value.
pub open spec fn byte_ids(b: Seq<u8>) -> Seq<u32> {
    b.map_values(|x: u8| x as u32)
}

/// The index of the earliest rule, from `k` on, whose pair occurs in `s`;
/// `rules.len()` when there is none.
pub open spec fn first_rule_from(rules: Seq<Pair>, s: Seq<u32>, k: int) -> int
    decreases rules.len() - k,
{
    if k < 0 || k >= rules.len() {
        rules.len() as int
    } else if occurs(s, rules[k]) {
        k
    } else {
        first_rule_from(rules, s, k + 1)
    }
}

/// The index of the earliest rule whose pair occurs in `s`; `rules.len()`
/// when there is none.
pub open spec fn first_rule(rules: Seq<Pair>, s: Seq<u32>) -> int {
    first_rule_from(rules, s, 0)
}

/// `first_rule_from` is a rule at or after `k` whose pair occurs, with no
/// occurring rule between `k` and it, or the number of rules.
pub proof fn lemma_first_rule_from(rules: Seq<Pair>, s: Seq<u32>, k: int)
    requires
        0 <= k <= rules.len(),
    ensures
        k <= first_rule_from(rules, s, k) <= rules.len(),
        first_rule_from(rules, s, k) < rules.len() ==> occurs(
            s,
            rules[first_rule_from(rules, s, k)],
        ),
        forall|k2: int| k <= k2 < first_rule_from(rules, s, k) ==> !occurs(s, #[trigger] rules[k2]),
    decreases rules.len() - k,
{
    if k < rules.len() && !occurs(s, rules[k]) {
        lemma_first_rule_from(rules, s, k + 1);
    }
}

#[via_fn]
proof fn encode_spec_decreases(rules: Seq<Pair>, s: Seq<u32>) {
    let k = first_rule(rules, s);
    lemma_first_rule_from(rules, s, 0);
    if k < rules.len() {
        lemma_merge_shortens(s, rules[k], (256 + k) as u32);
    }
}

/// Encoding of the symbols `s`: while some rule's pair occurs, merge the pair
/// of the earliest such rule into that rule's id.
pub open spec fn encode_spec(rules: Seq<Pair>, s: Seq<u32>) -> Seq<u32>
    decreases s.len(),
    via encode_spec_decreases
{
    let k = first_rule(rules, s);
    if 0 <= k < rules.len() {
        encode_spec(rules, merge_spec(s, rules[k], (256 + k) as u32))
    } else {
        s
    }
}

/// What `encode_spec` returns holds no pair of any rule.
pub proof fn lemma_encode_irreducible(rules: Seq<Pair>, s: Seq<u32>)
    ensures
        forall|k: int| 0 <= k < rules.len() ==> !occurs(encode_spec(rules, s), #[trigger] rules[k]),
    decreases s.len(),
{
    let k = first_rule(rules, s);
    lemma_first_rule_from(rules, s, 0);
    if 0 <= k < rules.len() {
        lemma_merge_shortens(s, rules[k], (256 + k) as u32);
        lemma_encode_irreducible(rules, merge_spec(s, rules[k], (256 + k) as u32));
    }
}

/// True when the pair `p` stands at some adjacent position of `ids`.
fn pair_occurs(ids: &[u32], p: Pair) -> (r: bool)
    ensures
        r == occurs(ids@, p),
{
    let mut j: usize = 0;
    while ids.len() >= 2 && j < ids.len() - 1
        invariant
            j <= ids@.len(),
            forall|i: int| 0 <= i < j ==> !pair_at(ids@, i, p),
        decreases ids@.len() - j,
    {
        if ids[j] == p.0 && ids[j + 1] == p.1 {
            assert(pair_at(ids@, j as int, p));
            return true;
        }
        j += 1;
    }
    proof {
        if occurs(ids@, p) {
            let i = choose|i: int| pair_at(ids@, i, p);
            assert(i < j);
        }
    }
    false
}

/// The index of the earliest rule of `merges` whose pair occurs in `ids`, or
/// the number of rules when there is none.
fn find_first_rule(merges: &MergeTable, ids: &[u32]) -> (r: usize)
    ensures
        r == first_rule(merges@, ids@),
{
    let n = merges.len();
    let mut k: usize = 0;
    while k < n
        invariant
            n == merges@.len(),
            k <= n,
            first_rule_from(merges@, ids@, k as int) == first_rule(merges@, ids@),
        decreases n - k,
    {
        if pair_occurs(ids, merges.rule(k)) {
            return k;
        }
        k += 1;
    }
    k
}

/// Encodes `text`: its UTF-8 bytes, then the table's merges applied while
/// any applies, earliest rule first.
pub fn encode(merges: &MergeTable, text: &str) -> (r: Vec<u32>)
    requires
        rules_wf(merges@),
    ensures
        r@ == encode_spec(merges@, byte_ids(encode_utf8(text@))),
        forall|k: int| 0 <= k < merges@.len() ==> !occurs(r@, #[trigger] merges@[k]),
{
    let bytes = text.as_bytes();
    let mut ids: Vec<u32> = Vec::new();
    let mut i: usize = 0;
    while i < bytes.len()
        invariant
            i <= bytes@.len(),
            ids@ == byte_ids(bytes@.take(i as int)),
        decreases bytes@.len() - i,
    {
        ids.push(bytes[i] as u32);
        i += 1;
        assert(ids@ =~= byte_ids(bytes@.take(i as int)));
    }
    assert(bytes@.take(i as int) =~= bytes@);
    let ghost start = ids@;
    let mut stop = false;
    while !stop
        invariant
            rules_wf(merges@),
            encode_spec(merges@, ids@) == encode_spec(merges@, start),
            stop ==> encode_spec(merges@, ids@) == ids@,
        decreases ids@.len() + if stop {
            0int
        } else {
            1int
        },
    {
        let k = find_first_rule(merges, &ids);
        proof {
            lemma_first_rule_from(merges@, ids@, 0);
        }
        if k == merges.len() {
            stop = true;
        } else {
            let p = merges.rule(k);
            let ghost prev = ids@;
            ids = merge(&ids, p, FIRST_MERGE_ID + k as u32);
            proof {
                lemma_merge_shortens(prev, p, (256 + k) as u32);
            }
        }
    }
    proof {
        lemma_encode_irreducible(merges@, start);
    }
    ids
}

} // verus!
