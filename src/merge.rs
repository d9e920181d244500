//! The merge engine: one left-to-right, non-overlapping replacement pass.

use vstd::prelude::*;

verus! {

/// A pair of adjacent symbols.
pub type Pair = (u32, u32);

/// True when `s[j], s[j + 1]` is the pair `p`.
pub open spec fn pair_at(s: Seq<u32>, j: int, p: Pair) -> bool {
    0 <= j && j + 1 < s.len() && s[j] == p.0 && s[j + 1] == p.1
}

/// True when the pair `p` stands at some adjacent position of `s`.
pub open spec fn occurs(s: Seq<u32>, p: Pair) -> bool {
    exists|j: int| #[trigger] pair_at(s, j, p)
}

/// Replaces each occurrence of `p`, scanning left to right and consuming both
/// symbols of a match, by `id`.
pub open spec fn merge_spec(s: Seq<u32>, p: Pair, id: u32) -> Seq<u32>
    decreases s.len(),
{
    if s.len() == 0 {
        seq![]
    } else if s.len() >= 2 && s[0] == p.0 && s[1] == p.1 {
        seq![id] + merge_spec(s.skip(2), p, id)
    } else {
        seq![s[0]] + merge_spec(s.skip(1), p, id)
    }
}

/// Number of replacements that `merge_spec` performs.
pub open spec fn replacements(s: Seq<u32>, p: Pair) -> nat
    decreases s.len(),
{
    if s.len() == 0 {
        0
    } else if s.len() >= 2 && s[0] == p.0 && s[1] == p.1 {
        1 + replacements(s.skip(2), p)
    } else {
        replacements(s.skip(1), p)
    }
}

/// Merging never lengthens a sequence: it shortens it by exactly the number
/// of replacements made.
pub proof fn lemma_merge_len(s: Seq<u32>, p: Pair, id: u32)
    ensures
        merge_spec(s, p, id).len() + replacements(s, p) == s.len(),
    decreases s.len(),
{
    if s.len() == 0 {
    } else if s.len() >= 2 && s[0] == p.0 && s[1] == p.1 {
        lemma_merge_len(s.skip(2), p, id);
    } else {
        lemma_merge_len(s.skip(1), p, id);
    }
}

/// Where `p` occurs, at least one replacement is made.
pub proof fn lemma_occurs_replaces(s: Seq<u32>, p: Pair, j: int)
    requires
        pair_at(s, j, p),
    ensures
        replacements(s, p) > 0,
    decreases s.len(),
{
    if s.len() >= 2 && s[0] == p.0 && s[1] == p.1 {
    } else {
        assert(pair_at(s.skip(1), j - 1, p));
        lemma_occurs_replaces(s.skip(1), p, j - 1);
    }
}

/// Merging shortens a sequence in which the pair occurs.
pub proof fn lemma_merge_shortens(s: Seq<u32>, p: Pair, id: u32)
    requires
        occurs(s, p),
    ensures
        merge_spec(s, p, id).len() < s.len(),
{
    let j = choose|j: int| pair_at(s, j, p);
    lemma_occurs_replaces(s, p, j);
    lemma_merge_len(s, p, id);
}

/// The first symbol of a merged sequence.
proof fn lemma_merge_first(t: Seq<u32>, p: Pair, id: u32)
    requires
        t.len() > 0,
    ensures
        merge_spec(t, p, id).len() > 0,
        merge_spec(t, p, id)[0] == if t.len() >= 2 && t[0] == p.0 && t[1] == p.1 {
            id
        } else {
            t[0]
        },
{
}

/// Each symbol of a merged sequence is the new id or a symbol of the input.
pub proof fn lemma_merge_bound(s: Seq<u32>, p: Pair, id: u32, b: int)
    requires
        id < b,
        forall|i: int| 0 <= i < s.len() ==> s[i] < b,
    ensures
        forall|i: int| 0 <= i < merge_spec(s, p, id).len() ==> merge_spec(s, p, id)[i] < b,
    decreases s.len(),
{
    if s.len() == 0 {
    } else if s.len() >= 2 && s[0] == p.0 && s[1] == p.1 {
        let t = merge_spec(s.skip(2), p, id);
        lemma_merge_bound(s.skip(2), p, id, b);
        assert forall|i: int| 0 < i < 1 + t.len() implies (seq![id] + t)[i] < b by {
            assert((seq![id] + t)[i] == t[i - 1]);
        }
    } else {
        let t = merge_spec(s.skip(1), p, id);
        lemma_merge_bound(s.skip(1), p, id, b);
        assert forall|i: int| 0 < i < 1 + t.len() implies (seq![s[0]] + t)[i] < b by {
            assert((seq![s[0]] + t)[i] == t[i - 1]);
        }
    }
}

/// With a fresh id, the merged pair no longer occurs.
pub proof fn lemma_merge_removes(s: Seq<u32>, p: Pair, id: u32)
    requires
        id != p.0,
        id != p.1,
    ensures
        !occurs(merge_spec(s, p, id), p),
    decreases s.len(),
{
    let m = merge_spec(s, p, id);
    if s.len() == 0 {
    } else if s.len() >= 2 && s[0] == p.0 && s[1] == p.1 {
        let t = s.skip(2);
        lemma_merge_removes(t, p, id);
        if occurs(m, p) {
            let j = choose|j: int| pair_at(m, j, p);
            assert(pair_at(merge_spec(t, p, id), j - 1, p));
        }
    } else {
        let t = s.skip(1);
        lemma_merge_removes(t, p, id);
        if occurs(m, p) {
            let j = choose|j: int| pair_at(m, j, p);
            if j == 0 {
                lemma_merge_first(t, p, id);
            } else {
                assert(pair_at(merge_spec(t, p, id), j - 1, p));
            }
        }
    }
}

/// A pair that does not occur, and does not hold the new id, does not occur
/// after merging.
pub proof fn lemma_merge_keeps_absent(s: Seq<u32>, p: Pair, id: u32, q: Pair)
    requires
        !occurs(s, q),
        id != q.0,
        id != q.1,
    ensures
        !occurs(merge_spec(s, p, id), q),
    decreases s.len(),
{
    let m = merge_spec(s, p, id);
    if s.len() == 0 {
    } else if s.len() >= 2 && s[0] == p.0 && s[1] == p.1 {
        let t = s.skip(2);
        if occurs(t, q) {
            let j = choose|j: int| pair_at(t, j, q);
            assert(pair_at(s, j + 2, q));
        }
        lemma_merge_keeps_absent(t, p, id, q);
        if occurs(m, q) {
            let j = choose|j: int| pair_at(m, j, q);
            assert(pair_at(merge_spec(t, p, id), j - 1, q));
        }
    } else {
        let t = s.skip(1);
        if occurs(t, q) {
            let j = choose|j: int| pair_at(t, j, q);
            assert(pair_at(s, j + 1, q));
        }
        lemma_merge_keeps_absent(t, p, id, q);
        if occurs(m, q) {
            let j = choose|j: int| pair_at(m, j, q);
            if j == 0 {
                lemma_merge_first(t, p, id);
                assert(pair_at(s, 0, q));
            } else {
                assert(pair_at(merge_spec(t, p, id), j - 1, q));
            }
        }
    }
}

/// Equality of pairs, field by field.
pub fn same_pair(a: Pair, b: Pair) -> (r: bool)
    ensures
        r == (a == b),
{
    a.0 == b.0 && a.1 == b.1
}

/// Replaces every non-overlapping left-to-right occurrence of `pair` in `ids`
/// by `idx`.
pub fn merge(ids: &[u32], pair: (u32, u32), idx: u32) -> (r: Vec<u32>)
    ensures
        r@ == merge_spec(ids@, pair, idx),
        r@.len() == ids@.len() - replacements(ids@, pair),
{
    let mut new_ids: Vec<u32> = Vec::new();
    let mut i: usize = 0;
    assert(ids@.skip(0) =~= ids@);
    assert(new_ids@ + merge_spec(ids@, pair, idx) =~= merge_spec(ids@, pair, idx));
    while i < ids.len()
        invariant
            i <= ids@.len(),
            merge_spec(ids@, pair, idx) == new_ids@ + merge_spec(ids@.skip(i as int), pair, idx),
        decreases ids@.len() - i,
    {
        let ghost rest = ids@.skip(i as int);
        if i + 1 < ids.len() && ids[i] == pair.0 && ids[i + 1] == pair.1 {
            assert(rest.skip(2) =~= ids@.skip(i + 2));
            new_ids.push(idx);
            i += 2;
        } else {
            assert(rest.skip(1) =~= ids@.skip(i + 1));
            new_ids.push(ids[i]);
            i += 1;
        }
        assert(merge_spec(ids@, pair, idx) == new_ids@ + merge_spec(ids@.skip(i as int), pair, idx));
    }
    assert(ids@.skip(i as int) =~= seq![]);
    assert(new_ids@ + seq![] =~= new_ids@);
    proof {
        lemma_merge_len(ids@, pair, idx);
    }
    new_ids
}

} // verus!
