//! Properties that relate the trainer, vocabulary builder, encoder and
//! decoder.

use vstd::prelude::*;
use vstd::utf8::{encode_utf8, decode_utf8, valid_utf8, encode_utf8_valid_utf8, encode_utf8_decode_utf8};
use crate::merge::{Pair, merge_spec, lemma_merge_shortens, lemma_merge_bound};
use crate::table::{rules_wf, all_below};
use crate::vocab::{expand, concat_bytes};
use crate::encode::{byte_ids, first_rule, encode_spec, lemma_first_rule_from};

verus! {

/// The bytes of each symbol of `s` under `rules`, one after another.
pub open spec fn expand_all(rules: Seq<Pair>, s: Seq<u32>) -> Seq<u8>
    decreases s.len(),
{
    if s.len() == 0 {
        seq![]
    } else {
        expand(rules, s[0] as nat) + expand_all(rules, s.skip(1))
    }
}

proof fn lemma_expand_all_push(rules: Seq<Pair>, a: Seq<u32>, x: u32)
    ensures
        expand_all(rules, a.push(x)) == expand_all(rules, a) + expand(rules, x as nat),
    decreases a.len(),
{
    if a.len() == 0 {
        let e = Seq::<u32>::empty();
        assert(a.push(x).skip(1) =~= e);
        assert(a.push(x)[0] == x);
        assert(expand_all(rules, e) == Seq::<u8>::empty());
        assert(expand_all(rules, a.push(x)) == expand(rules, x as nat) + expand_all(rules, e));
        assert(expand(rules, x as nat) + Seq::<u8>::empty() =~= expand(rules, x as nat));
        assert(Seq::<u8>::empty() + expand(rules, x as nat) =~= expand(rules, x as nat));
    } else {
        assert(a.push(x).skip(1) =~= a.skip(1).push(x));
        lemma_expand_all_push(rules, a.skip(1), x);
        assert(expand_all(rules, a.push(x)) =~= expand_all(rules, a) + expand(rules, x as nat));
    }
}

proof fn lemma_concat_expand(rules: Seq<Pair>, vocab: Seq<Seq<u8>>, s: Seq<u32>)
    requires
        forall|i: int| 0 <= i < s.len() ==> #[trigger] s[i] < vocab.len(),
        forall|id: int| 0 <= id < vocab.len() ==> #[trigger] vocab[id] == expand(rules, id as nat),
    ensures
        concat_bytes(vocab, s) == expand_all(rules, s),
    decreases s.len(),
{
    if s.len() > 0 {
        let a = s.drop_last();
        lemma_concat_expand(rules, vocab, a);
        assert(a.push(s.last()) =~= s);
        lemma_expand_all_push(rules, a, s.last());
    }
}

proof fn lemma_expand_byte_ids(rules: Seq<Pair>, b: Seq<u8>)
    ensures
        expand_all(rules, byte_ids(b)) == b,
    decreases b.len(),
{
    if b.len() > 0 {
        assert(byte_ids(b).skip(1) =~= byte_ids(b.skip(1)));
        lemma_expand_byte_ids(rules, b.skip(1));
        assert(expand(rules, byte_ids(b)[0] as nat) =~= seq![b[0]]);
        assert(b =~= seq![b[0]] + b.skip(1));
    }
}

/// Merging with a rule of the table keeps the bytes that a sequence stands
/// for.
pub proof fn lemma_merge_keeps_bytes(rules: Seq<Pair>, s: Seq<u32>, k: int)
    requires
        rules_wf(rules),
        0 <= k < rules.len(),
    ensures
        expand_all(rules, merge_spec(s, rules[k], (256 + k) as u32)) == expand_all(rules, s),
    decreases s.len(),
{
    let p = rules[k];
    let id = (256 + k) as u32;
    if s.len() == 0 {
    } else if s.len() >= 2 && s[0] == p.0 && s[1] == p.1 {
        lemma_merge_keeps_bytes(rules, s.skip(2), k);
        assert(s.skip(1).skip(1) =~= s.skip(2));
        assert(p.0 < 256 + k && p.1 < 256 + k);
        assert(expand(rules, id as nat) == expand(rules, p.0 as nat) + expand(rules, p.1 as nat));
        assert(expand_all(rules, s.skip(1)) == expand(rules, s[1] as nat) + expand_all(rules, s.skip(2)));
        assert((seq![id] + merge_spec(s.skip(2), p, id)).skip(1) =~= merge_spec(s.skip(2), p, id));
        assert(expand_all(rules, merge_spec(s, p, id)) =~= expand_all(rules, s));
    } else {
        lemma_merge_keeps_bytes(rules, s.skip(1), k);
        assert((seq![s[0]] + merge_spec(s.skip(1), p, id)).skip(1) =~= merge_spec(s.skip(1), p, id));
    }
}

/// Encoding keeps the bytes that a sequence stands for, and uses only ids
/// that the table defines.
pub proof fn lemma_encode_keeps_bytes(rules: Seq<Pair>, s: Seq<u32>)
    requires
        rules_wf(rules),
        all_below(s, 256 + rules.len() as int),
    ensures
        expand_all(rules, encode_spec(rules, s)) == expand_all(rules, s),
        all_below(encode_spec(rules, s), 256 + rules.len() as int),
    decreases s.len(),
{
    let k = first_rule(rules, s);
    lemma_first_rule_from(rules, s, 0);
    if 0 <= k < rules.len() {
        let id = (256 + k) as u32;
        let t = merge_spec(s, rules[k], id);
        lemma_merge_shortens(s, rules[k], id);
        lemma_merge_keeps_bytes(rules, s, k);
        lemma_merge_bound(s, rules[k], id, 256 + rules.len() as int);
        lemma_encode_keeps_bytes(rules, t);
    }
}

/// Round trip: decoding, with a table's vocabulary, what the encoder makes of
/// a text under that table gives back the text's bytes, which are valid
/// UTF-8 and decode to the text itself.
pub proof fn lemma_round_trip(rules: Seq<Pair>, vocab: Seq<Seq<u8>>, text: Seq<char>)
    requires
        rules_wf(rules),
        vocab.len() == 256 + rules.len(),
        forall|id: int| 0 <= id < vocab.len() ==> #[trigger] vocab[id] == expand(rules, id as nat),
    ensures
        ({
            let ids = encode_spec(rules, byte_ids(encode_utf8(text)));
            &&& forall|i: int| 0 <= i < ids.len() ==> #[trigger] ids[i] < vocab.len()
            &&& concat_bytes(vocab, ids) == encode_utf8(text)
            &&& valid_utf8(concat_bytes(vocab, ids))
            &&& decode_utf8(concat_bytes(vocab, ids)) == text
        }),
{
    let b = encode_utf8(text);
    let s = byte_ids(b);
    let ids = encode_spec(rules, s);
    lemma_encode_keeps_bytes(rules, s);
    lemma_expand_byte_ids(rules, b);
    lemma_concat_expand(rules, vocab, ids);
    encode_utf8_valid_utf8(text);
    encode_utf8_decode_utf8(text);
}

/// Vocabulary completeness: every id that a table mentions, as a part of a
/// pair or as the id a rule assigns, is below `256 + rules.len()`, the number
/// of entries that the vocabulary builder makes.
pub proof fn lemma_vocab_complete(rules: Seq<Pair>)
    requires
        rules_wf(rules),
    ensures
        forall|k: int|
            0 <= k < rules.len() ==> #[trigger] rules[k].0 < 256 + rules.len() && rules[k].1 < 256
                + rules.len() && 256 + k < 256 + rules.len(),
{
    assert forall|k: int| 0 <= k < rules.len() implies #[trigger] rules[k].0 < 256 + rules.len()
        && rules[k].1 < 256 + rules.len() && 256 + k < 256 + rules.len() by {
        assert(rules[k].0 < 256 + k);
    }
}

} // verus!
