//! The vocabulary (each id's byte string) and the decoder.

use vstd::prelude::*;
use vstd::utf8::{valid_utf8, decode_utf8};
use crate::merge::Pair;
use crate::table::{MergeTable, rules_wf};

verus! {

/// The bytes that symbol `id` stands for under `rules`: a byte for ids below
/// 256, else the bytes of the two symbols that its rule merges.
pub open spec fn expand(rules: Seq<Pair>, id: nat) -> Seq<u8>
    decreases id,
{
    if id < 256 {
        seq![id as u8]
    } else if id - 256 < rules.len() && rules[id - 256].0 < id && rules[id - 256].1 < id {
        expand(rules, rules[id - 256].0 as nat) + expand(rules, rules[id - 256].1 as nat)
    } else {
        seq![]
    }
}

/// The bytes of each id of `ids` under `vocab`, one after another.
pub open spec fn concat_bytes(vocab: Seq<Seq<u8>>, ids: Seq<u32>) -> Seq<u8>
    decreases ids.len(),
{
    if ids.len() == 0 {
        seq![]
    } else {
        concat_bytes(vocab, ids.drop_last()) + vocab[ids.last() as int]
    }
}

/// The text that `String::from_utf8_lossy` makes of a byte string.
pub uninterp spec fn lossy_utf8(b: Seq<u8>) -> Seq<char>;

/// Relies on `String::from_utf8_lossy`: the result depends on the bytes alone,
/// and valid UTF-8 is decoded as it stands.
#[verifier::external_body]
fn utf8_lossy(b: &[u8]) -> (r: String)
    ensures
        r@ == lossy_utf8(b@),
        valid_utf8(b@) ==> r@ == decode_utf8(b@),
{
    String::from_utf8_lossy(b).into_owned()
}

/// For each id, the byte string it stands for.
pub struct Vocabulary {
    entries: Vec<Vec<u8>>,
}

impl View for Vocabulary {
    type V = Seq<Seq<u8>>;

    closed spec fn view(&self) -> Seq<Seq<u8>> {
        self.entries@.map_values(|v: Vec<u8>| v@)
    }
}

impl Vocabulary {
    /// Number of ids.
    pub fn len(&self) -> (r: usize)
        ensures
            r == self@.len(),
    {
        self.entries.len()
    }

    /// True when no id has bytes.
    pub fn is_empty(&self) -> (r: bool)
        ensures
            r == (self@.len() == 0),
    {
        self.entries.len() == 0
    }

    /// The bytes of `id`, if it has any.
    pub fn get(&self, id: u32) -> (r: Option<&[u8]>)
        ensures
            match r {
                Some(b) => id < self@.len() && b@ == self@[id as int],
                None => id >= self@.len(),
            },
    {
        if (id as usize) < self.entries.len() {
            Some(self.entries[id as usize].as_slice())
        } else {
            None
        }
    }
}

fn append_bytes(dst: &mut Vec<u8>, src: &[u8])
    ensures
        final(dst)@ == old(dst)@ + src@,
{
    let mut i: usize = 0;
    while i < src.len()
        invariant
            i <= src@.len(),
            dst@ == old(dst)@ + src@.take(i as int),
        decreases src@.len() - i,
    {
        dst.push(src[i]);
        i += 1;
        assert(dst@ =~= old(dst)@ + src@.take(i as int));
    }
    assert(src@.take(i as int) =~= src@);
}

/// Builds the byte string of every id of `merges`: the 256 single bytes, then
/// each rule in id order.
pub fn build_vocab(merges: &MergeTable) -> (r: Vocabulary)
    requires
        rules_wf(merges@),
    ensures
        r@.len() == 256 + merges@.len(),
        forall|id: int| 0 <= id < r@.len() ==> #[trigger] r@[id] == expand(merges@, id as nat),
{
    let mut entries: Vec<Vec<u8>> = Vec::new();
    let mut b: u32 = 0;
    while b < 256
        invariant
            b <= 256,
            entries@.len() == b,
            forall|id: int| 0 <= id < b ==> #[trigger] entries@[id]@ == expand(merges@, id as nat),
        decreases 256 - b,
    {
        entries.push(vec![b as u8]);
        b += 1;
    }
    let n = merges.len();
    let mut k: usize = 0;
    while k < n
        invariant
            n == merges@.len(),
            rules_wf(merges@),
            k <= n,
            entries@.len() == 256 + k,
            forall|id: int| 0 <= id < 256 + k ==> #[trigger] entries@[id]@ == expand(merges@, id as nat),
        decreases n - k,
    {
        let (p0, p1) = merges.rule(k);
        assert(merges@[k as int].0 < 256 + k && merges@[k as int].1 < 256 + k);
        let mut merged: Vec<u8> = Vec::new();
        append_bytes(&mut merged, entries[p0 as usize].as_slice());
        append_bytes(&mut merged, entries[p1 as usize].as_slice());
        assert(merged@ =~= expand(merges@, (256 + k) as nat));
        entries.push(merged);
        k += 1;
    }
    let r = Vocabulary { entries };
    proof {
        assert forall|id: int| 0 <= id < r@.len() implies #[trigger] r@[id] == expand(merges@, id as nat) by {
            assert(r@[id] == r.entries@[id]@);
        }
    }
    r
}

/// The text of `ids`: the bytes of each id in order, read as UTF-8 with each
/// invalid span replaced by U+FFFD.
pub fn decode(vocab: &Vocabulary, ids: &[u32]) -> (r: String)
    requires
        forall|i: int| 0 <= i < ids@.len() ==> #[trigger] ids@[i] < vocab@.len(),
    ensures
        r@ == lossy_utf8(concat_bytes(vocab@, ids@)),
        valid_utf8(concat_bytes(vocab@, ids@)) ==> r@ == decode_utf8(concat_bytes(vocab@, ids@)),
{
    let mut bytes: Vec<u8> = Vec::new();
    let mut i: usize = 0;
    while i < ids.len()
        invariant
            i <= ids@.len(),
            forall|j: int| 0 <= j < ids@.len() ==> #[trigger] ids@[j] < vocab@.len(),
            bytes@ == concat_bytes(vocab@, ids@.take(i as int)),
        decreases ids@.len() - i,
    {
        let id = ids[i];
        proof {
            assert(ids@.take(i + 1).drop_last() =~= ids@.take(i as int));
            assert(vocab@[id as int] == vocab.entries@[id as int]@);
        }
        append_bytes(&mut bytes, vocab.entries[id as usize].as_slice());
        i += 1;
    }
    assert(ids@.take(i as int) =~= ids@);
    utf8_lossy(bytes.as_slice())
}

} // verus!
