use bpe::{build_vocab, decode, encode, get_stats, merge, train};

fn byte_ids(text: &str) -> Vec<u32> {
    text.as_bytes().iter().map(|&b| b.into()).collect()
}

#[test]
fn test_get_stats() {
    let ids = vec![1, 2, 3, 1, 2];
    let stats = get_stats(&ids);
    assert_eq!(stats.get((1, 2)), Some(2));
    assert_eq!(stats.get((2, 3)), Some(1));
    assert_eq!(stats.get((3, 1)), Some(1));
}

#[test]
fn test_merge() {
    let ids = vec![1, 2, 3, 1, 2];
    let new_ids = merge(&ids, (1, 2), 4);
    assert_eq!(new_ids, vec![4, 3, 4])
}

#[test]
fn test_encode_decode() {
    let text = "The girl, unlike most people photographed for fashion magazines, was not beautiful.";
    let tokens: Vec<u32> = text.as_bytes().iter().map(|&b| b.into()).collect();
    let ids = tokens.clone();
    let merges = train(&ids, 512);
    let vocab = build_vocab(&merges);
    assert_eq!(decode(&vocab, &encode(&merges, text)), text);
}

#[test]
fn stats_exact_and_absent() {
    let stats = get_stats(&[1, 2, 3, 1, 2]);
    assert_eq!(stats.len(), 3);
    assert_eq!(stats.get((2, 1)), None);
    assert_eq!(stats.get((1, 3)), None);
    assert!(!stats.is_empty());
}

#[test]
fn stats_of_short_sequences_are_empty() {
    assert!(get_stats(&[]).is_empty());
    assert!(get_stats(&[7]).is_empty());
    assert_eq!(get_stats(&[7, 7]).get((7, 7)), Some(1));
}

#[test]
fn stats_count_overlapping_pairs() {
    let stats = get_stats(&[5, 5, 5, 5]);
    assert_eq!(stats.get((5, 5)), Some(3));
    assert_eq!(stats.len(), 1);
}

#[test]
fn most_frequent_breaks_ties_by_smallest_pair() {
    let stats = get_stats(&[9, 8, 1, 2]);
    assert_eq!(stats.most_frequent(), (1, 2));
    let stats = get_stats(&[3, 4, 3, 4, 1, 2]);
    assert_eq!(stats.most_frequent(), (3, 4));
}

#[test]
fn merge_overlapping_consumes_left_first() {
    assert_eq!(merge(&[7, 7, 7], (7, 7), 300), vec![300, 7]);
    assert_eq!(merge(&[7, 7, 7, 7], (7, 7), 300), vec![300, 300]);
}

#[test]
fn merge_edges() {
    assert_eq!(merge(&[], (1, 2), 9), Vec::<u32>::new());
    assert_eq!(merge(&[1], (1, 2), 9), vec![1]);
    assert_eq!(merge(&[3, 1], (1, 2), 9), vec![3, 1]);
    assert_eq!(merge(&[3, 1, 2], (1, 2), 9), vec![3, 9]);
}

#[test]
fn merge_shortens_by_replacements() {
    let ids = vec![1, 2, 1, 2, 1, 2, 5];
    let out = merge(&ids, (1, 2), 4);
    assert_eq!(out, vec![4, 4, 4, 5]);
    assert_eq!(ids.len() - out.len(), 3);
}

#[test]
fn train_with_zero_merges_is_empty() {
    let table = train(&byte_ids("hello world"), 0);
    assert!(table.is_empty());
}

#[test]
fn train_on_short_input_is_empty() {
    assert_eq!(train(&[], 10).len(), 0);
    assert_eq!(train(&[65], 10).len(), 0);
}

#[test]
fn train_picks_most_frequent_then_smallest() {
    // "aaabdaaabac": (97,97) occurs 4 times
    let table = train(&byte_ids("aaabdaaabac"), 3);
    assert_eq!(table.len(), 3);
    assert_eq!(table.rule(0), (97, 97));
    // after the first merge: [256,97,98,100,256,97,98,97,99]; (97,98) and (256,97) occur twice
    assert_eq!(table.rule(1), (97, 98));
    // then [256,257,100,256,257,97,99]: (256,257) occurs twice
    assert_eq!(table.rule(2), (256, 257));
}

#[test]
fn train_stops_when_one_symbol_left() {
    let table = train(&byte_ids("abab"), 10);
    // (97,98) -> 256, then (256,256) -> 257, then one symbol is left
    assert_eq!(table.len(), 2);
    assert_eq!(table.rule(0), (97, 98));
    assert_eq!(table.rule(1), (256, 256));
}

#[test]
fn trained_ids_are_contiguous_and_pairs_distinct() {
    let text = "the cat sat on the mat with the hat";
    let table = train(&byte_ids(text), 40);
    assert!(table.len() <= 40);
    for k in 0..table.len() {
        let (a, b) = table.rule(k);
        assert!(a < 256 + k as u32 && b < 256 + k as u32);
        for j in 0..k {
            assert_ne!(table.rule(j), table.rule(k));
        }
    }
}

#[test]
fn vocab_covers_bytes_and_rules() {
    let table = train(&byte_ids("abab"), 10);
    let vocab = build_vocab(&table);
    assert_eq!(vocab.len(), 258);
    assert_eq!(vocab.get(0), Some(&[0u8][..]));
    assert_eq!(vocab.get(255), Some(&[255u8][..]));
    assert_eq!(vocab.get(256), Some(&b"ab"[..]));
    assert_eq!(vocab.get(257), Some(&b"abab"[..]));
    assert_eq!(vocab.get(258), None);
}

#[test]
fn hello_world_without_merges() {
    let text = "hello world";
    let table = train(&byte_ids(text), 0);
    let ids = encode(&table, text);
    assert_eq!(ids, byte_ids(text));
    let vocab = build_vocab(&table);
    assert_eq!(decode(&vocab, &ids), "hello world");
}

#[test]
fn multibyte_text_round_trips() {
    let text = "李翊云：我觉得这里是两个问题，雷蒙德·卡佛是一个问题，《纽约客》是另一个问题。";
    let table = train(&byte_ids(text), 100);
    let vocab = build_vocab(&table);
    let ids = encode(&table, text);
    assert!(ids.len() < text.len());
    assert_eq!(decode(&vocab, &ids), text);
}

#[test]
fn round_trip_on_other_text() {
    let table = train(&byte_ids("In the dusk, a thin mist hung in the air."), 30);
    let vocab = build_vocab(&table);
    let text = "The black-clad girl taunted him from the magazine.";
    assert_eq!(decode(&vocab, &encode(&table, text)), text);
}

#[test]
fn encode_applies_earliest_rule_first() {
    let table = train(&byte_ids("abab"), 10);
    assert_eq!(encode(&table, "abab"), vec![257]);
    assert_eq!(encode(&table, "ababab"), vec![257, 256]);
    assert_eq!(encode(&table, "xab"), vec![120, 256]);
    assert_eq!(encode(&table, ""), Vec::<u32>::new());
}

#[test]
fn encode_output_has_no_mergeable_pair() {
    let table = train(&byte_ids("she sells sea shells by the sea shore"), 50);
    let ids = encode(&table, "the sea shells she sells");
    for w in ids.windows(2) {
        for k in 0..table.len() {
            assert_ne!(table.rule(k), (w[0], w[1]));
        }
    }
}

#[test]
fn decode_replaces_invalid_utf8() {
    let table = train(&[], 0);
    let vocab = build_vocab(&table);
    assert_eq!(decode(&vocab, &[104, 255, 105]), "h\u{FFFD}i");
    assert_eq!(decode(&vocab, &[]), "");
}

#[test]
fn decode_concatenates_merged_bytes() {
    let table = train(&byte_ids("abab"), 10);
    let vocab = build_vocab(&table);
    assert_eq!(decode(&vocab, &[257, 256, 99]), "abababc");
}
