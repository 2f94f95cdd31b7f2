use tsuki_optimize::corpus::index_ngrams;
use tsuki_optimize::corpus::{build_bigram_adj, build_trigram_adj, count_ngrams};

#[test]
fn counts_repeated_pair() {
    let r = count_ngrams("そこそこ");
    assert_eq!(r.unigrams.len(), 64);
    assert_eq!(r.unigrams[0], 2);
    assert_eq!(r.unigrams[1], 2);
    assert_eq!(r.unigrams.iter().sum::<u64>(), 4);
    assert_eq!(r.bigrams, vec![(0, 1, 2), (1, 0, 1)]);
    assert_eq!(r.trigrams, vec![(0, 1, 0, 1), (1, 0, 1, 1)]);
    assert_eq!((r.total_chars, r.skipped_chars, r.segments), (4, 0, 1));
}

#[test]
fn unknown_character_cuts_ngrams() {
    let r = count_ngrams("そxこ");
    assert_eq!(r.unigrams[0], 1);
    assert_eq!(r.unigrams[1], 1);
    assert!(r.bigrams.is_empty());
    assert!(r.trigrams.is_empty());
    assert_eq!((r.total_chars, r.skipped_chars, r.segments), (2, 1, 2));
}

#[test]
fn line_breaks_are_skipped_without_cutting() {
    let r = count_ngrams("そ\r\nこ");
    assert_eq!(r.bigrams, vec![(0, 1, 1)]);
    assert_eq!((r.total_chars, r.skipped_chars, r.segments), (2, 0, 1));
}

#[test]
fn voiced_kana_are_decomposed() {
    // 'が' = 'か' (11) + '゛' (18)
    let r = count_ngrams("がそ");
    assert_eq!(r.unigrams[11], 1);
    assert_eq!(r.unigrams[18], 1);
    assert_eq!(r.unigrams[0], 1);
    assert_eq!(r.bigrams, vec![(11, 18, 1), (18, 0, 1)]);
    assert_eq!(r.trigrams, vec![(11, 18, 0, 1)]);
    assert_eq!(r.total_chars, 3);
}

#[test]
fn empty_and_unknown_only_corpus() {
    let r = count_ngrams("");
    assert_eq!(r.unigrams, vec![0u64; 64]);
    assert!(r.bigrams.is_empty());
    assert_eq!((r.total_chars, r.skipped_chars, r.segments), (0, 0, 0));
    let r = count_ngrams("abc");
    assert_eq!((r.total_chars, r.skipped_chars, r.segments), (0, 3, 0));
}

#[test]
fn bigram_adjacency_lists_each_index_once() {
    let adj = build_bigram_adj(&[(0, 1), (1, 1), (2, 0)]);
    assert_eq!(adj.len(), 64);
    assert_eq!(adj[0], vec![0, 2]);
    assert_eq!(adj[1], vec![0, 1]);
    assert_eq!(adj[2], vec![2]);
    assert!(adj[3].is_empty());
}

#[test]
fn trigram_adjacency_lists_each_index_once() {
    let adj = build_trigram_adj(&[(0, 0, 0), (0, 1, 2), (3, 1, 3)]);
    assert_eq!(adj.len(), 64);
    assert_eq!(adj[0], vec![0, 1]);
    assert_eq!(adj[1], vec![1, 2]);
    assert_eq!(adj[2], vec![1]);
    assert_eq!(adj[3], vec![2]);
}

#[test]
fn indexed_ngrams_list_touching_entries() {
    let r = index_ngrams("そこそこ");
    assert_eq!(r.counts.bigrams, vec![(0, 1, 2), (1, 0, 1)]);
    assert_eq!(r.bigram_adj.len(), 64);
    assert_eq!(r.bigram_adj[0], vec![0, 1]);
    assert_eq!(r.bigram_adj[1], vec![0, 1]);
    assert!(r.bigram_adj[2].is_empty());
    assert_eq!(r.trigram_adj[0], vec![0, 1]);
    assert_eq!(r.trigram_adj[1], vec![0, 1]);
}
