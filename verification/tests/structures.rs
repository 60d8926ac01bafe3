use hotsax::AugmentedTrie;
use hotsax::HotSaxError;
use hotsax::RandomSource;
use hotsax::Threshold;
use hotsax::attach_freq_sax_words;
use hotsax::check_params;
use hotsax::check_range;
use hotsax::extract_hotsax_items;
use hotsax::paa_partition;
use hotsax::rescale_location;
use hotsax::shuffle_indexes;
use hotsax::squeezer;

fn w(s: &str) -> Vec<u8> {
    s.bytes().collect()
}

#[test]
fn trie_holds_inserted_words() {
    let mut trie = AugmentedTrie::new();
    trie.add_word(&w("aba"), 0);
    trie.add_word(&w("bca"), 1);
    trie.add_word(&w("aba"), 2);
    assert_eq!(trie.get_indexes(&w("aba")).unwrap(), vec![0, 2]);
    assert_eq!(trie.get_indexes(&w("bca")).unwrap(), vec![1]);
}

#[test]
fn trie_lookup_of_absent_word_is_an_error() {
    let mut trie = AugmentedTrie::new();
    trie.add_word(&w("ab"), 0);
    assert_eq!(trie.get_indexes(&w("ba")), Err(HotSaxError::LookupMiscompare));
    // A word of the wrong length is an error too, never a silent default.
    assert_eq!(trie.get_indexes(&w("a")), Err(HotSaxError::LookupMiscompare));
    assert_eq!(trie.get_indexes(&w("abc")), Err(HotSaxError::LookupMiscompare));
}

#[test]
fn trie_from_words_keeps_insertion_order() {
    let entries = vec![(0usize, w("ca")), (1, w("ab")), (2, w("ca")), (3, w("ca"))];
    let trie = AugmentedTrie::from_words(&entries);
    assert_eq!(trie.get_indexes(&w("ca")).unwrap(), vec![0, 2, 3]);
    assert_eq!(trie.get_indexes(&w("ab")).unwrap(), vec![1]);
}

#[test]
fn attach_freq_counts_each_word_over_the_whole_table() {
    let words = vec![w("aa"), w("ab"), w("aa"), w("aa"), w("ab")];
    let freqs = attach_freq_sax_words(&words);
    assert_eq!(freqs.len(), 5);
    let counts: Vec<usize> = freqs.iter().map(|e| e.1).collect();
    assert_eq!(counts, vec![3, 2, 3, 3, 2]);
    for (k, e) in freqs.iter().enumerate() {
        assert_eq!(e.0, words[k]);
    }
}

#[test]
fn squeezer_partitions_every_start() {
    // The partition property: the clusters cover every start exactly
    // once, whatever the words and the threshold.
    let words = vec![w("aa"), w("ab"), w("aa"), w("ba"), w("aa"), w("ab"), w("bb")];
    for thr in [
        Threshold { num: 1, den: 100 },
        Threshold { num: 1, den: 2 },
        Threshold { num: 9, den: 10 },
        Threshold { num: 1, den: 1 },
    ] {
        let clusters = squeezer(&words, &thr);
        let mut seen = vec![0usize; words.len()];
        for c in &clusters {
            assert!(!c.is_empty());
            for &i in c {
                assert!(i < words.len());
                seen[i] += 1;
            }
        }
        assert!(seen.iter().all(|&n| n == 1));
    }
}

#[test]
fn squeezer_groups_equal_words_and_splits_unlike_ones() {
    let words = vec![w("aa"), w("aa"), w("bb")];
    let clusters = squeezer(&words, &Threshold { num: 1, den: 2 });
    assert_eq!(clusters, vec![vec![0, 1], vec![2]]);
}

#[test]
fn squeezer_tie_breaks_on_the_first_cluster() {
    // Start 2 is equally similar (not at all) to both singleton
    // clusters; with a threshold of zero similarity never rejects, and
    // the first cluster attaining the maximum takes the start.
    let words = vec![w("aa"), w("bb"), w("cc")];
    let clusters = squeezer(&words, &Threshold { num: 1, den: 1 });
    // "cc" supports neither cluster, so it seeds its own.
    assert_eq!(clusters, vec![vec![0], vec![1], vec![2]]);
    let words2 = vec![w("aa"), w("aa"), w("aa")];
    let clusters2 = squeezer(&words2, &Threshold { num: 1, den: 1 });
    assert_eq!(clusters2, vec![vec![0, 1, 2]]);
}

#[test]
fn word_table_puts_rarest_words_first() {
    let words = vec![w("aa"), w("bb"), w("aa"), w("aa"), w("bb"), w("cc")];
    let mut src = RandomSource::Seeded(4);
    let (table, trie) = extract_hotsax_items(&words, &mut src);
    assert_eq!(table.len(), 6);
    // The one rarest word leads the table, and every start appears.
    assert_eq!(table[0].0, 5);
    assert_eq!(table[0].1 .1, 1);
    let mut idxs: Vec<usize> = table.iter().map(|e| e.0).collect();
    idxs.sort();
    assert_eq!(idxs, vec![0, 1, 2, 3, 4, 5]);
    for e in &table {
        assert_eq!(e.1 .0, words[e.0]);
    }
    // The trie behind the table maps each word to its ascending starts.
    assert_eq!(trie.get_indexes(&w("aa")).unwrap(), vec![0, 2, 3]);
    assert_eq!(trie.get_indexes(&w("bb")).unwrap(), vec![1, 4]);
    assert_eq!(trie.get_indexes(&w("cc")).unwrap(), vec![5]);
}

#[test]
fn check_params_accepts_the_documented_ranges() {
    assert!(check_params(100, 20, 3, 3).is_ok());
    assert!(check_params(100, 100, 100, 7).is_ok());
    assert_eq!(check_params(0, 1, 1, 3), Err(HotSaxError::InvalidParameter));
    assert_eq!(check_params(100, 0, 1, 3), Err(HotSaxError::InvalidParameter));
    assert_eq!(check_params(100, 101, 3, 3), Err(HotSaxError::InvalidParameter));
    assert_eq!(check_params(100, 20, 21, 3), Err(HotSaxError::InvalidParameter));
    assert_eq!(check_params(100, 20, 3, 2), Err(HotSaxError::InvalidParameter));
    assert_eq!(check_params(100, 20, 3, 8), Err(HotSaxError::InvalidParameter));
}

#[test]
fn check_range_rejects_ranges_past_the_series() {
    assert!(check_range(0, 100, 100).is_ok());
    assert!(check_range(10, 10, 100).is_ok());
    assert_eq!(check_range(5, 101, 100), Err(HotSaxError::OutOfRange));
    assert_eq!(check_range(7, 3, 100), Err(HotSaxError::OutOfRange));
}

#[test]
fn paa_partition_covers_the_series_in_equal_buckets() {
    let buckets = paa_partition(10, 3).unwrap();
    assert_eq!(buckets, vec![(0, 3), (3, 6), (6, 10)]);
    // Exactly the target number of buckets, contiguous from 0 to len.
    let buckets2 = paa_partition(999, 7).unwrap();
    assert_eq!(buckets2.len(), 7);
    assert_eq!(buckets2[0].0, 0);
    assert_eq!(buckets2[6].1, 999);
    for k in 0..6 {
        assert_eq!(buckets2[k].1, buckets2[k + 1].0);
        assert!(buckets2[k].0 < buckets2[k].1);
    }
}

#[test]
fn paa_partition_rejects_a_target_at_or_past_the_length() {
    assert_eq!(paa_partition(10, 10), Err(HotSaxError::InvalidParameter));
    assert_eq!(paa_partition(10, 11), Err(HotSaxError::InvalidParameter));
}

#[test]
fn rescaled_locations_stay_in_the_series() {
    assert_eq!(rescale_location(3, 1000, 10), Ok(300));
    assert_eq!(rescale_location(0, 10, 3), Ok(0));
    assert_eq!(rescale_location(3, 10, 3), Ok(9));
    assert_eq!(rescale_location(4, 10, 3), Err(HotSaxError::InvalidParameter));
    assert_eq!(rescale_location(1, 5, 0), Err(HotSaxError::InvalidParameter));
    assert_eq!(rescale_location(1, 5, 6), Err(HotSaxError::InvalidParameter));
}

#[test]
fn seeded_shuffle_repeats_and_permutes() {
    let mut v1: Vec<usize> = (0..50).collect();
    let mut v2: Vec<usize> = (0..50).collect();
    let mut s1 = RandomSource::Seeded(42);
    let mut s2 = RandomSource::Seeded(42);
    shuffle_indexes(&mut s1, &mut v1);
    shuffle_indexes(&mut s2, &mut v2);
    assert_eq!(v1, v2);
    let mut sorted = v1.clone();
    sorted.sort();
    let expected: Vec<usize> = (0..50).collect();
    assert_eq!(sorted, expected);
    assert_ne!(v1, expected);
}

#[test]
fn system_shuffle_permutes() {
    let mut v: Vec<usize> = (0..100).collect();
    let mut s = RandomSource::System;
    shuffle_indexes(&mut s, &mut v);
    let mut sorted = v.clone();
    sorted.sort();
    let expected: Vec<usize> = (0..100).collect();
    assert_eq!(sorted, expected);
}

#[test]
fn error_kinds_are_distinct() {
    let kinds = [
        HotSaxError::InvalidParameter,
        HotSaxError::DegenerateInput,
        HotSaxError::LookupMiscompare,
        HotSaxError::OutOfRange,
    ];
    for (a, x) in kinds.iter().enumerate() {
        for (b, y) in kinds.iter().enumerate() {
            assert_eq!(a == b, x == y);
        }
    }
}
