use vstd::prelude::*;

use crate::rng::{RandomSource, shuffle_spec, shuffle_indexes};
use crate::trie::{AugmentedTrie, get_spec, trie_wf, occ_spec};

verus! {

/// How often a word occurs among the words of the table.
pub open spec fn word_count(words: Seq<Vec<u8>>, w: Seq<u8>) -> nat
    decreases words.len(),
{
    if words.len() == 0 {
        0
    } else {
        word_count(words.drop_last(), w) + (if words.last()@ == w {
            1nat
        } else {
            0nat
        })
    }
}

/// The starts below `upto` whose word reads `w`, in ascending order.
pub open spec fn matching_idx(words: Seq<Vec<u8>>, w: Seq<u8>, upto: int) -> Seq<usize>
    decreases upto,
{
    if upto <= 0 {
        Seq::empty()
    } else {
        let prev = matching_idx(words, w, upto - 1);
        if 0 <= upto - 1 < words.len() && words[upto - 1]@ == w {
            prev.push((upto - 1) as usize)
        } else {
            prev
        }
    }
}

/// The least occurrence count among the first `upto` words.
pub open spec fn min_freq_upto(words: Seq<Vec<u8>>, upto: int) -> nat
    decreases upto,
{
    if upto <= 1 {
        word_count(words, words[0]@)
    } else {
        let prev = min_freq_upto(words, upto - 1);
        let c = word_count(words, words[upto - 1]@);
        if c < prev {
            c
        } else {
            prev
        }
    }
}

/// The starts below `upto` whose word has exactly the count `mf`, in
/// ascending order.
pub open spec fn low_idx(words: Seq<Vec<u8>>, mf: nat, upto: int) -> Seq<usize>
    decreases upto,
{
    if upto <= 0 {
        Seq::empty()
    } else {
        let prev = low_idx(words, mf, upto - 1);
        if word_count(words, words[upto - 1]@) == mf {
            prev.push((upto - 1) as usize)
        } else {
            prev
        }
    }
}

/// The starts below `upto` whose word has a count other than `mf`, in
/// ascending order.
pub open spec fn high_idx(words: Seq<Vec<u8>>, mf: nat, upto: int) -> Seq<usize>
    decreases upto,
{
    if upto <= 0 {
        Seq::empty()
    } else {
        let prev = high_idx(words, mf, upto - 1);
        if word_count(words, words[upto - 1]@) != mf {
            prev.push((upto - 1) as usize)
        } else {
            prev
        }
    }
}

/// The starts whose word has the least count of the whole table, in
/// ascending order: the candidates every heuristic search tries first.
pub open spec fn min_count_starts(words: Seq<Vec<u8>>) -> Seq<usize> {
    low_idx(words, min_freq_upto(words, words.len() as int), words.len() as int)
}

/// The remaining starts, in ascending order.
pub open spec fn other_starts(words: Seq<Vec<u8>>) -> Seq<usize> {
    high_idx(words, min_freq_upto(words, words.len() as int), words.len() as int)
}

/// The word-table order a seeded source produces: the starts of
/// minimal count in ascending order, then the rest as the seeded
/// shuffle leaves them.
pub open spec fn seeded_table_order(words: Seq<Vec<u8>>, seed: u64) -> Seq<usize> {
    min_count_starts(words) + shuffle_spec(seed, other_starts(words)).1
}

/// The start column of a word table.
pub open spec fn wt_idx(wt: Seq<(usize, (Vec<u8>, usize))>) -> Seq<usize> {
    Seq::new(wt.len(), |k: int| wt[k].0)
}

/// Every start with the minimal count stands in `low_idx`, every other
/// start in `high_idx`, and both lists keep to starts below `upto`.
pub proof fn lemma_low_high_cover(words: Seq<Vec<u8>>, mf: nat, upto: int, i: usize)
    requires
        0 <= i < upto,
    ensures
        word_count(words, words[i as int]@) == mf ==> low_idx(words, mf, upto).contains(i),
        word_count(words, words[i as int]@) != mf ==> high_idx(words, mf, upto).contains(i),
    decreases upto,
{
    if i < upto - 1 {
        lemma_low_high_cover(words, mf, upto - 1, i);
        if word_count(words, words[i as int]@) == mf {
            let prev = low_idx(words, mf, upto - 1);
            assert(prev.contains(i));
            let k = choose|k: int| 0 <= k < prev.len() && prev[k] == i;
            if word_count(words, words[upto - 1]@) == mf {
                assert(low_idx(words, mf, upto)[k] == i);
            }
        } else {
            let prev = high_idx(words, mf, upto - 1);
            assert(prev.contains(i));
            let k = choose|k: int| 0 <= k < prev.len() && prev[k] == i;
            if word_count(words, words[upto - 1]@) != mf {
                assert(high_idx(words, mf, upto)[k] == i);
            }
        }
    } else {
        if word_count(words, words[i as int]@) == mf {
            assert(low_idx(words, mf, upto).last() == i);
        } else {
            assert(high_idx(words, mf, upto).last() == i);
        }
    }
}

/// Both lists hold only starts below `upto`.
pub proof fn lemma_low_high_range(words: Seq<Vec<u8>>, mf: nat, upto: int)
    ensures
        forall|q: int|
            0 <= q < low_idx(words, mf, upto).len() ==> (#[trigger] low_idx(words, mf, upto)[q])
                < upto,
        forall|q: int|
            0 <= q < high_idx(words, mf, upto).len() ==> (#[trigger] high_idx(words, mf, upto)[q])
                < upto,
    decreases upto,
{
    if upto > 0 {
        lemma_low_high_range(words, mf, upto - 1);
        let lp = low_idx(words, mf, upto - 1);
        let l = low_idx(words, mf, upto);
        assert forall|q: int| 0 <= q < l.len() implies l[q] < upto by {
            if q < lp.len() {
                assert(l[q] == lp[q]);
            }
        }
        let hp = high_idx(words, mf, upto - 1);
        let h = high_idx(words, mf, upto);
        assert forall|q: int| 0 <= q < h.len() implies h[q] < upto by {
            if q < hp.len() {
                assert(h[q] == hp[q]);
            }
        }
    }
}

/// Every start whose word matches stands in the matching list.
pub proof fn lemma_matching_cover(words: Seq<Vec<u8>>, i: usize, upto: int)
    requires
        0 <= i < upto,
        i < words.len(),
    ensures
        matching_idx(words, words[i as int]@, upto).contains(i),
    decreases upto,
{
    if i < upto - 1 {
        lemma_matching_cover(words, i, upto - 1);
        let prev = matching_idx(words, words[i as int]@, upto - 1);
        assert(prev.contains(i));
        let k = choose|k: int| 0 <= k < prev.len() && prev[k] == i;
        if 0 <= upto - 1 < words.len() && words[upto - 1]@ == words[i as int]@ {
            assert(matching_idx(words, words[i as int]@, upto)[k] == i);
        }
    } else {
        assert(matching_idx(words, words[i as int]@, upto).last() == i);
    }
}

/// The matching list holds only starts below `upto`.
pub proof fn lemma_matching_range(words: Seq<Vec<u8>>, w: Seq<u8>, upto: int)
    ensures
        forall|q: int|
            0 <= q < matching_idx(words, w, upto).len() ==> (#[trigger] matching_idx(
                words,
                w,
                upto,
            )[q]) < upto,
    decreases upto,
{
    if upto > 0 {
        lemma_matching_range(words, w, upto - 1);
        let mp = matching_idx(words, w, upto - 1);
        let mm = matching_idx(words, w, upto);
        assert forall|q: int| 0 <= q < mm.len() implies mm[q] < upto by {
            if q < mp.len() {
                assert(mm[q] == mp[q]);
            }
        }
    }
}

/// Each start below `upto` stands in exactly one of the two lists.
pub proof fn lemma_low_high_len(words: Seq<Vec<u8>>, mf: nat, upto: int)
    requires
        upto >= 0,
    ensures
        low_idx(words, mf, upto).len() + high_idx(words, mf, upto).len() == upto,
    decreases upto,
{
    if upto > 0 {
        lemma_low_high_len(words, mf, upto - 1);
    }
}

/// A fresh copy of one word.
pub fn copy_word(w: &Vec<u8>) -> (r: Vec<u8>)
    ensures
        r@ == w@,
{
    let mut r: Vec<u8> = Vec::new();
    let mut k: usize = 0;
    while k < w.len()
        invariant
            k <= w@.len(),
            r@ == w@.take(k as int),
        decreases w@.len() - k,
    {
        r.push(w[k]);
        proof {
            assert(r@ =~= w@.take(k as int + 1));
        }
        k += 1;
    }
    proof {
        assert(r@ =~= w@);
    }
    r
}

/// How often the word occurs in the table, by linear scan.
pub fn count_word(words: &Vec<Vec<u8>>, w: &Vec<u8>) -> (c: usize)
    ensures
        c == word_count(words@, w@),
{
    let mut c: usize = 0;
    let mut k: usize = 0;
    while k < words.len()
        invariant
            k <= words@.len(),
            c <= k,
            c == word_count(words@.take(k as int), w@),
        decreases words@.len() - k,
    {
        proof {
            assert(words@.take(k as int + 1).drop_last() =~= words@.take(k as int));
            assert(words@.take(k as int + 1).last() == words@[k as int]);
        }
        if words_eq(&words[k], w) {
            c += 1;
        }
        k += 1;
    }
    proof {
        assert(words@.take(words@.len() as int) =~= words@);
    }
    c
}

/// Whether two words read the same.
pub fn words_eq(a: &Vec<u8>, b: &Vec<u8>) -> (r: bool)
    ensures
        r == (a@ == b@),
{
    if a.len() != b.len() {
        return false;
    }
    let mut k: usize = 0;
    while k < a.len()
        invariant
            k <= a@.len(),
            a@.len() == b@.len(),
            forall|q: int| 0 <= q < k ==> a@[q] == b@[q],
        decreases a@.len() - k,
    {
        if a[k] != b[k] {
            return false;
        }
        k += 1;
    }
    proof {
        assert(a@ =~= b@);
    }
    true
}

/// Pairs every word of the table with the occurrence count of that word
/// across the whole table, in table order.
pub fn attach_freq_sax_words(words: &Vec<Vec<u8>>) -> (r: Vec<(Vec<u8>, usize)>)
    ensures
        r@.len() == words@.len(),
        forall|k: int|
            0 <= k < words@.len() ==> (#[trigger] r@[k]).0@ == words@[k]@ && r@[k].1
                == word_count(words@, words@[k]@),
{
    let mut r: Vec<(Vec<u8>, usize)> = Vec::new();
    let mut k: usize = 0;
    while k < words.len()
        invariant
            k <= words@.len(),
            r@.len() == k,
            forall|q: int|
                0 <= q < k ==> (#[trigger] r@[q]).0@ == words@[q]@ && r@[q].1 == word_count(
                    words@,
                    words@[q]@,
                ),
        decreases words@.len() - k,
    {
        let c = count_word(words, &words[k]);
        let w = copy_word(&words[k]);
        r.push((w, c));
        k += 1;
    }
    r
}

/// A trie built from entries pairing each start with its own word holds,
/// under any word, exactly the ascending starts whose word matches.
proof fn lemma_occ_matching(entries: Seq<(usize, Vec<u8>)>, words: Seq<Vec<u8>>, w: Seq<u8>)
    requires
        entries.len() <= words.len(),
        forall|q: int|
            0 <= q < entries.len() ==> (#[trigger] entries[q]).0 == q && entries[q].1@
                == words[q]@,
    ensures
        occ_spec(entries, w) == matching_idx(words, w, entries.len() as int),
    decreases entries.len(),
{
    if entries.len() > 0 {
        lemma_occ_matching(entries.drop_last(), words, w);
    }
}

/// Builds, from the words of a series, the two search aids of the
/// heuristic: the word table, holding every window start with its word
/// and that word's count, rarest words first (the starts of minimal
/// count in ascending order, then the rest in random order); and the
/// augmented trie mapping each word to the ascending starts that
/// produced it.
pub fn extract_hotsax_items(words: &Vec<Vec<u8>>, source: &mut RandomSource) -> (r: (
    Vec<(usize, (Vec<u8>, usize))>,
    AugmentedTrie,
))
    requires
        words@.len() >= 1,
        forall|k: int| 0 <= k < words@.len() ==> (#[trigger] words@[k])@.len() >= 1,
        forall|k1: int, k2: int|
            0 <= k1 < words@.len() && 0 <= k2 < words@.len() ==> (#[trigger] words@[k1])@.len()
                == (#[trigger] words@[k2])@.len(),
    ensures
        trie_wf(r.1, words@[0]@.len()),
        forall|w: Seq<u8>|
            #[trigger] get_spec(r.1, w) == (if matching_idx(words@, w, words@.len() as int).len()
                > 0 {
                Some(matching_idx(words@, w, words@.len() as int))
            } else {
                None::<Seq<usize>>
            }),
        r.0@.len() == words@.len(),
        forall|k: int|
            0 <= k < r.0@.len() ==> (#[trigger] r.0@[k]).0 < words@.len() && r.0@[k].1.0@
                == words@[r.0@[k].0 as int]@ && r.0@[k].1.1 == word_count(
                words@,
                words@[r.0@[k].0 as int]@,
            ),
        forall|i: usize| i < words@.len() ==> wt_idx(r.0@).contains(i),
        wt_idx(r.0@).take(min_count_starts(words@).len() as int) == min_count_starts(words@),
        wt_idx(r.0@).skip(min_count_starts(words@).len() as int).to_multiset() == other_starts(
            words@,
        ).to_multiset(),
        forall|s: u64|
            *old(source) == RandomSource::Seeded(s) ==> wt_idx(r.0@) == low_idx(
                words@,
                min_freq_upto(words@, words@.len() as int),
                words@.len() as int,
            ) + shuffle_spec(
                s,
                high_idx(words@, min_freq_upto(words@, words@.len() as int), words@.len() as int),
            ).1 && *final(source) == RandomSource::Seeded(
                shuffle_spec(
                    s,
                    high_idx(
                        words@,
                        min_freq_upto(words@, words@.len() as int),
                        words@.len() as int,
                    ),
                ).0,
            ),
        *old(source) is System ==> *final(source) is System,
{
    let m = words.len();
    let ghost wseq = words@;

    // The trie over every (start, word) entry, inserted in start order.
    let mut entries: Vec<(usize, Vec<u8>)> = Vec::new();
    let mut k: usize = 0;
    while k < m
        invariant
            k <= m,
            m == wseq.len(),
            words@ == wseq,
            forall|q: int| 0 <= q < wseq.len() ==> (#[trigger] wseq[q])@.len() >= 1,
            forall|k1: int, k2: int|
                0 <= k1 < wseq.len() && 0 <= k2 < wseq.len() ==> (#[trigger] wseq[k1])@.len() == (
                #[trigger] wseq[k2])@.len(),
            entries@.len() == k,
            forall|q: int|
                0 <= q < k ==> (#[trigger] entries@[q]).0 == q && entries@[q].1@ == wseq[q]@,
        decreases m - k,
    {
        let w = copy_word(&words[k]);
        entries.push((k, w));
        k += 1;
    }
    let trie = AugmentedTrie::from_words(&entries);
    proof {
        assert(entries@[0].1@.len() == wseq[0]@.len());
        assert forall|w: Seq<u8>| #[trigger] get_spec(trie, w) == (if matching_idx(
            wseq,
            w,
            wseq.len() as int,
        ).len() > 0 {
            Some(matching_idx(wseq, w, wseq.len() as int))
        } else {
            None::<Seq<usize>>
        }) by {
            lemma_occ_matching(entries@, wseq, w);
        }
    }

    // The count of each word, then the least count.
    let freqs = attach_freq_sax_words(words);
    let mut mf: usize = freqs[0].1;
    let mut k2: usize = 1;
    while k2 < m
        invariant
            1 <= k2 <= m,
            m == wseq.len(),
            words@ == wseq,
            freqs@.len() == m,
            forall|q: int|
                0 <= q < m ==> (#[trigger] freqs@[q]).1 == word_count(wseq, wseq[q]@),
            mf == min_freq_upto(wseq, k2 as int),
        decreases m - k2,
    {
        let c = freqs[k2].1;
        if c < mf {
            mf = c;
        }
        k2 += 1;
    }
    let ghost mfn = mf as nat;

    // Starts of minimal count, then the rest.
    let mut low: Vec<usize> = Vec::new();
    let mut high: Vec<usize> = Vec::new();
    let mut i: usize = 0;
    while i < m
        invariant
            i <= m,
            m == wseq.len(),
            words@ == wseq,
            freqs@.len() == m,
            forall|q: int|
                0 <= q < m ==> (#[trigger] freqs@[q]).1 == word_count(wseq, wseq[q]@),
            mf as nat == mfn,
            low@ == low_idx(wseq, mfn, i as int),
            high@ == high_idx(wseq, mfn, i as int),
        decreases m - i,
    {
        if freqs[i].1 == mf {
            low.push(i);
        } else {
            high.push(i);
        }
        i += 1;
    }
    let ghost high0 = high@;
    shuffle_indexes(source, &mut high);
    proof {
        broadcast use vstd::seq_lib::to_multiset_contains;

        lemma_low_high_range(wseq, mfn, m as int);
        assert forall|q: int| 0 <= q < high@.len() implies (#[trigger] high@[q]) < m by {
            assert(high@.contains(high@[q]));
            assert(high@.to_multiset().count(high@[q]) > 0);
            assert(high0.to_multiset().count(high@[q]) > 0);
            assert(high0.contains(high@[q]));
        }
    }

    // The table: the starts in their final order, each with its word and
    // the word's count.
    let mut wt: Vec<(usize, (Vec<u8>, usize))> = Vec::new();
    let mut a: usize = 0;
    while a < low.len()
        invariant
            a <= low@.len(),
            m == wseq.len(),
            words@ == wseq,
            freqs@.len() == m,
            forall|q: int|
                0 <= q < m ==> (#[trigger] freqs@[q]).1 == word_count(wseq, wseq[q]@),
            forall|q: int| 0 <= q < low@.len() ==> (#[trigger] low@[q]) < m,
            wt@.len() == a,
            forall|q: int|
                0 <= q < a ==> (#[trigger] wt@[q]).0 == low@[q] && wt@[q].1.0@ == wseq[wt@[q].0 as int]@
                    && wt@[q].1.1 == word_count(wseq, wseq[wt@[q].0 as int]@),
        decreases low@.len() - a,
    {
        let idx = low[a];
        let w = copy_word(&words[idx]);
        let f = freqs[idx].1;
        wt.push((idx, (w, f)));
        a += 1;
    }
    let ghost low_len = low@.len() as int;
    let mut b: usize = 0;
    while b < high.len()
        invariant
            b <= high@.len(),
            m == wseq.len(),
            words@ == wseq,
            freqs@.len() == m,
            forall|q: int|
                0 <= q < m ==> (#[trigger] freqs@[q]).1 == word_count(wseq, wseq[q]@),
            forall|q: int| 0 <= q < high@.len() ==> (#[trigger] high@[q]) < m,
            forall|q: int| 0 <= q < low@.len() ==> (#[trigger] low@[q]) < m,
            low_len == low@.len() as int,
            wt@.len() == low@.len() + b,
            forall|q: int|
                0 <= q < low_len ==> (#[trigger] wt@[q]).0 == low@[q],
            forall|q: int|
                low_len <= q < wt@.len() ==> (#[trigger] wt@[q]).0 == high@[q - low_len],
            forall|q: int|
                0 <= q < wt@.len() ==> (#[trigger] wt@[q]).0 < m && wt@[q].1.0@ == wseq[wt@[q].0 as int]@
                    && wt@[q].1.1 == word_count(wseq, wseq[wt@[q].0 as int]@),
        decreases high@.len() - b,
    {
        let idx = high[b];
        let w = copy_word(&words[idx]);
        let f = freqs[idx].1;
        wt.push((idx, (w, f)));
        b += 1;
    }
    proof {
        broadcast use vstd::seq_lib::to_multiset_contains;

        assert(wt_idx(wt@) =~= low@ + high@);
        lemma_low_high_range(wseq, mfn, m as int);
        lemma_low_high_len(wseq, mfn, m as int);
        assert(wt@.len() == m);
        assert(wt_idx(wt@).take(low@.len() as int) =~= low@);
        assert(wt_idx(wt@).skip(low@.len() as int) =~= high@);
        assert forall|ix: usize| ix < wseq.len() implies wt_idx(wt@).contains(ix) by {
            lemma_low_high_cover(wseq, mfn, m as int, ix);
            if word_count(wseq, wseq[ix as int]@) == mfn {
                let q = choose|q: int| 0 <= q < low@.len() && low@[q] == ix;
                assert(wt_idx(wt@)[q] == ix);
            } else {
                assert(high0.contains(ix));
                assert(high0.to_multiset().count(ix) > 0);
                assert(high@.to_multiset().count(ix) > 0);
                assert(high@.contains(ix));
                let q = choose|q: int| 0 <= q < high@.len() && high@[q] == ix;
                assert(wt_idx(wt@)[low_len + q] == ix);
            }
        }
    }
    (wt, trie)
}

} // verus!
