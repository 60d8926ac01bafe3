use vstd::prelude::*;

use crate::table::{
    DIST_INF, table_wf, pair_valid, nn_upto, nn, lemma_nn_upto_le_inf,
    lemma_nn_upto_le_elem, lemma_le_nn_upto, lemma_table_views, contains_index,
};
use crate::trie::{AugmentedTrie, get_spec};
use crate::words::wt_idx;
use crate::rng::{RandomSource, shuffle_indexes};
use crate::squeezer::{Threshold, squeezer, squeezer_spec, cl_view};

verus! {

/// The running best of an exhaustive scan over the candidates below
/// `upto`: the candidate with the largest finite nearest-neighbour key,
/// the earliest such candidate on ties, skipped candidates left out. A
/// candidate with no neighbour at all has the infinite key and is no
/// discord.
pub open spec fn bf_spec(t: Seq<Seq<u64>>, w: nat, skip: Seq<usize>, upto: int) -> (u64, usize)
    decreases upto,
{
    if upto <= 0 {
        (0u64, 0usize)
    } else {
        let prev = bf_spec(t, w, skip, upto - 1);
        let i = upto - 1;
        if skip.contains(i as usize) {
            prev
        } else {
            if nn(t, w, i) > prev.0 && nn(t, w, i) < DIST_INF {
                (nn(t, w, i), i as usize)
            } else {
                prev
            }
        }
    }
}

/// What the exhaustive scan guarantees: a zero key names no location; a
/// non-zero key is finite, is the nearest-neighbour key of the reported
/// unskipped location, and no unskipped candidate with a finite key has
/// a larger one.
pub proof fn lemma_bf_spec_props(t: Seq<Seq<u64>>, w: nat, skip: Seq<usize>, upto: int)
    requires
        upto <= t.len(),
        t.len() <= usize::MAX,
    ensures
        bf_spec(t, w, skip, upto).0 == 0 ==> bf_spec(t, w, skip, upto).1 == 0,
        bf_spec(t, w, skip, upto).0 != 0 ==> 0 < bf_spec(t, w, skip, upto).0 < DIST_INF && 0
            <= bf_spec(t, w, skip, upto).1 < upto && !skip.contains(bf_spec(t, w, skip, upto).1)
            && nn(t, w, bf_spec(t, w, skip, upto).1 as int) == bf_spec(t, w, skip, upto).0,
        forall|i: int|
            0 <= i < upto && !skip.contains(i as usize) ==> #[trigger] nn(t, w, i) <= bf_spec(
                t,
                w,
                skip,
                upto,
            ).0 || nn(t, w, i) == DIST_INF,
    decreases upto,
{
    if upto > 0 {
        lemma_bf_spec_props(t, w, skip, upto - 1);
        let r = bf_spec(t, w, skip, upto);
        let prev = bf_spec(t, w, skip, upto - 1);
        assert forall|i: int|
            0 <= i < upto && !skip.contains(i as usize) implies #[trigger] nn(t, w, i) <= r.0
            || nn(t, w, i) == DIST_INF by {
            if i < upto - 1 {
                assert(nn(t, w, i) <= prev.0 || nn(t, w, i) == DIST_INF);
                assert(prev.0 <= r.0);
            } else {
                lemma_nn_upto_le_inf(t, w, i, t.len() as int);
            }
        }
    }
}

/// A larger skip set can only lower the best key the scan reports.
pub proof fn lemma_bf_spec_skip_mono(t: Seq<Seq<u64>>, w: nat, s1: Seq<usize>, s2: Seq<usize>, upto: int)
    requires
        forall|x: usize| s1.contains(x) ==> s2.contains(x),
    ensures
        bf_spec(t, w, s2, upto).0 <= bf_spec(t, w, s1, upto).0,
    decreases upto,
{
    if upto > 0 {
        lemma_bf_spec_skip_mono(t, w, s1, s2, upto - 1);
    }
}

/// The starts 0, 1, ... up to `m`.
pub open spec fn range_seq(m: int) -> Seq<usize> {
    Seq::new(m as nat, |q: int| q as usize)
}

/// The running best of a heuristic scan along a candidate order: a
/// candidate not skipped replaces the best when its nearest-neighbour
/// key is larger, finite ones only. This is what both index-assisted
/// strategies compute: their probe sets and early abandonment change
/// the work done, never the result.
pub open spec fn hs_spec(
    t: Seq<Seq<u64>>,
    w: nat,
    skip: Seq<usize>,
    cands: Seq<usize>,
    upto: int,
) -> (u64, usize)
    decreases upto,
{
    if upto <= 0 {
        (0u64, 0usize)
    } else {
        let prev = hs_spec(t, w, skip, cands, upto - 1);
        let c = cands[upto - 1];
        if skip.contains(c) {
            prev
        } else {
            if nn(t, w, c as int) > prev.0 && nn(t, w, c as int) < DIST_INF {
                (nn(t, w, c as int), c)
            } else {
                prev
            }
        }
    }
}

/// What the heuristic scan guarantees: a zero key names no location; a
/// non-zero key is finite, is the nearest-neighbour key of the reported
/// unskipped location, and no unskipped candidate with a finite key has
/// a larger one.
pub proof fn lemma_hs_spec_props(t: Seq<Seq<u64>>, w: nat, skip: Seq<usize>, cands: Seq<usize>, upto: int)
    requires
        upto <= cands.len(),
        forall|q: int| 0 <= q < cands.len() ==> (#[trigger] cands[q]) < t.len(),
    ensures
        hs_spec(t, w, skip, cands, upto).0 == 0 ==> hs_spec(t, w, skip, cands, upto).1 == 0,
        hs_spec(t, w, skip, cands, upto).0 != 0 ==> 0 < hs_spec(t, w, skip, cands, upto).0
            < DIST_INF && hs_spec(t, w, skip, cands, upto).1 < t.len() && !skip.contains(
            hs_spec(t, w, skip, cands, upto).1,
        ) && nn(t, w, hs_spec(t, w, skip, cands, upto).1 as int) == hs_spec(
            t,
            w,
            skip,
            cands,
            upto,
        ).0,
        forall|q: int|
            0 <= q < upto && !skip.contains(cands[q]) ==> #[trigger] nn(t, w, cands[q] as int)
                <= hs_spec(t, w, skip, cands, upto).0 || nn(t, w, cands[q] as int) == DIST_INF,
    decreases upto,
{
    if upto > 0 {
        lemma_hs_spec_props(t, w, skip, cands, upto - 1);
        let r = hs_spec(t, w, skip, cands, upto);
        let prev = hs_spec(t, w, skip, cands, upto - 1);
        assert forall|q: int|
            0 <= q < upto && !skip.contains(cands[q]) implies #[trigger] nn(t, w, cands[q] as int)
            <= r.0 || nn(t, w, cands[q] as int) == DIST_INF by {
            if q < upto - 1 {
                assert(nn(t, w, cands[q] as int) <= prev.0 || nn(t, w, cands[q] as int)
                    == DIST_INF);
                assert(prev.0 <= r.0);
            } else {
                lemma_nn_upto_le_inf(t, w, cands[q] as int, t.len() as int);
            }
        }
    }
}

/// A larger skip set can only lower the best key the heuristic reports.
pub proof fn lemma_hs_spec_skip_mono(
    t: Seq<Seq<u64>>,
    w: nat,
    s1: Seq<usize>,
    s2: Seq<usize>,
    cands: Seq<usize>,
    upto: int,
)
    requires
        forall|x: usize| s1.contains(x) ==> s2.contains(x),
    ensures
        hs_spec(t, w, s2, cands, upto).0 <= hs_spec(t, w, s1, cands, upto).0,
    decreases upto,
{
    if upto > 0 {
        lemma_hs_spec_skip_mono(t, w, s1, s2, cands, upto - 1);
    }
}

/// The outcome of one brute-force round, as a function of the skip
/// set alone.
pub open spec fn bf_round(t: Seq<Seq<u64>>, w: nat) -> spec_fn(Seq<usize>) -> (u64, usize) {
    |skip: Seq<usize>| bf_spec(t, w, skip, t.len() as int)
}

/// The outcome of one heuristic round over a fixed candidate order, as
/// a function of the skip set alone.
pub open spec fn hs_round(t: Seq<Seq<u64>>, w: nat, cands: Seq<usize>) -> spec_fn(
    Seq<usize>,
) -> (u64, usize) {
    |skip: Seq<usize>| hs_spec(t, w, skip, cands, cands.len() as int)
}

/// Brute force search for the best discord: for every start not in the
/// skip set, the nearest non-overlapping neighbour is found by a full
/// scan, and the start whose neighbour is furthest wins, finite
/// neighbours only — a start with no neighbour at all is no discord.
/// The result is exactly the fold `bf_spec` over the candidates in
/// start order.
pub fn brute_force_internal(table: &Vec<Vec<u64>>, n: usize, skip_over: &Vec<usize>) -> (r: (
    u64,
    usize,
))
    requires
        table_wf(table.deep_view()),
        n >= 1,
        table@.len() + n <= usize::MAX,
    ensures
        r == bf_spec(table.deep_view(), n as nat, skip_over@, table.deep_view().len() as int),
{
    let ghost t = table.deep_view();
    let m = table.len();
    proof {
        lemma_table_views(*table);
        assert(t.len() == m);
    }
    let mut best_dist: u64 = 0;
    let mut best_loc: usize = 0;
    let mut i: usize = 0;
    while i < m
        invariant
            i <= m,
            m == t.len(),
            m == table@.len(),
            table.deep_view() == t,
            table_wf(t),
            n >= 1,
            m + n <= usize::MAX,
            (best_dist, best_loc) == bf_spec(t, n as nat, skip_over@, i as int),
        decreases m - i,
    {
        if !contains_index(skip_over, i) {
            let mut neigh_dist: u64 = DIST_INF;
            let mut j: usize = 0;
            while j < m
                invariant
                    j <= m,
                    i < m,
                    m == t.len(),
                    m == table@.len(),
                    table.deep_view() == t,
                    table_wf(t),
                    n >= 1,
                    m + n <= usize::MAX,
                    neigh_dist == nn_upto(t, n as nat, i as int, j as int),
                decreases m - j,
            {
                if i >= j + n || j >= i + n {
                    proof {
                        lemma_table_views(*table);
                        assert(t[i as int] == table@[i as int]@);
                        assert(table@[i as int]@.len() == m);
                    }
                    let dist = table[i][j];
                    proof {
                        assert(t[i as int][j as int] == table@[i as int]@[j as int]);
                        assert(pair_valid(m as int, n as nat, i as int, j as int));
                    }
                    if dist < neigh_dist {
                        neigh_dist = dist;
                    }
                } else {
                    proof {
                        assert(!pair_valid(m as int, n as nat, i as int, j as int));
                    }
                }
                j += 1;
            }
            proof {
                assert(neigh_dist == nn(t, n as nat, i as int));
            }
            if neigh_dist > best_dist && neigh_dist < DIST_INF {
                best_dist = neigh_dist;
                best_loc = i;
            }
        }
        i += 1;
    }
    (best_dist, best_loc)
}

/// The heuristic (HOT SAX) search for the best discord. Candidates are
/// taken in word-table order, rarest words first; for each, the starts
/// sharing its word (from the trie) give a cheap estimate that can
/// abandon the candidate early, and a full scan in random order settles
/// the rest. Early abandonment only skips work: the result equals the
/// plain heuristic fold `hs_spec` over the word-table order, whatever
/// the random source draws.
pub fn hot_sax_internal(
    sorted_word_table: &Vec<(usize, (Vec<u8>, usize))>,
    word_trie: &AugmentedTrie,
    discord_size: usize,
    table: &Vec<Vec<u64>>,
    skip_over: &Vec<usize>,
    source: &mut RandomSource,
) -> (r: (u64, usize))
    requires
        table_wf(table.deep_view()),
        discord_size >= 1,
        table@.len() + discord_size <= usize::MAX,
        forall|k: int|
            0 <= k < sorted_word_table@.len() ==> (#[trigger] sorted_word_table@[k]).0
                < table@.len(),
        forall|k: int|
            0 <= k < sorted_word_table@.len() ==> (#[trigger] get_spec(
                *word_trie,
                sorted_word_table@[k].1.0@,
            )) is Some,
        forall|k: int, q: int|
            0 <= k < sorted_word_table@.len() && 0 <= q < get_spec(
                *word_trie,
                sorted_word_table@[k].1.0@,
            ).unwrap().len() ==> (#[trigger] get_spec(
                *word_trie,
                sorted_word_table@[k].1.0@,
            ).unwrap()[q]) < table@.len(),
    ensures
        r == hs_spec(
            table.deep_view(),
            discord_size as nat,
            skip_over@,
            wt_idx(sorted_word_table@),
            sorted_word_table@.len() as int,
        ),
{
    let ghost t = table.deep_view();
    let ghost wnat = discord_size as nat;
    let ghost cands = wt_idx(sorted_word_table@);
    let m = table.len();
    proof {
        lemma_table_views(*table);
    }
    let mut best_dist: u64 = 0;
    let mut best_loc: usize = 0;
    let mut k: usize = 0;
    while k < sorted_word_table.len()
        invariant
            k <= sorted_word_table@.len(),
            m == t.len(),
            m == table@.len(),
            table.deep_view() == t,
            table_wf(t),
            discord_size >= 1,
            m + discord_size <= usize::MAX,
            wnat == discord_size as nat,
            cands == wt_idx(sorted_word_table@),
            forall|kk: int|
                0 <= kk < sorted_word_table@.len() ==> (#[trigger] sorted_word_table@[kk]).0 < m,
            forall|kk: int|
                0 <= kk < sorted_word_table@.len() ==> (#[trigger] get_spec(
                    *word_trie,
                    sorted_word_table@[kk].1.0@,
                )) is Some,
            forall|kk: int, q: int|
                0 <= kk < sorted_word_table@.len() && 0 <= q < get_spec(
                    *word_trie,
                    sorted_word_table@[kk].1.0@,
                ).unwrap().len() ==> (#[trigger] get_spec(
                    *word_trie,
                    sorted_word_table@[kk].1.0@,
                ).unwrap()[q]) < m,
            (best_dist, best_loc) == hs_spec(t, wnat, skip_over@, cands, k as int),
        decreases sorted_word_table@.len() - k,
    {
        let i = sorted_word_table[k].0;
        proof {
            assert(cands[k as int] == i);
        }
        if !contains_index(skip_over, i) {
            // Cheap estimate: scan the other starts that share this
            // candidate's word.
            let occs = match word_trie.get_indexes(&sorted_word_table[k].1.0) {
                Ok(v) => v,
                Err(_) => {
                    proof {
                        assert(get_spec(*word_trie, sorted_word_table@[k as int].1.0@) is Some);
                        assert(false);
                    }
                    Vec::new()
                },
            };
            proof {
                assert(occs@ == get_spec(*word_trie, sorted_word_table@[k as int].1.0@).unwrap());
                lemma_nn_upto_le_inf(t, wnat, i as int, m as int);
            }
            let mut do_random = true;
            let mut neigh_dist: u64 = DIST_INF;
            let mut q: usize = 0;
            while q < occs.len() && do_random
                invariant
                    q <= occs@.len(),
                    i < m,
                    m == t.len(),
                    m == table@.len(),
                    table.deep_view() == t,
                    table_wf(t),
                    discord_size >= 1,
                    wnat == discord_size as nat,
                    m + discord_size <= usize::MAX,
                    forall|x: int| 0 <= x < occs@.len() ==> (#[trigger] occs@[x]) < m,
                    nn(t, wnat, i as int) <= neigh_dist,
                    neigh_dist <= DIST_INF,
                    !do_random ==> nn(t, wnat, i as int) < best_dist,
                decreases occs@.len() - q,
            {
                let j = occs[q];
                if i >= j + discord_size || j >= i + discord_size {
                    proof {
                        lemma_table_views(*table);
                        assert(pair_valid(m as int, wnat, i as int, j as int));
                        lemma_nn_upto_le_elem(t, wnat, i as int, m as int, j as int);
                        assert(t[i as int][j as int] == table@[i as int]@[j as int]);
                        assert(table@[i as int]@.len() == m);
                    }
                    let dist = table[i][j];
                    if dist < neigh_dist {
                        neigh_dist = dist;
                    }
                    if dist < best_dist {
                        do_random = false;
                    }
                }
                q += 1;
            }
            if do_random {
                // Full scan over every start, in random order.
                let mut nums: Vec<usize> = Vec::new();
                let mut x: usize = 0;
                while x < m
                    invariant
                        x <= m,
                        nums@ == range_seq(m as int).take(x as int),
                    decreases m - x,
                {
                    nums.push(x);
                    proof {
                        assert(nums@ =~= range_seq(m as int).take(x as int + 1));
                    }
                    x += 1;
                }
                proof {
                    assert(nums@ =~= range_seq(m as int));
                }
                shuffle_indexes(source, &mut nums);
                proof {
                    broadcast use vstd::seq_lib::to_multiset_contains;

                    assert forall|j: usize| j < m implies nums@.contains(j) by {
                        assert(range_seq(m as int)[j as int] == j);
                        assert(range_seq(m as int).contains(j));
                        assert(range_seq(m as int).to_multiset().count(j) > 0);
                        assert(nums@.to_multiset().count(j) > 0);
                    }
                    assert forall|x2: int| 0 <= x2 < nums@.len() implies (#[trigger] nums@[x2])
                        < m by {
                        assert(nums@.contains(nums@[x2]));
                        assert(nums@.to_multiset().count(nums@[x2]) > 0);
                        assert(range_seq(m as int).to_multiset().count(nums@[x2]) > 0);
                        assert(range_seq(m as int).contains(nums@[x2]));
                    }
                }
                let mut aborted = false;
                let mut x2: usize = 0;
                while x2 < nums.len() && !aborted
                    invariant
                        x2 <= nums@.len(),
                        i < m,
                        m == t.len(),
                        m == table@.len(),
                        table.deep_view() == t,
                        table_wf(t),
                        discord_size >= 1,
                        wnat == discord_size as nat,
                        m + discord_size <= usize::MAX,
                        forall|y: int| 0 <= y < nums@.len() ==> (#[trigger] nums@[y]) < m,
                        nn(t, wnat, i as int) <= neigh_dist,
                        neigh_dist <= DIST_INF,
                        forall|y: int|
                            0 <= y < x2 && pair_valid(m as int, wnat, i as int, nums@[y] as int)
                                ==> neigh_dist <= #[trigger] t[i as int][nums@[y] as int],
                        aborted ==> nn(t, wnat, i as int) < best_dist,
                    decreases nums@.len() - x2,
                {
                    let j = nums[x2];
                    if i >= j + discord_size || j >= i + discord_size {
                        proof {
                            lemma_table_views(*table);
                            assert(pair_valid(m as int, wnat, i as int, j as int));
                            lemma_nn_upto_le_elem(t, wnat, i as int, m as int, j as int);
                            assert(t[i as int][j as int] == table@[i as int]@[j as int]);
                            assert(table@[i as int]@.len() == m);
                        }
                        let dist = table[i][j];
                        if dist < neigh_dist {
                            neigh_dist = dist;
                        }
                        if dist < best_dist {
                            aborted = true;
                        }
                    }
                    proof {
                        assert forall|y: int|
                            0 <= y < x2 + 1 && pair_valid(
                                m as int,
                                wnat,
                                i as int,
                                nums@[y] as int,
                            ) implies neigh_dist <= #[trigger] t[i as int][nums@[y] as int] by {}
                    }
                    x2 += 1;
                }
                if !aborted {
                    proof {
                        assert forall|j: int|
                            pair_valid(m as int, wnat, i as int, j) implies neigh_dist
                            <= #[trigger] t[i as int][j] by {
                            let ju = j as usize;
                            assert(nums@.contains(ju));
                            let y = choose|y: int| 0 <= y < nums@.len() && nums@[y] == ju;
                            assert(neigh_dist <= t[i as int][nums@[y] as int]);
                        }
                        lemma_le_nn_upto(t, wnat, i as int, m as int, neigh_dist);
                        assert(neigh_dist == nn(t, wnat, i as int));
                    }
                    if neigh_dist > best_dist && neigh_dist < DIST_INF {
                        best_dist = neigh_dist;
                        best_loc = i;
                    }
                } else {
                    proof {
                        assert(nn(t, wnat, i as int) < best_dist);
                    }
                }
            }
        }
        k += 1;
    }
    (best_dist, best_loc)
}

/// The first cluster of minimal size among the first `upto` clusters.
pub open spec fn smallest_idx_upto(cls: Seq<Seq<usize>>, upto: int) -> int
    decreases upto,
{
    if upto <= 1 {
        0
    } else {
        let prev = smallest_idx_upto(cls, upto - 1);
        if 0 <= upto - 1 < cls.len() && 0 <= prev < cls.len() && cls[upto - 1].len()
            < cls[prev].len() {
            upto - 1
        } else {
            prev
        }
    }
}

/// The candidate order of the cluster-assisted strategy: the members of
/// the smallest cluster first, then every start in sequence order.
pub open spec fn sq_cands(words: Seq<Vec<u8>>, thr: Threshold, m: int) -> Seq<usize> {
    let cls = squeezer_spec(words, thr, m);
    cls[smallest_idx_upto(cls, cls.len() as int)] + range_seq(m)
}

/// The cluster-assisted search for the best discord. The words are
/// clustered by the incremental clusterer; candidates are taken from
/// the smallest cluster first and then in sequence order, and each
/// candidate's own cluster gives the cheap estimate that can abandon it
/// early. As with the heuristic, the result equals the plain fold
/// `hs_spec` over that candidate order, whatever the random source
/// draws.
pub fn hs_squeezer_internal(
    words: &Vec<Vec<u8>>,
    discord_size: usize,
    table: &Vec<Vec<u64>>,
    threshold: &Threshold,
    skip_over: &Vec<usize>,
    source: &mut RandomSource,
) -> (r: (u64, usize))
    requires
        table_wf(table.deep_view()),
        discord_size >= 1,
        table@.len() + discord_size <= usize::MAX,
        words@.len() == table@.len(),
        words@.len() >= 1,
        words@.len() < 0x1_0000_0000,
        threshold.wf(),
    ensures
        r == hs_spec(
            table.deep_view(),
            discord_size as nat,
            skip_over@,
            sq_cands(words@, *threshold, table@.len() as int),
            sq_cands(words@, *threshold, table@.len() as int).len() as int,
        ),
        forall|q: int|
            0 <= q < sq_cands(words@, *threshold, table@.len() as int).len() ==> (
            #[trigger] sq_cands(words@, *threshold, table@.len() as int)[q]) < table@.len(),
        forall|i: usize| i < table@.len() ==> sq_cands(words@, *threshold, table@.len() as int).contains(i),
{
    let ghost t = table.deep_view();
    let ghost wnat = discord_size as nat;
    let m = table.len();
    proof {
        lemma_table_views(*table);
    }

    let clusters = squeezer(words, threshold);
    let ghost cls = cl_view(clusters@);
    proof {
        assert(cls == squeezer_spec(words@, *threshold, m as int));
    }

    // The first smallest cluster.
    let mut sm: usize = 0;
    let mut k0: usize = 1;
    while k0 < clusters.len()
        invariant
            1 <= k0,
            k0 <= clusters@.len() || k0 == 1,
            sm < clusters@.len(),
            cls == cl_view(clusters@),
            clusters@.len() >= 1,
            sm as int == smallest_idx_upto(cls, k0 as int),
        decreases clusters@.len() - k0,
    {
        proof {
            assert(cls[k0 as int] == clusters@[k0 as int]@);
            assert(cls[sm as int] == clusters@[sm as int]@);
        }
        if clusters[k0].len() < clusters[sm].len() {
            sm = k0;
        }
        k0 += 1;
    }
    proof {
        assert(sm as int == smallest_idx_upto(cls, cls.len() as int));
    }

    // Candidate order: the smallest cluster's members, then every start.
    let smallest = &clusters[sm];
    let mut cands_v: Vec<usize> = Vec::new();
    let mut a: usize = 0;
    while a < smallest.len()
        invariant
            a <= smallest@.len(),
            smallest@ == cls[sm as int],
            cands_v@ == cls[sm as int].take(a as int),
        decreases smallest@.len() - a,
    {
        cands_v.push(smallest[a]);
        proof {
            assert(cands_v@ =~= cls[sm as int].take(a as int + 1));
        }
        a += 1;
    }
    proof {
        assert(cands_v@ =~= cls[sm as int]);
    }
    let mut x: usize = 0;
    while x < m
        invariant
            x <= m,
            cands_v@ == cls[sm as int] + range_seq(m as int).take(x as int),
        decreases m - x,
    {
        cands_v.push(x);
        proof {
            assert(cands_v@ =~= cls[sm as int] + range_seq(m as int).take(x as int + 1));
        }
        x += 1;
    }
    let ghost cands = sq_cands(words@, *threshold, m as int);
    proof {
        assert(cands_v@ =~= cls[sm as int] + range_seq(m as int));
        assert(cands_v@ == cands);
        assert forall|q: int| 0 <= q < cands_v@.len() implies (#[trigger] cands_v@[q]) < m by {
            if q < cls[sm as int].len() {
                assert(cands_v@[q] == clusters@[sm as int]@[q]);
            } else {
                assert(cands_v@[q] == range_seq(m as int)[q - cls[sm as int].len()]);
            }
        }
        assert forall|i: usize| i < m implies cands.contains(i) by {
            assert(cands[cls[sm as int].len() + i as int] == range_seq(m as int)[i as int]);
            assert(cands[cls[sm as int].len() + i as int] == i);
        }
    }

    // The scan along the candidate order.
    let mut best_dist: u64 = 0;
    let mut best_loc: usize = 0;
    let mut k: usize = 0;
    while k < cands_v.len()
        invariant
            k <= cands_v@.len(),
            m == t.len(),
            m == table@.len(),
            table.deep_view() == t,
            table_wf(t),
            discord_size >= 1,
            wnat == discord_size as nat,
            m + discord_size <= usize::MAX,
            cands_v@ == cands,
            cls == cl_view(clusters@),
            forall|q: int| 0 <= q < cands_v@.len() ==> (#[trigger] cands_v@[q]) < m,
            forall|kk: int, qq: int|
                0 <= kk < clusters@.len() && 0 <= qq < clusters@[kk]@.len() ==> (
                #[trigger] clusters@[kk]@[qq]) < m,
            (best_dist, best_loc) == hs_spec(t, wnat, skip_over@, cands, k as int),
        decreases cands_v@.len() - k,
    {
        let i = cands_v[k];
        proof {
            assert(cands[k as int] == i);
        }
        if !contains_index(skip_over, i) {
            // Cheap estimate: scan the members of this start's cluster.
            let mut cluster_of: usize = 0;
            let mut have_cluster = false;
            let mut c: usize = 0;
            while c < clusters.len()
                invariant
                    c <= clusters@.len(),
                    have_cluster ==> cluster_of < clusters@.len(),
                decreases clusters@.len() - c,
            {
                if !have_cluster && contains_index(&clusters[c], i) {
                    cluster_of = c;
                    have_cluster = true;
                }
                c += 1;
            }
            let mut do_random = true;
            let mut neigh_dist: u64 = DIST_INF;
            proof {
                lemma_nn_upto_le_inf(t, wnat, i as int, m as int);
            }
            if have_cluster {
                let members = &clusters[cluster_of];
                let mut q: usize = 0;
                while q < members.len() && do_random
                    invariant
                        q <= members@.len(),
                        i < m,
                        m == t.len(),
                        m == table@.len(),
                        table.deep_view() == t,
                        table_wf(t),
                        discord_size >= 1,
                        wnat == discord_size as nat,
                        m + discord_size <= usize::MAX,
                        forall|y: int| 0 <= y < members@.len() ==> (#[trigger] members@[y]) < m,
                        nn(t, wnat, i as int) <= neigh_dist,
                        neigh_dist <= DIST_INF,
                        !do_random ==> nn(t, wnat, i as int) < best_dist,
                    decreases members@.len() - q,
                {
                    let j = members[q];
                    if i >= j + discord_size || j >= i + discord_size {
                        proof {
                            lemma_table_views(*table);
                            assert(pair_valid(m as int, wnat, i as int, j as int));
                            lemma_nn_upto_le_elem(t, wnat, i as int, m as int, j as int);
                            assert(t[i as int][j as int] == table@[i as int]@[j as int]);
                            assert(table@[i as int]@.len() == m);
                        }
                        let dist = table[i][j];
                        if dist < neigh_dist {
                            neigh_dist = dist;
                        }
                        if dist < best_dist {
                            do_random = false;
                        }
                    }
                    q += 1;
                }
            }
            if do_random {
                // Full scan over every start, in random order.
                let mut nums: Vec<usize> = Vec::new();
                let mut x1: usize = 0;
                while x1 < m
                    invariant
                        x1 <= m,
                        nums@ == range_seq(m as int).take(x1 as int),
                    decreases m - x1,
                {
                    nums.push(x1);
                    proof {
                        assert(nums@ =~= range_seq(m as int).take(x1 as int + 1));
                    }
                    x1 += 1;
                }
                proof {
                    assert(nums@ =~= range_seq(m as int));
                }
                shuffle_indexes(source, &mut nums);
                proof {
                    broadcast use vstd::seq_lib::to_multiset_contains;

                    assert forall|j: usize| j < m implies nums@.contains(j) by {
                        assert(range_seq(m as int)[j as int] == j);
                        assert(range_seq(m as int).contains(j));
                        assert(range_seq(m as int).to_multiset().count(j) > 0);
                        assert(nums@.to_multiset().count(j) > 0);
                    }
                    assert forall|x2: int| 0 <= x2 < nums@.len() implies (#[trigger] nums@[x2])
                        < m by {
                        assert(nums@.contains(nums@[x2]));
                        assert(nums@.to_multiset().count(nums@[x2]) > 0);
                        assert(range_seq(m as int).to_multiset().count(nums@[x2]) > 0);
                        assert(range_seq(m as int).contains(nums@[x2]));
                    }
                }
                let mut aborted = false;
                let mut x2: usize = 0;
                while x2 < nums.len() && !aborted
                    invariant
                        x2 <= nums@.len(),
                        i < m,
                        m == t.len(),
                        m == table@.len(),
                        table.deep_view() == t,
                        table_wf(t),
                        discord_size >= 1,
                        wnat == discord_size as nat,
                        m + discord_size <= usize::MAX,
                        forall|y: int| 0 <= y < nums@.len() ==> (#[trigger] nums@[y]) < m,
                        nn(t, wnat, i as int) <= neigh_dist,
                        neigh_dist <= DIST_INF,
                        forall|y: int|
                            0 <= y < x2 && pair_valid(m as int, wnat, i as int, nums@[y] as int)
                                ==> neigh_dist <= #[trigger] t[i as int][nums@[y] as int],
                        aborted ==> nn(t, wnat, i as int) < best_dist,
                    decreases nums@.len() - x2,
                {
                    let j = nums[x2];
                    if i >= j + discord_size || j >= i + discord_size {
                        proof {
                            lemma_table_views(*table);
                            assert(pair_valid(m as int, wnat, i as int, j as int));
                            lemma_nn_upto_le_elem(t, wnat, i as int, m as int, j as int);
                            assert(t[i as int][j as int] == table@[i as int]@[j as int]);
                            assert(table@[i as int]@.len() == m);
                        }
                        let dist = table[i][j];
                        if dist < neigh_dist {
                            neigh_dist = dist;
                        }
                        if dist < best_dist {
                            aborted = true;
                        }
                    }
                    x2 += 1;
                }
                if !aborted {
                    proof {
                        assert forall|j: int|
                            pair_valid(m as int, wnat, i as int, j) implies neigh_dist
                            <= #[trigger] t[i as int][j] by {
                            let ju = j as usize;
                            assert(nums@.contains(ju));
                            let y = choose|y: int| 0 <= y < nums@.len() && nums@[y] == ju;
                            assert(neigh_dist <= t[i as int][nums@[y] as int]);
                        }
                        lemma_le_nn_upto(t, wnat, i as int, m as int, neigh_dist);
                        assert(neigh_dist == nn(t, wnat, i as int));
                    }
                    if neigh_dist > best_dist && neigh_dist < DIST_INF {
                        best_dist = neigh_dist;
                        best_loc = i;
                    }
                } else {
                    proof {
                        assert(nn(t, wnat, i as int) < best_dist);
                    }
                }
            }
        }
        k += 1;
    }
    (best_dist, best_loc)
}

} // verus!
