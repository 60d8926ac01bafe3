use vstd::prelude::*;

use crate::table::{DIST_INF, nn};
use crate::strategy::{bf_spec, lemma_bf_spec_props, hs_spec, lemma_hs_spec_props};
use crate::discovery::{discovery_run, lemma_zero_threshold_is_plain_run};

verus! {

/// Determinism of the exhaustive strategy: two brute-force searches
/// over the same table, window size and skip set report the same
/// discord. `brute_force_internal` pins its result to `bf_spec`, so any
/// two of its results on equal inputs coincide.
pub proof fn lemma_brute_force_deterministic(
    t: Seq<Seq<u64>>,
    w: nat,
    skip: Seq<usize>,
    r1: (u64, usize),
    r2: (u64, usize),
)
    requires
        r1 == bf_spec(t, w, skip, t.len() as int),
        r2 == bf_spec(t, w, skip, t.len() as int),
    ensures
        r1 == r2,
{
}

/// Determinism of the index-assisted strategies: two heuristic searches
/// over the same table, window size, skip set and candidate order
/// report the same discord, whatever their random sources drew.
/// `hot_sax_internal` and `hs_squeezer_internal` pin their results to
/// `hs_spec` of their candidate order, so any two of their results on
/// equal inputs coincide; with a seeded source the candidate order of
/// the word table is itself pinned, so whole runs repeat exactly.
pub proof fn lemma_heuristic_deterministic(
    t: Seq<Seq<u64>>,
    w: nat,
    skip: Seq<usize>,
    cands: Seq<usize>,
    r1: (u64, usize),
    r2: (u64, usize),
)
    requires
        r1 == hs_spec(t, w, skip, cands, cands.len() as int),
        r2 == hs_spec(t, w, skip, cands, cands.len() as int),
    ensures
        r1 == r2,
{
}

/// Determinism modulo randomness for whole discovery runs: two runs
/// along the same strategy round, window, count bound and least
/// distance report the same sequence of discords. The brute-force and
/// cluster-assisted loops pin their output to such a run outright, and
/// the heuristic loops pin it for every seeded source, so repeated
/// calls on identical inputs repeat their whole output.
pub proof fn lemma_discovery_run_deterministic(
    round: spec_fn(Seq<usize>) -> (u64, usize),
    w: nat,
    amnt: Option<nat>,
    min_dist: u64,
    fuel: nat,
    r1: Seq<(u64, usize)>,
    r2: Seq<(u64, usize)>,
)
    requires
        r1 == discovery_run(round, w, Seq::<usize>::empty(), 0, amnt, min_dist, fuel),
        r2 == discovery_run(round, w, Seq::<usize>::empty(), 0, amnt, min_dist, fuel),
    ensures
        r1 == r2,
{
}

/// Threshold-mode termination, the zero side: a threshold run with a
/// least distance of zero reports exactly what the plain run with a
/// count bound past every possible find reports. The zero threshold
/// never stops a run that a zero distance would not stop, since no
/// distance lies below zero.
pub proof fn lemma_zero_threshold_matches_plain(
    round: spec_fn(Seq<usize>) -> (u64, usize),
    w: nat,
    a: nat,
    fuel: nat,
)
    requires
        a >= fuel,
    ensures
        discovery_run(round, w, Seq::<usize>::empty(), 0, Some(a), 0, fuel) == discovery_run(
            round,
            w,
            Seq::<usize>::empty(),
            0,
            None,
            0,
            fuel,
        ),
{
    lemma_zero_threshold_is_plain_run(round, w, Seq::<usize>::empty(), 0, a, fuel);
}

/// Agreement of the strategies on the reported distance, tie or no
/// tie: the exhaustive scan and the heuristic scan over any candidate
/// order that covers every start both report the largest finite
/// nearest-neighbour key of an unskipped candidate, or zero where none
/// exists.
pub proof fn lemma_strategies_agree_on_distance(
    t: Seq<Seq<u64>>,
    w: nat,
    skip: Seq<usize>,
    cands: Seq<usize>,
)
    requires
        t.len() <= usize::MAX,
        forall|q: int| 0 <= q < cands.len() ==> (#[trigger] cands[q]) < t.len(),
        forall|i: usize| i < t.len() ==> cands.contains(i),
    ensures
        bf_spec(t, w, skip, t.len() as int).0 == hs_spec(t, w, skip, cands, cands.len() as int).0,
{
    lemma_bf_spec_props(t, w, skip, t.len() as int);
    lemma_hs_spec_props(t, w, skip, cands, cands.len() as int);
    let b = bf_spec(t, w, skip, t.len() as int);
    let h = hs_spec(t, w, skip, cands, cands.len() as int);
    if b.0 != 0 {
        assert(cands.contains(b.1));
        let q = choose|q: int| 0 <= q < cands.len() && cands[q] == b.1;
        assert(nn(t, w, cands[q] as int) <= h.0 || nn(t, w, cands[q] as int) == DIST_INF);
        assert(b.0 <= h.0);
    }
    if h.0 != 0 {
        assert(nn(t, w, h.1 as int) <= b.0 || nn(t, w, h.1 as int) == DIST_INF);
        assert(h.0 <= b.0);
    }
}

/// Agreement of the strategies on the location: on a table whose best
/// discord is strict, the heuristic scan over any candidate order that
/// covers every start reports the same location as the exhaustive
/// scan, with the same distance. Where two starts tie for the best
/// distance the strategies may break the tie differently, so the
/// strict best is assumed.
pub proof fn lemma_strategies_agree(t: Seq<Seq<u64>>, w: nat, cands: Seq<usize>, istar: usize)
    requires
        t.len() <= usize::MAX,
        forall|q: int| 0 <= q < cands.len() ==> (#[trigger] cands[q]) < t.len(),
        forall|i: usize| i < t.len() ==> cands.contains(i),
        istar < t.len(),
        0 < nn(t, w, istar as int) < DIST_INF,
        forall|i: int|
            0 <= i < t.len() && i != istar ==> #[trigger] nn(t, w, i) < nn(t, w, istar as int),
    ensures
        bf_spec(t, w, Seq::<usize>::empty(), t.len() as int) == (nn(t, w, istar as int), istar),
        hs_spec(t, w, Seq::<usize>::empty(), cands, cands.len() as int) == (
            nn(t, w, istar as int),
            istar,
        ),
{
    let skip = Seq::<usize>::empty();
    let nstar = nn(t, w, istar as int);

    lemma_bf_spec_props(t, w, skip, t.len() as int);
    let b = bf_spec(t, w, skip, t.len() as int);
    assert(!skip.contains(istar));
    assert(nn(t, w, istar as int) <= b.0);
    assert(b.0 != 0);
    assert(nn(t, w, b.1 as int) == b.0);
    if b.1 != istar {
        assert(nn(t, w, b.1 as int) < nstar);
        assert(false);
    }
    assert(b == (nstar, istar));

    lemma_hs_spec_props(t, w, skip, cands, cands.len() as int);
    let h = hs_spec(t, w, skip, cands, cands.len() as int);
    assert(cands.contains(istar));
    let q = choose|q: int| 0 <= q < cands.len() && cands[q] == istar;
    assert(nn(t, w, cands[q] as int) <= h.0 || nn(t, w, cands[q] as int) == DIST_INF);
    assert(nstar <= h.0);
    assert(h.0 != 0);
    assert(nn(t, w, h.1 as int) == h.0);
    if h.1 != istar {
        assert(nn(t, w, h.1 as int) < nstar);
        assert(false);
    }
    assert(h == (nstar, istar));
}

} // verus!
