use vstd::prelude::*;

verus! {

/// The random source used for tie-breaking, threaded explicitly through
/// every randomized search so that runs can be reproduced.
pub enum RandomSource {
    /// Draws from the process-wide generator of the `rand` crate.
    System,
    /// A small deterministic generator: equal seeds give equal draws.
    Seeded(u64),
}

/// One step of the deterministic generator: a linear congruential step
/// over the full 64-bit range.
pub open spec fn next_seed(s: u64) -> u64 {
    ((s * 6364136223846793005 + 1442695040888963407) % 0x1_0000_0000_0000_0000) as u64
}

/// The swap of positions `i` and `j` of a sequence.
pub open spec fn seq_swap(s: Seq<usize>, i: int, j: int) -> Seq<usize> {
    s.update(i, s[j]).update(j, s[i])
}

/// The state of a seeded Fisher-Yates pass that still has to place the
/// positions `i` and below: at each step the element at `i` is swapped
/// with one drawn at or below it.
pub open spec fn shuffle_spec_step(seed: u64, s: Seq<usize>, i: int) -> (u64, Seq<usize>)
    decreases i,
{
    if i <= 0 {
        (seed, s)
    } else if !(0 <= i < s.len()) {
        (seed, s)
    } else {
        let s2 = next_seed(seed);
        let j = (s2 as int) % (i + 1);
        shuffle_spec_step(s2, seq_swap(s, i, j), i - 1)
    }
}

/// What a seeded shuffle of a whole sequence produces: the advanced seed
/// and the permuted sequence.
pub open spec fn shuffle_spec(seed: u64, s: Seq<usize>) -> (u64, Seq<usize>) {
    shuffle_spec_step(seed, s, s.len() - 1)
}

/// Swapping two positions of a sequence rearranges it and so keeps its
/// multiset of elements.
pub proof fn lemma_swap_multiset(s: Seq<usize>, i: int, j: int)
    requires
        0 <= i < s.len(),
        0 <= j < s.len(),
    ensures
        seq_swap(s, i, j).to_multiset() == s.to_multiset(),
        seq_swap(s, i, j).len() == s.len(),
{
    broadcast use vstd::seq_lib::to_multiset_update;
    broadcast use vstd::seq_lib::to_multiset_contains;
    broadcast use vstd::multiset::group_multiset_axioms;

    if i == j {
        assert(seq_swap(s, i, j) =~= s);
    } else {
        let s1 = s.update(i, s[j]);
        let s2 = s1.update(j, s[i]);
        assert(s1.to_multiset() == s.to_multiset().insert(s[j]).remove(s[i]));
        assert(s1[j] == s[j]);
        assert(s2.to_multiset() == s1.to_multiset().insert(s[i]).remove(s[j]));
        assert(s.contains(s[i]) && s.contains(s[j]));
        assert(s1.contains(s1[j]));
        assert forall|x: usize| s2.to_multiset().count(x) == s.to_multiset().count(x) by {
            assert(s.to_multiset().count(s[i]) > 0);
            assert(s1.to_multiset().count(s1[j]) > 0);
        }
        assert(s2.to_multiset() =~= s.to_multiset());
    }
}

/// Relies on rand's `SliceRandom::shuffle`: it permutes the slice in place
/// by Fisher-Yates swaps, so the elements are rearranged, never changed.
#[verifier::external_body]
fn system_shuffle(v: &mut Vec<usize>)
    ensures
        final(v)@.to_multiset() == old(v)@.to_multiset(),
        final(v)@.len() == old(v)@.len(),
{
    rand::seq::SliceRandom::shuffle(v.as_mut_slice(), &mut rand::thread_rng());
}

/// One exec step of the deterministic generator, equal to `next_seed`.
fn advance_seed(s: u64) -> (r: u64)
    ensures
        r == next_seed(s),
{
    let wide: u128 = ((s as u128) * 6364136223846793005u128 + 1442695040888963407u128)
        % 0x1_0000_0000_0000_0000u128;
    wide as u64
}

/// Shuffles the vector in place. A `Seeded` source advances
/// deterministically and the outcome is pinned by `shuffle_spec`; a
/// `System` source draws from the `rand` crate. Either way the result
/// holds exactly the elements it started with.
pub fn shuffle_indexes(source: &mut RandomSource, v: &mut Vec<usize>)
    ensures
        final(v)@.to_multiset() == old(v)@.to_multiset(),
        final(v)@.len() == old(v)@.len(),
        *old(source) is System ==> *final(source) is System,
        forall|seed: u64|
            *old(source) == RandomSource::Seeded(seed) ==> *final(source) == RandomSource::Seeded(
                shuffle_spec(seed, old(v)@).0,
            ) && final(v)@ == shuffle_spec(seed, old(v)@).1,
{
    match source {
        RandomSource::System => {
            system_shuffle(v);
        },
        RandomSource::Seeded(seed_ref) => {
            let ghost seed0: u64 = *seed_ref;
            let ghost v0: Seq<usize> = v@;
            let mut seed: u64 = *seed_ref;
            if v.len() >= 1 {
                let n: usize = v.len();
                let mut i: usize = v.len() - 1;
                while i >= 1
                    invariant
                        i < n,
                        n == v@.len(),
                        v@.len() == v0.len(),
                        v@.to_multiset() == v0.to_multiset(),
                        shuffle_spec_step(seed, v@, i as int) == shuffle_spec_step(
                            seed0,
                            v0,
                            v0.len() - 1,
                        ),
                    decreases i,
                {
                    let ghost v_pre: Seq<usize> = v@;
                    seed = advance_seed(seed);
                    let j: usize = (seed % ((i + 1) as u64)) as usize;
                    proof {
                        assert((seed % ((i + 1) as u64)) as usize as int == (seed as int) % (
                        i + 1)) by {
                            assert((i + 1) as u64 as int == i + 1);
                        };
                    }
                    let a = v[i];
                    let b = v[j];
                    v.set(i, b);
                    v.set(j, a);
                    proof {
                        assert(v@ =~= seq_swap(v_pre, i as int, j as int));
                        lemma_swap_multiset(v_pre, i as int, j as int);
                    }
                    i = i - 1;
                }
            }
            *seed_ref = seed;
            proof {
                assert(shuffle_spec_step(seed, v@, 0) == (seed, v@));
            }
        },
    }
}

} // verus!
