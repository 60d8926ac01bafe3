use vstd::prelude::*;

use crate::table::{DIST_INF, table_wf, nn};
use crate::strategy::{
    bf_spec, lemma_bf_spec_props, lemma_bf_spec_skip_mono, hs_spec, lemma_hs_spec_props,
    lemma_hs_spec_skip_mono, brute_force_internal, hot_sax_internal, hs_squeezer_internal,
    sq_cands, bf_round, hs_round,
};
use crate::trie::get_spec;
use crate::words::{wt_idx, extract_hotsax_items, matching_idx, lemma_matching_cover, lemma_matching_range, seeded_table_order, min_count_starts};
use crate::squeezer::Threshold;
use crate::rng::RandomSource;

verus! {

/// How many starts below `m` the skip set leaves free. Each discovery
/// round takes at least one of them, which bounds the loop.
pub open spec fn free_count(skip: Seq<usize>, m: int) -> nat
    decreases m,
{
    if m <= 0 {
        0
    } else {
        free_count(skip, m - 1) + (if skip.contains((m - 1) as usize) {
            0nat
        } else {
            1nat
        })
    }
}

/// A skip set that holds at least as much leaves at most as many free.
pub proof fn lemma_free_count_le(s1: Seq<usize>, s2: Seq<usize>, m: int)
    requires
        forall|x: usize| s1.contains(x) ==> s2.contains(x),
    ensures
        free_count(s2, m) <= free_count(s1, m),
    decreases m,
{
    if m > 0 {
        lemma_free_count_le(s1, s2, m - 1);
    }
}

/// Covering one start that was free strictly shrinks the free count.
pub proof fn lemma_free_count_strict(s1: Seq<usize>, s2: Seq<usize>, m: int, l: usize)
    requires
        forall|x: usize| s1.contains(x) ==> s2.contains(x),
        l < m,
        !s1.contains(l),
        s2.contains(l),
    ensures
        free_count(s2, m) < free_count(s1, m),
    decreases m,
{
    if l < m - 1 {
        lemma_free_count_strict(s1, s2, m - 1, l);
    } else {
        lemma_free_count_le(s1, s2, m - 1);
    }
}

/// Whether the skip set covers the whole self-match region of a
/// reported discord.
pub open spec fn range_in_skip(skip: Seq<usize>, loc: usize, w: nat) -> bool {
    forall|x: usize| loc <= x + w && x < loc + w ==> #[trigger] skip.contains(x)
}

/// The skip set extended by the self-match region `[loc - w, loc + w)`
/// of a reported discord, clipped at zero, appended start by start.
pub open spec fn skip_ext(skip: Seq<usize>, loc: usize, w: nat) -> Seq<usize> {
    let lo: int = if loc >= w {
        loc - w
    } else {
        0
    };
    skip + Seq::new((loc + w - lo) as nat, |k: int| (lo + k) as usize)
}

/// What extending a skip set adds: the region around the location, and
/// nothing is lost.
pub proof fn lemma_skip_ext_props(skip: Seq<usize>, loc: usize, w: nat)
    requires
        w >= 1,
    ensures
        skip_ext(skip, loc, w).contains(loc),
        forall|x: usize| skip.contains(x) ==> skip_ext(skip, loc, w).contains(x),
{
    let lo: int = if loc >= w {
        loc - w
    } else {
        0
    };
    let ext = skip_ext(skip, loc, w);
    assert(ext[skip.len() + (loc - lo)] == loc);
    assert(ext.contains(loc));
    assert forall|x: usize| skip.contains(x) implies ext.contains(x) by {
        let q = choose|q: int| 0 <= q < skip.len() && skip[q] == x;
        assert(ext[q] == x);
    }
}

/// Marks the region around a reported discord as used up: every start
/// within one window of the location joins the skip set, and nothing
/// leaves it.
pub fn extend_skip(skip_over: &mut Vec<usize>, loc: usize, discord_size: usize)
    requires
        loc + discord_size <= usize::MAX,
    ensures
        final(skip_over)@ == skip_ext(old(skip_over)@, loc, discord_size as nat),
        range_in_skip(final(skip_over)@, loc, discord_size as nat),
        forall|x: usize| old(skip_over)@.contains(x) ==> final(skip_over)@.contains(x),
        final(skip_over)@.contains(loc) || discord_size == 0,
{
    let lo: usize = if loc >= discord_size {
        loc - discord_size
    } else {
        0
    };
    let mut x: usize = lo;
    while x < loc + discord_size
        invariant
            lo <= x <= loc + discord_size,
            loc + discord_size <= usize::MAX,
            lo == (if loc >= discord_size {
                loc - discord_size
            } else {
                0
            }),
            skip_over@ == old(skip_over)@ + Seq::new((x - lo) as nat, (|k: int| (lo + k) as usize)),
            forall|y: usize| old(skip_over)@.contains(y) ==> skip_over@.contains(y),
            forall|y: usize| lo <= y < x ==> #[trigger] skip_over@.contains(y),
        decreases loc + discord_size - x,
    {
        let ghost pre = skip_over@;
        skip_over.push(x);
        proof {
            assert(skip_over@ =~= pre.push(x));
            assert(skip_over@ =~= old(skip_over)@ + Seq::new(
                (x + 1 - lo) as nat,
                (|k: int| (lo + k) as usize),
            ));
            assert(skip_over@[pre.len() as int] == x);
            assert forall|y: usize| pre.contains(y) implies skip_over@.contains(y) by {
                let q = choose|q: int| 0 <= q < pre.len() && pre[q] == y;
                assert(skip_over@[q] == y);
            }
            assert(skip_over@.contains(x));
            assert forall|y: usize| lo <= y < x + 1 implies #[trigger] skip_over@.contains(
                y,
            ) by {
                if y < x {
                    assert(pre.contains(y));
                }
            }
        }
        x += 1;
    }
    proof {
        assert(skip_over@ =~= skip_ext(old(skip_over)@, loc, discord_size as nat));
        assert forall|y: usize| loc <= y + discord_size && y < loc + discord_size implies
            #[trigger] skip_over@.contains(y) by {
            assert(lo <= y < loc + discord_size);
        }
        if discord_size > 0 {
            assert(skip_over@.contains(loc));
        }
    }
}

/// An empty skip set leaves every start free.
pub proof fn lemma_free_count_empty(m: int)
    ensures
        free_count(Seq::<usize>::empty(), m) == (if m >= 0 {
            m
        } else {
            0
        }),
    decreases m,
{
    if m > 0 {
        lemma_free_count_empty(m - 1);
    }
}

/// What a whole discovery run reports: while the strategy's round on
/// the current skip set yields a distance that neither is zero nor
/// falls below the least distance asked for, the discord is recorded,
/// its region masked, and the loop goes on, up to the count bound where
/// one is set. The fuel only drives the recursion: any fuel past the
/// number of free starts gives the same run.
pub open spec fn discovery_run(
    round: spec_fn(Seq<usize>) -> (u64, usize),
    w: nat,
    skip: Seq<usize>,
    found: nat,
    amnt: Option<nat>,
    min_dist: u64,
    fuel: nat,
) -> Seq<(u64, usize)>
    decreases fuel,
{
    if fuel == 0 {
        Seq::empty()
    } else {
        let d = round(skip).0;
        let l = round(skip).1;
        if d == 0 || d < min_dist {
            Seq::empty()
        } else {
            match amnt {
                Some(a) => {
                    if found + 1 >= a {
                        seq![(d, l)]
                    } else {
                        seq![(d, l)] + discovery_run(
                            round,
                            w,
                            skip_ext(skip, l, w),
                            found + 1,
                            amnt,
                            min_dist,
                            (fuel - 1) as nat,
                        )
                    }
                },
                None => seq![(d, l)] + discovery_run(
                    round,
                    w,
                    skip_ext(skip, l, w),
                    found + 1,
                    amnt,
                    min_dist,
                    (fuel - 1) as nat,
                ),
            }
        }
    }
}

/// A round that always reports an unskipped start below `m` eats one
/// free start per round, so any fuel past the free count gives the same
/// run.
pub proof fn lemma_discovery_run_fuel(
    round: spec_fn(Seq<usize>) -> (u64, usize),
    m: int,
    w: nat,
    skip: Seq<usize>,
    found: nat,
    amnt: Option<nat>,
    min_dist: u64,
    f1: nat,
    f2: nat,
)
    requires
        w >= 1,
        forall|s: Seq<usize>|
            (#[trigger] round(s)).0 != 0 ==> !s.contains(round(s).1) && round(s).1 < m,
        f1 >= free_count(skip, m) + 1,
        f2 >= free_count(skip, m) + 1,
    ensures
        discovery_run(round, w, skip, found, amnt, min_dist, f1) == discovery_run(
            round,
            w,
            skip,
            found,
            amnt,
            min_dist,
            f2,
        ),
    decreases f1,
{
    let d = round(skip).0;
    let l = round(skip).1;
    if d == 0 || d < min_dist {
    } else {
        let stop_on_count = match amnt {
            Some(a) => found + 1 >= a,
            None => false,
        };
        if !stop_on_count {
            let skip2 = skip_ext(skip, l, w);
            lemma_skip_ext_props(skip, l, w);
            lemma_free_count_strict(skip, skip2, m, l);
            lemma_discovery_run_fuel(
                round,
                m,
                w,
                skip2,
                found + 1,
                amnt,
                min_dist,
                (f1 - 1) as nat,
                (f2 - 1) as nat,
            );
        }
    }
}

/// With a least distance of zero the threshold clause never fires on
/// its own, and with a count bound past what any run can report the
/// bound never binds: such a threshold run reports exactly what the
/// unbounded plain run reports.
pub proof fn lemma_zero_threshold_is_plain_run(
    round: spec_fn(Seq<usize>) -> (u64, usize),
    w: nat,
    skip: Seq<usize>,
    found: nat,
    a: nat,
    fuel: nat,
)
    requires
        found + fuel <= a,
    ensures
        discovery_run(round, w, skip, found, Some(a), 0, fuel) == discovery_run(
            round,
            w,
            skip,
            found,
            None,
            0,
            fuel,
        ),
    decreases fuel,
{
    if fuel > 0 {
        let d = round(skip).0;
        let l = round(skip).1;
        if d == 0 {
        } else {
            if found + 1 >= a {
                assert(fuel == 1);
                assert(discovery_run(
                    round,
                    w,
                    skip_ext(skip, l, w),
                    found + 1,
                    None,
                    0,
                    0,
                ) =~= Seq::<(u64, usize)>::empty());
                assert(seq![(d, l)] + Seq::<(u64, usize)>::empty() =~= seq![(d, l)]);
            } else {
                lemma_zero_threshold_is_plain_run(
                    round,
                    w,
                    skip_ext(skip, l, w),
                    found + 1,
                    a,
                    (fuel - 1) as nat,
                );
            }
        }
    }
}

/// The head of a discovery run, as the option a best-discord search
/// reports: the first find, or nothing where the run reports nothing.
pub open spec fn run_head(run: Seq<(u64, usize)>) -> Option<(u64, usize)> {
    if run.len() == 0 {
        None
    } else {
        Some(run[0])
    }
}

/// The bundle of guarantees every discovery run gives: distances are
/// positive and locations in range; no two reported locations lie
/// within one window of each other, so no discord is re-reported from
/// an overlapping region; and the run reports its discords most
/// significant first.
pub open spec fn discords_wf(discords: Seq<(u64, usize)>, m: int, w: nat) -> bool {
    &&& (forall|k: int|
        0 <= k < discords.len() ==> 0 < (#[trigger] discords[k]).0 && discords[k].1 < m)
    &&& (forall|a: int, b: int|
        0 <= a < b < discords.len() ==> (#[trigger] discords[a]).1 >= (#[trigger] discords[b]).1
            + w || discords[b].1 >= discords[a].1 + w)
    &&& (forall|a: int, b: int|
        0 <= a < b < discords.len() ==> (#[trigger] discords[a]).0 >= (#[trigger] discords[b]).0)
}

/// Finds up to `discord_amnt` discords by repeated brute-force search,
/// masking one window around each find before the next round.
pub fn brute_force_top_n(table: &Vec<Vec<u64>>, discord_size: usize, discord_amnt: usize) -> (discords: Vec<(u64, usize)>)
    requires
        table_wf(table.deep_view()),
        discord_size >= 1,
        table@.len() + discord_size <= usize::MAX,
    ensures
        discords_wf(discords@, table@.len() as int, discord_size as nat),
        forall|k: int| 0 <= k < discords@.len() ==> (#[trigger] discords@[k]).0 < DIST_INF,
        discords@.len() <= (if discord_amnt == 0 {
            1
        } else {
            discord_amnt
        }),
        discords@ == discovery_run(
            bf_round(table.deep_view(), discord_size as nat),
            discord_size as nat,
            Seq::<usize>::empty(),
            0,
            Some(discord_amnt as nat),
            0,
            (table@.len() + 1) as nat,
        ),
{
    let ghost t = table.deep_view();
    let ghost wnat = discord_size as nat;
    let m = table.len();
    proof {
        crate::table::lemma_table_views(*table);
    }
    let ghost round = bf_round(t, wnat);
    let ghost amnt_opt: Option<nat> = Some(discord_amnt as nat);
    proof {
        lemma_free_count_empty(m as int);
        assert forall|s: Seq<usize>| (#[trigger] round(s)).0 != 0 implies !s.contains(round(s).1)
            && round(s).1 < m by {
            lemma_bf_spec_props(t, wnat, s, m as int);
        }
        assert(Seq::<(u64, usize)>::empty() + discovery_run(
            round,
            wnat,
            Seq::<usize>::empty(),
            0,
            amnt_opt,
            0,
            (m + 1) as nat,
        ) =~= discovery_run(round, wnat, Seq::<usize>::empty(), 0, amnt_opt, 0, (m + 1) as nat));
    }
    let mut discords: Vec<(u64, usize)> = Vec::new();
    let mut skip_over: Vec<usize> = Vec::new();
    loop
        invariant_except_break
            discords@.len() < discord_amnt || (discord_amnt == 0 && discords@.len() == 0),
            discovery_run(round, wnat, Seq::<usize>::empty(), 0, amnt_opt, 0, (m + 1) as nat)
                == discords@ + discovery_run(
                round,
                wnat,
                skip_over@,
                discords@.len() as nat,
                amnt_opt,
                0,
                free_count(skip_over@, m as int) + 1,
            ),
            forall|k: int|
                0 <= k < discords@.len() ==> range_in_skip(
                    skip_over@,
                    (#[trigger] discords@[k]).1,
                    wnat,
                ),
            forall|k: int|
                0 <= k < discords@.len() ==> bf_spec(t, wnat, skip_over@, m as int).0 <= (
                #[trigger] discords@[k]).0,
        invariant
            m == t.len(),
            m == table@.len(),
            table.deep_view() == t,
            table_wf(t),
            discord_size >= 1,
            wnat == discord_size as nat,
            m + discord_size <= usize::MAX,
            round == bf_round(t, wnat),
            amnt_opt == Some(discord_amnt as nat),
            forall|s: Seq<usize>|
                (#[trigger] round(s)).0 != 0 ==> !s.contains(round(s).1) && round(s).1 < m,
            discords_wf(discords@, m as int, wnat),
            forall|k: int| 0 <= k < discords@.len() ==> (#[trigger] discords@[k]).0 < DIST_INF,
            discords@.len() <= (if discord_amnt == 0 {
                1
            } else {
                discord_amnt
            }),
        ensures
            discords_wf(discords@, m as int, wnat),
            forall|k: int| 0 <= k < discords@.len() ==> (#[trigger] discords@[k]).0 < DIST_INF,
            discords@.len() <= (if discord_amnt == 0 {
                1
            } else {
                discord_amnt
            }),
            discords@ == discovery_run(
                round,
                wnat,
                Seq::<usize>::empty(),
                0,
                amnt_opt,
                0,
                (m + 1) as nat,
            ),
        decreases free_count(skip_over@, m as int),
    {
        let ghost skip_pre = skip_over@;
        let ghost found_pre = discords@.len() as nat;
        let discord = brute_force_internal(table, discord_size, &skip_over);
        proof {
            lemma_bf_spec_props(t, wnat, skip_over@, m as int);
            assert(discord == round(skip_pre));
        }
        if discord.0 == 0 {
            proof {
                assert(discovery_run(round, wnat, skip_pre, found_pre, amnt_opt, 0, free_count(
                    skip_pre,
                    m as int,
                ) + 1) =~= Seq::<(u64, usize)>::empty());
                assert(discords@ + Seq::<(u64, usize)>::empty() =~= discords@);
            }
            break ;
        }
        proof {
            assert(discord.1 < m);
            assert(!skip_over@.contains(discord.1));
            assert forall|k: int| 0 <= k < discords@.len() implies ((#[trigger] discords@[k]).1
                >= discord.1 + wnat || discord.1 >= discords@[k].1 + wnat) by {
                if discords@[k].1 <= discord.1 + discord_size - 1 && discord.1 <= discords@[k].1
                    + discord_size - 1 {
                    assert(range_in_skip(skip_over@, discords@[k].1, wnat));
                    assert(skip_over@.contains(discord.1));
                }
            }
        }
        discords.push(discord);
        if discords.len() >= discord_amnt {
            proof {
                assert(discovery_run(round, wnat, skip_pre, found_pre, amnt_opt, 0, free_count(
                    skip_pre,
                    m as int,
                ) + 1) =~= seq![discord]);
                assert(discords@ =~= discords@.drop_last() + seq![discord]);
                assert(discords@.drop_last() + discovery_run(
                    round,
                    wnat,
                    skip_pre,
                    found_pre,
                    amnt_opt,
                    0,
                    free_count(skip_pre, m as int) + 1,
                ) =~= discords@);
            }
            break ;
        }
        let ghost skip0 = skip_over@;
        extend_skip(&mut skip_over, discord.1, discord_size);
        proof {
            lemma_free_count_strict(skip0, skip_over@, m as int, discord.1);
            lemma_bf_spec_skip_mono(t, wnat, skip0, skip_over@, m as int);
            assert(skip_over@ == skip_ext(skip0, discord.1, wnat));
            lemma_discovery_run_fuel(
                round,
                m as int,
                wnat,
                skip_over@,
                found_pre + 1,
                amnt_opt,
                0,
                free_count(skip0, m as int) as nat,
                free_count(skip_over@, m as int) + 1,
            );
            assert(discovery_run(round, wnat, skip_pre, found_pre, amnt_opt, 0, free_count(
                skip_pre,
                m as int,
            ) + 1) =~= seq![discord] + discovery_run(
                round,
                wnat,
                skip_over@,
                found_pre + 1,
                amnt_opt,
                0,
                free_count(skip_over@, m as int) + 1,
            ));
            assert(discords@ =~= discords@.drop_last() + seq![discord]);
            assert(discords@.drop_last() + (seq![discord] + discovery_run(
                round,
                wnat,
                skip_over@,
                found_pre + 1,
                amnt_opt,
                0,
                free_count(skip_over@, m as int) + 1,
            )) =~= discords@ + discovery_run(
                round,
                wnat,
                skip_over@,
                found_pre + 1,
                amnt_opt,
                0,
                free_count(skip_over@, m as int) + 1,
            ));
            assert forall|k: int| 0 <= k < discords@.len() implies range_in_skip(
                skip_over@,
                (#[trigger] discords@[k]).1,
                wnat,
            ) by {
                if k < discords@.len() - 1 {
                    assert(range_in_skip(skip0, discords@[k].1, wnat));
                    assert forall|x: usize|
                        discords@[k].1 <= x + wnat && x < discords@[k].1 + wnat implies
                        #[trigger] skip_over@.contains(x) by {
                        assert(skip0.contains(x));
                    }
                }
            }
        }
    }
    discords
}

/// Finds every discord whose distance reaches `min_dist`, by repeated
/// brute-force search with the same masking. Brute force only ever
/// reports finite distances, so an infinite least distance can never
/// be reached and such a run reports nothing.
pub fn brute_force_min_dist(table: &Vec<Vec<u64>>, discord_size: usize, min_dist: u64) -> (discords: Vec<(u64, usize)>)
    requires
        table_wf(table.deep_view()),
        discord_size >= 1,
        table@.len() + discord_size <= usize::MAX,
    ensures
        discords_wf(discords@, table@.len() as int, discord_size as nat),
        forall|k: int|
            0 <= k < discords@.len() ==> (#[trigger] discords@[k]).0 >= min_dist && discords@[k].0
                < DIST_INF,
        min_dist == DIST_INF ==> discords@.len() == 0,
        discords@ == discovery_run(
            bf_round(table.deep_view(), discord_size as nat),
            discord_size as nat,
            Seq::<usize>::empty(),
            0,
            None,
            min_dist,
            (table@.len() + 1) as nat,
        ),
{
    let ghost t = table.deep_view();
    let ghost wnat = discord_size as nat;
    let m = table.len();
    proof {
        crate::table::lemma_table_views(*table);
    }
    let ghost round = bf_round(t, wnat);
    let ghost amnt_opt: Option<nat> = None;
    proof {
        lemma_free_count_empty(m as int);
        assert forall|s: Seq<usize>| (#[trigger] round(s)).0 != 0 implies !s.contains(round(s).1)
            && round(s).1 < m by {
            lemma_bf_spec_props(t, wnat, s, m as int);
        }
        assert(Seq::<(u64, usize)>::empty() + discovery_run(
            round,
            wnat,
            Seq::<usize>::empty(),
            0,
            amnt_opt,
            min_dist,
            (m + 1) as nat,
        ) =~= discovery_run(
            round,
            wnat,
            Seq::<usize>::empty(),
            0,
            amnt_opt,
            min_dist,
            (m + 1) as nat,
        ));
    }
    let mut discords: Vec<(u64, usize)> = Vec::new();
    let mut skip_over: Vec<usize> = Vec::new();
    loop
        invariant_except_break
            discovery_run(round, wnat, Seq::<usize>::empty(), 0, amnt_opt, min_dist, (m + 1) as nat)
                == discords@ + discovery_run(
                round,
                wnat,
                skip_over@,
                discords@.len() as nat,
                amnt_opt,
                min_dist,
                free_count(skip_over@, m as int) + 1,
            ),
            forall|k: int|
                0 <= k < discords@.len() ==> range_in_skip(
                    skip_over@,
                    (#[trigger] discords@[k]).1,
                    wnat,
                ),
            forall|k: int|
                0 <= k < discords@.len() ==> bf_spec(t, wnat, skip_over@, m as int).0 <= (
                #[trigger] discords@[k]).0,
        invariant
            m == t.len(),
            m == table@.len(),
            table.deep_view() == t,
            table_wf(t),
            discord_size >= 1,
            wnat == discord_size as nat,
            m + discord_size <= usize::MAX,
            round == bf_round(t, wnat),
            amnt_opt == None::<nat>,
            forall|s: Seq<usize>|
                (#[trigger] round(s)).0 != 0 ==> !s.contains(round(s).1) && round(s).1 < m,
            discords_wf(discords@, m as int, wnat),
            forall|k: int|
                0 <= k < discords@.len() ==> (#[trigger] discords@[k]).0 >= min_dist
                    && discords@[k].0 < DIST_INF,
            min_dist == DIST_INF ==> discords@.len() == 0,
        ensures
            discords_wf(discords@, m as int, wnat),
            forall|k: int|
                0 <= k < discords@.len() ==> (#[trigger] discords@[k]).0 >= min_dist
                    && discords@[k].0 < DIST_INF,
            min_dist == DIST_INF ==> discords@.len() == 0,
            discords@ == discovery_run(
                round,
                wnat,
                Seq::<usize>::empty(),
                0,
                amnt_opt,
                min_dist,
                (m + 1) as nat,
            ),
        decreases free_count(skip_over@, m as int),
    {
        let ghost skip_pre = skip_over@;
        let ghost found_pre = discords@.len() as nat;
        let discord = brute_force_internal(table, discord_size, &skip_over);
        proof {
            lemma_bf_spec_props(t, wnat, skip_over@, m as int);
            assert(discord == round(skip_pre));
        }
        if discord.0 == 0 || discord.0 < min_dist {
            proof {
                assert(discovery_run(round, wnat, skip_pre, found_pre, amnt_opt, min_dist,
                    free_count(skip_pre, m as int) + 1) =~= Seq::<(u64, usize)>::empty());
                assert(discords@ + Seq::<(u64, usize)>::empty() =~= discords@);
            }
            break ;
        }
        proof {
            assert(discord.1 < m);
            assert(!skip_over@.contains(discord.1));
            assert(discord.0 < DIST_INF);
            assert forall|k: int| 0 <= k < discords@.len() implies ((#[trigger] discords@[k]).1
                >= discord.1 + wnat || discord.1 >= discords@[k].1 + wnat) by {
                if discords@[k].1 <= discord.1 + discord_size - 1 && discord.1 <= discords@[k].1
                    + discord_size - 1 {
                    assert(range_in_skip(skip_over@, discords@[k].1, wnat));
                    assert(skip_over@.contains(discord.1));
                }
            }
        }
        discords.push(discord);
        let ghost skip0 = skip_over@;
        extend_skip(&mut skip_over, discord.1, discord_size);
        proof {
            lemma_free_count_strict(skip0, skip_over@, m as int, discord.1);
            lemma_bf_spec_skip_mono(t, wnat, skip0, skip_over@, m as int);
            assert(skip_over@ == skip_ext(skip0, discord.1, wnat));
            lemma_discovery_run_fuel(
                round,
                m as int,
                wnat,
                skip_over@,
                found_pre + 1,
                amnt_opt,
                min_dist,
                free_count(skip0, m as int) as nat,
                free_count(skip_over@, m as int) + 1,
            );
            assert(discovery_run(round, wnat, skip_pre, found_pre, amnt_opt, min_dist, free_count(
                skip_pre,
                m as int,
            ) + 1) =~= seq![discord] + discovery_run(
                round,
                wnat,
                skip_over@,
                found_pre + 1,
                amnt_opt,
                min_dist,
                free_count(skip_over@, m as int) + 1,
            ));
            assert(discords@ =~= discords@.drop_last() + seq![discord]);
            assert(discords@.drop_last() + (seq![discord] + discovery_run(
                round,
                wnat,
                skip_over@,
                found_pre + 1,
                amnt_opt,
                min_dist,
                free_count(skip_over@, m as int) + 1,
            )) =~= discords@ + discovery_run(
                round,
                wnat,
                skip_over@,
                found_pre + 1,
                amnt_opt,
                min_dist,
                free_count(skip_over@, m as int) + 1,
            ));
            assert forall|k: int| 0 <= k < discords@.len() implies range_in_skip(
                skip_over@,
                (#[trigger] discords@[k]).1,
                wnat,
            ) by {
                if k < discords@.len() - 1 {
                    assert(range_in_skip(skip0, discords@[k].1, wnat));
                    assert forall|x: usize|
                        discords@[k].1 <= x + wnat && x < discords@[k].1 + wnat implies
                        #[trigger] skip_over@.contains(x) by {
                        assert(skip0.contains(x));
                    }
                }
            }
        }
    }
    discords
}

/// The single best discord by brute force, or nothing where none has a
/// positive finite distance.
pub fn brute_force_best(table: &Vec<Vec<u64>>, discord_size: usize) -> (r: Option<(u64, usize)>)
    requires
        table_wf(table.deep_view()),
        discord_size >= 1,
        table@.len() + discord_size <= usize::MAX,
    ensures
        r matches Some(d) ==> 0 < d.0 < DIST_INF && d.1 < table@.len(),
        r == run_head(
            discovery_run(
                bf_round(table.deep_view(), discord_size as nat),
                discord_size as nat,
                Seq::<usize>::empty(),
                0,
                Some(1),
                0,
                (table@.len() + 1) as nat,
            ),
        ),
{
    let mut discords = brute_force_top_n(table, discord_size, 1);
    discords.pop()
}

/// Finds up to `discord_amnt` discords with the heuristic strategy over
/// the given words, masking one window around each find. The word
/// table and trie are built once and reused across every round.
pub fn hotsax_top_n(
    words: &Vec<Vec<u8>>,
    table: &Vec<Vec<u64>>,
    discord_size: usize,
    discord_amnt: usize,
    source: &mut RandomSource,
) -> (discords: Vec<(u64, usize)>)
    requires
        table_wf(table.deep_view()),
        discord_size >= 1,
        table@.len() + discord_size <= usize::MAX,
        words@.len() == table@.len(),
        words@.len() >= 1,
        forall|k: int| 0 <= k < words@.len() ==> (#[trigger] words@[k])@.len() >= 1,
        forall|k1: int, k2: int|
            0 <= k1 < words@.len() && 0 <= k2 < words@.len() ==> (#[trigger] words@[k1])@.len()
                == (#[trigger] words@[k2])@.len(),
    ensures
        discords_wf(discords@, table@.len() as int, discord_size as nat),
        forall|k: int|
            0 <= k < discords@.len() ==> (#[trigger] discords@[k]).0 < DIST_INF && nn(
                table.deep_view(),
                discord_size as nat,
                discords@[k].1 as int,
            ) == discords@[k].0,
        discords@.len() <= (if discord_amnt == 0 {
            1
        } else {
            discord_amnt
        }),
        exists|cands: Seq<usize>|
            (forall|q: int| 0 <= q < cands.len() ==> (#[trigger] cands[q]) < table@.len())
                && (forall|i: usize| i < table@.len() ==> cands.contains(i)) && cands.take(
                min_count_starts(words@).len() as int,
            ) == min_count_starts(words@) && discords@ == #[trigger] discovery_run(
                hs_round(table.deep_view(), discord_size as nat, cands),
                discord_size as nat,
                Seq::<usize>::empty(),
                0,
                Some(discord_amnt as nat),
                0,
                (table@.len() + 1) as nat,
            ),
        forall|sd: u64|
            *old(source) == RandomSource::Seeded(sd) ==> discords@ == discovery_run(
                hs_round(
                    table.deep_view(),
                    discord_size as nat,
                    seeded_table_order(words@, sd),
                ),
                discord_size as nat,
                Seq::<usize>::empty(),
                0,
                Some(discord_amnt as nat),
                0,
                (table@.len() + 1) as nat,
            ),
{
    let ghost t = table.deep_view();
    let ghost wnat = discord_size as nat;
    let m = table.len();
    proof {
        crate::table::lemma_table_views(*table);
    }
    let ghost source0 = *source;
    let (word_table, trie) = extract_hotsax_items(words, source);
    let ghost cands = wt_idx(word_table@);
    proof {
        assert forall|q: int| 0 <= q < cands.len() implies (#[trigger] cands[q]) < t.len() by {
            assert(cands[q] == word_table@[q].0);
        }
        assert forall|k: int| 0 <= k < word_table@.len() implies (#[trigger] get_spec(
            trie,
            word_table@[k].1.0@,
        )) is Some by {
            let idx = word_table@[k].0;
            assert(word_table@[k].1.0@ == words@[idx as int]@);
            lemma_matching_cover(words@, idx, m as int);
            assert(matching_idx(words@, words@[idx as int]@, m as int).len() > 0);
        }
        assert forall|k: int, q: int|
            0 <= k < word_table@.len() && 0 <= q < get_spec(
                trie,
                word_table@[k].1.0@,
            ).unwrap().len() implies (#[trigger] get_spec(trie, word_table@[k].1.0@).unwrap()[q])
            < t.len() by {
            let idx = word_table@[k].0;
            assert(word_table@[k].1.0@ == words@[idx as int]@);
            lemma_matching_cover(words@, idx, m as int);
            lemma_matching_range(words@, word_table@[k].1.0@, m as int);
        }
    }
    let ghost round = hs_round(t, wnat, cands);
    let ghost amnt_opt: Option<nat> = Some(discord_amnt as nat);
    proof {
        lemma_free_count_empty(m as int);
        assert forall|s: Seq<usize>| (#[trigger] round(s)).0 != 0 implies !s.contains(round(s).1)
            && round(s).1 < m by {
            lemma_hs_spec_props(t, wnat, s, cands, cands.len() as int);
        }
        assert(Seq::<(u64, usize)>::empty() + discovery_run(
            round,
            wnat,
            Seq::<usize>::empty(),
            0,
            amnt_opt,
            0,
            (m + 1) as nat,
        ) =~= discovery_run(round, wnat, Seq::<usize>::empty(), 0, amnt_opt, 0, (m + 1) as nat));
    }
    let mut discords: Vec<(u64, usize)> = Vec::new();
    let mut skip_over: Vec<usize> = Vec::new();
    loop
        invariant_except_break
            discords@.len() < discord_amnt || (discord_amnt == 0 && discords@.len() == 0),
            discovery_run(round, wnat, Seq::<usize>::empty(), 0, amnt_opt, 0, (m + 1) as nat)
                == discords@ + discovery_run(
                round,
                wnat,
                skip_over@,
                discords@.len() as nat,
                amnt_opt,
                0,
                free_count(skip_over@, m as int) + 1,
            ),
            forall|k: int|
                0 <= k < discords@.len() ==> range_in_skip(
                    skip_over@,
                    (#[trigger] discords@[k]).1,
                    wnat,
                ),
            forall|k: int|
                0 <= k < discords@.len() ==> hs_spec(
                    t,
                    wnat,
                    skip_over@,
                    cands,
                    cands.len() as int,
                ).0 <= (#[trigger] discords@[k]).0,
        invariant
            m == t.len(),
            m == table@.len(),
            table.deep_view() == t,
            table_wf(t),
            discord_size >= 1,
            wnat == discord_size as nat,
            m + discord_size <= usize::MAX,
            cands == wt_idx(word_table@),
            cands.len() == word_table@.len(),
            forall|q: int| 0 <= q < cands.len() ==> (#[trigger] cands[q]) < t.len(),
            forall|kk: int|
                0 <= kk < word_table@.len() ==> (#[trigger] word_table@[kk]).0 < m,
            forall|kk: int|
                0 <= kk < word_table@.len() ==> (#[trigger] get_spec(
                    trie,
                    word_table@[kk].1.0@,
                )) is Some,
            forall|kk: int, q: int|
                0 <= kk < word_table@.len() && 0 <= q < get_spec(
                    trie,
                    word_table@[kk].1.0@,
                ).unwrap().len() ==> (#[trigger] get_spec(trie, word_table@[kk].1.0@).unwrap()[q])
                    < m,
            round == hs_round(t, wnat, cands),
            amnt_opt == Some(discord_amnt as nat),
            forall|s: Seq<usize>|
                (#[trigger] round(s)).0 != 0 ==> !s.contains(round(s).1) && round(s).1 < m,
            discords_wf(discords@, m as int, wnat),
            forall|k: int|
                0 <= k < discords@.len() ==> (#[trigger] discords@[k]).0 < DIST_INF && nn(
                    t,
                    wnat,
                    discords@[k].1 as int,
                ) == discords@[k].0,
            discords@.len() <= (if discord_amnt == 0 {
                1
            } else {
                discord_amnt
            }),
        ensures
            discords_wf(discords@, m as int, wnat),
            forall|k: int|
                0 <= k < discords@.len() ==> (#[trigger] discords@[k]).0 < DIST_INF && nn(
                    t,
                    wnat,
                    discords@[k].1 as int,
                ) == discords@[k].0,
            discords@.len() <= (if discord_amnt == 0 {
                1
            } else {
                discord_amnt
            }),
            discords@ == discovery_run(
                round,
                wnat,
                Seq::<usize>::empty(),
                0,
                amnt_opt,
                0,
                (m + 1) as nat,
            ),
        decreases free_count(skip_over@, m as int),
    {
        let ghost skip_pre = skip_over@;
        let ghost found_pre = discords@.len() as nat;
        let discord = hot_sax_internal(
            &word_table,
            &trie,
            discord_size,
            table,
            &skip_over,
            source,
        );
        proof {
            lemma_hs_spec_props(t, wnat, skip_over@, cands, cands.len() as int);
            assert(discord == round(skip_pre));
        }
        if discord.0 == 0 {
            proof {
                assert(discovery_run(round, wnat, skip_pre, found_pre, amnt_opt, 0, free_count(
                    skip_pre,
                    m as int,
                ) + 1) =~= Seq::<(u64, usize)>::empty());
                assert(discords@ + Seq::<(u64, usize)>::empty() =~= discords@);
            }
            break ;
        }
        proof {
            assert(discord.1 < m);
            assert(!skip_over@.contains(discord.1));
            assert forall|k: int| 0 <= k < discords@.len() implies ((#[trigger] discords@[k]).1
                >= discord.1 + wnat || discord.1 >= discords@[k].1 + wnat) by {
                if discords@[k].1 <= discord.1 + discord_size - 1 && discord.1 <= discords@[k].1
                    + discord_size - 1 {
                    assert(range_in_skip(skip_over@, discords@[k].1, wnat));
                    assert(skip_over@.contains(discord.1));
                }
            }
        }
        discords.push(discord);
        if discords.len() >= discord_amnt {
            proof {
                assert(discovery_run(round, wnat, skip_pre, found_pre, amnt_opt, 0, free_count(
                    skip_pre,
                    m as int,
                ) + 1) =~= seq![discord]);
                assert(discords@ =~= discords@.drop_last() + seq![discord]);
                assert(discords@.drop_last() + discovery_run(
                    round,
                    wnat,
                    skip_pre,
                    found_pre,
                    amnt_opt,
                    0,
                    free_count(skip_pre, m as int) + 1,
                ) =~= discords@);
            }
            break ;
        }
        let ghost skip0 = skip_over@;
        extend_skip(&mut skip_over, discord.1, discord_size);
        proof {
            lemma_free_count_strict(skip0, skip_over@, m as int, discord.1);
            lemma_hs_spec_skip_mono(t, wnat, skip0, skip_over@, cands, cands.len() as int);
            assert(skip_over@ == skip_ext(skip0, discord.1, wnat));
            lemma_discovery_run_fuel(
                round,
                m as int,
                wnat,
                skip_over@,
                found_pre + 1,
                amnt_opt,
                0,
                free_count(skip0, m as int) as nat,
                free_count(skip_over@, m as int) + 1,
            );
            assert(discovery_run(round, wnat, skip_pre, found_pre, amnt_opt, 0, free_count(
                skip_pre,
                m as int,
            ) + 1) =~= seq![discord] + discovery_run(
                round,
                wnat,
                skip_over@,
                found_pre + 1,
                amnt_opt,
                0,
                free_count(skip_over@, m as int) + 1,
            ));
            assert(discords@ =~= discords@.drop_last() + seq![discord]);
            assert(discords@.drop_last() + (seq![discord] + discovery_run(
                round,
                wnat,
                skip_over@,
                found_pre + 1,
                amnt_opt,
                0,
                free_count(skip_over@, m as int) + 1,
            )) =~= discords@ + discovery_run(
                round,
                wnat,
                skip_over@,
                found_pre + 1,
                amnt_opt,
                0,
                free_count(skip_over@, m as int) + 1,
            ));
            assert forall|k: int| 0 <= k < discords@.len() implies range_in_skip(
                skip_over@,
                (#[trigger] discords@[k]).1,
                wnat,
            ) by {
                if k < discords@.len() - 1 {
                    assert(range_in_skip(skip0, discords@[k].1, wnat));
                    assert forall|x: usize|
                        discords@[k].1 <= x + wnat && x < discords@[k].1 + wnat implies
                        #[trigger] skip_over@.contains(x) by {
                        assert(skip0.contains(x));
                    }
                }
            }
        }
    }
    proof {
        assert(discords@ == discovery_run(
            hs_round(t, wnat, cands),
            wnat,
            Seq::<usize>::empty(),
            0,
            Some(discord_amnt as nat),
            0,
            (m + 1) as nat,
        ));
        assert(cands.take(min_count_starts(words@).len() as int) == min_count_starts(words@));
        assert forall|sd: u64| source0 == RandomSource::Seeded(sd) implies discords@
            == discovery_run(
            hs_round(t, wnat, seeded_table_order(words@, sd)),
            wnat,
            Seq::<usize>::empty(),
            0,
            amnt_opt,
            0,
            (m + 1) as nat,
        ) by {
            assert(cands == seeded_table_order(words@, sd));
        }
    }
    discords
}

/// Finds every discord whose distance reaches `min_dist`, with the
/// heuristic strategy and the same masking. The heuristic only ever
/// reports finite distances, so an infinite least distance can never
/// be reached and such a run reports nothing.
pub fn hotsax_min_dist(
    words: &Vec<Vec<u8>>,
    table: &Vec<Vec<u64>>,
    discord_size: usize,
    min_dist: u64,
    source: &mut RandomSource,
) -> (discords: Vec<(u64, usize)>)
    requires
        table_wf(table.deep_view()),
        discord_size >= 1,
        table@.len() + discord_size <= usize::MAX,
        words@.len() == table@.len(),
        words@.len() >= 1,
        forall|k: int| 0 <= k < words@.len() ==> (#[trigger] words@[k])@.len() >= 1,
        forall|k1: int, k2: int|
            0 <= k1 < words@.len() && 0 <= k2 < words@.len() ==> (#[trigger] words@[k1])@.len()
                == (#[trigger] words@[k2])@.len(),
    ensures
        discords_wf(discords@, table@.len() as int, discord_size as nat),
        forall|k: int|
            0 <= k < discords@.len() ==> (#[trigger] discords@[k]).0 >= min_dist && discords@[k].0
                < DIST_INF && nn(table.deep_view(), discord_size as nat, discords@[k].1 as int)
                == discords@[k].0,
        min_dist == DIST_INF ==> discords@.len() == 0,
        exists|cands: Seq<usize>|
            (forall|q: int| 0 <= q < cands.len() ==> (#[trigger] cands[q]) < table@.len())
                && (forall|i: usize| i < table@.len() ==> cands.contains(i)) && cands.take(
                min_count_starts(words@).len() as int,
            ) == min_count_starts(words@) && discords@ == #[trigger] discovery_run(
                hs_round(table.deep_view(), discord_size as nat, cands),
                discord_size as nat,
                Seq::<usize>::empty(),
                0,
                None,
                min_dist,
                (table@.len() + 1) as nat,
            ),
        forall|sd: u64|
            *old(source) == RandomSource::Seeded(sd) ==> discords@ == discovery_run(
                hs_round(
                    table.deep_view(),
                    discord_size as nat,
                    seeded_table_order(words@, sd),
                ),
                discord_size as nat,
                Seq::<usize>::empty(),
                0,
                None,
                min_dist,
                (table@.len() + 1) as nat,
            ),
{
    let ghost t = table.deep_view();
    let ghost wnat = discord_size as nat;
    let m = table.len();
    proof {
        crate::table::lemma_table_views(*table);
    }
    let ghost source0 = *source;
    let (word_table, trie) = extract_hotsax_items(words, source);
    let ghost cands = wt_idx(word_table@);
    proof {
        assert forall|q: int| 0 <= q < cands.len() implies (#[trigger] cands[q]) < t.len() by {
            assert(cands[q] == word_table@[q].0);
        }
        assert forall|k: int| 0 <= k < word_table@.len() implies (#[trigger] get_spec(
            trie,
            word_table@[k].1.0@,
        )) is Some by {
            let idx = word_table@[k].0;
            assert(word_table@[k].1.0@ == words@[idx as int]@);
            lemma_matching_cover(words@, idx, m as int);
            assert(matching_idx(words@, words@[idx as int]@, m as int).len() > 0);
        }
        assert forall|k: int, q: int|
            0 <= k < word_table@.len() && 0 <= q < get_spec(
                trie,
                word_table@[k].1.0@,
            ).unwrap().len() implies (#[trigger] get_spec(trie, word_table@[k].1.0@).unwrap()[q])
            < t.len() by {
            let idx = word_table@[k].0;
            assert(word_table@[k].1.0@ == words@[idx as int]@);
            lemma_matching_cover(words@, idx, m as int);
            lemma_matching_range(words@, word_table@[k].1.0@, m as int);
        }
    }
    let ghost round = hs_round(t, wnat, cands);
    let ghost amnt_opt: Option<nat> = None;
    proof {
        lemma_free_count_empty(m as int);
        assert forall|s: Seq<usize>| (#[trigger] round(s)).0 != 0 implies !s.contains(round(s).1)
            && round(s).1 < m by {
            lemma_hs_spec_props(t, wnat, s, cands, cands.len() as int);
        }
        assert(Seq::<(u64, usize)>::empty() + discovery_run(
            round,
            wnat,
            Seq::<usize>::empty(),
            0,
            amnt_opt,
            min_dist,
            (m + 1) as nat,
        ) =~= discovery_run(
            round,
            wnat,
            Seq::<usize>::empty(),
            0,
            amnt_opt,
            min_dist,
            (m + 1) as nat,
        ));
    }
    let mut discords: Vec<(u64, usize)> = Vec::new();
    let mut skip_over: Vec<usize> = Vec::new();
    loop
        invariant_except_break
            discovery_run(round, wnat, Seq::<usize>::empty(), 0, amnt_opt, min_dist, (m + 1) as nat)
                == discords@ + discovery_run(
                round,
                wnat,
                skip_over@,
                discords@.len() as nat,
                amnt_opt,
                min_dist,
                free_count(skip_over@, m as int) + 1,
            ),
            forall|k: int|
                0 <= k < discords@.len() ==> range_in_skip(
                    skip_over@,
                    (#[trigger] discords@[k]).1,
                    wnat,
                ),
            forall|k: int|
                0 <= k < discords@.len() ==> hs_spec(
                    t,
                    wnat,
                    skip_over@,
                    cands,
                    cands.len() as int,
                ).0 <= (#[trigger] discords@[k]).0,
        invariant
            m == t.len(),
            m == table@.len(),
            table.deep_view() == t,
            table_wf(t),
            discord_size >= 1,
            wnat == discord_size as nat,
            m + discord_size <= usize::MAX,
            cands == wt_idx(word_table@),
            cands.len() == word_table@.len(),
            forall|q: int| 0 <= q < cands.len() ==> (#[trigger] cands[q]) < t.len(),
            forall|kk: int|
                0 <= kk < word_table@.len() ==> (#[trigger] word_table@[kk]).0 < m,
            forall|kk: int|
                0 <= kk < word_table@.len() ==> (#[trigger] get_spec(
                    trie,
                    word_table@[kk].1.0@,
                )) is Some,
            forall|kk: int, q: int|
                0 <= kk < word_table@.len() && 0 <= q < get_spec(
                    trie,
                    word_table@[kk].1.0@,
                ).unwrap().len() ==> (#[trigger] get_spec(trie, word_table@[kk].1.0@).unwrap()[q])
                    < m,
            round == hs_round(t, wnat, cands),
            amnt_opt == None::<nat>,
            forall|s: Seq<usize>|
                (#[trigger] round(s)).0 != 0 ==> !s.contains(round(s).1) && round(s).1 < m,
            discords_wf(discords@, m as int, wnat),
            forall|k: int|
                0 <= k < discords@.len() ==> (#[trigger] discords@[k]).0 >= min_dist
                    && discords@[k].0 < DIST_INF && nn(t, wnat, discords@[k].1 as int)
                    == discords@[k].0,
            min_dist == DIST_INF ==> discords@.len() == 0,
        ensures
            discords_wf(discords@, m as int, wnat),
            forall|k: int|
                0 <= k < discords@.len() ==> (#[trigger] discords@[k]).0 >= min_dist
                    && discords@[k].0 < DIST_INF && nn(t, wnat, discords@[k].1 as int)
                    == discords@[k].0,
            min_dist == DIST_INF ==> discords@.len() == 0,
            discords@ == discovery_run(
                round,
                wnat,
                Seq::<usize>::empty(),
                0,
                amnt_opt,
                min_dist,
                (m + 1) as nat,
            ),
        decreases free_count(skip_over@, m as int),
    {
        let ghost skip_pre = skip_over@;
        let ghost found_pre = discords@.len() as nat;
        let discord = hot_sax_internal(
            &word_table,
            &trie,
            discord_size,
            table,
            &skip_over,
            source,
        );
        proof {
            lemma_hs_spec_props(t, wnat, skip_over@, cands, cands.len() as int);
            assert(discord == round(skip_pre));
        }
        if discord.0 == 0 || discord.0 < min_dist {
            proof {
                assert(discovery_run(round, wnat, skip_pre, found_pre, amnt_opt, min_dist,
                    free_count(skip_pre, m as int) + 1) =~= Seq::<(u64, usize)>::empty());
                assert(discords@ + Seq::<(u64, usize)>::empty() =~= discords@);
            }
            break ;
        }
        proof {
            assert(discord.1 < m);
            assert(!skip_over@.contains(discord.1));
            assert(discord.0 < DIST_INF);
            assert forall|k: int| 0 <= k < discords@.len() implies ((#[trigger] discords@[k]).1
                >= discord.1 + wnat || discord.1 >= discords@[k].1 + wnat) by {
                if discords@[k].1 <= discord.1 + discord_size - 1 && discord.1 <= discords@[k].1
                    + discord_size - 1 {
                    assert(range_in_skip(skip_over@, discords@[k].1, wnat));
                    assert(skip_over@.contains(discord.1));
                }
            }
        }
        discords.push(discord);
        let ghost skip0 = skip_over@;
        extend_skip(&mut skip_over, discord.1, discord_size);
        proof {
            lemma_free_count_strict(skip0, skip_over@, m as int, discord.1);
            lemma_hs_spec_skip_mono(t, wnat, skip0, skip_over@, cands, cands.len() as int);
            assert(skip_over@ == skip_ext(skip0, discord.1, wnat));
            lemma_discovery_run_fuel(
                round,
                m as int,
                wnat,
                skip_over@,
                found_pre + 1,
                amnt_opt,
                min_dist,
                free_count(skip0, m as int) as nat,
                free_count(skip_over@, m as int) + 1,
            );
            assert(discovery_run(round, wnat, skip_pre, found_pre, amnt_opt, min_dist, free_count(
                skip_pre,
                m as int,
            ) + 1) =~= seq![discord] + discovery_run(
                round,
                wnat,
                skip_over@,
                found_pre + 1,
                amnt_opt,
                min_dist,
                free_count(skip_over@, m as int) + 1,
            ));
            assert(discords@ =~= discords@.drop_last() + seq![discord]);
            assert(discords@.drop_last() + (seq![discord] + discovery_run(
                round,
                wnat,
                skip_over@,
                found_pre + 1,
                amnt_opt,
                min_dist,
                free_count(skip_over@, m as int) + 1,
            )) =~= discords@ + discovery_run(
                round,
                wnat,
                skip_over@,
                found_pre + 1,
                amnt_opt,
                min_dist,
                free_count(skip_over@, m as int) + 1,
            ));
            assert forall|k: int| 0 <= k < discords@.len() implies range_in_skip(
                skip_over@,
                (#[trigger] discords@[k]).1,
                wnat,
            ) by {
                if k < discords@.len() - 1 {
                    assert(range_in_skip(skip0, discords@[k].1, wnat));
                    assert forall|x: usize|
                        discords@[k].1 <= x + wnat && x < discords@[k].1 + wnat implies
                        #[trigger] skip_over@.contains(x) by {
                        assert(skip0.contains(x));
                    }
                }
            }
        }
    }
    proof {
        assert(discords@ == discovery_run(
            hs_round(t, wnat, cands),
            wnat,
            Seq::<usize>::empty(),
            0,
            None,
            min_dist,
            (m + 1) as nat,
        ));
        assert(cands.take(min_count_starts(words@).len() as int) == min_count_starts(words@));
        assert forall|sd: u64| source0 == RandomSource::Seeded(sd) implies discords@
            == discovery_run(
            hs_round(t, wnat, seeded_table_order(words@, sd)),
            wnat,
            Seq::<usize>::empty(),
            0,
            amnt_opt,
            min_dist,
            (m + 1) as nat,
        ) by {
            assert(cands == seeded_table_order(words@, sd));
        }
    }
    discords
}

/// The single best discord by the heuristic strategy, or nothing where
/// none has a positive distance.
pub fn hotsax_best(
    words: &Vec<Vec<u8>>,
    table: &Vec<Vec<u64>>,
    discord_size: usize,
    source: &mut RandomSource,
) -> (r: Option<(u64, usize)>)
    requires
        table_wf(table.deep_view()),
        discord_size >= 1,
        table@.len() + discord_size <= usize::MAX,
        words@.len() == table@.len(),
        words@.len() >= 1,
        forall|k: int| 0 <= k < words@.len() ==> (#[trigger] words@[k])@.len() >= 1,
        forall|k1: int, k2: int|
            0 <= k1 < words@.len() && 0 <= k2 < words@.len() ==> (#[trigger] words@[k1])@.len()
                == (#[trigger] words@[k2])@.len(),
    ensures
        r matches Some(d) ==> 0 < d.0 < DIST_INF && d.1 < table@.len() && nn(
            table.deep_view(),
            discord_size as nat,
            d.1 as int,
        ) == d.0,
        exists|cands: Seq<usize>|
            (forall|q: int| 0 <= q < cands.len() ==> (#[trigger] cands[q]) < table@.len())
                && (forall|i: usize| i < table@.len() ==> cands.contains(i)) && cands.take(
                min_count_starts(words@).len() as int,
            ) == min_count_starts(words@) && r == run_head(
                #[trigger] discovery_run(
                    hs_round(table.deep_view(), discord_size as nat, cands),
                    discord_size as nat,
                    Seq::<usize>::empty(),
                    0,
                    Some(1),
                    0,
                    (table@.len() + 1) as nat,
                ),
            ),
        forall|sd: u64|
            *old(source) == RandomSource::Seeded(sd) ==> r == run_head(
                discovery_run(
                    hs_round(
                        table.deep_view(),
                        discord_size as nat,
                        seeded_table_order(words@, sd),
                    ),
                    discord_size as nat,
                    Seq::<usize>::empty(),
                    0,
                    Some(1),
                    0,
                    (table@.len() + 1) as nat,
                ),
            ),
{
    let ghost t = table.deep_view();
    let ghost wnat = discord_size as nat;
    let mut discords = hotsax_top_n(words, table, discord_size, 1, source);
    let ghost pre = discords@;
    let r = discords.pop();
    proof {
        let c = choose|cands: Seq<usize>|
            (forall|q: int| 0 <= q < cands.len() ==> (#[trigger] cands[q]) < table@.len())
                && (forall|i: usize| i < table@.len() ==> cands.contains(i)) && cands.take(
                min_count_starts(words@).len() as int,
            ) == min_count_starts(words@) && pre == #[trigger] discovery_run(
                hs_round(t, wnat, cands),
                wnat,
                Seq::<usize>::empty(),
                0,
                Some(1),
                0,
                (table@.len() + 1) as nat,
            );
        let run = discovery_run(
            hs_round(t, wnat, c),
            wnat,
            Seq::<usize>::empty(),
            0,
            Some(1),
            0,
            (table@.len() + 1) as nat,
        );
        assert(pre == run);
        assert(pre.len() <= 1);
        if pre.len() == 0 {
            assert(r == run_head(run));
        } else {
            assert(pre[pre.len() - 1] == pre[0]);
            assert(r == run_head(run));
        }
    }
    r
}

/// Finds up to `discord_amnt` discords with the cluster-assisted
/// strategy over the given words, masking one window around each find.
pub fn hs_squeezer_top_n(
    words: &Vec<Vec<u8>>,
    table: &Vec<Vec<u64>>,
    discord_size: usize,
    threshold: &Threshold,
    discord_amnt: usize,
    source: &mut RandomSource,
) -> (discords: Vec<(u64, usize)>)
    requires
        table_wf(table.deep_view()),
        discord_size >= 1,
        table@.len() + discord_size <= usize::MAX,
        words@.len() == table@.len(),
        words@.len() >= 1,
        words@.len() < 0x1_0000_0000,
        threshold.wf(),
    ensures
        discords_wf(discords@, table@.len() as int, discord_size as nat),
        forall|k: int| 0 <= k < discords@.len() ==> (#[trigger] discords@[k]).0 < DIST_INF,
        discords@.len() <= (if discord_amnt == 0 {
            1
        } else {
            discord_amnt
        }),
        discords@ == discovery_run(
            hs_round(
                table.deep_view(),
                discord_size as nat,
                sq_cands(words@, *threshold, table@.len() as int),
            ),
            discord_size as nat,
            Seq::<usize>::empty(),
            0,
            Some(discord_amnt as nat),
            0,
            (table@.len() + 1) as nat,
        ),
{
    let ghost t = table.deep_view();
    let ghost wnat = discord_size as nat;
    let m = table.len();
    proof {
        crate::table::lemma_table_views(*table);
    }
    let ghost cands = sq_cands(words@, *threshold, m as int);
    let ghost round = hs_round(t, wnat, cands);
    let ghost amnt_opt: Option<nat> = Some(discord_amnt as nat);
    proof {
        lemma_free_count_empty(m as int);
        assert(Seq::<(u64, usize)>::empty() + discovery_run(
            round,
            wnat,
            Seq::<usize>::empty(),
            0,
            amnt_opt,
            0,
            (m + 1) as nat,
        ) =~= discovery_run(round, wnat, Seq::<usize>::empty(), 0, amnt_opt, 0, (m + 1) as nat));
    }
    let mut discords: Vec<(u64, usize)> = Vec::new();
    let mut skip_over: Vec<usize> = Vec::new();
    loop
        invariant_except_break
            discords@.len() < discord_amnt || (discord_amnt == 0 && discords@.len() == 0),
            discovery_run(round, wnat, Seq::<usize>::empty(), 0, amnt_opt, 0, (m + 1) as nat)
                == discords@ + discovery_run(
                round,
                wnat,
                skip_over@,
                discords@.len() as nat,
                amnt_opt,
                0,
                free_count(skip_over@, m as int) + 1,
            ),
            forall|k: int|
                0 <= k < discords@.len() ==> range_in_skip(
                    skip_over@,
                    (#[trigger] discords@[k]).1,
                    wnat,
                ),
            forall|k: int|
                0 <= k < discords@.len() ==> hs_spec(
                    t,
                    wnat,
                    skip_over@,
                    cands,
                    cands.len() as int,
                ).0 <= (#[trigger] discords@[k]).0,
        invariant
            m == t.len(),
            m == table@.len(),
            table.deep_view() == t,
            table_wf(t),
            discord_size >= 1,
            wnat == discord_size as nat,
            m + discord_size <= usize::MAX,
            words@.len() == m,
            words@.len() >= 1,
            words@.len() < 0x1_0000_0000,
            threshold.wf(),
            cands == sq_cands(words@, *threshold, m as int),
            round == hs_round(t, wnat, cands),
            amnt_opt == Some(discord_amnt as nat),
            discords_wf(discords@, m as int, wnat),
            forall|k: int| 0 <= k < discords@.len() ==> (#[trigger] discords@[k]).0 < DIST_INF,
            discords@.len() <= (if discord_amnt == 0 {
                1
            } else {
                discord_amnt
            }),
        ensures
            discords_wf(discords@, m as int, wnat),
            forall|k: int| 0 <= k < discords@.len() ==> (#[trigger] discords@[k]).0 < DIST_INF,
            discords@.len() <= (if discord_amnt == 0 {
                1
            } else {
                discord_amnt
            }),
            discords@ == discovery_run(
                round,
                wnat,
                Seq::<usize>::empty(),
                0,
                amnt_opt,
                0,
                (m + 1) as nat,
            ),
        decreases free_count(skip_over@, m as int),
    {
        let ghost skip_pre = skip_over@;
        let ghost found_pre = discords@.len() as nat;
        let discord = hs_squeezer_internal(
            words,
            discord_size,
            table,
            threshold,
            &skip_over,
            source,
        );
        proof {
            lemma_hs_spec_props(t, wnat, skip_over@, cands, cands.len() as int);
            assert(discord == round(skip_pre));
            assert forall|s: Seq<usize>| (#[trigger] round(s)).0 != 0 implies !s.contains(
                round(s).1,
            ) && round(s).1 < m by {
                lemma_hs_spec_props(t, wnat, s, cands, cands.len() as int);
            }
        }
        if discord.0 == 0 {
            proof {
                assert(discovery_run(round, wnat, skip_pre, found_pre, amnt_opt, 0, free_count(
                    skip_pre,
                    m as int,
                ) + 1) =~= Seq::<(u64, usize)>::empty());
                assert(discords@ + Seq::<(u64, usize)>::empty() =~= discords@);
            }
            break ;
        }
        proof {
            assert(discord.1 < m);
            assert(!skip_over@.contains(discord.1));
            assert forall|k: int| 0 <= k < discords@.len() implies ((#[trigger] discords@[k]).1
                >= discord.1 + wnat || discord.1 >= discords@[k].1 + wnat) by {
                if discords@[k].1 <= discord.1 + discord_size - 1 && discord.1 <= discords@[k].1
                    + discord_size - 1 {
                    assert(range_in_skip(skip_over@, discords@[k].1, wnat));
                    assert(skip_over@.contains(discord.1));
                }
            }
        }
        discords.push(discord);
        if discords.len() >= discord_amnt {
            proof {
                assert(discovery_run(round, wnat, skip_pre, found_pre, amnt_opt, 0, free_count(
                    skip_pre,
                    m as int,
                ) + 1) =~= seq![discord]);
                assert(discords@ =~= discords@.drop_last() + seq![discord]);
                assert(discords@.drop_last() + discovery_run(
                    round,
                    wnat,
                    skip_pre,
                    found_pre,
                    amnt_opt,
                    0,
                    free_count(skip_pre, m as int) + 1,
                ) =~= discords@);
            }
            break ;
        }
        let ghost skip0 = skip_over@;
        extend_skip(&mut skip_over, discord.1, discord_size);
        proof {
            lemma_free_count_strict(skip0, skip_over@, m as int, discord.1);
            lemma_hs_spec_skip_mono(t, wnat, skip0, skip_over@, cands, cands.len() as int);
            assert(skip_over@ == skip_ext(skip0, discord.1, wnat));
            lemma_discovery_run_fuel(
                round,
                m as int,
                wnat,
                skip_over@,
                found_pre + 1,
                amnt_opt,
                0,
                free_count(skip0, m as int) as nat,
                free_count(skip_over@, m as int) + 1,
            );
            assert(discovery_run(round, wnat, skip_pre, found_pre, amnt_opt, 0, free_count(
                skip_pre,
                m as int,
            ) + 1) =~= seq![discord] + discovery_run(
                round,
                wnat,
                skip_over@,
                found_pre + 1,
                amnt_opt,
                0,
                free_count(skip_over@, m as int) + 1,
            ));
            assert(discords@ =~= discords@.drop_last() + seq![discord]);
            assert(discords@.drop_last() + (seq![discord] + discovery_run(
                round,
                wnat,
                skip_over@,
                found_pre + 1,
                amnt_opt,
                0,
                free_count(skip_over@, m as int) + 1,
            )) =~= discords@ + discovery_run(
                round,
                wnat,
                skip_over@,
                found_pre + 1,
                amnt_opt,
                0,
                free_count(skip_over@, m as int) + 1,
            ));
            assert forall|k: int| 0 <= k < discords@.len() implies range_in_skip(
                skip_over@,
                (#[trigger] discords@[k]).1,
                wnat,
            ) by {
                if k < discords@.len() - 1 {
                    assert(range_in_skip(skip0, discords@[k].1, wnat));
                    assert forall|x: usize|
                        discords@[k].1 <= x + wnat && x < discords@[k].1 + wnat implies
                        #[trigger] skip_over@.contains(x) by {
                        assert(skip0.contains(x));
                    }
                }
            }
        }
    }
    discords
}

/// Finds every discord whose distance reaches `min_dist`, with the
/// cluster-assisted strategy and the same masking. The strategy only
/// ever reports finite distances, so an infinite least distance can
/// never be reached and such a run reports nothing.
pub fn hs_squeezer_min_dist(
    words: &Vec<Vec<u8>>,
    table: &Vec<Vec<u64>>,
    discord_size: usize,
    threshold: &Threshold,
    min_dist: u64,
    source: &mut RandomSource,
) -> (discords: Vec<(u64, usize)>)
    requires
        table_wf(table.deep_view()),
        discord_size >= 1,
        table@.len() + discord_size <= usize::MAX,
        words@.len() == table@.len(),
        words@.len() >= 1,
        words@.len() < 0x1_0000_0000,
        threshold.wf(),
    ensures
        discords_wf(discords@, table@.len() as int, discord_size as nat),
        forall|k: int|
            0 <= k < discords@.len() ==> (#[trigger] discords@[k]).0 >= min_dist && discords@[k].0
                < DIST_INF,
        min_dist == DIST_INF ==> discords@.len() == 0,
        discords@ == discovery_run(
            hs_round(
                table.deep_view(),
                discord_size as nat,
                sq_cands(words@, *threshold, table@.len() as int),
            ),
            discord_size as nat,
            Seq::<usize>::empty(),
            0,
            None,
            min_dist,
            (table@.len() + 1) as nat,
        ),
{
    let ghost t = table.deep_view();
    let ghost wnat = discord_size as nat;
    let m = table.len();
    proof {
        crate::table::lemma_table_views(*table);
    }
    let ghost cands = sq_cands(words@, *threshold, m as int);
    let ghost round = hs_round(t, wnat, cands);
    let ghost amnt_opt: Option<nat> = None;
    proof {
        lemma_free_count_empty(m as int);
        assert(Seq::<(u64, usize)>::empty() + discovery_run(
            round,
            wnat,
            Seq::<usize>::empty(),
            0,
            amnt_opt,
            min_dist,
            (m + 1) as nat,
        ) =~= discovery_run(
            round,
            wnat,
            Seq::<usize>::empty(),
            0,
            amnt_opt,
            min_dist,
            (m + 1) as nat,
        ));
    }
    let mut discords: Vec<(u64, usize)> = Vec::new();
    let mut skip_over: Vec<usize> = Vec::new();
    loop
        invariant_except_break
            discovery_run(round, wnat, Seq::<usize>::empty(), 0, amnt_opt, min_dist, (m + 1) as nat)
                == discords@ + discovery_run(
                round,
                wnat,
                skip_over@,
                discords@.len() as nat,
                amnt_opt,
                min_dist,
                free_count(skip_over@, m as int) + 1,
            ),
            forall|k: int|
                0 <= k < discords@.len() ==> range_in_skip(
                    skip_over@,
                    (#[trigger] discords@[k]).1,
                    wnat,
                ),
            forall|k: int|
                0 <= k < discords@.len() ==> hs_spec(
                    t,
                    wnat,
                    skip_over@,
                    cands,
                    cands.len() as int,
                ).0 <= (#[trigger] discords@[k]).0,
        invariant
            m == t.len(),
            m == table@.len(),
            table.deep_view() == t,
            table_wf(t),
            discord_size >= 1,
            wnat == discord_size as nat,
            m + discord_size <= usize::MAX,
            words@.len() == m,
            words@.len() >= 1,
            words@.len() < 0x1_0000_0000,
            threshold.wf(),
            cands == sq_cands(words@, *threshold, m as int),
            round == hs_round(t, wnat, cands),
            amnt_opt == None::<nat>,
            discords_wf(discords@, m as int, wnat),
            forall|k: int|
                0 <= k < discords@.len() ==> (#[trigger] discords@[k]).0 >= min_dist
                    && discords@[k].0 < DIST_INF,
            min_dist == DIST_INF ==> discords@.len() == 0,
        ensures
            discords_wf(discords@, m as int, wnat),
            forall|k: int|
                0 <= k < discords@.len() ==> (#[trigger] discords@[k]).0 >= min_dist
                    && discords@[k].0 < DIST_INF,
            min_dist == DIST_INF ==> discords@.len() == 0,
            discords@ == discovery_run(
                round,
                wnat,
                Seq::<usize>::empty(),
                0,
                amnt_opt,
                min_dist,
                (m + 1) as nat,
            ),
        decreases free_count(skip_over@, m as int),
    {
        let ghost skip_pre = skip_over@;
        let ghost found_pre = discords@.len() as nat;
        let discord = hs_squeezer_internal(
            words,
            discord_size,
            table,
            threshold,
            &skip_over,
            source,
        );
        proof {
            lemma_hs_spec_props(t, wnat, skip_over@, cands, cands.len() as int);
            assert(discord == round(skip_pre));
            assert forall|s: Seq<usize>| (#[trigger] round(s)).0 != 0 implies !s.contains(
                round(s).1,
            ) && round(s).1 < m by {
                lemma_hs_spec_props(t, wnat, s, cands, cands.len() as int);
            }
        }
        if discord.0 == 0 || discord.0 < min_dist {
            proof {
                assert(discovery_run(round, wnat, skip_pre, found_pre, amnt_opt, min_dist,
                    free_count(skip_pre, m as int) + 1) =~= Seq::<(u64, usize)>::empty());
                assert(discords@ + Seq::<(u64, usize)>::empty() =~= discords@);
            }
            break ;
        }
        proof {
            assert(discord.1 < m);
            assert(!skip_over@.contains(discord.1));
            assert(discord.0 < DIST_INF);
            assert forall|k: int| 0 <= k < discords@.len() implies ((#[trigger] discords@[k]).1
                >= discord.1 + wnat || discord.1 >= discords@[k].1 + wnat) by {
                if discords@[k].1 <= discord.1 + discord_size - 1 && discord.1 <= discords@[k].1
                    + discord_size - 1 {
                    assert(range_in_skip(skip_over@, discords@[k].1, wnat));
                    assert(skip_over@.contains(discord.1));
                }
            }
        }
        discords.push(discord);
        let ghost skip0 = skip_over@;
        extend_skip(&mut skip_over, discord.1, discord_size);
        proof {
            lemma_free_count_strict(skip0, skip_over@, m as int, discord.1);
            lemma_hs_spec_skip_mono(t, wnat, skip0, skip_over@, cands, cands.len() as int);
            assert(skip_over@ == skip_ext(skip0, discord.1, wnat));
            lemma_discovery_run_fuel(
                round,
                m as int,
                wnat,
                skip_over@,
                found_pre + 1,
                amnt_opt,
                min_dist,
                free_count(skip0, m as int) as nat,
                free_count(skip_over@, m as int) + 1,
            );
            assert(discovery_run(round, wnat, skip_pre, found_pre, amnt_opt, min_dist, free_count(
                skip_pre,
                m as int,
            ) + 1) =~= seq![discord] + discovery_run(
                round,
                wnat,
                skip_over@,
                found_pre + 1,
                amnt_opt,
                min_dist,
                free_count(skip_over@, m as int) + 1,
            ));
            assert(discords@ =~= discords@.drop_last() + seq![discord]);
            assert(discords@.drop_last() + (seq![discord] + discovery_run(
                round,
                wnat,
                skip_over@,
                found_pre + 1,
                amnt_opt,
                min_dist,
                free_count(skip_over@, m as int) + 1,
            )) =~= discords@ + discovery_run(
                round,
                wnat,
                skip_over@,
                found_pre + 1,
                amnt_opt,
                min_dist,
                free_count(skip_over@, m as int) + 1,
            ));
            assert forall|k: int| 0 <= k < discords@.len() implies range_in_skip(
                skip_over@,
                (#[trigger] discords@[k]).1,
                wnat,
            ) by {
                if k < discords@.len() - 1 {
                    assert(range_in_skip(skip0, discords@[k].1, wnat));
                    assert forall|x: usize|
                        discords@[k].1 <= x + wnat && x < discords@[k].1 + wnat implies
                        #[trigger] skip_over@.contains(x) by {
                        assert(skip0.contains(x));
                    }
                }
            }
        }
    }
    discords
}

/// The single best discord by the cluster-assisted strategy, or nothing
/// where none has a positive distance.
pub fn hs_squeezer_best(
    words: &Vec<Vec<u8>>,
    table: &Vec<Vec<u64>>,
    discord_size: usize,
    threshold: &Threshold,
    source: &mut RandomSource,
) -> (r: Option<(u64, usize)>)
    requires
        table_wf(table.deep_view()),
        discord_size >= 1,
        table@.len() + discord_size <= usize::MAX,
        words@.len() == table@.len(),
        words@.len() >= 1,
        words@.len() < 0x1_0000_0000,
        threshold.wf(),
    ensures
        r matches Some(d) ==> 0 < d.0 < DIST_INF && d.1 < table@.len(),
        r == run_head(
            discovery_run(
                hs_round(
                    table.deep_view(),
                    discord_size as nat,
                    sq_cands(words@, *threshold, table@.len() as int),
                ),
                discord_size as nat,
                Seq::<usize>::empty(),
                0,
                Some(1),
                0,
                (table@.len() + 1) as nat,
            ),
        ),
{
    let mut discords = hs_squeezer_top_n(words, table, discord_size, threshold, 1, source);
    discords.pop()
}

} // verus!
