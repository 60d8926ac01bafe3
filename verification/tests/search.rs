use hotsax::DIST_INF;
use hotsax::RandomSource;
use hotsax::Threshold;
use hotsax::brute_force_best;
use hotsax::brute_force_min_dist;
use hotsax::brute_force_top_n;
use hotsax::hotsax_best;
use hotsax::hotsax_min_dist;
use hotsax::hotsax_top_n;
use hotsax::hs_squeezer_best;
use hotsax::hs_squeezer_min_dist;
use hotsax::hs_squeezer_top_n;
use hotsax::paa_partition;

fn mean(xs: &[f64]) -> f64 {
    xs.iter().sum::<f64>() / xs.len() as f64
}

fn std_dev(xs: &[f64]) -> f64 {
    let m = mean(xs);
    (xs.iter().map(|x| (x - m) * (x - m)).sum::<f64>() / xs.len() as f64).sqrt()
}

fn znorm(xs: &[f64]) -> Vec<f64> {
    let m = mean(xs);
    let s = std_dev(xs);
    assert!(s != 0.0, "degenerate window");
    xs.iter().map(|x| (x - m) / s).collect()
}

fn gaussian(a: &[f64], b: &[f64]) -> f64 {
    a.iter().zip(b).map(|(x, y)| (x - y) * (x - y)).sum::<f64>().sqrt()
}

fn paa(xs: &[f64], dim: usize) -> Vec<f64> {
    let buckets = paa_partition(xs.len(), dim).unwrap();
    buckets.iter().map(|&(lo, hi)| mean(&xs[lo..hi])).collect()
}

fn breakpoints(alpha: usize) -> Vec<f64> {
    match alpha {
        3 => vec![-0.43, 0.43],
        4 => vec![-0.67, 0.0, 0.67],
        5 => vec![-0.84, -0.25, 0.25, 0.84],
        6 => vec![-0.97, -0.43, 0.0, 0.43, 0.97],
        7 => vec![-1.07, -0.57, -0.18, 0.18, 0.57, 1.07],
        _ => panic!("invalid alphabet"),
    }
}

fn sax_word(window: &[f64], word_len: usize, alpha: usize) -> Vec<u8> {
    let bps = breakpoints(alpha);
    let norm = znorm(window);
    paa(&norm, word_len)
        .into_iter()
        .map(|v| {
            let mut letter = alpha - 1;
            for (i, bp) in bps.iter().enumerate() {
                if *bp > v {
                    letter = i;
                    break;
                }
            }
            b'a' + letter as u8
        })
        .collect()
}

fn sax_words(data: &[f64], w: usize, word_len: usize, alpha: usize) -> Vec<Vec<u8>> {
    (0..=data.len() - w).map(|i| sax_word(&data[i..i + w], word_len, alpha)).collect()
}

fn dist_table(data: &[f64], w: usize) -> Vec<Vec<u64>> {
    let m = data.len() - w + 1;
    (0..m)
        .map(|i| (0..m).map(|j| gaussian(&data[i..i + w], &data[j..j + w]).to_bits()).collect())
        .collect()
}

fn spiky_series(n: usize) -> Vec<f64> {
    // A smooth wave with one sharp anomaly near the middle.
    let mut data: Vec<f64> = (0..n).map(|i| (i as f64 * 0.7).sin() + i as f64 * 0.01).collect();
    data[n / 2] += 6.0;
    data
}

#[test]
fn infinite_key_is_the_infinite_distance() {
    assert_eq!(DIST_INF, f64::INFINITY.to_bits());
    // Key order mirrors distance order for the distances a search sees.
    assert!(1.5f64.to_bits() < 2.25f64.to_bits());
    assert!(0.0f64.to_bits() == 0);
    assert!(123.25f64.to_bits() < f64::INFINITY.to_bits());
}

#[test]
fn concrete_scenario_spike_at_180() {
    // The series 1..999 with one outlier: brute force must place the
    // top discord at (or within a window of) the outlier, strictly
    // ahead of the runner-up.
    let mut data: Vec<f64> = (1..=999).map(|i| i as f64).collect();
    data[180] = 500.0;
    let w = 20usize;
    let table = dist_table(&data, w);
    let discords = brute_force_top_n(&table, w, 2);
    assert!(!discords.is_empty());
    let (d0, loc0) = discords[0];
    assert!((loc0 as i64 - 180).abs() <= w as i64, "top discord at {}", loc0);
    if discords.len() > 1 {
        assert!(d0 > discords[1].0);
    }
}

#[test]
fn strategies_agree_on_the_top_discord() {
    // The cross-check between the three strategies: on a small series
    // with one clear anomaly, all report the same location.
    let data = spiky_series(120);
    let w = 10usize;
    let table = dist_table(&data, w);
    let words = sax_words(&data, w, 3, 3);
    let bf = brute_force_best(&table, w).unwrap();
    let mut src = RandomSource::Seeded(11);
    let hs = hotsax_best(&words, &table, w, &mut src).unwrap();
    let thr = Threshold { num: 9, den: 10 };
    let mut src2 = RandomSource::System;
    let sq = hs_squeezer_best(&words, &table, w, &thr, &mut src2).unwrap();
    assert_eq!(bf.1, hs.1);
    assert_eq!(bf.1, sq.1);
    assert_eq!(bf.0, hs.0);
    assert_eq!(bf.0, sq.0);
}

#[test]
fn seeded_heuristic_runs_repeat_exactly() {
    let data = spiky_series(150);
    let w = 12usize;
    let table = dist_table(&data, w);
    let words = sax_words(&data, w, 3, 3);
    let mut s1 = RandomSource::Seeded(99);
    let mut s2 = RandomSource::Seeded(99);
    let r1 = hotsax_top_n(&words, &table, w, 4, &mut s1);
    let r2 = hotsax_top_n(&words, &table, w, 4, &mut s2);
    assert_eq!(r1, r2);
    assert!(!r1.is_empty());
}

#[test]
fn cluster_strategy_is_deterministic_even_unseeded() {
    // The cluster-assisted search's result does not depend on what the
    // random source draws: the random order only reorders probe work.
    let data = spiky_series(100);
    let w = 8usize;
    let table = dist_table(&data, w);
    let words = sax_words(&data, w, 3, 3);
    let thr = Threshold { num: 17, den: 20 };
    let mut s1 = RandomSource::System;
    let mut s2 = RandomSource::Seeded(1);
    let r1 = hs_squeezer_top_n(&words, &table, w, &thr, 3, &mut s1);
    let r2 = hs_squeezer_top_n(&words, &table, w, &thr, 3, &mut s2);
    assert_eq!(r1, r2);
}

#[test]
fn reported_discords_never_overlap() {
    // The self-exclusion invariant: no two reported locations lie
    // within one window of each other, in any strategy's run.
    let mut data = spiky_series(160);
    data[30] -= 5.0;
    data[130] += 4.0;
    let w = 9usize;
    let table = dist_table(&data, w);
    let words = sax_words(&data, w, 3, 3);
    let thr = Threshold { num: 3, den: 4 };
    let mut src = RandomSource::Seeded(5);
    let runs = vec![
        brute_force_top_n(&table, w, 4),
        hotsax_top_n(&words, &table, w, 4, &mut src),
        hs_squeezer_top_n(&words, &table, w, &thr, 4, &mut src),
    ];
    for discords in runs {
        for a in 0..discords.len() {
            for b in 0..discords.len() {
                if a != b {
                    let da = discords[a].1 as i64;
                    let db = discords[b].1 as i64;
                    assert!((da - db).abs() >= w as i64);
                }
            }
            if a + 1 < discords.len() {
                assert!(discords[a].0 >= discords[a + 1].0);
            }
        }
    }
}

#[test]
fn infinite_threshold_reports_nothing() {
    let data = spiky_series(90);
    let w = 8usize;
    let table = dist_table(&data, w);
    let words = sax_words(&data, w, 3, 3);
    let thr = Threshold { num: 1, den: 2 };
    let mut src = RandomSource::Seeded(3);
    assert!(brute_force_min_dist(&table, w, DIST_INF).is_empty());
    assert!(hotsax_min_dist(&words, &table, w, DIST_INF, &mut src).is_empty());
    assert!(hs_squeezer_min_dist(&words, &table, w, &thr, DIST_INF, &mut src).is_empty());
}

#[test]
fn no_neighbour_means_no_discord() {
    // A series too short for any non-overlapping pair: nothing can be
    // measured, so nothing is reported, even at an infinite threshold.
    let table = vec![vec![0u64]];
    assert!(brute_force_min_dist(&table, 1, DIST_INF).is_empty());
    assert!(brute_force_top_n(&table, 1, 3).is_empty());
    assert_eq!(brute_force_best(&table, 1), None);
    // Length nine with window five: every start overlaps every other.
    let data: Vec<f64> = (0..9).map(|i| (i as f64) * 1.5).collect();
    let table2 = dist_table(&data, 5);
    assert!(brute_force_min_dist(&table2, 5, DIST_INF).is_empty());
    assert_eq!(brute_force_best(&table2, 5), None);
}

#[test]
fn zero_threshold_runs_until_a_zero_distance() {
    // With a least distance of zero the threshold clause never fires on
    // its own: the run reports exactly what an unbounded run reports.
    let data = spiky_series(80);
    let w = 7usize;
    let table = dist_table(&data, w);
    let unbounded = brute_force_top_n(&table, w, usize::MAX);
    let thresholded = brute_force_min_dist(&table, w, 0);
    assert_eq!(unbounded, thresholded);
}

#[test]
fn paa_matches_the_bucket_means() {
    // Each approximation point is the mean of its bucket, and the
    // output has exactly the target length.
    let xs: Vec<f64> = (0..10).map(|i| i as f64).collect();
    let reduced = paa(&xs, 3);
    assert_eq!(reduced.len(), 3);
    assert_eq!(reduced[0], 1.0);
    assert_eq!(reduced[1], 4.0);
    assert_eq!(reduced[2], 7.5);
}

#[test]
fn sax_words_of_like_windows_agree() {
    // Windows with the same shape after normalisation spell the same
    // word; an anomalous window spells a rarer one.
    let data = spiky_series(60);
    let words = sax_words(&data, 8, 3, 3);
    assert_eq!(words.len(), 60 - 8 + 1);
    for w0 in &words {
        assert_eq!(w0.len(), 3);
        for &c in w0 {
            assert!((b'a'..=b'c').contains(&c));
        }
    }
}
