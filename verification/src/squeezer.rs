use vstd::prelude::*;

use crate::words::{words_eq, copy_word};

verus! {

/// A similarity threshold in (0, 1], held exactly as a fraction.
pub struct Threshold {
    pub num: u64,
    pub den: u64,
}

impl Threshold {
    /// A meaningful threshold: a positive fraction of at most one.
    pub open spec fn wf(self) -> bool {
        1 <= self.num <= self.den
    }
}

/// The support of a word in a cluster: how many members carry it.
pub open spec fn support_spec(words: Seq<Vec<u8>>, w: Seq<u8>, cluster: Seq<usize>) -> nat
    decreases cluster.len(),
{
    if cluster.len() == 0 {
        0
    } else {
        support_spec(words, w, cluster.drop_last()) + (if cluster.last() < words.len()
            && words[cluster.last() as int]@ == w {
            1nat
        } else {
            0nat
        })
    }
}

/// The views of a list of words.
pub open spec fn word_views(ws: Seq<Vec<u8>>) -> Seq<Seq<u8>> {
    Seq::new(ws.len(), |q: int| ws[q]@)
}

/// The distinct words among the first `upto` members of a cluster, in
/// first-occurrence order.
pub open spec fn uniq_words_upto(words: Seq<Vec<u8>>, cluster: Seq<usize>, upto: int) -> Seq<
    Seq<u8>,
>
    decreases upto,
{
    if upto <= 0 || upto > cluster.len() {
        Seq::empty()
    } else {
        let prev = uniq_words_upto(words, cluster, upto - 1);
        let w = if cluster[upto - 1] < words.len() {
            words[cluster[upto - 1] as int]@
        } else {
            Seq::empty()
        };
        if prev.contains(w) {
            prev
        } else {
            prev.push(w)
        }
    }
}

/// The sum, over a list of words, of each word's support in the cluster.
pub open spec fn support_sum(words: Seq<Vec<u8>>, uniq: Seq<Seq<u8>>, cluster: Seq<usize>) -> nat
    decreases uniq.len(),
{
    if uniq.len() == 0 {
        0
    } else {
        support_sum(words, uniq.drop_last(), cluster) + support_spec(words, uniq.last(), cluster)
    }
}

/// The denominator of the support-ratio similarity: the supports of the
/// cluster's distinct words, summed.
pub open spec fn sim_den(words: Seq<Vec<u8>>, cluster: Seq<usize>) -> nat {
    support_sum(words, uniq_words_upto(words, cluster, cluster.len() as int), cluster)
}

/// The support-ratio similarity of a word to a cluster, as a fraction.
pub open spec fn sim_pair(words: Seq<Vec<u8>>, w: Seq<u8>, cluster: Seq<usize>) -> (nat, nat) {
    (support_spec(words, w, cluster), sim_den(words, cluster))
}

/// Whether the fraction `a` exceeds the fraction `b`.
pub open spec fn rat_gt(a: (nat, nat), b: (nat, nat)) -> bool {
    a.0 * b.1 > b.0 * a.1
}

/// Whether the fractions `a` and `b` are the same value.
pub open spec fn rat_eq(a: (nat, nat), b: (nat, nat)) -> bool {
    a.0 * b.1 == b.0 * a.1
}

/// Whether the fraction `a` reaches the threshold.
pub open spec fn rat_ge_thr(a: (nat, nat), thr: Threshold) -> bool {
    a.0 * thr.den >= thr.num * a.1
}

/// The largest similarity of the word to any of the first `upto`
/// clusters, starting from zero.
pub open spec fn max_sim_upto(
    words: Seq<Vec<u8>>,
    clusters: Seq<Seq<usize>>,
    w: Seq<u8>,
    upto: int,
) -> (nat, nat)
    decreases upto,
{
    if upto <= 0 || upto > clusters.len() {
        (0nat, 1nat)
    } else {
        let prev = max_sim_upto(words, clusters, w, upto - 1);
        let cur = sim_pair(words, w, clusters[upto - 1]);
        if rat_gt(cur, prev) {
            cur
        } else {
            prev
        }
    }
}

/// The first cluster from `from` on whose similarity equals the target
/// value, or cluster zero where none does.
pub open spec fn first_eq_from(
    words: Seq<Vec<u8>>,
    clusters: Seq<Seq<usize>>,
    w: Seq<u8>,
    target: (nat, nat),
    from: int,
    upto: int,
) -> int
    decreases upto - from,
{
    if from < 0 || from >= upto || upto > clusters.len() {
        0
    } else if rat_eq(sim_pair(words, w, clusters[from]), target) {
        from
    } else {
        first_eq_from(words, clusters, w, target, from + 1, upto)
    }
}

/// One streaming step of the clusterer: the start `i` joins the first
/// cluster of maximal similarity where that similarity reaches the
/// threshold, and seeds a new singleton cluster otherwise.
pub open spec fn squeezer_step(
    words: Seq<Vec<u8>>,
    thr: Threshold,
    clusters: Seq<Seq<usize>>,
    i: int,
) -> Seq<Seq<usize>> {
    let w = if 0 <= i < words.len() {
        words[i]@
    } else {
        Seq::empty()
    };
    let mx = max_sim_upto(words, clusters, w, clusters.len() as int);
    let id = first_eq_from(words, clusters, w, mx, 0, clusters.len() as int);
    if rat_ge_thr(mx, thr) {
        clusters.update(id, clusters[id].push(i as usize))
    } else {
        clusters.push(seq![i as usize])
    }
}

/// The clusters after the streaming pass over the first `upto` starts:
/// the first start seeds one cluster, each further start is placed by
/// `squeezer_step`.
pub open spec fn squeezer_spec(words: Seq<Vec<u8>>, thr: Threshold, upto: int) -> Seq<Seq<usize>>
    decreases upto,
{
    if upto <= 1 {
        seq![seq![0usize]]
    } else {
        squeezer_step(words, thr, squeezer_spec(words, thr, upto - 1), upto - 1)
    }
}

/// Whether some cluster of the set holds the start.
pub open spec fn covered(cls: Seq<Seq<usize>>, x: usize) -> bool {
    exists|k: int| 0 <= k < cls.len() && (#[trigger] cls[k]).contains(x)
}

/// The member count of a set of clusters.
pub open spec fn total_len(cls: Seq<Seq<usize>>) -> nat
    decreases cls.len(),
{
    if cls.len() == 0 {
        0
    } else {
        total_len(cls.drop_last()) + cls.last().len()
    }
}

/// No cluster is larger than the member count.
pub proof fn lemma_total_len_ge(cls: Seq<Seq<usize>>, k: int)
    requires
        0 <= k < cls.len(),
    ensures
        cls[k].len() <= total_len(cls),
    decreases cls.len(),
{
    if k < cls.len() - 1 {
        lemma_total_len_ge(cls.drop_last(), k);
    }
}

/// Extending one cluster by one member raises the member count by one,
/// as does adding a singleton cluster.
pub proof fn lemma_total_len_grow(cls: Seq<Seq<usize>>, k: int, x: usize)
    requires
        0 <= k < cls.len(),
    ensures
        total_len(cls.update(k, cls[k].push(x))) == total_len(cls) + 1,
        total_len(cls.push(seq![x])) == total_len(cls) + 1,
    decreases cls.len(),
{
    let up = cls.update(k, cls[k].push(x));
    if k < cls.len() - 1 {
        lemma_total_len_grow(cls.drop_last(), k, x);
        assert(up.drop_last() =~= cls.drop_last().update(k, cls[k].push(x)));
        assert(up.last() == cls.last());
    } else {
        assert(up.drop_last() =~= cls.drop_last());
        assert(up.last() == cls[k].push(x));
    }
    assert(cls.push(seq![x]).drop_last() =~= cls);
}

/// The support of a word never exceeds the cluster's size.
pub proof fn lemma_support_le(words: Seq<Vec<u8>>, w: Seq<u8>, cluster: Seq<usize>)
    ensures
        support_spec(words, w, cluster) <= cluster.len(),
    decreases cluster.len(),
{
    if cluster.len() > 0 {
        lemma_support_le(words, w, cluster.drop_last());
    }
}

/// The distinct-word list of a cluster is never longer than the cluster.
pub proof fn lemma_uniq_le(words: Seq<Vec<u8>>, cluster: Seq<usize>, upto: int)
    ensures
        uniq_words_upto(words, cluster, upto).len() <= (if upto >= 0 {
            upto
        } else {
            0
        }),
    decreases upto,
{
    if upto > 0 {
        lemma_uniq_le(words, cluster, upto - 1);
    }
}

/// The similarity denominator is at most cluster size squared.
pub proof fn lemma_support_sum_le(words: Seq<Vec<u8>>, uniq: Seq<Seq<u8>>, cluster: Seq<usize>)
    ensures
        support_sum(words, uniq, cluster) <= uniq.len() * cluster.len(),
    decreases uniq.len(),
{
    if uniq.len() > 0 {
        lemma_support_sum_le(words, uniq.drop_last(), cluster);
        lemma_support_le(words, uniq.last(), cluster);
        assert((uniq.len() - 1) * cluster.len() + cluster.len() == uniq.len() * cluster.len())
            by (nonlinear_arith);
    }
}

/// How often a word occurs in a list of words.
pub open spec fn word_occurrences(ws: Seq<Seq<u8>>, w: Seq<u8>) -> nat
    decreases ws.len(),
{
    if ws.len() == 0 {
        0
    } else {
        word_occurrences(ws.drop_last(), w) + (if ws.last() == w {
            1nat
        } else {
            0nat
        })
    }
}

/// No two words of the list read the same.
pub open spec fn words_distinct(ws: Seq<Seq<u8>>) -> bool {
    forall|q1: int, q2: int| 0 <= q1 < q2 < ws.len() ==> ws[q1] != ws[q2]
}

/// A word the list does not hold occurs zero times in it.
proof fn lemma_occurrences_zero(ws: Seq<Seq<u8>>, w: Seq<u8>)
    requires
        !ws.contains(w),
    ensures
        word_occurrences(ws, w) == 0,
    decreases ws.len(),
{
    if ws.len() > 0 {
        assert(!ws.drop_last().contains(w)) by {
            if ws.drop_last().contains(w) {
                let q = choose|q: int| 0 <= q < ws.drop_last().len() && ws.drop_last()[q] == w;
                assert(ws[q] == w);
            }
        }
        lemma_occurrences_zero(ws.drop_last(), w);
    }
}

/// A word a distinct list holds occurs exactly once in it.
proof fn lemma_occurrences_one(ws: Seq<Seq<u8>>, w: Seq<u8>)
    requires
        ws.contains(w),
        words_distinct(ws),
    ensures
        word_occurrences(ws, w) == 1,
    decreases ws.len(),
{
    let q = choose|q: int| 0 <= q < ws.len() && ws[q] == w;
    if q == ws.len() - 1 {
        assert(ws.last() == w);
        assert(!ws.drop_last().contains(w)) by {
            if ws.drop_last().contains(w) {
                let q2 = choose|q2: int|
                    0 <= q2 < ws.drop_last().len() && ws.drop_last()[q2] == w;
                assert(ws[q2] == w && ws[ws.len() - 1] == w);
            }
        }
        lemma_occurrences_zero(ws.drop_last(), w);
    } else {
        assert(ws.last() != w);
        assert(ws.drop_last().contains(w)) by {
            assert(ws.drop_last()[q] == w);
        }
        assert(words_distinct(ws.drop_last())) by {
            assert forall|q1: int, q2: int|
                0 <= q1 < q2 < ws.drop_last().len() implies ws.drop_last()[q1] != ws.drop_last()[q2] by {
                assert(ws[q1] != ws[q2]);
            }
        }
        lemma_occurrences_one(ws.drop_last(), w);
    }
}

/// The distinct-word list of a cluster prefix holds no word twice.
proof fn lemma_uniq_distinct(words: Seq<Vec<u8>>, cluster: Seq<usize>, upto: int)
    ensures
        words_distinct(uniq_words_upto(words, cluster, upto)),
    decreases upto,
{
    if upto <= 0 || upto > cluster.len() {
    } else {
        lemma_uniq_distinct(words, cluster, upto - 1);
        let prev = uniq_words_upto(words, cluster, upto - 1);
        let u = uniq_words_upto(words, cluster, upto);
        assert forall|q1: int, q2: int| 0 <= q1 < q2 < u.len() implies u[q1] != u[q2] by {
            if q2 < prev.len() {
                assert(u[q1] == prev[q1] && u[q2] == prev[q2]);
            } else if u.len() > prev.len() {
                assert(u[q1] == prev[q1]);
                assert(prev.contains(prev[q1]));
            }
        }
    }
}

/// Longer prefixes of a cluster only widen its distinct-word list.
proof fn lemma_uniq_monotone(words: Seq<Vec<u8>>, cluster: Seq<usize>, j: int, k: int, w: Seq<u8>)
    requires
        j <= k <= cluster.len(),
        uniq_words_upto(words, cluster, j).contains(w),
    ensures
        uniq_words_upto(words, cluster, k).contains(w),
    decreases k - j,
{
    if j < k {
        lemma_uniq_monotone(words, cluster, j, k - 1, w);
        let prev = uniq_words_upto(words, cluster, k - 1);
        let u = uniq_words_upto(words, cluster, k);
        let q = choose|q: int| 0 <= q < prev.len() && prev[q] == w;
        assert(u[q] == w);
    }
}

/// Every member's word of a cluster prefix stands in its distinct-word
/// list.
proof fn lemma_member_in_uniq(words: Seq<Vec<u8>>, cluster: Seq<usize>, upto: int, q: int)
    requires
        0 <= q < upto <= cluster.len(),
        cluster[q] < words.len(),
    ensures
        uniq_words_upto(words, cluster, upto).contains(words[cluster[q] as int]@),
    decreases upto,
{
    let w = words[cluster[q] as int]@;
    if q < upto - 1 {
        lemma_member_in_uniq(words, cluster, upto - 1, q);
        lemma_uniq_monotone(words, cluster, upto - 1, upto, w);
    } else {
        let prev = uniq_words_upto(words, cluster, upto - 1);
        let u = uniq_words_upto(words, cluster, upto);
        if prev.contains(w) {
            lemma_uniq_monotone(words, cluster, upto - 1, upto, w);
        } else {
            assert(u.last() == w);
        }
    }
}

/// Summing supports over a list of words, one more cluster member adds
/// one per occurrence of the member's word in the list.
proof fn lemma_support_sum_push(words: Seq<Vec<u8>>, uniq: Seq<Seq<u8>>, d: Seq<usize>, x: usize)
    requires
        x < words.len(),
    ensures
        support_sum(words, uniq, d.push(x)) == support_sum(words, uniq, d) + word_occurrences(
            uniq,
            words[x as int]@,
        ),
    decreases uniq.len(),
{
    if uniq.len() > 0 {
        lemma_support_sum_push(words, uniq.drop_last(), d, x);
        assert(d.push(x).drop_last() =~= d);
        assert(d.push(x).last() == x);
        assert(support_spec(words, uniq.last(), d.push(x)) == support_spec(words, uniq.last(), d)
            + (if words[x as int]@ == uniq.last() {
            1nat
        } else {
            0nat
        }));
    }
}

/// A word outside a cluster prefix's distinct-word list has no support
/// in the prefix.
proof fn lemma_support_zero_outside_uniq(
    words: Seq<Vec<u8>>,
    cluster: Seq<usize>,
    upto: int,
    w: Seq<u8>,
)
    requires
        0 <= upto <= cluster.len(),
        forall|q: int| 0 <= q < cluster.len() ==> (#[trigger] cluster[q]) < words.len(),
        !uniq_words_upto(words, cluster, upto).contains(w),
    ensures
        support_spec(words, w, cluster.take(upto)) == 0,
    decreases upto,
{
    if upto > 0 {
        let wx = words[cluster[upto - 1] as int]@;
        lemma_member_in_uniq(words, cluster, upto, upto - 1);
        assert(wx != w);
        assert(!uniq_words_upto(words, cluster, upto - 1).contains(w)) by {
            if uniq_words_upto(words, cluster, upto - 1).contains(w) {
                lemma_uniq_monotone(words, cluster, upto - 1, upto, w);
            }
        }
        lemma_support_zero_outside_uniq(words, cluster, upto - 1, w);
        assert(cluster.take(upto).drop_last() =~= cluster.take(upto - 1));
        assert(cluster.take(upto).last() == cluster[upto - 1]);
    } else {
        assert(cluster.take(0) =~= Seq::<usize>::empty());
    }
}

/// The summed support of a cluster prefix's distinct words is the
/// prefix's size: each member is counted exactly once, under the word
/// it carries.
proof fn lemma_uniq_support_sum(words: Seq<Vec<u8>>, cluster: Seq<usize>, upto: int)
    requires
        0 <= upto <= cluster.len(),
        forall|q: int| 0 <= q < cluster.len() ==> (#[trigger] cluster[q]) < words.len(),
    ensures
        support_sum(words, uniq_words_upto(words, cluster, upto), cluster.take(upto)) == upto,
    decreases upto,
{
    if upto > 0 {
        lemma_uniq_support_sum(words, cluster, upto - 1);
        let prev = uniq_words_upto(words, cluster, upto - 1);
        let u = uniq_words_upto(words, cluster, upto);
        let wx = words[cluster[upto - 1] as int]@;
        let d = cluster.take(upto - 1);
        assert(cluster.take(upto) =~= d.push(cluster[upto - 1]));
        lemma_uniq_distinct(words, cluster, upto - 1);
        assert(cluster[upto - 1] < words.len());
        assert(u == (if prev.contains(wx) {
            prev
        } else {
            prev.push(wx)
        }));
        if prev.contains(wx) {
            assert(u == prev);
            lemma_support_sum_push(words, u, d, cluster[upto - 1]);
            lemma_occurrences_one(prev, wx);
        } else {
            assert(u == prev.push(wx));
            assert(u.drop_last() =~= prev);
            assert(u.last() == wx);
            assert(support_sum(words, u, d.push(cluster[upto - 1])) == support_sum(
                words,
                prev,
                d.push(cluster[upto - 1]),
            ) + support_spec(words, wx, d.push(cluster[upto - 1])));
            lemma_support_sum_push(words, prev, d, cluster[upto - 1]);
            lemma_occurrences_zero(prev, wx);
            lemma_support_zero_outside_uniq(words, cluster, upto - 1, wx);
            assert(d.push(cluster[upto - 1]).drop_last() =~= d);
            assert(support_spec(words, wx, d.push(cluster[upto - 1])) == support_spec(
                words,
                wx,
                d,
            ) + 1);
        }
    } else {
        assert(cluster.take(0) =~= Seq::<usize>::empty());
    }
}

/// The similarity denominator of a cluster is the cluster's size: the
/// supports of its distinct words sum to one per member.
pub proof fn lemma_sim_den_is_cluster_len(words: Seq<Vec<u8>>, cluster: Seq<usize>)
    requires
        forall|q: int| 0 <= q < cluster.len() ==> (#[trigger] cluster[q]) < words.len(),
    ensures
        sim_den(words, cluster) == cluster.len(),
{
    lemma_uniq_support_sum(words, cluster, cluster.len() as int);
    assert(cluster.take(cluster.len() as int) =~= cluster);
}

/// The views of a list of clusters.
pub open spec fn cl_view(c: Seq<Vec<usize>>) -> Seq<Seq<usize>> {
    Seq::new(c.len(), |k: int| c[k]@)
}

/// The scan from `from` finds the first matching cluster at or past it.
proof fn lemma_first_eq(
    words: Seq<Vec<u8>>,
    clusters: Seq<Seq<usize>>,
    w: Seq<u8>,
    target: (nat, nat),
    from: int,
    k: int,
    upto: int,
)
    requires
        0 <= from <= k < upto <= clusters.len(),
        forall|q: int| from <= q < k ==> !rat_eq(sim_pair(words, w, #[trigger] clusters[q]), target),
        rat_eq(sim_pair(words, w, clusters[k]), target),
    ensures
        first_eq_from(words, clusters, w, target, from, upto) == k,
    decreases k - from,
{
    if from < k {
        lemma_first_eq(words, clusters, w, target, from + 1, k, upto);
    }
}

/// A scan that matches nowhere falls back to cluster zero.
proof fn lemma_first_eq_none(
    words: Seq<Vec<u8>>,
    clusters: Seq<Seq<usize>>,
    w: Seq<u8>,
    target: (nat, nat),
    from: int,
    upto: int,
)
    requires
        forall|q: int| from <= q < upto ==> !rat_eq(sim_pair(words, w, #[trigger] clusters[q]), target),
    ensures
        first_eq_from(words, clusters, w, target, from, upto) == 0,
    decreases upto - from,
{
    if 0 <= from < upto <= clusters.len() {
        lemma_first_eq_none(words, clusters, w, target, from + 1, upto);
    }
}

/// Products of two 64-bit values stay within 128 bits.
proof fn lemma_mul_bound_u64(x: u64, y: u64)
    ensures
        (x as nat) * (y as nat) <= u128::MAX,
{
    assert((x as nat) * (y as nat) <= 0xFFFF_FFFF_FFFF_FFFF * 0xFFFF_FFFF_FFFF_FFFF)
        by (nonlinear_arith)
        requires
            x <= 0xFFFF_FFFF_FFFF_FFFFu64 && y <= 0xFFFF_FFFF_FFFF_FFFFu64,
    ;
}

/// Whether the word reads the same as some word of the list.
fn contains_word(list: &Vec<Vec<u8>>, w: &Vec<u8>) -> (r: bool)
    ensures
        r == word_views(list@).contains(w@),
{
    let mut k: usize = 0;
    while k < list.len()
        invariant
            k <= list@.len(),
            forall|q: int| 0 <= q < k ==> word_views(list@)[q] != w@,
        decreases list@.len() - k,
    {
        if words_eq(&list[k], w) {
            proof {
                assert(word_views(list@)[k as int] == w@);
            }
            return true;
        }
        k += 1;
    }
    false
}

/// The support of the word in a cluster, by linear scan.
fn get_support(words: &Vec<Vec<u8>>, value: &Vec<u8>, cluster: &Vec<usize>) -> (c: usize)
    requires
        forall|q: int| 0 <= q < cluster@.len() ==> (#[trigger] cluster@[q]) < words@.len(),
    ensures
        c as nat == support_spec(words@, value@, cluster@),
        c <= cluster@.len(),
{
    let mut c: usize = 0;
    let mut k: usize = 0;
    while k < cluster.len()
        invariant
            k <= cluster@.len(),
            c <= k,
            forall|q: int| 0 <= q < cluster@.len() ==> (#[trigger] cluster@[q]) < words@.len(),
            c as nat == support_spec(words@, value@, cluster@.take(k as int)),
        decreases cluster@.len() - k,
    {
        proof {
            assert(cluster@.take(k as int + 1).drop_last() =~= cluster@.take(k as int));
            assert(cluster@.take(k as int + 1).last() == cluster@[k as int]);
        }
        let idx = cluster[k];
        if words_eq(&words[idx], value) {
            c += 1;
        }
        k += 1;
    }
    proof {
        assert(cluster@.take(cluster@.len() as int) =~= cluster@);
    }
    c
}

/// The support-ratio similarity of a word to a cluster: the word's
/// support over the summed support of the cluster's distinct words.
fn similarity_cluster(words: &Vec<Vec<u8>>, val: &Vec<u8>, cluster: &Vec<usize>) -> (r: (u64, u64))
    requires
        forall|q: int| 0 <= q < cluster@.len() ==> (#[trigger] cluster@[q]) < words@.len(),
        cluster@.len() < 0x1_0000_0000,
    ensures
        r.0 as nat == support_spec(words@, val@, cluster@),
        r.1 as nat == sim_den(words@, cluster@),
        r.1 as nat == cluster@.len(),
        r.0 <= cluster@.len(),
{
    proof {
        lemma_sim_den_is_cluster_len(words@, cluster@);
    }
    let mut uniq: Vec<Vec<u8>> = Vec::new();
    let mut k: usize = 0;
    while k < cluster.len()
        invariant
            k <= cluster@.len(),
            forall|q: int| 0 <= q < cluster@.len() ==> (#[trigger] cluster@[q]) < words@.len(),
            word_views(uniq@) == uniq_words_upto(words@, cluster@, k as int),
            uniq@.len() <= k,
        decreases cluster@.len() - k,
    {
        let idx = cluster[k];
        let w = &words[idx];
        if !contains_word(&uniq, w) {
            let cw = copy_word(w);
            uniq.push(cw);
            proof {
                assert(word_views(uniq@) =~= uniq_words_upto(words@, cluster@, k as int).push(
                    words@[idx as int]@,
                ));
            }
        }
        k += 1;
    }
    proof {
        lemma_uniq_le(words@, cluster@, cluster@.len() as int);
    }
    let mut den: u64 = 0;
    let mut q: usize = 0;
    while q < uniq.len()
        invariant
            q <= uniq@.len(),
            uniq@.len() <= cluster@.len(),
            cluster@.len() < 0x1_0000_0000,
            forall|j: int| 0 <= j < cluster@.len() ==> (#[trigger] cluster@[j]) < words@.len(),
            word_views(uniq@) == uniq_words_upto(words@, cluster@, cluster@.len() as int),
            den as nat == support_sum(words@, word_views(uniq@).take(q as int), cluster@),
            den as nat <= (q as nat) * cluster@.len(),
        decreases uniq@.len() - q,
    {
        let s = get_support(words, &uniq[q], cluster);
        proof {
            assert(word_views(uniq@).take(q as int + 1).drop_last() =~= word_views(uniq@).take(
                q as int,
            ));
            assert(word_views(uniq@).take(q as int + 1).last() == uniq@[q as int]@);
            assert((den as nat) + (s as nat) <= ((q as nat) + 1) * cluster@.len()) by (nonlinear_arith)
                requires
                    den as nat <= (q as nat) * cluster@.len() && s as nat <= cluster@.len(),
            ;
            assert(((q as nat) + 1) * cluster@.len() < 0x1_0000_0000_0000_0000)
                by (nonlinear_arith)
                requires
                    (q as nat) + 1 < 0x1_0000_0000 && cluster@.len() < 0x1_0000_0000,
            ;
        }
        den = den + (s as u64);
        q += 1;
    }
    proof {
        assert(word_views(uniq@).take(uniq@.len() as int) =~= word_views(uniq@));
    }
    let sup = get_support(words, val, cluster);
    (sup as u64, den)
}

/// The incremental clusterer: the first start seeds one cluster, and
/// each later start joins the first cluster of maximal support-ratio
/// similarity where that similarity reaches the threshold, seeding a
/// new singleton cluster otherwise. The result is pinned by
/// `squeezer_spec` and partitions the starts: every start lies in
/// exactly one cluster, and no cluster is empty.
pub fn squeezer(words: &Vec<Vec<u8>>, threshold: &Threshold) -> (clusters: Vec<Vec<usize>>)
    requires
        words@.len() >= 1,
        words@.len() < 0x1_0000_0000,
        threshold.wf(),
    ensures
        cl_view(clusters@) == squeezer_spec(words@, *threshold, words@.len() as int),
        clusters@.len() >= 1,
        forall|k: int| 0 <= k < clusters@.len() ==> (#[trigger] clusters@[k])@.len() >= 1,
        forall|k: int, q: int|
            0 <= k < clusters@.len() && 0 <= q < clusters@[k]@.len() ==> (#[trigger] clusters@[k]@[q])
                < words@.len(),
        forall|x: usize| x < words@.len() ==> #[trigger] covered(cl_view(clusters@), x),
        forall|k1: int, q1: int, k2: int, q2: int|
            0 <= k1 < clusters@.len() && 0 <= q1 < clusters@[k1]@.len() && 0 <= k2
                < clusters@.len() && 0 <= q2 < clusters@[k2]@.len() && (k1 != k2 || q1 != q2)
                ==> (#[trigger] clusters@[k1]@[q1]) != (#[trigger] clusters@[k2]@[q2]),
{
    let ghost wseq = words@;
    let ghost thr = *threshold;
    let m = words.len();
    let mut clusters: Vec<Vec<usize>> = Vec::new();
    let mut first: Vec<usize> = Vec::new();
    first.push(0);
    clusters.push(first);
    proof {
        assert(clusters@.len() == 1);
        assert(clusters@[0]@.len() == 1);
        assert(clusters@[0]@[0] == 0usize);
        assert(cl_view(clusters@)[0] =~= seq![0usize]);
        assert(cl_view(clusters@) =~= squeezer_spec(wseq, thr, 1));
        assert(total_len(cl_view(clusters@)) == 1) by {
            assert(cl_view(clusters@).drop_last() =~= Seq::<Seq<usize>>::empty());
            assert(total_len(Seq::<Seq<usize>>::empty()) == 0);
            assert(cl_view(clusters@).last() == cl_view(clusters@)[0]);
        }
        assert(clusters@[0]@.contains(0usize));
        assert(covered(cl_view(clusters@), 0usize)) by {
            assert(cl_view(clusters@)[0].contains(0usize));
        }
    }
    let mut i: usize = 1;
    while i < m
        invariant
            1 <= i <= m,
            m == wseq.len(),
            m < 0x1_0000_0000,
            words@ == wseq,
            thr == *threshold,
            cl_view(clusters@) == squeezer_spec(wseq, thr, i as int),
            clusters@.len() >= 1,
            total_len(cl_view(clusters@)) == i,
            forall|k: int| 0 <= k < clusters@.len() ==> (#[trigger] clusters@[k])@.len() >= 1,
            forall|k: int, q: int|
                0 <= k < clusters@.len() && 0 <= q < clusters@[k]@.len() ==> (#[trigger] clusters@[k]@[q])
                    < i,
            forall|x: usize| x < i ==> #[trigger] covered(cl_view(clusters@), x),
            forall|k1: int, q1: int, k2: int, q2: int|
                0 <= k1 < clusters@.len() && 0 <= q1 < clusters@[k1]@.len() && 0 <= k2
                    < clusters@.len() && 0 <= q2 < clusters@[k2]@.len() && (k1 != k2 || q1 != q2)
                    ==> (#[trigger] clusters@[k1]@[q1]) != (#[trigger] clusters@[k2]@[q2]),
        decreases m - i,
    {
        let ghost cls0 = cl_view(clusters@);
        let instance = &words[i];
        let ghost w = wseq[i as int]@;

        // The similarity of this start's word to every cluster so far.
        let mut sims: Vec<(u64, u64)> = Vec::new();
        let mut k: usize = 0;
        while k < clusters.len()
            invariant
                k <= clusters@.len(),
                m == wseq.len(),
                m < 0x1_0000_0000,
                words@ == wseq,
                i < m,
                instance@ == w,
                cl_view(clusters@) == cls0,
                total_len(cls0) == i,
                forall|kk: int, qq: int|
                    0 <= kk < clusters@.len() && 0 <= qq < clusters@[kk]@.len() ==> (
                    #[trigger] clusters@[kk]@[qq]) < i,
                sims@.len() == k,
                forall|q: int|
                    0 <= q < k ==> ((#[trigger] sims@[q]).0 as nat, sims@[q].1 as nat) == sim_pair(
                        wseq,
                        w,
                        cls0[q],
                    ) && sims@[q].0 <= cls0[q].len(),
            decreases clusters@.len() - k,
        {
            proof {
                assert(cls0[k as int] == clusters@[k as int]@);
                lemma_total_len_ge(cls0, k as int);
            }
            let s = similarity_cluster(words, instance, &clusters[k]);
            sims.push(s);
            k += 1;
        }

        // The largest similarity, starting from zero.
        let mut mx: (u64, u64) = (0, 1);
        let mut k2: usize = 0;
        while k2 < sims.len()
            invariant
                k2 <= sims@.len(),
                sims@.len() == cls0.len(),
                cls0.len() == clusters@.len(),
                forall|q: int|
                    0 <= q < sims@.len() ==> ((#[trigger] sims@[q]).0 as nat, sims@[q].1 as nat)
                        == sim_pair(wseq, w, cls0[q]),
                (mx.0 as nat, mx.1 as nat) == max_sim_upto(wseq, cls0, w, k2 as int),
            decreases sims@.len() - k2,
        {
            let cur = sims[k2];
            proof {
                lemma_mul_bound_u64(cur.0, mx.1);
                lemma_mul_bound_u64(mx.0, cur.1);
            }
            if (cur.0 as u128) * (mx.1 as u128) > (mx.0 as u128) * (cur.1 as u128) {
                mx = cur;
            }
            k2 += 1;
        }

        // The first cluster attaining it.
        let mut id: usize = 0;
        let mut found = false;
        let mut k3: usize = 0;
        while k3 < sims.len()
            invariant
                k3 <= sims@.len(),
                sims@.len() == cls0.len(),
                cls0.len() == clusters@.len(),
                forall|q: int|
                    0 <= q < sims@.len() ==> ((#[trigger] sims@[q]).0 as nat, sims@[q].1 as nat)
                        == sim_pair(wseq, w, cls0[q]),
                found ==> 0 <= id < k3 && rat_eq(sim_pair(wseq, w, cls0[id as int]), (mx.0 as nat, mx.1 as nat))
                    && (forall|q: int|
                    0 <= q < id ==> !rat_eq(sim_pair(wseq, w, #[trigger] cls0[q]), (mx.0 as nat, mx.1 as nat))),
                !found ==> id == 0 && (forall|q: int|
                    0 <= q < k3 ==> !rat_eq(sim_pair(wseq, w, #[trigger] cls0[q]), (mx.0 as nat, mx.1 as nat))),
            decreases sims@.len() - k3,
        {
            if !found {
                let cur = sims[k3];
                proof {
                    lemma_mul_bound_u64(cur.0, mx.1);
                    lemma_mul_bound_u64(mx.0, cur.1);
                }
                if (cur.0 as u128) * (mx.1 as u128) == (mx.0 as u128) * (cur.1 as u128) {
                    id = k3;
                    found = true;
                }
            }
            k3 += 1;
        }
        proof {
            if found {
                lemma_first_eq(
                    wseq,
                    cls0,
                    w,
                    (mx.0 as nat, mx.1 as nat),
                    0,
                    id as int,
                    cls0.len() as int,
                );
            } else {
                lemma_first_eq_none(wseq, cls0, w, (mx.0 as nat, mx.1 as nat), 0, cls0.len() as int);
            }
            assert(id as int == first_eq_from(wseq, cls0, w, (mx.0 as nat, mx.1 as nat), 0, cls0.len() as int));
            assert(id < clusters@.len());
        }

        // Join the winning cluster, or seed a new one.
        let ghost mxn: (nat, nat) = (mx.0 as nat, mx.1 as nat);
        let ghost clvec0 = clusters@;
        proof {
            lemma_mul_bound_u64(mx.0, threshold.den);
            lemma_mul_bound_u64(threshold.num, mx.1);
        }
        if (mx.0 as u128) * (threshold.den as u128) >= (threshold.num as u128) * (mx.1 as u128) {
            proof {
                assert(rat_ge_thr(mxn, thr));
            }
            let mut c = clusters.remove(id);
            c.push(i);
            let ghost cval = c;
            clusters.insert(id, c);
            proof {
                vstd::seq_lib::lemma_update_is_remove_insert(clvec0, id as int, cval);
                assert(clusters@ =~= clvec0.update(id as int, cval));
                assert(cval@ =~= cls0[id as int].push(i));
                assert forall|q: int| 0 <= q < clusters@.len() implies cl_view(clusters@)[q]
                    == cls0.update(id as int, cls0[id as int].push(i))[q] by {
                    if q != id {
                        assert(clusters@[q] == clvec0[q]);
                    }
                }
                assert(cl_view(clusters@) =~= cls0.update(id as int, cls0[id as int].push(i)));
            }
        } else {
            proof {
                assert(!rat_ge_thr(mxn, thr));
            }
            let mut nc: Vec<usize> = Vec::new();
            nc.push(i);
            let ghost ncval = nc;
            clusters.push(nc);
            proof {
                assert(ncval@ =~= seq![i]);
                assert forall|q: int| 0 <= q < clusters@.len() implies cl_view(clusters@)[q]
                    == cls0.push(seq![i])[q] by {
                    if q < clvec0.len() {
                        assert(clusters@[q] == clvec0[q]);
                    } else {
                        assert(clusters@[q] == ncval);
                    }
                }
                assert(cl_view(clusters@) =~= cls0.push(seq![i]));
            }
        }
        proof {
            let cls1 = cl_view(clusters@);
            assert(cls1 == squeezer_step(wseq, thr, cls0, i as int));
            assert(squeezer_spec(wseq, thr, i as int + 1) == squeezer_step(
                wseq,
                thr,
                cls0,
                i as int,
            ));
            if rat_ge_thr(mxn, thr) {
                lemma_total_len_grow(cls0, id as int, i);
            } else {
                lemma_total_len_grow(cls0, 0, i);
            }
            assert(total_len(cls1) == i + 1);
            // Coverage: every start up to and including this one lies in
            // some cluster.
            assert forall|x: usize| x < i + 1 implies #[trigger] covered(
                cl_view(clusters@),
                x,
            ) by {
                if rat_ge_thr(mxn, thr) {
                    if x == i {
                        assert(clusters@[id as int]@ == cls0[id as int].push(i));
                        assert(clusters@[id as int]@.last() == i);
                        assert(cl_view(clusters@)[id as int].contains(x));
                    } else {
                        assert(covered(cls0, x));
                        let k = choose|k: int| 0 <= k < cls0.len() && (#[trigger] cls0[k]).contains(x);
                        if k == id {
                            let q = choose|q: int| 0 <= q < cls0[k].len() && cls0[k][q] == x;
                            assert(cl_view(clusters@)[k][q] == x);
                            assert(cl_view(clusters@)[k].contains(x));
                        } else {
                            assert(cl_view(clusters@)[k] == cls0[k]);
                            assert(cl_view(clusters@)[k].contains(x));
                        }
                    }
                } else {
                    if x == i {
                        assert(cl_view(clusters@)[cls0.len() as int].contains(x)) by {
                            assert(cl_view(clusters@)[cls0.len() as int][0] == i);
                        }
                    } else {
                        assert(covered(cls0, x));
                        let k = choose|k: int| 0 <= k < cls0.len() && (#[trigger] cls0[k]).contains(x);
                        assert(cl_view(clusters@)[k] == cls0[k]);
                        assert(cl_view(clusters@)[k].contains(x));
                    }
                }
            }
            // Uniqueness: no start stands in two places.
            assert forall|k1: int, q1: int, k2: int, q2: int|
                0 <= k1 < clusters@.len() && 0 <= q1 < clusters@[k1]@.len() && 0 <= k2
                    < clusters@.len() && 0 <= q2 < clusters@[k2]@.len() && (k1 != k2 || q1 != q2)
                    implies (#[trigger] clusters@[k1]@[q1]) != (#[trigger] clusters@[k2]@[q2]) by {
                if rat_ge_thr(mxn, thr) {
                    let fresh1 = k1 == id && q1 == clvec0[id as int]@.len();
                    let fresh2 = k2 == id && q2 == clvec0[id as int]@.len();
                    if fresh1 && !fresh2 {
                        assert(clusters@[k1]@[q1] == i);
                        if k2 == id {
                            assert(clusters@[k2]@[q2] == clvec0[k2]@[q2]);
                        } else {
                            assert(clusters@[k2] == clvec0[k2]);
                        }
                        assert(clusters@[k2]@[q2] < i);
                    } else if fresh2 && !fresh1 {
                        assert(clusters@[k2]@[q2] == i);
                        if k1 == id {
                            assert(clusters@[k1]@[q1] == clvec0[k1]@[q1]);
                        } else {
                            assert(clusters@[k1] == clvec0[k1]);
                        }
                        assert(clusters@[k1]@[q1] < i);
                    } else if !fresh1 && !fresh2 {
                        if k1 == id {
                            assert(clusters@[k1]@[q1] == clvec0[k1]@[q1]);
                        } else {
                            assert(clusters@[k1] == clvec0[k1]);
                        }
                        if k2 == id {
                            assert(clusters@[k2]@[q2] == clvec0[k2]@[q2]);
                        } else {
                            assert(clusters@[k2] == clvec0[k2]);
                        }
                    }
                } else {
                    let fresh1 = k1 == clvec0.len();
                    let fresh2 = k2 == clvec0.len();
                    if fresh1 && !fresh2 {
                        assert(clusters@[k1]@[q1] == i);
                        assert(clusters@[k2] == clvec0[k2]);
                        assert(clusters@[k2]@[q2] < i);
                    } else if fresh2 && !fresh1 {
                        assert(clusters@[k2]@[q2] == i);
                        assert(clusters@[k1] == clvec0[k1]);
                        assert(clusters@[k1]@[q1] < i);
                    } else if !fresh1 && !fresh2 {
                        assert(clusters@[k1] == clvec0[k1]);
                        assert(clusters@[k2] == clvec0[k2]);
                    }
                }
            }
        }
        i += 1;
    }
    clusters
}

} // verus!
