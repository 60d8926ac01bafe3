use vstd::prelude::*;

verus! {

/// The distance key standing for infinity, and the upper bound of every
/// key. Keys order distances: a smaller key means a closer neighbour,
/// `0` means distance zero, and this value means that no neighbour was
/// ever measured.
pub const DIST_INF: u64 = 0x7FF0_0000_0000_0000;

/// The smaller of two distance keys.
pub open spec fn min_key(a: u64, b: u64) -> u64 {
    if a <= b {
        a
    } else {
        b
    }
}

/// A well-formed table of pairwise window distances: square, with one
/// row and one column per window start.
pub open spec fn table_wf(t: Seq<Seq<u64>>) -> bool {
    forall|i: int| 0 <= i < t.len() ==> #[trigger] t[i].len() == t.len()
}

/// Whether window `j` counts as a neighbour of window `i`: it lies in
/// range and the two starts are at least a window apart, the self-match
/// exclusion rule.
pub open spec fn pair_valid(m: int, w: nat, i: int, j: int) -> bool {
    0 <= j < m && (i - j >= w || j - i >= w)
}

/// The nearest-neighbour key of window `i` among the neighbours with
/// start below `upto`: the least key, or the infinite key where no such
/// neighbour exists.
pub open spec fn nn_upto(t: Seq<Seq<u64>>, w: nat, i: int, upto: int) -> u64
    decreases upto,
{
    if upto <= 0 {
        DIST_INF
    } else if pair_valid(t.len() as int, w, i, upto - 1) {
        min_key(nn_upto(t, w, i, upto - 1), t[i][upto - 1])
    } else {
        nn_upto(t, w, i, upto - 1)
    }
}

/// The nearest-neighbour key of window `i` over the whole table.
pub open spec fn nn(t: Seq<Seq<u64>>, w: nat, i: int) -> u64 {
    nn_upto(t, w, i, t.len() as int)
}

/// The nearest-neighbour key never exceeds the infinite key.
pub proof fn lemma_nn_upto_le_inf(t: Seq<Seq<u64>>, w: nat, i: int, upto: int)
    ensures
        nn_upto(t, w, i, upto) <= DIST_INF,
    decreases upto,
{
    if upto > 0 {
        lemma_nn_upto_le_inf(t, w, i, upto - 1);
    }
}

/// The nearest-neighbour key is at most the key of each neighbour.
pub proof fn lemma_nn_upto_le_elem(t: Seq<Seq<u64>>, w: nat, i: int, upto: int, j: int)
    requires
        pair_valid(t.len() as int, w, i, j),
        j < upto,
    ensures
        nn_upto(t, w, i, upto) <= t[i][j],
    decreases upto,
{
    if j < upto - 1 {
        lemma_nn_upto_le_elem(t, w, i, upto - 1, j);
    }
}

/// A key at most the infinite key and at most every neighbour's key is
/// at most the nearest-neighbour key.
pub proof fn lemma_le_nn_upto(t: Seq<Seq<u64>>, w: nat, i: int, upto: int, x: u64)
    requires
        x <= DIST_INF,
        forall|j: int| pair_valid(t.len() as int, w, i, j) && j < upto ==> x <= #[trigger] t[i][j],
    ensures
        x <= nn_upto(t, w, i, upto),
    decreases upto,
{
    if upto > 0 {
        lemma_le_nn_upto(t, w, i, upto - 1, x);
    }
}

/// How the element-wise view of a table of rows relates to its deep
/// view: same length, and each row's deep view is the row's view.
pub proof fn lemma_table_views(v: Vec<Vec<u64>>)
    ensures
        v.deep_view().len() == v@.len(),
        forall|i: int| 0 <= i < v@.len() ==> v.deep_view()[i] == #[trigger] v@[i]@,
{
    assert forall|i: int| 0 <= i < v@.len() implies v.deep_view()[i] == #[trigger] v@[i]@ by {
        assert(v.deep_view()[i] =~= v@[i]@);
    }
}

/// Whether the skip set holds the index, by linear scan.
pub fn contains_index(v: &Vec<usize>, x: usize) -> (r: bool)
    ensures
        r == v@.contains(x),
{
    let mut k: usize = 0;
    while k < v.len()
        invariant
            k <= v@.len(),
            forall|q: int| 0 <= q < k ==> v@[q] != x,
        decreases v@.len() - k,
    {
        if v[k] == x {
            return true;
        }
        k += 1;
    }
    false
}

} // verus!
