use vstd::prelude::*;

use crate::errors::HotSaxError;

verus! {

/// The bucket of a piecewise-aggregate approximation: the `i`-th of
/// `dim` approximately equal slices of a series of length `len` spans
/// `[i*len/dim, (i+1)*len/dim)`.
pub open spec fn paa_bucket(len: int, dim: int, i: int) -> (int, int) {
    (i * len / dim, (i + 1) * len / dim)
}

/// The bucket layout of a piecewise-aggregate approximation down to
/// `dim` points: exactly `dim` contiguous, non-empty buckets that cover
/// the whole series in order, each pinned by `paa_bucket`. A target
/// length reaching the series length is rejected.
pub fn paa_partition(len: usize, dim: usize) -> (r: Result<Vec<(usize, usize)>, HotSaxError>)
    ensures
        r is Ok <==> dim < len,
        r matches Err(e) ==> e == HotSaxError::InvalidParameter,
        r matches Ok(v) ==> v@.len() == dim && (forall|i: int|
            0 <= i < dim ==> ((#[trigger] v@[i]).0 as int, v@[i].1 as int) == paa_bucket(
                len as int,
                dim as int,
                i,
            )) && (forall|i: int| 0 <= i < dim ==> (#[trigger] v@[i]).0 < v@[i].1 && v@[i].1
            <= len) && (forall|i: int|
            0 <= i < dim - 1 ==> (#[trigger] v@[i]).1 == v@[i + 1].0) && (dim > 0 ==> v@[0].0 == 0
            && v@[dim - 1].1 == len),
{
    if dim >= len {
        return Err(HotSaxError::InvalidParameter);
    }
    let mut v: Vec<(usize, usize)> = Vec::new();
    let mut i: usize = 0;
    while i < dim
        invariant
            i <= dim,
            dim < len,
            v@.len() == i,
            forall|q: int|
                0 <= q < i ==> ((#[trigger] v@[q]).0 as int, v@[q].1 as int) == paa_bucket(
                    len as int,
                    dim as int,
                    q,
                ),
        decreases dim - i,
    {
        proof {
            assert((i as int) * (len as int) <= u128::MAX) by (nonlinear_arith)
                requires
                    0 <= (i as int) && (i as int) <= 0xFFFF_FFFF_FFFF_FFFFu64 && 0 <= (len as int)
                        && (len as int) <= 0xFFFF_FFFF_FFFF_FFFFu64,
            ;
            assert(((i as int) + 1) * (len as int) <= u128::MAX) by (nonlinear_arith)
                requires
                    0 <= (i as int) && (i as int) <= 0xFFFF_FFFF_FFFF_FFFFu64 && 0 <= (len as int)
                        && (len as int) <= 0xFFFF_FFFF_FFFF_FFFFu64,
            ;
        }
        let lo_wide: u128 = (i as u128) * (len as u128) / (dim as u128);
        let hi_wide: u128 = ((i as u128) + 1) * (len as u128) / (dim as u128);
        proof {
            assert(dim >= 1);
            assert((i as int) * (len as int) / (dim as int) <= len as int) by (nonlinear_arith)
                requires
                    0 <= (i as int) && (i as int) <= (dim as int) && 0 < (dim as int) && 0 <= (len as int),
            ;
            assert((i as int + 1) * (len as int) / (dim as int) <= len as int)
                by (nonlinear_arith)
                requires
                    0 <= (i as int) && (i as int) < (dim as int) && 0 < (dim as int) && 0 <= (len as int),
            ;
            assert(lo_wide == (i as int) * (len as int) / (dim as int));
            assert(hi_wide == (i as int + 1) * (len as int) / (dim as int));
        }
        let lo: usize = lo_wide as usize;
        let hi: usize = hi_wide as usize;
        v.push((lo, hi));
        i += 1;
    }
    proof {
        assert forall|q: int| 0 <= q < dim implies (#[trigger] v@[q]).0 < v@[q].1 && v@[q].1
            <= len by {
            assert((q + 1) * (len as int) == q * (len as int) + len as int) by (nonlinear_arith);
            assert(q * (len as int) / (dim as int) < (q * (len as int) + len as int) / (
            dim as int)) by (nonlinear_arith)
                requires
                    0 < (dim as int) && (dim as int) < (len as int) && 0 <= q,
            ;
            assert((q + 1) * (len as int) / (dim as int) <= len as int) by (nonlinear_arith)
                requires
                    0 <= q && q < (dim as int) && 0 < (dim as int) && 0 <= (len as int),
            ;
        }
        assert forall|q: int| 0 <= q < dim - 1 implies (#[trigger] v@[q]).1 == v@[q + 1].0 by {}
        if dim > 0 {
            assert(v@[0].0 as int == 0 * (len as int) / (dim as int));
            assert(0 * (len as int) == 0) by (nonlinear_arith);
            assert(v@[dim - 1].1 as int == (dim as int) * (len as int) / (dim as int));
            assert((dim as int) * (len as int) / (dim as int) == len as int) by (nonlinear_arith)
                requires
                    0 < (dim as int),
            ;
        }
    }
    Ok(v)
}

/// Maps a location found on a series reduced to `dim` points back into
/// the original index space: the location scales by the reduction
/// ratio `len / dim`, and never leaves the original series.
pub fn rescale_location(loc: usize, len: usize, dim: usize) -> (r: Result<usize, HotSaxError>)
    ensures
        r is Ok <==> (1 <= dim <= len && loc <= dim),
        r matches Err(e) ==> e == HotSaxError::InvalidParameter,
        r matches Ok(v) ==> v as int == loc * ((len as int) / (dim as int)) && v <= len,
{
    if dim == 0 || dim > len || loc > dim {
        return Err(HotSaxError::InvalidParameter);
    }
    let ratio = len / dim;
    proof {
        assert((dim as int) * ((len as int) / (dim as int)) <= len as int) by (nonlinear_arith)
            requires
                0 < (dim as int) && 0 <= (len as int),
        ;
        assert((loc as int) * ((len as int) / (dim as int)) <= (dim as int) * ((len as int) / (
        dim as int))) by (nonlinear_arith)
            requires
                0 <= (loc as int) && (loc as int) <= (dim as int) && 0 <= ((len as int) / (
                dim as int)),
        ;
    }
    Ok(loc * ratio)
}

} // verus!
