//! Framing of a signal into overlapping analysis windows.

use vstd::prelude::*;

verus! {

/// Analysis settings: window length, hop between windows, and the order of
/// the linear predictor.
pub struct Config {
    window_size: usize,
    hop_size: usize,
    lpc_order: usize,
}

/// Number of whole windows of `window_size` samples, `hop_size` apart,
/// that fit in a signal of `samples_len` samples.
pub open spec fn spec_frame_count(samples_len: int, window_size: int, hop_size: int) -> int {
    (samples_len - window_size) / hop_size + 1
}

/// Number of analysis frames of `window_size` samples, starting every
/// `hop_size` samples, in a signal of `samples_len` samples.
pub fn frame_count(samples_len: usize, window_size: usize, hop_size: usize) -> (r: usize)
    requires
        hop_size > 0,
        window_size <= samples_len,
        spec_frame_count(samples_len as int, window_size as int, hop_size as int) <= usize::MAX,
    ensures
        r == spec_frame_count(samples_len as int, window_size as int, hop_size as int),
        r >= 1,
        // every frame lies within the signal
        (r - 1) * hop_size + window_size <= samples_len,
        // and no further frame would
        r * hop_size + window_size > samples_len,
{
    let r = (samples_len - window_size) / hop_size + 1;
    proof {
        let d = (samples_len - window_size) as int;
        let h = hop_size as int;
        let q = d / h;
        assert(d == h * q + d % h && 0 <= d % h < h) by (nonlinear_arith)
            requires
                h > 0,
                d >= 0,
                q == d / h,
        ;
        assert((r - 1) * h == q * h) by (nonlinear_arith)
            requires
                r == q + 1,
        ;
        assert(r * h == q * h + h) by (nonlinear_arith)
            requires
                r == q + 1,
        ;
    }
    r
}

/// A frame starting at `k * hop_size` lies within the signal exactly when
/// `k` is below the frame count.
pub proof fn lemma_frame_fits(samples_len: int, window_size: int, hop_size: int, k: int)
    requires
        hop_size > 0,
        0 <= window_size <= samples_len,
        k >= 0,
    ensures
        k * hop_size + window_size <= samples_len <==> k < spec_frame_count(
            samples_len,
            window_size,
            hop_size,
        ),
{
    let d = samples_len - window_size;
    let q = d / hop_size;
    assert(d == q * hop_size + d % hop_size && 0 <= d % hop_size < hop_size) by (nonlinear_arith)
        requires
            hop_size > 0,
            d >= 0,
            q == d / hop_size,
    ;
    if k <= q {
        assert(k * hop_size <= q * hop_size) by (nonlinear_arith)
            requires
                k <= q,
                hop_size > 0,
        ;
    } else {
        assert(k * hop_size >= q * hop_size + hop_size) by (nonlinear_arith)
            requires
                k >= q + 1,
                hop_size > 0,
        ;
    }
}

} // verus!
