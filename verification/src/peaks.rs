//! Peak and valley picking over ordered values, and the ranking of pitch
//! candidates.
//!
//! The values compared here are order keys: `None` stands for a value that
//! compares neither below nor above anything (a NaN), `Some(k)` for a value
//! that orders as `k` does.

use vstd::prelude::*;

verus! {

/// `a` compares strictly below `b`.
pub open spec fn key_lt(a: Option<i32>, b: Option<i32>) -> bool {
    match (a, b) {
        (Some(x), Some(y)) => x < y,
        _ => false,
    }
}

/// Strict comparison of two order keys.
pub fn key_less(a: Option<i32>, b: Option<i32>) -> (r: bool)
    ensures
        r == key_lt(a, b),
{
    match (a, b) {
        (Some(x), Some(y)) => x < y,
        _ => false,
    }
}

/// `data[i]` is strictly above its neighbours (an edge has no neighbour on
/// that side).
pub open spec fn is_local_max(data: Seq<Option<i32>>, i: int) -> bool {
    &&& (i == 0 || key_lt(data[i - 1], data[i]))
    &&& (i == data.len() - 1 || key_lt(data[i + 1], data[i]))
}

/// `data[i]` is strictly below its neighbours (an edge has no neighbour on
/// that side).
pub open spec fn is_local_min(data: Seq<Option<i32>>, i: int) -> bool {
    &&& (i == 0 || key_lt(data[i], data[i - 1]))
    &&& (i == data.len() - 1 || key_lt(data[i], data[i + 1]))
}

/// The sequence is strictly increasing.
pub open spec fn strictly_increasing(s: Seq<usize>) -> bool {
    forall|a: int, b: int| 0 <= a < b < s.len() ==> s[a] < s[b]
}

/// `r` lists, in increasing order, exactly the indices in `lo..=hi` at which
/// `pred` holds.
pub open spec fn lists_exactly(r: Seq<usize>, lo: int, hi: int, pred: spec_fn(int) -> bool) -> bool {
    &&& strictly_increasing(r)
    &&& forall|t: int| 0 <= t < r.len() ==> lo <= #[trigger] r[t] <= hi && pred(r[t] as int)
    &&& forall|i: int| lo <= i <= hi && #[trigger] pred(i) ==> r.contains(i as usize)
}

/// Finds the local maxima in the given data range.
pub fn find_local_maxima(data: &[Option<i32>], min_idx: usize, max_idx: usize) -> (r: Vec<usize>)
    requires
        max_idx < data@.len(),
        min_idx <= max_idx,
    ensures
        lists_exactly(r@, min_idx as int, max_idx as int, |i: int| is_local_max(data@, i)),
{
    let last_idx = data.len() - 1;
    let mut maxima: Vec<usize> = Vec::new();
    let mut i = min_idx;
    while i <= max_idx
        invariant
            max_idx < data@.len(),
            last_idx == data@.len() - 1,
            min_idx <= i <= max_idx + 1,
            strictly_increasing(maxima@),
            forall|t: int|
                0 <= t < maxima@.len() ==> min_idx <= #[trigger] maxima@[t] < i && is_local_max(
                    data@,
                    maxima@[t] as int,
                ),
            forall|j: int| min_idx <= j < i && is_local_max(data@, j) ==> maxima@.contains(j as usize),
        decreases max_idx + 1 - i,
    {
        let curr = data[i];
        let greater_than_prev = i == 0 || key_less(data[i - 1], curr);
        let greater_than_next = i == last_idx || key_less(data[i + 1], curr);
        if greater_than_prev && greater_than_next {
            let ghost before = maxima@;
            maxima.push(i);
            proof {
                assert(maxima@[before.len() as int] == i);
                assert forall|j: int| min_idx <= j < i + 1 && is_local_max(data@, j) implies maxima@.contains(
                    j as usize,
                ) by {
                    if j < i {
                        let t = choose|t: int| 0 <= t < before.len() && before[t] == j as usize;
                        assert(maxima@[t] == j as usize);
                    }
                }
            }
        } else {
            proof {
                assert(!is_local_max(data@, i as int));
            }
        }
        i = i + 1;
    }
    maxima
}

/// Finds the local minima in the given data range.
pub fn find_local_minima(data: &[Option<i32>], min_idx: usize, max_idx: usize) -> (r: Vec<usize>)
    requires
        max_idx < data@.len(),
        min_idx <= max_idx,
    ensures
        lists_exactly(r@, min_idx as int, max_idx as int, |i: int| is_local_min(data@, i)),
{
    let last_idx = data.len() - 1;
    let mut minima: Vec<usize> = Vec::new();
    let mut i = min_idx;
    while i <= max_idx
        invariant
            max_idx < data@.len(),
            last_idx == data@.len() - 1,
            min_idx <= i <= max_idx + 1,
            strictly_increasing(minima@),
            forall|t: int|
                0 <= t < minima@.len() ==> min_idx <= #[trigger] minima@[t] < i && is_local_min(
                    data@,
                    minima@[t] as int,
                ),
            forall|j: int| min_idx <= j < i && is_local_min(data@, j) ==> minima@.contains(j as usize),
        decreases max_idx + 1 - i,
    {
        let curr = data[i];
        let lower_than_prev = i == 0 || key_less(curr, data[i - 1]);
        let lower_than_next = i == last_idx || key_less(curr, data[i + 1]);
        if lower_than_prev && lower_than_next {
            let ghost before = minima@;
            minima.push(i);
            proof {
                assert(minima@[before.len() as int] == i);
                assert forall|j: int| min_idx <= j < i + 1 && is_local_min(data@, j) implies minima@.contains(
                    j as usize,
                ) by {
                    if j < i {
                        let t = choose|t: int| 0 <= t < before.len() && before[t] == j as usize;
                        assert(minima@[t] == j as usize);
                    }
                }
            }
        } else {
            proof {
                assert(!is_local_min(data@, i as int));
            }
        }
        i = i + 1;
    }
    minima
}

/// With two or more values, no index is both a local maximum and a local
/// minimum.
pub proof fn lemma_extrema_disjoint(data: Seq<Option<i32>>, i: int)
    requires
        data.len() >= 2,
        0 <= i < data.len(),
    ensures
        !(is_local_max(data, i) && is_local_min(data, i)),
{
}

/// With two or more values, a local extremum is never a value that compares
/// with nothing.
pub proof fn lemma_extremum_is_comparable(data: Seq<Option<i32>>, i: int)
    requires
        data.len() >= 2,
        0 <= i < data.len(),
        is_local_max(data, i) || is_local_min(data, i),
    ensures
        data[i] is Some,
{
}


/// The sequence is in non-decreasing order.
pub open spec fn sorted(s: Seq<usize>) -> bool {
    forall|a: int, b: int| 0 <= a < b < s.len() ==> s[a] <= s[b]
}

/// Sorts the indices in place with std's `sort_unstable`. std documents it
/// as sorting the slice in ascending order; the result is a reordering of
/// the same values.
#[verifier::external_body]
fn sort_indices(v: &mut Vec<usize>)
    ensures
        sorted(final(v)@),
        final(v)@.to_multiset() == old(v)@.to_multiset(),
{
    v.sort_unstable();
}

/// Merging peaks closer than `min_separation` to the last kept peak, over
/// peaks in ascending order: a close peak replaces the last kept one only
/// when it compares strictly above it.
pub open spec fn spec_merge_close_peaks(
    peaks: Seq<usize>,
    data: Seq<Option<i32>>,
    min_separation: int,
) -> Seq<usize>
    decreases peaks.len(),
{
    if peaks.len() == 0 {
        Seq::empty()
    } else {
        let kept = spec_merge_close_peaks(peaks.drop_last(), data, min_separation);
        let peak = peaks.last();
        if kept.len() > 0 && peak - kept.last() < min_separation {
            if key_lt(data[kept.last() as int], data[peak as int]) {
                kept.drop_last().push(peak)
            } else {
                kept
            }
        } else {
            kept.push(peak)
        }
    }
}

/// Every value that the merge compares, over peaks in ascending order, lies
/// inside `data`: whenever a peak stands closer than `min_separation` to the
/// last kept one, both indices are in range.
pub open spec fn merge_reads_in_range(peaks: Seq<usize>, data: Seq<Option<i32>>, min_separation: int) -> bool
    decreases peaks.len(),
{
    if peaks.len() == 0 {
        true
    } else {
        let kept = spec_merge_close_peaks(peaks.drop_last(), data, min_separation);
        let peak = peaks.last();
        &&& merge_reads_in_range(peaks.drop_last(), data, min_separation)
        &&& (kept.len() > 0 && peak - kept.last() < min_separation ==> peak < data.len()
            && kept.last() < data.len())
    }
}

/// The merge's reads stay in range on every prefix where they do on the
/// whole.
proof fn lemma_merge_reads_prefix(peaks: Seq<usize>, data: Seq<Option<i32>>, min_separation: int, i: int)
    requires
        merge_reads_in_range(peaks, data, min_separation),
        0 <= i <= peaks.len(),
    ensures
        merge_reads_in_range(peaks.take(i), data, min_separation),
    decreases peaks.len() - i,
{
    if i == peaks.len() {
        assert(peaks.take(i) =~= peaks);
    } else {
        lemma_merge_reads_prefix(peaks.drop_last(), data, min_separation, i);
        assert(peaks.drop_last().take(i) =~= peaks.take(i));
    }
}

/// What the merge keeps is drawn from its input, in order, and consecutive
/// kept peaks stand at least `min_separation` apart.
pub proof fn lemma_merge_close_peaks_spaced(
    peaks: Seq<usize>,
    data: Seq<Option<i32>>,
    min_separation: int,
)
    requires
        sorted(peaks),
    ensures
        ({
            let r = spec_merge_close_peaks(peaks, data, min_separation);
            &&& sorted(r)
            &&& r.len() <= peaks.len()
            &&& forall|t: int| 0 <= t < r.len() ==> peaks.contains(#[trigger] r[t])
            &&& forall|t: int|
                0 <= t < r.len() - 1 ==> #[trigger] r[t + 1] - r[t] >= min_separation
            &&& peaks.len() > 0 ==> r.len() > 0 && r.last() <= peaks.last()
        }),
    decreases peaks.len(),
{
    if peaks.len() > 0 {
        let prefix = peaks.drop_last();
        lemma_merge_close_peaks_spaced(prefix, data, min_separation);
        let kept = spec_merge_close_peaks(prefix, data, min_separation);
        let peak = peaks.last();
        let r = spec_merge_close_peaks(peaks, data, min_separation);
        assert forall|t: int| 0 <= t < kept.len() implies peaks.contains(#[trigger] kept[t]) && kept[t]
            <= peak by {
            let k = choose|k: int| 0 <= k < prefix.len() && prefix[k] == kept[t];
            assert(peaks[k] == kept[t]);
        }
        assert(peaks[peaks.len() - 1] == peak);
        if kept.len() > 0 && peak - kept.last() < min_separation {
            if key_lt(data[kept.last() as int], data[peak as int]) {
                let d = kept.drop_last();
                assert forall|t: int| 0 <= t < r.len() - 1 implies #[trigger] r[t + 1] - r[t]
                    >= min_separation by {
                    if t + 1 == r.len() - 1 {
                        assert(kept[t + 1] - kept[t] >= min_separation);
                        assert(kept[t + 1] <= peak);
                    } else {
                        assert(r[t + 1] == kept[t + 1]);
                        assert(r[t] == kept[t]);
                    }
                }
                assert forall|t: int| 0 <= t < r.len() implies peaks.contains(#[trigger] r[t]) by {
                    if t < r.len() - 1 {
                        assert(r[t] == kept[t]);
                    }
                }
            }
        } else {
            assert forall|t: int| 0 <= t < r.len() - 1 implies #[trigger] r[t + 1] - r[t]
                >= min_separation by {
                if t + 1 == r.len() - 1 {
                } else {
                    assert(r[t + 1] == kept[t + 1]);
                    assert(r[t] == kept[t]);
                }
            }
            assert forall|t: int| 0 <= t < r.len() implies peaks.contains(#[trigger] r[t]) by {
                if t < r.len() - 1 {
                    assert(r[t] == kept[t]);
                }
            }
        }
    }
}


/// `r` holds, for each peak of `peaks`, a peak whose value the first does
/// not compare strictly above.
#[verifier::opaque]
pub open spec fn each_peak_matched(peaks: Seq<usize>, data: Seq<Option<i32>>, r: Seq<usize>) -> bool {
    forall|t: int| 0 <= t < peaks.len() ==> matched_by(r, data, #[trigger] peaks[t])
}

/// Some peak of `r` has a value that `data[x]` does not compare strictly
/// above.
pub open spec fn matched_by(r: Seq<usize>, data: Seq<Option<i32>>, x: usize) -> bool {
    exists|u: int| 0 <= u < r.len() && !key_lt(data[r[u] as int], data[x as int])
}

/// The merge drops no peak that stands strictly above everything it keeps:
/// each peak handed in is matched by a kept peak whose value it does not
/// exceed. A kept peak is only ever given up for a strictly higher one.
pub proof fn lemma_merge_drops_no_higher_peak(
    peaks: Seq<usize>,
    data: Seq<Option<i32>>,
    min_separation: int,
)
    ensures
        each_peak_matched(peaks, data, spec_merge_close_peaks(peaks, data, min_separation)),
    decreases peaks.len(),
{
    reveal(each_peak_matched);
    if peaks.len() > 0 {
        let prefix = peaks.drop_last();
        lemma_merge_drops_no_higher_peak(prefix, data, min_separation);
        let kept = spec_merge_close_peaks(prefix, data, min_separation);
        let peak = peaks.last();
        let r = spec_merge_close_peaks(peaks, data, min_separation);
        assert forall|t: int| 0 <= t < peaks.len() implies matched_by(r, data, #[trigger] peaks[t]) by {
            if t == peaks.len() - 1 {
                if kept.len() > 0 && peak - kept.last() < min_separation && !key_lt(
                    data[kept.last() as int],
                    data[peak as int],
                ) {
                    assert(r == kept);
                    assert(r[r.len() - 1] == kept.last());
                } else {
                    assert(r[r.len() - 1] == peak);
                    assert(!key_lt(data[peak as int], data[peak as int]));
                }
            } else {
                assert(prefix[t] == peaks[t]);
                assert(matched_by(kept, data, prefix[t]));
                let u = choose|u: int|
                    0 <= u < kept.len() && !key_lt(data[kept[u] as int], data[prefix[t] as int]);
                if kept.len() > 0 && peak - kept.last() < min_separation {
                    if key_lt(data[kept.last() as int], data[peak as int]) {
                        if u < kept.len() - 1 {
                            assert(r[u] == kept[u]);
                        } else {
                            assert(r[r.len() - 1] == peak);
                            assert(!key_lt(data[peak as int], data[peaks[t] as int]));
                        }
                    } else {
                        assert(r[u] == kept[u]);
                    }
                } else {
                    assert(r[u] == kept[u]);
                }
            }
        }
    }
}

/// Matching every peak does not depend on the order the peaks come in.
proof fn lemma_matched_reordered(peaks: Seq<usize>, given: Seq<usize>, data: Seq<Option<i32>>, r: Seq<usize>)
    requires
        peaks.to_multiset() == given.to_multiset(),
        each_peak_matched(peaks, data, r),
    ensures
        each_peak_matched(given, data, r),
{
    broadcast use vstd::seq_lib::group_to_multiset_ensures;

    reveal(each_peak_matched);
    assert forall|t: int| 0 <= t < given.len() implies matched_by(r, data, #[trigger] given[t]) by {
        assert(given.contains(given[t]));
        assert(given.to_multiset().count(given[t]) > 0);
        assert(peaks.to_multiset().count(given[t]) > 0);
        let v = choose|v: int| 0 <= v < peaks.len() && peaks[v] == given[t];
        let p = peaks[v];
        assert(matched_by(r, data, p));
        let u = choose|u: int| 0 <= u < r.len() && !key_lt(data[r[u] as int], data[p as int]);
        assert(0 <= u < r.len() && !key_lt(data[r[u] as int], data[given[t] as int]));
    }
}

/// When every peak is inside `data`, so is everything the merge compares.
proof fn lemma_merge_reads_all_in_range(peaks: Seq<usize>, data: Seq<Option<i32>>, min_separation: int)
    requires
        sorted(peaks),
        forall|t: int| 0 <= t < peaks.len() ==> #[trigger] peaks[t] < data.len(),
    ensures
        merge_reads_in_range(peaks, data, min_separation),
    decreases peaks.len(),
{
    if peaks.len() > 0 {
        let prefix = peaks.drop_last();
        assert forall|t: int| 0 <= t < prefix.len() implies #[trigger] prefix[t] < data.len() by {
            assert(prefix[t] == peaks[t]);
        }
        lemma_merge_reads_all_in_range(prefix, data, min_separation);
        lemma_merge_close_peaks_spaced(prefix, data, min_separation);
        let kept = spec_merge_close_peaks(prefix, data, min_separation);
        assert(peaks[peaks.len() - 1] < data.len());
        if kept.len() > 0 {
            assert(prefix.contains(kept[kept.len() - 1]));
            let u = choose|u: int| 0 <= u < prefix.len() && prefix[u] == kept[kept.len() - 1];
            assert(prefix[u] < data.len());
        }
    }
}

/// Sorts the peaks, then merges peaks closer than `min_separation` to the
/// last kept one, keeping whichever of the two compares higher (the earlier
/// one on a tie or when they do not compare).
pub fn merge_close_peaks(peaks: Vec<usize>, data: &[Option<i32>], min_separation: usize) -> (r: Vec<
    usize,
>)
    requires
        forall|s: Seq<usize>|
            sorted(s) && s.to_multiset() == peaks@.to_multiset() ==> #[trigger] merge_reads_in_range(
                s,
                data@,
                min_separation as int,
            ),
    ensures
        exists|s: Seq<usize>|
            {
                &&& sorted(s)
                &&& s.to_multiset() == peaks@.to_multiset()
                &&& r@ == spec_merge_close_peaks(s, data@, min_separation as int)
            },
        sorted(r@),
        forall|t: int| 0 <= t < r@.len() ==> peaks@.contains(#[trigger] r@[t]),
        forall|t: int| 0 <= t < r@.len() - 1 ==> #[trigger] r@[t + 1] - r@[t] >= min_separation,
        each_peak_matched(peaks@, data@, r@),
{
    let mut peaks = peaks;
    let ghost given = peaks@;
    sort_indices(&mut peaks);
    proof {
        assert(merge_reads_in_range(peaks@, data@, min_separation as int));
    }
    let mut result: Vec<usize> = Vec::new();
    let mut i: usize = 0;
    while i < peaks.len()
        invariant
            i <= peaks@.len(),
            sorted(peaks@),
            merge_reads_in_range(peaks@, data@, min_separation as int),
            result@ == spec_merge_close_peaks(peaks@.take(i as int), data@, min_separation as int),
        decreases peaks@.len() - i,
    {
        let peak = peaks[i];
        proof {
            lemma_merge_close_peaks_spaced(peaks@.take(i as int), data@, min_separation as int);
            lemma_merge_reads_prefix(peaks@, data@, min_separation as int, i + 1);
            assert(peaks@.take(i + 1).drop_last() =~= peaks@.take(i as int));
            assert(peaks@.take(i + 1).last() == peak);
            if i > 0 {
                assert(peaks@.take(i as int).last() == peaks@[i - 1]);
            }
        }
        let n = result.len();
        if n > 0 {
            let last = result[n - 1];
            if peak - last < min_separation {
                if key_less(data[last], data[peak]) {
                    result.pop();
                    result.push(peak);
                }
                i = i + 1;
                continue;
            }
        }
        result.push(peak);
        i = i + 1;
    }
    proof {
        assert(peaks@.take(peaks@.len() as int) =~= peaks@);
        lemma_merge_close_peaks_spaced(peaks@, data@, min_separation as int);
        assert forall|t: int| 0 <= t < result@.len() implies given.contains(#[trigger] result@[t]) by {
            broadcast use vstd::seq_lib::group_to_multiset_ensures;
            assert(peaks@.contains(result@[t]));
            assert(peaks@.to_multiset().count(result@[t]) > 0);
            assert(given.to_multiset().count(result@[t]) > 0);
        }
        lemma_merge_drops_no_higher_peak(peaks@, data@, min_separation as int);
        lemma_matched_reordered(peaks@, given, data@, result@);
    }
    result
}


/// In a ranking of candidates by their keys (highest first when `descending`,
/// lowest first otherwise), `a` comes before `b`: its key is strictly better,
/// or the keys are equal and `a` is the smaller index.
pub open spec fn ranks_before(keys: Seq<Option<i32>>, descending: bool, a: usize, b: usize) -> bool {
    ||| (if descending {
        key_lt(keys[b as int], keys[a as int])
    } else {
        key_lt(keys[a as int], keys[b as int])
    })
    ||| (keys[a as int] == keys[b as int] && a < b)
}

/// `r` lists candidates in strict ranking order.
pub open spec fn strictly_ranked(keys: Seq<Option<i32>>, descending: bool, r: Seq<usize>) -> bool {
    forall|s: int, t: int|
        0 <= s < t < r.len() ==> ranks_before(keys, descending, #[trigger] r[s], #[trigger] r[t])
}

/// `r` holds the `k` best-ranked candidates of `items` (all of them when
/// there are no more than `k`), best first.
pub open spec fn is_top_ranked(
    items: Seq<usize>,
    keys: Seq<Option<i32>>,
    descending: bool,
    k: int,
    r: Seq<usize>,
) -> bool {
    &&& r.len() == if k < items.len() {
        k
    } else {
        items.len() as int
    }
    &&& forall|t: int| 0 <= t < r.len() ==> items.contains(#[trigger] r[t])
    &&& strictly_ranked(keys, descending, r)
    &&& forall|x: usize, t: int|
        items.contains(x) && !r.contains(x) && 0 <= t < r.len() ==> #[trigger] ranks_before(
            keys,
            descending,
            r[t],
            x,
        )
}

/// The keys of all candidates can be compared, as the ranking needs whenever
/// there are two or more of them.
pub open spec fn rankable(items: Seq<usize>, keys: Seq<Option<i32>>) -> bool {
    &&& forall|t: int| 0 <= t < items.len() ==> #[trigger] items[t] < keys.len()
    &&& items.len() >= 2 ==> forall|t: int| 0 <= t < items.len() ==> keys[#[trigger] items[t] as int] is Some
}

proof fn lemma_ranks_before_transitive(
    keys: Seq<Option<i32>>,
    descending: bool,
    a: usize,
    b: usize,
    c: usize,
)
    requires
        ranks_before(keys, descending, a, b),
        ranks_before(keys, descending, b, c),
    ensures
        ranks_before(keys, descending, a, c),
{
}

proof fn lemma_ranks_before_total(keys: Seq<Option<i32>>, descending: bool, a: usize, b: usize)
    requires
        keys[a as int] is Some,
        keys[b as int] is Some,
        a != b,
    ensures
        ranks_before(keys, descending, a, b) || ranks_before(keys, descending, b, a),
{
}

fn keys_equal(a: Option<i32>, b: Option<i32>) -> (r: bool)
    ensures
        r == (a == b),
{
    match (a, b) {
        (Some(x), Some(y)) => x == y,
        (None, None) => true,
        _ => false,
    }
}

fn rank_before(keys: &[Option<i32>], descending: bool, a: usize, b: usize) -> (r: bool)
    requires
        a < keys@.len(),
        b < keys@.len(),
    ensures
        r == ranks_before(keys@, descending, a, b),
{
    let better = if descending {
        key_less(keys[b], keys[a])
    } else {
        key_less(keys[a], keys[b])
    };
    better || (keys_equal(keys[a], keys[b]) && a < b)
}

/// Orders the candidates by their keys (highest first when `descending`,
/// lowest first otherwise), keeping equal keys in their given order.
pub fn rank_candidates(items: &[usize], keys: &[Option<i32>], descending: bool) -> (r: Vec<usize>)
    requires
        strictly_increasing(items@),
        rankable(items@, keys@),
    ensures
        is_top_ranked(items@, keys@, descending, items@.len() as int, r@),
{
    let n = items.len();
    let mut r: Vec<usize> = Vec::new();
    let mut j: usize = 0;
    while j < n
        invariant
            n == items@.len(),
            j <= n,
            strictly_increasing(items@),
            rankable(items@, keys@),
            r@.len() == j,
            forall|t: int| 0 <= t < r@.len() ==> items@.take(j as int).contains(#[trigger] r@[t]),
            forall|t: int| 0 <= t < j ==> r@.contains(#[trigger] items@[t]),
            strictly_ranked(keys@, descending, r@),
        decreases n - j,
    {
        let x = items[j];
        proof {
            assert forall|t: int| 0 <= t < r@.len() implies #[trigger] r@[t] < x && r@[t] < keys@.len() by {
                let u = choose|u: int| 0 <= u < j && items@.take(j as int)[u] == r@[t];
                assert(items@[u] == r@[t]);
            }
        }
        let mut p: usize = 0;
        while p < r.len() && !rank_before(keys, descending, x, r[p])
            invariant
                p <= r@.len(),
                x < keys@.len(),
                forall|t: int| 0 <= t < r@.len() ==> #[trigger] r@[t] < x && r@[t] < keys@.len(),
                forall|t: int| 0 <= t < p ==> !ranks_before(keys@, descending, x, #[trigger] r@[t]),
            decreases r@.len() - p,
        {
            p = p + 1;
        }
        let ghost old_r = r@;
        r.insert(p, x);
        proof {
            assert(r@ == old_r.insert(p as int, x));
            if j >= 1 {
                assert(n >= 2);
                assert(keys@[items@[j as int] as int] is Some);
            }
            assert forall|s: int, t: int| 0 <= s < t < r@.len() implies ranks_before(
                keys@,
                descending,
                #[trigger] r@[s],
                #[trigger] r@[t],
            ) by {
                if t < p {
                    assert(r@[s] == old_r[s] && r@[t] == old_r[t]);
                } else if t == p {
                    assert(r@[s] == old_r[s]);
                    let y = old_r[s];
                    let u = choose|u: int| 0 <= u < j && items@.take(j as int)[u] == y;
                    assert(items@[u] == y);
                    assert(keys@[items@[u] as int] is Some);
                    assert(!ranks_before(keys@, descending, x, y));
                    lemma_ranks_before_total(keys@, descending, x, y);
                } else if s < p {
                    assert(r@[s] == old_r[s] && r@[t] == old_r[t - 1]);
                } else if s == p {
                    assert(r@[t] == old_r[t - 1]);
                    assert(ranks_before(keys@, descending, x, old_r[p as int]));
                    if t - 1 > p {
                        lemma_ranks_before_transitive(keys@, descending, x, old_r[p as int], old_r[t - 1]);
                    }
                } else {
                    assert(r@[s] == old_r[s - 1] && r@[t] == old_r[t - 1]);
                }
            }
            assert forall|t: int| 0 <= t < r@.len() implies items@.take(j + 1).contains(#[trigger] r@[t]) by {
                if t == p {
                    assert(items@.take(j + 1)[j as int] == x);
                } else {
                    let y = if t < p {
                        old_r[t]
                    } else {
                        old_r[t - 1]
                    };
                    assert(r@[t] == y);
                    let u = choose|u: int| 0 <= u < j && items@.take(j as int)[u] == y;
                    assert(items@.take(j + 1)[u] == y);
                }
            }
            assert forall|t: int| 0 <= t < j + 1 implies r@.contains(#[trigger] items@[t]) by {
                if t == j {
                    assert(r@[p as int] == x);
                } else {
                    let y = items@[t];
                    assert(old_r.contains(y));
                    let u = choose|u: int| 0 <= u < old_r.len() && old_r[u] == y;
                    if u < p {
                        assert(r@[u] == y);
                    } else {
                        assert(r@[u + 1] == y);
                    }
                }
            }
        }
        j = j + 1;
    }
    proof {
        assert(items@.take(n as int) =~= items@);
        assert forall|x: usize, t: int|
            items@.contains(x) && !r@.contains(x) && 0 <= t < r@.len() implies #[trigger] ranks_before(
            keys@,
            descending,
            r@[t],
            x,
        ) by {
            let u = choose|u: int| 0 <= u < items@.len() && items@[u] == x;
            assert(r@.contains(items@[u]));
        }
    }
    r
}


/// Cutting a full ranking after its first `k` entries leaves the `k` best.
proof fn lemma_truncated_ranking(
    items: Seq<usize>,
    keys: Seq<Option<i32>>,
    descending: bool,
    full: Seq<usize>,
    k: int,
)
    requires
        is_top_ranked(items, keys, descending, items.len() as int, full),
        0 <= k,
    ensures
        is_top_ranked(
            items,
            keys,
            descending,
            k,
            if k < full.len() {
                full.take(k)
            } else {
                full
            },
        ),
{
    let r = if k < full.len() {
        full.take(k)
    } else {
        full
    };
    assert forall|s: int, t: int| 0 <= s < t < r.len() implies ranks_before(
        keys,
        descending,
        #[trigger] r[s],
        #[trigger] r[t],
    ) by {
        assert(r[s] == full[s] && r[t] == full[t]);
    }
    assert forall|t: int| 0 <= t < r.len() implies items.contains(#[trigger] r[t]) by {
        assert(r[t] == full[t]);
    }
    assert forall|x: usize, t: int|
        items.contains(x) && !r.contains(x) && 0 <= t < r.len() implies #[trigger] ranks_before(
        keys,
        descending,
        r[t],
        x,
    ) by {
        if full.contains(x) {
            let u = choose|u: int| 0 <= u < full.len() && full[u] == x;
            if u < r.len() {
                assert(r[u] == x);
            } else {
                assert(r[t] == full[t]);
            }
        }
    }
}

/// The `max_count` best candidates, best first, with keys ranked highest
/// first when `descending` and lowest first otherwise; equal keys keep their
/// given order.
pub fn top_ranked(items: &[usize], keys: &[Option<i32>], descending: bool, max_count: usize) -> (r:
    Vec<usize>)
    requires
        strictly_increasing(items@),
        rankable(items@, keys@),
    ensures
        is_top_ranked(items@, keys@, descending, max_count as int, r@),
{
    let mut r = rank_candidates(items, keys, descending);
    let ghost full = r@;
    r.truncate(max_count);
    proof {
        lemma_truncated_ranking(items@, keys@, descending, full, max_count as int);
        if max_count < full.len() {
            assert(r@ =~= full.take(max_count as int));
        } else {
            assert(r@ =~= full);
        }
    }
    r
}

/// Candidate local maxima from `find_local_maxima` can be ranked by the
/// values they were found in.
proof fn lemma_extrema_rankable(data: Seq<Option<i32>>, m: Seq<usize>, lo: int, hi: int, maxima: bool)
    requires
        0 <= lo < hi < data.len(),
        maxima ==> lists_exactly(m, lo, hi, |i: int| is_local_max(data, i)),
        !maxima ==> lists_exactly(m, lo, hi, |i: int| is_local_min(data, i)),
    ensures
        rankable(m, data),
{
    assert forall|t: int| 0 <= t < m.len() implies #[trigger] m[t] < data.len() by {
        assert(lo <= m[t] <= hi);
    }
    assert forall|t: int| 0 <= t < m.len() implies data[#[trigger] m[t] as int] is Some by {
        assert(lo <= m[t] <= hi);
        if maxima {
            assert(is_local_max(data, m[t] as int));
        } else {
            assert(is_local_min(data, m[t] as int));
        }
        lemma_extremum_is_comparable(data, m[t] as int);
    }
}

/// Harmonic-product-spectrum candidates of one frame: the local maxima of
/// the product spectrum within `min_bin..=max_bin`, strongest first, at most
/// `max_candidates` of them.
pub fn hps_select(product: &[Option<i32>], min_bin: usize, max_bin: usize, max_candidates: usize) -> (r:
    Vec<usize>)
    requires
        min_bin < max_bin < product@.len(),
    ensures
        exists|m: Seq<usize>|
            {
                &&& lists_exactly(m, min_bin as int, max_bin as int, |i: int| is_local_max(product@, i))
                &&& is_top_ranked(m, product@, true, max_candidates as int, r@)
            },
{
    let peaks = find_local_maxima(product, min_bin, max_bin);
    proof {
        lemma_extrema_rankable(product@, peaks@, min_bin as int, max_bin as int, true);
    }
    top_ranked(peaks.as_slice(), product, true, max_candidates)
}

/// `t` is the position, in the minima `m` listed by increasing lag, of the
/// first minimum whose value is strictly below `threshold`: the shortest lag
/// below it.
pub open spec fn first_below(m: Seq<usize>, cmnd: Seq<Option<i32>>, threshold: Option<i32>, t: int) -> bool {
    &&& 0 <= t < m.len()
    &&& key_lt(cmnd[m[t] as int], threshold)
    &&& forall|u: int| 0 <= u < t ==> !key_lt(cmnd[#[trigger] m[u] as int], threshold)
}

/// `r` is the YIN choice of at most `k` candidates among the minima `m`
/// (listed by increasing lag): where some minimum lies below `threshold`,
/// the one with the shortest lag leads and the `k - 1` lowest of the others
/// follow, lowest first; otherwise the `k` lowest minima, lowest first.
pub open spec fn is_yin_choice(
    m: Seq<usize>,
    cmnd: Seq<Option<i32>>,
    threshold: Option<i32>,
    k: int,
    r: Seq<usize>,
) -> bool {
    if exists|t: int| 0 <= t < m.len() && key_lt(cmnd[#[trigger] m[t] as int], threshold) {
        exists|t: int|
            #[trigger] first_below(m, cmnd, threshold, t) && if k <= 0 {
                r.len() == 0
            } else {
                &&& r.len() > 0
                &&& r[0] == m[t]
                &&& is_top_ranked(m.remove(t), cmnd, false, k - 1, r.drop_first())
            }
    } else {
        is_top_ranked(m, cmnd, false, k, r)
    }
}

/// Removing one entry keeps a strictly increasing sequence strictly
/// increasing, and keeps what it holds among what it held.
proof fn lemma_remove_increasing(m: Seq<usize>, t: int)
    requires
        strictly_increasing(m),
        0 <= t < m.len(),
    ensures
        strictly_increasing(m.remove(t)),
        forall|u: int| 0 <= u < m.remove(t).len() ==> m.contains(#[trigger] m.remove(t)[u]),
{
    let r = m.remove(t);
    assert forall|a: int, b: int| 0 <= a < b < r.len() implies r[a] < r[b] by {
        let ia = if a < t { a } else { a + 1 };
        let ib = if b < t { b } else { b + 1 };
        assert(r[a] == m[ia] && r[b] == m[ib]);
    }
    assert forall|u: int| 0 <= u < r.len() implies m.contains(#[trigger] r[u]) by {
        let iu = if u < t { u } else { u + 1 };
        assert(r[u] == m[iu]);
    }
}

/// YIN candidates of one frame, among the local minima of the cumulative
/// mean normalised difference within `min_tau..=max_tau`, at most
/// `max_candidates` of them: the first minimum below `threshold` (the
/// shortest plausible period) leads, and the others follow lowest first;
/// where no minimum is below `threshold`, all are ranked lowest first.
pub fn yin_select(
    cmnd: &[Option<i32>],
    min_tau: usize,
    max_tau: usize,
    threshold: Option<i32>,
    max_candidates: usize,
) -> (r: Vec<usize>)
    requires
        min_tau < max_tau < cmnd@.len(),
    ensures
        exists|m: Seq<usize>|
            {
                &&& lists_exactly(m, min_tau as int, max_tau as int, |i: int| is_local_min(cmnd@, i))
                &&& is_yin_choice(m, cmnd@, threshold, max_candidates as int, r@)
            },
{
    let minima = find_local_minima(cmnd, min_tau, max_tau);
    proof {
        lemma_extrema_rankable(cmnd@, minima@, min_tau as int, max_tau as int, false);
    }
    let n = minima.len();
    let mut pos: usize = 0;
    while pos < n && !key_less(cmnd[minima[pos]], threshold)
        invariant
            n == minima@.len(),
            pos <= n,
            rankable(minima@, cmnd@),
            forall|u: int| 0 <= u < pos ==> !key_lt(cmnd@[#[trigger] minima@[u] as int], threshold),
        decreases n - pos,
    {
        pos = pos + 1;
    }
    if pos == n {
        let r = top_ranked(minima.as_slice(), cmnd, false, max_candidates);
        proof {
            assert(!exists|t: int|
                0 <= t < minima@.len() && key_lt(cmnd@[#[trigger] minima@[t] as int], threshold));
            assert(is_yin_choice(minima@, cmnd@, threshold, max_candidates as int, r@));
        }
        return r;
    }
    proof {
        assert(first_below(minima@, cmnd@, threshold, pos as int));
        assert(0 <= pos < minima@.len() && key_lt(cmnd@[minima@[pos as int] as int], threshold));
    }
    if max_candidates == 0 {
        let r: Vec<usize> = Vec::new();
        proof {
            assert(first_below(minima@, cmnd@, threshold, pos as int));
            assert(is_yin_choice(minima@, cmnd@, threshold, max_candidates as int, r@));
        }
        return r;
    }
    let ghost all = minima@;
    let mut rest = minima;
    let lead = rest.remove(pos);
    proof {
        lemma_remove_increasing(all, pos as int);
        assert(rest@ == all.remove(pos as int));
        assert forall|t: int| 0 <= t < rest@.len() implies #[trigger] rest@[t] < cmnd@.len() by {
            assert(all.contains(rest@[t]));
        }
        if rest@.len() >= 2 {
            assert forall|t: int| 0 <= t < rest@.len() implies cmnd@[#[trigger] rest@[t] as int] is Some by {
                assert(all.contains(rest@[t]));
                let u = choose|u: int| 0 <= u < all.len() && all[u] == rest@[t];
                assert(cmnd@[all[u] as int] is Some);
            }
        }
        assert(rankable(rest@, cmnd@));
    }
    let others = top_ranked(rest.as_slice(), cmnd, false, max_candidates - 1);
    let mut r: Vec<usize> = Vec::new();
    r.push(lead);
    let mut i: usize = 0;
    while i < others.len()
        invariant
            i <= others@.len(),
            r@ == seq![lead] + others@.take(i as int),
        decreases others@.len() - i,
    {
        r.push(others[i]);
        i = i + 1;
        assert(r@ =~= seq![lead] + others@.take(i as int));
    }
    proof {
        assert(others@.take(others@.len() as int) =~= others@);
        assert(r@.drop_first() =~= others@);
        assert(first_below(all, cmnd@, threshold, pos as int));
        assert(0 <= pos < all.len() && key_lt(cmnd@[all[pos as int] as int], threshold));
        assert(is_top_ranked(all.remove(pos as int), cmnd@, false, max_candidates - 1, r@.drop_first()));
        assert(is_yin_choice(all, cmnd@, threshold, max_candidates as int, r@));
    }
    r
}

/// Smallest distance between two cepstral peaks that are kept apart.
pub const MIN_PEAK_SEPARATION: usize = 3;

/// Cepstral peak candidates of one frame: the local maxima of the log
/// cepstrum within `min_quefrency..=max_quefrency`, with peaks closer than
/// `MIN_PEAK_SEPARATION` merged.
pub fn cepstral_peaks(log_cepstrum: &[Option<i32>], min_quefrency: usize, max_quefrency: usize) -> (r:
    Vec<usize>)
    requires
        min_quefrency < max_quefrency < log_cepstrum@.len(),
    ensures
        exists|m: Seq<usize>|
            {
                &&& lists_exactly(
                    m,
                    min_quefrency as int,
                    max_quefrency as int,
                    |i: int| is_local_max(log_cepstrum@, i),
                )
                &&& r@ == spec_merge_close_peaks(m, log_cepstrum@, MIN_PEAK_SEPARATION as int)
            },
        strictly_increasing(r@),
        forall|t: int| 0 <= t < r@.len() ==> min_quefrency <= #[trigger] r@[t] <= max_quefrency,
{
    let peaks = find_local_maxima(log_cepstrum, min_quefrency, max_quefrency);
    let ghost m = peaks@;
    proof {
        assert forall|s: Seq<usize>|
            sorted(s) && s.to_multiset() == m.to_multiset() implies #[trigger] merge_reads_in_range(
            s,
            log_cepstrum@,
            MIN_PEAK_SEPARATION as int,
        ) by {
            lemma_sorted_permutation_unique(m, s);
            assert forall|t: int| 0 <= t < m.len() implies #[trigger] m[t] < log_cepstrum@.len() by {
                assert(m[t] <= max_quefrency);
            }
            lemma_merge_reads_all_in_range(m, log_cepstrum@, MIN_PEAK_SEPARATION as int);
        }
    }
    let r = merge_close_peaks(peaks, log_cepstrum, MIN_PEAK_SEPARATION);
    proof {
        let s = choose|s: Seq<usize>|
            {
                &&& sorted(s)
                &&& s.to_multiset() == m.to_multiset()
                &&& r@ == spec_merge_close_peaks(s, log_cepstrum@, MIN_PEAK_SEPARATION as int)
            };
        lemma_sorted_permutation_unique(m, s);
        assert forall|a: int, b: int| 0 <= a < b < r@.len() implies r@[a] < r@[b] by {
            lemma_spaced_increasing(r@, MIN_PEAK_SEPARATION as int, a, b);
        }
        assert forall|t: int| 0 <= t < r@.len() implies min_quefrency <= #[trigger] r@[t]
            <= max_quefrency by {
            let u = choose|u: int| 0 <= u < m.len() && m[u] == r@[t];
        }
    }
    r
}

proof fn lemma_spaced_increasing(r: Seq<usize>, sep: int, a: int, b: int)
    requires
        sep >= 1,
        forall|t: int| 0 <= t < r.len() - 1 ==> #[trigger] r[t + 1] - r[t] >= sep,
        0 <= a < b < r.len(),
    ensures
        r[a] < r[b],
    decreases b - a,
{
    if b > a + 1 {
        lemma_spaced_increasing(r, sep, a, b - 1);
        let t = b - 1;
        assert(r[t + 1] - r[t] >= sep);
    } else {
        assert(r[a + 1] - r[a] >= sep);
    }
}

/// A strictly increasing sequence is the only sorted arrangement of its
/// values.
proof fn lemma_sorted_permutation_unique(m: Seq<usize>, s: Seq<usize>)
    requires
        strictly_increasing(m),
        sorted(s),
        s.to_multiset() == m.to_multiset(),
    ensures
        s == m,
    decreases m.len(),
{
    broadcast use vstd::seq_lib::group_to_multiset_ensures;

    s.to_multiset_ensures();
    m.to_multiset_ensures();
    assert(s.len() == m.len());
    if m.len() > 0 {
        let last = m.last();
        assert(m.to_multiset().count(last) > 0);
        assert(s.contains(last));
        assert(s.contains(s.last()));
        assert(m.to_multiset().count(s.last()) > 0);
        assert(m.contains(s.last()));
        // the largest value of each is the same
        let i = choose|i: int| 0 <= i < s.len() && s[i] == last;
        let k = choose|k: int| 0 <= k < m.len() && m[k] == s.last();
        assert(s[i] <= s.last());
        assert(m[k] <= last);
        assert(s.last() == last);
        assert(m =~= m.drop_last().push(last));
        assert(s =~= s.drop_last().push(last));
        assert(m.drop_last().to_multiset() =~= m.to_multiset().remove(last)) by {
            assert(m.drop_last().push(last).to_multiset() =~= m.drop_last().to_multiset().insert(last));
        }
        assert(s.drop_last().to_multiset() =~= s.to_multiset().remove(last)) by {
            assert(s.drop_last().push(last).to_multiset() =~= s.drop_last().to_multiset().insert(last));
        }
        lemma_sorted_permutation_unique(m.drop_last(), s.drop_last());
    }
}


/// Two different candidates never rank before each other both ways.
proof fn lemma_ranks_before_asymmetric(keys: Seq<Option<i32>>, descending: bool, a: usize, b: usize)
    ensures
        !(ranks_before(keys, descending, a, b) && ranks_before(keys, descending, b, a)),
{
}

/// Only one sequence lists the indices of a range at which a predicate holds.
pub proof fn lemma_lists_exactly_unique(
    r1: Seq<usize>,
    r2: Seq<usize>,
    lo: int,
    hi: int,
    pred: spec_fn(int) -> bool,
)
    requires
        0 <= lo,
        hi <= usize::MAX,
        lists_exactly(r1, lo, hi, pred),
        lists_exactly(r2, lo, hi, pred),
    ensures
        r1 == r2,
    decreases r1.len() + r2.len(),
{
    if r1.len() > 0 && r2.len() > 0 {
        let a = r1.last();
        let b = r2.last();
        assert(pred(a as int) && lo <= a <= hi);
        assert(pred(b as int) && lo <= b <= hi);
        assert(r2.contains(a));
        assert(r1.contains(b));
        let i = choose|i: int| 0 <= i < r2.len() && r2[i] == a;
        let j = choose|j: int| 0 <= j < r1.len() && r1[j] == b;
        assert(a <= b) by {
            if i < r2.len() - 1 {
                assert(r2[i] < r2[r2.len() - 1]);
            }
        }
        assert(b <= a) by {
            if j < r1.len() - 1 {
                assert(r1[j] < r1[r1.len() - 1]);
            }
        }
        let pred2 = |k: int| pred(k) && k < a;
        assert(lists_exactly(r1.drop_last(), lo, hi, pred2)) by {
            assert forall|t: int| 0 <= t < r1.drop_last().len() implies lo <= #[trigger] r1.drop_last()[t]
                <= hi && pred2(r1.drop_last()[t] as int) by {
                assert(r1[t] < r1[r1.len() - 1]);
            }
            assert forall|k: int| lo <= k <= hi && #[trigger] pred2(k) implies r1.drop_last().contains(
                k as usize,
            ) by {
                assert(r1.contains(k as usize));
                let u = choose|u: int| 0 <= u < r1.len() && r1[u] == k as usize;
                assert(u != r1.len() - 1);
                assert(r1.drop_last()[u] == k as usize);
            }
        }
        assert(lists_exactly(r2.drop_last(), lo, hi, pred2)) by {
            assert forall|t: int| 0 <= t < r2.drop_last().len() implies lo <= #[trigger] r2.drop_last()[t]
                <= hi && pred2(r2.drop_last()[t] as int) by {
                assert(r2[t] < r2[r2.len() - 1]);
            }
            assert forall|k: int| lo <= k <= hi && #[trigger] pred2(k) implies r2.drop_last().contains(
                k as usize,
            ) by {
                assert(r2.contains(k as usize));
                let u = choose|u: int| 0 <= u < r2.len() && r2[u] == k as usize;
                assert(u != r2.len() - 1);
                assert(r2.drop_last()[u] == k as usize);
            }
        }
        lemma_lists_exactly_unique(r1.drop_last(), r2.drop_last(), lo, hi, pred2);
        assert(r1 =~= r1.drop_last().push(a));
        assert(r2 =~= r2.drop_last().push(b));
    } else if r1.len() > 0 {
        assert(pred(r1[0] as int) && lo <= r1[0] <= hi);
        assert(r2.contains(r1[0]));
    } else if r2.len() > 0 {
        assert(pred(r2[0] as int) && lo <= r2[0] <= hi);
        assert(r1.contains(r2[0]));
    }
}

/// The `k` best candidates in ranking order are determined by the
/// candidates, their keys and `k`.
pub proof fn lemma_top_ranked_unique(
    items: Seq<usize>,
    keys: Seq<Option<i32>>,
    descending: bool,
    k: int,
    r1: Seq<usize>,
    r2: Seq<usize>,
)
    requires
        is_top_ranked(items, keys, descending, k, r1),
        is_top_ranked(items, keys, descending, k, r2),
    ensures
        r1 == r2,
{
    assert forall|t: int| 0 <= t < r1.len() implies r1[t] == r2[t] by {
        lemma_top_ranked_agree(items, keys, descending, k, r1, r2, t);
    }
    assert(r1 =~= r2);
}

proof fn lemma_top_ranked_agree(
    items: Seq<usize>,
    keys: Seq<Option<i32>>,
    descending: bool,
    k: int,
    r1: Seq<usize>,
    r2: Seq<usize>,
    t: int,
)
    requires
        is_top_ranked(items, keys, descending, k, r1),
        is_top_ranked(items, keys, descending, k, r2),
        0 <= t < r1.len(),
    ensures
        r1[t] == r2[t],
    decreases t,
{
    if t > 0 {
        lemma_top_ranked_agree(items, keys, descending, k, r1, r2, t - 1);
    }
    let a = r1[t];
    let b = r2[t];
    if a != b {
        // every entry before `t` is shared, so neither `a` nor `b` stands there
        assert forall|u: int| 0 <= u < t implies r1[u] == r2[u] by {
            lemma_top_ranked_agree(items, keys, descending, k, r1, r2, u);
        }
        assert(ranks_before(keys, descending, b, a)) by {
            if r2.contains(a) {
                let u = choose|u: int| 0 <= u < r2.len() && r2[u] == a;
                if u < t {
                    assert(r1[u] == a);
                    assert(ranks_before(keys, descending, r1[u], r1[t]));
                    lemma_ranks_before_asymmetric(keys, descending, a, a);
                } else if u > t {
                    assert(ranks_before(keys, descending, r2[t], r2[u]));
                }
            } else {
                assert(items.contains(a));
                assert(ranks_before(keys, descending, r2[t], a));
            }
        }
        assert(ranks_before(keys, descending, a, b)) by {
            if r1.contains(b) {
                let u = choose|u: int| 0 <= u < r1.len() && r1[u] == b;
                if u < t {
                    assert(r2[u] == b);
                    assert(ranks_before(keys, descending, r2[u], r2[t]));
                    lemma_ranks_before_asymmetric(keys, descending, b, b);
                } else if u > t {
                    assert(ranks_before(keys, descending, r1[t], r1[u]));
                }
            } else {
                assert(items.contains(b));
                assert(ranks_before(keys, descending, r1[t], b));
            }
        }
        lemma_ranks_before_asymmetric(keys, descending, a, b);
    }
}

/// Asking for fewer top-ranked candidates gives a prefix of the longer
/// answer.
pub proof fn lemma_top_ranked_prefix(
    items: Seq<usize>,
    keys: Seq<Option<i32>>,
    descending: bool,
    k1: int,
    k2: int,
    r1: Seq<usize>,
    r2: Seq<usize>,
)
    requires
        0 <= k1 <= k2,
        is_top_ranked(items, keys, descending, k1, r1),
        is_top_ranked(items, keys, descending, k2, r2),
    ensures
        r1 == r2.take(r1.len() as int),
{
    let p = r2.take(r1.len() as int);
    assert forall|s: int, t: int| 0 <= s < t < p.len() implies ranks_before(
        keys,
        descending,
        #[trigger] p[s],
        #[trigger] p[t],
    ) by {
        assert(p[s] == r2[s] && p[t] == r2[t]);
    }
    assert forall|t: int| 0 <= t < p.len() implies items.contains(#[trigger] p[t]) by {
        assert(p[t] == r2[t]);
    }
    assert forall|x: usize, t: int|
        items.contains(x) && !p.contains(x) && 0 <= t < p.len() implies #[trigger] ranks_before(
        keys,
        descending,
        p[t],
        x,
    ) by {
        assert(p[t] == r2[t]);
        if r2.contains(x) {
            let u = choose|u: int| 0 <= u < r2.len() && r2[u] == x;
            if u < p.len() {
                assert(p[u] == x);
            }
        }
    }
    lemma_top_ranked_unique(items, keys, descending, k1, r1, p);
}

/// The first index in `lo..=hi` holding the largest value above `floor`,
/// as a running maximum started at `floor` finds it; `None` when no value in
/// the range compares above `floor`.
pub fn first_maximum_above(data: &[Option<i32>], lo: usize, hi: usize, floor: Option<i32>) -> (r:
    Option<usize>)
    requires
        lo <= hi < data@.len(),
    ensures
        match r {
            None => forall|j: int| lo <= j <= hi ==> !key_lt(floor, #[trigger] data@[j]),
            Some(i) => {
                &&& lo <= i <= hi
                &&& key_lt(floor, data@[i as int])
                &&& forall|j: int| lo <= j <= hi ==> !key_lt(data@[i as int], #[trigger] data@[j])
                &&& forall|j: int|
                    lo <= j < i ==> key_lt(#[trigger] data@[j], data@[i as int]) || !key_lt(
                        floor,
                        data@[j],
                    )
            },
        },
{
    let mut best: Option<usize> = None;
    let mut best_value = floor;
    let mut j = lo;
    while j <= hi
        invariant
            lo <= j <= hi + 1,
            hi < data@.len(),
            match best {
                None => best_value == floor && forall|k: int|
                    lo <= k < j ==> !key_lt(floor, #[trigger] data@[k]),
                Some(i) => {
                    &&& lo <= i < j
                    &&& best_value == data@[i as int]
                    &&& key_lt(floor, data@[i as int])
                    &&& forall|k: int| lo <= k < j ==> !key_lt(data@[i as int], #[trigger] data@[k])
                    &&& forall|k: int|
                        lo <= k < i ==> key_lt(#[trigger] data@[k], data@[i as int]) || !key_lt(
                            floor,
                            data@[k],
                        )
                },
            },
        decreases hi + 1 - j,
    {
        let v = data[j];
        if key_less(best_value, v) {
            best = Some(j);
            best_value = v;
        }
        j = j + 1;
    }
    best
}

} // verus!
