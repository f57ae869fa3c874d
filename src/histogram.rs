//! Occupancy histograms of element spans and the search for empty gaps.
use vstd::prelude::*;
use crate::traits::{Axis, Element};

verus! {

/// `[s, e)` is a maximal run of empty bins of `h`.
pub open spec fn is_zero_run(h: Seq<usize>, s: int, e: int) -> bool {
    &&& 0 <= s < e <= h.len()
    &&& forall|k: int| s <= k < e ==> h[k] == 0
    &&& (s == 0 || h[s - 1] != 0)
    &&& (e == h.len() || h[e] != 0)
}

/// `[s, e)` is a maximal empty run at least `min_gap` bins long.
pub open spec fn qualifies(h: Seq<usize>, min_gap: int, s: int, e: int) -> bool {
    is_zero_run(h, s, e) && e - s >= min_gap
}

/// `[s, e)` qualifies, no qualifying run is longer, and none of the same
/// length starts earlier.
pub open spec fn is_best_gap(h: Seq<usize>, min_gap: int, s: int, e: int) -> bool {
    &&& qualifies(h, min_gap, s, e)
    &&& forall|s2: int, e2: int|
        #[trigger] qualifies(h, min_gap, s2, e2) ==> e2 - s2 < e - s || (e2 - s2 == e - s && s
            <= s2)
}

/// The bin nearest the center of the longest qualifying empty run (the
/// earliest among equally long ones), if any run qualifies.
pub open spec fn largest_gap(h: Seq<usize>, min_gap: int) -> Option<int> {
    if exists|s: int, e: int| is_best_gap(h, min_gap, s, e) {
        let (s, e) = choose|s: int, e: int| is_best_gap(h, min_gap, s, e);
        Some(s + (e - s) / 2)
    } else {
        None
    }
}

proof fn lemma_best_gap_unique(h: Seq<usize>, min_gap: int, s: int, e: int, s2: int, e2: int)
    requires
        is_best_gap(h, min_gap, s, e),
        is_best_gap(h, min_gap, s2, e2),
    ensures
        s == s2 && e == e2,
{
    assert(qualifies(h, min_gap, s2, e2));
    assert(qualifies(h, min_gap, s, e));
}

proof fn lemma_largest_gap_is(h: Seq<usize>, min_gap: int, s: int, e: int)
    requires
        is_best_gap(h, min_gap, s, e),
    ensures
        largest_gap(h, min_gap) == Some(s + (e - s) / 2),
{
    let (s2, e2) = choose|s2: int, e2: int| is_best_gap(h, min_gap, s2, e2);
    lemma_best_gap_unique(h, min_gap, s, e, s2, e2);
}

/// Finds the longest run of empty bins that is at least `min_gap_size` bins
/// long, and returns the bin nearest its center. Of two equally long runs the
/// earlier wins.
pub fn find_largest_gap(histogram: &[usize], min_gap_size: usize) -> (r: Option<usize>)
    ensures
        r == (match largest_gap(histogram@, min_gap_size as int) {
            Some(c) => Some(c as usize),
            None => None::<usize>,
        }),
        r is None <==> !exists|s: int, e: int| qualifies(histogram@, min_gap_size as int, s, e),
        r is Some ==> r->0 < histogram@.len(),
{
    let ghost h = histogram@;
    let ghost m = min_gap_size as int;
    let n = histogram.len();
    let mut best_size: usize = 0;
    let mut best_start: usize = 0;
    let mut found = false;
    let mut cur_size: usize = 0;
    let mut i: usize = 0;
    while i < n
        invariant
            n == h.len(),
            h == histogram@,
            m == min_gap_size,
            0 <= i <= n,
            cur_size <= i,
            forall|k: int| i - cur_size <= k < i ==> h[k] == 0,
            i - cur_size == 0 || h[i - cur_size - 1] != 0,
            found ==> qualifies(h, m, best_start as int, best_start + best_size),
            found ==> best_start + best_size <= i - cur_size,
            forall|s2: int, e2: int|
                e2 < i && #[trigger] qualifies(h, m, s2, e2) ==> found && (e2 - s2 < best_size
                    || (e2 - s2 == best_size && best_start <= s2)),
        decreases n - i,
    {
        if histogram[i] == 0 {
            proof {
                assert forall|s2: int, e2: int|
                    e2 < i + 1 && #[trigger] qualifies(h, m, s2, e2) implies found && (e2 - s2
                        < best_size || (e2 - s2 == best_size && best_start <= s2)) by {
                    assert(e2 != i);
                }
            }
            cur_size = cur_size + 1;
        } else {
            let ghost cs = i - cur_size;
            proof {
                assert forall|s2: int, e2: int|
                    e2 == i && #[trigger] qualifies(h, m, s2, e2) implies s2 == cs && cur_size > 0
                        && cur_size >= m by {
                    if s2 < cs {
                        assert(h[cs - 1] == 0);
                    } else if s2 > cs {
                        assert(h[s2 - 1] == 0);
                    }
                }
                if cur_size > 0 && cur_size >= m {
                    assert(qualifies(h, m, cs, i as int));
                }
            }
            if cur_size >= min_gap_size && cur_size > 0 && (!found || cur_size > best_size) {
                best_size = cur_size;
                best_start = i - cur_size;
                found = true;
            }
            cur_size = 0;
        }
        i = i + 1;
    }
    let ghost cs = n - cur_size;
    proof {
        assert forall|s2: int, e2: int|
            e2 == n && #[trigger] qualifies(h, m, s2, e2) implies s2 == cs && cur_size > 0
                && cur_size >= m by {
            if s2 < cs {
                assert(h[cs - 1] == 0);
            } else if s2 > cs {
                assert(h[s2 - 1] == 0);
            }
        }
        if cur_size > 0 && cur_size >= m {
            assert(qualifies(h, m, cs, n as int));
        }
    }
    if cur_size >= min_gap_size && cur_size > 0 && (!found || cur_size > best_size) {
        best_size = cur_size;
        best_start = n - cur_size;
        found = true;
    }
    proof {
        assert forall|s2: int, e2: int| #[trigger] qualifies(h, m, s2, e2) implies found && (e2
            - s2 < best_size || (e2 - s2 == best_size && best_start <= s2)) by {
            assert(e2 <= n);
        }
        if found {
            assert(is_best_gap(h, m, best_start as int, best_start + best_size));
            lemma_largest_gap_is(h, m, best_start as int, best_start + best_size);
        } else {
            assert(!exists|s: int, e: int| is_best_gap(h, m, s, e));
        }
    }
    if found {
        Some(best_start + best_size / 2)
    } else {
        None
    }
}

/// First bin that the span starting at `a` touches: the floor of its offset
/// in bins, at least zero.
pub open spec fn first_bin(a: int, lo: int, range: int, bins: int) -> int {
    if a < lo {
        0
    } else {
        (a - lo) * bins / range
    }
}

/// One past the last bin that the span ending at `b` touches: the ceiling of
/// its offset in bins, clamped to `[0, bins]`.
pub open spec fn end_bin(b: int, lo: int, range: int, bins: int) -> int {
    if b <= lo {
        0
    } else {
        let c = ((b - lo) * bins + range - 1) / range;
        if c > bins {
            bins
        } else {
            c
        }
    }
}

/// Bin `k` of `bins` equal bins over `[lo, hi]` is touched by `e`'s span on
/// `axis`.
pub open spec fn touches(e: Element, axis: Axis, lo: int, hi: int, bins: int, k: int) -> bool {
    hi > lo && first_bin(e.low(axis), lo, hi - lo, bins) <= k < end_bin(
        e.high(axis),
        lo,
        hi - lo,
        bins,
    )
}

/// How many elements of `s` touch bin `k`.
pub open spec fn bin_count(s: Seq<Element>, axis: Axis, lo: int, hi: int, bins: int, k: int) -> nat
    decreases s.len(),
{
    if s.len() == 0 {
        0
    } else {
        bin_count(s.drop_last(), axis, lo, hi, bins, k) + if touches(
            s.last(),
            axis,
            lo,
            hi,
            bins,
            k,
        ) {
            1nat
        } else {
            0nat
        }
    }
}

proof fn lemma_bin_count_bound(s: Seq<Element>, axis: Axis, lo: int, hi: int, bins: int, k: int)
    ensures
        bin_count(s, axis, lo, hi, bins, k) <= s.len(),
    decreases s.len(),
{
    if s.len() > 0 {
        lemma_bin_count_bound(s.drop_last(), axis, lo, hi, bins, k);
    }
}

/// The occupancy histogram of `s` on `axis`: `bins` equal bins over
/// `[lo, hi]`, each counting the elements whose span touches it.
pub open spec fn histogram(s: Seq<Element>, axis: Axis, lo: int, hi: int, bins: nat) -> Seq<usize> {
    Seq::new(bins, |k: int| bin_count(s, axis, lo, hi, bins as int, k) as usize)
}

fn span_bins(a: i32, b: i32, lo: i32, hi: i32, bins: usize) -> (r: (usize, usize))
    requires
        hi > lo,
    ensures
        r.1 <= bins,
        r.1 == end_bin(b as int, lo as int, hi - lo, bins as int),
        r.0 == (if first_bin(a as int, lo as int, hi - lo, bins as int) > bins {
            bins as int
        } else {
            first_bin(a as int, lo as int, hi - lo, bins as int)
        }),
{
    let range = hi as i128 - lo as i128;
    let start: usize = if a < lo {
        0
    } else {
        assert(0 <= (a - lo) * bins <= 0x1_0000_0000 * 0x1_0000_0000_0000_0000)
            by (nonlinear_arith)
            requires
                a >= lo,
                a - lo <= 0x1_0000_0000,
                0 <= bins <= 0x1_0000_0000_0000_0000,
        ;
        let f = (a as i128 - lo as i128) * bins as i128 / range;
        if f > bins as i128 {
            bins
        } else {
            f as usize
        }
    };
    let end: usize = if b <= lo {
        0
    } else {
        assert(0 <= (b - lo) * bins <= 0x1_0000_0000 * 0x1_0000_0000_0000_0000)
            by (nonlinear_arith)
            requires
                b > lo,
                b - lo <= 0x1_0000_0000,
                0 <= bins <= 0x1_0000_0000_0000_0000,
        ;
        let c = ((b as i128 - lo as i128) * bins as i128 + range - 1) / range;
        if c > bins as i128 {
            bins
        } else {
            c as usize
        }
    };
    (start, end)
}

/// Occupancy histogram of the elements' spans on `axis`, with `resolution`
/// equal bins over `[lo, hi]`; all bins stay empty where `hi <= lo`.
fn build_histogram(elements: &[Element], axis: Axis, lo: i32, hi: i32, resolution: usize) -> (r:
    Vec<usize>)
    ensures
        r@ == histogram(elements@, axis, lo as int, hi as int, resolution as nat),
{
    let ghost s = elements@;
    let mut hist: Vec<usize> = Vec::new();
    let mut k: usize = 0;
    while k < resolution
        invariant
            k <= resolution,
            hist@.len() == k,
            forall|j: int| 0 <= j < k ==> hist@[j] == 0,
        decreases resolution - k,
    {
        hist.push(0);
        k = k + 1;
    }
    let mut i: usize = 0;
    while i < elements.len()
        invariant
            s == elements@,
            0 <= i <= s.len(),
            hist@.len() == resolution,
            forall|j: int|
                0 <= j < resolution ==> hist@[j] == bin_count(
                    s.take(i as int),
                    axis,
                    lo as int,
                    hi as int,
                    resolution as int,
                    j,
                ),
            forall|j: int| 0 <= j < resolution ==> hist@[j] <= i,
        decreases s.len() - i,
    {
        let e = &elements[i];
        proof {
            assert(s.take(i + 1).drop_last() =~= s.take(i as int));
            assert(s.take(i + 1).last() == s[i as int]);
        }
        if hi > lo {
            let (start, end) = span_bins(e.low_on(axis), e.high_on(axis), lo, hi, resolution);
            let ghost before = hist@;
            let mut j: usize = start;
            while j < end
                invariant
                    end <= resolution,
                    before.len() == resolution,
                    s == elements@,
                    i < elements.len(),
                    start <= j,
                    j <= end || j == start,
                    hist@.len() == resolution,
                    forall|t: int|
                        0 <= t < resolution ==> #[trigger] hist@[t] == before[t] + if start <= t
                            < j {
                            1int
                        } else {
                            0int
                        },
                    forall|t: int| 0 <= t < resolution ==> before[t] <= i,
                decreases end - j,
            {
                assert(hist@[j as int] == before[j as int]);
                hist.set(j, hist[j] + 1);
                j = j + 1;
            }
        }
        i = i + 1;
    }
    proof {
        assert(s.take(i as int) =~= s);
        assert forall|j: int| 0 <= j < resolution implies hist@[j] == bin_count(
            s,
            axis,
            lo as int,
            hi as int,
            resolution as int,
            j,
        ) as usize by {}
        assert(hist@ =~= histogram(s, axis, lo as int, hi as int, resolution as nat));
    }
    hist
}

/// Row-occupancy histogram: `resolution` equal bins over `[y_min, y_max]`,
/// each counting the elements whose vertical span touches it.
pub fn build_horizontal_histogram(elements: &[Element], y_min: i32, y_max: i32, resolution: usize) -> (r:
    Vec<usize>)
    ensures
        r@ == histogram(elements@, Axis::Y, y_min as int, y_max as int, resolution as nat),
{
    build_histogram(elements, Axis::Y, y_min, y_max, resolution)
}

/// Column-occupancy histogram: `resolution` equal bins over `[x_min, x_max]`,
/// each counting the elements whose horizontal span touches it.
pub fn build_vertical_histogram(elements: &[Element], x_min: i32, x_max: i32, resolution: usize) -> (r:
    Vec<usize>)
    ensures
        r@ == histogram(elements@, Axis::X, x_min as int, x_max as int, resolution as nat),
{
    build_histogram(elements, Axis::X, x_min, x_max, resolution)
}

} // verus!
