use vstd::prelude::*;

use rayon::iter::{IntoParallelRefIterator, ParallelExtend, ParallelIterator};

use crate::graphics::rasterizer::min_int;

verus! {

/// Below this many primitives a draw rasterizes every primitive in every row
/// band instead of sorting primitives into bins.
pub const MIN_BINNED_PRIMITIVES: usize = 512;

/// The height, in pixels, of a bin's row band.
pub const BIN_ROW_HEIGHT: usize = 32;

/// Binning is chosen only when its estimated work is at most
/// `BINNING_SAVINGS_NUMERATOR / BINNING_SAVINGS_DENOMINATOR` of the work of
/// the direct path.
pub const BINNING_SAVINGS_NUMERATOR: usize = 3;

pub const BINNING_SAVINGS_DENOMINATOR: usize = 4;

/// `n / d` rounded up.
pub open spec fn div_ceil(n: int, d: int) -> int {
    n / d + (if n % d == 0 { 0int } else { 1int })
}

pub open spec fn sat_add(p: int, q: int) -> int {
    min_int(p + q, usize::MAX as int)
}

pub open spec fn sat_mul(p: int, q: int) -> int {
    min_int(p * q, usize::MAX as int)
}

fn div_ceil_usize(n: usize, d: usize) -> (r: usize)
    requires
        d > 0,
    ensures
        r == div_ceil(n as int, d as int),
{
    proof {
        vstd::arithmetic::div_mod::lemma_fundamental_div_mod(n as int, d as int);
        vstd::arithmetic::div_mod::lemma_mod_pos_bound(n as int, d as int);
    }
    if n % d == 0 {
        n / d
    } else {
        assert(n / d < n) by (nonlinear_arith)
            requires
                n as int == d * (n / d) + n % d,
                0 < n % d < d,
                d > 0,
        ;
        n / d + 1
    }
}

fn saturating_add(p: usize, q: usize) -> (r: usize)
    ensures
        r == sat_add(p as int, q as int),
{
    match p.checked_add(q) {
        Some(v) => v,
        None => usize::MAX,
    }
}

fn saturating_mul(p: usize, q: usize) -> (r: usize)
    ensures
        r == sat_mul(p as int, q as int),
{
    match p.checked_mul(q) {
        Some(v) => v,
        None => usize::MAX,
    }
}

/// The number of worker threads of the current rayon thread pool.
///
/// Calls `rayon::current_num_threads`. Nothing is claimed of the result: it
/// depends on the machine and on how the pool was configured.
#[verifier::external_body]
fn current_num_threads() -> usize {
    rayon::current_num_threads()
}

/// The height of the row band each worker rasterizes when `threads` workers
/// share a screen of `height` rows: the rows split evenly, rounded up, with
/// at least one worker.
pub fn row_height_for_threads(height: usize, threads: usize) -> (r: usize)
    ensures
        r == div_ceil(height as int, if threads >= 1 { threads as int } else { 1 }),
{
    let threads = if threads >= 1 { threads } else { 1 };
    div_ceil_usize(height, threads)
}

/// The row band height for the current rayon thread pool.
pub fn parallel_row_height(height: usize) -> (r: usize)
    ensures
        exists|threads: int| threads >= 1 && r == div_ceil(height as int, threads),
        height == 0 ==> r == 0,
        height > 0 ==> 1 <= r <= height,
{
    let threads = current_num_threads();
    let r = row_height_for_threads(height, threads);
    proof {
        let t: int = if threads >= 1 { threads as int } else { 1 };
        vstd::arithmetic::div_mod::lemma_fundamental_div_mod(height as int, t);
        vstd::arithmetic::div_mod::lemma_mod_pos_bound(height as int, t);
        if height > 0 {
            assert(r <= height) by (nonlinear_arith)
                requires
                    height as int == t * (height as int / t) + height as int % t,
                    0 <= height as int % t < t,
                    t >= 1,
                    height > 0,
                    r == height as int / t + (if height as int % t == 0 { 0int } else { 1int }),
            ;
            assert(r >= 1) by (nonlinear_arith)
                requires
                    height as int == t * (height as int / t) + height as int % t,
                    0 <= height as int % t < t,
                    t >= 1,
                    height > 0,
                    r == height as int / t + (if height as int % t == 0 { 0int } else { 1int }),
            ;
        } else {
            assert(r == 0) by (nonlinear_arith)
                requires
                    0 == t * (height as int / t) + height as int % t,
                    0 <= height as int % t < t,
                    t >= 1,
                    height == 0,
                    r == height as int / t + (if height as int % t == 0 { 0int } else { 1int }),
            ;
        }
        assert(r == div_ceil(height as int, t));
    }
    r
}

// ---------------------------------------------------------------------------
// Row binning
// ---------------------------------------------------------------------------

/// The half-open range of row bands `[lo, hi)` that a primitive with pixel
/// bounds `[min_x, min_y, max_x, max_y]` touches, clipped to the `row_count`
/// bands; `None` for a primitive without bounds or one that touches no band.
pub open spec fn row_range(bounds: Option<[usize; 4]>, row_height: int, row_count: int) -> Option<
    (int, int),
> {
    match bounds {
        None => None,
        Some(b) => {
            let lo = min_int(b[1] as int / row_height, row_count);
            let hi = min_int(div_ceil(b[3] as int, row_height), row_count);
            if lo < hi {
                Some((lo, hi))
            } else {
                None
            }
        },
    }
}

/// A stored row range as integers.
pub open spec fn range_view(range: Option<[usize; 2]>) -> Option<(int, int)> {
    match range {
        None => None,
        Some(r) => Some((r[0] as int, r[1] as int)),
    }
}

pub open spec fn covers(range: Option<(int, int)>, row: int) -> bool {
    match range {
        None => false,
        Some(r) => r.0 <= row < r.1,
    }
}

/// The positions, in increasing order, of the ranges that cover `row`.
pub open spec fn covering(ranges: Seq<Option<(int, int)>>, row: int) -> Seq<usize>
    decreases ranges.len(),
{
    if ranges.len() == 0 {
        Seq::empty()
    } else {
        let earlier = covering(ranges.drop_last(), row);
        if covers(ranges.last(), row) {
            earlier.push((ranges.len() - 1) as usize)
        } else {
            earlier
        }
    }
}

/// The number of (primitive, row) visits over the first `rows` rows.
pub open spec fn row_visits(ranges: Seq<Option<(int, int)>>, rows: int) -> int
    decreases rows,
{
    if rows <= 0 {
        0
    } else {
        row_visits(ranges, rows - 1) + covering(ranges, rows - 1).len()
    }
}

/// The decision of whether binning pays off, for `primitives` primitives,
/// `row_count` bins, `binned_visits` (primitive, bin) pairs and
/// `direct_row_count` bands on the direct path: binning costs filling and
/// then reading the index table, the direct path visits every primitive in
/// every band.
pub open spec fn binning_worthwhile(
    primitives: int,
    row_count: int,
    binned_visits: int,
    direct_row_count: int,
) -> bool {
    let unbinned_visits = sat_mul(primitives, direct_row_count);
    let estimated_binned_work = sat_add(primitives, sat_mul(binned_visits, 2));
    row_count > 1 && sat_mul(estimated_binned_work, BINNING_SAVINGS_DENOMINATOR as int) <= sat_mul(
        unbinned_visits,
        BINNING_SAVINGS_NUMERATOR as int,
    )
}

/// The row ranges of all primitives.
pub open spec fn row_ranges(bounds: Seq<Option<[usize; 4]>>, row_height: int, row_count: int) -> Seq<
    Option<(int, int)>,
> {
    Seq::new(bounds.len(), |p: int| row_range(bounds[p], row_height, row_count))
}

proof fn lemma_covering_take_step(ranges: Seq<Option<(int, int)>>, p: int, row: int)
    requires
        0 <= p < ranges.len(),
    ensures
        covering(ranges.take(p + 1), row) == (if covers(ranges[p], row) {
            covering(ranges.take(p), row).push(p as usize)
        } else {
            covering(ranges.take(p), row)
        }),
{
    assert(ranges.take(p + 1).drop_last() =~= ranges.take(p));
}

proof fn lemma_covering_take_len(ranges: Seq<Option<(int, int)>>, p: int, q: int, row: int)
    requires
        0 <= p <= q <= ranges.len(),
    ensures
        covering(ranges.take(p), row).len() <= covering(ranges.take(q), row).len(),
    decreases q - p,
{
    if p < q {
        lemma_covering_take_len(ranges, p, q - 1, row);
        lemma_covering_take_step(ranges, q - 1, row);
    }
}

proof fn lemma_covering_full(ranges: Seq<Option<(int, int)>>, row: int)
    ensures
        ranges.take(ranges.len() as int) == ranges,
        covering(ranges.take(ranges.len() as int), row) == covering(ranges, row),
{
    assert(ranges.take(ranges.len() as int) =~= ranges);
}

proof fn lemma_covering_entries(ranges: Seq<Option<(int, int)>>, row: int)
    requires
        ranges.len() <= usize::MAX,
    ensures
        forall|t: int|
            0 <= t < covering(ranges, row).len() ==> 0 <= #[trigger] covering(ranges, row)[t]
                < ranges.len(),
    decreases ranges.len(),
{
    if ranges.len() > 0 {
        lemma_covering_entries(ranges.drop_last(), row);
        let earlier = covering(ranges.drop_last(), row);
        assert forall|t: int|
            0 <= t < covering(ranges, row).len() implies 0 <= #[trigger] covering(ranges, row)[t]
                < ranges.len() by {
            if t < earlier.len() {
                assert(covering(ranges, row)[t] == earlier[t]);
            }
        }
    }
}

proof fn lemma_row_visits_monotone(ranges: Seq<Option<(int, int)>>, r1: int, r2: int)
    requires
        0 <= r1 <= r2,
    ensures
        row_visits(ranges, r1) <= row_visits(ranges, r2),
    decreases r2 - r1,
{
    if r1 < r2 {
        lemma_row_visits_monotone(ranges, r1, r2 - 1);
    }
}

proof fn lemma_row_visits_bounds_row(ranges: Seq<Option<(int, int)>>, row: int, rows: int)
    requires
        0 <= row < rows,
    ensures
        row_visits(ranges, row) + covering(ranges, row).len() <= row_visits(ranges, rows),
{
    lemma_row_visits_monotone(ranges, row + 1, rows);
}

pub open spec fn ranges_view(ranges: Seq<Option<[usize; 2]>>) -> Seq<Option<(int, int)>> {
    ranges.map_values(|range: Option<[usize; 2]>| range_view(range))
}

/// `div_ceil(len, chunk)` is the least number of chunks that covers `len`.
pub proof fn lemma_div_ceil_least(len: int, chunk: int, j: int)
    requires
        len >= 0,
        chunk > 0,
        j >= 0,
    ensures
        j * chunk >= len <==> j >= div_ceil(len, chunk),
{
    vstd::arithmetic::div_mod::lemma_fundamental_div_mod(len, chunk);
    vstd::arithmetic::div_mod::lemma_mod_pos_bound(len, chunk);
    let q = len / chunk;
    let r = len % chunk;
    if r == 0 {
        assert(j * chunk >= chunk * q + r <==> j >= q) by (nonlinear_arith)
            requires
                chunk > 0,
                r == 0,
        ;
    } else {
        assert(j * chunk >= chunk * q + r <==> j >= q + 1) by (nonlinear_arith)
            requires
                chunk > 0,
                0 < r < chunk,
        ;
    }
}

/// A primitive is binned into band `row` exactly when its pixel rows
/// `[min_y, max_y)` reach into the band's rows
/// `[row * row_height, (row + 1) * row_height)`: binning drops no primitive
/// that the band's direct rasterization would have visited, and adds none
/// that lies wholly above or below the band.
pub proof fn law_binned_exactly_when_overlapping_band(
    b: [usize; 4],
    row_height: int,
    row_count: int,
    row: int,
)
    requires
        row_height > 0,
        0 <= row < row_count,
    ensures
        covers(row_range(Some(b), row_height, row_count), row) <==> (b[1] < (row + 1) * row_height
            && row * row_height < b[3]),
{
    let b1 = b[1] as int;
    let b3 = b[3] as int;
    vstd::arithmetic::div_mod::lemma_fundamental_div_mod(b1, row_height);
    vstd::arithmetic::div_mod::lemma_mod_pos_bound(b1, row_height);
    let q = b1 / row_height;
    assert(q <= row <==> b1 < (row + 1) * row_height) by (nonlinear_arith)
        requires
            b1 == row_height * q + b1 % row_height,
            0 <= b1 % row_height < row_height,
    ;
    lemma_div_ceil_least(b3, row_height, row);
}

/// The bin of a band lists, in strictly increasing order, exactly the
/// primitives whose row range covers the band.
pub proof fn law_bins_hold_exactly_the_covering_primitives(
    ranges: Seq<Option<(int, int)>>,
    row: int,
    p: int,
)
    requires
        ranges.len() <= usize::MAX,
        0 <= p < ranges.len(),
    ensures
        covering(ranges, row).contains(p as usize) <==> covers(ranges[p], row),
        forall|i: int, j: int|
            0 <= i < j < covering(ranges, row).len() ==> covering(ranges, row)[i] < covering(
                ranges,
                row,
            )[j],
    decreases ranges.len(),
{
    lemma_covering_entries(ranges, row);
    let earlier = ranges.drop_last();
    lemma_covering_entries(earlier, row);
    let n = ranges.len() - 1;
    if p < n {
        law_bins_hold_exactly_the_covering_primitives(earlier, row, p);
        assert(earlier[p] == ranges[p]);
        if covers(ranges.last(), row) {
            assert(covering(ranges, row) == covering(earlier, row).push(n as usize));
            assert(covering(earlier, row).contains(p as usize) ==> covering(ranges, row).contains(
                p as usize,
            )) by {
                if covering(earlier, row).contains(p as usize) {
                    let t = choose|t: int|
                        0 <= t < covering(earlier, row).len() && covering(earlier, row)[t] == p as usize;
                    assert(covering(ranges, row)[t] == p as usize);
                }
            }
            assert(covering(ranges, row).contains(p as usize) ==> covering(earlier, row).contains(
                p as usize,
            )) by {
                if covering(ranges, row).contains(p as usize) {
                    let t = choose|t: int|
                        0 <= t < covering(ranges, row).len() && covering(ranges, row)[t] == p as usize;
                    if t < covering(earlier, row).len() {
                        assert(covering(earlier, row)[t] == p as usize);
                    }
                }
            }
        }
    } else {
        if n > 0 {
            law_bins_hold_exactly_the_covering_primitives(earlier, row, 0);
        }
        assert forall|t: int| 0 <= t < covering(earlier, row).len() implies covering(earlier, row)[t]
            < n by {}
        if covers(ranges.last(), row) {
            assert(covering(ranges, row)[covering(earlier, row).len() as int] == n as usize);
        } else {
            assert(!covering(ranges, row).contains(p as usize)) by {
                if covering(ranges, row).contains(p as usize) {
                    let t = choose|t: int|
                        0 <= t < covering(ranges, row).len() && covering(ranges, row)[t] == p as usize;
                    assert(covering(earlier, row)[t] < n);
                }
            }
        }
    }
}

proof fn lemma_covering_len(ranges: Seq<Option<(int, int)>>, row: int)
    ensures
        covering(ranges, row).len() <= ranges.len(),
    decreases ranges.len(),
{
    if ranges.len() > 0 {
        lemma_covering_len(ranges.drop_last(), row);
    }
}

/// Binning visits each (primitive, band) pair at most once: over `rows`
/// bands there are at most `primitives * rows` visits. A draw whose
/// primitive count times band count fits in `usize` can therefore always be
/// binned.
pub proof fn law_row_visits_bounded(ranges: Seq<Option<(int, int)>>, rows: int)
    requires
        rows >= 0,
    ensures
        0 <= row_visits(ranges, rows) <= ranges.len() * rows,
    decreases rows,
{
    if rows > 0 {
        law_row_visits_bounded(ranges, rows - 1);
        lemma_covering_len(ranges, rows - 1);
        assert(ranges.len() * (rows - 1) + ranges.len() == ranges.len() * rows) by (nonlinear_arith);
    }
}

/// The row bands a primitive with the given pixel bounds touches.
pub fn primitive_row_range(bounds: Option<[usize; 4]>, row_height: usize, row_count: usize) -> (r:
    Option<[usize; 2]>)
    requires
        row_height > 0,
    ensures
        range_view(r) == row_range(bounds, row_height as int, row_count as int),
{
    match bounds {
        None => None,
        Some(b) => {
            let lo = b[1] / row_height;
            let lo = if lo <= row_count { lo } else { row_count };
            let hi = div_ceil_usize(b[3], row_height);
            let hi = if hi <= row_count { hi } else { row_count };
            if lo < hi {
                Some([lo, hi])
            } else {
                None
            }
        },
    }
}

/// Appends, in parallel, the row range of each primitive to `out`, in
/// primitive order.
///
/// Calls `rayon`'s `ParallelExtend::par_extend` for `Vec` with an indexed
/// parallel map over `bounds` whose closure is `primitive_row_range`. Claimed:
/// the vector is extended by one element per primitive, in the order of
/// `bounds`, each element being what `primitive_row_range` returns for it.
#[verifier::external_body]
fn par_extend_row_ranges(
    out: &mut Vec<Option<[usize; 2]>>,
    bounds: &[Option<[usize; 4]>],
    row_height: usize,
    row_count: usize,
)
    requires
        row_height > 0,
    ensures
        final(out)@.len() == old(out)@.len() + bounds@.len(),
        forall|i: int| 0 <= i < old(out)@.len() ==> final(out)@[i] == old(out)@[i],
        forall|p: int|
            0 <= p < bounds@.len() ==> range_view(#[trigger] final(out)@[old(out)@.len() + p])
                == row_range(bounds@[p], row_height as int, row_count as int),
{
    out.par_extend(bounds.par_iter().map(|b| primitive_row_range(*b, row_height, row_count)));
}

/// Whether every stored range is a non-empty range of bands below `row_count`.
pub open spec fn ranges_in_bands(ranges: Seq<Option<[usize; 2]>>, row_count: int) -> bool {
    forall|p: int|
        0 <= p < ranges.len() ==> match #[trigger] ranges[p] {
            None => true,
            Some(a) => a[0] < a[1] <= row_count,
        }
}

fn count_primitives_per_row(ranges: &Vec<Option<[usize; 2]>>, row_counts: &mut Vec<usize>)
    requires
        ranges_in_bands(ranges@, old(row_counts)@.len() as int),
        forall|row: int| 0 <= row < old(row_counts)@.len() ==> old(row_counts)@[row] == 0,
        row_visits(ranges_view(ranges@), old(row_counts)@.len() as int) <= usize::MAX,
    ensures
        final(row_counts)@.len() == old(row_counts)@.len(),
        forall|row: int|
            0 <= row < final(row_counts)@.len() ==> #[trigger] final(row_counts)@[row] == covering(
                ranges_view(ranges@),
                row,
            ).len(),
{
    let ghost sr = ranges_view(ranges@);
    let ghost rc = row_counts@.len() as int;
    proof {
        assert forall|row: int| 0 <= row < rc implies #[trigger] row_counts@[row] == covering(
            sr.take(0),
            row,
        ).len() by {
            assert(sr.take(0).len() == 0);
        }
    }
    let n = ranges.len();
    let mut p: usize = 0;
    while p < n
        invariant
            n == ranges@.len(),
            sr == ranges_view(ranges@),
            sr.len() == n,
            rc == row_counts@.len(),
            ranges_in_bands(ranges@, rc),
            row_visits(sr, rc) <= usize::MAX,
            p <= n,
            forall|row: int|
                0 <= row < rc ==> #[trigger] row_counts@[row] == covering(sr.take(p as int), row).len(),
        decreases n - p,
    {
        let range = ranges[p];
        proof {
            assert(sr[p as int] == range_view(range));
        }
        if let Some(bands) = range {
            let lo = bands[0];
            let hi = bands[1];
            let mut row = lo;
            while row < hi
                invariant
                    sr == ranges_view(ranges@),
                    rc == row_counts@.len(),
                    row_visits(sr, rc) <= usize::MAX,
                    0 <= p < n,
                    n == sr.len(),
                    sr[p as int] == Some((lo as int, hi as int)),
                    lo <= row <= hi <= rc,
                    forall|r: int|
                        0 <= r < rc ==> #[trigger] row_counts@[r] == (if lo <= r < row {
                            covering(sr.take(p + 1), r).len()
                        } else {
                            covering(sr.take(p as int), r).len()
                        }),
                decreases hi - row,
            {
                proof {
                    lemma_covering_take_step(sr, p as int, row as int);
                    lemma_covering_take_len(sr, p + 1, n as int, row as int);
                    lemma_covering_full(sr, row as int);
                    lemma_row_visits_bounds_row(sr, row as int, rc);
                    lemma_row_visits_monotone(sr, 0, row as int);
                    assert(covers(sr[p as int], row as int));
                }
                let c = row_counts[row];
                assert(c + 1 == covering(sr.take(p + 1), row as int).len());
                row_counts.set(row, c + 1);
                row += 1;
            }
            proof {
                assert forall|r: int| 0 <= r < rc implies #[trigger] row_counts@[r] == covering(
                    sr.take(p + 1),
                    r,
                ).len() by {
                    lemma_covering_take_step(sr, p as int, r);
                }
            }
        } else {
            proof {
                assert forall|r: int| 0 <= r < rc implies #[trigger] row_counts@[r] == covering(
                    sr.take(p + 1),
                    r,
                ).len() by {
                    lemma_covering_take_step(sr, p as int, r);
                }
            }
        }
        p += 1;
    }
    proof {
        assert forall|r: int| 0 <= r < rc implies #[trigger] row_counts@[r] == covering(sr, r).len() by {
            lemma_covering_full(sr, r);
        }
    }
}

/// Where, in the compact index table, entry `t` of row `row` is stored.
pub open spec fn slot(ranges: Seq<Option<(int, int)>>, row: int, t: int) -> int {
    row_visits(ranges, row) + t
}

/// The invariant of the table fill after the first `p` primitives, with the
/// rows `lo..mid` already holding primitive `p` as well.
spec fn table_holds(
    sr: Seq<Option<(int, int)>>,
    counts: Seq<usize>,
    table: Seq<usize>,
    p: int,
    lo: int,
    mid: int,
) -> bool {
    let rc = counts.len() as int;
    &&& forall|r: int|
        0 <= r < rc ==> #[trigger] counts[r] == (if lo <= r < mid {
            covering(sr.take(p + 1), r).len()
        } else {
            covering(sr.take(p), r).len()
        })
    &&& forall|r: int, t: int|
        #![trigger slot(sr, r, t)]
        0 <= r < rc && 0 <= t < counts[r] ==> table[slot(sr, r, t)] == (if lo <= r < mid {
            covering(sr.take(p + 1), r)
        } else {
            covering(sr.take(p), r)
        })[t]
}

fn fill_row_indices(
    ranges: &Vec<Option<[usize; 2]>>,
    row_offsets: &Vec<usize>,
    row_counts: &mut Vec<usize>,
    row_indices: &mut Vec<usize>,
)
    requires
        ranges_in_bands(ranges@, old(row_counts)@.len() as int),
        forall|row: int| 0 <= row < old(row_counts)@.len() ==> old(row_counts)@[row] == 0,
        row_visits(ranges_view(ranges@), old(row_counts)@.len() as int) <= usize::MAX,
        row_offsets@.len() == old(row_counts)@.len() + 1,
        forall|row: int|
            0 <= row <= old(row_counts)@.len() ==> #[trigger] row_offsets@[row] == row_visits(
                ranges_view(ranges@),
                row,
            ),
        old(row_indices)@.len() == row_visits(ranges_view(ranges@), old(row_counts)@.len() as int),
    ensures
        final(row_counts)@.len() == old(row_counts)@.len(),
        final(row_indices)@.len() == old(row_indices)@.len(),
        forall|row: int|
            0 <= row < final(row_counts)@.len() ==> #[trigger] final(row_counts)@[row] == covering(
                ranges_view(ranges@),
                row,
            ).len(),
        forall|row: int, t: int|
            #![trigger slot(ranges_view(ranges@), row, t)]
            0 <= row < final(row_counts)@.len() && 0 <= t < covering(ranges_view(ranges@), row).len()
                ==> final(row_indices)@[slot(ranges_view(ranges@), row, t)] == covering(
                ranges_view(ranges@),
                row,
            )[t],
{
    let ghost sr = ranges_view(ranges@);
    let ghost rc = row_counts@.len() as int;
    let ghost total = row_indices@.len() as int;
    proof {
        assert(sr.take(0) =~= Seq::<Option<(int, int)>>::empty());
        assert(table_holds(sr, row_counts@, row_indices@, 0, 0, 0));
    }
    let n = ranges.len();
    let mut p: usize = 0;
    while p < n
        invariant
            n == ranges@.len(),
            sr == ranges_view(ranges@),
            sr.len() == n,
            rc == row_counts@.len(),
            ranges_in_bands(ranges@, rc),
            row_visits(sr, rc) <= usize::MAX,
            row_offsets@.len() == rc + 1,
            forall|row: int| 0 <= row <= rc ==> #[trigger] row_offsets@[row] == row_visits(sr, row),
            total == row_visits(sr, rc),
            row_indices@.len() == total,
            p <= n,
            table_holds(sr, row_counts@, row_indices@, p as int, 0, 0),
        decreases n - p,
    {
        let range = ranges[p];
        proof {
            assert(sr[p as int] == range_view(range));
        }
        if let Some(bands) = range {
            let lo = bands[0];
            let hi = bands[1];
            let mut row = lo;
            while row < hi
                invariant
                    sr == ranges_view(ranges@),
                    rc == row_counts@.len(),
                    row_visits(sr, rc) <= usize::MAX,
                    row_offsets@.len() == rc + 1,
                    forall|r: int| 0 <= r <= rc ==> #[trigger] row_offsets@[r] == row_visits(sr, r),
                    total == row_visits(sr, rc),
                    row_indices@.len() == total,
                    0 <= p < n,
                    n == sr.len(),
                    n <= usize::MAX,
                    sr[p as int] == Some((lo as int, hi as int)),
                    lo <= row <= hi <= rc,
                    table_holds(sr, row_counts@, row_indices@, p as int, lo as int, row as int),
                decreases hi - row,
            {
                let ghost old_counts = row_counts@;
                let ghost old_table = row_indices@;
                let ghost c = covering(sr.take(p as int), row as int).len();
                proof {
                    lemma_covering_take_step(sr, p as int, row as int);
                    lemma_covering_take_len(sr, p + 1, n as int, row as int);
                    lemma_covering_full(sr, row as int);
                    lemma_row_visits_bounds_row(sr, row as int, rc);
                    lemma_row_visits_monotone(sr, 0, row as int);
                    assert(covers(sr[p as int], row as int));
                    assert(old_counts[row as int] == c);
                    assert(row_offsets@[row as int] == row_visits(sr, row as int));
                }
                let c_exec = row_counts[row];
                let write_index = row_offsets[row] + c_exec;
                row_indices.set(write_index, p);
                row_counts.set(row, c_exec + 1);
                proof {
                    let sp = sr.take(p as int);
                    let sp1 = sr.take(p + 1);
                    assert forall|r: int, t: int|
                        #![trigger slot(sr, r, t)]
                        0 <= r < rc && 0 <= t < row_counts@[r] implies row_indices@[slot(sr, r, t)]
                            == (if lo <= r < row + 1 {
                            covering(sp1, r)
                        } else {
                            covering(sp, r)
                        })[t] by {
                        lemma_row_visits_bounds_row(sr, r, rc);
                        lemma_row_visits_monotone(sr, 0, r);
                        lemma_covering_take_len(sr, p as int, n as int, r);
                        lemma_covering_take_len(sr, p + 1, n as int, r);
                        lemma_covering_full(sr, r);
                        if r == row {
                            assert(covering(sp1, r) == covering(sp, r).push(p as usize));
                            if t < c {
                                assert(old_table[slot(sr, r, t)] == covering(sp, r)[t]);
                            } else {
                                assert(slot(sr, r, t) == write_index);
                            }
                        } else {
                            assert(old_counts[r] == row_counts@[r]);
                            assert(old_table[slot(sr, r, t)] == (if lo <= r < row {
                                covering(sp1, r)
                            } else {
                                covering(sp, r)
                            })[t]);
                            if r < row {
                                lemma_row_visits_bounds_row(sr, r, row as int);
                            } else {
                                lemma_row_visits_monotone(sr, row + 1, r);
                                assert(row_visits(sr, row + 1) == row_visits(sr, row as int)
                                    + covering(sr, row as int).len());
                            }
                            assert(slot(sr, r, t) != write_index);
                        }
                    }
                }
                row += 1;
            }
            proof {
                assert forall|r: int| 0 <= r < rc implies covering(sr.take(p + 1), r) == (if lo <= r
                    < hi {
                    covering(sr.take(p + 1), r)
                } else {
                    covering(sr.take(p as int), r)
                }) by {
                    lemma_covering_take_step(sr, p as int, r);
                }
            }
        } else {
            proof {
                assert forall|r: int| 0 <= r < rc implies covering(sr.take(p + 1), r) == covering(
                    sr.take(p as int),
                    r,
                ) by {
                    lemma_covering_take_step(sr, p as int, r);
                }
            }
        }
        p += 1;
    }
    proof {
        assert forall|r: int| 0 <= r < rc implies covering(sr.take(n as int), r) == covering(sr, r) by {
            lemma_covering_full(sr, r);
        }
    }
}

/// The number of row bands of height `row_height` needed to cover `height`
/// rows.
pub open spec fn band_count(height: int, row_height: int) -> int {
    div_ceil(height, row_height)
}

/// The cost model of the choice, where nothing saturates: binning is chosen
/// exactly when there is more than one bin band and four times its estimated
/// work (each primitive once, plus two for each binned visit) is at most three
/// times the work of the direct path (each primitive once in each of the
/// direct path's bands).
pub proof fn law_binning_weighs_against_the_direct_bands(
    primitives: int,
    row_count: int,
    binned_visits: int,
    direct_row_count: int,
)
    requires
        primitives >= 0,
        binned_visits >= 0,
        direct_row_count >= 0,
        4 * (primitives + 2 * binned_visits) <= usize::MAX,
        3 * (primitives * direct_row_count) <= usize::MAX,
    ensures
        binning_worthwhile(primitives, row_count, binned_visits, direct_row_count) <==> row_count
            > 1 && 4 * (primitives + 2 * binned_visits) <= 3 * (primitives * direct_row_count),
{
    assert(primitives * direct_row_count >= 0) by (nonlinear_arith)
        requires
            primitives >= 0,
            direct_row_count >= 0,
    ;
}

/// Where the direct path has more bands, binning is chosen at least as
/// readily; where binning visits fewer (primitive, band) pairs, too; and with
/// a single bin band it is never chosen.
pub proof fn law_binning_is_monotone(
    primitives: int,
    row_count: int,
    more_visits: int,
    fewer_visits: int,
    fewer_direct_rows: int,
    more_direct_rows: int,
)
    requires
        primitives >= 0,
        0 <= fewer_visits <= more_visits,
        0 <= fewer_direct_rows <= more_direct_rows,
    ensures
        binning_worthwhile(primitives, row_count, more_visits, fewer_direct_rows)
            ==> binning_worthwhile(primitives, row_count, fewer_visits, more_direct_rows),
        row_count <= 1 ==> !binning_worthwhile(primitives, row_count, more_visits, fewer_direct_rows),
{
    assert(primitives * fewer_direct_rows <= primitives * more_direct_rows) by (nonlinear_arith)
        requires
            primitives >= 0,
            fewer_direct_rows <= more_direct_rows,
    ;
    assert(primitives * fewer_direct_rows >= 0) by (nonlinear_arith)
        requires
            primitives >= 0,
            fewer_direct_rows >= 0,
    ;
    let low = sat_mul(primitives, fewer_direct_rows);
    let high = sat_mul(primitives, more_direct_rows);
    assert(low * 3 <= high * 3) by (nonlinear_arith)
        requires
            low <= high,
    ;
    let more_work = sat_add(primitives, sat_mul(more_visits, 2));
    let less_work = sat_add(primitives, sat_mul(fewer_visits, 2));
    assert(less_work * 4 <= more_work * 4) by (nonlinear_arith)
        requires
            less_work <= more_work,
    ;
}

/// Lower direct bands mean more of them: a band height `lower <= higher`
/// needs at least as many bands to cover `height` rows.
pub proof fn law_lower_bands_are_more(height: int, lower: int, higher: int)
    requires
        height >= 0,
        0 < lower <= higher,
    ensures
        band_count(height, lower) >= band_count(height, higher),
{
    let j = band_count(height, lower);
    vstd::arithmetic::div_mod::lemma_div_pos_is_pos(height, lower);
    assert(j >= 0);
    lemma_div_ceil_least(height, lower, j);
    assert(j * lower <= j * higher) by (nonlinear_arith)
        requires
            j >= 0,
            lower <= higher,
    ;
    lemma_div_ceil_least(height, higher, j);
}

/// Sorts primitives into row bins.
///
/// From the pixel bounds of each primitive (as its rasterizer reports them)
/// this computes the range of row bands of height `row_height` that the
/// primitive touches, and how many primitives touch each band. It then
/// decides whether rasterizing band by band from bins beats the direct path
/// (every primitive in each of the `direct_row_height` bands). When it does,
/// `row_indices[row_offsets[row]..row_offsets[row + 1]]` lists, in
/// increasing order, the primitives that touch band `row`, and the result is
/// `true`; otherwise both tables are left empty and the result is `false`.
pub fn build_row_bins(
    bounds: &[Option<[usize; 4]>],
    height: usize,
    row_height: usize,
    direct_row_height: usize,
    row_counts: &mut Vec<usize>,
    row_offsets: &mut Vec<usize>,
    row_indices: &mut Vec<usize>,
    primitive_row_ranges: &mut Vec<Option<[usize; 2]>>,
) -> (r: bool)
    requires
        row_height > 0,
        direct_row_height > 0,
        row_visits(
            row_ranges(bounds@, row_height as int, band_count(height as int, row_height as int)),
            band_count(height as int, row_height as int),
        ) <= usize::MAX,
    ensures
        ranges_view(final(primitive_row_ranges)@) == row_ranges(
            bounds@,
            row_height as int,
            band_count(height as int, row_height as int),
        ),
        final(row_counts)@.len() == band_count(height as int, row_height as int),
        forall|row: int|
            0 <= row < final(row_counts)@.len() ==> #[trigger] final(row_counts)@[row] == covering(
                ranges_view(final(primitive_row_ranges)@),
                row,
            ).len(),
        r == binning_worthwhile(
            bounds@.len() as int,
            band_count(height as int, row_height as int),
            row_visits(
                ranges_view(final(primitive_row_ranges)@),
                band_count(height as int, row_height as int),
            ),
            band_count(height as int, direct_row_height as int),
        ),
        !r ==> final(row_offsets)@.len() == 0 && final(row_indices)@.len() == 0,
        r ==> final(row_offsets)@.len() == final(row_counts)@.len() + 1,
        r ==> forall|row: int|
            0 <= row <= final(row_counts)@.len() ==> #[trigger] final(row_offsets)@[row]
                == row_visits(ranges_view(final(primitive_row_ranges)@), row),
        r ==> final(row_indices)@.len() == row_visits(
            ranges_view(final(primitive_row_ranges)@),
            final(row_counts)@.len() as int,
        ),
        r ==> forall|row: int|
            0 <= row < final(row_counts)@.len() ==> #[trigger] final(row_indices)@.subrange(
                final(row_offsets)@[row] as int,
                final(row_offsets)@[row + 1] as int,
            ) == covering(ranges_view(final(primitive_row_ranges)@), row),
{
    let row_count = div_ceil_usize(height, row_height);
    let ghost rc = row_count as int;
    let ghost sr = row_ranges(bounds@, row_height as int, rc);

    row_counts.clear();
    let mut i: usize = 0;
    while i < row_count
        invariant
            i <= row_count,
            row_counts@.len() == i,
            forall|row: int| 0 <= row < i ==> row_counts@[row] == 0,
        decreases row_count - i,
    {
        row_counts.push(0);
        i += 1;
    }

    primitive_row_ranges.clear();
    par_extend_row_ranges(primitive_row_ranges, bounds, row_height, row_count);
    proof {
        assert(ranges_view(primitive_row_ranges@).len() == sr.len());
        assert forall|p: int| 0 <= p < sr.len() implies ranges_view(primitive_row_ranges@)[p] == sr[p] by {
            assert(range_view(primitive_row_ranges@[0 + p]) == row_range(
                bounds@[p],
                row_height as int,
                rc,
            ));
        }
        assert(ranges_view(primitive_row_ranges@) =~= sr);
        assert forall|p: int| 0 <= p < primitive_row_ranges@.len() implies match #[trigger] primitive_row_ranges@[p] {
            None => true,
            Some(a) => a[0] < a[1] <= rc,
        } by {
            assert(range_view(primitive_row_ranges@[p]) == sr[p]);
        }
    }

    count_primitives_per_row(primitive_row_ranges, row_counts);

    let mut binned_visits: usize = 0;
    let mut row: usize = 0;
    while row < row_count
        invariant
            row <= row_count,
            rc == row_count,
            row_counts@.len() == rc,
            ranges_view(primitive_row_ranges@) == sr,
            row_visits(sr, rc) <= usize::MAX,
            forall|r: int| 0 <= r < rc ==> #[trigger] row_counts@[r] == covering(sr, r).len(),
            binned_visits == row_visits(sr, row as int),
        decreases row_count - row,
    {
        proof {
            lemma_row_visits_bounds_row(sr, row as int, rc);
        }
        binned_visits = binned_visits + row_counts[row];
        row += 1;
    }

    let direct_row_count = div_ceil_usize(height, direct_row_height);
    let unbinned_visits = saturating_mul(bounds.len(), direct_row_count);
    let estimated_binned_work = saturating_add(bounds.len(), saturating_mul(binned_visits, 2));
    let worthwhile = row_count > 1 && saturating_mul(
        estimated_binned_work,
        BINNING_SAVINGS_DENOMINATOR,
    ) <= saturating_mul(unbinned_visits, BINNING_SAVINGS_NUMERATOR);

    if !worthwhile {
        row_offsets.clear();
        row_indices.clear();
        return false;
    }

    row_offsets.clear();
    row_offsets.push(0);
    let mut row: usize = 0;
    while row < row_count
        invariant
            row <= row_count,
            rc == row_count,
            row_counts@.len() == rc,
            row_visits(sr, rc) <= usize::MAX,
            forall|r: int| 0 <= r < rc ==> #[trigger] row_counts@[r] == covering(sr, r).len(),
            row_offsets@.len() == row + 1,
            forall|r: int| 0 <= r <= row ==> #[trigger] row_offsets@[r] == row_visits(sr, r),
        decreases row_count - row,
    {
        proof {
            lemma_row_visits_bounds_row(sr, row as int, rc);
        }
        let last = row_offsets[row];
        row_offsets.push(last + row_counts[row]);
        row += 1;
    }

    let total = row_offsets[row_count];
    row_indices.clear();
    let mut i: usize = 0;
    while i < total
        invariant
            i <= total,
            row_indices@.len() == i,
        decreases total - i,
    {
        row_indices.push(0);
        i += 1;
    }

    let mut row: usize = 0;
    while row < row_count
        invariant
            row <= row_count,
            row_counts@.len() == rc,
            rc == row_count,
            forall|r: int| 0 <= r < row ==> #[trigger] row_counts@[r] == 0,
        decreases row_count - row,
    {
        row_counts.set(row, 0);
        row += 1;
    }

    fill_row_indices(primitive_row_ranges, row_offsets, row_counts, row_indices);
    proof {
        assert forall|r: int| 0 <= r < rc implies #[trigger] row_indices@.subrange(
            row_offsets@[r] as int,
            row_offsets@[r + 1] as int,
        ) == covering(sr, r) by {
            lemma_row_visits_bounds_row(sr, r, rc);
            lemma_row_visits_monotone(sr, 0, r);
            assert(row_offsets@[r + 1] == row_visits(sr, r) + covering(sr, r).len());
            assert forall|t: int| 0 <= t < covering(sr, r).len() implies row_indices@[row_visits(sr, r) + t]
                == covering(sr, r)[t] by {
                assert(row_indices@[slot(sr, r, t)] == covering(sr, r)[t]);
            }
            assert(row_indices@.subrange(row_offsets@[r] as int, row_offsets@[r + 1] as int) =~= covering(sr, r));
        }
    }
    true
}

// ---------------------------------------------------------------------------
// Row bands
// ---------------------------------------------------------------------------

/// Whether a draw of `primitive_count` primitives on `threads` workers skips
/// binning.
pub open spec fn prefers_direct_path(threads: int, primitive_count: int) -> bool {
    threads == 1 || primitive_count < MIN_BINNED_PRIMITIVES as int
}

/// Decides between direct rasterization and binning for `primitive_count`
/// primitives on `threads` workers.
pub fn direct_path_for(threads: usize, primitive_count: usize) -> (r: bool)
    ensures
        r == prefers_direct_path(threads as int, primitive_count as int),
{
    threads == 1 || primitive_count < MIN_BINNED_PRIMITIVES
}

/// Decides between direct rasterization and binning on the current rayon
/// thread pool. Small draws always go direct.
pub fn use_direct_path(primitive_count: usize) -> (r: bool)
    ensures
        exists|threads: int| r == prefers_direct_path(threads, primitive_count as int),
        primitive_count < MIN_BINNED_PRIMITIVES ==> r,
{
    let threads = current_num_threads();
    direct_path_for(threads, primitive_count)
}

/// How the bands of a draw are rasterized once its primitives are known.
#[derive(Clone, Copy, Debug, PartialEq, Eq, Structural)]
pub enum BandLayout {
    /// Nothing to draw: there is no primitive, or none reaches a band.
    Skip,
    /// Bands of `row_height` rows, each visiting every primitive.
    Direct { row_height: usize },
    /// Bands of `row_height` rows, each visiting the primitives of its bin.
    Binned { row_height: usize },
}

/// Chooses the band layout of a draw of `primitive_count` primitives:
/// `used_binning` is what `build_row_bins` answered (`false` where it was not
/// run), `binned_entries` the length of the index table it filled, and
/// `direct_row_height` the band height of the direct path.
pub fn band_layout(
    primitive_count: usize,
    used_binning: bool,
    binned_entries: usize,
    direct_row_height: usize,
) -> (r: BandLayout)
    ensures
        primitive_count == 0 ==> r == BandLayout::Skip,
        primitive_count > 0 && !used_binning ==> r == (BandLayout::Direct {
            row_height: direct_row_height,
        }),
        primitive_count > 0 && used_binning && binned_entries == 0 ==> r == BandLayout::Skip,
        primitive_count > 0 && used_binning && binned_entries > 0 ==> r == (BandLayout::Binned {
            row_height: BIN_ROW_HEIGHT,
        }),
{
    if primitive_count == 0 {
        BandLayout::Skip
    } else if !used_binning {
        BandLayout::Direct { row_height: direct_row_height }
    } else if binned_entries == 0 {
        BandLayout::Skip
    } else {
        BandLayout::Binned { row_height: BIN_ROW_HEIGHT }
    }
}

/// The first row of band `row`.
pub open spec fn band_start(row: int, row_height: int) -> int {
    row * row_height
}

/// The number of rows of band `row`: `row_height`, or fewer for the last
/// band.
pub open spec fn band_rows(height: int, row_height: int, row: int) -> int {
    min_int(height - band_start(row, row_height), row_height)
}

/// The tile `[x, y, width, height]` that band `row` covers.
pub fn row_tile(width: usize, height: usize, row_height: usize, row: usize) -> (r: [usize; 4])
    requires
        row * row_height <= height,
    ensures
        r[0] == 0,
        r[1] == band_start(row as int, row_height as int),
        r[2] == width,
        r[3] == band_rows(height as int, row_height as int, row as int),
{
    let row_y = row * row_height;
    let rest = height - row_y;
    let current_row_height = if rest <= row_height { rest } else { row_height };
    [0, row_y, width, current_row_height]
}

/// The primitives binned into band `row`.
pub fn row_bin<'a>(row_offsets: &[usize], row_indices: &'a [usize], row: usize) -> (r: &'a [usize])
    requires
        row + 1 < row_offsets@.len(),
        row_offsets@[row as int] <= row_offsets@[row + 1] <= row_indices@.len(),
    ensures
        r@ == row_indices@.subrange(row_offsets@[row as int] as int, row_offsets@[row + 1] as int),
{
    let start = row_offsets[row];
    let end = row_offsets[row + 1];
    &row_indices[start..end]
}

/// The position of pixel `(x, y)` inside the part of a row-major buffer that
/// starts at row `row_y`.
pub fn local_fragment_index(x: usize, y: usize, row_y: usize, width: usize) -> (r: usize)
    requires
        row_y <= y,
        x + (y - row_y) * width <= usize::MAX,
    ensures
        r == x + (y - row_y) * width,
{
    x + (y - row_y) * width
}

/// The bands partition the screen's rows: band `row` starts where band
/// `row - 1` ends, every band of the `band_count` bands is non-empty, and the
/// last one ends at the bottom row.
pub proof fn law_bands_partition_rows(height: int, row_height: int, row: int)
    requires
        height > 0,
        row_height > 0,
        0 <= row < band_count(height, row_height),
    ensures
        0 <= band_start(row, row_height) < height,
        0 < band_rows(height, row_height, row) <= row_height,
        row + 1 < band_count(height, row_height) ==> band_start(row, row_height) + band_rows(
            height,
            row_height,
            row,
        ) == band_start(row + 1, row_height),
        row + 1 == band_count(height, row_height) ==> band_start(row, row_height) + band_rows(
            height,
            row_height,
            row,
        ) == height,
{
    vstd::arithmetic::div_mod::lemma_fundamental_div_mod(height, row_height);
    vstd::arithmetic::div_mod::lemma_mod_pos_bound(height, row_height);
    let q = height / row_height;
    let m = height % row_height;
    assert(band_start(row + 1, row_height) == band_start(row, row_height) + row_height) by (
    nonlinear_arith);
    assert(row * row_height >= 0) by (nonlinear_arith)
        requires
            row >= 0,
            row_height > 0,
    ;
    if m == 0 {
        assert(row * row_height + row_height <= height) by (nonlinear_arith)
            requires
                row < q,
                height == row_height * q,
                row_height > 0,
        ;
        assert(row == q - 1 ==> row * row_height + row_height == height) by (nonlinear_arith)
            requires
                height == row_height * q,
        ;
    } else {
        assert(row * row_height < height) by (nonlinear_arith)
            requires
                row <= q,
                height == row_height * q + m,
                0 < m,
                row_height > 0,
        ;
        assert(row + 1 < q + 1 ==> row * row_height + row_height <= height) by (nonlinear_arith)
            requires
                height == row_height * q + m,
                0 < m,
                row_height > 0,
        ;
        assert(row == q ==> height - row * row_height == m) by (nonlinear_arith)
            requires
                height == row_height * q + m,
        ;
    }
}

/// A fragment of band `row` lands inside the band's part of a row-major
/// buffer, at the same place as in the whole buffer.
pub proof fn law_band_local_index(width: int, height: int, row_height: int, row: int, x: int, y: int)
    requires
        width > 0,
        row_height > 0,
        0 <= x < width,
        band_start(row, row_height) <= y < band_start(row, row_height) + band_rows(
            height,
            row_height,
            row,
        ),
    ensures
        0 <= x + (y - band_start(row, row_height)) * width < width * band_rows(height, row_height, row),
        band_start(row, row_height) * width + (x + (y - band_start(row, row_height)) * width) == x
            + y * width,
{
    let ly = y - band_start(row, row_height);
    let h = band_rows(height, row_height, row);
    assert(0 <= x + ly * width < width * h) by (nonlinear_arith)
        requires
            0 <= x < width,
            0 <= ly < h,
    ;
    assert(band_start(row, row_height) * width + (x + ly * width) == x + y * width) by (nonlinear_arith)
        requires
            ly == y - band_start(row, row_height),
    ;
}

} // verus!
