//! Summary statistics of each grid cell, from the heights binned into it.
use vstd::prelude::*;
use crate::grid::{cell_center_tenths, center_tenths, key_less, lemma_center_monotone, CellKey};
use crate::histogram::{keys_sorted, total_counts, GridCell};

verus! {

/// Sum of the heights.
pub open spec fn sum_of(s: Seq<i64>) -> int
    decreases s.len(),
{
    if s.len() == 0 {
        0
    } else {
        sum_of(s.drop_last()) + s.last()
    }
}

/// Sum of the squared heights.
pub open spec fn sum_of_squares(s: Seq<i64>) -> int
    decreases s.len(),
{
    if s.len() == 0 {
        0
    } else {
        sum_of_squares(s.drop_last()) + s.last() * s.last()
    }
}

/// Sum of the squared distances of the heights from `y`.
pub open spec fn spread(s: Seq<i64>, y: int) -> int
    decreases s.len(),
{
    if s.len() == 0 {
        0
    } else {
        spread(s.drop_last(), y) + (s.last() - y) * (s.last() - y)
    }
}

/// The statistics of one grid cell. The mean height is
/// `sum_heights / counts`, and the standard deviation is
/// `sqrt(variance_numerator) / counts`.
#[derive(Debug, Clone, Copy, PartialEq, Eq, Structural)]
pub struct CellSummary {
    /// The cell summarised.
    pub key: CellKey,
    /// Longitude of the cell centre, in tenths of a degree.
    pub longitude_tenths: i128,
    /// Latitude of the cell centre, in tenths of a degree.
    pub latitude_tenths: i128,
    pub counts: u64,
    pub sum_heights: i64,
    pub sum_squared_heights: i64,
    /// `counts * sum_squared_heights - sum_heights * sum_heights`, that is
    /// the variance times `counts * counts`.
    pub variance_numerator: i128,
}

/// Why the statistics could not be given.
#[derive(Debug, Clone, Copy, PartialEq, Eq, Structural)]
pub enum StatsError {
    /// The sum of squared heights of some cell does not fit in an `i64`.
    SumOverflow,
}

/// The statistics of `cell` on a grid of `grid_size`.
pub open spec fn summary_of(cell: GridCell, grid_size: int) -> CellSummary {
    let h = cell.data.heights@;
    CellSummary {
        key: cell.key,
        longitude_tenths: center_tenths(cell.key.lon_index as int, grid_size) as i128,
        latitude_tenths: center_tenths(cell.key.lat_index as int, grid_size) as i128,
        counts: cell.data.counts,
        sum_heights: sum_of(h) as i64,
        sum_squared_heights: sum_of_squares(h) as i64,
        variance_numerator: (cell.data.counts * sum_of_squares(h) - sum_of(h) * sum_of(h)) as i128,
    }
}

/// Sum of the counts of all summaries.
pub open spec fn total_summary_counts(s: Seq<CellSummary>) -> int
    decreases s.len(),
{
    if s.len() == 0 {
        0
    } else {
        total_summary_counts(s.drop_last()) + s.last().counts
    }
}

/// Whether the sums of `cell` fit the summary's fields.
pub open spec fn sums_fit(cell: GridCell) -> bool {
    sum_of_squares(cell.data.heights@) <= i64::MAX
}

proof fn lemma_prefix_step(s: Seq<i64>, k: int)
    requires
        0 <= k < s.len(),
    ensures
        sum_of(s.take(k + 1)) == sum_of(s.take(k)) + s[k],
        sum_of_squares(s.take(k + 1)) == sum_of_squares(s.take(k)) + s[k] * s[k],
{
    assert(s.take(k + 1).drop_last() =~= s.take(k));
}

proof fn lemma_squares_prefix(s: Seq<i64>, k: int)
    requires
        0 <= k <= s.len(),
    ensures
        0 <= sum_of_squares(s.take(k)) <= sum_of_squares(s),
    decreases s.len(),
{
    if k < s.len() {
        assert(s.drop_last().take(k) =~= s.take(k));
        lemma_squares_prefix(s.drop_last(), k);
        assert(s.last() * s.last() >= 0) by (nonlinear_arith);
    } else {
        assert(s.take(k) =~= s);
        if s.len() > 0 {
            lemma_squares_prefix(s.drop_last(), s.len() - 1);
            assert(s.drop_last().take(s.len() - 1) =~= s.drop_last());
            assert(s.last() * s.last() >= 0) by (nonlinear_arith);
        }
    }
}

/// Sum and sum of squares of the heights, where the sum of squares fits in
/// an `i64` (and then the sum does too).
fn height_sums(heights: &Vec<i64>) -> (r: Option<(i64, i64)>)
    ensures
        r is Some <==> sum_of_squares(heights@) <= i64::MAX,
        r matches Some((s, q)) ==> s == sum_of(heights@) && q == sum_of_squares(heights@),
{
    let mut sum: i128 = 0;
    let mut squares: i128 = 0;
    let mut k: usize = 0;
    while k < heights.len()
        invariant
            k <= heights@.len(),
            sum == sum_of(heights@.take(k as int)),
            squares == sum_of_squares(heights@.take(k as int)),
            0 <= squares <= i64::MAX,
            -squares <= sum <= squares,
        decreases heights@.len() - k,
    {
        let x = heights[k] as i128;
        proof {
            lemma_prefix_step(heights@, k as int);
            assert(0 <= x * x <= 0x4000_0000_0000_0000_0000_0000_0000_0000 && -(x * x) <= x <= x
                * x) by (nonlinear_arith)
                requires
                    i64::MIN <= x <= i64::MAX,
            ;
        }
        let next = squares + x * x;
        if next > i64::MAX as i128 {
            proof {
                lemma_squares_prefix(heights@, k + 1);
            }
            return None;
        }
        sum = sum + x;
        squares = next;
        k = k + 1;
    }
    proof {
        assert(heights@.take(k as int) =~= heights@);
    }
    Some((sum as i64, squares as i64))
}

proof fn lemma_spread(s: Seq<i64>, y: int)
    ensures
        spread(s, y) == sum_of_squares(s) - 2 * y * sum_of(s) + s.len() * y * y,
        spread(s, y) >= 0,
    decreases s.len(),
{
    if s.len() > 0 {
        let t = s.drop_last();
        let x = s.last() as int;
        lemma_spread(t, y);
        assert(spread(s, y) == sum_of_squares(s) - 2 * y * sum_of(s) + s.len() * y * y
            && spread(s, y) >= 0) by (nonlinear_arith)
            requires
                spread(t, y) == sum_of_squares(t) - 2 * y * sum_of(t) + t.len() * y * y,
                spread(t, y) >= 0,
                spread(s, y) == spread(t, y) + (x - y) * (x - y),
                sum_of_squares(s) == sum_of_squares(t) + x * x,
                sum_of(s) == sum_of(t) + x,
                s.len() == t.len() + 1,
        ;
    }
}

/// The variance of any heights is never negative: `n * Σh² - (Σh)² >= 0`,
/// so the standard deviation needs no clamping.
pub proof fn lemma_variance_nonnegative(s: Seq<i64>)
    ensures
        s.len() * sum_of_squares(s) - sum_of(s) * sum_of(s) >= 0,
    decreases s.len(),
{
    if s.len() > 0 {
        let t = s.drop_last();
        let x = s.last() as int;
        lemma_variance_nonnegative(t);
        lemma_spread(t, x);
        assert(s.len() * sum_of_squares(s) - sum_of(s) * sum_of(s) >= 0) by (nonlinear_arith)
            requires
                t.len() * sum_of_squares(t) - sum_of(t) * sum_of(t) >= 0,
                sum_of_squares(t) - 2 * x * sum_of(t) + t.len() * x * x >= 0,
                sum_of_squares(s) == sum_of_squares(t) + x * x,
                sum_of(s) == sum_of(t) + x,
                s.len() == t.len() + 1,
        ;
    }
}

/// Summarises each cell: its key and centre, the count, the sum and sum of
/// squares of the heights, and the variance numerator. The cells come in
/// strictly increasing key order, and so do the summaries: by longitude, then
/// latitude, with centres that never decrease in longitude. The counts add up
/// to those of the cells. Fails where a cell's sum of squared heights does not
/// fit in an `i64`.
pub fn calc_stats(grid_dict: &Vec<GridCell>, grid_size: i64) -> (r: Result<
    Vec<CellSummary>,
    StatsError,
>)
    requires
        grid_size > 0,
        keys_sorted(grid_dict@),
        forall|i: int| 0 <= i < grid_dict@.len() ==> (#[trigger] grid_dict@[i]).data.wf(),
    ensures
        r is Ok <==> forall|i: int| 0 <= i < grid_dict@.len() ==> sums_fit(#[trigger] grid_dict@[i]),
        r is Err ==> r == Err::<Vec<CellSummary>, StatsError>(StatsError::SumOverflow),
        r matches Ok(out) ==> {
            &&& out@.len() == grid_dict@.len()
            &&& forall|i: int|
                #![trigger out@[i]]
                0 <= i < out@.len() ==> out@[i] == summary_of(grid_dict@[i], grid_size as int)
                    && out@[i].variance_numerator >= 0
            &&& forall|i: int, j: int|
                0 <= i < j < out@.len() ==> key_less(out@[i].key, out@[j].key)
                    && out@[i].longitude_tenths <= out@[j].longitude_tenths
            &&& total_summary_counts(out@) == total_counts(grid_dict@)
        },
{
    let mut out: Vec<CellSummary> = Vec::with_capacity(grid_dict.len());
    let mut k: usize = 0;
    while k < grid_dict.len()
        invariant
            grid_size > 0,
            k <= grid_dict@.len(),
            out@.len() == k,
            forall|i: int| 0 <= i < grid_dict@.len() ==> (#[trigger] grid_dict@[i]).data.wf(),
            forall|i: int| 0 <= i < k ==> sums_fit(#[trigger] grid_dict@[i]),
            forall|i: int|
                #![trigger out@[i]]
                0 <= i < k ==> out@[i] == summary_of(grid_dict@[i], grid_size as int)
                    && out@[i].variance_numerator >= 0 && out@[i].longitude_tenths as int
                    == center_tenths(grid_dict@[i].key.lon_index as int, grid_size as int),
            total_summary_counts(out@) == total_counts(grid_dict@.take(k as int)),
        decreases grid_dict@.len() - k,
    {
        let cell = &grid_dict[k];
        let (sum, squares) = match height_sums(&cell.data.heights) {
            Some(p) => p,
            None => return Err(StatsError::SumOverflow),
        };
        let counts = cell.data.counts;
        proof {
            let h = cell.data.heights@;
            lemma_variance_nonnegative(h);
            lemma_squares_prefix(h, 0);
            assert(0 <= counts as int * squares as int <= 0x7fff_ffff_ffff_fffe_8000_0000_0000_0001
                && 0 <= sum as int * sum as int <= 0x4000_0000_0000_0000_0000_0000_0000_0000)
                by (nonlinear_arith)
                requires
                    0 < counts <= u64::MAX,
                    0 <= squares <= i64::MAX,
                    i64::MIN <= sum <= i64::MAX,
            ;
        }
        let variance_numerator = (counts as i128) * (squares as i128) - (sum as i128) * (
        sum as i128);
        let summary = CellSummary {
            key: cell.key,
            longitude_tenths: cell_center_tenths(cell.key.lon_index, grid_size),
            latitude_tenths: cell_center_tenths(cell.key.lat_index, grid_size),
            counts,
            sum_heights: sum,
            sum_squared_heights: squares,
            variance_numerator,
        };
        let ghost before = out@;
        out.push(summary);
        proof {
            assert(out@.drop_last() =~= before);
            assert(grid_dict@.take(k + 1).drop_last() =~= grid_dict@.take(k as int));
        }
        k = k + 1;
    }
    proof {
        assert(grid_dict@.take(k as int) =~= grid_dict@);
        assert forall|i: int, j: int| 0 <= i < j < out@.len() implies key_less(
            out@[i].key,
            out@[j].key,
        ) && out@[i].longitude_tenths <= out@[j].longitude_tenths by {
            assert(key_less(grid_dict@[i].key, grid_dict@[j].key));
            assert(out@[i] == summary_of(grid_dict@[i], grid_size as int));
            assert(out@[j] == summary_of(grid_dict@[j], grid_size as int));
            lemma_center_monotone(
                grid_dict@[i].key.lon_index as int,
                grid_dict@[j].key.lon_index as int,
                grid_size as int,
            );
        }
    }
    Ok(out)
}

} // verus!
