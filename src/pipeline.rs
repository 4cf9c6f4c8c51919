//! The whole computation: from the bytes of the inputs to one summary per
//! grid cell.
use vstd::prelude::*;
use crate::grid::ConfigurationError;
use crate::histogram::{
    cell_heights, generate_histograms, is_histogram, lemma_heights_have_record, record_key,
    total_counts, GridCell,
};
use crate::reads::{read_using_csv, records_of_files, ReadError, ReadRecord};
use crate::stats::{
    calc_stats, sum_of_squares, summary_of, sums_fit, total_summary_counts, CellSummary, StatsError,
};

verus! {

/// Why the computation failed.
#[derive(Debug)]
pub enum GridStatsError {
    Configuration(ConfigurationError),
    Read(ReadError),
    Stats(StatsError),
}

/// The summaries of `cells`, in order.
pub open spec fn summaries_of(cells: Seq<GridCell>, grid_size: int) -> Seq<CellSummary> {
    Seq::new(cells.len(), |i: int| summary_of(cells[i], grid_size))
}

/// Every cell that some record falls in has a sum of squared heights that
/// fits in an `i64`.
pub open spec fn all_sums_fit(records: Seq<ReadRecord>, grid_size: int) -> bool {
    forall|n: int|
        0 <= n < records.len() ==> sum_of_squares(
            cell_heights(records, grid_size, record_key(#[trigger] records[n], grid_size)),
        ) <= i64::MAX
}

proof fn lemma_sums_fit(cells: Seq<GridCell>, records: Seq<ReadRecord>, grid_size: int)
    requires
        is_histogram(cells, records, grid_size),
    ensures
        (forall|i: int| 0 <= i < cells.len() ==> sums_fit(#[trigger] cells[i])) <==> all_sums_fit(
            records,
            grid_size,
        ),
{
    if forall|i: int| 0 <= i < cells.len() ==> sums_fit(#[trigger] cells[i]) {
        assert forall|n: int| 0 <= n < records.len() implies sum_of_squares(
            cell_heights(records, grid_size, record_key(#[trigger] records[n], grid_size)),
        ) <= i64::MAX by {
            let i = choose|i: int|
                0 <= i < cells.len() && cells[i].key == record_key(records[n], grid_size);
            assert(sums_fit(cells[i]));
        }
    }
    if all_sums_fit(records, grid_size) {
        assert forall|i: int| 0 <= i < cells.len() implies sums_fit(#[trigger] cells[i]) by {
            lemma_heights_have_record(records, grid_size, cells[i].key);
            let n = choose|n: int|
                0 <= n < records.len() && record_key(records[n], grid_size) == cells[i].key;
            assert(sum_of_squares(
                cell_heights(records, grid_size, record_key(records[n], grid_size)),
            ) <= i64::MAX);
        }
    }
}

/// Reads the inputs (the bytes of each file), keeps their first
/// `max_records` observations, bins them into cells of `grid_size`
/// (fixed-point degrees) and summarises each cell, in increasing order of
/// longitude, then latitude. A grid size of zero or less is refused before
/// any input is read.
pub fn grid_statistics(files: &Vec<Vec<u8>>, grid_size: i64, max_records: usize) -> (r: Result<
    Vec<CellSummary>,
    GridStatsError,
>)
    ensures
        grid_size <= 0 ==> r matches Err(
            GridStatsError::Configuration(ConfigurationError::NonPositiveGridSize),
        ),
        grid_size > 0 ==> match records_of_files(
            files@.map_values(|f: Vec<u8>| f@),
            max_records as nat,
        ) {
            Err((file, None)) => r matches Err(
                GridStatsError::Read(ReadError::Csv { file: f, .. }),
            ) && f == file,
            Err((file, Some(e))) => r matches Err(
                GridStatsError::Read(ReadError::Record { file: f, error }),
            ) && f == file && error == e,
            Ok(records) => {
                &&& r is Ok <==> all_sums_fit(records, grid_size as int)
                &&& (r is Err ==> r matches Err(GridStatsError::Stats(StatsError::SumOverflow)))
                &&& (r matches Ok(out) ==> {
                    &&& exists|cells: Seq<GridCell>|
                        is_histogram(cells, records, grid_size as int) && out@ == summaries_of(
                            cells,
                            grid_size as int,
                        )
                    &&& total_summary_counts(out@) == records.len()
                })
            },
        },
{
    if grid_size <= 0 {
        return Err(GridStatsError::Configuration(ConfigurationError::NonPositiveGridSize));
    }
    let records = match read_using_csv(files, max_records) {
        Ok(v) => v,
        Err(e) => return Err(GridStatsError::Read(e)),
    };
    let cells = match generate_histograms(&records, grid_size) {
        Ok(c) => c,
        Err(e) => return Err(GridStatsError::Configuration(e)),
    };
    proof {
        lemma_sums_fit(cells@, records@, grid_size as int);
    }
    match calc_stats(&cells, grid_size) {
        Ok(out) => {
            proof {
                assert(out@ =~= summaries_of(cells@, grid_size as int));
            }
            Ok(out)
        },
        Err(e) => Err(GridStatsError::Stats(e)),
    }
}

} // verus!
