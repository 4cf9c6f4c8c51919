//! Binning observations into grid cells.
use vstd::prelude::*;
use crate::grid::{cell_key, key_less, key_of, CellKey, ConfigurationError};
use crate::reads::{lemma_take_step, ReadRecord};

verus! {

/// The heights binned into one grid cell, in input order, and their number.
#[derive(Debug, Clone, PartialEq)]
pub struct HeightData {
    pub counts: u64,
    pub heights: Vec<i64>,
}

impl HeightData {
    /// The count agrees with the heights, and there is at least one.
    pub open spec fn wf(&self) -> bool {
        self.counts == self.heights@.len() && self.heights@.len() > 0
    }
}

/// A grid cell and the observations binned into it.
#[derive(Debug, Clone)]
pub struct GridCell {
    pub key: CellKey,
    pub data: HeightData,
}

/// The cell of a record.
pub open spec fn record_key(r: ReadRecord, grid_size: int) -> CellKey {
    key_of(r.longitude as int, r.latitude as int, grid_size)
}

/// Heights of the records that fall in cell `k`, in input order.
pub open spec fn cell_heights(records: Seq<ReadRecord>, grid_size: int, k: CellKey) -> Seq<i64>
    decreases records.len(),
{
    if records.len() == 0 {
        Seq::empty()
    } else {
        let rest = cell_heights(records.drop_last(), grid_size, k);
        if record_key(records.last(), grid_size) == k {
            rest.push(records.last().height)
        } else {
            rest
        }
    }
}

/// Cells in strictly increasing key order.
pub open spec fn keys_sorted(cells: Seq<GridCell>) -> bool {
    forall|i: int, j: int| 0 <= i < j < cells.len() ==> key_less(cells[i].key, cells[j].key)
}

/// `cells` is the histogram of `records`: one cell for each key that some
/// record falls in, in increasing key order, each holding that key's heights.
pub open spec fn is_histogram(cells: Seq<GridCell>, records: Seq<ReadRecord>, grid_size: int) -> bool {
    &&& keys_sorted(cells)
    &&& forall|i: int|
        #![trigger cells[i]]
        0 <= i < cells.len() ==> {
            &&& cells[i].data.heights@ == cell_heights(records, grid_size, cells[i].key)
            &&& cells[i].data.wf()
        }
    &&& forall|n: int|
        0 <= n < records.len() ==> exists|i: int|
            0 <= i < cells.len() && cells[i].key == record_key(#[trigger] records[n], grid_size)
}

/// Sum of the counts of all cells.
pub open spec fn total_counts(cells: Seq<GridCell>) -> int
    decreases cells.len(),
{
    if cells.len() == 0 {
        0
    } else {
        total_counts(cells.drop_last()) + cells.last().data.counts
    }
}

proof fn lemma_total_counts_update(cells: Seq<GridCell>, i: int, c: GridCell)
    requires
        0 <= i < cells.len(),
    ensures
        total_counts(cells.update(i, c)) == total_counts(cells) - cells[i].data.counts
            + c.data.counts,
    decreases cells.len(),
{
    let u = cells.update(i, c);
    if i < cells.len() - 1 {
        assert(u.drop_last() =~= cells.drop_last().update(i, c));
        lemma_total_counts_update(cells.drop_last(), i, c);
    } else {
        assert(u.drop_last() =~= cells.drop_last());
    }
}

proof fn lemma_total_counts_insert(cells: Seq<GridCell>, i: int, c: GridCell)
    requires
        0 <= i <= cells.len(),
    ensures
        total_counts(cells.insert(i, c)) == total_counts(cells) + c.data.counts,
    decreases cells.len(),
{
    let u = cells.insert(i, c);
    if i < cells.len() {
        assert(u.drop_last() =~= cells.drop_last().insert(i, c));
        lemma_total_counts_insert(cells.drop_last(), i, c);
    } else {
        assert(u.drop_last() =~= cells);
    }
}

proof fn lemma_cell_heights_len(records: Seq<ReadRecord>, grid_size: int, k: CellKey)
    ensures
        cell_heights(records, grid_size, k).len() <= records.len(),
    decreases records.len(),
{
    if records.len() > 0 {
        lemma_cell_heights_len(records.drop_last(), grid_size, k);
    }
}

fn key_lt(a: &CellKey, b: &CellKey) -> (r: bool)
    ensures
        r == key_less(*a, *b),
{
    a.lon_index < b.lon_index || (a.lon_index == b.lon_index && a.lat_index < b.lat_index)
}

/// Where `key` stands among sorted cells: `Ok` with its index, or `Err` with
/// the index at which it would be inserted.
fn find_cell(cells: &Vec<GridCell>, key: &CellKey) -> (r: Result<usize, usize>)
    requires
        keys_sorted(cells@),
    ensures
        match r {
            Ok(i) => i < cells@.len() && cells@[i as int].key == *key,
            Err(i) => i <= cells@.len() && (forall|j: int|
                0 <= j < i ==> key_less(#[trigger] cells@[j].key, *key)) && (forall|j: int|
                i <= j < cells@.len() ==> key_less(*key, #[trigger] cells@[j].key)),
        },
{
    let mut lo: usize = 0;
    let mut hi: usize = cells.len();
    while lo < hi
        invariant
            lo <= hi <= cells@.len(),
            keys_sorted(cells@),
            forall|j: int| 0 <= j < lo ==> key_less(#[trigger] cells@[j].key, *key),
            forall|j: int| hi <= j < cells@.len() ==> key_less(*key, #[trigger] cells@[j].key),
        decreases hi - lo,
    {
        let mid = lo + (hi - lo) / 2;
        if key_lt(&cells[mid].key, key) {
            proof {
                assert forall|j: int| 0 <= j < mid + 1 implies key_less(
                    #[trigger] cells@[j].key,
                    *key,
                ) by {
                    if j < mid {
                        assert(key_less(cells@[j].key, cells@[mid as int].key));
                    }
                }
            }
            lo = mid + 1;
        } else if key_lt(key, &cells[mid].key) {
            proof {
                assert forall|j: int| mid <= j < cells@.len() implies key_less(
                    *key,
                    #[trigger] cells@[j].key,
                ) by {
                    if j > mid {
                        assert(key_less(cells@[mid as int].key, cells@[j].key));
                    }
                }
            }
            hi = mid;
        } else {
            return Ok(mid);
        }
    }
    Err(lo)
}

/// Records one more height in a cell.
fn add_height(data: &mut HeightData, height: i64)
    requires
        old(data).counts < u64::MAX,
    ensures
        final(data).heights@ == old(data).heights@.push(height),
        final(data).counts == old(data).counts + 1,
{
    data.heights.push(height);
    data.counts = data.counts + 1;
}

/// Adds `height` to the cell of `key`, making the cell where there is none.
/// `records` are the records binned so far, the last being the one that
/// `key` and `height` come from.
fn upsert(
    cells: &mut Vec<GridCell>,
    key: CellKey,
    height: i64,
    records: Ghost<Seq<ReadRecord>>,
    grid_size: Ghost<int>,
)
    requires
        0 < records@.len() <= u64::MAX,
        record_key(records@.last(), grid_size@) == key,
        records@.last().height == height,
        is_histogram(old(cells)@, records@.drop_last(), grid_size@),
        total_counts(old(cells)@) == records@.len() - 1,
    ensures
        is_histogram(final(cells)@, records@, grid_size@),
        total_counts(final(cells)@) == records@.len(),
{
    let ghost after = records@;
    let ghost before = after.drop_last();
    let ghost n = before.len() as int;
    let ghost g = grid_size@;
    proof {
        assert forall|k: CellKey|
            #![auto]
            cell_heights(after, g, k) == if k == key {
                cell_heights(before, g, k).push(height)
            } else {
                cell_heights(before, g, k)
            } by {}
        assert forall|m: int| 0 <= m < n implies after[m] == before[m] by {}
    }
    match find_cell(cells, &key) {
        Ok(i) => {
            proof {
                lemma_cell_heights_len(before, g, key);
            }
            let ghost old_cells = cells@;
            add_height(&mut cells[i].data, height);
            proof {
                assert(cells@ == old_cells.update(i as int, cells@[i as int]));
                lemma_total_counts_update(old_cells, i as int, cells@[i as int]);
                assert forall|m: int| 0 <= m < after.len() implies exists|j: int|
                    0 <= j < cells@.len() && cells@[j].key == record_key(
                        #[trigger] after[m],
                        g,
                    ) by {
                    if m < n {
                        assert(after[m] == before[m]);
                        let j = choose|j: int|
                            0 <= j < old_cells.len() && old_cells[j].key == record_key(
                                before[m],
                                g,
                            );
                        assert(cells@[j].key == old_cells[j].key);
                    } else {
                        assert(cells@[i as int].key == key);
                    }
                }
                assert(keys_sorted(cells@)) by {
                    assert forall|a: int, b: int| 0 <= a < b < cells@.len() implies key_less(
                        cells@[a].key,
                        cells@[b].key,
                    ) by {
                        assert(cells@[a].key == old_cells[a].key);
                        assert(cells@[b].key == old_cells[b].key);
                    }
                }
                assert forall|j: int| #![trigger cells@[j]] 0 <= j < cells@.len() implies {
                    &&& cells@[j].data.heights@ == cell_heights(after, g, cells@[j].key)
                    &&& cells@[j].data.wf()
                } by {
                    if j != i {
                        assert(cells@[j] == old_cells[j]);
                        if j < i {
                            assert(key_less(old_cells[j].key, old_cells[i as int].key));
                        } else {
                            assert(key_less(old_cells[i as int].key, old_cells[j].key));
                        }
                    }
                }
            }
        },
        Err(i) => {
            let ghost old_cells = cells@;
            let cell = GridCell { key, data: HeightData { counts: 1, heights: vec![height] } };
            proof {
                assert(cell_heights(before, g, key).len() == 0) by {
                    if cell_heights(before, g, key).len() > 0 {
                        lemma_heights_have_record(before, g, key);
                        let m = choose|m: int|
                            0 <= m < before.len() && record_key(before[m], g) == key;
                        let j = choose|j: int|
                            0 <= j < old_cells.len() && old_cells[j].key == record_key(
                                before[m],
                                g,
                            );
                        assert(key_less(old_cells[j].key, key) || key_less(key, old_cells[j].key));
                    }
                }
                assert(cell.data.heights@ =~= cell_heights(after, g, key));
            }
            cells.insert(i, cell);
            proof {
                lemma_total_counts_insert(old_cells, i as int, cell);
                assert forall|m: int| 0 <= m < after.len() implies exists|j: int|
                    0 <= j < cells@.len() && cells@[j].key == record_key(
                        #[trigger] after[m],
                        g,
                    ) by {
                    if m < n {
                        assert(after[m] == before[m]);
                        let j = choose|j: int|
                            0 <= j < old_cells.len() && old_cells[j].key == record_key(
                                before[m],
                                g,
                            );
                        if j < i {
                            assert(cells@[j].key == old_cells[j].key);
                        } else {
                            assert(cells@[j + 1].key == old_cells[j].key);
                        }
                    } else {
                        assert(cells@[i as int].key == key);
                    }
                }
                assert(keys_sorted(cells@)) by {
                    assert forall|a: int, b: int| 0 <= a < b < cells@.len() implies key_less(
                        cells@[a].key,
                        cells@[b].key,
                    ) by {
                        if a < i && b < i {
                            assert(key_less(old_cells[a].key, old_cells[b].key));
                        } else if a < i && b == i {
                        } else if a < i {
                            assert(cells@[b].key == old_cells[b - 1].key);
                        } else if a == i {
                            assert(cells@[b].key == old_cells[b - 1].key);
                        } else {
                            assert(key_less(old_cells[a - 1].key, old_cells[b - 1].key));
                        }
                    }
                }
                assert forall|j: int| #![trigger cells@[j]] 0 <= j < cells@.len() implies {
                    &&& cells@[j].data.heights@ == cell_heights(after, g, cells@[j].key)
                    &&& cells@[j].data.wf()
                } by {
                    if j < i {
                        assert(cells@[j] == old_cells[j]);
                        assert(key_less(old_cells[j].key, key));
                    } else if j > i {
                        assert(cells@[j] == old_cells[j - 1]);
                        assert(key_less(key, old_cells[j - 1].key));
                    }
                }
            }
        },
    }
}

/// Bins the records into cells of `grid_size` (fixed-point degrees) on each
/// side. The cells come out in increasing key order, that is by longitude,
/// then latitude. A grid size of zero or less is refused before any record is
/// looked at.
pub fn generate_histograms(csv_records: &Vec<ReadRecord>, grid_size: i64) -> (r: Result<
    Vec<GridCell>,
    ConfigurationError,
>)
    ensures
        grid_size <= 0 ==> r == Err::<Vec<GridCell>, ConfigurationError>(
            ConfigurationError::NonPositiveGridSize,
        ),
        grid_size > 0 ==> r is Ok && is_histogram(r->Ok_0@, csv_records@, grid_size as int),
        r matches Ok(cells) ==> total_counts(cells@) == csv_records@.len(),
{
    if grid_size <= 0 {
        return Err(ConfigurationError::NonPositiveGridSize);
    }
    let ghost g = grid_size as int;
    let mut cells: Vec<GridCell> = Vec::new();
    let mut n: usize = 0;
    proof {
        assert(csv_records@.take(0) =~= Seq::<ReadRecord>::empty());
    }
    while n < csv_records.len()
        invariant
            grid_size > 0,
            g == grid_size as int,
            n <= csv_records@.len(),
            is_histogram(cells@, csv_records@.take(n as int), g),
            total_counts(cells@) == n,
        decreases csv_records@.len() - n,
    {
        let rec = csv_records[n];
        let key = match cell_key(rec.longitude, rec.latitude, grid_size) {
            Ok(k) => k,
            Err(e) => return Err(e),
        };
        proof {
            lemma_take_step(csv_records@, n as int);
        }
        upsert(&mut cells, key, rec.height, Ghost(csv_records@.take(n + 1)), Ghost(g));
        n = n + 1;
    }
    proof {
        assert(csv_records@.take(n as int) =~= csv_records@);
    }
    Ok(cells)
}

/// A cell with some heights has a record that falls in it.
pub(crate) proof fn lemma_heights_have_record(records: Seq<ReadRecord>, grid_size: int, k: CellKey)
    requires
        cell_heights(records, grid_size, k).len() > 0,
    ensures
        exists|m: int| 0 <= m < records.len() && record_key(records[m], grid_size) == k,
    decreases records.len(),
{
    let last = records.len() - 1;
    if record_key(records[last], grid_size) != k {
        lemma_heights_have_record(records.drop_last(), grid_size, k);
        let m = choose|m: int|
            0 <= m < records.drop_last().len() && record_key(records.drop_last()[m], grid_size)
                == k;
        assert(records[m] == records.drop_last()[m]);
    }
}

} // verus!
