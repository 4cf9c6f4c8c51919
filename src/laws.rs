//! Properties of the whole computation that relate several runs.
use vstd::prelude::*;
use crate::grid::{key_less, CellKey};
use crate::histogram::{
    cell_heights, is_histogram, keys_sorted, lemma_heights_have_record, record_key, GridCell,
};
use crate::pipeline::summaries_of;
use crate::reads::ReadRecord;
use crate::stats::{sum_of, sum_of_squares, sums_fit};

verus! {

/// What the records of cell `k` add up to: their number, the sum of their
/// heights and the sum of their squared heights.
pub open spec fn tally(records: Seq<ReadRecord>, grid_size: int, k: CellKey) -> (int, int, int) {
    let h = cell_heights(records, grid_size, k);
    (h.len() as int, sum_of(h), sum_of_squares(h))
}

/// What one record adds to the tally of cell `k`.
pub open spec fn contribution(r: ReadRecord, grid_size: int, k: CellKey) -> (int, int, int) {
    if record_key(r, grid_size) == k {
        (1, r.height as int, r.height * r.height)
    } else {
        (0, 0, 0)
    }
}

pub open spec fn plus(a: (int, int, int), b: (int, int, int)) -> (int, int, int) {
    (a.0 + b.0, a.1 + b.1, a.2 + b.2)
}

proof fn lemma_tally_push(s: Seq<ReadRecord>, r: ReadRecord, grid_size: int, k: CellKey)
    ensures
        tally(s.push(r), grid_size, k) == plus(tally(s, grid_size, k), contribution(r, grid_size, k)),
{
    assert(s.push(r).drop_last() =~= s);
    let h = cell_heights(s, grid_size, k);
    assert(h.push(r.height).drop_last() =~= h);
}

proof fn lemma_tally_remove(s: Seq<ReadRecord>, j: int, grid_size: int, k: CellKey)
    requires
        0 <= j < s.len(),
    ensures
        tally(s, grid_size, k) == plus(
            tally(s.remove(j), grid_size, k),
            contribution(s[j], grid_size, k),
        ),
    decreases s.len(),
{
    let t = s.drop_last();
    assert(t.push(s.last()) =~= s);
    if j == s.len() - 1 {
        assert(s.remove(j) =~= t);
        lemma_tally_push(t, s.last(), grid_size, k);
    } else {
        lemma_tally_remove(t, j, grid_size, k);
        assert(s.remove(j) =~= t.remove(j).push(s.last()));
        lemma_tally_push(t.remove(j), s.last(), grid_size, k);
        lemma_tally_push(t, s.last(), grid_size, k);
    }
}

/// The tally of a cell depends only on which records there are, not on their
/// order.
proof fn lemma_tally_permutation(
    a: Seq<ReadRecord>,
    b: Seq<ReadRecord>,
    grid_size: int,
    k: CellKey,
)
    requires
        a.to_multiset() == b.to_multiset(),
    ensures
        tally(a, grid_size, k) == tally(b, grid_size, k),
    decreases a.len(),
{
    broadcast use vstd::multiset::group_multiset_axioms;

    vstd::seq_lib::to_multiset_len(a);
    vstd::seq_lib::to_multiset_len(b);
    if a.len() == 0 {
        assert(b =~= a);
    } else {
        let x = a.last();
        let t = a.drop_last();
        assert(t.push(x) =~= a);
        vstd::seq_lib::to_multiset_build(t, x);
        vstd::seq_lib::to_multiset_contains(b, x);
        assert(b.to_multiset().count(x) > 0);
        let j = choose|j: int| 0 <= j < b.len() && b[j] == x;
        vstd::seq_lib::to_multiset_remove(b, j);
        assert(b.remove(j).to_multiset() =~= t.to_multiset());
        lemma_tally_permutation(t, b.remove(j), grid_size, k);
        lemma_tally_push(t, x, grid_size, k);
        lemma_tally_remove(b, j, grid_size, k);
    }
}

proof fn lemma_heights_push(s: Seq<ReadRecord>, r: ReadRecord, grid_size: int, k: CellKey)
    ensures
        cell_heights(s.push(r), grid_size, k).to_multiset() == if record_key(r, grid_size) == k {
            cell_heights(s, grid_size, k).to_multiset().insert(r.height)
        } else {
            cell_heights(s, grid_size, k).to_multiset()
        },
{
    assert(s.push(r).drop_last() =~= s);
    if record_key(r, grid_size) == k {
        vstd::seq_lib::to_multiset_build(cell_heights(s, grid_size, k), r.height);
    }
}

proof fn lemma_heights_remove(s: Seq<ReadRecord>, j: int, grid_size: int, k: CellKey)
    requires
        0 <= j < s.len(),
    ensures
        cell_heights(s, grid_size, k).to_multiset() == if record_key(s[j], grid_size) == k {
            cell_heights(s.remove(j), grid_size, k).to_multiset().insert(s[j].height)
        } else {
            cell_heights(s.remove(j), grid_size, k).to_multiset()
        },
    decreases s.len(),
{
    broadcast use vstd::multiset::group_multiset_axioms;

    let t = s.drop_last();
    assert(t.push(s.last()) =~= s);
    if j == s.len() - 1 {
        assert(s.remove(j) =~= t);
        lemma_heights_push(t, s.last(), grid_size, k);
    } else {
        lemma_heights_remove(t, j, grid_size, k);
        assert(s.remove(j) =~= t.remove(j).push(s.last()));
        lemma_heights_push(t.remove(j), s.last(), grid_size, k);
        lemma_heights_push(t, s.last(), grid_size, k);
        let m = cell_heights(t.remove(j), grid_size, k).to_multiset();
        assert(m.insert(s[j].height).insert(s.last().height) =~= m.insert(s.last().height).insert(
            s[j].height,
        ));
    }
}

/// The heights of a cell are the same multiset, whatever the order of the
/// records.
proof fn lemma_heights_permutation(
    a: Seq<ReadRecord>,
    b: Seq<ReadRecord>,
    grid_size: int,
    k: CellKey,
)
    requires
        a.to_multiset() == b.to_multiset(),
    ensures
        cell_heights(a, grid_size, k).to_multiset() == cell_heights(b, grid_size, k).to_multiset(),
    decreases a.len(),
{
    broadcast use vstd::multiset::group_multiset_axioms;

    vstd::seq_lib::to_multiset_len(a);
    vstd::seq_lib::to_multiset_len(b);
    if a.len() == 0 {
        assert(b =~= a);
    } else {
        let x = a.last();
        let t = a.drop_last();
        assert(t.push(x) =~= a);
        vstd::seq_lib::to_multiset_build(t, x);
        vstd::seq_lib::to_multiset_contains(b, x);
        assert(b.to_multiset().count(x) > 0);
        let j = choose|j: int| 0 <= j < b.len() && b[j] == x;
        vstd::seq_lib::to_multiset_remove(b, j);
        assert(b.remove(j).to_multiset() =~= t.to_multiset());
        lemma_heights_permutation(t, b.remove(j), grid_size, k);
        lemma_heights_push(t, x, grid_size, k);
        lemma_heights_remove(b, j, grid_size, k);
    }
}

/// Some cell has key `k`.
pub open spec fn has_key(cells: Seq<GridCell>, k: CellKey) -> bool {
    exists|i: int| 0 <= i < cells.len() && cells[i].key == k
}

/// A histogram has a cell for key `k` exactly when some record falls in it.
proof fn lemma_histogram_keys(
    cells: Seq<GridCell>,
    records: Seq<ReadRecord>,
    grid_size: int,
    k: CellKey,
)
    requires
        is_histogram(cells, records, grid_size),
    ensures
        has_key(cells, k) <==> cell_heights(
            records,
            grid_size,
            k,
        ).len() > 0,
{
    if has_key(cells, k) {
        let i = choose|i: int| 0 <= i < cells.len() && cells[i].key == k;
        assert(cells[i].data.wf());
    }
    if cell_heights(records, grid_size, k).len() > 0 {
        lemma_heights_have_record(records, grid_size, k);
        let n = choose|n: int| 0 <= n < records.len() && record_key(records[n], grid_size) == k;
        assert(exists|i: int|
            0 <= i < cells.len() && cells[i].key == record_key(records[n], grid_size));
    }
}

/// Two lists of cells in strictly increasing key order, with the same keys,
/// agree position by position below `i`.
proof fn lemma_same_keys_below(a: Seq<GridCell>, b: Seq<GridCell>, i: int)
    requires
        keys_sorted(a),
        keys_sorted(b),
        forall|k: CellKey| has_key(a, k) <==> #[trigger] has_key(b, k),
        0 <= i <= a.len(),
        i <= b.len(),
    ensures
        forall|m: int| 0 <= m < i ==> a[m].key == b[m].key,
    decreases i,
{
    if i > 0 {
        let p = i - 1;
        lemma_same_keys_below(a, b, p);
        let x = a[p].key;
        let y = b[p].key;
        assert(has_key(a, x));
        assert(has_key(b, x));
        let m = choose|m: int| 0 <= m < b.len() && b[m].key == x;
        assert(has_key(b, y));
        assert(has_key(a, y));
        let q = choose|q: int| 0 <= q < a.len() && a[q].key == y;
        if m < p {
            assert(key_less(a[m].key, a[p].key));
        }
        if q < p {
            assert(key_less(b[q].key, b[p].key));
        }
        if m > p {
            assert(key_less(b[p].key, b[m].key));
            if q > p {
                assert(key_less(a[p].key, a[q].key));
            }
        }
    }
}

proof fn lemma_same_keys(a: Seq<GridCell>, b: Seq<GridCell>)
    requires
        keys_sorted(a),
        keys_sorted(b),
        forall|k: CellKey| has_key(a, k) <==> #[trigger] has_key(b, k),
    ensures
        a.len() == b.len(),
        forall|m: int| 0 <= m < a.len() ==> a[m].key == b[m].key,
{
    if a.len() < b.len() {
        lemma_same_keys_below(a, b, a.len() as int);
        let x = b[a.len() as int].key;
        assert(has_key(b, x));
        assert(has_key(a, x));
        let m = choose|m: int| 0 <= m < a.len() && a[m].key == x;
        assert(key_less(b[m].key, b[a.len() as int].key));
    } else if b.len() < a.len() {
        lemma_same_keys_below(a, b, b.len() as int);
        let x = a[b.len() as int].key;
        assert(has_key(a, x));
        assert(has_key(b, x));
        let m = choose|m: int| 0 <= m < b.len() && b[m].key == x;
        assert(key_less(a[m].key, a[b.len() as int].key));
    } else {
        lemma_same_keys_below(a, b, a.len() as int);
    }
}

/// Order independence: the histograms of two lists of records that hold the
/// same records, in any order, have the same cells in the same order, with the
/// same counts and the same heights (in input order, so possibly rearranged);
/// the sums of both fit alike, and both give the same summaries.
pub proof fn lemma_order_independent(
    a: Seq<ReadRecord>,
    b: Seq<ReadRecord>,
    grid_size: int,
    cells_a: Seq<GridCell>,
    cells_b: Seq<GridCell>,
)
    requires
        a.to_multiset() == b.to_multiset(),
        is_histogram(cells_a, a, grid_size),
        is_histogram(cells_b, b, grid_size),
    ensures
        cells_a.len() == cells_b.len(),
        forall|i: int|
            #![trigger cells_a[i]]
            0 <= i < cells_a.len() ==> {
                &&& cells_a[i].key == cells_b[i].key
                &&& cells_a[i].data.counts == cells_b[i].data.counts
                &&& cells_a[i].data.heights@.to_multiset() == cells_b[i].data.heights@.to_multiset()
            },
        (forall|i: int| 0 <= i < cells_a.len() ==> sums_fit(#[trigger] cells_a[i])) <==> (forall|
            i: int,
        |
            0 <= i < cells_b.len() ==> sums_fit(#[trigger] cells_b[i])),
        summaries_of(cells_a, grid_size) == summaries_of(cells_b, grid_size),
{
    assert forall|k: CellKey| has_key(cells_a, k) <==> #[trigger] has_key(cells_b, k) by {
        lemma_histogram_keys(cells_a, a, grid_size, k);
        lemma_histogram_keys(cells_b, b, grid_size, k);
        lemma_tally_permutation(a, b, grid_size, k);
    }
    lemma_same_keys(cells_a, cells_b);
    assert forall|i: int| 0 <= i < cells_a.len() implies #[trigger] summaries_of(
        cells_a,
        grid_size,
    )[i] == summaries_of(cells_b, grid_size)[i] by {
        lemma_tally_permutation(a, b, grid_size, cells_a[i].key);
        assert(cells_a[i].data.wf());
        assert(cells_b[i].data.wf());
    }
    assert forall|i: int| 0 <= i < cells_a.len() implies {
        &&& #[trigger] cells_a[i].key == cells_b[i].key
        &&& cells_a[i].data.counts == cells_b[i].data.counts
        &&& cells_a[i].data.heights@.to_multiset() == cells_b[i].data.heights@.to_multiset()
    } by {
        lemma_tally_permutation(a, b, grid_size, cells_a[i].key);
        lemma_heights_permutation(a, b, grid_size, cells_a[i].key);
        assert(cells_a[i].data.wf());
        assert(cells_b[i].data.wf());
    }
    assert forall|i: int| 0 <= i < cells_a.len() implies sums_fit(#[trigger] cells_a[i])
        == sums_fit(cells_b[i]) by {
        lemma_tally_permutation(a, b, grid_size, cells_a[i].key);
    }
    assert(summaries_of(cells_a, grid_size) =~= summaries_of(cells_b, grid_size));
}

/// Idempotence: any two histograms of the same records give the same
/// summaries, so running the computation twice gives the same result.
pub proof fn lemma_deterministic(
    records: Seq<ReadRecord>,
    grid_size: int,
    cells_a: Seq<GridCell>,
    cells_b: Seq<GridCell>,
)
    requires
        is_histogram(cells_a, records, grid_size),
        is_histogram(cells_b, records, grid_size),
    ensures
        summaries_of(cells_a, grid_size) == summaries_of(cells_b, grid_size),
{
    lemma_order_independent(records, records, grid_size, cells_a, cells_b);
}

} // verus!
