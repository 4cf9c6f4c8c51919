//! Observations, and how they are read from delimited text.
//!
//! Each record has three fields, in order: longitude and latitude in decimal
//! degrees, written in plain decimal notation (no exponent), and the height
//! as an integer. There is no header row.
use vstd::prelude::*;
use crate::decimal::{fixed_result, integer_result, parse_fixed, parse_integer, NumberError};

verus! {

/// The number of records read by default, over all inputs together.
pub const MAX_RECORDS: usize = 10_000_000;

/// One observation: a point in fixed-point degrees (units of `1 / SCALE`)
/// and the height measured there.
#[derive(Debug, Clone, Copy, PartialEq, Eq, Structural)]
pub struct ReadRecord {
    pub longitude: i64,
    pub latitude: i64,
    pub height: i64,
}

/// A field of a record.
#[derive(Debug, Clone, Copy, PartialEq, Eq, Structural)]
pub enum Column {
    Longitude,
    Latitude,
    Height,
}

/// A record that does not hold an observation. `row` counts the records of
/// one input from zero.
#[derive(Debug, Clone, Copy, PartialEq, Eq, Structural)]
pub enum RecordError {
    /// The record does not have exactly three fields.
    WrongFieldCount { row: usize, found: usize },
    /// A field is not a number of the expected kind.
    BadField { row: usize, column: Column, error: NumberError },
}

/// Why the inputs could not be read. `file` is the position of the input.
#[derive(Debug)]
pub enum ReadError {
    /// The text is not well-formed delimited text.
    Csv { file: usize, source: csv::Error },
    /// A record does not hold an observation.
    Record { file: usize, error: RecordError },
}

#[verifier::external_type_specification]
#[verifier::external_body]
pub struct ExCsvError(csv::Error);

/// The fields of each record that csv reads from `data`, taking no header
/// row; `None` where csv reports an error.
pub uninterp spec fn csv_fields(data: Seq<u8>) -> Option<Seq<Seq<Seq<u8>>>>;

pub open spec fn fields_view(fields: Seq<Vec<u8>>) -> Seq<Seq<u8>> {
    Seq::new(fields.len(), |j: int| fields[j]@)
}

pub open spec fn rows_view(rows: Seq<Vec<Vec<u8>>>) -> Seq<Seq<Seq<u8>>> {
    Seq::new(rows.len(), |i: int| fields_view(rows[i]@))
}

/// Relies on csv's `ReaderBuilder` (with `has_headers(false)`) and
/// `Reader::byte_records`: the fields of every record of `data`, or the first
/// error that csv reports.
#[verifier::external_body]
fn csv_byte_records(data: &[u8]) -> (r: Result<Vec<Vec<Vec<u8>>>, csv::Error>)
    ensures
        match r {
            Ok(rows) => csv_fields(data@) == Some(rows_view(rows@)),
            Err(_) => csv_fields(data@) is None,
        },
{
    let mut reader = csv::ReaderBuilder::new().has_headers(false).from_reader(data);
    let mut rows = Vec::new();
    for record in reader.byte_records() {
        rows.push(record?.iter().map(|field| field.to_vec()).collect());
    }
    Ok(rows)
}

/// The observation that the fields of record `row` hold.
pub open spec fn record_of(fields: Seq<Seq<u8>>, row: nat) -> Result<ReadRecord, RecordError> {
    if fields.len() != 3 {
        Err(RecordError::WrongFieldCount { row: row as usize, found: fields.len() as usize })
    } else {
        match fixed_result(fields[0]) {
            Err(e) => Err(
                RecordError::BadField { row: row as usize, column: Column::Longitude, error: e },
            ),
            Ok(longitude) => match fixed_result(fields[1]) {
                Err(e) => Err(
                    RecordError::BadField { row: row as usize, column: Column::Latitude, error: e },
                ),
                Ok(latitude) => match integer_result(fields[2]) {
                    Err(e) => Err(
                        RecordError::BadField {
                            row: row as usize,
                            column: Column::Height,
                            error: e,
                        },
                    ),
                    Ok(height) => Ok(ReadRecord { longitude, latitude, height }),
                },
            },
        }
    }
}

/// The observations of all `rows`, or the error of the first row without one.
pub open spec fn records_of_rows(rows: Seq<Seq<Seq<u8>>>) -> Result<Seq<ReadRecord>, RecordError>
    decreases rows.len(),
{
    if rows.len() == 0 {
        Ok(Seq::empty())
    } else {
        match records_of_rows(rows.drop_last()) {
            Err(e) => Err(e),
            Ok(v) => match record_of(rows.last(), (rows.len() - 1) as nat) {
                Err(e) => Err(e),
                Ok(r) => Ok(v.push(r)),
            },
        }
    }
}

/// What reading `files` in order gives, keeping at most `cap` observations in
/// all: the observations, or the position of the first input that fails and,
/// where a record is at fault, its error.
pub open spec fn records_of_files(files: Seq<Seq<u8>>, cap: nat) -> Result<
    Seq<ReadRecord>,
    (nat, Option<RecordError>),
>
    decreases files.len(),
{
    if files.len() == 0 {
        Ok(Seq::empty())
    } else {
        let last = (files.len() - 1) as nat;
        match records_of_files(files.drop_last(), cap) {
            Err(e) => Err(e),
            Ok(prev) => match csv_fields(files.last()) {
                None => Err((last, None)),
                Some(rows) => {
                    let room = if prev.len() >= cap {
                        0
                    } else {
                        cap - prev.len()
                    };
                    let kept = if rows.len() <= room {
                        rows.len() as int
                    } else {
                        room as int
                    };
                    match records_of_rows(rows.take(kept)) {
                        Err(e) => Err((last, Some(e))),
                        Ok(v) => Ok(prev + v),
                    }
                },
            },
        }
    }
}

/// Number of records that csv finds in all of `files`.
pub open spec fn total_rows(files: Seq<Seq<u8>>) -> int
    decreases files.len(),
{
    if files.len() == 0 {
        0
    } else {
        match csv_fields(files.last()) {
            Some(rows) => total_rows(files.drop_last()) + rows.len(),
            None => total_rows(files.drop_last()),
        }
    }
}

/// Observations read from rows are one per row.
proof fn lemma_records_of_rows_len(rows: Seq<Seq<Seq<u8>>>)
    requires
        records_of_rows(rows) is Ok,
    ensures
        records_of_rows(rows)->Ok_0.len() == rows.len(),
    decreases rows.len(),
{
    if rows.len() > 0 {
        lemma_records_of_rows_len(rows.drop_last());
    }
}

/// Reads the observation in the fields of record `row`.
pub fn parse_record(fields: &Vec<Vec<u8>>, row: usize) -> (r: Result<ReadRecord, RecordError>)
    ensures
        r == record_of(fields_view(fields@), row as nat),
{
    if fields.len() != 3 {
        return Err(RecordError::WrongFieldCount { row, found: fields.len() });
    }
    let longitude = match parse_fixed(fields[0].as_slice()) {
        Ok(v) => v,
        Err(error) => return Err(RecordError::BadField { row, column: Column::Longitude, error }),
    };
    let latitude = match parse_fixed(fields[1].as_slice()) {
        Ok(v) => v,
        Err(error) => return Err(RecordError::BadField { row, column: Column::Latitude, error }),
    };
    let height = match parse_integer(fields[2].as_slice()) {
        Ok(v) => v,
        Err(error) => return Err(RecordError::BadField { row, column: Column::Height, error }),
    };
    Ok(ReadRecord { longitude, latitude, height })
}

pub(crate) proof fn lemma_take_step<T>(s: Seq<T>, n: int)
    requires
        0 <= n < s.len(),
    ensures
        s.take(n + 1).drop_last() == s.take(n),
        s.take(n + 1).last() == s[n],
{
    assert(s.take(n + 1).drop_last() =~= s.take(n));
}

/// Reads the observations of each input in turn (the bytes of a file) and
/// keeps the first `max_records` of them over all inputs, so that it keeps
/// as many as there are records, up to `max_records`. Records past those are
/// not read as observations, but csv still reads them: an input that is not
/// well-formed delimited text past that point fails all the same.
pub fn read_using_csv(files: &Vec<Vec<u8>>, max_records: usize) -> (r: Result<
    Vec<ReadRecord>,
    ReadError,
>)
    ensures
        match r {
            Ok(v) => records_of_files(files@.map_values(|f: Vec<u8>| f@), max_records as nat)
                == Ok::<Seq<ReadRecord>, (nat, Option<RecordError>)>(v@),
            Err(ReadError::Csv { file, .. }) => records_of_files(
                files@.map_values(|f: Vec<u8>| f@),
                max_records as nat,
            ) == Err::<Seq<ReadRecord>, (nat, Option<RecordError>)>((file as nat, None)),
            Err(ReadError::Record { file, error }) => records_of_files(
                files@.map_values(|f: Vec<u8>| f@),
                max_records as nat,
            ) == Err::<Seq<ReadRecord>, (nat, Option<RecordError>)>((file as nat, Some(error))),
        },
        r matches Ok(v) ==> v@.len() == if total_rows(files@.map_values(|f: Vec<u8>| f@))
            <= max_records {
            total_rows(files@.map_values(|f: Vec<u8>| f@))
        } else {
            max_records as int
        },
{
    let ghost inputs = files@.map_values(|f: Vec<u8>| f@);
    let mut out: Vec<ReadRecord> = Vec::new();
    let mut i: usize = 0;
    proof {
        assert(inputs.take(0) =~= Seq::<Seq<u8>>::empty());
    }
    while i < files.len()
        invariant
            i <= files@.len(),
            inputs == files@.map_values(|f: Vec<u8>| f@),
            records_of_files(inputs.take(i as int), max_records as nat) == Ok::<
                Seq<ReadRecord>,
                (nat, Option<RecordError>),
            >(out@),
            out@.len() <= max_records,
            out@.len() == if total_rows(inputs.take(i as int)) <= max_records {
                total_rows(inputs.take(i as int))
            } else {
                max_records as int
            },
        decreases files@.len() - i,
    {
        proof {
            lemma_take_step(inputs, i as int);
        }
        let rows = match csv_byte_records(files[i].as_slice()) {
            Ok(rows) => rows,
            Err(error) => {
                proof {
                    lemma_files_error_persists(inputs, i + 1, max_records as nat);
                    assert(inputs.take(inputs.len() as int) =~= inputs);
                }
                return Err(ReadError::Csv { file: i, source: error });
            },
        };
        let ghost rv = rows_view(rows@);
        let room = max_records - out.len();
        let kept = if rows.len() <= room {
            rows.len()
        } else {
            room
        };
        let mut file_records: Vec<ReadRecord> = Vec::new();
        let mut j: usize = 0;
        proof {
            assert(rv.take(0) =~= Seq::<Seq<Seq<u8>>>::empty());
        }
        while j < kept
            invariant
                i < files@.len(),
                inputs == files@.map_values(|f: Vec<u8>| f@),
                records_of_files(inputs.take(i as int), max_records as nat) == Ok::<
                    Seq<ReadRecord>,
                    (nat, Option<RecordError>),
                >(out@),
                out@.len() <= max_records,
                csv_fields(inputs[i as int]) == Some(rv),
                room == max_records - out@.len(),
                kept == if rows@.len() <= room {
                    rows@.len() as int
                } else {
                    room as int
                },
                j <= kept <= rows@.len(),
                rv == rows_view(rows@),
                records_of_rows(rv.take(j as int)) == Ok::<Seq<ReadRecord>, RecordError>(
                    file_records@,
                ),
                file_records@.len() == j,
            decreases kept - j,
        {
            proof {
                lemma_take_step(rv, j as int);
            }
            match parse_record(&rows[j], j) {
                Ok(record) => file_records.push(record),
                Err(error) => {
                    proof {
                        assert(records_of_rows(rv.take(kept as int).take(j + 1)) == Err::<
                            Seq<ReadRecord>,
                            RecordError,
                        >(error)) by {
                            assert(rv.take(kept as int).take(j + 1) =~= rv.take(j + 1));
                        }
                        lemma_rows_error_persists(rv.take(kept as int), j + 1);
                        assert(rv.take(kept as int).take(kept as int) =~= rv.take(kept as int));
                        lemma_take_step(inputs, i as int);
                        assert(rv.len() == rows@.len());
                        assert(records_of_rows(rv.take(kept as int)) == Err::<
                            Seq<ReadRecord>,
                            RecordError,
                        >(error));
                        assert(records_of_files(inputs.take(i + 1), max_records as nat) == Err::<
                            Seq<ReadRecord>,
                            (nat, Option<RecordError>),
                        >((i as nat, Some(error))));
                        lemma_files_error_persists(inputs, i + 1, max_records as nat);
                        assert(inputs.take(inputs.len() as int) =~= inputs);
                    }
                    return Err(ReadError::Record { file: i, error });
                },
            }
            j = j + 1;
        }
        proof {
            assert(rv.take(kept as int) == rv.take(j as int));
            lemma_take_step(inputs, i as int);
            assert(rv.len() == rows@.len());
            lemma_records_of_rows_len(rv.take(kept as int));
        }
        out.append(&mut file_records);
        i = i + 1;
    }
    proof {
        assert(inputs.take(i as int) =~= inputs);
    }
    Ok(out)
}

/// Once a prefix of the inputs fails, every longer prefix fails the same way.
proof fn lemma_files_error_persists(files: Seq<Seq<u8>>, n: int, cap: nat)
    requires
        0 <= n <= files.len(),
        records_of_files(files.take(n), cap) is Err,
    ensures
        records_of_files(files.take(files.len() as int), cap) == records_of_files(files.take(n), cap),
    decreases files.len() - n,
{
    if n < files.len() {
        lemma_take_step(files, n);
        lemma_files_error_persists(files, n + 1, cap);
    }
}

/// Once a prefix of the rows fails, every longer prefix fails the same way.
proof fn lemma_rows_error_persists(rows: Seq<Seq<Seq<u8>>>, n: int)
    requires
        0 <= n <= rows.len(),
        records_of_rows(rows.take(n)) is Err,
    ensures
        records_of_rows(rows.take(rows.len() as int)) == records_of_rows(rows.take(n)),
    decreases rows.len() - n,
{
    if n < rows.len() {
        lemma_take_step(rows, n);
        lemma_rows_error_persists(rows, n + 1);
    }
}

} // verus!
