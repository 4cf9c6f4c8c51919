use grid_stats::grid::{cell_center_tenths, cell_key, CellKey, ConfigurationError};
use grid_stats::histogram::{generate_histograms, GridCell, HeightData};
use grid_stats::pipeline::{grid_statistics, GridStatsError};
use grid_stats::reads::{read_using_csv, Column, ReadError, ReadRecord, RecordError};
use grid_stats::decimal::NumberError;
use grid_stats::stats::{calc_stats, CellSummary, StatsError};

const ONE_DEGREE: i64 = 1_000_000_000;

fn input(text: &str) -> Vec<Vec<u8>> {
    vec![text.as_bytes().to_vec()]
}

#[test]
fn scenario_two_cells() {
    let files = input("100.2,35.1,500\n100.3,35.9,700\n101.5,35.5,300\n");
    let out = grid_statistics(&files, ONE_DEGREE, 100).unwrap();
    assert_eq!(
        out,
        vec![
            CellSummary {
                key: CellKey { lon_index: 100, lat_index: 35 },
                longitude_tenths: 1005,
                latitude_tenths: 355,
                counts: 2,
                sum_heights: 1200,
                sum_squared_heights: 740000,
                variance_numerator: 40000,
            },
            CellSummary {
                key: CellKey { lon_index: 101, lat_index: 35 },
                longitude_tenths: 1015,
                latitude_tenths: 355,
                counts: 1,
                sum_heights: 300,
                sum_squared_heights: 90000,
                variance_numerator: 0,
            },
        ]
    );
    // Mean 600 and standard deviation sqrt(40000) / 2 = 100 in the first cell.
    assert_eq!(out[0].sum_heights / out[0].counts as i64, 600);
    assert_eq!(out[0].variance_numerator, 200 * 200);
}

#[test]
fn boundary_point_goes_to_the_upper_cell() {
    let key = cell_key(101_000_000_000, 35_000_000_000, ONE_DEGREE).unwrap();
    assert_eq!(key, CellKey { lon_index: 101, lat_index: 35 });
    assert_eq!(cell_center_tenths(key.lon_index, ONE_DEGREE), 1015);
    assert_eq!(cell_center_tenths(key.lat_index, ONE_DEGREE), 355);
}

#[test]
fn negative_coordinates_round_toward_minus_infinity() {
    let key = cell_key(-500_000_000, -1_000_000_000, ONE_DEGREE).unwrap();
    assert_eq!(key, CellKey { lon_index: -1, lat_index: -1 });
    assert_eq!(cell_center_tenths(-1, ONE_DEGREE), -5);
    assert_eq!(cell_center_tenths(-101, ONE_DEGREE), -1005);
}

#[test]
fn grid_size_as_wide_as_the_axis() {
    // A 360 degree grid puts every longitude from -180 up to 180 in one of two cells.
    let g = 360 * ONE_DEGREE;
    assert_eq!(cell_key(-180 * ONE_DEGREE, 0, g).unwrap().lon_index, -1);
    assert_eq!(cell_key(179 * ONE_DEGREE, 0, g).unwrap().lon_index, 0);
    assert_eq!(cell_center_tenths(0, g), 1800);
    assert_eq!(cell_center_tenths(-1, g), -1800);
}

#[test]
fn quarter_degree_centres() {
    let g = 250_000_000;
    assert_eq!(cell_center_tenths(400, g), 1001);
    assert_eq!(cell_center_tenths(401, g), 1004);
}

#[test]
fn zero_or_negative_grid_size_is_refused() {
    assert_eq!(cell_key(0, 0, 0), Err(ConfigurationError::NonPositiveGridSize));
    let records = vec![ReadRecord { longitude: 0, latitude: 0, height: 1 }];
    assert!(matches!(
        generate_histograms(&records, -ONE_DEGREE),
        Err(ConfigurationError::NonPositiveGridSize)
    ));
    // Fails before any input is read, even where the input is malformed.
    let files = input("not,a,number\n");
    assert!(matches!(
        grid_statistics(&files, 0, 100),
        Err(GridStatsError::Configuration(ConfigurationError::NonPositiveGridSize))
    ));
}

#[test]
fn non_numeric_height_names_the_row() {
    let files = input("100.2,35.1,500\n100.3,35.9,700\n101.5,35.5,tall\n");
    assert!(matches!(
        grid_statistics(&files, ONE_DEGREE, 100),
        Err(GridStatsError::Read(ReadError::Record {
            file: 0,
            error: RecordError::BadField {
                row: 2,
                column: Column::Height,
                error: NumberError::Malformed,
            },
        }))
    ));
}

#[test]
fn bad_field_in_second_input() {
    let files = vec![b"1,2,3\n".to_vec(), b"1,2,3\nx,2,3\n".to_vec()];
    assert!(matches!(
        read_using_csv(&files, 100),
        Err(ReadError::Record {
            file: 1,
            error: RecordError::BadField { row: 1, column: Column::Longitude, .. },
        })
    ));
}

#[test]
fn wrong_field_count() {
    let files = input("1.5,2.5\n");
    assert!(matches!(
        read_using_csv(&files, 100),
        Err(ReadError::Record { file: 0, error: RecordError::WrongFieldCount { row: 0, found: 2 } })
    ));
}

#[test]
fn records_of_unequal_length_are_a_csv_error() {
    let files = input("1,2,3\n1,2\n");
    assert!(matches!(read_using_csv(&files, 100), Err(ReadError::Csv { file: 0, .. })));
}

#[test]
fn reads_fields_into_fixed_point() {
    let files = input("100.2,-35.1,500\n");
    let records = read_using_csv(&files, 100).unwrap();
    assert_eq!(
        records,
        vec![ReadRecord { longitude: 100_200_000_000, latitude: -35_100_000_000, height: 500 }]
    );
}

#[test]
fn cap_applies_over_all_inputs() {
    let files = vec![b"1,1,1\n2,2,2\n".to_vec(), b"3,3,3\n4,4,4\n".to_vec()];
    let records = read_using_csv(&files, 3).unwrap();
    assert_eq!(records.len(), 3);
    assert_eq!(records[2].height, 3);
    // Rows past the cap are not looked at.
    let files = input("1,1,1\n2,2,oops\n");
    assert_eq!(read_using_csv(&files, 1).unwrap().len(), 1);
    assert_eq!(read_using_csv(&files, 0).unwrap().len(), 0);
}

#[test]
fn counts_add_up_to_records_read() {
    let files = input("0.1,0.1,1\n0.2,5.5,2\n3.3,0.1,3\n0.4,0.4,4\n-0.5,0.5,5\n");
    let out = grid_statistics(&files, ONE_DEGREE, 4).unwrap();
    let total: u64 = out.iter().map(|s| s.counts).sum();
    assert_eq!(total, 4);
}

#[test]
fn shuffled_input_gives_the_same_output() {
    let a = input("100.2,35.1,500\n-3.3,2.2,9\n100.3,35.9,700\n101.5,35.5,300\n");
    let b = input("101.5,35.5,300\n100.3,35.9,700\n-3.3,2.2,9\n100.2,35.1,500\n");
    assert_eq!(
        grid_statistics(&a, ONE_DEGREE, 100).unwrap(),
        grid_statistics(&b, ONE_DEGREE, 100).unwrap()
    );
}

#[test]
fn running_twice_gives_the_same_output() {
    let a = input("10.2,5.1,5\n10.9,5.9,-7\n-10.5,5.5,3\n");
    let first = grid_statistics(&a, 500_000_000, 100).unwrap();
    let second = grid_statistics(&a, 500_000_000, 100).unwrap();
    assert_eq!(first, second);
    assert_eq!(first.len(), 3);
}

#[test]
fn cells_come_out_in_numeric_order() {
    let files = input("10,0,1\n-20,0,1\n5,-5,1\n5,3,1\n");
    let out = grid_statistics(&files, ONE_DEGREE, 100).unwrap();
    let centres: Vec<(i128, i128)> =
        out.iter().map(|s| (s.longitude_tenths, s.latitude_tenths)).collect();
    assert_eq!(centres, vec![(-195, 5), (55, -45), (55, 35), (105, 5)]);
}

#[test]
fn histogram_keeps_heights_in_input_order() {
    let records = vec![
        ReadRecord { longitude: 1_500_000_000, latitude: 0, height: 4 },
        ReadRecord { longitude: -1, latitude: 0, height: 5 },
        ReadRecord { longitude: 1_100_000_000, latitude: 0, height: 6 },
    ];
    let cells = generate_histograms(&records, ONE_DEGREE).unwrap();
    assert_eq!(cells.len(), 2);
    assert_eq!(cells[0].key, CellKey { lon_index: -1, lat_index: 0 });
    assert_eq!(cells[0].data.heights, vec![5]);
    assert_eq!(cells[1].data.heights, vec![4, 6]);
    assert_eq!(cells[1].data.counts, 2);
}

#[test]
fn sum_of_squares_that_does_not_fit_is_an_error() {
    let records = vec![ReadRecord { longitude: 0, latitude: 0, height: 3_037_000_500 }];
    let cells = generate_histograms(&records, ONE_DEGREE).unwrap();
    assert_eq!(calc_stats(&cells, ONE_DEGREE), Err(StatsError::SumOverflow));
    let records = vec![ReadRecord { longitude: 0, latitude: 0, height: 3_037_000_499 }];
    let cells = generate_histograms(&records, ONE_DEGREE).unwrap();
    let out = calc_stats(&cells, ONE_DEGREE).unwrap();
    assert_eq!(out[0].sum_squared_heights, 3_037_000_499 * 3_037_000_499);
}

#[test]
fn empty_input_gives_no_cells() {
    let files = input("");
    assert_eq!(grid_statistics(&files, ONE_DEGREE, 100).unwrap(), vec![]);
}

#[test]
fn summaries_follow_key_order() {
    let records = vec![
        ReadRecord { longitude: 5_000_000_000, latitude: 0, height: 1 },
        ReadRecord { longitude: -5_000_000_000, latitude: 2_000_000_000, height: 2 },
        ReadRecord { longitude: -5_000_000_000, latitude: -2_000_000_000, height: 3 },
    ];
    let cells = generate_histograms(&records, ONE_DEGREE).unwrap();
    let out = calc_stats(&cells, ONE_DEGREE).unwrap();
    let keys: Vec<CellKey> = out.iter().map(|s| s.key).collect();
    assert_eq!(
        keys,
        vec![
            CellKey { lon_index: -5, lat_index: -2 },
            CellKey { lon_index: -5, lat_index: 2 },
            CellKey { lon_index: 5, lat_index: 0 },
        ]
    );
    assert_eq!(out[0].longitude_tenths, -45);
    assert_eq!(out[2].longitude_tenths, 55);
    let total: u64 = out.iter().map(|s| s.counts).sum();
    assert_eq!(total, 3);
}

#[test]
fn fine_grid_centres_may_share_a_tenth() {
    // With a 0.01 degree grid, neighbouring centres 0.005 and 0.015 both show
    // as 0.0 to a tenth; the keys still tell the cells apart.
    let g = 10_000_000;
    let cells = vec![
        GridCell { key: CellKey { lon_index: 0, lat_index: 0 }, data: HeightData { counts: 1, heights: vec![1] } },
        GridCell { key: CellKey { lon_index: 1, lat_index: 0 }, data: HeightData { counts: 1, heights: vec![2] } },
    ];
    let out = calc_stats(&cells, g).unwrap();
    assert_eq!(out[0].longitude_tenths, 0);
    assert_eq!(out[1].longitude_tenths, 0);
    assert_ne!(out[0].key, out[1].key);
}

#[test]
fn cap_keeps_the_smaller_of_rows_and_cap() {
    let files = vec![b"1,1,1\n2,2,2\n".to_vec(), b"3,3,3\n".to_vec()];
    assert_eq!(read_using_csv(&files, 2).unwrap().len(), 2);
    assert_eq!(read_using_csv(&files, 10).unwrap().len(), 3);
}

#[test]
fn shuffled_records_give_the_same_cells() {
    let a = vec![
        ReadRecord { longitude: 100_200_000_000, latitude: 35_100_000_000, height: 500 },
        ReadRecord { longitude: 100_300_000_000, latitude: 35_900_000_000, height: 700 },
        ReadRecord { longitude: 101_500_000_000, latitude: 35_500_000_000, height: 300 },
    ];
    let b = vec![a[2], a[1], a[0]];
    let ca = generate_histograms(&a, ONE_DEGREE).unwrap();
    let cb = generate_histograms(&b, ONE_DEGREE).unwrap();
    assert_eq!(ca.len(), cb.len());
    assert_eq!(ca[0].key, cb[0].key);
    assert_eq!(ca[0].data.counts, cb[0].data.counts);
    assert_eq!(ca[0].data.heights, vec![500, 700]);
    assert_eq!(cb[0].data.heights, vec![700, 500]);
    assert_eq!(calc_stats(&ca, ONE_DEGREE).unwrap(), calc_stats(&cb, ONE_DEGREE).unwrap());
}
