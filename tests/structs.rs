use grid_stats::histogram::HeightData;
use grid_stats::reads::ReadRecord;

#[test]
fn heights_struct_test() {
    let cell_1 = HeightData {
        counts: 25,
        heights: vec![1266, 12656, 5256, 735],
    };
    let cell_2 = cell_1.clone();
    assert_eq!(cell_1, cell_2);
}

#[test]
fn reader_struct_test() {
    // 100.0 and 35.2 degrees, in billionths of a degree.
    let record = ReadRecord {
        longitude: 100_000_000_000,
        latitude: 35_200_000_000,
        height: 12345,
    };
    assert_eq!(record.longitude, 100_000_000_000);
    assert_eq!(record.latitude, 35_200_000_000);
    assert_eq!(record.height, 12345);
}

#[test]
fn read_struct_equality() {
    let record_1 = ReadRecord {
        longitude: 100_000_000_000,
        latitude: 35_200_000_000,
        height: 12345,
    };
    let record_2 = record_1.clone();
    assert_eq!(record_1, record_2);
}
