use divisor_db::codec::{encode_entries, Endian};
use divisor_db::matrix::{
    read_window, record_index, words_count, ReadError, Window, COLUMNS, RECORD_COUNT, ROW_BYTES,
    WINDOW_COUNT, WINDOW_SIZE,
};

fn counting_row(offset: i32, endian: Endian) -> Vec<u8> {
    let values: Vec<i32> = (0..COLUMNS as i32).map(|c| c + offset).collect();
    encode_entries(&values, endian)
}

#[test]
fn constants_fit_together() {
    assert_eq!(ROW_BYTES, COLUMNS * 4);
    assert_eq!(RECORD_COUNT, WINDOW_COUNT * WINDOW_SIZE);
    assert!(RECORD_COUNT <= COLUMNS);
}

#[test]
fn words_count_counts_complete_rows() {
    assert_eq!(words_count(0), 0);
    assert_eq!(words_count(179_999), 0);
    assert_eq!(words_count(180_000), 1);
    assert_eq!(words_count(359_999), 1);
    assert_eq!(words_count(360_000), 2);
    assert_eq!(words_count(180_000 * 1000 + 5), 1000);
    assert_eq!(words_count(u64::MAX), u64::MAX / 45000 / 4);
}

#[test]
fn record_index_follows_processing_order() {
    assert_eq!(record_index(0, 0), 0);
    assert_eq!(record_index(0, 7999), 7999);
    assert_eq!(record_index(1, 0), 8000);
    assert_eq!(record_index(3, 7999), 31999);
}

#[test]
fn window_must_lie_within_a_row() {
    assert!(Window::new(0, 8000).is_some());
    assert!(Window::new(37000, 8000).is_some());
    assert!(Window::new(37001, 8000).is_none());
    assert!(Window::new(45000, 1).is_none());
    assert!(Window::new(44999, 1).is_some());
    assert!(Window::new(0, 0).is_none());
    assert!(Window::new(usize::MAX, 2).is_none());
    assert!(Window::new(2, usize::MAX).is_none());
}

#[test]
fn push_row_takes_the_columns_of_the_window() {
    let mut window = Window::new(8000, 8000).unwrap();
    assert_eq!(window.row_count(), 0);
    assert_eq!(window.column_count(), 8000);
    assert_eq!(window.push_row(&counting_row(0, Endian::Little), Endian::Little), Ok(()));
    assert_eq!(window.push_row(&counting_row(100_000, Endian::Little), Endian::Little), Ok(()));
    assert_eq!(window.row_count(), 2);
    assert_eq!(window.record(0), vec![8000, 108_000]);
    assert_eq!(window.record(1), vec![8001, 108_001]);
    assert_eq!(window.record(7999), vec![15999, 115_999]);
}

#[test]
fn push_row_refuses_a_short_row() {
    let mut window = Window::new(0, 4).unwrap();
    let row = counting_row(5, Endian::Big);
    assert_eq!(window.push_row(&row[..ROW_BYTES - 1], Endian::Big), Err(ReadError::ShortRow));
    assert_eq!(window.push_row(&[], Endian::Big), Err(ReadError::ShortRow));
    assert_eq!(window.row_count(), 0);
    assert_eq!(window.push_row(&row, Endian::Big), Ok(()));
    assert_eq!(window.row_count(), 1);
    assert_eq!(window.record(3), vec![8]);
}

#[test]
fn read_window_takes_every_complete_row() {
    let mut db = counting_row(0, Endian::Little);
    db.extend_from_slice(&counting_row(-50_000, Endian::Little));
    db.extend_from_slice(&[9; 100]);
    let window = read_window(&db, 24000, 8000, Endian::Little).unwrap();
    assert_eq!(window.row_count(), 2);
    assert_eq!(window.record(0), vec![24000, -26000]);
    assert_eq!(window.record(7999), vec![31999, -18001]);
    assert!(read_window(&db, 40000, 8000, Endian::Little).is_none());
    let empty = read_window(&[], 0, 8000, Endian::Little).unwrap();
    assert_eq!(empty.row_count(), 0);
    assert_eq!(empty.record(17), Vec::<i32>::new());
}
