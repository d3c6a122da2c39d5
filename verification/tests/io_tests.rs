use wasm_names::io::{Cursor, Error, Read, Seek};

#[test]
fn cursor() {
    let mut cursor = Cursor::new(vec![0xFFu8, 0x7Fu8]);
    assert_eq!(cursor.position(), 0);

    let buf = cursor.read(1);
    assert!(buf.is_ok());
    assert_eq!(cursor.position(), 1);
    assert_eq!(buf.unwrap()[0], 0xFFu8);
    let buf = cursor.read(1);
    assert!(buf.is_ok());
    assert_eq!(buf.unwrap()[0], 0x7Fu8);
    assert_eq!(cursor.position(), 2);
}

#[test]
fn overflow_in_cursor() {
    let mut cursor = Cursor::new(vec![0u8]);
    assert!(cursor.read(3).is_err());
}

#[test]
fn overflowing_seek() {
    let mut cursor = Cursor::new(vec![0u8, 1, 2]);

    // Seek past end works, it is impl dependent similar to the std crate.
    cursor.seek_relative(i64::MAX).unwrap();
    cursor.seek_relative(i64::MAX).unwrap();
    // This should overflow usize
    assert!(matches!(cursor.seek_relative(2).unwrap_err(), Error::InvalidInput));
}

#[test]
fn backward_seek_moves_position() {
    let mut cursor = Cursor::new(vec![10u8, 11, 12]);
    cursor.seek_relative(2).unwrap();
    cursor.seek_relative(-1).unwrap();
    assert_eq!(cursor.position(), 1);
    assert_eq!(cursor.read(1).unwrap()[0], 11);
    // A seek whose result would fall below zero is rejected.
    assert!(matches!(cursor.seek_relative(-3).unwrap_err(), Error::InvalidInput));
    assert_eq!(cursor.position(), 2);
}

#[test]
fn read_past_end_reports_eof() {
    let mut cursor = Cursor::new(vec![1u8, 2, 3]);
    cursor.seek_relative(10).unwrap();
    assert_eq!(cursor.read(1).unwrap_err(), Error::UnexpectedEof);
}

#[test]
fn stream_reports_position_and_length() {
    let mut cursor = Cursor::new(vec![9u8, 8, 7, 6]);
    assert_eq!(cursor.stream_len().unwrap(), 4);
    cursor.read(3).unwrap();
    assert_eq!(cursor.stream_position().unwrap(), 3);
}
