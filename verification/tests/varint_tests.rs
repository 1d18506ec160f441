use sqlite_starter_rust::page::{read_varint, Page};
use sqlite_starter_rust::reader;

#[test]
fn page_test_read_varint() {
    let buffers: Vec<(Vec<u8>, usize, u64, usize)> = vec![
        (vec![0b00001000], 0, 0b00001000, 1),
        (vec![0b11000001, 0b00000001], 0, 0b10000010000001, 2),
        (vec![0b11001000, 0b11101000, 0b1001], 0, 0b100100011010000001001, 3),
        // stops when the most significant bit is zero
        (
            vec![0b11001000, 0b11101000, 0b1001, 0b11001000],
            0,
            // 1001000 + 1101000 + 0001001
            0b100100011010000001001,
            3,
        ),
        // starts from pointer
        (vec![0b1001, 0b11101000, 0b1001], 1, 0b11010000001001, 3),
    ];

    for (buffer, cursor, expected, expected_pointer) in &buffers {
        let mut page = Page {
            buffer,
            cursor: *cursor,
        };
        let result = read_varint(&mut page).unwrap();

        assert_eq!(result, *expected);
        assert_eq!(page.cursor, *expected_pointer);
    }
}

#[test]
fn test_read_varint_two() {
    let buffer = vec![0b00001000];
    let mut page = Page {
        buffer: &buffer,
        cursor: 0,
    };
    let expected = 0b00001000;
    let result = read_varint(&mut page).unwrap();
    assert_eq!(result, expected);
    assert_eq!(page.cursor, 1);
}

#[test]
fn reader_test_read_varint() {
    let test_cases: Vec<(Vec<u8>, usize, u64, usize)> = vec![
        (vec![0b00001000], 0, 0b00001000, 1),
        (vec![0b11000001, 0b00000001], 0, 0b10000010000001, 2),
        (vec![0b11001000, 0b11101000, 0b1001], 0, 0b100100011010000001001, 3),
        // stops when the most significant bit is zero
        (
            vec![0b11001000, 0b11101000, 0b1001, 0b11001000],
            0,
            // 1001000 + 1101000 + 0001001
            0b100100011010000001001,
            3,
        ),
        // starts from pointer
        (vec![0b1001, 0b11101000, 0b1001], 1, 0b11010000001001, 3),
    ];

    for (page, pointer, expected, expected_pointer) in &test_cases {
        let mut pointer = *pointer;
        let result = reader::read_varint(page, &mut pointer).unwrap();

        assert_eq!(result, *expected);
        assert_eq!(pointer, *expected_pointer);
    }
}
