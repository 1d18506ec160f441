use sqlite_starter_rust::header::read_schema;
use sqlite_starter_rust::varint::encode_varint;
use sqlite_starter_rust::{db_info, eval, reader, render, statement, tables, Error, Record};

/// One record column for the fixture builder: its serial type and its body
/// bytes.
fn text_col(s: &str) -> (u64, Vec<u8>) {
    (2 * s.len() as u64 + 13, s.as_bytes().to_vec())
}

fn int1_col(v: u8) -> (u64, Vec<u8>) {
    (1, vec![v])
}

fn null_col() -> (u64, Vec<u8>) {
    (0, Vec::new())
}

/// A leaf-table cell: payload size, rowid, record header, record bodies.
fn cell(rowid: u64, cols: &[(u64, Vec<u8>)]) -> Vec<u8> {
    let mut header = Vec::new();
    for (t, _) in cols {
        header.extend(encode_varint(*t));
    }
    let header_size = header.len() as u64 + 1;
    assert!(header_size < 0x80);
    let mut body = Vec::new();
    for (_, b) in cols {
        body.extend(b.iter().copied());
    }
    let payload_size = header_size + body.len() as u64;
    let mut out = encode_varint(payload_size);
    out.extend(encode_varint(rowid));
    out.extend(encode_varint(header_size));
    out.extend(header);
    out.extend(body);
    out
}

/// A leaf-table page holding the given cells; `first` reserves the hundred
/// header bytes at the front.
fn leaf_page(page_size: usize, cells: &[Vec<u8>], first: bool) -> Vec<u8> {
    let mut page = vec![0u8; page_size];
    let base = if first { 100 } else { 0 };
    page[base] = 0x0d;
    let count = cells.len() as u16;
    page[base + 3] = (count >> 8) as u8;
    page[base + 4] = (count & 0xff) as u8;
    let mut off = page_size;
    let mut pointers = Vec::new();
    for c in cells {
        off -= c.len();
        page[off..off + c.len()].copy_from_slice(c);
        pointers.push(off as u16);
    }
    page[base + 5] = (off >> 8) as u8;
    page[base + 6] = (off & 0xff) as u8;
    let arr = base + 8;
    for (i, p) in pointers.iter().enumerate() {
        page[arr + 2 * i] = (p >> 8) as u8;
        page[arr + 2 * i + 1] = (p & 0xff) as u8;
    }
    page
}

fn schema_page(page_size: u16, cells: &[Vec<u8>]) -> Vec<u8> {
    let mut page = leaf_page(page_size as usize, cells, true);
    page[16] = (page_size >> 8) as u8;
    page[17] = (page_size & 0xff) as u8;
    page[59] = 1;
    page
}

const APPLES_SQL: &str = "CREATE TABLE apples (id integer primary key, name text, color text)";

fn apples_schema_cell() -> Vec<u8> {
    cell(
        1,
        &[
            text_col("table"),
            text_col("apples"),
            text_col("apples"),
            int1_col(2),
            text_col(APPLES_SQL),
        ],
    )
}

fn apples_first_page() -> Vec<u8> {
    schema_page(4096, &[apples_schema_cell()])
}

fn apples_data_page() -> Vec<u8> {
    let rows = [
        cell(1, &[null_col(), text_col("Granny Smith"), text_col("Light Green")]),
        cell(2, &[null_col(), text_col("Fuji"), text_col("Red")]),
        cell(3, &[null_col(), text_col("Honeycrisp"), text_col("Pink")]),
    ];
    leaf_page(4096, &rows, false)
}

#[test]
fn test_db_info_small_database() {
    let page1 = apples_first_page();
    let (table, header) = read_schema(&page1).unwrap();
    let out = db_info(&table, &header);
    assert_eq!(out, b"database page size: 4096\nnumber of tables: 1\n".to_vec());
}

#[test]
fn test_tables_small_database() {
    let page1 = apples_first_page();
    let (table, _) = read_schema(&page1).unwrap();
    assert_eq!(tables(&table).unwrap(), b"apples ".to_vec());
}

#[test]
fn test_projection() {
    let page1 = apples_first_page();
    let (table, header) = read_schema(&page1).unwrap();
    let plan = statement(&table, &header, &b"SELECT name FROM apples;".to_vec()).unwrap();
    assert_eq!(plan.page_offset, 4096);
    let rows = eval(&apples_data_page(), &plan.positions).unwrap();
    let out = render(&plan.header_line, &rows).unwrap();
    assert_eq!(out, b"name\nGranny Smith\nFuji\nHoneycrisp\n".to_vec());
}

#[test]
fn test_multi_projection() {
    let page1 = apples_first_page();
    let (table, header) = read_schema(&page1).unwrap();
    let plan = statement(&table, &header, &b"SELECT name, color FROM apples;".to_vec()).unwrap();
    let rows = eval(&apples_data_page(), &plan.positions).unwrap();
    let out = render(&plan.header_line, &rows).unwrap();
    assert_eq!(
        out,
        b"name|color\nGranny Smith|Light Green\nFuji|Red\nHoneycrisp|Pink\n".to_vec()
    );
}

#[test]
fn test_wildcard_projection_is_empty() {
    let page1 = apples_first_page();
    let (table, header) = read_schema(&page1).unwrap();
    let plan = statement(&table, &header, &b"SELECT * FROM apples;".to_vec()).unwrap();
    assert!(plan.positions.is_empty());
    assert!(plan.header_line.is_empty());
}

#[test]
fn test_count_is_recognised_and_dropped() {
    let page1 = apples_first_page();
    let (table, header) = read_schema(&page1).unwrap();
    let plan = statement(&table, &header, &b"SELECT COUNT(name) FROM apples;".to_vec()).unwrap();
    assert!(plan.positions.is_empty());
}

#[test]
fn test_unknown_table() {
    let page1 = apples_first_page();
    let (table, header) = read_schema(&page1).unwrap();
    let r = statement(&table, &header, &b"SELECT x FROM nosuch;".to_vec());
    assert_eq!(r.unwrap_err(), Error::UnknownTable);
    // an underscore is not an identifier letter of the grammar
    let r = statement(&table, &header, &b"SELECT x FROM no_such;".to_vec());
    assert_eq!(r.unwrap_err(), Error::ParseError);
}

#[test]
fn test_sequence_row_is_filtered() {
    let seq_cell = cell(
        2,
        &[
            text_col("table"),
            text_col("sqlite_sequence"),
            text_col("sqlite_sequence"),
            int1_col(3),
            text_col("CREATE TABLE x (a integer)"),
        ],
    );
    let page1 = schema_page(4096, &[apples_schema_cell(), seq_cell]);
    let (table, header) = read_schema(&page1).unwrap();
    assert_eq!(table.len(), 1);
    assert_eq!(tables(&table).unwrap(), b"apples ".to_vec());
    assert_eq!(
        db_info(&table, &header),
        b"database page size: 4096\nnumber of tables: 1\n".to_vec()
    );
}

#[test]
fn test_varint_round_trip() {
    for n in [0u64, 1, 8, 127, 128, 300, 0xffff, 0x0123_4567_89ab,
        0xff_ffff_ffff_ffff] {
        let bytes = encode_varint(n);
        let mut pointer = 0usize;
        let value = reader::read_varint(&bytes, &mut pointer).unwrap();
        assert_eq!(value, n);
        assert_eq!(pointer, bytes.len());
    }
    assert_eq!(encode_varint(300), vec![0x82, 0x2c]);
}

#[test]
fn test_varint_errors() {
    // truncated: the last byte still asks for more
    let mut pointer = 0usize;
    assert_eq!(
        reader::read_varint(&vec![0x80], &mut pointer).unwrap_err(),
        Error::MalformedPage
    );
    // nine continuation bytes never reach a terminator
    let mut pointer = 0usize;
    assert_eq!(
        reader::read_varint(&vec![0x80; 9], &mut pointer).unwrap_err(),
        Error::MalformedPage
    );
    // eight continuation bytes and a terminator are the longest valid form
    let mut bytes = vec![0x81u8; 8];
    bytes.push(0x01);
    let mut pointer = 0usize;
    let v = reader::read_varint(&bytes, &mut pointer).unwrap();
    assert_eq!(pointer, 9);
    assert_eq!(v, 0x102040810204081);
}

#[test]
fn test_record_widths_and_values() {
    let buf: Vec<u8> = vec![0x12, 0x34, 0x56, 0x78, 0x9a, 0xbc, 0xde, 0xf0];
    let mut p = 0usize;
    assert_eq!(reader::read_elem(0, &buf, &mut p).unwrap(), Record::NULL);
    assert_eq!(p, 0);
    assert_eq!(reader::read_elem(1, &buf, &mut p).unwrap(), Record::INT(0x12));
    assert_eq!(p, 1);
    let mut p = 0usize;
    assert_eq!(reader::read_elem(2, &buf, &mut p).unwrap(), Record::INT(0x1234));
    assert_eq!(p, 2);
    let mut p = 0usize;
    assert_eq!(reader::read_elem(3, &buf, &mut p).unwrap(), Record::INT(0x123456));
    assert_eq!(p, 3);
    let mut p = 0usize;
    assert_eq!(reader::read_elem(4, &buf, &mut p).unwrap(), Record::INT(0x12345678));
    assert_eq!(p, 4);
    let mut p = 0usize;
    assert_eq!(reader::read_elem(5, &buf, &mut p).unwrap(), Record::INT(0x123456789abc));
    assert_eq!(p, 6);
    let mut p = 0usize;
    assert_eq!(reader::read_elem(6, &buf, &mut p).unwrap(), Record::INT(0x123456789abcdef0));
    assert_eq!(p, 8);
    let mut p = 0usize;
    assert_eq!(reader::read_elem(7, &buf, &mut p).unwrap(), Record::FLOAT(0x123456789abcdef0));
    assert_eq!(p, 8);
    let mut p = 0usize;
    assert_eq!(reader::read_elem(8, &buf, &mut p).unwrap(), Record::INT(0));
    assert_eq!(reader::read_elem(9, &buf, &mut p).unwrap(), Record::INT(1));
    assert_eq!(reader::read_elem(10, &buf, &mut p).unwrap(), Record::RESERVED);
    assert_eq!(reader::read_elem(11, &buf, &mut p).unwrap(), Record::RESERVED);
    assert_eq!(p, 0);
    // blob of two bytes: serial type 12 + 2 * 2
    let mut p = 0usize;
    assert_eq!(
        reader::read_elem(16, &buf, &mut p).unwrap(),
        Record::BLOB(vec![0x12, 0x34])
    );
    assert_eq!(p, 2);
    // text of two bytes: serial type 13 + 2 * 2
    let text: Vec<u8> = b"hi".to_vec();
    let mut p = 0usize;
    assert_eq!(
        reader::read_elem(17, &text, &mut p).unwrap(),
        Record::STRING(b"hi".to_vec())
    );
    assert_eq!(p, 2);
}

#[test]
fn test_record_sign_extension() {
    // the high bit of each integer serial type carries the sign
    let mut p = 0usize;
    assert_eq!(reader::read_elem(1, &vec![0x80], &mut p).unwrap(), Record::INT(-128));
    let mut p = 0usize;
    assert_eq!(reader::read_elem(1, &vec![0x7f], &mut p).unwrap(), Record::INT(127));
    let mut p = 0usize;
    assert_eq!(
        reader::read_elem(2, &vec![0xff, 0xfe], &mut p).unwrap(),
        Record::INT(-2)
    );
    let mut p = 0usize;
    assert_eq!(
        reader::read_elem(3, &vec![0xff, 0xff, 0xff], &mut p).unwrap(),
        Record::INT(-1)
    );
    let mut p = 0usize;
    assert_eq!(
        reader::read_elem(4, &vec![0x80, 0, 0, 0], &mut p).unwrap(),
        Record::INT(-2147483648)
    );
    let mut p = 0usize;
    assert_eq!(
        reader::read_elem(5, &vec![0xff; 6], &mut p).unwrap(),
        Record::INT(-1)
    );
    let mut p = 0usize;
    assert_eq!(
        reader::read_elem(6, &vec![0x80, 0, 0, 0, 0, 0, 0, 0], &mut p).unwrap(),
        Record::INT(i64::MIN)
    );
    let mut p = 0usize;
    assert_eq!(
        reader::read_elem(6, &vec![0xff; 8], &mut p).unwrap(),
        Record::INT(-1)
    );
}

#[test]
fn test_signed_display() {
    assert_eq!(Record::INT(-128).display().unwrap(), b"-128".to_vec());
    assert_eq!(Record::INT(-1).display().unwrap(), b"-1".to_vec());
    assert_eq!(
        Record::INT(i64::MIN).display().unwrap(),
        b"-9223372036854775808".to_vec()
    );
    assert_eq!(
        Record::INT(i64::MAX).display().unwrap(),
        b"9223372036854775807".to_vec()
    );
}

#[test]
fn test_record_errors() {
    // truncated read past the buffer
    let mut p = 0usize;
    assert_eq!(
        reader::read_elem(6, &vec![0x01], &mut p).unwrap_err(),
        Error::MalformedPage
    );
    assert_eq!(p, 0);
    // a text payload that is not UTF-8
    let mut p = 0usize;
    assert_eq!(
        reader::read_elem(15, &vec![0xff], &mut p).unwrap_err(),
        Error::MalformedPage
    );
    // the same bytes pass as a blob, which carries raw bytes
    let mut p = 0usize;
    assert_eq!(
        reader::read_elem(14, &vec![0xff], &mut p).unwrap(),
        Record::BLOB(vec![0xff])
    );
}

#[test]
fn test_page_kind_byte() {
    let mut page = apples_data_page();
    assert!(reader::read_page(&page, false).is_ok());
    for kind in [0x00u8, 0x01, 0x03, 0x07, 0x0c, 0xff] {
        page[0] = kind;
        assert_eq!(reader::read_page(&page, false).unwrap_err(), Error::MalformedPage);
    }
    // an interior table page is recognised, and its cells are not rows
    let mut interior = vec![0u8; 64];
    interior[0] = 0x05;
    let rows = reader::read_page(&interior, false).unwrap();
    assert!(rows.is_empty());
}

#[test]
fn test_row_shape() {
    let rows = reader::read_page(&apples_data_page(), false).unwrap();
    assert_eq!(rows.len(), 3);
    for row in &rows {
        // rowid plus one value per serial type
        assert_eq!(row.len(), 4);
    }
    assert_eq!(rows[0][0], Record::INT(1));
    assert_eq!(rows[0][1], Record::NULL);
    assert_eq!(rows[0][2], Record::STRING(b"Granny Smith".to_vec()));
    assert_eq!(rows[0][3], Record::STRING(b"Light Green".to_vec()));
}

#[test]
fn test_display_forms() {
    assert_eq!(Record::INT(1234).display().unwrap(), b"1234".to_vec());
    assert_eq!(Record::INT(0).display().unwrap(), b"0".to_vec());
    assert_eq!(Record::NULL.display().unwrap(), Vec::<u8>::new());
    assert_eq!(Record::RESERVED.display().unwrap(), Vec::<u8>::new());
    assert_eq!(
        Record::STRING(b"abc".to_vec()).display().unwrap(),
        b"abc".to_vec()
    );
    assert_eq!(Record::FLOAT(0x3ff0000000000000).display(), None);
    // a floating cell keeps the whole rendering from the library
    let rows = vec![vec![Record::FLOAT(0x3ff0000000000000)]];
    assert_eq!(render(&b"x".to_vec(), &rows), None);
}

#[test]
fn test_corrupt_schema() {
    // root page column carries text instead of an integer
    let bad = cell(
        1,
        &[
            text_col("table"),
            text_col("pears"),
            text_col("pears"),
            text_col("2"),
            text_col("CREATE TABLE pears (id integer)"),
        ],
    );
    let page1 = schema_page(4096, &[bad]);
    let (table, header) = read_schema(&page1).unwrap();
    let r = statement(&table, &header, &b"SELECT id FROM pears;".to_vec());
    assert_eq!(r.unwrap_err(), Error::CorruptSchema);

    // SQL column does not parse as CREATE TABLE
    let bad = cell(
        1,
        &[
            text_col("table"),
            text_col("pears"),
            text_col("pears"),
            int1_col(2),
            text_col("DROP TABLE pears"),
        ],
    );
    let page1 = schema_page(4096, &[bad]);
    let (table, header) = read_schema(&page1).unwrap();
    let r = statement(&table, &header, &b"SELECT id FROM pears;".to_vec());
    assert_eq!(r.unwrap_err(), Error::CorruptSchema);
}

#[test]
fn test_malformed_first_page() {
    // too short to hold the database header
    assert_eq!(read_schema(&vec![0u8; 50]).unwrap_err(), Error::MalformedPage);
    // a first page whose body byte is no page kind
    let mut page1 = apples_first_page();
    page1[100] = 0x42;
    assert_eq!(read_schema(&page1).unwrap_err(), Error::MalformedPage);
}
