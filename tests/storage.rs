use minisql::codec::{decode, encode, CodecError};
use minisql::layout::{EMAIL_MAX, PAGE_SIZE, ROWS_PER_PAGE, ROW_SIZE, TABLE_MAX_ROWS, USERNAME_MAX};
use minisql::page::{Page, PageError};
use minisql::row::Row;
use minisql::table::{row_slot, InsertError, Table};

fn row(id: u64, username: &str, email: &str) -> Row {
    Row::new(id, username.to_string(), email.to_string())
}

fn assert_same(a: &Row, b: &Row) {
    assert_eq!(a.id, b.id);
    assert_eq!(a.username, b.username);
    assert_eq!(a.email, b.email);
}

#[test]
fn layout_constants() {
    assert_eq!(ROW_SIZE, 295);
    assert_eq!(PAGE_SIZE, 4096);
    assert_eq!(ROWS_PER_PAGE, 13);
    assert_eq!(TABLE_MAX_ROWS, 1300);
}

#[test]
fn addressing_examples() {
    let a = row_slot(0);
    assert_eq!((a.page_idx, a.slot_idx, a.byte_offset), (0, 0, 0));
    let a = row_slot(12);
    assert_eq!((a.page_idx, a.slot_idx, a.byte_offset), (0, 12, 12 * 295));
    let a = row_slot(13);
    assert_eq!((a.page_idx, a.slot_idx, a.byte_offset), (1, 0, 0));
    let a = row_slot(27);
    assert_eq!((a.page_idx, a.slot_idx, a.byte_offset), (2, 1, 295));
    let a = row_slot(1299);
    assert_eq!((a.page_idx, a.slot_idx, a.byte_offset), (99, 12, 3540));
}

#[test]
fn addressing_is_injective() {
    let mut seen = std::collections::HashSet::new();
    for n in 0..TABLE_MAX_ROWS as u64 {
        let a = row_slot(n);
        assert!(a.page_idx < 100);
        assert!(seen.insert((a.page_idx, a.slot_idx)));
    }
    assert_eq!(seen.len(), TABLE_MAX_ROWS);
}

#[test]
fn encode_layout() {
    let b = encode(&row(0x0102030405060708, "ab", "c")).unwrap();
    assert_eq!(b.len(), ROW_SIZE);
    assert_eq!(&b[0..8], &[8, 7, 6, 5, 4, 3, 2, 1]);
    assert_eq!(&b[8..10], b"ab");
    assert!(b[10..40].iter().all(|&x| x == 0));
    assert_eq!(b[40], b'c');
    assert!(b[41..].iter().all(|&x| x == 0));
}

#[test]
fn round_trip() {
    let r = row(42, "alice", "alice@example.com");
    let back = decode(&encode(&r).unwrap());
    assert_same(&back, &r);
}

#[test]
fn round_trip_non_ascii_and_full_width() {
    let r = row(u64::MAX, &"é".repeat(16), &"x".repeat(EMAIL_MAX));
    let back = decode(&encode(&r).unwrap());
    assert_same(&back, &r);
}

#[test]
fn nul_inside_text_round_trips() {
    let r = row(3, "a\0b", "\0x");
    let back = decode(&encode(&r).unwrap());
    assert_same(&back, &r);
}

#[test]
fn trailing_nul_is_read_as_padding() {
    let back = decode(&encode(&row(4, "a\0", "e")).unwrap());
    assert_eq!(back.username, Some("a".to_string()));
}

#[test]
fn encode_missing_field() {
    let r = Row { id: Some(1), username: None, email: Some("e".to_string()) };
    assert_eq!(encode(&r).unwrap_err(), CodecError::MissingField);
    let r = Row { id: None, username: None, email: None };
    assert!(r.is_empty());
    assert_eq!(encode(&r).unwrap_err(), CodecError::MissingField);
}

#[test]
fn encode_field_too_long() {
    let long_name = "u".repeat(USERNAME_MAX + 1);
    assert_eq!(encode(&row(1, &long_name, "e")).unwrap_err(), CodecError::FieldTooLong);
    let long_email = "e".repeat(EMAIL_MAX + 1);
    assert_eq!(encode(&row(1, "u", &long_email)).unwrap_err(), CodecError::FieldTooLong);
    // 17 two-byte characters take 34 bytes
    assert_eq!(encode(&row(1, &"é".repeat(17), "e")).unwrap_err(), CodecError::FieldTooLong);
    assert!(encode(&row(1, &"u".repeat(USERNAME_MAX), "e")).is_ok());
}

#[test]
fn decode_zero_block() {
    let r = decode(&vec![0u8; ROW_SIZE]);
    assert_eq!(r.id, Some(0));
    assert_eq!(r.username, Some(String::new()));
    assert_eq!(r.email, Some(String::new()));
}

#[test]
fn decode_invalid_utf8_field() {
    let mut b = encode(&row(5, "bob", "b@x")).unwrap();
    b[8] = 0xFF;
    let r = decode(&b);
    assert_eq!(r.id, Some(5));
    assert_eq!(r.username, None);
    assert_eq!(r.email, Some("b@x".to_string()));
}

#[test]
fn row_helpers() {
    let r = row(1, "a", "b");
    assert!(!r.is_empty());
    assert_eq!(r.plus(0), 295);
    assert_eq!(r.plus(295), 590);
}

#[test]
fn page_slots() {
    let mut p = Page::new();
    let block = encode(&row(9, "p", "q")).unwrap();
    assert_eq!(p.write_slot(12, &block), Ok(()));
    assert_eq!(p.read_slot(12).unwrap(), block);
    assert_eq!(p.read_slot(11).unwrap(), vec![0u8; ROW_SIZE]);
    assert_eq!(p.write_slot(13, &block), Err(PageError::OutOfRange));
    assert_eq!(p.read_slot(13), Err(PageError::OutOfRange));
}

#[test]
fn sequential_insert_select() {
    let mut t = Table::new();
    let rows: Vec<Row> = (0..30).map(|i| row(i, &format!("user{}", i), &format!("u{}@x.org", i))).collect();
    for r in &rows {
        assert_eq!(t.insert_row(r), Ok(()));
    }
    let got = t.select_all();
    assert_eq!(got.len(), 30);
    for (a, b) in got.iter().zip(rows.iter()) {
        assert_same(a, b);
    }
    assert_eq!(t.select_all().len(), 30);
}

#[test]
fn empty_table_selects_nothing() {
    let t = Table::new();
    assert_eq!(t.num_rows(), 0);
    assert!(t.select_all().is_empty());
    assert!(!t.has_page(0));
}

#[test]
fn capacity_boundary() {
    let mut t = Table::new();
    for i in 0..TABLE_MAX_ROWS as u64 {
        assert_eq!(t.insert_row(&row(i, "n", "e")), Ok(()));
    }
    assert_eq!(t.num_rows(), TABLE_MAX_ROWS as u64);
    assert_eq!(t.insert_row(&row(9999, "n", "e")), Err(InsertError::TableFull));
    assert_eq!(t.num_rows(), TABLE_MAX_ROWS as u64);
    assert!(t.has_page(99));
}

#[test]
fn field_length_boundary() {
    let mut t = Table::new();
    t.insert_row(&row(1, "a", "b")).unwrap();
    let long_name = "u".repeat(USERNAME_MAX + 1);
    assert_eq!(
        t.insert_row(&row(2, &long_name, "e")),
        Err(InsertError::Codec(CodecError::FieldTooLong))
    );
    assert_eq!(t.num_rows(), 1);
    let incomplete = Row { id: Some(3), username: Some("x".to_string()), email: None };
    assert_eq!(t.insert_row(&incomplete), Err(InsertError::Codec(CodecError::MissingField)));
    assert_eq!(t.num_rows(), 1);
}

#[test]
fn fourteenth_row_opens_second_page() {
    let mut t = Table::new();
    for i in 0..13u64 {
        t.insert_row(&row(i, "n", "e")).unwrap();
    }
    assert_eq!(t.num_rows(), 13);
    assert!(t.has_page(0));
    assert!(!t.has_page(1));
    assert_eq!(t.page_slot(1, 0), None);
    for i in 0..13usize {
        assert_eq!(t.page_slot(0, i).unwrap(), encode(&row(i as u64, "n", "e")).unwrap());
    }
    let fourteenth = row(13, "fourteen", "f@x");
    t.insert_row(&fourteenth).unwrap();
    assert!(t.has_page(1));
    assert_eq!(t.page_slot(1, 0).unwrap(), encode(&fourteenth).unwrap());
    assert_eq!(t.page_slot(1, 1).unwrap(), vec![0u8; ROW_SIZE]);
    assert_eq!(t.page_slot(1, 13), None);
    assert!(!t.has_page(2));
    assert_eq!(t.num_rows(), 14);
    assert_same(&decode(&t.page_slot(1, 0).unwrap()), &fourteenth);
}
