use minisql::storage::index::{
    build_string_index_table, insert_string_index_table, read_string_index_table,
    write_string_index_table, IndexDataStructureString, IndexErr, IndexString,
};
use minisql::storage::layout::{KeyKind, TableMeta};

fn string_layout(key_offset: u32, key_bytes: u32, row_bytes: u32) -> TableMeta {
    TableMeta::new(String::from("names"), KeyKind::Str(key_bytes), key_offset, key_bytes, row_bytes)
        .unwrap()
}

fn entry(row: u32, key: &str) -> IndexDataStructureString {
    IndexDataStructureString { row, key_value: key.as_bytes().to_vec() }
}

fn rows_of(keys: &[&str], key_offset: usize, row_bytes: usize) -> Vec<u8> {
    let mut rows = Vec::new();
    for key in keys {
        let mut row = vec![0xEEu8; row_bytes];
        row[key_offset..key_offset + key.len()].copy_from_slice(key.as_bytes());
        rows.extend_from_slice(&row);
    }
    rows
}

fn is_sorted(index: &IndexString) -> bool {
    index.0.windows(2).all(|w| (&w[0].key_value, w[0].row) < (&w[1].key_value, w[1].row))
}

#[test]
fn string_build_sorts_rows_by_key_bytes() {
    let layout = string_layout(2, 3, 6);
    let rows = rows_of(&["cat", "ant", "bee", "ant"], 2, 6);
    let mut index = IndexString(vec![]);
    assert_eq!(build_string_index_table(&layout, &rows, &mut index), Ok(()));
    assert_eq!(index.0, vec![entry(1, "ant"), entry(3, "ant"), entry(2, "bee"), entry(0, "cat")]);
}

#[test]
fn string_build_compares_bytes_unsigned() {
    let layout = string_layout(0, 2, 2);
    let rows: Vec<u8> = vec![0xff, 0x00, 0x7f, 0xff, 0x00, 0x01, 0x7f, 0x00];
    let mut index = IndexString(vec![]);
    build_string_index_table(&layout, &rows, &mut index).unwrap();
    let keys: Vec<Vec<u8>> = index.0.iter().map(|e| e.key_value.clone()).collect();
    assert_eq!(keys, vec![vec![0x00, 0x01], vec![0x7f, 0x00], vec![0x7f, 0xff], vec![0xff, 0x00]]);
    let rows_in_order: Vec<u32> = index.0.iter().map(|e| e.row).collect();
    assert_eq!(rows_in_order, vec![2, 3, 1, 0]);
}

#[test]
fn string_build_of_empty_file_is_empty() {
    let layout = string_layout(0, 3, 3);
    let mut index = IndexString(vec![]);
    assert_eq!(build_string_index_table(&layout, &[], &mut index), Ok(()));
    assert!(index.0.is_empty());
}

#[test]
fn string_build_fails_when_last_key_is_cut() {
    let layout = string_layout(1, 3, 5);
    let mut rows = rows_of(&["abc"], 1, 5);
    rows.extend_from_slice(&[0, b'x', b'y']);
    let mut index = IndexString(vec![entry(5, "old")]);
    assert_eq!(build_string_index_table(&layout, &rows, &mut index), Err(IndexErr::TruncatedRow));
    assert_eq!(index.0, vec![entry(5, "old")]);
    rows.push(b'z');
    assert_eq!(build_string_index_table(&layout, &rows, &mut index), Ok(()));
    assert_eq!(index.0, vec![entry(0, "abc"), entry(5, "old"), entry(1, "xyz")]);
}

#[test]
fn string_write_lays_out_row_then_key() {
    let layout = string_layout(0, 2, 2);
    let index = IndexString(vec![entry(0x0102_0304, "hi"), entry(7, "yo")]);
    let mut file = vec![9u8; 3];
    assert_eq!(write_string_index_table(&layout, &index, &mut file), Ok(()));
    assert_eq!(file, vec![4, 3, 2, 1, b'h', b'i', 7, 0, 0, 0, b'y', b'o']);
}

#[test]
fn string_write_rejects_a_key_of_another_width() {
    let layout = string_layout(0, 2, 2);
    let index = IndexString(vec![entry(0, "hi"), entry(1, "hey")]);
    let mut file = vec![9u8; 3];
    assert_eq!(write_string_index_table(&layout, &index, &mut file), Err(IndexErr::CorruptIndex));
    assert_eq!(file, vec![9u8; 3]);
}

#[test]
fn string_read_keeps_file_order() {
    let layout = string_layout(0, 3, 3);
    let file: Vec<u8> = vec![2, 0, 0, 0, b'z', b'z', b'z', 1, 0, 0, 0, b'a', b'a', b'a'];
    let mut index = IndexString(vec![]);
    assert_eq!(read_string_index_table(&layout, &file, &mut index), Ok(()));
    assert_eq!(index.0, vec![entry(2, "zzz"), entry(1, "aaa")]);
}

#[test]
fn string_read_rejects_a_partial_record() {
    let layout = string_layout(0, 3, 3);
    for len in [1usize, 6, 8, 13] {
        let file = vec![0u8; len];
        let mut index = IndexString(vec![entry(1, "abc")]);
        assert_eq!(
            read_string_index_table(&layout, &file, &mut index),
            Err(IndexErr::CorruptIndex)
        );
        assert_eq!(index.0, vec![entry(1, "abc")]);
    }
}

#[test]
fn string_read_with_keys_of_no_width() {
    let layout = string_layout(0, 0, 1);
    let file: Vec<u8> = vec![2, 0, 0, 0, 1, 0, 0, 0];
    let mut index = IndexString(vec![]);
    assert_eq!(read_string_index_table(&layout, &file, &mut index), Ok(()));
    assert_eq!(index.0, vec![entry(2, ""), entry(1, "")]);
}

#[test]
fn string_round_trip() {
    let layout = string_layout(0, 4, 4);
    let cases = vec![
        vec![],
        vec![entry(0, "only")],
        vec![entry(3, "aaaa"), entry(0, "abcd"), entry(9, "abcd"), entry(u32::MAX, "zzzz")],
    ];
    for entries in cases {
        let index = IndexString(entries);
        let mut file = Vec::new();
        write_string_index_table(&layout, &index, &mut file).unwrap();
        assert_eq!(file.len(), 8 * index.0.len());
        let mut back = IndexString(vec![]);
        read_string_index_table(&layout, &file, &mut back).unwrap();
        assert_eq!(back, index);
    }
}

#[test]
fn string_insert_places_entry_where_a_scan_would() {
    let start = vec![entry(0, "bb"), entry(3, "dd"), entry(5, "dd"), entry(1, "ff")];
    let cases = vec![
        (entry(9, "aa"), 0),
        (entry(9, "bb"), 1),
        (entry(9, "b"), 0),
        (entry(9, "bba"), 1),
        (entry(4, "dd"), 2),
        (entry(6, "dd"), 3),
        (entry(0, "ff"), 3),
        (entry(2, "ff"), 4),
        (entry(0, "zz"), 4),
    ];
    for (new, at) in cases {
        let mut index = IndexString(start.clone());
        assert_eq!(insert_string_index_table(new.clone(), &mut index), Ok(()));
        let scan = start
            .iter()
            .position(|e| (&e.key_value, e.row) > (&new.key_value, new.row))
            .unwrap_or(start.len());
        assert_eq!(scan, at);
        let mut expected = start.clone();
        expected.insert(at, new);
        assert_eq!(index.0, expected);
        assert!(is_sorted(&index));
    }
}

#[test]
fn string_insert_after_build_keeps_the_index_sorted() {
    let layout = string_layout(0, 2, 2);
    let rows = rows_of(&["mm", "cc", "xx", "cc"], 0, 2);
    let mut index = IndexString(vec![]);
    build_string_index_table(&layout, &rows, &mut index).unwrap();
    for (row, key) in [(4u32, "nn"), (5, "cc"), (6, "aa"), (7, "zz")] {
        insert_string_index_table(entry(row, key), &mut index).unwrap();
        assert!(is_sorted(&index));
    }
    assert_eq!(index.0.len(), 8);
    assert_eq!(index.0[0], entry(6, "aa"));
    assert_eq!(index.0[7], entry(7, "zz"));
}

#[test]
fn string_build_sorts_many_rows() {
    let layout = string_layout(0, 3, 3);
    let n: u32 = 50_000;
    let mut rows = Vec::new();
    for i in 0..n {
        let k = i.wrapping_mul(2_654_435_761) % 4_000;
        rows.extend_from_slice(&[(k % 7) as u8, (k % 251) as u8, (k % 13) as u8]);
    }
    let mut index = IndexString(vec![]);
    build_string_index_table(&layout, &rows, &mut index).unwrap();
    assert_eq!(index.0.len(), n as usize);
    assert!(is_sorted(&index));
    let mut expected: Vec<(Vec<u8>, u32)> =
        rows.chunks(3).enumerate().map(|(i, k)| (k.to_vec(), i as u32)).collect();
    expected.sort();
    let got: Vec<(Vec<u8>, u32)> = index.0.iter().map(|e| (e.key_value.clone(), e.row)).collect();
    assert_eq!(got, expected);
}
