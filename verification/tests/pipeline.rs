use multimerge_pg::copy_binary::CopyError;
use multimerge_pg::pipeline::{
    multimerge_binary_copy, multimerge_binary_copy_text, multimerge_binary_copy_text_arena, multimerge_stream,
};

fn header() -> Vec<u8> {
    let mut out = b"PGCOPY\n\xff\r\n\0".to_vec();
    out.extend_from_slice(&0i32.to_be_bytes());
    out.extend_from_slice(&0i32.to_be_bytes());
    out
}

fn tuple(out: &mut Vec<u8>, field: &[u8]) {
    out.extend_from_slice(&1i16.to_be_bytes());
    out.extend_from_slice(&(field.len() as i32).to_be_bytes());
    out.extend_from_slice(field);
}

fn trailer(out: &mut Vec<u8>) {
    out.extend_from_slice(&(-1i16).to_be_bytes());
}

#[test]
fn binary_copy_values_come_back_sorted() {
    let mut d = header();
    for v in [5i32, -1, 3, 3, 0] {
        tuple(&mut d, &v.to_be_bytes());
    }
    trailer(&mut d);
    assert_eq!(multimerge_binary_copy(&d), Ok(vec![-1, 0, 3, 3, 5]));
}

#[test]
fn binary_copy_of_truncated_stream_fails() {
    let mut d = header();
    tuple(&mut d, &5i32.to_be_bytes());
    assert_eq!(multimerge_binary_copy(&d), Err(CopyError::Truncated));
}

#[test]
fn text_fields_come_back_sorted_bytewise() {
    let mut d = header();
    for w in ["pear", "Apple", "apple", "app", "\u{e9}t\u{e9}"] {
        tuple(&mut d, w.as_bytes());
    }
    trailer(&mut d);
    let expected: Vec<Vec<u8>> = ["Apple", "app", "apple", "pear", "\u{e9}t\u{e9}"].iter().map(|s| s.as_bytes().to_vec()).collect();
    assert_eq!(multimerge_binary_copy_text(&d), Ok(expected.clone()));
    assert_eq!(multimerge_binary_copy_text_arena(&d), Ok(expected));
}

#[test]
fn text_arena_rejects_invalid_utf8() {
    let mut d = header();
    tuple(&mut d, b"ok");
    tuple(&mut d, &[0xff, 0xfe]);
    trailer(&mut d);
    assert_eq!(multimerge_binary_copy_text_arena(&d), Err(CopyError::InvalidUtf8));
    let unchecked = multimerge_binary_copy_text(&d).unwrap();
    assert_eq!(unchecked, vec![b"ok".to_vec(), vec![0xff, 0xfe]]);
}

#[test]
fn stream_drops_nulls_and_sorts() {
    let rows: Vec<Option<i64>> = vec![Some(4), None, Some(-2), Some(4), None, Some(1)];
    assert_eq!(multimerge_stream(&rows), vec![-2, 1, 4, 4]);
    let rows32: Vec<Option<i32>> = vec![None, None];
    assert_eq!(multimerge_stream(&rows32), Vec::<i32>::new());
}

#[test]
fn text_result_does_not_depend_on_input_order() {
    let words = ["kiwi", "fig", "kiwi", "date", "fig", "banana"];
    let mut a = header();
    for w in words.iter() {
        tuple(&mut a, w.as_bytes());
    }
    trailer(&mut a);
    let mut b = header();
    for w in words.iter().rev() {
        tuple(&mut b, w.as_bytes());
    }
    trailer(&mut b);
    assert_eq!(multimerge_binary_copy_text(&a), multimerge_binary_copy_text(&b));
}
