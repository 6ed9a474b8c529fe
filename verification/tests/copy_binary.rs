use multimerge_pg::copy_binary::{
    decode_byte_column, decode_int_column, read_i16_be, read_i32_be, skip_binary_copy_header, CopyError,
};

const SIGNATURE: &[u8; 11] = b"PGCOPY\n\xff\r\n\0";

fn header(ext: &[u8]) -> Vec<u8> {
    let mut out = SIGNATURE.to_vec();
    out.extend_from_slice(&0i32.to_be_bytes());
    out.extend_from_slice(&(ext.len() as i32).to_be_bytes());
    out.extend_from_slice(ext);
    out
}

fn int_tuple(out: &mut Vec<u8>, v: i32) {
    out.extend_from_slice(&1i16.to_be_bytes());
    out.extend_from_slice(&4i32.to_be_bytes());
    out.extend_from_slice(&v.to_be_bytes());
}

fn bytes_tuple(out: &mut Vec<u8>, b: &[u8]) {
    out.extend_from_slice(&1i16.to_be_bytes());
    out.extend_from_slice(&(b.len() as i32).to_be_bytes());
    out.extend_from_slice(b);
}

fn null_tuple(out: &mut Vec<u8>) {
    out.extend_from_slice(&1i16.to_be_bytes());
    out.extend_from_slice(&(-1i32).to_be_bytes());
}

fn trailer(out: &mut Vec<u8>) {
    out.extend_from_slice(&(-1i16).to_be_bytes());
}

#[test]
fn reads_big_endian_integers() {
    let data = [0x80u8, 0x01, 0xff, 0xff, 0xff, 0xfe, 0x12, 0x34];
    assert_eq!(read_i16_be(&data, 0), Ok(i16::from_be_bytes([0x80, 0x01])));
    assert_eq!(read_i16_be(&data, 6), Ok(0x1234));
    assert_eq!(read_i32_be(&data, 2), Ok(-2));
    assert_eq!(read_i32_be(&data, 4), Ok(i32::from_be_bytes([0xff, 0xfe, 0x12, 0x34])));
    assert_eq!(read_i16_be(&data, 7), Err(CopyError::Truncated));
    assert_eq!(read_i32_be(&data, 5), Err(CopyError::Truncated));
    assert_eq!(read_i32_be(&data, 100), Err(CopyError::Truncated));
}

#[test]
fn header_without_extension() {
    let h = header(&[]);
    assert_eq!(skip_binary_copy_header(&h), Ok(19));
}

#[test]
fn header_with_extension_is_skipped() {
    let h = header(&[1, 2, 3]);
    assert_eq!(skip_binary_copy_header(&h), Ok(22));
    assert_eq!(skip_binary_copy_header(&h[..21]), Err(CopyError::Truncated));
    assert_eq!(skip_binary_copy_header(&h[..10]), Err(CopyError::Truncated));
}

#[test]
fn decodes_int_column_skipping_nulls_and_other_widths() {
    let mut d = header(&[]);
    int_tuple(&mut d, 7);
    null_tuple(&mut d);
    int_tuple(&mut d, -3);
    bytes_tuple(&mut d, &[1, 2, 3, 4, 5, 6, 7, 8]);
    int_tuple(&mut d, 100);
    trailer(&mut d);
    d.extend_from_slice(&[9, 9, 9]);
    assert_eq!(decode_int_column(&d), Ok(vec![7, -3, 100]));
}

#[test]
fn truncated_int_stream_is_an_error() {
    let mut d = header(&[]);
    int_tuple(&mut d, 7);
    assert_eq!(decode_int_column(&d), Err(CopyError::Truncated));
    let mut e = header(&[]);
    int_tuple(&mut e, 7);
    e.extend_from_slice(&1i16.to_be_bytes());
    e.extend_from_slice(&4i32.to_be_bytes());
    e.extend_from_slice(&[0, 0]);
    assert_eq!(decode_int_column(&e), Err(CopyError::Truncated));
}

#[test]
fn decodes_byte_column_skipping_nulls_and_empty_fields() {
    let mut d = header(&[]);
    bytes_tuple(&mut d, b"pear");
    null_tuple(&mut d);
    bytes_tuple(&mut d, b"");
    bytes_tuple(&mut d, b"apple");
    trailer(&mut d);
    assert_eq!(decode_byte_column(&d), Ok(vec![b"pear".to_vec(), b"apple".to_vec()]));
}

#[test]
fn byte_field_longer_than_stream_is_an_error() {
    let mut d = header(&[]);
    d.extend_from_slice(&1i16.to_be_bytes());
    d.extend_from_slice(&10i32.to_be_bytes());
    d.extend_from_slice(b"abc");
    assert_eq!(decode_byte_column(&d), Err(CopyError::Truncated));
}
