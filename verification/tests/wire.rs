use kf_protocol_message::wire::{
    get_bool, get_bytes, get_i16, get_i32, get_i32_array, get_nullable_string, get_string,
    get_string_array, put_bool, put_bytes, put_i16, put_i32, put_i32_array, put_nullable_string,
    put_string, put_string_array, KfError,
};

#[test]
fn int16_is_big_endian_twos_complement() {
    let mut out = Vec::new();
    put_i16(&mut out, 0x0102);
    put_i16(&mut out, -1);
    put_i16(&mut out, i16::MIN);
    assert_eq!(out, vec![0x01, 0x02, 0xff, 0xff, 0x80, 0x00]);
    assert_eq!(get_i16(&out, 0), Ok((0x0102, 2)));
    assert_eq!(get_i16(&out, 2), Ok((-1, 2)));
    assert_eq!(get_i16(&out, 4), Ok((i16::MIN, 2)));
    assert_eq!(get_i16(&out, 5), Err(KfError::UnexpectedEof));
}

#[test]
fn int32_is_big_endian_twos_complement() {
    let mut out = Vec::new();
    put_i32(&mut out, 0x01020304);
    put_i32(&mut out, -2);
    assert_eq!(out, vec![1, 2, 3, 4, 0xff, 0xff, 0xff, 0xfe]);
    assert_eq!(get_i32(&out, 0), Ok((0x01020304, 4)));
    assert_eq!(get_i32(&out, 4), Ok((-2, 4)));
    assert_eq!(get_i32(&out, 5), Err(KfError::UnexpectedEof));
    let mut max = Vec::new();
    put_i32(&mut max, i32::MAX);
    put_i32(&mut max, i32::MIN);
    assert_eq!(max, vec![0x7f, 0xff, 0xff, 0xff, 0x80, 0, 0, 0]);
    assert_eq!(get_i32(&max, 4), Ok((i32::MIN, 4)));
}

#[test]
fn boolean_is_one_byte_and_any_nonzero_reads_true() {
    let mut out = Vec::new();
    put_bool(&mut out, true);
    put_bool(&mut out, false);
    assert_eq!(out, vec![1, 0]);
    assert_eq!(get_bool(&[2u8], 0), Ok((true, 1)));
    assert_eq!(get_bool(&[0u8], 0), Ok((false, 1)));
    assert_eq!(get_bool(&[], 0), Err(KfError::UnexpectedEof));
}

#[test]
fn string_has_int16_byte_length() {
    let mut out = Vec::new();
    put_string(&mut out, &"héllo".to_string()).unwrap();
    assert_eq!(out, vec![0, 6, b'h', 0xc3, 0xa9, b'l', b'l', b'o']);
    let (s, n) = get_string(&out, 0).unwrap();
    assert_eq!(s, "héllo");
    assert_eq!(n, 8);
}

#[test]
fn string_too_long_is_refused_and_nothing_written() {
    let mut out = vec![9u8];
    let long = "a".repeat(32768);
    assert_eq!(put_string(&mut out, &long), Err(KfError::TooLong));
    assert_eq!(out, vec![9u8]);
    let fits = "a".repeat(32767);
    assert_eq!(put_string(&mut out, &fits), Ok(()));
    assert_eq!(out.len(), 1 + 2 + 32767);
}

#[test]
fn string_errors() {
    assert_eq!(get_string(&[0xff, 0xff], 0), Err(KfError::InvalidLength));
    assert_eq!(get_string(&[0, 3, b'a'], 0), Err(KfError::UnexpectedEof));
    assert_eq!(get_string(&[0, 2, 0xc3, 0x28], 0), Err(KfError::InvalidUtf8));
    assert_eq!(get_string(&[0], 0), Err(KfError::UnexpectedEof));
}

#[test]
fn nullable_string_null_is_minus_one() {
    let mut out = Vec::new();
    put_nullable_string(&mut out, &None).unwrap();
    put_nullable_string(&mut out, &Some("r1".to_string())).unwrap();
    assert_eq!(out, vec![0xff, 0xff, 0, 2, b'r', b'1']);
    assert_eq!(get_nullable_string(&out, 0), Ok((None, 2)));
    assert_eq!(get_nullable_string(&out, 2), Ok((Some("r1".to_string()), 4)));
    assert_eq!(get_nullable_string(&[0xff, 0xfe], 0), Err(KfError::InvalidLength));
}

#[test]
fn bytes_have_int32_length() {
    let mut out = Vec::new();
    put_bytes(&mut out, &vec![7u8, 8, 9]).unwrap();
    assert_eq!(out, vec![0, 0, 0, 3, 7, 8, 9]);
    assert_eq!(get_bytes(&out, 0), Ok((vec![7u8, 8, 9], 7)));
    assert_eq!(get_bytes(&[0xff, 0xff, 0xff, 0xff], 0), Err(KfError::InvalidLength));
    assert_eq!(get_bytes(&[0, 0, 0, 2, 1], 0), Err(KfError::UnexpectedEof));
}

#[test]
fn arrays_have_int32_count() {
    let mut out = Vec::new();
    put_i32_array(&mut out, &vec![1, -1]).unwrap();
    assert_eq!(out, vec![0, 0, 0, 2, 0, 0, 0, 1, 0xff, 0xff, 0xff, 0xff]);
    assert_eq!(get_i32_array(&out, 0), Ok((vec![1, -1], 12)));
    let mut strs = Vec::new();
    put_string_array(&mut strs, &vec!["a".to_string(), "bc".to_string()]).unwrap();
    assert_eq!(strs, vec![0, 0, 0, 2, 0, 1, b'a', 0, 2, b'b', b'c']);
    assert_eq!(get_string_array(&strs, 0), Ok((vec!["a".to_string(), "bc".to_string()], 11)));
}

#[test]
fn array_errors() {
    assert_eq!(get_i32_array(&[0xff, 0xff, 0xff, 0xff], 0), Err(KfError::InvalidLength));
    assert_eq!(get_i32_array(&[0, 0, 0, 2, 0, 0, 0, 1], 0), Err(KfError::UnexpectedEof));
    assert_eq!(get_string_array(&[0, 0, 0, 1, 0xff, 0xfe], 0), Err(KfError::InvalidLength));
}

#[test]
fn reading_at_an_offset() {
    let src = vec![0xaa, 0xbb, 0, 0, 0, 5];
    assert_eq!(get_i32(&src, 2), Ok((5, 4)));
    assert_eq!(get_i32(&src, 6), Err(KfError::UnexpectedEof));
}
