use switchboard_accounts::wire::{
    put_bytes, put_i64, put_u32, put_u64, read_array, read_i64, read_rows, read_u32, read_u64,
    same_bytes, strip_tag, take_array, take_flag, take_i64, take_prefixed, take_u32, take_u64,
    TAG_LEN,
};
use switchboard_accounts::AccountError;

#[test]
fn reads_numbers_least_significant_byte_first() {
    let data = [0xAA, 0x78, 0x56, 0x34, 0x12, 0xEF, 0xCD, 0xAB, 0x89, 0xBB];
    assert_eq!(read_u32(&data, 1), 0x1234_5678);
    assert_eq!(read_u32(&data, 0), 0x3456_78AA);
    assert_eq!(read_u64(&data, 1), 0x89AB_CDEF_1234_5678);
    assert_eq!(read_i64(&data, 1), 0x89AB_CDEF_1234_5678u64 as i64);
    assert_eq!(read_u32(&[0xFF; 4], 0), u32::MAX);
    assert_eq!(read_u64(&[0xFF; 8], 0), u64::MAX);
    assert_eq!(read_i64(&[0xFF; 8], 0), -1);
    assert_eq!(read_i64(&[0, 0, 0, 0, 0, 0, 0, 0x80], 0), i64::MIN);
    assert_eq!(read_i64(&[0xFF, 0xFF, 0xFF, 0xFF, 0xFF, 0xFF, 0xFF, 0x7F], 0), i64::MAX);
    assert_eq!(read_i64(&[1, 0, 0, 0, 0, 0, 0, 0], 0), 1);
}

#[test]
fn reads_agree_with_the_standard_library() {
    let samples: [u64; 6] = [0, 1, 0xFF, 0x0102_0304_0506_0708, u64::MAX, 1 << 63];
    for v in samples {
        assert_eq!(read_u64(&v.to_le_bytes(), 0), v);
        assert_eq!(read_i64(&v.to_le_bytes(), 0), v as i64);
        assert_eq!(read_u32(&(v as u32).to_le_bytes(), 0), v as u32);
    }
}

#[test]
fn read_array_copies_the_bytes_at_its_place() {
    let data: Vec<u8> = (0u8..100).collect();
    let got: [u8; 32] = read_array::<32>(&data, 10);
    for k in 0..32usize {
        assert_eq!(got[k], 10 + k as u8);
    }
    let all: [u8; 100] = read_array::<100>(&data, 0);
    assert_eq!(&all[..], &data[..]);
    let none: [u8; 0] = read_array::<0>(&data, 100);
    assert_eq!(none.len(), 0);
    let last: [u8; 1] = read_array::<1>(&data, 99);
    assert_eq!(last, [99]);
}

#[test]
fn read_rows_lays_the_rows_out_in_order() {
    let data: Vec<u8> = (0u8..50).collect();
    let rows: [[u8; 4]; 3] = read_rows::<4, 3>(&data, 5);
    assert_eq!(rows, [[5, 6, 7, 8], [9, 10, 11, 12], [13, 14, 15, 16]]);
    let none: [[u8; 4]; 0] = read_rows::<4, 0>(&data, 50);
    assert_eq!(none.len(), 0);
}

#[test]
fn same_bytes_compares_length_and_content() {
    assert!(same_bytes(&[], &[]));
    assert!(same_bytes(&[1, 2, 3], &[1, 2, 3]));
    assert!(!same_bytes(&[1, 2, 3], &[1, 2, 4]));
    assert!(!same_bytes(&[0, 2, 3], &[1, 2, 3]));
    assert!(!same_bytes(&[1, 2, 3], &[1, 2]));
    assert!(!same_bytes(&[1, 2], &[1, 2, 3]));
    assert!(!same_bytes(&[], &[0]));
}

#[test]
fn takes_advance_the_reader() {
    let mut data = Vec::new();
    data.extend_from_slice(&0xDEAD_BEEFu32.to_le_bytes());
    data.extend_from_slice(&0x0123_4567_89AB_CDEFu64.to_le_bytes());
    data.extend_from_slice(&(-5i64).to_le_bytes());
    data.extend_from_slice(&[7, 8, 9]);
    data.push(1);
    data.push(0);
    data.extend_from_slice(&2u32.to_le_bytes());
    data.extend_from_slice(&[0x10, 0x20, 0x30]);
    let mut reader: &[u8] = &data;
    assert_eq!(take_u32(&mut reader), Ok(0xDEAD_BEEF));
    assert_eq!(reader.len(), data.len() - 4);
    assert_eq!(take_u64(&mut reader), Ok(0x0123_4567_89AB_CDEF));
    assert_eq!(take_i64(&mut reader), Ok(-5));
    assert_eq!(take_array::<3>(&mut reader), Ok([7, 8, 9]));
    assert_eq!(take_flag(&mut reader), Ok(true));
    assert_eq!(take_flag(&mut reader), Ok(false));
    assert_eq!(take_prefixed(&mut reader), Ok(vec![0x10, 0x20]));
    assert_eq!(reader, &[0x30]);
}

#[test]
fn takes_leave_a_short_reader_alone() {
    let data = [1u8, 2, 3];
    let mut reader: &[u8] = &data;
    assert_eq!(take_u32(&mut reader), Err(AccountError::ReadExhausted));
    assert_eq!(reader, &data);
    assert_eq!(take_u64(&mut reader), Err(AccountError::ReadExhausted));
    assert_eq!(take_i64(&mut reader), Err(AccountError::ReadExhausted));
    assert_eq!(take_array::<4>(&mut reader), Err(AccountError::ReadExhausted));
    assert_eq!(take_prefixed(&mut reader), Err(AccountError::ReadExhausted));
    assert_eq!(reader, &data);
    let mut empty: &[u8] = &[];
    assert_eq!(take_flag(&mut empty), Err(AccountError::ReadExhausted));
    assert_eq!(take_array::<0>(&mut empty), Ok([]));
}

#[test]
fn take_flag_turns_down_other_bytes() {
    for byte in 2..=255u8 {
        let data = [byte, 0];
        let mut reader: &[u8] = &data;
        assert_eq!(take_flag(&mut reader), Err(AccountError::ReadExhausted));
        assert_eq!(reader, &data);
    }
}

#[test]
fn take_prefixed_wants_the_whole_run() {
    let mut data = Vec::new();
    data.extend_from_slice(&5u32.to_le_bytes());
    data.extend_from_slice(&[1, 2, 3, 4]);
    let mut reader: &[u8] = &data;
    assert_eq!(take_prefixed(&mut reader), Err(AccountError::ReadExhausted));
    assert_eq!(reader, &data[..]);
    data.push(5);
    let mut reader: &[u8] = &data;
    assert_eq!(take_prefixed(&mut reader), Ok(vec![1, 2, 3, 4, 5]));
    assert!(reader.is_empty());
    let zero = 0u32.to_le_bytes();
    let mut reader: &[u8] = &zero;
    assert_eq!(take_prefixed(&mut reader), Ok(vec![]));
    assert!(reader.is_empty());
}

#[test]
fn puts_append_little_endian_bytes() {
    let mut out = vec![0xAAu8];
    put_u32(&mut out, 0x1234_5678);
    assert_eq!(out, vec![0xAA, 0x78, 0x56, 0x34, 0x12]);
    put_u64(&mut out, 0x0102_0304_0506_0708);
    assert_eq!(&out[5..], &[8, 7, 6, 5, 4, 3, 2, 1]);
    put_i64(&mut out, -1);
    assert_eq!(&out[13..], &[0xFF; 8]);
    put_i64(&mut out, i64::MIN);
    assert_eq!(&out[21..], &[0, 0, 0, 0, 0, 0, 0, 0x80]);
    put_bytes(&mut out, &[1, 2, 3]);
    assert_eq!(&out[29..], &[1, 2, 3]);
    put_bytes(&mut out, &[]);
    assert_eq!(out.len(), 32);
}

#[test]
fn puts_agree_with_the_standard_library() {
    let samples: [i64; 7] = [0, 1, -1, i64::MIN, i64::MAX, 1_700_000_000, -123_456_789_012];
    for v in samples {
        let mut out = Vec::new();
        put_i64(&mut out, v);
        assert_eq!(out, v.to_le_bytes().to_vec());
        let mut out = Vec::new();
        put_u64(&mut out, v as u64);
        assert_eq!(out, (v as u64).to_le_bytes().to_vec());
        let mut out = Vec::new();
        put_u32(&mut out, v as u32);
        assert_eq!(out, (v as u32).to_le_bytes().to_vec());
        assert_eq!(read_i64(&v.to_le_bytes(), 0), v);
    }
}

#[test]
fn strip_tag_checks_the_first_eight_bytes() {
    let tag = [1u8, 2, 3, 4, 5, 6, 7, 8];
    let data = [1u8, 2, 3, 4, 5, 6, 7, 8, 9, 10];
    assert_eq!(strip_tag(&data, &tag), Ok(&data[8..]));
    assert_eq!(strip_tag(&data[..8], &tag), Ok(&data[..0]));
    for len in 0..8usize {
        assert_eq!(strip_tag(&data[..len], &tag), Err(AccountError::AccountTooShort));
    }
    for at in 0..8usize {
        let mut other = data;
        other[at] = 0;
        assert_eq!(strip_tag(&other, &tag), Err(AccountError::DiscriminatorMismatch));
    }
    assert_eq!(TAG_LEN, 8);
}
