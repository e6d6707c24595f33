use pmm2vmd::common::{
    read_bytes, read_fix_items, read_flag, read_float3, read_float4, read_items, read_u32,
    try_read_fix_items, try_read_float3, try_read_items, write_items,
    read_u8, read_up_to, write_float3, write_float4, ByteCursor, FlagItem, ReadError, U32Item,
    U8Item,
};
use pmm2vmd::text::{read_string, try_read_string};

#[test]
fn reads_u32_little_endian() {
    let mut c = ByteCursor::new(vec![0x01, 0x02, 0x03, 0x04, 0xff]);
    assert_eq!(read_u32(&mut c), Ok(0x0403_0201));
    assert_eq!(c.position(), 4);
    assert_eq!(read_u32(&mut c), Err(ReadError::UnexpectedEof));
}

#[test]
fn reads_bytes_and_flags() {
    let mut c = ByteCursor::new(vec![7, 1, 2]);
    assert_eq!(read_u8(&mut c), Ok(7));
    assert_eq!(read_flag(&mut c), Ok(true));
    assert_eq!(read_flag(&mut c), Ok(false));
    assert_eq!(read_u8(&mut c), Err(ReadError::UnexpectedEof));
}

#[test]
fn reads_binary32_bit_patterns() {
    let one = 1.0f32.to_bits().to_le_bytes();
    let half = 0.5f32.to_bits().to_le_bytes();
    let mut data = Vec::new();
    for b in [one, half, one, half] {
        data.extend_from_slice(&b);
    }
    let mut c = ByteCursor::new(data.clone());
    assert_eq!(
        read_float3(&mut c),
        [1.0f32.to_bits(), 0.5f32.to_bits(), 1.0f32.to_bits()]
    );
    let mut c = ByteCursor::new(data);
    assert_eq!(
        read_float4(&mut c),
        [1.0f32.to_bits(), 0.5f32.to_bits(), 1.0f32.to_bits(), 0.5f32.to_bits()]
    );
    let mut short = ByteCursor::new(vec![0u8; 11]);
    assert_eq!(try_read_float3(&mut short), Err(ReadError::UnexpectedEof));
}

#[test]
fn reads_fixed_and_counted_runs() {
    let mut c = ByteCursor::new(vec![1, 2, 3, 4, 5]);
    assert_eq!(read_fix_items(&mut c, 3, &U8Item), vec![1, 2, 3]);
    assert_eq!(c.position(), 3);
    assert_eq!(try_read_fix_items(&mut c, 3, &U8Item), Err(ReadError::UnexpectedEof));

    let mut c = ByteCursor::new(vec![2, 0, 0, 0, 9, 0, 0, 0, 10, 0, 0, 0]);
    assert_eq!(read_items(&mut c, &U32Item), vec![9, 10]);
    assert_eq!(c.position(), 12);

    let mut c = ByteCursor::new(vec![3, 0, 0, 0, 1, 0]);
    assert_eq!(try_read_items(&mut c, &FlagItem), Err(ReadError::UnexpectedEof));
}

#[test]
fn read_up_to_stops_at_the_end() {
    let mut c = ByteCursor::new(vec![1, 2, 3]);
    assert_eq!(read_up_to(&mut c, 2), vec![1, 2]);
    assert_eq!(read_up_to(&mut c, 5), vec![3]);
    assert_eq!(read_up_to(&mut c, 5), Vec::<u8>::new());
    let mut c = ByteCursor::new(vec![1, 2, 3]);
    assert_eq!(read_bytes(&mut c, 4), Err(ReadError::UnexpectedEof));
    assert_eq!(read_bytes(&mut c, 3), Ok(vec![1, 2, 3]));
}

#[test]
fn reads_zero_padded_text() {
    let mut data = b"abc".to_vec();
    data.extend_from_slice(&[0, b'x', 0]);
    let mut c = ByteCursor::new(data);
    assert_eq!(read_string(&mut c, 6), "abc".to_string());
    assert_eq!(c.position(), 6);
    let mut c = ByteCursor::new(vec![b'a'; 3]);
    assert_eq!(try_read_string(&mut c, 4), Err(ReadError::UnexpectedEof));
    // Shift_JIS "センター"
    let mut c = ByteCursor::new(vec![0x83, 0x5a, 0x83, 0x93, 0x83, 0x5e, 0x81, 0x5b, 0, 0]);
    assert_eq!(read_string(&mut c, 10), "センター".to_string());
}

#[test]
fn written_words_read_back() {
    let mut file = Vec::new();
    write_float3(&mut file, [1, 0x3f80_0000, 0xdead_beef]);
    write_float4(&mut file, [5, 6, 7, u32::MAX]);
    assert_eq!(file.len(), 28);
    assert_eq!(&file[..4], &[1, 0, 0, 0]);
    assert_eq!(&file[8..12], &[0xef, 0xbe, 0xad, 0xde]);
    let mut c = ByteCursor::new(file);
    assert_eq!(read_float3(&mut c), [1, 0x3f80_0000, 0xdead_beef]);
    assert_eq!(read_float4(&mut c), [5, 6, 7, u32::MAX]);
}

#[test]
fn a_run_read_in_two_parts_is_the_whole_run() {
    let data = vec![1, 2, 3, 4, 5, 6];
    let mut whole = ByteCursor::new(data.clone());
    let all = read_fix_items(&mut whole, 5, &U8Item);
    let mut parts = ByteCursor::new(data);
    let mut first = read_fix_items(&mut parts, 2, &U8Item);
    let second = read_fix_items(&mut parts, 3, &U8Item);
    first.extend(second);
    assert_eq!(all, first);
    assert_eq!(whole.position(), parts.position());
    let mut short = ByteCursor::new(vec![1, 2]);
    assert_eq!(try_read_fix_items(&mut short, 3, &U8Item), Err(ReadError::UnexpectedEof));
}

#[test]
fn written_items_read_back() {
    let words: Vec<u32> = vec![9, 0xdead_beef, 0];
    let mut file = vec![0xaa];
    write_items(&mut file, &words);
    assert_eq!(file.len(), 1 + 4 + 12);
    file.push(0xbb);
    let mut c = ByteCursor::new(file);
    assert_eq!(read_u8(&mut c), Ok(0xaa));
    assert_eq!(read_items(&mut c, &U32Item), words);
    assert_eq!(c.position(), 17);
}
