use dispatch::bits::{
    can_read_bytes, can_read_bytes_pair, read_bytes, read_bytes_pair, read_u32, read_u64,
    write_bytes, write_u32, write_u64,
};
use dispatch::layout::{put_bytes, put_exact, put_u32, put_u64, Reader};

#[test]
fn read_u32_is_big_endian() {
    let data = [0x01, 0x02, 0x03, 0x04];
    assert_eq!(read_u32(0, &data), 0x0102_0304);
}

#[test]
fn read_u32_reads_at_the_offset() {
    let data = [0xff, 0xff, 0x00, 0x00, 0x01, 0x02, 0xff];
    assert_eq!(read_u32(2, &data), 258);
}

#[test]
fn read_u64_takes_each_byte_at_its_place() {
    let data = [0x01, 0x02, 0x03, 0x04, 0x05, 0x06, 0x07, 0x08];
    assert_eq!(read_u64(0, &data), 0x0102_0304_0506_0708);
}

#[test]
fn read_u64_is_not_the_first_byte_repeated() {
    let data = [0x00, 0x00, 0x00, 0x00, 0x00, 0x00, 0x00, 0x64];
    assert_eq!(read_u64(0, &data), 100);
    let data = [0xaa, 0x00, 0x00, 0x00, 0x00, 0x00, 0x00, 0x00];
    assert_eq!(read_u64(0, &data), 0xaa00_0000_0000_0000);
}

#[test]
fn read_u64_reads_at_the_offset() {
    let data = [0x03, 0x00, 0x00, 0x00, 0x00, 0x00, 0x00, 0x01, 0x00, 0x09];
    assert_eq!(read_u64(1, &data), 256);
}

#[test]
fn read_bytes_returns_what_follows_the_length() {
    let data = [0x09, 0x00, 0x00, 0x00, 0x03, 0xaa, 0xbb, 0xcc, 0xdd];
    assert_eq!(read_bytes(1, &data), vec![0xaa, 0xbb, 0xcc]);
}

#[test]
fn read_bytes_of_length_zero_is_empty() {
    let data = [0x00, 0x00, 0x00, 0x00];
    assert_eq!(read_bytes(0, &data), Vec::<u8>::new());
}

#[test]
fn read_bytes_pair_starts_the_second_where_the_first_ends() {
    let data = [
        0x42, 0x00, 0x00, 0x00, 0x01, b'k', 0x00, 0x00, 0x00, 0x02, b'v', b'w', 0x99,
    ];
    let (first, second) = read_bytes_pair(1, &data);
    assert_eq!(first, vec![b'k']);
    assert_eq!(second, vec![b'v', b'w']);
}

#[test]
fn read_bytes_pair_with_an_empty_first() {
    let data = [0x00, 0x00, 0x00, 0x00, 0x00, 0x00, 0x00, 0x01, 0x07];
    let (first, second) = read_bytes_pair(0, &data);
    assert_eq!(first, Vec::<u8>::new());
    assert_eq!(second, vec![0x07]);
}

#[test]
fn can_read_bytes_says_when_bytes_are_missing() {
    assert!(can_read_bytes(0, &[0, 0, 0, 2, 1, 2]));
    assert!(can_read_bytes(0, &[0, 0, 0, 0]));
    assert!(!can_read_bytes(0, &[0, 0, 0, 2, 1]));
    assert!(!can_read_bytes(0, &[0, 0, 0]));
    assert!(!can_read_bytes(3, &[0, 0, 0, 0]));
    assert!(!can_read_bytes(0, &[]));
    assert!(!can_read_bytes(0, &[0xff, 0xff, 0xff, 0xff, 1, 2, 3]));
}

#[test]
fn can_read_bytes_pair_wants_both() {
    assert!(can_read_bytes_pair(0, &[0, 0, 0, 1, 9, 0, 0, 0, 0]));
    assert!(!can_read_bytes_pair(0, &[0, 0, 0, 1, 9, 0, 0, 0]));
    assert!(!can_read_bytes_pair(0, &[0, 0, 0, 1, 9, 0, 0, 0, 1]));
    assert!(!can_read_bytes_pair(0, &[0, 0, 0, 1]));
}

#[test]
fn write_u32_is_big_endian() {
    let mut out = vec![0x7f];
    write_u32(&mut out, 0x0102_0304);
    assert_eq!(out, vec![0x7f, 0x01, 0x02, 0x03, 0x04]);
}

#[test]
fn write_u64_is_big_endian() {
    let mut out = Vec::new();
    write_u64(&mut out, 0x0102_0304_0506_0708);
    assert_eq!(out, vec![0x01, 0x02, 0x03, 0x04, 0x05, 0x06, 0x07, 0x08]);
}

#[test]
fn write_bytes_puts_the_length_in_front() {
    let mut out = Vec::new();
    write_bytes(&mut out, &[0xaa, 0xbb]);
    assert_eq!(out, vec![0, 0, 0, 2, 0xaa, 0xbb]);
}

#[test]
fn u32_written_at_offset_zero_is_read_back() {
    for value in [0u32, 1, 255, 256, 0x00ff_ff00, 0x8000_0000, u32::MAX] {
        let mut out = Vec::new();
        write_u32(&mut out, value);
        out.extend_from_slice(&[0xee; 5]);
        assert_eq!(read_u32(0, &out), value);
    }
}

#[test]
fn u64_written_at_offset_zero_is_read_back() {
    for value in [0u64, 1, 0xff, 0x0100, 0x0123_4567_89ab_cdef, 1 << 63, u64::MAX] {
        let mut out = Vec::new();
        write_u64(&mut out, value);
        out.extend_from_slice(&[0xee; 3]);
        assert_eq!(read_u64(0, &out), value);
    }
}

#[test]
fn bytes_written_are_read_back() {
    let long: Vec<u8> = (0..300).map(|i| (i % 251) as u8).collect();
    for bytes in [Vec::new(), vec![0u8], vec![1, 2, 3], long] {
        let mut out = Vec::new();
        write_bytes(&mut out, &bytes);
        out.push(0x55);
        assert!(can_read_bytes(0, &out));
        assert_eq!(read_bytes(0, &out), bytes);
    }
}

#[test]
fn reader_walks_the_buffer_front_to_back() {
    let data = [7, 0, 1, 0, 0, 9, 0, 0, 0, 0, 0, 0, 0, 2, 0, 0, 0, 0xaa, 0xbb, 0x33, 0x44];
    let mut reader = Reader::new(&data);
    assert_eq!(reader.take_u8(), Some(7));
    assert_eq!(reader.take_u32(), Some(256));
    assert_eq!(reader.take_u64(), Some(9));
    assert_eq!(reader.take_bytes(), Some(vec![0xaa, 0xbb]));
    assert_eq!(reader.take_u32(), None);
    assert_eq!(reader.take_exact(3), None);
    assert_eq!(reader.take_exact(1), Some(vec![0x33]));
    assert_eq!(reader.take_exact(0), Some(vec![]));
    assert_eq!(reader.take_u8(), Some(0x44));
    assert_eq!(reader.take_u8(), None);
}

#[test]
fn reader_does_not_move_when_it_fails() {
    let data = [5, 0, 0, 0, 1, 2];
    let mut reader = Reader::new(&data);
    assert_eq!(reader.take_bytes(), None);
    assert_eq!(reader.take_u64(), None);
    assert_eq!(reader.take_u32(), Some(5));
}

#[test]
fn reader_takes_integers_least_significant_byte_first() {
    let data = [0x04, 0x03, 0x02, 0x01, 0x08, 0x07, 0x06, 0x05, 0x04, 0x03, 0x02, 0x01];
    let mut reader = Reader::new(&data);
    assert_eq!(reader.take_u32(), Some(0x0102_0304));
    assert_eq!(reader.take_u64(), Some(0x0102_0304_0506_0708));
}

#[test]
fn fields_are_put_least_significant_byte_first() {
    let mut out = Vec::new();
    put_u32(&mut out, 0x0102_0304);
    put_u64(&mut out, 0x0102_0304_0506_0708);
    put_bytes(&mut out, &[0xaa, 0xbb]);
    put_exact(&mut out, &[0xcc]);
    assert_eq!(
        out,
        vec![4, 3, 2, 1, 8, 7, 6, 5, 4, 3, 2, 1, 2, 0, 0, 0, 0xaa, 0xbb, 0xcc]
    );
}

#[test]
fn fields_put_are_taken_back() {
    for (number, long, bytes) in
        [(0u32, 0u64, vec![]), (u32::MAX, u64::MAX, vec![0u8; 70]), (0x8000_0001, 1 << 40, vec![9])]
    {
        let mut out = Vec::new();
        put_u32(&mut out, number);
        put_u64(&mut out, long);
        put_bytes(&mut out, &bytes);
        let mut reader = Reader::new(&out);
        assert_eq!(reader.take_u32(), Some(number));
        assert_eq!(reader.take_u64(), Some(long));
        assert_eq!(reader.take_bytes(), Some(bytes));
        assert_eq!(reader.take_u8(), None);
    }
}
