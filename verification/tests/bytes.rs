use tinyavif::util::{write_be_bytes, write_leb128};

#[test]
fn be_bytes_of_each_length() {
    let value: u64 = 0x0102_0304_0506_0708;
    let all = [0x01u8, 0x02, 0x03, 0x04, 0x05, 0x06, 0x07, 0x08];
    for n in 0..=8usize {
        let masked = if n == 8 { value } else { value & ((1u64 << (8 * n)) - 1) };
        let mut w = Vec::new();
        write_be_bytes(&mut w, masked, n);
        assert_eq!(&w[..], &all[8 - n..]);
    }
}

#[test]
fn be_bytes_of_no_bytes_writes_nothing() {
    let mut w = vec![9u8];
    write_be_bytes(&mut w, 0, 0);
    assert_eq!(w, vec![9u8]);
}

#[test]
fn be_bytes_appends_after_what_is_there() {
    let mut w = vec![0xAAu8, 0xBB];
    write_be_bytes(&mut w, 0x1234, 2);
    assert_eq!(w, vec![0xAAu8, 0xBB, 0x12, 0x34]);
    write_be_bytes(&mut w, 0x56, 3);
    assert_eq!(w, vec![0xAAu8, 0xBB, 0x12, 0x34, 0x00, 0x00, 0x56]);
}

#[test]
fn be_bytes_of_the_largest_value() {
    let mut w = Vec::new();
    write_be_bytes(&mut w, u64::MAX, 8);
    assert_eq!(w, vec![0xFFu8; 8]);
}

#[test]
fn leb128_of_zero_is_one_zero_byte() {
    let mut w = Vec::new();
    write_leb128(&mut w, 0);
    assert_eq!(w, vec![0u8]);
}

#[test]
fn leb128_of_small_values_is_one_byte() {
    for v in [1usize, 2, 63, 127] {
        let mut w = Vec::new();
        write_leb128(&mut w, v);
        assert_eq!(w, vec![v as u8]);
    }
}

#[test]
fn leb128_of_larger_values() {
    let cases: [(usize, &[u8]); 6] = [
        (128, &[0x80, 0x01]),
        (300, &[0xAC, 0x02]),
        (16383, &[0xFF, 0x7F]),
        (16384, &[0x80, 0x80, 0x01]),
        (624485, &[0xE5, 0x8E, 0x26]),
        (0xFFFF_FFFF, &[0xFF, 0xFF, 0xFF, 0xFF, 0x0F]),
    ];
    for (v, expected) in cases {
        let mut w = Vec::new();
        write_leb128(&mut w, v);
        assert_eq!(&w[..], expected);
    }
}

#[test]
fn leb128_appends_after_what_is_there() {
    let mut w = vec![7u8];
    write_leb128(&mut w, 300);
    write_leb128(&mut w, 0);
    assert_eq!(w, vec![7u8, 0xAC, 0x02, 0x00]);
}

#[test]
fn leb128_reads_back() {
    let mut v: usize = 1;
    while v < (1 << 30) {
        let mut w = Vec::new();
        write_leb128(&mut w, v);
        let mut back: usize = 0;
        for (i, byte) in w.iter().enumerate() {
            back |= ((byte & 0x7F) as usize) << (7 * i);
            assert_eq!(byte & 0x80 != 0, i + 1 < w.len());
        }
        assert_eq!(back, v);
        v = v * 5 + 3;
    }
}
