use tinyavif::entropycode::EntropyWriter;

/// The symbol decoder of AV1, without adaptation of the distributions. Bits
/// past the end of the stream read as zero.
struct Decoder<'a> {
    bytes: &'a [u8],
    bit_pos: usize,
    value: u32,
    range: u32,
    max_bits: i64,
}

impl<'a> Decoder<'a> {
    fn new(bytes: &'a [u8]) -> Self {
        let mut d = Decoder { bytes, bit_pos: 0, value: 0, range: 1 << 15, max_bits: 0 };
        let num_bits = std::cmp::min(bytes.len() * 8, 15) as u32;
        let buf = d.read_bits(num_bits);
        let padded = buf << (15 - num_bits);
        d.value = ((1 << 15) - 1) ^ padded;
        d.max_bits = 8 * bytes.len() as i64 - 15;
        d
    }

    fn read_bits(&mut self, n: u32) -> u32 {
        let mut x = 0;
        for _ in 0..n {
            let byte = self.bytes.get(self.bit_pos >> 3).copied().unwrap_or(0);
            x = (x << 1) | ((byte >> (7 - (self.bit_pos & 7))) & 1) as u32;
            self.bit_pos += 1;
        }
        x
    }

    fn symbol(&mut self, cdf: &[u16]) -> usize {
        let n = cdf.len() + 1;
        let mut cur = self.range;
        let mut prev;
        let mut symbol = 0;
        loop {
            prev = cur;
            let f = if symbol < cdf.len() { 32768 - cdf[symbol] as u32 } else { 0 };
            cur = (((self.range >> 8) * (f >> 6)) >> 1) + 4 * (n - symbol - 1) as u32;
            if self.value >= cur {
                break;
            }
            symbol += 1;
        }
        self.range = prev - cur;
        self.value -= cur;
        let bits = 15 - (31 - self.range.leading_zeros());
        self.range <<= bits;
        let num_bits = std::cmp::min(bits as i64, std::cmp::max(0, self.max_bits)) as u32;
        let new_data = self.read_bits(num_bits);
        let padded = new_data << (bits - num_bits);
        self.value = padded ^ (((self.value + 1) << bits) - 1);
        self.max_bits -= bits as i64;
        symbol
    }

    fn bit(&mut self, p_zero: u16) -> usize {
        self.symbol(&[p_zero])
    }

    fn literal(&mut self, nbits: u32) -> u32 {
        let mut x: u64 = 0;
        for _ in 0..nbits {
            x = (x << 1) | self.bit(16384) as u64;
        }
        x as u32
    }

    fn golomb(&mut self) -> u32 {
        let mut length = 0;
        while self.bit(16384) == 0 {
            length += 1;
        }
        let mut x: u64 = 1;
        for _ in 0..length {
            x = (x << 1) | self.bit(16384) as u64;
        }
        (x - 1) as u32
    }
}

/// The state of a writer worked out with unbounded arithmetic: `total` is
/// the low end of the interval as one number of `bits` bits, of which the
/// writer holds all but the last `pending` in its buffer.
struct Mirror {
    total: Vec<u8>,
    out_len: usize,
    low: u128,
    range: u32,
    count: i32,
}

impl Mirror {
    fn new() -> Self {
        Mirror { total: Vec::new(), out_len: 0, low: 0, range: 0x8000, count: -9 }
    }

    fn tail_width(&self, cdf: &[u16], k: usize) -> u32 {
        if k == 0 {
            self.range
        } else if k > cdf.len() {
            0
        } else {
            let weight = 32768 - cdf[k - 1] as u32;
            (self.range / 256) * (weight / 64) / 2 + 4 * (cdf.len() + 1 - k) as u32
        }
    }

    fn add_into_buffer(&mut self, mut carry: u128) {
        let mut i = self.total.len();
        while carry != 0 {
            assert!(i > 0);
            i -= 1;
            let sum = self.total[i] as u128 + (carry & 0xFF);
            self.total[i] = (sum & 0xFF) as u8;
            carry = (carry >> 8) + (sum >> 8);
        }
    }

    fn symbol(&mut self, symbol: usize, cdf: &[u16]) {
        let u = self.tail_width(cdf, symbol);
        let v = self.tail_width(cdf, symbol + 1);
        assert!(v < u && u <= self.range);
        self.low += (self.range - u) as u128;
        self.range = u - v;
        let d = 15 - (31 - self.range.leading_zeros()) as i32;
        let mut s = self.count + d;
        if s >= 40 {
            let nbytes = s / 8 + 1;
            let c = self.count + 24 - 8 * nbytes;
            let whole = self.low >> c;
            self.low &= (1u128 << c) - 1;
            self.add_into_buffer(whole >> (8 * nbytes));
            for i in (0..nbytes).rev() {
                self.total.push(((whole >> (8 * i)) & 0xFF) as u8);
            }
            self.out_len += nbytes as usize;
            s = c + d - 24;
        }
        self.low <<= d;
        self.range <<= d;
        self.count = s;
    }

    fn finish(mut self) -> Vec<u8> {
        let point = (self.low + 0x3FFF) / 0x8000 * 0x8000 + 0x4000;
        let nbytes = (self.count + 17) / 8;
        let dropped = self.count + 24 - 8 * nbytes;
        let whole = point >> dropped;
        self.add_into_buffer(whole >> (8 * nbytes));
        for i in (0..nbytes).rev() {
            self.total.push(((whole >> (8 * i)) & 0xFF) as u8);
        }
        self.total
    }
}

/// The lowest set bit of the last byte: the marker that ends a stream.
fn ends_in_marker(bytes: &[u8]) -> bool {
    match bytes.last() {
        Some(&last) => last != 0,
        None => false,
    }
}

/// A small deterministic generator for scripted streams.
struct Lcg(u64);

impl Lcg {
    fn next(&mut self, bound: u32) -> u32 {
        self.0 = self.0.wrapping_mul(6364136223846793005).wrapping_add(1442695040888963407);
        ((self.0 >> 33) % bound as u64) as u32
    }
}

#[test]
fn empty_stream_is_one_marker_byte() {
    let w = EntropyWriter::new();
    let bytes = w.finalize();
    assert_eq!(&bytes[..], &[0x80u8][..]);
    assert!(!bytes.is_empty());
    assert!(ends_in_marker(&bytes));
}

#[test]
fn single_literal_round_trip() {
    let mut w = EntropyWriter::new();
    w.write_literal(0b10110, 5);
    let bytes = w.finalize();
    assert_eq!(&bytes[..], &[0xb4u8][..]);
    let mut d = Decoder::new(&bytes);
    assert_eq!(d.literal(5), 0b10110);
    assert!(ends_in_marker(&bytes));
}

#[test]
fn literal_of_no_bits_writes_nothing() {
    let mut w = EntropyWriter::new();
    w.write_literal(0, 0);
    assert_eq!(&w.finalize()[..], &EntropyWriter::new().finalize()[..]);

    let mut with = EntropyWriter::new();
    with.write_literal(0xABCD, 16);
    with.write_literal(0, 0);
    let mut without = EntropyWriter::new();
    without.write_literal(0xABCD, 16);
    assert_eq!(&with.finalize()[..], &without.finalize()[..]);
}

#[test]
fn literal_of_sixteen_bits() {
    let mut w = EntropyWriter::new();
    w.write_literal(0xABCD, 16);
    let bytes = w.finalize();
    assert_eq!(&bytes[..], &[0xabu8, 0xc8, 0x80][..]);
    assert_eq!(Decoder::new(&bytes).literal(16), 0xABCD);
}

#[test]
fn literal_of_thirty_two_bits() {
    let mut w = EntropyWriter::new();
    w.write_literal(0xDEADBEEF, 32);
    let bytes = w.finalize();
    assert_eq!(&bytes[..], &[0xdeu8, 0xab, 0xa9, 0xcb, 0x80][..]);
    assert_eq!(Decoder::new(&bytes).literal(32), 0xDEADBEEF);
}

#[test]
fn literal_is_written_highest_bit_first() {
    let mut w = EntropyWriter::new();
    w.write_literal(0b100, 3);
    let whole = w.finalize();
    let mut bits = EntropyWriter::new();
    bits.write_bit(1, 16384);
    bits.write_bit(0, 16384);
    bits.write_bit(0, 16384);
    assert_eq!(&whole[..], &bits.finalize()[..]);
}

#[test]
fn symbol_zero_with_binary_cdf() {
    let mut w = EntropyWriter::new();
    w.write_symbol(0, &[16384]);
    let bytes = w.finalize();
    assert_eq!(&bytes[..], &[0x20u8][..]);
    assert_eq!(Decoder::new(&bytes).symbol(&[16384]), 0);
}

#[test]
fn symbol_one_with_binary_cdf() {
    let mut w = EntropyWriter::new();
    w.write_symbol(1, &[16384]);
    let bytes = w.finalize();
    assert_eq!(&bytes[..], &[0xc0u8][..]);
    assert_eq!(Decoder::new(&bytes).symbol(&[16384]), 1);
}

#[test]
fn last_symbol_of_four() {
    let mut w = EntropyWriter::new();
    w.write_symbol(3, &[8192, 16384, 24576]);
    let bytes = w.finalize();
    assert_eq!(&bytes[..], &[0xe0u8][..]);
    assert_eq!(Decoder::new(&bytes).symbol(&[8192, 16384, 24576]), 3);
}

#[test]
fn only_symbol_of_a_one_symbol_alphabet() {
    let mut w = EntropyWriter::new();
    w.write_symbol(0, &[]);
    let bytes = w.finalize();
    assert_eq!(&bytes[..], &[0x80u8][..]);
    assert_eq!(Decoder::new(&bytes).symbol(&[]), 0);
}

#[test]
fn every_symbol_of_sixteen() {
    let cdf: Vec<u16> = (1..16).map(|i| 2048 * i).collect();
    let mut w = EntropyWriter::new();
    for s in 0..16 {
        w.write_symbol(s, &cdf);
    }
    let bytes = w.finalize();
    assert_eq!(&bytes[..], &[0x01u8, 0x1e, 0x74, 0x0d, 0xa7, 0x40, 0xda, 0x73, 0x40][..]);
    let mut d = Decoder::new(&bytes);
    for s in 0..16 {
        assert_eq!(d.symbol(&cdf), s);
    }
}

#[test]
fn bit_is_a_symbol_of_two() {
    for value in 0..2 {
        let mut a = EntropyWriter::new();
        a.write_bit(value, 12345);
        let mut b = EntropyWriter::new();
        b.write_symbol(value, &[12345]);
        assert_eq!(&a.finalize()[..], &b.finalize()[..]);
    }
}

#[test]
fn bool_is_a_bit() {
    let mut t = EntropyWriter::new();
    t.write_bool(true, 24576);
    let t = t.finalize();
    assert_eq!(&t[..], &[0xe0u8][..]);
    let mut one = EntropyWriter::new();
    one.write_bit(1, 24576);
    assert_eq!(&t[..], &one.finalize()[..]);

    let mut f = EntropyWriter::new();
    f.write_bool(false, 24576);
    let f = f.finalize();
    assert_eq!(&f[..], &[0x40u8][..]);
    let mut zero = EntropyWriter::new();
    zero.write_bit(0, 24576);
    assert_eq!(&f[..], &zero.finalize()[..]);

    assert_eq!(Decoder::new(&t).bit(24576), 1);
    assert_eq!(Decoder::new(&f).bit(24576), 0);
}

#[test]
fn golomb_round_trip() {
    let expected: [(u32, &[u8]); 7] = [
        (0, &[0xc0]),
        (1, &[0x48]),
        (2, &[0x68]),
        (7, &[0x11]),
        (8, &[0x13]),
        (255, &[0x00, 0x83, 0x40]),
        (65535, &[0x00, 0x00, 0x83, 0x08, 0x40]),
    ];
    for (v, stream) in expected {
        let mut w = EntropyWriter::new();
        w.write_golomb(v);
        let bytes = w.finalize();
        assert_eq!(&bytes[..], stream);
        assert_eq!(Decoder::new(&bytes).golomb(), v);
    }
}

#[test]
fn golomb_of_zero_is_a_single_one_bit() {
    let mut w = EntropyWriter::new();
    w.write_golomb(0);
    let mut bit = EntropyWriter::new();
    bit.write_bit(1, 16384);
    assert_eq!(&w.finalize()[..], &bit.finalize()[..]);
}

#[test]
fn golomb_of_the_largest_value() {
    let mut w = EntropyWriter::new();
    w.write_golomb(u32::MAX - 1);
    let bytes = w.finalize();
    assert_eq!(&bytes[..], &[0x00u8, 0x00, 0x00, 0x02, 0x0c, 0x1f, 0xff, 0xff][..]);
    assert_eq!(Decoder::new(&bytes).golomb(), u32::MAX - 1);
}

#[test]
fn golomb_is_zeros_then_the_value() {
    let mut w = EntropyWriter::new();
    w.write_golomb(42);
    let bytes = w.finalize();
    assert_eq!(&bytes[..], &[0x05u8, 0x90][..]);
    // 43 has six significant bits: five zeros go before them.
    let mut parts = EntropyWriter::new();
    parts.write_literal(0, 5);
    parts.write_literal(43, 6);
    assert_eq!(&bytes[..], &parts.finalize()[..]);
}

#[test]
fn golomb_round_trip_of_many_values() {
    let mut v: u32 = 0;
    while v < (1 << 20) {
        let mut w = EntropyWriter::new();
        w.write_golomb(v);
        let bytes = w.finalize();
        assert_eq!(Decoder::new(&bytes).golomb(), v);
        v = v * 3 + 1;
    }
}

#[test]
fn mixed_stream_round_trip() {
    let mut w = EntropyWriter::new();
    w.write_bool(true, 24576);
    w.write_literal(0xABCD, 16);
    w.write_symbol(3, &[8192, 16384, 24576]);
    w.write_golomb(42);
    let bytes = w.finalize();
    assert_eq!(&bytes[..], &[0xeau8, 0xf2, 0x1f, 0x8d][..]);
    let mut d = Decoder::new(&bytes);
    assert_eq!(d.bit(24576), 1);
    assert_eq!(d.literal(16), 0xABCD);
    assert_eq!(d.symbol(&[8192, 16384, 24576]), 3);
    assert_eq!(d.golomb(), 42);
    assert!(ends_in_marker(&bytes));
}

#[test]
fn carry_changes_a_byte_that_is_already_out() {
    let pattern = [0usize, 0, 0, 0, 0, 1];
    let bits: Vec<usize> = (0..17).flat_map(|_| pattern).collect();

    // After 66 bits twelve bytes are out, the last of them 0x31.
    let mut early = EntropyWriter::new();
    for &b in &bits[..66] {
        early.write_bit(b, 32704);
    }
    let early = early.finalize();
    assert_eq!(early.len(), 13);
    assert_eq!(early[11], 0x31);

    // The bits after them carry into that byte.
    let mut w = EntropyWriter::new();
    for &b in &bits {
        w.write_bit(b, 32704);
    }
    let bytes = w.finalize();
    assert_eq!(
        &bytes[..],
        &[
            0xfdu8, 0x6b, 0xaa, 0x4d, 0xa3, 0x0f, 0xa6, 0xe2, 0xf9, 0x40, 0x82, 0x32, 0x11, 0x85,
            0x00, 0x9f, 0x5f, 0x5f, 0x87, 0x40
        ][..]
    );
    assert_eq!(&bytes[..11], &early[..11]);
    assert_eq!(bytes[11], early[11] + 1);

    let mut d = Decoder::new(&bytes);
    for &b in &bits {
        assert_eq!(d.bit(32704), b);
    }
}

#[test]
fn first_bytes_come_out_together() {
    // 48 one bits are still pending; one more moves six bytes out.
    let mut w = EntropyWriter::new();
    w.write_literal(0xFFFF_FFFF, 32);
    w.write_literal(0xFFFF, 16);
    let short = w.finalize();
    let mut w = EntropyWriter::new();
    w.write_literal(0xFFFF_FFFF, 32);
    w.write_literal(0x1_FFFF, 17);
    let long = w.finalize();
    assert!(long.len() >= short.len());
    assert_eq!(&long[..5], &[0xffu8, 0xff, 0xff, 0xff, 0xff][..]);
    let mut d = Decoder::new(&long);
    assert_eq!(d.literal(32), 0xFFFF_FFFF);
    assert_eq!(d.literal(17), 0x1_FFFF);
}

#[test]
fn scripted_streams_round_trip() {
    let mut rng = Lcg(7);
    let mut checksum: u64 = 0xcbf29ce484222325;
    let mut total = 0;
    for _ in 0..200 {
        let count = rng.next(120) as usize;
        let mut script: Vec<(usize, Vec<u16>)> = Vec::new();
        for _ in 0..count {
            let n = 1 + rng.next(16) as usize;
            let mut cdf: Vec<u16> = Vec::new();
            let mut at: u32 = 0;
            for k in 0..n - 1 {
                let room = 32767 - at - (n - 2 - k) as u32;
                at += 1 + rng.next(std::cmp::min(room, 6000));
                cdf.push(at as u16);
            }
            let symbol = rng.next(n as u32) as usize;
            script.push((symbol, cdf));
        }
        let mut w = EntropyWriter::new();
        for (symbol, cdf) in &script {
            w.write_symbol(*symbol, cdf);
        }
        let bytes = w.finalize();
        assert!(ends_in_marker(&bytes));
        let mut d = Decoder::new(&bytes);
        for (symbol, cdf) in &script {
            assert_eq!(d.symbol(cdf), *symbol);
        }
        for &b in bytes.iter() {
            checksum = (checksum ^ b as u64).wrapping_mul(0x100000001b3);
        }
        total += bytes.len();
    }
    // All the streams together, byte for byte.
    assert_eq!(total, 5675);
    assert_eq!(checksum, 0xf9abe04b326f0815);
}

#[test]
fn output_never_gets_shorter() {
    // The finished stream holds every byte that was out before, and at least
    // one more: with each symbol written, it is at least as long as before.
    let cdf = [4096u16, 8192, 16384, 30000];
    let mut lengths: Vec<usize> = Vec::new();
    for n in 0..200 {
        let mut w = EntropyWriter::new();
        for i in 0..n {
            w.write_symbol(i % 5, &cdf);
        }
        lengths.push(w.finalize().len());
    }
    assert_eq!(lengths[0], 1);
    for pair in lengths.windows(2) {
        assert!(pair[1] >= pair[0]);
    }
    assert!(lengths[199] > lengths[0]);
}

#[test]
fn equal_inputs_give_equal_streams() {
    let run = || {
        let mut w = EntropyWriter::new();
        w.write_bool(false, 1);
        w.write_bool(true, 32767);
        w.write_literal(12345, 14);
        w.write_golomb(1000);
        w.finalize()
    };
    assert_eq!(&run()[..], &run()[..]);
}

#[test]
fn range_and_count_stay_in_bounds() {
    // The state is worked out beside the writer, symbol by symbol, and the
    // two are held together by the streams that they end in.
    let mut rng = Lcg(99);
    for _ in 0..50 {
        let mut mirror = Mirror::new();
        let mut w = EntropyWriter::new();
        let mut out_len = 0;
        let count = 1 + rng.next(300) as usize;
        for _ in 0..count {
            let n = 1 + rng.next(16) as usize;
            let mut cdf: Vec<u16> = Vec::new();
            let mut at: u32 = 0;
            for k in 0..n - 1 {
                let room = 32767 - at - (n - 2 - k) as u32;
                at += 1 + rng.next(std::cmp::min(room, 9000));
                cdf.push(at as u16);
            }
            let symbol = rng.next(n as u32) as usize;
            mirror.symbol(symbol, &cdf);
            w.write_symbol(symbol, &cdf);
            assert!(0x8000 <= mirror.range && mirror.range <= 0xFFFF);
            assert!(-9 <= mirror.count && mirror.count < 40);
            assert!(mirror.out_len >= out_len);
            out_len = mirror.out_len;
        }
        let bytes = w.finalize();
        assert!(bytes.len() > out_len);
        assert_eq!(&bytes[..], &mirror.finish()[..]);
    }
}

#[test]
fn finished_stream_ends_in_the_marker() {
    let mut rng = Lcg(3);
    for n in 0..120 {
        let mut w = EntropyWriter::new();
        for _ in 0..n {
            w.write_bit(rng.next(2) as usize, 1 + rng.next(32767) as u16);
        }
        let bytes = w.finalize();
        assert!(ends_in_marker(&bytes));
    }
}

#[test]
fn seventeen_symbols_with_room_for_each() {
    // Past 16 symbols the guards can use up a narrow part; in this
    // distribution every part is wide enough at any width of the interval.
    let cdf: Vec<u16> = (1..17).map(|i| 1900 * i).collect();
    let symbols: Vec<usize> = (0..40).map(|i| (i * 7) % 17).collect();
    let mut w = EntropyWriter::new();
    for &s in &symbols {
        w.write_symbol(s, &cdf);
    }
    let bytes = w.finalize();
    assert_eq!(bytes.len(), 21);
    assert_eq!(&bytes[..8], &[0x06u8, 0x95, 0xf9, 0x80, 0x37, 0x11, 0xaf, 0xae][..]);
    let mut d = Decoder::new(&bytes);
    for &s in &symbols {
        assert_eq!(d.symbol(&cdf), s);
    }
}
