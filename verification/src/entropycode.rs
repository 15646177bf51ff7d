//! The entropy writer: a range coder with deferred carry.

use crate::bigendian::{
    be_value, lemma_be_bytes_append, lemma_be_value_all_ones, lemma_be_value_carry,
};
use crate::bits::{
    lemma_pow2_monotonic, lemma_u32_shl, lemma_u64_shl, lemma_u64_split, lemma_u64_top_bit,
};
use crate::model::{
    has_room, lemma_shift_normalizes, lemma_small_alphabet_has_room, lemma_valid_cdf_len,
    valid_cdf, CoderState,
};
use crate::util::{floor_log2, lemma_log2_floor_bounds, log2_floor, write_be_bytes};
use vstd::arithmetic::power2::{lemma2_to64, lemma_pow2_adds, lemma_pow2_pos, pow2};
use vstd::bits::lemma_u32_shr_is_div;
use vstd::prelude::*;

verus! {

/// Writes symbols, each with its distribution, into a buffer of bytes that
/// a range decoder reads back.
pub struct EntropyWriter {
    // A carry changes bytes that are already written, so the output is
    // kept in memory until the stream is finished.
    data: Vec<u8>,
    low: u64,
    range: u32,
    count: i32,
}

impl View for EntropyWriter {
    type V = CoderState;

    closed spec fn view(&self) -> CoderState {
        CoderState {
            data: self.data@,
            low: self.low as nat,
            range: self.range as nat,
            count: self.count as int,
        }
    }
}

impl EntropyWriter {
    /// A writer that has written nothing.
    pub fn new() -> (w: Self)
        ensures
            w@ == CoderState::initial(),
            w@.wf(),
    {
        let w = Self { data: Vec::new(), low: 0u64, range: 0x8000u32, count: -9i32 };
        proof {
            lemma2_to64();
            assert(w@.low_end() == 0) by (nonlinear_arith)
                requires
                    w@.low_end() == 0 * pow2(15) + 0,
            ;
        }
        w
    }

    /// Adds one to the number that `data` spells: a carry out of `low`.
    fn propagate_carry(&mut self)
        requires
            be_value(old(self).data@) + 1 < pow2(8 * old(self).data@.len()),
        ensures
            final(self).data@.len() == old(self).data@.len(),
            be_value(final(self).data@) == be_value(old(self).data@) + 1,
            final(self).low == old(self).low,
            final(self).range == old(self).range,
            final(self).count == old(self).count,
    {
        let mut i: usize = self.data.len();
        while i > 0
            invariant
                i <= self.data@.len(),
                self.data@.len() == old(self).data@.len(),
                self.low == old(self).low,
                self.range == old(self).range,
                self.count == old(self).count,
                forall|j: int| 0 <= j < i ==> self.data@[j] == old(self).data@[j],
                forall|j: int|
                    i <= j < self.data@.len() ==> old(self).data@[j] == 255 && self.data@[j] == 0,
            decreases i,
        {
            i = i - 1;
            if self.data[i] == 255 {
                // The carry goes on.
                self.data[i] = 0;
            } else {
                // The carry stops here.
                self.data[i] += 1;
                proof {
                    lemma_be_value_carry(old(self).data@, self.data@, i as int);
                }
                return ;
            }
        }
        proof {
            // Every byte was 0xFF, which the precondition rules out.
            lemma_be_value_all_ones(old(self).data@);
        }
    }

    /// Writes `symbol`, one of `cdf.len() + 1` symbols with the cumulative
    /// distribution `cdf`.
    ///
    /// The interval must have room for the symbol. With at most 16 symbols
    /// it always has.
    pub fn write_symbol(&mut self, symbol: usize, cdf: &[u16])
        requires
            old(self)@.wf(),
            valid_cdf(cdf@),
            symbol <= cdf@.len(),
            cdf@.len() <= 15 || has_room(old(self)@.range, symbol as int, cdf@),
        ensures
            final(self)@ == old(self)@.put_symbol(symbol as int, cdf@),
            final(self)@.wf(),
            0x8000 <= final(self)@.range <= 0xFFFF,
            final(self)@.count < 40,
            final(self)@.data.len() >= old(self)@.data.len(),
    {
        let ghost before = self@;
        let ghost mid = before.narrowed(symbol as int, cdf@);
        let ghost after = mid.renormalized();
        proof {
            lemma_valid_cdf_len(cdf@);
            if cdf@.len() <= 15 {
                lemma_small_alphabet_has_room(before.range, symbol as int, cdf@);
            }
            before.lemma_narrowed(symbol as int, cdf@);
            before.lemma_low_fits();
        }
        let num_symbols: usize = cdf.len() + 1;
        let inv_hi: u32 = if symbol == num_symbols - 1 {
            0
        } else {
            32768 - (cdf[symbol] as u32)
        };
        proof {
            lemma_scaled(self.range, inv_hi);
        }

        // Narrow the interval to the part of the symbol.
        if symbol == 0 {
            // Nothing lies above the first symbol's part.
            self.range -= ((self.range >> 8) * (inv_hi >> 6) >> 1) + 4 * (num_symbols - 1) as u32;
        } else {
            let inv_lo: u32 = 32768 - (cdf[symbol - 1] as u32);
            proof {
                lemma_scaled(self.range, inv_lo);
            }
            let top: u32 = self.range >> 8;
            let u: u32 = (top * (inv_lo >> 6) >> 1) + 4 * (num_symbols - symbol) as u32;
            let v: u32 = (top * (inv_hi >> 6) >> 1) + 4 * (num_symbols - symbol - 1) as u32;
            self.low += (self.range - u) as u64;
            self.range = u - v;
        }
        assert(self@ == mid);

        // Put out bytes where enough bits are pending.
        proof {
            mid.lemma_renormalized();
            lemma_shift_normalizes(mid.range);
        }
        let d: i32 = (15 - floor_log2(self.range)) as i32;
        let mut s: i32 = self.count + d;
        if s >= 40 {
            proof {
                lemma_small_shifts(s);
                mid.lemma_flush();
            }
            let num_bytes_ready: i32 = (s >> 3) + 1;
            let c: i32 = self.count + 24 - (num_bytes_ready << 3);
            let bits: u64 = (num_bytes_ready << 3) as u64;
            let keep: u64 = c as u64;
            let ghost low_mid = self.low;
            let ghost big = be_value(self.data@);
            let ghost nb = num_bytes_ready as nat;
            proof {
                lemma_u64_split(low_mid, keep);
                lemma_u64_split(low_mid >> keep, bits);
                lemma_u64_top_bit(low_mid >> keep, bits);
            }

            let mut output: u64 = self.low >> keep;
            self.low = self.low & ((1u64 << keep) - 1);

            let carry: u64 = output & (1u64 << bits);
            output = output & ((1u64 << bits) - 1);

            // A carry goes into the bytes that are already out.
            if carry != 0 {
                self.propagate_carry();
            }
            let ghost carried = self.data@;

            // The new bytes follow them.
            write_be_bytes(&mut self.data, output, num_bytes_ready as usize);
            proof {
                let pb = pow2(bits as nat);
                let whole = low_mid as nat / pow2(keep as nat);
                lemma_be_bytes_append(carried, output as nat, nb);
                assert(be_value(carried) * pb + output == big * pb + whole) by (nonlinear_arith)
                    requires
                        be_value(carried) == big + whole / pb,
                        whole / pb * pb + output == whole,
                ;
            }

            s = c + d - 24;
        }
        proof {
            lemma_pow2_pos(d as nat);
            after.lemma_low_fits();
            lemma_u64_shl(self.low, d as u64);
            lemma_u32_shl(self.range, d as u32);
        }
        self.low = self.low << (d as u64);
        self.range = self.range << (d as u32);
        self.count = s;
        assert(self@ == after);
    }

    /// Writes one bit, where `p_zero` out of 32768 is the probability of a
    /// zero.
    pub fn write_bit(&mut self, value: usize, p_zero: u16)
        requires
            old(self)@.wf(),
            value == 0 || value == 1,
            0 < p_zero < 32768,
        ensures
            final(self)@ == old(self)@.put_bit(value as int, p_zero),
            final(self)@.wf(),
            0x8000 <= final(self)@.range <= 0xFFFF,
            final(self)@.count < 40,
            final(self)@.data.len() >= old(self)@.data.len(),
    {
        proof {
            self@.lemma_put_bit(value as int, p_zero);
        }
        let cdf: [u16; 1] = [p_zero];
        self.write_symbol(value, &cdf);
    }

    /// Writes a flag: `false` as the bit 0 and `true` as the bit 1, where
    /// `p_false` out of 32768 is the probability of `false`.
    pub fn write_bool(&mut self, value: bool, p_false: u16)
        requires
            old(self)@.wf(),
            0 < p_false < 32768,
        ensures
            final(self)@ == old(self)@.put_bit(if value { 1 } else { 0 }, p_false),
            final(self)@.wf(),
            0x8000 <= final(self)@.range <= 0xFFFF,
            final(self)@.count < 40,
            final(self)@.data.len() >= old(self)@.data.len(),
    {
        proof {
            self@.lemma_put_bit(if value { 1 } else { 0 }, p_false);
        }
        let cdf: [u16; 1] = [p_false];
        self.write_symbol(value as usize, &cdf);
    }

    /// Writes the low `nbits` bits of `value`, highest first, each as likely
    /// zero as one.
    pub fn write_literal(&mut self, value: u32, nbits: u32)
        requires
            old(self)@.wf(),
            nbits <= 32,
            nbits < 32 ==> (value as nat) < pow2(nbits as nat),
        ensures
            final(self)@ == old(self)@.put_literal(value as nat, nbits as nat),
            final(self)@.wf(),
            0x8000 <= final(self)@.range <= 0xFFFF,
            final(self)@.count < 40,
            final(self)@.data.len() >= old(self)@.data.len(),
    {
        let mut shift: u32 = nbits;
        while shift > 0
            invariant
                shift <= nbits <= 32,
                self@.wf(),
                self@.put_literal(value as nat, shift as nat) == old(self)@.put_literal(
                    value as nat,
                    nbits as nat,
                ),
                self@.data.len() >= old(self)@.data.len(),
            decreases shift,
        {
            shift = shift - 1;
            let bit: u32 = (value >> shift) & 1;
            proof {
                lemma_u32_shr_is_div(value, shift);
                let x: u32 = value >> shift;
                assert(x & 1 == x % 2) by (bit_vector);
            }
            self.write_bit(bit as usize, 16384);
        }
    }

    /// Writes `value` as an Exp-Golomb code of `value + 1`, so that zero
    /// has a code too.
    pub fn write_golomb(&mut self, value: u32)
        requires
            old(self)@.wf(),
            value < u32::MAX,
        ensures
            final(self)@ == old(self)@.put_golomb(value as nat),
            final(self)@.wf(),
            0x8000 <= final(self)@.range <= 0xFFFF,
            final(self)@.count < 40,
            final(self)@.data.len() >= old(self)@.data.len(),
    {
        let value: u32 = value + 1;
        proof {
            lemma_log2_floor_bounds(value as nat);
            lemma2_to64();
            if log2_floor(value as nat) >= 32 {
                lemma_pow2_monotonic(32, log2_floor(value as nat));
            }
            lemma_pow2_pos(log2_floor(value as nat));
            self@.lemma_put_literal(0, log2_floor(value as nat));
        }
        let length: u32 = floor_log2(value);
        // First `length` zero bits, then the whole value: its leading 1 bit
        // tells a decoder where the zeros end.
        self.write_literal(0, length);
        self.write_literal(value, length + 1);
    }

    /// Ends the stream and hands out its bytes.
    ///
    /// The bytes added last hold enough of the pending bits for a decoder
    /// to tell every symbol, and end in a 1 bit followed by zeros only.
    pub fn finalize(self) -> (bytes: Box<[u8]>)
        requires
            self@.wf(),
        ensures
            bytes@ == self@.finished(),
            bytes@.len() == self@.data.len() + self@.closing_len(),
            bytes@.len() > self@.data.len(),
            bytes@.last() as nat % pow2(self@.marker_bit() + 1) == pow2(self@.marker_bit()),
    {
        let mut w = self;
        let ghost start = w@;
        let ghost total = be_value(start.data) * pow2(start.pending_bits()) + start.closing_point();
        let mut s: i32 = w.count + 10;
        let m: u64 = 0x3FFF;
        proof {
            start.lemma_closing_point();
            start.lemma_low_fits();
            let x: u64 = (w.low + m) as u64;
            assert(((x & !0x3FFFu64) | 0x4000u64) == (x / 0x8000) * 0x8000 + 0x4000)
                by (bit_vector);
            lemma_u64_split(1, (w.count + 16) as u64);
        }

        // Round up to where a 1 bit can stand, and set it.
        let mut e: u64 = ((w.low + m) & !m) | (m + 1);
        let mut n: u64 = (1u64 << ((w.count + 16) as u64)) - 1;

        while s > 0
            invariant
                s == w.count + 10,
                -17 <= w.count < 40,
                start.wf(),
                w.count == start.count - 8 * (w.data@.len() - start.data.len()),
                w.data@.len() >= start.data.len(),
                s > 0 ==> n as nat == pow2((w.count + 16) as nat) - 1,
                (e as nat) < 2 * pow2((w.count + 24) as nat),
                be_value(w.data@) * pow2((w.count + 24) as nat) + e == total,
                total < pow2(8 * w.data@.len() + (w.count + 24) as nat),
                w.data@.len() > start.data.len() ==> (e as nat) < pow2(
                    (w.count + 24) as nat,
                ),
                total == be_value(start.data) * pow2(start.pending_bits()) + start.closing_point(),
            decreases s + 8,
        {
            let width: u64 = (w.count + 16) as u64;
            let ghost big = be_value(w.data@);
            proof {
                CoderState::lemma_closing_step(
                    big,
                    e as nat,
                    (w.count + 24) as nat,
                    w.data@.len() as nat,
                );
                lemma_u64_split(e, width);
            }
            let val: u64 = e >> width;
            proof {
                assert(val & 0x100 != 0 <==> val >= 256) by (bit_vector)
                    requires
                        val < 512,
                ;
                assert(val & 0xFF == val % 256) by (bit_vector);
            }

            // A carry goes into the bytes that are already out.
            if (val & 0x100) != 0 {
                w.propagate_carry();
            }
            let ghost carried = w.data@;

            // One more byte.
            w.data.push((val & 0xFF) as u8);
            proof {
                assert(w.data@.drop_last() == carried);
                if s > 8 {
                    lemma_pow2_adds(8, (width - 8) as nat);
                    lemma2_to64();
                }
            }

            e = e & n;
            s -= 8;
            w.count -= 8;
            n >>= 8;
            proof {
                if s > 0 {
                    let k: u64 = (width - 8) as u64;
                    let old_n: u64 = ((1u64 << width) - 1) as u64;
                    lemma_u64_split(1, k);
                    assert(old_n >> 8 == ((1u64 << k) - 1) as u64) by (bit_vector)
                        requires
                            k == width - 8,
                            8 <= width < 64,
                            old_n == ((1u64 << width) - 1) as u64,
                    ;
                }
            }
        }
        proof {
            start.lemma_finished(w.data@, e as nat);
            start.lemma_finished_marker();
        }

        // The bytes go out; the rest of the writer is dropped.
        into_boxed_slice(w.data)
    }
}

/// Turns the buffer into a boxed slice by `Vec::into_boxed_slice`, which
/// keeps the elements and their order.
#[verifier::external_body]
fn into_boxed_slice(v: Vec<u8>) -> (b: Box<[u8]>)
    ensures
        b@ == v@,
{
    v.into_boxed_slice()
}

/// The scaled weight as the writer computes it, with shifts, is the one
/// that `tail_width` states with divisions.
proof fn lemma_scaled(range: u32, inv: u32)
    requires
        range <= 0xFFFF,
        inv <= 32768,
    ensures
        (range >> 8) * (inv >> 6) <= 255 * 512,
        ((((range >> 8) * (inv >> 6)) as u32) >> 1) as nat == (range as nat / 256) * (inv as nat
            / 64) / 2,
        inv == 0 ==> (range as nat / 256) * (inv as nat / 64) / 2 == 0,
{
    let top: u32 = range >> 8;
    let part: u32 = inv >> 6;
    assert(top == range / 256 && top <= 255) by (bit_vector)
        requires
            top == range >> 8,
            range <= 0xFFFF,
    ;
    assert(part == inv / 64 && part <= 512) by (bit_vector)
        requires
            part == inv >> 6,
            inv <= 32768,
    ;
    assert(top * part <= 255 * 512) by (nonlinear_arith)
        requires
            top <= 255,
            part <= 512,
    ;
    let x: u32 = (top * part) as u32;
    assert(x >> 1 == x / 2) by (bit_vector);
    if inv == 0 {
        assert(top * part == 0) by (nonlinear_arith)
            requires
                part == 0,
        ;
    }
}

/// Shifts of the small counts that the writer meets, as arithmetic.
proof fn lemma_small_shifts(s: i32)
    requires
        0 <= s < 64,
    ensures
        s >> 3 == s / 8,
        (((s >> 3) + 1) as i32) << 3 == 8 * (s / 8 + 1),
{
    assert(s >> 3 == s / 8) by (bit_vector)
        requires
            0 <= s < 64,
    ;
    let n: i32 = ((s >> 3) + 1) as i32;
    assert(n << 3 == n * 8) by (bit_vector)
        requires
            0 <= n < 16,
    ;
}

} // verus!
