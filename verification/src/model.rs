//! The range coder as arithmetic on unbounded numbers.
//!
//! The writer's buffer and its pending bits together spell one long
//! number, the low end of the interval that the symbols written so far
//! have selected; `range` is the width of that interval. Writing a symbol
//! picks a sub-interval, and renormalization scales low end and width by
//! the same power of two.

use crate::bigendian::{be_bytes, be_value, lemma_be_bytes_len, lemma_be_value_of_bytes_small};
use crate::bits::{lemma_pow2_monotonic, lemma_scale_bound};
use crate::util::{lemma_log2_floor_bounds, log2_floor};
use vstd::arithmetic::div_mod::{lemma_fundamental_div_mod, lemma_mod_bound};
use vstd::arithmetic::power2::{
    lemma2_to64, lemma2_to64_rest, lemma_pow2_adds, lemma_pow2_pos, pow2,
};
use vstd::prelude::*;

verus! {

/// The total of a cumulative distribution: probability one.
pub const CDF_TOTAL: u32 = 32768;

/// What an entropy writer holds, as mathematics.
pub struct CoderState {
    /// The bytes put out so far.
    pub data: Seq<u8>,
    /// The pending low end of the interval, below the bytes of `data`.
    pub low: nat,
    /// The width of the interval.
    pub range: nat,
    /// The number of bits pending in `low`, less 24.
    pub count: int,
}

/// `cdf` is a cumulative distribution over `cdf.len() + 1` symbols: its
/// entries rise strictly and lie strictly between 0 and the total.
pub open spec fn valid_cdf(cdf: Seq<u16>) -> bool {
    &&& forall|i: int| 0 <= i < cdf.len() ==> 0 < #[trigger] cdf[i] < CDF_TOTAL
    &&& forall|i: int, j: int| 0 <= i < j < cdf.len() ==> cdf[i] < cdf[j]
}

/// The probability, out of the total, of a symbol at or above `k`, for a
/// boundary `k` between 0 and the number of symbols.
pub open spec fn tail_weight(cdf: Seq<u16>, k: int) -> nat {
    if k <= 0 {
        CDF_TOTAL as nat
    } else if k > cdf.len() {
        0
    } else {
        (CDF_TOTAL - cdf[k - 1]) as nat
    }
}

/// The part of an interval of width `range` that the symbols at or above
/// `k` get: the whole interval for `k == 0`, nothing for `k` past the last
/// symbol, and in between the scaled tail weight plus a guard of 4 for each
/// symbol at or above `k`.
pub open spec fn tail_width(range: nat, cdf: Seq<u16>, k: int) -> nat {
    if k <= 0 {
        range
    } else if k > cdf.len() {
        0
    } else {
        ((range / 256) * (tail_weight(cdf, k) / 64) / 2 + 4 * (cdf.len() + 1 - k)) as nat
    }
}

/// The interval of width `range` has room for `symbol`: its part is not
/// empty and lies inside the interval.
pub open spec fn has_room(range: nat, symbol: int, cdf: Seq<u16>) -> bool {
    tail_width(range, cdf, symbol + 1) < tail_width(range, cdf, symbol) <= range
}

impl CoderState {
    /// The state of a writer that has written nothing.
    pub open spec fn initial() -> CoderState {
        CoderState { data: Seq::empty(), low: 0, range: 0x8000, count: -9 }
    }

    /// The number of bits of `low` below its carry bit.
    pub open spec fn pending_bits(self) -> nat {
        (self.count + 24) as nat
    }

    /// The number of bits in the low end as a whole: those of `data` and
    /// those pending.
    pub open spec fn total_bits(self) -> nat {
        8 * self.data.len() + self.pending_bits()
    }

    /// The low end of the interval as one number: `data` followed by the
    /// pending bits, with a carry in `low` added into `data`.
    pub open spec fn low_end(self) -> nat {
        be_value(self.data) * pow2(self.pending_bits()) + self.low
    }

    /// What holds of a state between narrowing and renormalization: the
    /// pending part has at most one carry bit, and the interval lies inside
    /// the unit interval, so that a carry never runs off the front of `data`.
    pub open spec fn bounded(self) -> bool {
        &&& -9 <= self.count < 40
        &&& 1 <= self.range <= 0xFFFF
        &&& self.low + self.range <= pow2(self.pending_bits() + 1)
        &&& self.low_end() + self.range <= pow2(self.total_bits())
    }

    /// What holds of a writer between operations: it is bounded and its
    /// width is normalized to 16 bits.
    pub open spec fn wf(self) -> bool {
        &&& self.bounded()
        &&& 0x8000 <= self.range
    }

    /// The state after the interval has been narrowed to the part of
    /// `symbol`, before renormalization.
    pub open spec fn narrowed(self, symbol: int, cdf: Seq<u16>) -> CoderState {
        let u = tail_width(self.range, cdf, symbol);
        let v = tail_width(self.range, cdf, symbol + 1);
        CoderState {
            data: self.data,
            low: (self.low + self.range - u) as nat,
            range: (u - v) as nat,
            count: self.count,
        }
    }

    /// The number of bits by which renormalization shifts: as many as bring
    /// the width back to 16 bits.
    pub open spec fn shift(self) -> nat {
        (15 - log2_floor(self.range)) as nat
    }

    /// The state after renormalization: low end and width are scaled by
    /// `2^shift`, and where 40 or more bits would then be pending, all whole
    /// bytes but the last two move from `low` to `data`, with the carry.
    pub open spec fn renormalized(self) -> CoderState {
        let d = self.shift();
        let s = self.count + d;
        if s >= 40 {
            let nbytes = (s / 8 + 1) as nat;
            let c = (self.count + 24 - 8 * nbytes) as nat;
            CoderState {
                data: be_bytes(
                    be_value(self.data) * pow2(8 * nbytes) + self.low / pow2(c),
                    self.data.len() + nbytes,
                ),
                low: (self.low % pow2(c)) * pow2(d),
                range: self.range * pow2(d),
                count: c + d - 24,
            }
        } else {
            CoderState {
                data: self.data,
                low: self.low * pow2(d),
                range: self.range * pow2(d),
                count: s,
            }
        }
    }

    /// The state after `symbol` has been written with the distribution `cdf`.
    pub open spec fn put_symbol(self, symbol: int, cdf: Seq<u16>) -> CoderState {
        self.narrowed(symbol, cdf).renormalized()
    }

    /// The state after one bit has been written, where `p_zero` out of the
    /// total is the probability of a zero.
    pub open spec fn put_bit(self, bit: int, p_zero: u16) -> CoderState {
        self.put_symbol(bit, seq![p_zero])
    }

    /// The state after the low `nbits` bits of `value` have been written,
    /// highest first, each as likely zero as one.
    pub open spec fn put_literal(self, value: nat, nbits: nat) -> CoderState
        decreases nbits,
    {
        if nbits == 0 {
            self
        } else {
            let bit = (value / pow2((nbits - 1) as nat)) % 2;
            self.put_bit(bit as int, 16384).put_literal(value, (nbits - 1) as nat)
        }
    }

    /// The state after `value` has been written in Exp-Golomb form: for
    /// `v = value + 1` of `n + 1` significant bits, `n` zero bits and then
    /// the `n + 1` bits of `v`.
    pub open spec fn put_golomb(self, value: nat) -> CoderState {
        let v = value + 1;
        let n = log2_floor(v);
        self.put_literal(0, n).put_literal(v, n + 1)
    }

    /// The point that closes the stream: of the numbers whose lowest set
    /// bit is bit 14, the one that lies at or above `low` and less than
    /// `0x8000` above it.
    pub open spec fn closing_point(self) -> nat {
        (self.low + 0x3FFF) / 0x8000 * 0x8000 + 0x4000
    }

    /// The number of bytes that closing the stream appends: as many as
    /// reach down to bit 14 of the pending part.
    pub open spec fn closing_len(self) -> nat {
        ((self.count + 17) / 8) as nat
    }

    /// The place in the last byte of the finished stream, counted from its
    /// lowest bit, of the bit that closing sets.
    pub open spec fn marker_bit(self) -> nat {
        (14 - (self.pending_bits() - 8 * self.closing_len())) as nat
    }

    /// The bytes of the finished stream: `data`, with the carry of the
    /// closing point added in, and after it the closing point down to its
    /// last whole byte, which holds the marker bit.
    pub open spec fn finished(self) -> Seq<u8> {
        let nbytes = self.closing_len();
        let dropped = (self.pending_bits() - 8 * nbytes) as nat;
        be_bytes(
            be_value(self.data) * pow2(8 * nbytes) + self.closing_point() / pow2(dropped),
            self.data.len() + nbytes,
        )
    }
}

/// A valid distribution has fewer entries than the total.
pub proof fn lemma_valid_cdf_len(cdf: Seq<u16>)
    requires
        valid_cdf(cdf),
    ensures
        cdf.len() < CDF_TOTAL,
        forall|i: int| 0 <= i < cdf.len() ==> i < #[trigger] cdf[i],
{
    assert forall|i: int| 0 <= i < cdf.len() implies i < #[trigger] cdf[i] by {
        lemma_cdf_entry_above_index(cdf, i);
    }
    if cdf.len() > 0 {
        assert(cdf.len() - 1 < cdf[cdf.len() - 1]);
    }
}

proof fn lemma_cdf_entry_above_index(cdf: Seq<u16>, i: int)
    requires
        valid_cdf(cdf),
        0 <= i < cdf.len(),
    ensures
        i < cdf[i],
    decreases i,
{
    if i > 0 {
        lemma_cdf_entry_above_index(cdf, i - 1);
    }
}

/// The tail weights of a valid distribution fall as the boundary rises.
pub proof fn lemma_tail_weight_falls(cdf: Seq<u16>, j: int, k: int)
    requires
        valid_cdf(cdf),
        0 <= j <= k <= cdf.len() + 1,
    ensures
        tail_weight(cdf, k) <= tail_weight(cdf, j) <= CDF_TOTAL,
        j < k ==> tail_weight(cdf, k) < tail_weight(cdf, j),
{
}

/// Between two boundaries inside the alphabet the tail width falls by at
/// least 4 for each symbol between them.
pub proof fn lemma_tail_width_falls(range: nat, cdf: Seq<u16>, j: int, k: int)
    requires
        valid_cdf(cdf),
        0 < j <= k <= cdf.len() + 1,
    ensures
        tail_width(range, cdf, k) + 4 * (k - j) <= tail_width(range, cdf, j),
{
    lemma_tail_weight_falls(cdf, j, k);
    let r = range / 256;
    let a = tail_weight(cdf, j) / 64;
    let b = tail_weight(cdf, k) / 64;
    assert(r * b <= r * a) by (nonlinear_arith)
        requires
            b <= a,
            0 <= r,
    ;
    if k > cdf.len() {
        assert(r * a >= 0) by (nonlinear_arith)
            requires
                r >= 0,
                a >= 0,
        ;
    }
}

/// With a normalized width and at most 16 symbols, every symbol has room,
/// and its part is at least 4 wide.
pub proof fn lemma_small_alphabet_has_room(range: nat, symbol: int, cdf: Seq<u16>)
    requires
        0x8000 <= range <= 0xFFFF,
        valid_cdf(cdf),
        cdf.len() <= 15,
        0 <= symbol <= cdf.len(),
    ensures
        has_room(range, symbol, cdf),
        tail_width(range, cdf, symbol + 1) + 4 <= tail_width(range, cdf, symbol),
{
    if symbol > 0 {
        lemma_tail_width_falls(range, cdf, symbol, symbol + 1);
    }
    // The first boundary inside the alphabet leaves at least 64 - 4 * 15.
    lemma_tail_weight_falls(cdf, 0, 1);
    if cdf.len() > 0 {
        let r = range / 256;
        let a = tail_weight(cdf, 1) / 64;
        assert(r * a <= r * 511) by (nonlinear_arith)
            requires
                a <= 511,
                0 <= r,
        ;
        if symbol > 0 {
            lemma_tail_width_falls(range, cdf, 1, symbol);
        }
    }
}

/// The shift brings any width of at most 16 bits to exactly 16 bits.
pub proof fn lemma_shift_normalizes(range: nat)
    requires
        1 <= range <= 0xFFFF,
    ensures
        log2_floor(range) <= 15,
        0x8000 <= range * pow2((15 - log2_floor(range)) as nat) <= 0xFFFF,
        range >= 0x8000 ==> log2_floor(range) == 15,
{
    lemma2_to64();
    lemma_log2_floor_bounds(range);
    let lf = log2_floor(range);
    if lf > 15 {
        lemma_pow2_monotonic(16, lf);
    }
    let d = (15 - lf) as nat;
    lemma_scale_bound(range, lf, d);
    lemma_scale_bound(range, lf + 1, d);
    if range >= 0x8000 && lf < 15 {
        lemma_pow2_monotonic(lf + 1, 15);
    }
}

impl CoderState {
    /// Narrowing to a symbol that has room keeps the state bounded, moves
    /// the low end up by what lies below the symbol's part, and leaves the
    /// top of the interval at or below where it was.
    pub proof fn lemma_narrowed(self, symbol: int, cdf: Seq<u16>)
        requires
            self.bounded(),
            has_room(self.range, symbol, cdf),
        ensures
            self.narrowed(symbol, cdf).bounded(),
            self.narrowed(symbol, cdf).low_end() == self.low_end() + self.range - tail_width(
                self.range,
                cdf,
                symbol,
            ),
            self.narrowed(symbol, cdf).range == tail_width(self.range, cdf, symbol) - tail_width(
                self.range,
                cdf,
                symbol + 1,
            ),
            self.narrowed(symbol, cdf).total_bits() == self.total_bits(),
    {
    }

    /// The pending part of a bounded state fits in 64 bits.
    pub proof fn lemma_low_fits(self)
        requires
            self.bounded(),
        ensures
            self.low + self.range <= 0x1_0000_0000_0000_0000,
    {
        lemma_pow2_monotonic(self.pending_bits() + 1, 64);
        lemma2_to64_rest();
    }

    /// Where renormalization moves bytes out of `low`: they are 6 or 7,
    /// with at most a carry bit above them, and a carry finds a byte in
    /// `data` that is not `0xFF`.
    pub proof fn lemma_flush(self)
        requires
            self.bounded(),
            self.count + self.shift() >= 40,
        ensures
            ({
                let nbytes = ((self.count + self.shift()) / 8 + 1) as nat;
                let c = (self.count + 24 - 8 * nbytes) as nat;
                let whole = self.low / pow2(c);
                &&& 6 <= nbytes <= 7
                &&& 1 <= c <= 23
                &&& c + 8 * nbytes == self.pending_bits()
                &&& whole < 2 * pow2(8 * nbytes)
                &&& whole >= pow2(8 * nbytes) ==> be_value(self.data) + 1 < pow2(
                    8 * self.data.len(),
                )
                &&& whole / pow2(8 * nbytes) * pow2(8 * nbytes) + whole % pow2(8 * nbytes) == whole
                &&& whole / pow2(8 * nbytes) == (if whole >= pow2(8 * nbytes) {
                    1nat
                } else {
                    0nat
                })
            }),
    {
        lemma_shift_normalizes(self.range);
        let nbytes = ((self.count + self.shift()) / 8 + 1) as nat;
        let c = (self.count + 24 - 8 * nbytes) as nat;
        let whole = self.low / pow2(c);
        let rest = self.low % pow2(c);
        let pc = pow2(c);
        let pb = pow2(8 * nbytes);
        let big = be_value(self.data);
        let n = self.data.len();
        lemma_pow2_pos(c);
        lemma_pow2_pos(8 * nbytes);
        lemma_fundamental_div_mod(self.low as int, pc as int);
        lemma_mod_bound(self.low as int, pc as int);
        lemma_pow2_adds(8 * nbytes, c);
        lemma_pow2_adds(8 * nbytes + c, 1);
        lemma2_to64();
        assert(whole < 2 * pb) by (nonlinear_arith)
            requires
                self.low < pb * pc * 2,
                self.low == pc * whole + rest,
                rest >= 0,
                pc > 0,
        ;
        lemma_pow2_adds(8 * n, 8 * nbytes + c);
        if whole >= pb {
            assert(big + 1 < pow2(8 * n)) by (nonlinear_arith)
                requires
                    big * (pb * pc) + self.low + self.range <= pow2(8 * n) * (pb * pc),
                    self.low == pc * whole + rest,
                    whole >= pb,
                    rest >= 0,
                    self.range >= 1,
                    pc > 0,
                    pb > 0,
            ;
            assert(whole / pb == 1) by (nonlinear_arith)
                requires
                    pb <= whole < 2 * pb,
            ;
        } else {
            assert(whole / pb == 0) by (nonlinear_arith)
                requires
                    0 <= whole < pb,
            ;
        }
        lemma_fundamental_div_mod(whole as int, pb as int);
        assert(whole / pb * pb == pb * (whole / pb)) by (nonlinear_arith);
    }

    /// Renormalization makes a bounded state well formed, scales low end
    /// and width by `2^shift`, and never shortens `data`.
    pub proof fn lemma_renormalized(self)
        requires
            self.bounded(),
        ensures
            self.renormalized().wf(),
            self.renormalized().low_end() == self.low_end() * pow2(self.shift()),
            self.renormalized().range == self.range * pow2(self.shift()),
            self.renormalized().total_bits() == self.total_bits() + self.shift(),
            self.renormalized().data.len() >= self.data.len(),
            self.count + self.shift() < 40 ==> self.renormalized().data == self.data,
            self.renormalized().count < 40,
            self.renormalized().count == (if self.count + self.shift() >= 40 {
                (self.count + self.shift()) % 8 - 8
            } else {
                self.count + self.shift()
            }),
    {
        let d = self.shift();
        let s = self.count + d;
        let w = self.pending_bits();
        let after = self.renormalized();
        let big = be_value(self.data);
        let n = self.data.len();
        lemma_shift_normalizes(self.range);
        lemma_pow2_pos(d);
        lemma_pow2_pos(w);
        if s >= 40 {
            let nbytes = (s / 8 + 1) as nat;
            let c = (self.count + 24 - 8 * nbytes) as nat;
            let out = self.low / pow2(c);
            let rest = self.low % pow2(c);
            let pc = pow2(c);
            let pd = pow2(d);
            let pb = pow2(8 * nbytes);
            lemma_pow2_pos(c);
            lemma_pow2_pos(8 * nbytes);
            lemma_fundamental_div_mod(self.low as int, pc as int);
            lemma_mod_bound(self.low as int, pc as int);
            lemma_pow2_adds(8 * nbytes, c);
            // The bytes moved out, carry included, fit in the longer buffer.
            let moved = big * pb + out;
            assert(moved * pc + rest == self.low_end()) by (nonlinear_arith)
                requires
                    self.low_end() == big * (pb * pc) + self.low,
                    self.low == pc * out + rest,
                    moved == big * pb + out,
            ;
            lemma_pow2_adds(8 * n, w);
            lemma_pow2_adds(8 * n + 8 * nbytes, c);
            assert(moved < pow2(8 * (n + nbytes))) by (nonlinear_arith)
                requires
                    moved * pc + rest + self.range <= pow2(8 * (n + nbytes)) * pc,
                    self.range >= 1,
                    pc > 0,
            ;
            lemma_be_value_of_bytes_small(moved, n + nbytes);
            lemma_be_bytes_len(moved, n + nbytes);
            lemma_pow2_adds(c, d);
            assert(after.low_end() == self.low_end() * pd) by (nonlinear_arith)
                requires
                    after.low_end() == moved * (pc * pd) + rest * pd,
                    moved * pc + rest == self.low_end(),
            ;
            lemma_pow2_adds(self.total_bits(), d);
            assert(after.low_end() + after.range <= pow2(after.total_bits())) by (nonlinear_arith)
                requires
                    after.low_end() == self.low_end() * pd,
                    after.range == self.range * pd,
                    self.low_end() + self.range <= pow2(self.total_bits()),
                    pow2(after.total_bits()) == pow2(self.total_bits()) * pd,
                    pd > 0,
            ;
            // One carry bit at most above the pending bits.
            lemma_scale_bound(rest, c, d);
            lemma2_to64();
            lemma_pow2_monotonic(16, c + d);
            vstd::arithmetic::power2::lemma_pow2_unfold(c + d + 1);
        } else {
            lemma_pow2_adds(w, d);
            let pd = pow2(d);
            let pw = pow2(w);
            assert(after.low_end() == self.low_end() * pd) by (nonlinear_arith)
                requires
                    after.low_end() == big * (pw * pd) + self.low * pd,
                    self.low_end() == big * pw + self.low,
            ;
            lemma_pow2_adds(self.total_bits(), d);
            assert(after.low_end() + after.range <= pow2(after.total_bits())) by (nonlinear_arith)
                requires
                    after.low_end() == self.low_end() * pd,
                    after.range == self.range * pd,
                    self.low_end() + self.range <= pow2(self.total_bits()),
                    pow2(after.total_bits()) == pow2(self.total_bits()) * pd,
                    pd > 0,
            ;
            lemma_pow2_adds(w + 1, d);
            assert(after.low + after.range <= pow2(after.pending_bits() + 1)) by (nonlinear_arith)
                requires
                    after.low == self.low * pd,
                    after.range == self.range * pd,
                    self.low + self.range <= pow2(w + 1),
                    pow2(after.pending_bits() + 1) == pow2(w + 1) * pd,
                    pd > 0,
            ;
        }
    }
}

impl CoderState {
    /// Of a well-formed state, the closing point lies inside the interval,
    /// so the stream that ends in it has at most one carry and still lies
    /// inside the unit interval.
    pub proof fn lemma_closing_point(self)
        requires
            self.wf(),
        ensures
            self.low <= self.closing_point() < self.low + 0x8000,
            self.closing_point() < self.low + self.range,
            self.closing_point() < 2 * pow2(self.pending_bits()),
            be_value(self.data) * pow2(self.pending_bits()) + self.closing_point() < pow2(
                self.total_bits(),
            ),
            1 <= self.closing_len() <= 7,
            7 <= self.pending_bits() - 8 * self.closing_len() <= 14,
    {
        vstd::arithmetic::power2::lemma_pow2_unfold(self.pending_bits() + 1);
    }

    /// One byte of the closing point moves to the buffer: `val` is the
    /// byte with the carry above it.
    pub proof fn lemma_closing_step(big: nat, e: nat, w: nat, len: nat)
        requires
            w >= 8,
            e < 2 * pow2(w),
            big * pow2(w) + e < pow2(8 * len + w),
        ensures
            ({
                let val = e / pow2((w - 8) as nat);
                let rest = e % pow2((w - 8) as nat);
                &&& val < 512
                &&& rest < pow2((w - 8) as nat)
                &&& val >= 256 ==> big + 1 < pow2(8 * len)
                &&& (big * 256 + val) * pow2((w - 8) as nat) + rest == big * pow2(w) + e
            }),
    {
        let k = (w - 8) as nat;
        let pk = pow2(k);
        let val = e / pk;
        let rest = e % pk;
        lemma2_to64();
        lemma_pow2_pos(k);
        lemma_pow2_adds(8, k);
        lemma_pow2_adds(8 * len, w);
        lemma_fundamental_div_mod(e as int, pk as int);
        lemma_mod_bound(e as int, pk as int);
        assert(val < 512) by (nonlinear_arith)
            requires
                e < 2 * (256 * pk),
                e == pk * val + rest,
                rest >= 0,
                pk > 0,
        ;
        if val >= 256 {
            assert(big + 1 < pow2(8 * len)) by (nonlinear_arith)
                requires
                    big * (256 * pk) + e < pow2(8 * len) * (256 * pk),
                    e == pk * val + rest,
                    val >= 256,
                    rest >= 0,
                    pk > 0,
            ;
        }
        assert((big * 256 + val) * pk + rest == big * (256 * pk) + e) by (nonlinear_arith)
            requires
                e == pk * val + rest,
        ;
    }

    /// A buffer that spells the closing value down to its last whole byte
    /// is the finished stream.
    pub proof fn lemma_finished(self, data_end: Seq<u8>, e_end: nat)
        requires
            self.wf(),
            data_end.len() == self.data.len() + self.closing_len(),
            e_end < pow2((self.pending_bits() - 8 * self.closing_len()) as nat),
            be_value(data_end) * pow2((self.pending_bits() - 8 * self.closing_len()) as nat)
                + e_end == be_value(self.data) * pow2(self.pending_bits())
                + self.closing_point(),
        ensures
            data_end == self.finished(),
    {
        self.lemma_closing_point();
        let nbytes = self.closing_len();
        let dropped = (self.pending_bits() - 8 * nbytes) as nat;
        let pd = pow2(dropped);
        let pb = pow2(8 * nbytes);
        let big = be_value(self.data);
        let e = self.closing_point();
        lemma_pow2_pos(dropped);
        lemma_pow2_adds(8 * nbytes, dropped);
        lemma_fundamental_div_mod(e as int, pd as int);
        lemma_mod_bound(e as int, pd as int);
        let top = e / pd;
        let rest = e % pd;
        assert(be_value(data_end) == big * pb + top) by (nonlinear_arith)
            requires
                be_value(data_end) * pd + e_end == big * (pb * pd) + e,
                e == pd * top + rest,
                0 <= rest < pd,
                0 <= e_end < pd,
        ;
        crate::bigendian::lemma_be_bytes_of_value(data_end);
    }
}

impl CoderState {
    /// Writing a symbol that has room keeps the state well formed and never
    /// shortens `data`. The new interval is the symbol's part of the old
    /// one, scaled by `2^shift`.
    pub proof fn lemma_put_symbol(self, symbol: int, cdf: Seq<u16>)
        requires
            self.wf(),
            has_room(self.range, symbol, cdf),
        ensures
            self.put_symbol(symbol, cdf).wf(),
            self.put_symbol(symbol, cdf).data.len() >= self.data.len(),
            ({
                let d = self.narrowed(symbol, cdf).shift();
                let u = tail_width(self.range, cdf, symbol);
                let v = tail_width(self.range, cdf, symbol + 1);
                &&& self.put_symbol(symbol, cdf).low_end() == (self.low_end() + self.range - u)
                    * pow2(d)
                &&& self.put_symbol(symbol, cdf).range == (u - v) * pow2(d)
                &&& self.put_symbol(symbol, cdf).total_bits() == self.total_bits() + d
            }),
    {
        self.lemma_narrowed(symbol, cdf);
        self.narrowed(symbol, cdf).lemma_renormalized();
    }

    /// Writing a bit with a probability strictly between none and all keeps
    /// the state well formed and never shortens `data`.
    pub proof fn lemma_put_bit(self, bit: int, p_zero: u16)
        requires
            self.wf(),
            0 <= bit <= 1,
            0 < p_zero < CDF_TOTAL,
        ensures
            self.put_bit(bit, p_zero).wf(),
            self.put_bit(bit, p_zero).data.len() >= self.data.len(),
            has_room(self.range, bit, seq![p_zero]),
            valid_cdf(seq![p_zero]),
    {
        let cdf = seq![p_zero];
        lemma_small_alphabet_has_room(self.range, bit, cdf);
        self.lemma_put_symbol(bit, cdf);
    }

    /// Writing a literal keeps the state well formed and never shortens
    /// `data`.
    pub proof fn lemma_put_literal(self, value: nat, nbits: nat)
        requires
            self.wf(),
        ensures
            self.put_literal(value, nbits).wf(),
            self.put_literal(value, nbits).data.len() >= self.data.len(),
        decreases nbits,
    {
        if nbits > 0 {
            let bit = (value / pow2((nbits - 1) as nat)) % 2;
            self.lemma_put_bit(bit as int, 16384);
            self.put_bit(bit as int, 16384).lemma_put_literal(value, (nbits - 1) as nat);
        }
    }

    /// A literal of no bits writes nothing.
    pub proof fn lemma_put_literal_empty(self, value: nat)
        ensures
            self.put_literal(value, 0) == self,
    {
    }

    /// Writing a Golomb code keeps the state well formed and never shortens
    /// `data`.
    pub proof fn lemma_put_golomb(self, value: nat)
        requires
            self.wf(),
        ensures
            self.put_golomb(value).wf(),
            self.put_golomb(value).data.len() >= self.data.len(),
    {
        let v = value + 1;
        let n = log2_floor(v);
        self.lemma_put_literal(0, n);
        self.put_literal(0, n).lemma_put_literal(v, n + 1);
    }
}

impl CoderState {
    /// The finished stream ends in the marker: the lowest 1 bit of its last
    /// byte is the bit that closing has set, bit 14 of the pending part.
    pub proof fn lemma_finished_marker(self)
        requires
            self.wf(),
        ensures
            self.finished().len() == self.data.len() + self.closing_len(),
            self.finished().len() > 0,
            self.marker_bit() <= 7,
            self.finished().last() as nat % pow2(self.marker_bit() + 1) == pow2(
                self.marker_bit(),
            ),
    {
        self.lemma_closing_point();
        let nbytes = self.closing_len();
        let dropped = (self.pending_bits() - 8 * nbytes) as nat;
        let k = (14 - dropped) as nat;
        let big = be_value(self.data);
        let e = self.closing_point();
        let q = (self.low + 0x3FFF) / 0x8000;
        let pd = pow2(dropped);
        let pk = pow2(k);
        let m = pow2(k + 1);
        let c = pow2((7 - k) as nat);
        let pb = pow2(8 * nbytes);
        let pr = pow2((8 * (nbytes - 1)) as nat);
        let moved = big * pb + e / pd;
        lemma2_to64();
        lemma_pow2_pos(dropped);
        lemma_pow2_pos(k);
        lemma_pow2_pos((7 - k) as nat);
        lemma_pow2_adds(dropped, k);
        lemma_pow2_adds(k, 1);
        lemma_pow2_adds(k + 1, (7 - k) as nat);
        lemma_pow2_adds(8, (8 * (nbytes - 1)) as nat);
        assert(e == ((2 * q + 1) * pk) * pd) by (nonlinear_arith)
            requires
                e == q * 0x8000 + 0x4000,
                pd * pk == 0x4000,
        ;
        vstd::arithmetic::div_mod::lemma_div_by_multiple(((2 * q + 1) * pk) as int, pd as int);
        lemma_be_bytes_len(moved, self.data.len() + nbytes);
        assert(moved == m * (big * (c * pr) + q) + pk) by (nonlinear_arith)
            requires
                moved == big * pb + (2 * q + 1) * pk,
                pb == 256 * pr,
                m * c == 256,
                m == pk * 2,
        ;
        vstd::arithmetic::div_mod::lemma_fundamental_div_mod_converse(
            moved as int,
            m as int,
            (big * (c * pr) + q) as int,
            pk as int,
        );
        vstd::arithmetic::div_mod::lemma_mod_mod(moved as int, m as int, c as int);
    }
}

/// The state of a writer that started in `st` and wrote `symbols`, each
/// with its distribution of `cdfs`.
pub open spec fn encoded(st: CoderState, symbols: Seq<int>, cdfs: Seq<Seq<u16>>) -> CoderState
    decreases symbols.len(),
{
    if symbols.len() == 0 || cdfs.len() == 0 {
        st
    } else {
        encoded(st.put_symbol(symbols[0], cdfs[0]), symbols.drop_first(), cdfs.drop_first())
    }
}

/// A writer in the state `st` can write `symbols` with the distributions
/// `cdfs`: there is one valid distribution for each symbol, the symbol is
/// one of its alphabet, and the interval has room for it when its turn
/// comes.
pub open spec fn encodable(st: CoderState, symbols: Seq<int>, cdfs: Seq<Seq<u16>>) -> bool
    decreases symbols.len(),
{
    &&& symbols.len() == cdfs.len()
    &&& symbols.len() > 0 ==> {
        &&& valid_cdf(cdfs[0])
        &&& 0 <= symbols[0] <= cdfs[0].len()
        &&& has_room(st.range, symbols[0], cdfs[0])
        &&& encodable(
            st.put_symbol(symbols[0], cdfs[0]),
            symbols.drop_first(),
            cdfs.drop_first(),
        )
    }
}

/// A writer that has written nothing is well formed, and its interval is
/// the lower half of the unit interval.
pub proof fn lemma_initial_wf()
    ensures
        CoderState::initial().wf(),
        CoderState::initial().low_end() == 0,
        CoderState::initial().total_bits() == 15,
{
    lemma2_to64();
    let st = CoderState::initial();
    assert(st.low_end() == 0) by (nonlinear_arith)
        requires
            st.low_end() == 0 * pow2(15) + 0,
    ;
}

/// After any symbols that the writer can write it is well formed: its
/// width has 16 bits, fewer than 40 bits are pending beyond the 24 that
/// `count` leaves out, and `data` is no shorter than it was.
pub proof fn lemma_encoded_wf(st: CoderState, symbols: Seq<int>, cdfs: Seq<Seq<u16>>)
    requires
        st.wf(),
        encodable(st, symbols, cdfs),
    ensures
        encoded(st, symbols, cdfs).wf(),
        0x8000 <= encoded(st, symbols, cdfs).range <= 0xFFFF,
        -9 <= encoded(st, symbols, cdfs).count < 40,
        encoded(st, symbols, cdfs).data.len() >= st.data.len(),
    decreases symbols.len(),
{
    if symbols.len() > 0 {
        let next = st.put_symbol(symbols[0], cdfs[0]);
        st.lemma_put_symbol(symbols[0], cdfs[0]);
        lemma_encoded_wf(next, symbols.drop_first(), cdfs.drop_first());
    }
}

/// With alphabets of at most 16 symbols, a well-formed writer can write any
/// symbols of those alphabets.
pub proof fn lemma_small_alphabets_encodable(
    st: CoderState,
    symbols: Seq<int>,
    cdfs: Seq<Seq<u16>>,
)
    requires
        st.wf(),
        symbols.len() == cdfs.len(),
        forall|i: int|
            0 <= i < cdfs.len() ==> valid_cdf(#[trigger] cdfs[i]) && cdfs[i].len() <= 15 && 0
                <= symbols[i] <= cdfs[i].len(),
    ensures
        encodable(st, symbols, cdfs),
    decreases symbols.len(),
{
    if symbols.len() > 0 {
        lemma_small_alphabet_has_room(st.range, symbols[0], cdfs[0]);
        st.lemma_put_symbol(symbols[0], cdfs[0]);
        let rest = cdfs.drop_first();
        assert forall|i: int| 0 <= i < rest.len() implies valid_cdf(#[trigger] rest[i])
            && rest[i].len() <= 15 && 0 <= symbols.drop_first()[i] <= rest[i].len() by {}
        lemma_small_alphabets_encodable(
            st.put_symbol(symbols[0], cdfs[0]),
            symbols.drop_first(),
            rest,
        );
    }
}

} // verus!
