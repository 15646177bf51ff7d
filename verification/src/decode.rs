//! The decoder that reads a finished stream back, as arithmetic, and the
//! proof that it returns the symbols that were written.
//!
//! The decoder is the symbol decoder of AV1, without adaptation of the
//! distributions. Its `value` is how far the stream's number lies below the
//! top of the interval, less one; the stream reads as zeros past its end.

use crate::bigendian::{be_value, lemma_be_bytes_len, lemma_be_value_of_bytes_small};
use crate::model::{
    encodable, encoded, has_room, lemma_encoded_wf, lemma_initial_wf, lemma_tail_width_falls,
    tail_width, valid_cdf, CoderState,
};
use crate::util::log2_floor;
use vstd::arithmetic::div_mod::{lemma_fundamental_div_mod, lemma_mod_bound};
use vstd::arithmetic::power2::{lemma2_to64, lemma_pow2_adds, lemma_pow2_pos, pow2};
use vstd::prelude::*;

verus! {

/// The first `n` bits of the stream `bytes`, as a number; past the end of
/// the stream the bits are zero.
pub open spec fn stream_prefix(bytes: Seq<u8>, n: nat) -> nat {
    be_value(bytes) * pow2(n) / pow2(8 * bytes.len())
}

/// What a decoder holds between symbols.
pub struct DecoderState {
    /// The width of the interval, less one, less what the bits read so far
    /// lie above its low end.
    pub value: nat,
    /// The width of the interval.
    pub range: nat,
    /// The number of bits read so far.
    pub pos: nat,
}

impl DecoderState {
    /// The state of a decoder that has read the first 15 bits of `bytes`.
    pub open spec fn start(bytes: Seq<u8>) -> DecoderState {
        DecoderState {
            value: (0x7FFF - stream_prefix(bytes, 15)) as nat,
            range: 0x8000,
            pos: 15,
        }
    }

    /// The first symbol at or after `from` whose part the value has
    /// reached; the last symbol if there is no other.
    pub open spec fn pick(self, cdf: Seq<u16>, from: int) -> int
        decreases cdf.len() - from,
    {
        if from >= cdf.len() {
            cdf.len() as int
        } else if self.value >= tail_width(self.range, cdf, from + 1) {
            from
        } else {
            self.pick(cdf, from + 1)
        }
    }

    /// The symbol that the decoder reads with the distribution `cdf`.
    pub open spec fn symbol(self, cdf: Seq<u16>) -> int {
        self.pick(cdf, 0)
    }

    /// The state after the decoder has read a symbol with the distribution
    /// `cdf`: the interval is the symbol's part, scaled back to 16 bits, and
    /// as many bits of the stream as the scaling shifts by are read in.
    pub open spec fn advance(self, bytes: Seq<u8>, cdf: Seq<u16>) -> DecoderState {
        let s = self.symbol(cdf);
        let u = tail_width(self.range, cdf, s);
        let v = tail_width(self.range, cdf, s + 1);
        let range = (u - v) as nat;
        let d = (15 - log2_floor(range)) as nat;
        let fresh = stream_prefix(bytes, self.pos + d) - stream_prefix(bytes, self.pos) * pow2(d);
        DecoderState {
            value: ((self.value - v + 1) * pow2(d) - 1 - fresh) as nat,
            range: range * pow2(d),
            pos: self.pos + d,
        }
    }

    /// The decoder `self` has followed the writer `st` on the stream
    /// `bytes`: it has read as many bits as the writer's low end has, its
    /// interval is as wide, and its value is the distance from those bits
    /// to the top of the writer's interval, less one.
    pub open spec fn follows(self, st: CoderState, bytes: Seq<u8>) -> bool {
        &&& self.pos == st.total_bits()
        &&& self.range == st.range
        &&& self.value + stream_prefix(bytes, self.pos) + 1 == st.low_end() + st.range
    }
}

/// The symbols that a decoder in the state `st` reads from `bytes`, one for
/// each distribution of `cdfs`.
pub open spec fn decoded(bytes: Seq<u8>, st: DecoderState, cdfs: Seq<Seq<u16>>) -> Seq<int>
    decreases cdfs.len(),
{
    if cdfs.len() == 0 {
        Seq::empty()
    } else {
        seq![st.symbol(cdfs[0])] + decoded(bytes, st.advance(bytes, cdfs[0]), cdfs.drop_first())
    }
}

/// The number that `bytes` spells lies in the interval of `st`, both taken
/// as fractions of one.
pub open spec fn covers(st: CoderState, bytes: Seq<u8>) -> bool {
    let unit = pow2(8 * bytes.len());
    let point = be_value(bytes) * pow2(st.total_bits());
    st.low_end() * unit <= point < (st.low_end() + st.range) * unit
}

proof fn lemma_div_between(a: nat, b: nat, x: nat, p: nat)
    by (nonlinear_arith)
    requires
        p > 0,
        a * p <= x < b * p,
    ensures
        a <= x / p < b,
{
}

proof fn lemma_cancel_between(a: nat, b: nat, x: nat, q: nat)
    by (nonlinear_arith)
    requires
        q > 0,
        a * q <= x * q < b * q,
    ensures
        a <= x < b,
{
}

proof fn lemma_scaled_floor(x: nat, p: nat, q: nat)
    requires
        p > 0,
        q > 0,
    ensures
        (x / p) * q <= (x * q) / p < (x / p + 1) * q,
{
    lemma_fundamental_div_mod(x as int, p as int);
    lemma_mod_bound(x as int, p as int);
    let k = x / p;
    let r = x % p;
    assert(k * q * p <= x * q < (k + 1) * q * p) by (nonlinear_arith)
        requires
            x == p * k + r,
            0 <= r < p,
            q > 0,
    ;
    lemma_div_between(k * q, (k + 1) * q, x * q, p);
}

/// Reading `d` more bits: the longer prefix is the shorter one shifted up,
/// plus the `d` fresh bits.
pub proof fn lemma_stream_prefix_grows(bytes: Seq<u8>, n: nat, d: nat)
    ensures
        stream_prefix(bytes, n) * pow2(d) <= stream_prefix(bytes, n + d) < (stream_prefix(bytes, n)
            + 1) * pow2(d),
{
    let unit = pow2(8 * bytes.len());
    lemma_pow2_pos(8 * bytes.len());
    lemma_pow2_pos(d);
    lemma_pow2_adds(n, d);
    let x = be_value(bytes) * pow2(n);
    assert(be_value(bytes) * pow2(n + d) == x * pow2(d)) by (nonlinear_arith)
        requires
            pow2(n + d) == pow2(n) * pow2(d),
            x == be_value(bytes) * pow2(n),
    ;
    lemma_scaled_floor(x, unit, pow2(d));
}

/// Where the stream's number lies in the interval of `st`, the bits of the
/// stream down to the last bit of the low end do too.
pub proof fn lemma_covers_prefix(st: CoderState, bytes: Seq<u8>)
    requires
        covers(st, bytes),
    ensures
        st.low_end() <= stream_prefix(bytes, st.total_bits()) < st.low_end() + st.range,
{
    lemma_pow2_pos(8 * bytes.len());
    lemma_div_between(
        st.low_end(),
        st.low_end() + st.range,
        be_value(bytes) * pow2(st.total_bits()),
        pow2(8 * bytes.len()),
    );
}

/// Where the stream's number lies in the interval that a symbol left, it
/// lay in that symbol's part of the interval before, and so in the interval
/// before.
pub proof fn lemma_covers_before(st: CoderState, symbol: int, cdf: Seq<u16>, bytes: Seq<u8>)
    requires
        st.wf(),
        has_room(st.range, symbol, cdf),
        covers(st.put_symbol(symbol, cdf), bytes),
    ensures
        covers(st, bytes),
        st.low_end() + st.range - tail_width(st.range, cdf, symbol) <= stream_prefix(
            bytes,
            st.total_bits(),
        ) < st.low_end() + st.range - tail_width(st.range, cdf, symbol + 1),
{
    st.lemma_put_symbol(symbol, cdf);
    let next = st.put_symbol(symbol, cdf);
    let d = st.narrowed(symbol, cdf).shift();
    let u = tail_width(st.range, cdf, symbol);
    let v = tail_width(st.range, cdf, symbol + 1);
    let unit = pow2(8 * bytes.len());
    let c = be_value(bytes);
    let q = pow2(d);
    let lo = (st.low_end() + st.range - u) as nat;
    let hi = (st.low_end() + st.range - v) as nat;
    lemma_pow2_pos(d);
    lemma_pow2_pos(8 * bytes.len());
    lemma_pow2_adds(st.total_bits(), d);
    let x = c * pow2(st.total_bits());
    assert(next.low_end() + next.range == hi * q) by (nonlinear_arith)
        requires
            next.low_end() == lo * q,
            next.range == (u - v) * q,
            hi == lo + (u - v),
    ;
    assert((lo * unit) * q <= x * q < (hi * unit) * q) by (nonlinear_arith)
        requires
            next.low_end() * unit <= c * pow2(next.total_bits()) < (next.low_end() + next.range)
                * unit,
            next.low_end() == lo * q,
            next.low_end() + next.range == hi * q,
            pow2(next.total_bits()) == pow2(st.total_bits()) * q,
            x == c * pow2(st.total_bits()),
    ;
    lemma_cancel_between(lo * unit, hi * unit, x, q);
    lemma_div_between(lo, hi, x, unit);
    assert(st.low_end() * unit <= lo * unit) by (nonlinear_arith)
        requires
            st.low_end() <= lo,
    ;
    assert(hi * unit <= (st.low_end() + st.range) * unit) by (nonlinear_arith)
        requires
            hi <= st.low_end() + st.range,
    ;
}

impl DecoderState {
    /// Where the value lies in the part of `symbol`, the decoder picks
    /// `symbol`: the parts of the symbols before it lie above the value.
    pub proof fn lemma_pick(self, cdf: Seq<u16>, symbol: int, from: int)
        requires
            valid_cdf(cdf),
            0 <= from <= symbol <= cdf.len(),
            tail_width(self.range, cdf, symbol + 1) <= self.value,
            symbol > 0 ==> self.value < tail_width(self.range, cdf, symbol),
        ensures
            self.pick(cdf, from) == symbol,
        decreases symbol - from,
    {
        if from < symbol {
            lemma_tail_width_falls(self.range, cdf, from + 1, symbol);
            self.lemma_pick(cdf, symbol, from + 1);
        }
    }

    /// One symbol read back: a decoder that has followed the writer up to a
    /// symbol reads that symbol, and has then followed the writer past it.
    pub proof fn lemma_advance(
        self,
        st: CoderState,
        symbol: int,
        cdf: Seq<u16>,
        bytes: Seq<u8>,
    )
        requires
            st.wf(),
            valid_cdf(cdf),
            0 <= symbol <= cdf.len(),
            has_room(st.range, symbol, cdf),
            self.follows(st, bytes),
            covers(st.put_symbol(symbol, cdf), bytes),
        ensures
            self.symbol(cdf) == symbol,
            self.advance(bytes, cdf).follows(st.put_symbol(symbol, cdf), bytes),
    {
        let next = st.put_symbol(symbol, cdf);
        let u = tail_width(st.range, cdf, symbol);
        let v = tail_width(st.range, cdf, symbol + 1);
        let d = st.narrowed(symbol, cdf).shift();
        let q = pow2(d);
        let before = stream_prefix(bytes, self.pos);
        lemma_covers_before(st, symbol, cdf, bytes);
        st.lemma_put_symbol(symbol, cdf);
        self.lemma_pick(cdf, symbol, 0);
        lemma_covers_prefix(next, bytes);
        lemma_stream_prefix_grows(bytes, self.pos, d);
        lemma_pow2_pos(d);
        let lo = (st.low_end() + st.range - u) as nat;
        let hi = (st.low_end() + st.range - v) as nat;
        assert((hi - before) * q == hi * q - before * q) by (nonlinear_arith);
        assert(next.low_end() + next.range == hi * q) by (nonlinear_arith)
            requires
                next.low_end() == lo * q,
                next.range == (u - v) * q,
                hi == lo + (u - v),
        ;
    }
}

/// Where the stream's number lies in the interval after all of `symbols`,
/// it lies in the interval before them.
pub proof fn lemma_covers_start(
    st: CoderState,
    symbols: Seq<int>,
    cdfs: Seq<Seq<u16>>,
    bytes: Seq<u8>,
)
    requires
        st.wf(),
        encodable(st, symbols, cdfs),
        covers(encoded(st, symbols, cdfs), bytes),
    ensures
        covers(st, bytes),
    decreases symbols.len(),
{
    if symbols.len() > 0 {
        let next = st.put_symbol(symbols[0], cdfs[0]);
        st.lemma_put_symbol(symbols[0], cdfs[0]);
        lemma_covers_start(next, symbols.drop_first(), cdfs.drop_first(), bytes);
        lemma_covers_before(st, symbols[0], cdfs[0], bytes);
    }
}

/// The number that the finished stream spells lies in the last interval.
pub proof fn lemma_finished_covers(st: CoderState)
    requires
        st.wf(),
    ensures
        covers(st, st.finished()),
        st.finished().len() == st.data.len() + st.closing_len(),
{
    st.lemma_closing_point();
    let bytes = st.finished();
    let nbytes = st.closing_len();
    let dropped = (st.pending_bits() - 8 * nbytes) as nat;
    let big = be_value(st.data);
    let e = st.closing_point();
    let pd = pow2(dropped);
    let pb = pow2(8 * nbytes);
    let pw = pow2(st.pending_bits());
    let len = st.data.len();
    let top = e / pd;
    lemma2_to64();
    lemma_pow2_pos(dropped);
    lemma_pow2_adds(8 * nbytes, dropped);
    lemma_pow2_adds(8 * len, st.pending_bits());
    lemma_pow2_adds(8 * (len + nbytes), dropped);
    // The closing point has no bits below the last byte that goes out.
    lemma_pow2_adds(dropped, (14 - dropped) as nat);
    let q = (st.low + 0x3FFF) / 0x8000;
    let step = pow2((14 - dropped) as nat);
    assert(e == ((2 * q + 1) * step) * pd) by (nonlinear_arith)
        requires
            e == q * 0x8000 + 0x4000,
            pd * step == 0x4000,
    ;
    vstd::arithmetic::div_mod::lemma_div_by_multiple(((2 * q + 1) * step) as int, pd as int);
    let moved = big * pb + top;
    assert(moved * pd == big * pw + e) by (nonlinear_arith)
        requires
            moved == big * pb + top,
            top * pd == e,
            pw == pb * pd,
    ;
    assert(moved < pow2(8 * (len + nbytes))) by (nonlinear_arith)
        requires
            moved * pd == big * pw + e,
            big * pw + e < pow2(8 * (len + nbytes)) * pd,
            pd > 0,
    ;
    lemma_be_value_of_bytes_small(moved, len + nbytes);
    lemma_be_bytes_len(moved, len + nbytes);
    let unit = pow2(8 * bytes.len());
    assert(be_value(bytes) * pow2(st.total_bits()) == (big * pw + e) * unit) by (nonlinear_arith)
        requires
            be_value(bytes) == moved,
            moved * pd == big * pw + e,
            pow2(st.total_bits()) == unit * pd,
    ;
    lemma_pow2_pos(8 * bytes.len());
    assert(st.low_end() * unit <= (big * pw + e) * unit < (st.low_end() + st.range) * unit)
        by (nonlinear_arith)
        requires
            st.low_end() <= big * pw + e < st.low_end() + st.range,
            unit > 0,
    ;
}

/// A decoder that has followed the writer up to `symbols` reads them back,
/// where the stream's number lies in the interval after them.
pub proof fn lemma_decoded(
    st: CoderState,
    ds: DecoderState,
    symbols: Seq<int>,
    cdfs: Seq<Seq<u16>>,
    bytes: Seq<u8>,
)
    requires
        st.wf(),
        encodable(st, symbols, cdfs),
        ds.follows(st, bytes),
        covers(encoded(st, symbols, cdfs), bytes),
    ensures
        decoded(bytes, ds, cdfs) == symbols,
    decreases symbols.len(),
{
    if symbols.len() > 0 {
        let next = st.put_symbol(symbols[0], cdfs[0]);
        st.lemma_put_symbol(symbols[0], cdfs[0]);
        lemma_covers_start(next, symbols.drop_first(), cdfs.drop_first(), bytes);
        ds.lemma_advance(st, symbols[0], cdfs[0], bytes);
        lemma_decoded(
            next,
            ds.advance(bytes, cdfs[0]),
            symbols.drop_first(),
            cdfs.drop_first(),
            bytes,
        );
    }
}

/// The round trip: whatever symbols a new writer writes, with whatever
/// distributions it can write them with, a decoder that is given the
/// finished stream and the same distributions reads the same symbols.
pub proof fn lemma_round_trip(symbols: Seq<int>, cdfs: Seq<Seq<u16>>)
    requires
        encodable(CoderState::initial(), symbols, cdfs),
    ensures
        ({
            let bytes = encoded(CoderState::initial(), symbols, cdfs).finished();
            decoded(bytes, DecoderState::start(bytes), cdfs) == symbols
        }),
{
    let first = CoderState::initial();
    let last = encoded(first, symbols, cdfs);
    let bytes = last.finished();
    lemma_initial_wf();
    lemma_encoded_wf(first, symbols, cdfs);
    lemma_finished_covers(last);
    lemma_covers_start(first, symbols, cdfs, bytes);
    lemma_covers_prefix(first, bytes);
    lemma_decoded(first, DecoderState::start(bytes), symbols, cdfs, bytes);
}

} // verus!
