//! Literals and Exp-Golomb codes as the bits that spell them, and the proof
//! that a decoder reads them back.

use crate::decode::{decoded, lemma_round_trip, DecoderState};
use crate::model::{
    encodable, encoded, lemma_encoded_wf, lemma_initial_wf, lemma_small_alphabets_encodable,
    CoderState,
};
use crate::util::{lemma_log2_floor_bounds, log2_floor};
use vstd::arithmetic::div_mod::{
    lemma_div_basics_1, lemma_div_denominator, lemma_mod_breakdown, lemma_small_mod,
};
use vstd::arithmetic::power2::{lemma2_to64, lemma_pow2_pos, lemma_pow2_unfold, pow2};
use vstd::prelude::*;

verus! {

/// The distribution of a bit that is as likely zero as one.
pub open spec fn even_cdf() -> Seq<u16> {
    seq![16384u16]
}

/// `n` even distributions, for `n` bits.
pub open spec fn even_cdfs(n: nat) -> Seq<Seq<u16>> {
    Seq::new(n, |i: int| even_cdf())
}

/// The low `nbits` bits of `value`, highest first.
pub open spec fn literal_bits(value: nat, nbits: nat) -> Seq<int> {
    Seq::new(nbits, |i: int| ((value / pow2((nbits - 1 - i) as nat)) % 2) as int)
}

/// The number that `bits` spell, highest first.
pub open spec fn bits_value(bits: Seq<int>) -> nat
    decreases bits.len(),
{
    if bits.len() == 0 {
        0
    } else {
        bits_value(bits.drop_last()) * 2 + bits.last() as nat
    }
}

/// The number of zeros that `bits` begin with.
pub open spec fn leading_zeros(bits: Seq<int>) -> nat
    decreases bits.len(),
{
    if bits.len() == 0 || bits[0] != 0 {
        0
    } else {
        1 + leading_zeros(bits.drop_first())
    }
}

/// The bits of the Exp-Golomb code of `value`: for `v = value + 1` of
/// `n + 1` significant bits, `n` zeros and then the `n + 1` bits of `v`.
pub open spec fn golomb_bits(value: nat) -> Seq<int> {
    let v = value + 1;
    let n = log2_floor(v);
    literal_bits(0, n) + literal_bits(v, n + 1)
}

/// The value that a decoder reads from the bits of an Exp-Golomb code: it
/// counts the zeros up to the first one, takes as many bits again after
/// that one, and subtracts one from the number that those bits spell with
/// the one before them.
pub open spec fn golomb_value(bits: Seq<int>) -> int {
    let n = leading_zeros(bits);
    bits_value(bits.subrange(n as int, (2 * n + 1) as int)) - 1
}

/// Writing symbols in two runs is writing them in one.
pub proof fn lemma_encoded_concat(
    st: CoderState,
    first: Seq<int>,
    first_cdfs: Seq<Seq<u16>>,
    second: Seq<int>,
    second_cdfs: Seq<Seq<u16>>,
)
    requires
        first.len() == first_cdfs.len(),
        second.len() == second_cdfs.len(),
    ensures
        encoded(st, first + second, first_cdfs + second_cdfs) == encoded(
            encoded(st, first, first_cdfs),
            second,
            second_cdfs,
        ),
    decreases first.len(),
{
    if first.len() > 0 {
        let next = st.put_symbol(first[0], first_cdfs[0]);
        assert((first + second).drop_first() == first.drop_first() + second);
        assert((first_cdfs + second_cdfs).drop_first() == first_cdfs.drop_first() + second_cdfs);
        lemma_encoded_concat(
            next,
            first.drop_first(),
            first_cdfs.drop_first(),
            second,
            second_cdfs,
        );
    }
}

/// Symbols that can be written in two runs can be written in one.
pub proof fn lemma_encodable_concat(
    st: CoderState,
    first: Seq<int>,
    first_cdfs: Seq<Seq<u16>>,
    second: Seq<int>,
    second_cdfs: Seq<Seq<u16>>,
)
    requires
        encodable(st, first, first_cdfs),
        encodable(encoded(st, first, first_cdfs), second, second_cdfs),
    ensures
        encodable(st, first + second, first_cdfs + second_cdfs),
    decreases first.len(),
{
    if first.len() == 0 {
        assert(first + second == second);
        assert(first_cdfs + second_cdfs == second_cdfs);
    } else {
        let next = st.put_symbol(first[0], first_cdfs[0]);
        assert((first + second).drop_first() == first.drop_first() + second);
        assert((first_cdfs + second_cdfs).drop_first() == first_cdfs.drop_first() + second_cdfs);
        lemma_encodable_concat(
            next,
            first.drop_first(),
            first_cdfs.drop_first(),
            second,
            second_cdfs,
        );
    }
}

/// A literal is the run of its bits, each written with the even
/// distribution.
pub proof fn lemma_put_literal_encoded(st: CoderState, value: nat, nbits: nat)
    ensures
        st.put_literal(value, nbits) == encoded(
            st,
            literal_bits(value, nbits),
            even_cdfs(nbits),
        ),
    decreases nbits,
{
    if nbits > 0 {
        let bits = literal_bits(value, nbits);
        let rest = (nbits - 1) as nat;
        let next = st.put_bit(bits[0], 16384);
        lemma_put_literal_encoded(next, value, rest);
        assert(bits.drop_first() =~= literal_bits(value, rest));
        assert(even_cdfs(nbits).drop_first() =~= even_cdfs(rest));
    }
}

/// An Exp-Golomb code is the run of its bits, each written with the even
/// distribution.
pub proof fn lemma_put_golomb_encoded(st: CoderState, value: nat)
    ensures
        st.put_golomb(value) == encoded(
            st,
            golomb_bits(value),
            even_cdfs(golomb_bits(value).len()),
        ),
        golomb_bits(value).len() == 2 * log2_floor(value + 1) + 1,
{
    let v = value + 1;
    let n = log2_floor(v);
    lemma_put_literal_encoded(st, 0, n);
    lemma_put_literal_encoded(st.put_literal(0, n), v, n + 1);
    lemma_encoded_concat(
        st,
        literal_bits(0, n),
        even_cdfs(n),
        literal_bits(v, n + 1),
        even_cdfs(n + 1),
    );
    assert(even_cdfs(n) + even_cdfs(n + 1) =~= even_cdfs(2 * n + 1));
}

/// The bits of a literal spell its value, reduced to their number of bits.
pub proof fn lemma_bits_value_of_literal(value: nat, nbits: nat)
    ensures
        bits_value(literal_bits(value, nbits)) == value % pow2(nbits),
    decreases nbits,
{
    lemma2_to64();
    if nbits > 0 {
        let rest = (nbits - 1) as nat;
        let bits = literal_bits(value, nbits);
        lemma_bits_value_of_literal(value / 2, rest);
        assert(bits.drop_last() =~= literal_bits(value / 2, rest)) by {
            let halved = literal_bits(value / 2, rest);
            assert forall|i: int| 0 <= i < rest implies bits[i] == halved[i] by {
                let k = (rest - 1 - i) as nat;
                lemma_pow2_unfold(k + 1);
                lemma_pow2_pos(k);
                lemma_div_denominator(value as int, 2, pow2(k) as int);
            }
        }
        let unit = pow2(0);
        assert(value / unit == value) by (nonlinear_arith)
            requires
                unit == 1,
        ;
        lemma_pow2_unfold(nbits);
        lemma_pow2_pos(rest);
        lemma_mod_breakdown(value as int, 2, pow2(rest) as int);
    }
}

/// Bits can be written at any time, each with the even distribution.
pub proof fn lemma_bits_encodable(st: CoderState, bits: Seq<int>)
    requires
        st.wf(),
        forall|i: int| 0 <= i < bits.len() ==> 0 <= #[trigger] bits[i] <= 1,
    ensures
        encodable(st, bits, even_cdfs(bits.len())),
{
    lemma_small_alphabets_encodable(st, bits, even_cdfs(bits.len()));
}

/// Bits written between other symbols are read back between them: where
/// a writer wrote `before`, then `bits` with the even distribution, then
/// `after`, a decoder that is given the finished stream and the same
/// distributions reads `before`, `bits` and `after`.
pub proof fn lemma_bits_round_trip(
    before: Seq<int>,
    before_cdfs: Seq<Seq<u16>>,
    bits: Seq<int>,
    after: Seq<int>,
    after_cdfs: Seq<Seq<u16>>,
)
    requires
        encodable(CoderState::initial(), before, before_cdfs),
        forall|i: int| 0 <= i < bits.len() ==> 0 <= #[trigger] bits[i] <= 1,
        encodable(
            encoded(
                encoded(CoderState::initial(), before, before_cdfs),
                bits,
                even_cdfs(bits.len()),
            ),
            after,
            after_cdfs,
        ),
    ensures
        ({
            let st = encoded(
                encoded(
                    encoded(CoderState::initial(), before, before_cdfs),
                    bits,
                    even_cdfs(bits.len()),
                ),
                after,
                after_cdfs,
            );
            let bytes = st.finished();
            let cdfs = before_cdfs + even_cdfs(bits.len()) + after_cdfs;
            decoded(bytes, DecoderState::start(bytes), cdfs) == before + bits + after
        }),
{
    let first = CoderState::initial();
    let mid = encoded(first, before, before_cdfs);
    let evens = even_cdfs(bits.len());
    lemma_initial_wf();
    lemma_encoded_wf(first, before, before_cdfs);
    lemma_bits_encodable(mid, bits);
    lemma_encodable_concat(first, before, before_cdfs, bits, evens);
    lemma_encoded_concat(first, before, before_cdfs, bits, evens);
    lemma_encodable_concat(first, before + bits, before_cdfs + evens, after, after_cdfs);
    lemma_encoded_concat(first, before + bits, before_cdfs + evens, after, after_cdfs);
    lemma_round_trip(before + bits + after, before_cdfs + evens + after_cdfs);
}

/// The literal round trip: where a writer wrote `before`, then `nbits` bits
/// of `value`, then `after`, a decoder that reads `nbits` bits with the
/// even distribution between `before` and `after` reads bits that spell
/// `value`.
pub proof fn lemma_literal_round_trip(
    before: Seq<int>,
    before_cdfs: Seq<Seq<u16>>,
    value: nat,
    nbits: nat,
    after: Seq<int>,
    after_cdfs: Seq<Seq<u16>>,
)
    requires
        value < pow2(nbits),
        encodable(CoderState::initial(), before, before_cdfs),
        encodable(
            encoded(CoderState::initial(), before, before_cdfs).put_literal(value, nbits),
            after,
            after_cdfs,
        ),
    ensures
        ({
            let st = encoded(
                encoded(CoderState::initial(), before, before_cdfs).put_literal(value, nbits),
                after,
                after_cdfs,
            );
            let bytes = st.finished();
            let cdfs = before_cdfs + even_cdfs(nbits) + after_cdfs;
            let read = decoded(bytes, DecoderState::start(bytes), cdfs);
            &&& read == before + literal_bits(value, nbits) + after
            &&& bits_value(read.subrange(before.len() as int, (before.len() + nbits) as int))
                == value
        }),
{
    let mid = encoded(CoderState::initial(), before, before_cdfs);
    let bits = literal_bits(value, nbits);
    lemma_put_literal_encoded(mid, value, nbits);
    lemma_bits_round_trip(before, before_cdfs, bits, after, after_cdfs);
    lemma_bits_value_of_literal(value, nbits);
    lemma_small_mod(value, pow2(nbits));
    assert((before + bits + after).subrange(
        before.len() as int,
        (before.len() + nbits) as int,
    ) =~= bits);
}

/// Where a one follows a run of zeros, the zeros that the bits begin with
/// are that run.
proof fn lemma_leading_zeros_of_run(zeros: Seq<int>, rest: Seq<int>)
    requires
        forall|i: int| 0 <= i < zeros.len() ==> zeros[i] == 0,
        rest.len() > 0,
        rest[0] == 1,
    ensures
        leading_zeros(zeros + rest) == zeros.len(),
    decreases zeros.len(),
{
    if zeros.len() > 0 {
        assert((zeros + rest).drop_first() == zeros.drop_first() + rest);
        lemma_leading_zeros_of_run(zeros.drop_first(), rest);
    }
}

/// The bits of an Exp-Golomb code tell their value: `n` zeros, a one, and
/// the `n` bits that with the one before them spell `value + 1`.
pub proof fn lemma_golomb_value(value: nat)
    ensures
        leading_zeros(golomb_bits(value)) == log2_floor(value + 1),
        golomb_value(golomb_bits(value)) == value,
{
    let v = value + 1;
    let n = log2_floor(v);
    let zeros = literal_bits(0, n);
    let tail = literal_bits(v, n + 1);
    lemma_log2_floor_bounds(v);
    lemma_pow2_pos(n);
    assert forall|i: int| 0 <= i < zeros.len() implies zeros[i] == 0 by {
        let k = (n - 1 - i) as nat;
        lemma_pow2_pos(k);
        lemma_div_basics_1(pow2(k) as int);
    }
    // The first bit of the tail is the leading one of `v`.
    lemma_pow2_unfold(n + 1);
    assert(v / pow2(n) == 1) by (nonlinear_arith)
        requires
            pow2(n) <= v < 2 * pow2(n),
    ;
    lemma_leading_zeros_of_run(zeros, tail);
    assert(golomb_bits(value).subrange(n as int, (2 * n + 1) as int) =~= tail);
    lemma_bits_value_of_literal(v, n + 1);
    lemma_small_mod(v, pow2(n + 1));
}

/// The Exp-Golomb round trip: where a writer wrote `before`, then the code
/// of `value`, then `after`, a decoder reads between `before` and `after`
/// the bits of the code, which tell `value`.
pub proof fn lemma_golomb_round_trip(
    before: Seq<int>,
    before_cdfs: Seq<Seq<u16>>,
    value: nat,
    after: Seq<int>,
    after_cdfs: Seq<Seq<u16>>,
)
    requires
        encodable(CoderState::initial(), before, before_cdfs),
        encodable(
            encoded(CoderState::initial(), before, before_cdfs).put_golomb(value),
            after,
            after_cdfs,
        ),
    ensures
        ({
            let st = encoded(
                encoded(CoderState::initial(), before, before_cdfs).put_golomb(value),
                after,
                after_cdfs,
            );
            let bytes = st.finished();
            let n = 2 * log2_floor(value + 1) + 1;
            let cdfs = before_cdfs + even_cdfs(n) + after_cdfs;
            let read = decoded(bytes, DecoderState::start(bytes), cdfs);
            &&& read == before + golomb_bits(value) + after
            &&& golomb_value(read.subrange(before.len() as int, (before.len() + n) as int)) == value
        }),
{
    let mid = encoded(CoderState::initial(), before, before_cdfs);
    let bits = golomb_bits(value);
    lemma_put_golomb_encoded(mid, value);
    assert forall|i: int| 0 <= i < bits.len() implies 0 <= #[trigger] bits[i] <= 1 by {}
    lemma_bits_round_trip(before, before_cdfs, bits, after, after_cdfs);
    lemma_golomb_value(value);
    assert((before + bits + after).subrange(
        before.len() as int,
        (before.len() + bits.len()) as int,
    ) =~= bits);
}

} // verus!
