//! Byte strings read as big-endian numbers.
//!
//! The entropy writer treats its output buffer as one long big-endian
//! number: appending bytes shifts that number left, and a carry adds one
//! to it. The functions here give that reading and its inverse, and the
//! facts that connect the two.

use vstd::arithmetic::div_mod::{
    lemma_fundamental_div_mod_converse, lemma_mod_breakdown, lemma_small_mod,
};
use vstd::arithmetic::power2::{lemma2_to64, lemma_pow2_adds, lemma_pow2_pos, pow2};
use vstd::prelude::*;

verus! {

/// The number that `s` spells when read most significant byte first.
pub open spec fn be_value(s: Seq<u8>) -> nat
    decreases s.len(),
{
    if s.len() == 0 {
        0
    } else {
        be_value(s.drop_last()) * 256 + s.last() as nat
    }
}

/// The low `8 * n` bits of `v`, spelled as `n` bytes, most significant first.
pub open spec fn be_bytes(v: nat, n: nat) -> Seq<u8>
    decreases n,
{
    if n == 0 {
        Seq::empty()
    } else {
        be_bytes(v / 256, (n - 1) as nat).push((v % 256) as u8)
    }
}

/// `256 * 2^(8k) == 2^(8(k+1))`.
pub proof fn lemma_pow2_byte(k: nat)
    ensures
        pow2(8 * (k + 1)) == 256 * pow2(8 * k),
        pow2(8 * k) > 0,
{
    lemma2_to64();
    lemma_pow2_adds(8, 8 * k);
    lemma_pow2_pos(8 * k);
}

/// `be_bytes(v, n)` has `n` bytes.
pub proof fn lemma_be_bytes_len(v: nat, n: nat)
    ensures
        be_bytes(v, n).len() == n,
    decreases n,
{
    if n > 0 {
        lemma_be_bytes_len(v / 256, (n - 1) as nat);
    }
}

/// A string of `n` bytes spells a number below `2^(8n)`.
pub proof fn lemma_be_value_bound(s: Seq<u8>)
    ensures
        be_value(s) < pow2(8 * s.len()),
    decreases s.len(),
{
    if s.len() == 0 {
        lemma2_to64();
    } else {
        lemma_be_value_bound(s.drop_last());
        lemma_pow2_byte(s.drop_last().len());
    }
}

/// Reading back the bytes of `v` gives `v` reduced to `8 * n` bits.
pub proof fn lemma_be_value_of_bytes(v: nat, n: nat)
    ensures
        be_value(be_bytes(v, n)) == v % pow2(8 * n),
    decreases n,
{
    if n == 0 {
        lemma2_to64();
    } else {
        let m = (n - 1) as nat;
        let head = be_bytes(v / 256, m);
        lemma_be_value_of_bytes(v / 256, m);
        assert(be_bytes(v, n).drop_last() == head);
        lemma_pow2_byte(m);
        lemma_mod_breakdown(v as int, 256, pow2(8 * m) as int);
    }
}

/// Spelling the value of `s` in as many bytes as `s` has gives `s` back.
pub proof fn lemma_be_bytes_of_value(s: Seq<u8>)
    ensures
        be_bytes(be_value(s), s.len()) == s,
    decreases s.len(),
{
    if s.len() > 0 {
        let head = s.drop_last();
        lemma_be_bytes_of_value(head);
        lemma_fundamental_div_mod_converse(
            be_value(s) as int,
            256,
            be_value(head) as int,
            s.last() as int,
        );
        assert(be_bytes(be_value(s), s.len()) == be_bytes(be_value(head), head.len()).push(
            s.last(),
        ));
    }
}

/// The value of a concatenation: the front part, shifted past the back part.
pub proof fn lemma_be_value_concat(a: Seq<u8>, b: Seq<u8>)
    ensures
        be_value(a + b) == be_value(a) * pow2(8 * b.len()) + be_value(b),
    decreases b.len(),
{
    if b.len() == 0 {
        lemma2_to64();
        assert(be_value(a) * pow2(8 * b.len()) == be_value(a)) by (nonlinear_arith)
            requires
                pow2(8 * b.len()) == 1,
        ;
    } else {
        let head = b.drop_last();
        lemma_be_value_concat(a, head);
        assert((a + b).drop_last() == a + head);
        lemma_pow2_byte(head.len());
        let p = pow2(8 * head.len()) as int;
        let x = be_value(a) as int;
        let y = be_value(head) as int;
        assert((x * p + y) * 256 == x * (256 * p) + y * 256) by (nonlinear_arith);
    }
}

/// A number that fits in `n` bytes is the value of its `n`-byte spelling.
pub proof fn lemma_be_value_of_bytes_small(v: nat, n: nat)
    requires
        v < pow2(8 * n),
    ensures
        be_value(be_bytes(v, n)) == v,
{
    lemma_be_value_of_bytes(v, n);
    lemma_small_mod(v, pow2(8 * n));
}

/// A string of `0xFF` bytes spells the largest number of its length.
pub proof fn lemma_be_value_all_ones(s: Seq<u8>)
    requires
        forall|j: int| 0 <= j < s.len() ==> s[j] == 255,
    ensures
        be_value(s) + 1 == pow2(8 * s.len()),
    decreases s.len(),
{
    if s.len() == 0 {
        lemma2_to64();
    } else {
        lemma_be_value_all_ones(s.drop_last());
        lemma_pow2_byte(s.drop_last().len());
    }
}

/// A string of zero bytes spells zero.
pub proof fn lemma_be_value_all_zeros(s: Seq<u8>)
    requires
        forall|j: int| 0 <= j < s.len() ==> s[j] == 0,
    ensures
        be_value(s) == 0,
    decreases s.len(),
{
    if s.len() > 0 {
        lemma_be_value_all_zeros(s.drop_last());
    }
}

/// Adding one to a big-endian number: the trailing `0xFF` bytes turn to
/// zero and the byte before them goes up by one.
pub proof fn lemma_be_value_carry(before: Seq<u8>, after: Seq<u8>, i: int)
    requires
        before.len() == after.len(),
        0 <= i < before.len(),
        before[i] < 255,
        after[i] == before[i] + 1,
        forall|j: int| 0 <= j < i ==> after[j] == before[j],
        forall|j: int| i < j < before.len() ==> before[j] == 255 && after[j] == 0,
    ensures
        be_value(after) == be_value(before) + 1,
{
    let n = before.len() as int;
    let head_b = before.subrange(0, i + 1);
    let head_a = after.subrange(0, i + 1);
    let tail_b = before.subrange(i + 1, n);
    let tail_a = after.subrange(i + 1, n);
    assert(before == head_b + tail_b);
    assert(after == head_a + tail_a);
    lemma_be_value_concat(head_b, tail_b);
    lemma_be_value_concat(head_a, tail_a);
    lemma_be_value_all_ones(tail_b);
    lemma_be_value_all_zeros(tail_a);
    assert(head_a.drop_last() == head_b.drop_last());
    let p = pow2(8 * tail_b.len()) as int;
    let x = be_value(head_b) as int;
    assert((x + 1) * p == x * p + p) by (nonlinear_arith);
}

/// Appending `k` bytes that spell `v` shifts the number spelled so far left
/// by `k` bytes and adds `v`.
pub proof fn lemma_be_bytes_append(front: Seq<u8>, v: nat, k: nat)
    requires
        v < pow2(8 * k),
    ensures
        front + be_bytes(v, k) == be_bytes(be_value(front) * pow2(8 * k) + v, front.len() + k),
{
    let back = be_bytes(v, k);
    lemma_be_bytes_len(v, k);
    lemma_be_value_of_bytes_small(v, k);
    lemma_be_value_concat(front, back);
    lemma_be_bytes_of_value(front + back);
}

} // verus!
