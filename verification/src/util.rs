//! Byte-level output helpers and small integer helpers.

use crate::bigendian::be_bytes;
use byteorder::WriteBytesExt;
use core::cmp::Ordering;
use vstd::arithmetic::div_mod::lemma_div_denominator;
use vstd::arithmetic::power2::{
    lemma2_to64, lemma2_to64_rest, lemma_pow2_adds, lemma_pow2_pos, lemma_pow2_strictly_increases,
    lemma_pow2_unfold, pow2,
};
use vstd::bits::lemma_u64_shr_is_div;
use vstd::prelude::*;
use vstd::std_specs::cmp::OrdSpec;

verus! {

/// Appends `byte` to `sink` by a call of byteorder's `WriteBytesExt::write_u8`.
///
/// That method hands the one byte to `Write::write_all`, and a `Vec<u8>` as
/// a writer appends all it is given and never reports an error. The
/// contract states that: afterwards the buffer is the old one with `byte`
/// at its end.
#[verifier::external_body]
fn put_u8(sink: &mut Vec<u8>, byte: u8)
    ensures
        final(sink)@ == old(sink)@.push(byte),
{
    sink.write_u8(byte).unwrap();
}

/// Appends the low `nbytes` bytes of `value` to `w`, most significant first.
/// There are at most 8 of them, and `value` has no bits above them.
pub fn write_be_bytes(w: &mut Vec<u8>, value: u64, nbytes: usize)
    requires
        nbytes <= 8,
        nbytes < 8 ==> (value as nat) < pow2(8 * nbytes as nat),
    ensures
        final(w)@ == old(w)@ + be_bytes(value as nat, nbytes as nat),
{
    let mut i: usize = nbytes;
    proof {
        lemma2_to64();
    }
    while i > 0
        invariant
            i <= nbytes <= 8,
            w@ == old(w)@ + be_bytes(value as nat / pow2(8 * i as nat), (nbytes - i) as nat),
        decreases i,
    {
        i = i - 1;
        let shift: u64 = 8 * (i as u64);
        let byte: u64 = (value >> shift) & 0xFF;
        proof {
            let v = value as nat;
            let hi = v / pow2(8 * (i + 1) as nat);
            let cur = v / pow2(8 * i as nat);
            lemma_u64_shr_is_div(value, shift);
            let shifted: u64 = value >> shift;
            assert(shifted & 0xFF == shifted % 256) by (bit_vector);
            lemma_pow2_adds(8 * i as nat, 8);
            lemma2_to64();
            lemma_pow2_pos(8 * i as nat);
            lemma_div_denominator(v as int, pow2(8 * i as nat) as int, 256);
            assert(be_bytes(cur, (nbytes - i) as nat) == be_bytes(hi, (nbytes - i - 1) as nat).push(
                (cur % 256) as u8,
            ));
        }
        put_u8(w, byte as u8);
    }
    proof {
        lemma2_to64();
        let unit = pow2(8 * i as nat);
        assert(value as nat / unit == value as nat) by (nonlinear_arith)
            requires
                unit == 1,
        ;
    }
}

/// The LEB128 spelling of `v`: seven bits to a byte, least significant group
/// first, with the top bit of a byte set where another byte follows.
pub open spec fn leb128(v: nat) -> Seq<u8>
    decreases v,
{
    if v < 128 {
        seq![v as u8]
    } else {
        seq![(128 + v % 128) as u8] + leb128(v / 128)
    }
}

/// Appends `value` to `w` in LEB128 form.
pub fn write_leb128(w: &mut Vec<u8>, value: usize)
    ensures
        final(w)@ == old(w)@ + leb128(value as nat),
{
    if value == 0 {
        put_u8(w, 0);
        return ;
    }
    let mut value: usize = value;
    let ghost whole: nat = value as nat;
    while value != 0
        invariant
            value > 0 ==> old(w)@ + leb128(whole) == w@ + leb128(value as nat),
            value == 0 ==> old(w)@ + leb128(whole) == w@,
        decreases value,
    {
        let rest: usize = value >> 7;
        let more_flag: u8 = if rest > 0 {
            0x80
        } else {
            0x00
        };
        let group: u8 = (value & 0x7F) as u8;
        let byte: u8 = more_flag | group;
        proof {
            assert(value >> 7 == value / 128) by (bit_vector);
            assert(value & 0x7F == value % 128) by (bit_vector);
            assert(group < 128 ==> (0x80u8 | group == 128 + group && 0x00u8 | group == group))
                by (bit_vector);
            let v = value as nat;
            if v < 128 {
            } else {
            }
        }
        put_u8(w, byte);
        value = rest;
    }
}

/// The smaller of `a` and `b`; `a` where neither is smaller.
pub fn min<T: Ord>(a: T, b: T) -> (r: T)
    ensures
        T::obeys_cmp_spec() ==> r == (if b.cmp_spec(&a) == Ordering::Less {
            b
        } else {
            a
        }),
{
    a.min(b)
}

/// The larger of `a` and `b`; `b` where neither is larger.
pub fn max<T: Ord>(a: T, b: T) -> (r: T)
    ensures
        T::obeys_cmp_spec() ==> r == (if b.cmp_spec(&a) == Ordering::Less {
            a
        } else {
            b
        }),
{
    a.max(b)
}

/// The sign of `x`: -1, 0 or 1.
pub open spec fn sign(x: int) -> int {
    if x > 0 {
        1
    } else if x < 0 {
        -1
    } else {
        0
    }
}

/// The magnitude of `x`.
pub open spec fn magnitude(x: int) -> nat {
    if x < 0 {
        (-x) as nat
    } else {
        x as nat
    }
}

/// The base-2 logarithm of `x`, rounded down; 0 for `x == 0`.
pub open spec fn log2_floor(x: nat) -> nat
    decreases x,
{
    if x <= 1 {
        0
    } else {
        1 + log2_floor(x / 2)
    }
}

/// The base-2 logarithm of `x`, rounded up; 0 for `x == 0`.
pub open spec fn log2_ceil(x: nat) -> nat {
    if x <= 1 {
        0
    } else {
        log2_floor((x - 1) as nat) + 1
    }
}

/// `log2_floor(x)` is the exponent of the largest power of two that is at
/// most `x`.
pub proof fn lemma_log2_floor_bounds(x: nat)
    requires
        x > 0,
    ensures
        pow2(log2_floor(x)) <= x < pow2(log2_floor(x) + 1),
    decreases x,
{
    lemma2_to64();
    if x > 1 {
        lemma_log2_floor_bounds(x / 2);
        let r = log2_floor(x / 2);
        lemma_pow2_unfold(r + 1);
        lemma_pow2_unfold(r + 2);
    }
}

/// `log2_ceil(x)` is the exponent of the smallest power of two that is at
/// least `x`.
pub proof fn lemma_log2_ceil_bounds(x: nat)
    requires
        x > 0,
    ensures
        x <= pow2(log2_ceil(x)),
        log2_ceil(x) > 0 ==> pow2((log2_ceil(x) - 1) as nat) < x,
{
    lemma2_to64();
    if x > 1 {
        lemma_log2_floor_bounds((x - 1) as nat);
    }
}

/// The base-2 logarithm of `x`, rounded down: the number of times that `x`
/// can be halved before it is 1.
fn floor_log2_u64(x: u64) -> (r: u32)
    requires
        x > 0,
    ensures
        r == log2_floor(x as nat),
        r < 64,
{
    let mut r: u32 = 0;
    let mut v: u64 = x;
    proof {
        lemma_log2_floor_bounds(x as nat);
        lemma2_to64();
        lemma2_to64_rest();
        if log2_floor(x as nat) > 64 {
            lemma_pow2_strictly_increases(64, log2_floor(x as nat));
        }
    }
    while v > 1
        invariant
            v >= 1,
            r + log2_floor(v as nat) == log2_floor(x as nat),
            log2_floor(x as nat) < 64,
        decreases v,
    {
        v = v / 2;
        r = r + 1;
    }
    r
}

/// Signed machine integers, with the three operations below in the form of
/// methods of one trait.
pub trait SignedInt: Sized {
    /// The unsigned type of the same width.
    type Unsigned: UnsignedInt;

    /// The number that `self` holds.
    spec fn as_int(self) -> int;

    /// The least number that the type holds.
    spec fn lowest() -> int;

    /// The magnitude of `self`, in the same type.
    fn abs_(self) -> (r: Self)
        requires
            self.as_int() != Self::lowest(),
        ensures
            r.as_int() == magnitude(self.as_int()),
    ;

    /// The magnitude of `self`, in the unsigned type.
    fn unsigned_abs_(self) -> (r: Self::Unsigned)
        ensures
            r.as_nat() == magnitude(self.as_int()),
    ;

    /// The sign of `self`.
    fn signum_(self) -> (r: Self)
        ensures
            r.as_int() == sign(self.as_int()),
    ;
}

/// Unsigned machine integers, with the two logarithms below.
pub trait UnsignedInt: Sized {
    /// The number that `self` holds.
    spec fn as_nat(self) -> nat;

    /// The base-2 logarithm of `self`, rounded down.
    fn floor_log2(self) -> (r: u32)
        requires
            self.as_nat() > 0,
        ensures
            r == log2_floor(self.as_nat()),
    ;

    /// The base-2 logarithm of `self`, rounded up.
    fn ceil_log2(self) -> (r: u32)
        requires
            self.as_nat() > 0,
        ensures
            r == log2_ceil(self.as_nat()),
    ;
}

impl SignedInt for i8 {
    type Unsigned = u8;

    open spec fn as_int(self) -> int {
        self as int
    }

    open spec fn lowest() -> int {
        i8::MIN as int
    }

    fn abs_(self) -> Self {
        if self < 0 {
            -self
        } else {
            self
        }
    }

    fn unsigned_abs_(self) -> Self::Unsigned {
        if self < 0 {
            (-(self + 1)) as u8 + 1
        } else {
            self as u8
        }
    }

    fn signum_(self) -> Self {
        if self > 0 {
            1
        } else if self < 0 {
            -1
        } else {
            0
        }
    }
}

impl SignedInt for i16 {
    type Unsigned = u16;

    open spec fn as_int(self) -> int {
        self as int
    }

    open spec fn lowest() -> int {
        i16::MIN as int
    }

    fn abs_(self) -> Self {
        if self < 0 {
            -self
        } else {
            self
        }
    }

    fn unsigned_abs_(self) -> Self::Unsigned {
        if self < 0 {
            (-(self + 1)) as u16 + 1
        } else {
            self as u16
        }
    }

    fn signum_(self) -> Self {
        if self > 0 {
            1
        } else if self < 0 {
            -1
        } else {
            0
        }
    }
}

impl SignedInt for i32 {
    type Unsigned = u32;

    open spec fn as_int(self) -> int {
        self as int
    }

    open spec fn lowest() -> int {
        i32::MIN as int
    }

    fn abs_(self) -> Self {
        if self < 0 {
            -self
        } else {
            self
        }
    }

    fn unsigned_abs_(self) -> Self::Unsigned {
        if self < 0 {
            (-(self + 1)) as u32 + 1
        } else {
            self as u32
        }
    }

    fn signum_(self) -> Self {
        if self > 0 {
            1
        } else if self < 0 {
            -1
        } else {
            0
        }
    }
}

impl SignedInt for i64 {
    type Unsigned = u64;

    open spec fn as_int(self) -> int {
        self as int
    }

    open spec fn lowest() -> int {
        i64::MIN as int
    }

    fn abs_(self) -> Self {
        if self < 0 {
            -self
        } else {
            self
        }
    }

    fn unsigned_abs_(self) -> Self::Unsigned {
        if self < 0 {
            (-(self + 1)) as u64 + 1
        } else {
            self as u64
        }
    }

    fn signum_(self) -> Self {
        if self > 0 {
            1
        } else if self < 0 {
            -1
        } else {
            0
        }
    }
}

impl SignedInt for isize {
    type Unsigned = usize;

    open spec fn as_int(self) -> int {
        self as int
    }

    open spec fn lowest() -> int {
        isize::MIN as int
    }

    fn abs_(self) -> Self {
        if self < 0 {
            -self
        } else {
            self
        }
    }

    fn unsigned_abs_(self) -> Self::Unsigned {
        if self < 0 {
            (-(self + 1)) as usize + 1
        } else {
            self as usize
        }
    }

    fn signum_(self) -> Self {
        if self > 0 {
            1
        } else if self < 0 {
            -1
        } else {
            0
        }
    }
}

impl UnsignedInt for u8 {
    open spec fn as_nat(self) -> nat {
        self as nat
    }

    fn floor_log2(self) -> u32 {
        floor_log2_u64(self as u64)
    }

    fn ceil_log2(self) -> u32 {
        if self == 1 {
            0
        } else {
            floor_log2_u64((self - 1) as u64) + 1
        }
    }
}

impl UnsignedInt for u16 {
    open spec fn as_nat(self) -> nat {
        self as nat
    }

    fn floor_log2(self) -> u32 {
        floor_log2_u64(self as u64)
    }

    fn ceil_log2(self) -> u32 {
        if self == 1 {
            0
        } else {
            floor_log2_u64((self - 1) as u64) + 1
        }
    }
}

impl UnsignedInt for u32 {
    open spec fn as_nat(self) -> nat {
        self as nat
    }

    fn floor_log2(self) -> u32 {
        floor_log2_u64(self as u64)
    }

    fn ceil_log2(self) -> u32 {
        if self == 1 {
            0
        } else {
            floor_log2_u64((self - 1) as u64) + 1
        }
    }
}

impl UnsignedInt for u64 {
    open spec fn as_nat(self) -> nat {
        self as nat
    }

    fn floor_log2(self) -> u32 {
        floor_log2_u64(self)
    }

    fn ceil_log2(self) -> u32 {
        if self == 1 {
            0
        } else {
            floor_log2_u64(self - 1) + 1
        }
    }
}

impl UnsignedInt for usize {
    open spec fn as_nat(self) -> nat {
        self as nat
    }

    fn floor_log2(self) -> u32 {
        floor_log2_u64(self as u64)
    }

    fn ceil_log2(self) -> u32 {
        if self == 1 {
            0
        } else {
            floor_log2_u64((self - 1) as u64) + 1
        }
    }
}

/// The magnitude of `value`, in its own type.
pub fn abs<T: SignedInt>(value: T) -> (r: T)
    requires
        value.as_int() != T::lowest(),
    ensures
        r.as_int() == magnitude(value.as_int()),
{
    value.abs_()
}

/// The magnitude of `value`, in the unsigned type of its width.
pub fn unsigned_abs<T: SignedInt>(value: T) -> (r: T::Unsigned)
    ensures
        r.as_nat() == magnitude(value.as_int()),
{
    value.unsigned_abs_()
}

/// The sign of `value`: -1, 0 or 1.
pub fn signum<T: SignedInt>(value: T) -> (r: T)
    ensures
        r.as_int() == sign(value.as_int()),
{
    value.signum_()
}

/// The base-2 logarithm of `value`, rounded down.
pub fn floor_log2<T: UnsignedInt>(value: T) -> (r: u32)
    requires
        value.as_nat() > 0,
    ensures
        r == log2_floor(value.as_nat()),
{
    value.floor_log2()
}

/// The base-2 logarithm of `value`, rounded up.
pub fn ceil_log2<T: UnsignedInt>(value: T) -> (r: u32)
    requires
        value.as_nat() > 0,
    ensures
        r == log2_ceil(value.as_nat()),
{
    value.ceil_log2()
}

} // verus!
