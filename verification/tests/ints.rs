use tinyavif::util::{
    abs, ceil_log2, floor_log2, max, min, signum, unsigned_abs, SignedInt, UnsignedInt,
};

#[test]
fn min_and_max_of_integers() {
    assert_eq!(min(3, 5), 3);
    assert_eq!(min(5, 3), 3);
    assert_eq!(max(3, 5), 5);
    assert_eq!(max(5, 3), 5);
    assert_eq!(min(-7i64, 7), -7);
    assert_eq!(max(-7i64, 7), 7);
    assert_eq!(min(4u8, 4), 4);
    assert_eq!(max(4u8, 4), 4);
}

#[test]
fn min_and_max_of_other_ordered_values() {
    assert_eq!(min("pear", "apple"), "apple");
    assert_eq!(max("pear", "apple"), "pear");
    assert_eq!(min((1, 9), (2, 0)), (1, 9));
    assert_eq!(max((1, 9), (2, 0)), (2, 0));
}

#[test]
fn min_and_max_of_equal_values_keep_their_order() {
    // Ordered by the first field only, so that equal values can be told apart.
    #[derive(Debug, Clone, Copy)]
    struct Tagged(u32, char);
    impl PartialEq for Tagged {
        fn eq(&self, other: &Self) -> bool {
            self.0 == other.0
        }
    }
    impl Eq for Tagged {}
    impl PartialOrd for Tagged {
        fn partial_cmp(&self, other: &Self) -> Option<std::cmp::Ordering> {
            Some(self.cmp(other))
        }
    }
    impl Ord for Tagged {
        fn cmp(&self, other: &Self) -> std::cmp::Ordering {
            self.0.cmp(&other.0)
        }
    }
    assert_eq!(min(Tagged(1, 'a'), Tagged(1, 'b')).1, 'a');
    assert_eq!(max(Tagged(1, 'a'), Tagged(1, 'b')).1, 'b');
}

#[test]
fn abs_of_each_width() {
    assert_eq!(abs(-5i8), 5);
    assert_eq!(abs(5i8), 5);
    assert_eq!(abs(-127i8), 127);
    assert_eq!(abs(-300i16), 300);
    assert_eq!(abs(-70000i32), 70000);
    assert_eq!(abs(i64::MIN + 1), i64::MAX);
    assert_eq!(abs(-9isize), 9);
    assert_eq!(abs(0i32), 0);
    assert_eq!((-5i32).abs_(), 5);
}

#[test]
fn unsigned_abs_of_each_width() {
    assert_eq!(unsigned_abs(-5i8), 5u8);
    assert_eq!(unsigned_abs(i8::MIN), 128u8);
    assert_eq!(unsigned_abs(i16::MIN), 32768u16);
    assert_eq!(unsigned_abs(i32::MIN), 2147483648u32);
    assert_eq!(unsigned_abs(i64::MIN), 9223372036854775808u64);
    assert_eq!(unsigned_abs(isize::MIN), isize::MIN.unsigned_abs());
    assert_eq!(unsigned_abs(i64::MAX), i64::MAX as u64);
    assert_eq!(unsigned_abs(0i16), 0u16);
    assert_eq!(unsigned_abs(-1i64), 1u64);
    assert_eq!((-6i16).unsigned_abs_(), 6u16);
}

#[test]
fn signum_of_each_width() {
    assert_eq!(signum(-5i8), -1);
    assert_eq!(signum(0i8), 0);
    assert_eq!(signum(5i8), 1);
    assert_eq!(signum(i16::MIN), -1);
    assert_eq!(signum(i32::MAX), 1);
    assert_eq!(signum(i64::MIN), -1);
    assert_eq!(signum(0isize), 0);
    assert_eq!(signum(17isize), 1);
    assert_eq!(7i64.signum_(), 1);
}

#[test]
fn helpers_agree_with_the_integer_methods() {
    for v in i8::MIN..=i8::MAX {
        assert_eq!(unsigned_abs(v), v.unsigned_abs());
        assert_eq!(signum(v), v.signum());
        if v != i8::MIN {
            assert_eq!(abs(v), v.abs());
        }
    }
}

#[test]
fn floor_log2_of_each_width() {
    assert_eq!(floor_log2(1u8), 0);
    assert_eq!(floor_log2(255u8), 7);
    assert_eq!(floor_log2(256u16), 8);
    assert_eq!(floor_log2(65535u16), 15);
    assert_eq!(floor_log2(0x8000u32), 15);
    assert_eq!(floor_log2(0xFFFFu32), 15);
    assert_eq!(floor_log2(u32::MAX), 31);
    assert_eq!(floor_log2(u64::MAX), 63);
    assert_eq!(floor_log2(1u64 << 40), 40);
    assert_eq!(floor_log2(usize::MAX), usize::BITS - 1);
    assert_eq!(floor_log2(3usize), 1);
    assert_eq!(5u32.floor_log2(), 2);
}

#[test]
fn ceil_log2_of_each_width() {
    assert_eq!(ceil_log2(1u8), 0);
    assert_eq!(ceil_log2(2u8), 1);
    assert_eq!(ceil_log2(3u8), 2);
    assert_eq!(ceil_log2(255u8), 8);
    assert_eq!(ceil_log2(256u16), 8);
    assert_eq!(ceil_log2(257u16), 9);
    assert_eq!(ceil_log2(u32::MAX), 32);
    assert_eq!(ceil_log2(1u32 << 31), 31);
    assert_eq!(ceil_log2(u64::MAX), 64);
    assert_eq!(ceil_log2((1u64 << 63) + 1), 64);
    assert_eq!(ceil_log2(1usize), 0);
    assert_eq!(ceil_log2(1000usize), 10);
    assert_eq!(5u32.ceil_log2(), 3);
}

#[test]
fn logarithms_bracket_their_argument() {
    for v in 1u16..=u16::MAX {
        let f = floor_log2(v);
        let c = ceil_log2(v);
        assert_eq!(f, v.ilog2());
        assert!(1u32 << f <= v as u32 && (v as u32) < 1u32 << (f + 1));
        assert!(v as u32 <= 1u32 << c);
        assert!(c == 0 || 1u32 << (c - 1) < v as u32);
    }
}
