use vstd::prelude::*;

verus! {

/// An additive, totally ordered measure of length along an edge.
///
/// Each implementing type is described by `measure`, the integer it stands for,
/// and by `least` and `bound`, the smallest and largest measures it can hold.
/// The type itself does not rule out negative values; the shortest-path search
/// asks for non-negative edge weights.
pub trait GraphDistance: Copy + Sized {
    spec fn measure(self) -> int;

    spec fn least() -> int;

    spec fn bound() -> int;

    proof fn lemma_range(self)
        ensures
            Self::least() <= self.measure() <= Self::bound(),
            Self::least() <= 0 <= Self::bound(),
    ;

    /// The identity of addition.
    fn zero() -> (r: Self)
        ensures
            r.measure() == 0,
    ;

    fn less_than(self, other: Self) -> (r: bool)
        ensures
            r == (self.measure() < other.measure()),
    ;

    fn plus(self, other: Self) -> (r: Self)
        requires
            Self::least() <= self.measure() + other.measure() <= Self::bound(),
        ensures
            r.measure() == self.measure() + other.measure(),
    ;

    /// Whether `times` copies of this distance, added up, still fit below the
    /// largest measure of the type.
    fn fits_times(self, times: usize) -> (r: bool)
        ensures
            r == (times * self.measure() <= Self::bound()),
    ;
}

proof fn lemma_wide_product(a: int, b: int)
    requires
        0 <= a <= u64::MAX,
        0 <= b <= u64::MAX,
    ensures
        0 <= a * b <= u128::MAX,
        a * b == b * a,
{
    assert(0 <= a * b <= u64::MAX * u64::MAX) by (nonlinear_arith)
        requires
            0 <= a <= u64::MAX,
            0 <= b <= u64::MAX,
    ;
    assert(a * b == b * a) by (nonlinear_arith);
}

proof fn lemma_signed_product(a: int, b: int)
    requires
        i64::MIN <= a <= i64::MAX,
        0 <= b <= u64::MAX,
    ensures
        i128::MIN <= a * b <= i128::MAX,
        a * b == b * a,
{
    assert(-(u64::MAX * 0x8000_0000_0000_0000) <= a * b <= u64::MAX * i64::MAX) by (nonlinear_arith)
        requires
            i64::MIN <= a <= i64::MAX,
            0 <= b <= u64::MAX,
    ;
    assert(a * b == b * a) by (nonlinear_arith);
}

impl GraphDistance for u8 {
    open spec fn measure(self) -> int {
        self as int
    }

    open spec fn least() -> int {
        0
    }

    open spec fn bound() -> int {
        u8::MAX as int
    }

    proof fn lemma_range(self) {
    }

    fn zero() -> (r: Self) {
        0
    }

    fn less_than(self, other: Self) -> (r: bool) {
        self < other
    }

    fn plus(self, other: Self) -> (r: Self) {
        self + other
    }

    fn fits_times(self, times: usize) -> (r: bool) {
        proof {
            lemma_wide_product(self as int, times as int);
        }
        (self as u128) * (times as u128) <= u8::MAX as u128
    }
}

impl GraphDistance for u16 {
    open spec fn measure(self) -> int {
        self as int
    }

    open spec fn least() -> int {
        0
    }

    open spec fn bound() -> int {
        u16::MAX as int
    }

    proof fn lemma_range(self) {
    }

    fn zero() -> (r: Self) {
        0
    }

    fn less_than(self, other: Self) -> (r: bool) {
        self < other
    }

    fn plus(self, other: Self) -> (r: Self) {
        self + other
    }

    fn fits_times(self, times: usize) -> (r: bool) {
        proof {
            lemma_wide_product(self as int, times as int);
        }
        (self as u128) * (times as u128) <= u16::MAX as u128
    }
}

impl GraphDistance for u32 {
    open spec fn measure(self) -> int {
        self as int
    }

    open spec fn least() -> int {
        0
    }

    open spec fn bound() -> int {
        u32::MAX as int
    }

    proof fn lemma_range(self) {
    }

    fn zero() -> (r: Self) {
        0
    }

    fn less_than(self, other: Self) -> (r: bool) {
        self < other
    }

    fn plus(self, other: Self) -> (r: Self) {
        self + other
    }

    fn fits_times(self, times: usize) -> (r: bool) {
        proof {
            lemma_wide_product(self as int, times as int);
        }
        (self as u128) * (times as u128) <= u32::MAX as u128
    }
}

impl GraphDistance for u64 {
    open spec fn measure(self) -> int {
        self as int
    }

    open spec fn least() -> int {
        0
    }

    open spec fn bound() -> int {
        u64::MAX as int
    }

    proof fn lemma_range(self) {
    }

    fn zero() -> (r: Self) {
        0
    }

    fn less_than(self, other: Self) -> (r: bool) {
        self < other
    }

    fn plus(self, other: Self) -> (r: Self) {
        self + other
    }

    fn fits_times(self, times: usize) -> (r: bool) {
        proof {
            lemma_wide_product(self as int, times as int);
        }
        (self as u128) * (times as u128) <= u64::MAX as u128
    }
}

impl GraphDistance for usize {
    open spec fn measure(self) -> int {
        self as int
    }

    open spec fn least() -> int {
        0
    }

    open spec fn bound() -> int {
        usize::MAX as int
    }

    proof fn lemma_range(self) {
    }

    fn zero() -> (r: Self) {
        0
    }

    fn less_than(self, other: Self) -> (r: bool) {
        self < other
    }

    fn plus(self, other: Self) -> (r: Self) {
        self + other
    }

    fn fits_times(self, times: usize) -> (r: bool) {
        proof {
            lemma_wide_product(self as int, times as int);
        }
        (self as u128) * (times as u128) <= usize::MAX as u128
    }
}

impl GraphDistance for i8 {
    open spec fn measure(self) -> int {
        self as int
    }

    open spec fn least() -> int {
        i8::MIN as int
    }

    open spec fn bound() -> int {
        i8::MAX as int
    }

    proof fn lemma_range(self) {
    }

    fn zero() -> (r: Self) {
        0
    }

    fn less_than(self, other: Self) -> (r: bool) {
        self < other
    }

    fn plus(self, other: Self) -> (r: Self) {
        self + other
    }

    fn fits_times(self, times: usize) -> (r: bool) {
        proof {
            lemma_signed_product(self as int, times as int);
        }
        (self as i128) * (times as i128) <= i8::MAX as i128
    }
}

impl GraphDistance for i16 {
    open spec fn measure(self) -> int {
        self as int
    }

    open spec fn least() -> int {
        i16::MIN as int
    }

    open spec fn bound() -> int {
        i16::MAX as int
    }

    proof fn lemma_range(self) {
    }

    fn zero() -> (r: Self) {
        0
    }

    fn less_than(self, other: Self) -> (r: bool) {
        self < other
    }

    fn plus(self, other: Self) -> (r: Self) {
        self + other
    }

    fn fits_times(self, times: usize) -> (r: bool) {
        proof {
            lemma_signed_product(self as int, times as int);
        }
        (self as i128) * (times as i128) <= i16::MAX as i128
    }
}

impl GraphDistance for i32 {
    open spec fn measure(self) -> int {
        self as int
    }

    open spec fn least() -> int {
        i32::MIN as int
    }

    open spec fn bound() -> int {
        i32::MAX as int
    }

    proof fn lemma_range(self) {
    }

    fn zero() -> (r: Self) {
        0
    }

    fn less_than(self, other: Self) -> (r: bool) {
        self < other
    }

    fn plus(self, other: Self) -> (r: Self) {
        self + other
    }

    fn fits_times(self, times: usize) -> (r: bool) {
        proof {
            lemma_signed_product(self as int, times as int);
        }
        (self as i128) * (times as i128) <= i32::MAX as i128
    }
}

impl GraphDistance for i64 {
    open spec fn measure(self) -> int {
        self as int
    }

    open spec fn least() -> int {
        i64::MIN as int
    }

    open spec fn bound() -> int {
        i64::MAX as int
    }

    proof fn lemma_range(self) {
    }

    fn zero() -> (r: Self) {
        0
    }

    fn less_than(self, other: Self) -> (r: bool) {
        self < other
    }

    fn plus(self, other: Self) -> (r: Self) {
        self + other
    }

    fn fits_times(self, times: usize) -> (r: bool) {
        proof {
            lemma_signed_product(self as int, times as int);
        }
        (self as i128) * (times as i128) <= i64::MAX as i128
    }
}

impl GraphDistance for isize {
    open spec fn measure(self) -> int {
        self as int
    }

    open spec fn least() -> int {
        isize::MIN as int
    }

    open spec fn bound() -> int {
        isize::MAX as int
    }

    proof fn lemma_range(self) {
    }

    fn zero() -> (r: Self) {
        0
    }

    fn less_than(self, other: Self) -> (r: bool) {
        self < other
    }

    fn plus(self, other: Self) -> (r: Self) {
        self + other
    }

    fn fits_times(self, times: usize) -> (r: bool) {
        proof {
            lemma_signed_product(self as int, times as int);
        }
        (self as i128) * (times as i128) <= isize::MAX as i128
    }
}

} // verus!
