//! The coordinate and distance types that a tree can be built on.

use vstd::prelude::*;

verus! {

/// A number that can be a coordinate of an R-tree or a distance in it.
///
/// Every value has a `rank`, its place in the order of the type; values of equal rank are equal in
/// the order. Arithmetic is described by the result it gives (`spec_plus`, `spec_minus`,
/// `spec_times`, `spec_half`) on the operands for which it gives one (`plus_ok`, `minus_ok`,
/// `times_ok`). An implementation that does not say what these are leaves them open, so that
/// nothing is known of them beyond what the methods promise.
pub trait IndexableNum: Copy {
    /// The place of the value in the order of its type.
    open spec fn rank(self) -> int {
        arbitrary::<spec_fn(Self) -> int>()(self)
    }

    /// The additive identity.
    open spec fn spec_zero() -> Self {
        arbitrary::<(Self, Self)>().0
    }

    /// The largest value of the type.
    open spec fn spec_max_value() -> Self {
        arbitrary::<(Self, Self)>().1
    }

    /// Whether `self + other` can be computed.
    open spec fn plus_ok(self, other: Self) -> bool {
        true
    }

    /// The result of `self + other`.
    open spec fn spec_plus(self, other: Self) -> Self {
        (arbitrary::<
            (spec_fn(Self, Self) -> Self, spec_fn(Self, Self) -> Self, spec_fn(Self, Self) -> Self),
        >().0)(self, other)
    }

    /// Whether `self - other` can be computed.
    open spec fn minus_ok(self, other: Self) -> bool {
        true
    }

    /// The result of `self - other`.
    open spec fn spec_minus(self, other: Self) -> Self {
        (arbitrary::<
            (spec_fn(Self, Self) -> Self, spec_fn(Self, Self) -> Self, spec_fn(Self, Self) -> Self),
        >().1)(self, other)
    }

    /// Whether `self * other` can be computed.
    open spec fn times_ok(self, other: Self) -> bool {
        true
    }

    /// The result of `self * other`.
    open spec fn spec_times(self, other: Self) -> Self {
        (arbitrary::<
            (spec_fn(Self, Self) -> Self, spec_fn(Self, Self) -> Self, spec_fn(Self, Self) -> Self),
        >().2)(self, other)
    }

    /// The result of `self / 2`.
    open spec fn spec_half(self) -> Self {
        arbitrary::<spec_fn(Self) -> Self>()(self)
    }

    /// Whether `self` comes before `other` in the order.
    fn is_less(self, other: Self) -> (less: bool)
        ensures
            less == (self.rank() < other.rank()),
    ;

    /// The additive identity.
    fn zero() -> (zero: Self)
        ensures
            zero == Self::spec_zero(),
    ;

    /// The largest value of the type.
    fn max_value() -> (max: Self)
        ensures
            max == Self::spec_max_value(),
    ;

    /// `self + other`.
    fn plus(self, other: Self) -> (sum: Self)
        requires
            self.plus_ok(other),
        ensures
            sum == self.spec_plus(other),
    ;

    /// `self - other`.
    fn minus(self, other: Self) -> (difference: Self)
        requires
            self.minus_ok(other),
        ensures
            difference == self.spec_minus(other),
    ;

    /// `self * other`.
    fn times(self, other: Self) -> (product: Self)
        requires
            self.times_ok(other),
        ensures
            product == self.spec_times(other),
    ;

    /// Whether `self * self` can be computed.
    fn can_square(self) -> (fits: bool)
        ensures
            fits == self.times_ok(self),
    ;

    /// `self / 2`.
    fn half(self) -> (half: Self)
        ensures
            half == self.spec_half(),
    ;
}

/// Whether arithmetic on `N` moves with its operands: a sum grows with both; a difference grows with
/// what is subtracted from and shrinks with what is subtracted, and is not negative where no more
/// is subtracted than there is; and squares of values that are not negative keep their order.
pub open spec fn arithmetic_is_monotone<N: IndexableNum>() -> bool {
    &&& forall|a: N, b: N, c: N, d: N|
        a.rank() <= c.rank() && b.rank() <= d.rank() && a.plus_ok(b) && c.plus_ok(d)
            ==> (#[trigger] a.spec_plus(b)).rank() <= (#[trigger] c.spec_plus(d)).rank()
    &&& forall|a: N, b: N, c: N, d: N|
        a.rank() <= c.rank() && d.rank() <= b.rank() && a.minus_ok(b) && c.minus_ok(d)
            ==> (#[trigger] a.spec_minus(b)).rank() <= (#[trigger] c.spec_minus(d)).rank()
    &&& forall|a: N, b: N|
        b.rank() <= a.rank() && a.minus_ok(b) ==> N::spec_zero().rank() <= (#[trigger] a.spec_minus(
            b,
        )).rank()
    &&& forall|a: N, b: N|
        N::spec_zero().rank() <= a.rank() <= b.rank() && a.times_ok(a) && b.times_ok(b)
            ==> (#[trigger] a.spec_times(a)).rank() <= (#[trigger] b.spec_times(b)).rank()
}

/// Whether some value of the type stands at this place in the order.
pub open spec fn fits<N: IndexableNum>(rank: int) -> bool {
    exists|value: N| #[trigger] value.rank() == rank
}

/// Whether the places of the values in the order are the numbers that they stand for, and
/// arithmetic on them is that of numbers: it can be done where the result fits, and then gives it.
pub open spec fn counts_exactly<N: IndexableNum>() -> bool {
    &&& N::spec_zero().rank() == 0
    &&& forall|value: N| #[trigger] value.rank() <= N::spec_max_value().rank()
    &&& forall|value: N, rank: int|
        0 <= rank <= #[trigger] value.rank() ==> #[trigger] fits::<N>(rank)
    &&& forall|a: N, b: N| #[trigger] a.plus_ok(b) == fits::<N>(a.rank() + b.rank())
    &&& forall|a: N, b: N|
        a.plus_ok(b) ==> (#[trigger] a.spec_plus(b)).rank() == a.rank() + b.rank()
    &&& forall|a: N, b: N| #[trigger] a.minus_ok(b) == fits::<N>(a.rank() - b.rank())
    &&& forall|a: N, b: N|
        a.minus_ok(b) ==> (#[trigger] a.spec_minus(b)).rank() == a.rank() - b.rank()
    &&& forall|a: N, b: N| #[trigger] a.times_ok(b) == fits::<N>(a.rank() * b.rank())
    &&& forall|a: N, b: N|
        a.times_ok(b) ==> (#[trigger] a.spec_times(b)).rank() == a.rank() * b.rank()
    &&& forall|a: N|
        a.rank() >= 0 ==> 0 <= a.rank() - 2 * (#[trigger] a.spec_half()).rank() <= 1
    &&& forall|a: N|
        a.rank() <= 0 ==> -1 <= a.rank() - 2 * (#[trigger] a.spec_half()).rank() <= 0
}

impl IndexableNum for i8 {
    open spec fn rank(self) -> int {
        self as int
    }

    open spec fn spec_zero() -> Self {
        0i8
    }

    open spec fn spec_max_value() -> Self {
        i8::MAX
    }

    open spec fn plus_ok(self, other: Self) -> bool {
        i8::MIN <= self + other <= i8::MAX
    }

    open spec fn spec_plus(self, other: Self) -> Self {
        (self + other) as i8
    }

    open spec fn minus_ok(self, other: Self) -> bool {
        i8::MIN <= self - other <= i8::MAX
    }

    open spec fn spec_minus(self, other: Self) -> Self {
        (self - other) as i8
    }

    open spec fn times_ok(self, other: Self) -> bool {
        i8::MIN <= self * other <= i8::MAX
    }

    open spec fn spec_times(self, other: Self) -> Self {
        (self * other) as i8
    }

    open spec fn spec_half(self) -> Self {
        if self >= 0 {
            (self as int / 2) as i8
        } else {
            (-(-(self as int) / 2)) as i8
        }
    }

    fn is_less(self, other: Self) -> (less: bool) {
        self < other
    }

    fn zero() -> (zero: Self) {
        0i8
    }

    fn max_value() -> (max: Self) {
        i8::MAX
    }

    fn plus(self, other: Self) -> (sum: Self) {
        self + other
    }

    fn minus(self, other: Self) -> (difference: Self) {
        self - other
    }

    fn times(self, other: Self) -> (product: Self) {
        self * other
    }

    fn can_square(self) -> (fits: bool) {
        self.checked_mul(self).is_some()
    }

    fn half(self) -> (half: Self) {
        self / 2
    }
}

/// Arithmetic on `i8` moves with its operands.
pub proof fn lemma_i8_arithmetic_is_monotone()
    ensures
        arithmetic_is_monotone::<i8>(),
{
    assert forall|a: i8, b: i8| 0 <= a <= b && a.times_ok(a) && b.times_ok(b) implies (
    #[trigger] a.spec_times(a)).rank() <= (#[trigger] b.spec_times(b)).rank() by {
        assert(a * a <= b * b) by (nonlinear_arith)
            requires
                0 <= a <= b,
        ;
    }
}

impl IndexableNum for u8 {
    open spec fn rank(self) -> int {
        self as int
    }

    open spec fn spec_zero() -> Self {
        0u8
    }

    open spec fn spec_max_value() -> Self {
        u8::MAX
    }

    open spec fn plus_ok(self, other: Self) -> bool {
        u8::MIN <= self + other <= u8::MAX
    }

    open spec fn spec_plus(self, other: Self) -> Self {
        (self + other) as u8
    }

    open spec fn minus_ok(self, other: Self) -> bool {
        u8::MIN <= self - other <= u8::MAX
    }

    open spec fn spec_minus(self, other: Self) -> Self {
        (self - other) as u8
    }

    open spec fn times_ok(self, other: Self) -> bool {
        u8::MIN <= self * other <= u8::MAX
    }

    open spec fn spec_times(self, other: Self) -> Self {
        (self * other) as u8
    }

    open spec fn spec_half(self) -> Self {
        (self / 2) as u8
    }

    fn is_less(self, other: Self) -> (less: bool) {
        self < other
    }

    fn zero() -> (zero: Self) {
        0u8
    }

    fn max_value() -> (max: Self) {
        u8::MAX
    }

    fn plus(self, other: Self) -> (sum: Self) {
        self + other
    }

    fn minus(self, other: Self) -> (difference: Self) {
        self - other
    }

    fn times(self, other: Self) -> (product: Self) {
        self * other
    }

    fn can_square(self) -> (fits: bool) {
        self.checked_mul(self).is_some()
    }

    fn half(self) -> (half: Self) {
        self / 2
    }
}

/// Arithmetic on `u8` moves with its operands.
pub proof fn lemma_u8_arithmetic_is_monotone()
    ensures
        arithmetic_is_monotone::<u8>(),
{
    assert forall|a: u8, b: u8| 0 <= a <= b && a.times_ok(a) && b.times_ok(b) implies (
    #[trigger] a.spec_times(a)).rank() <= (#[trigger] b.spec_times(b)).rank() by {
        assert(a * a <= b * b) by (nonlinear_arith)
            requires
                0 <= a <= b,
        ;
    }
}

impl IndexableNum for i16 {
    open spec fn rank(self) -> int {
        self as int
    }

    open spec fn spec_zero() -> Self {
        0i16
    }

    open spec fn spec_max_value() -> Self {
        i16::MAX
    }

    open spec fn plus_ok(self, other: Self) -> bool {
        i16::MIN <= self + other <= i16::MAX
    }

    open spec fn spec_plus(self, other: Self) -> Self {
        (self + other) as i16
    }

    open spec fn minus_ok(self, other: Self) -> bool {
        i16::MIN <= self - other <= i16::MAX
    }

    open spec fn spec_minus(self, other: Self) -> Self {
        (self - other) as i16
    }

    open spec fn times_ok(self, other: Self) -> bool {
        i16::MIN <= self * other <= i16::MAX
    }

    open spec fn spec_times(self, other: Self) -> Self {
        (self * other) as i16
    }

    open spec fn spec_half(self) -> Self {
        if self >= 0 {
            (self as int / 2) as i16
        } else {
            (-(-(self as int) / 2)) as i16
        }
    }

    fn is_less(self, other: Self) -> (less: bool) {
        self < other
    }

    fn zero() -> (zero: Self) {
        0i16
    }

    fn max_value() -> (max: Self) {
        i16::MAX
    }

    fn plus(self, other: Self) -> (sum: Self) {
        self + other
    }

    fn minus(self, other: Self) -> (difference: Self) {
        self - other
    }

    fn times(self, other: Self) -> (product: Self) {
        self * other
    }

    fn can_square(self) -> (fits: bool) {
        self.checked_mul(self).is_some()
    }

    fn half(self) -> (half: Self) {
        self / 2
    }
}

/// Arithmetic on `i16` moves with its operands.
pub proof fn lemma_i16_arithmetic_is_monotone()
    ensures
        arithmetic_is_monotone::<i16>(),
{
    assert forall|a: i16, b: i16| 0 <= a <= b && a.times_ok(a) && b.times_ok(b) implies (
    #[trigger] a.spec_times(a)).rank() <= (#[trigger] b.spec_times(b)).rank() by {
        assert(a * a <= b * b) by (nonlinear_arith)
            requires
                0 <= a <= b,
        ;
    }
}

impl IndexableNum for u16 {
    open spec fn rank(self) -> int {
        self as int
    }

    open spec fn spec_zero() -> Self {
        0u16
    }

    open spec fn spec_max_value() -> Self {
        u16::MAX
    }

    open spec fn plus_ok(self, other: Self) -> bool {
        u16::MIN <= self + other <= u16::MAX
    }

    open spec fn spec_plus(self, other: Self) -> Self {
        (self + other) as u16
    }

    open spec fn minus_ok(self, other: Self) -> bool {
        u16::MIN <= self - other <= u16::MAX
    }

    open spec fn spec_minus(self, other: Self) -> Self {
        (self - other) as u16
    }

    open spec fn times_ok(self, other: Self) -> bool {
        u16::MIN <= self * other <= u16::MAX
    }

    open spec fn spec_times(self, other: Self) -> Self {
        (self * other) as u16
    }

    open spec fn spec_half(self) -> Self {
        (self / 2) as u16
    }

    fn is_less(self, other: Self) -> (less: bool) {
        self < other
    }

    fn zero() -> (zero: Self) {
        0u16
    }

    fn max_value() -> (max: Self) {
        u16::MAX
    }

    fn plus(self, other: Self) -> (sum: Self) {
        self + other
    }

    fn minus(self, other: Self) -> (difference: Self) {
        self - other
    }

    fn times(self, other: Self) -> (product: Self) {
        self * other
    }

    fn can_square(self) -> (fits: bool) {
        self.checked_mul(self).is_some()
    }

    fn half(self) -> (half: Self) {
        self / 2
    }
}

/// Arithmetic on `u16` moves with its operands.
pub proof fn lemma_u16_arithmetic_is_monotone()
    ensures
        arithmetic_is_monotone::<u16>(),
{
    assert forall|a: u16, b: u16| 0 <= a <= b && a.times_ok(a) && b.times_ok(b) implies (
    #[trigger] a.spec_times(a)).rank() <= (#[trigger] b.spec_times(b)).rank() by {
        assert(a * a <= b * b) by (nonlinear_arith)
            requires
                0 <= a <= b,
        ;
    }
}

impl IndexableNum for i32 {
    open spec fn rank(self) -> int {
        self as int
    }

    open spec fn spec_zero() -> Self {
        0i32
    }

    open spec fn spec_max_value() -> Self {
        i32::MAX
    }

    open spec fn plus_ok(self, other: Self) -> bool {
        i32::MIN <= self + other <= i32::MAX
    }

    open spec fn spec_plus(self, other: Self) -> Self {
        (self + other) as i32
    }

    open spec fn minus_ok(self, other: Self) -> bool {
        i32::MIN <= self - other <= i32::MAX
    }

    open spec fn spec_minus(self, other: Self) -> Self {
        (self - other) as i32
    }

    open spec fn times_ok(self, other: Self) -> bool {
        i32::MIN <= self * other <= i32::MAX
    }

    open spec fn spec_times(self, other: Self) -> Self {
        (self * other) as i32
    }

    open spec fn spec_half(self) -> Self {
        if self >= 0 {
            (self as int / 2) as i32
        } else {
            (-(-(self as int) / 2)) as i32
        }
    }

    fn is_less(self, other: Self) -> (less: bool) {
        self < other
    }

    fn zero() -> (zero: Self) {
        0i32
    }

    fn max_value() -> (max: Self) {
        i32::MAX
    }

    fn plus(self, other: Self) -> (sum: Self) {
        self + other
    }

    fn minus(self, other: Self) -> (difference: Self) {
        self - other
    }

    fn times(self, other: Self) -> (product: Self) {
        self * other
    }

    fn can_square(self) -> (fits: bool) {
        self.checked_mul(self).is_some()
    }

    fn half(self) -> (half: Self) {
        self / 2
    }
}

/// Arithmetic on `i32` moves with its operands.
pub proof fn lemma_i32_arithmetic_is_monotone()
    ensures
        arithmetic_is_monotone::<i32>(),
{
    assert forall|a: i32, b: i32| 0 <= a <= b && a.times_ok(a) && b.times_ok(b) implies (
    #[trigger] a.spec_times(a)).rank() <= (#[trigger] b.spec_times(b)).rank() by {
        assert(a * a <= b * b) by (nonlinear_arith)
            requires
                0 <= a <= b,
        ;
    }
}

impl IndexableNum for u32 {
    open spec fn rank(self) -> int {
        self as int
    }

    open spec fn spec_zero() -> Self {
        0u32
    }

    open spec fn spec_max_value() -> Self {
        u32::MAX
    }

    open spec fn plus_ok(self, other: Self) -> bool {
        u32::MIN <= self + other <= u32::MAX
    }

    open spec fn spec_plus(self, other: Self) -> Self {
        (self + other) as u32
    }

    open spec fn minus_ok(self, other: Self) -> bool {
        u32::MIN <= self - other <= u32::MAX
    }

    open spec fn spec_minus(self, other: Self) -> Self {
        (self - other) as u32
    }

    open spec fn times_ok(self, other: Self) -> bool {
        u32::MIN <= self * other <= u32::MAX
    }

    open spec fn spec_times(self, other: Self) -> Self {
        (self * other) as u32
    }

    open spec fn spec_half(self) -> Self {
        (self / 2) as u32
    }

    fn is_less(self, other: Self) -> (less: bool) {
        self < other
    }

    fn zero() -> (zero: Self) {
        0u32
    }

    fn max_value() -> (max: Self) {
        u32::MAX
    }

    fn plus(self, other: Self) -> (sum: Self) {
        self + other
    }

    fn minus(self, other: Self) -> (difference: Self) {
        self - other
    }

    fn times(self, other: Self) -> (product: Self) {
        self * other
    }

    fn can_square(self) -> (fits: bool) {
        self.checked_mul(self).is_some()
    }

    fn half(self) -> (half: Self) {
        self / 2
    }
}

/// Arithmetic on `u32` moves with its operands.
pub proof fn lemma_u32_arithmetic_is_monotone()
    ensures
        arithmetic_is_monotone::<u32>(),
{
    assert forall|a: u32, b: u32| 0 <= a <= b && a.times_ok(a) && b.times_ok(b) implies (
    #[trigger] a.spec_times(a)).rank() <= (#[trigger] b.spec_times(b)).rank() by {
        assert(a * a <= b * b) by (nonlinear_arith)
            requires
                0 <= a <= b,
        ;
    }
}

/// A value of `i8` stands at its own place in the order, all values up to the largest have one,
/// and arithmetic is that of numbers.
pub proof fn lemma_i8_counts_exactly()
    ensures
        forall|value: i8| #[trigger] value.rank() == value,
        forall|rank: int| #[trigger] fits::<i8>(rank) <==> i8::MIN <= rank <= i8::MAX,
        counts_exactly::<i8>(),
{
    assert forall|rank: int| #[trigger] fits::<i8>(rank) <==> i8::MIN <= rank <= i8::MAX by {
        if i8::MIN <= rank <= i8::MAX {
            assert((rank as i8).rank() == rank);
        }
    }
}

/// A value of `u8` stands at its own place in the order, all values up to the largest have one,
/// and arithmetic is that of numbers.
pub proof fn lemma_u8_counts_exactly()
    ensures
        forall|value: u8| #[trigger] value.rank() == value,
        forall|rank: int| #[trigger] fits::<u8>(rank) <==> u8::MIN <= rank <= u8::MAX,
        counts_exactly::<u8>(),
{
    assert forall|rank: int| #[trigger] fits::<u8>(rank) <==> u8::MIN <= rank <= u8::MAX by {
        if u8::MIN <= rank <= u8::MAX {
            assert((rank as u8).rank() == rank);
        }
    }
}

/// A value of `i16` stands at its own place in the order, all values up to the largest have one,
/// and arithmetic is that of numbers.
pub proof fn lemma_i16_counts_exactly()
    ensures
        forall|value: i16| #[trigger] value.rank() == value,
        forall|rank: int| #[trigger] fits::<i16>(rank) <==> i16::MIN <= rank <= i16::MAX,
        counts_exactly::<i16>(),
{
    assert forall|rank: int| #[trigger] fits::<i16>(rank) <==> i16::MIN <= rank <= i16::MAX by {
        if i16::MIN <= rank <= i16::MAX {
            assert((rank as i16).rank() == rank);
        }
    }
}

/// A value of `u16` stands at its own place in the order, all values up to the largest have one,
/// and arithmetic is that of numbers.
pub proof fn lemma_u16_counts_exactly()
    ensures
        forall|value: u16| #[trigger] value.rank() == value,
        forall|rank: int| #[trigger] fits::<u16>(rank) <==> u16::MIN <= rank <= u16::MAX,
        counts_exactly::<u16>(),
{
    assert forall|rank: int| #[trigger] fits::<u16>(rank) <==> u16::MIN <= rank <= u16::MAX by {
        if u16::MIN <= rank <= u16::MAX {
            assert((rank as u16).rank() == rank);
        }
    }
}

/// A value of `i32` stands at its own place in the order, all values up to the largest have one,
/// and arithmetic is that of numbers.
pub proof fn lemma_i32_counts_exactly()
    ensures
        forall|value: i32| #[trigger] value.rank() == value,
        forall|rank: int| #[trigger] fits::<i32>(rank) <==> i32::MIN <= rank <= i32::MAX,
        counts_exactly::<i32>(),
{
    assert forall|rank: int| #[trigger] fits::<i32>(rank) <==> i32::MIN <= rank <= i32::MAX by {
        if i32::MIN <= rank <= i32::MAX {
            assert((rank as i32).rank() == rank);
        }
    }
}

/// A value of `u32` stands at its own place in the order, all values up to the largest have one,
/// and arithmetic is that of numbers.
pub proof fn lemma_u32_counts_exactly()
    ensures
        forall|value: u32| #[trigger] value.rank() == value,
        forall|rank: int| #[trigger] fits::<u32>(rank) <==> u32::MIN <= rank <= u32::MAX,
        counts_exactly::<u32>(),
{
    assert forall|rank: int| #[trigger] fits::<u32>(rank) <==> u32::MIN <= rank <= u32::MAX by {
        if u32::MIN <= rank <= u32::MAX {
            assert((rank as u32).rank() == rank);
        }
    }
}

} // verus!
