//! A type that can be treated as a difference.
//!
//! Differential dataflow most commonly tracks the counts associated with records in a multiset,
//! but it generalizes to tracking any map from the records to an Abelian group. The most common
//! generalization is when we maintain both a count and another accumulation, for example height.
//!
//! Each difference type is described by its view (`@`): the integer itself, the pair of views
//! of a `DiffPair`, or the sequence of views of a `DiffVector`. The arithmetic is stated over
//! those views by the spec functions of `Monoid` and `Abelian`.

use std::ops::{Mul, Neg};
use vstd::prelude::*;
use vstd::std_specs::iter::IteratorSpec;
use vstd::std_specs::ops::MulSpec;

pub use self::Abelian as Diff;

verus! {

/// A type that can be treated as a difference.
///
/// The mathematical requirements are those of a commutative monoid: an associative and
/// commutative addition with an identity. Every instance proves these laws, below.
pub trait Monoid: View + Sized + Clone {
    /// The view of the additive identity.
    spec fn zero_value() -> Self::V;

    /// Whether a value has no effect on any accumulation.
    spec fn is_zero_value(v: Self::V) -> bool;

    /// The sum of two values, `a` on the left.
    spec fn add_value(a: Self::V, b: Self::V) -> Self::V;

    /// Whether `a + b` can be computed without overflow.
    spec fn add_value_req(a: Self::V, b: Self::V) -> bool;

    /// Returns true if the element is the additive identity.
    ///
    /// This is primarily used by differential dataflow to know when it is safe to delete an
    /// update: a difference that accumulates to zero has no effect on any accumulation.
    fn is_zero(&self) -> (b: bool)
        ensures
            b == Self::is_zero_value(self@),
    ;

    /// The additive identity.
    ///
    /// This is used as part of consolidation, when one value is accumulated elsewhere and must
    /// be replaced by a valid but harmless value.
    fn zero() -> (z: Self)
        ensures
            z@ == Self::zero_value(),
    ;

    /// Adds `rhs` into `self`.
    fn add_assign(&mut self, rhs: &Self)
        requires
            Self::add_value_req(old(self)@, rhs@),
        ensures
            final(self)@ == Self::add_value(old(self)@, rhs@),
    ;

    /// Whether every value that is zero is the additive identity itself.
    spec fn zero_is_unique() -> bool;

    /// Returns true if the element equals the additive identity.
    fn is_identity(&self) -> (b: bool)
        ensures
            b == (self@ == Self::zero_value()),
    ;

    /// A copy of the value.
    fn duplicate(&self) -> (r: Self)
        ensures
            r@ == self@,
    ;

    /// Whether `self + rhs` can be computed without overflow.
    fn add_fits(&self, rhs: &Self) -> (b: bool)
        ensures
            b == Self::add_value_req(self@, rhs@),
    ;

    /// The additive identity is zero.
    proof fn lemma_zero_is_zero()
        ensures
            Self::is_zero_value(Self::zero_value()),
    ;

    /// Where zero is unique, every zero value is the additive identity.
    proof fn lemma_zero_unique(v: Self::V)
        ensures
            Self::zero_is_unique() && Self::is_zero_value(v) ==> v == Self::zero_value(),
    ;

    /// Adding the identity on the right changes nothing.
    proof fn lemma_add_zero(a: Self::V)
        ensures
            Self::add_value_req(a, Self::zero_value()),
            Self::add_value(a, Self::zero_value()) == a,
    ;

    /// Adding the identity on the left changes nothing.
    proof fn lemma_zero_add(a: Self::V)
        ensures
            Self::add_value_req(Self::zero_value(), a),
            Self::add_value(Self::zero_value(), a) == a,
    ;

    /// Addition commutes.
    proof fn lemma_add_commutative(a: Self::V, b: Self::V)
        requires
            Self::add_value_req(a, b),
        ensures
            Self::add_value_req(b, a),
            Self::add_value(a, b) == Self::add_value(b, a),
    ;

    /// Addition is associative, where no step overflows.
    proof fn lemma_add_associative(a: Self::V, b: Self::V, c: Self::V)
        requires
            Self::add_value_req(a, b),
            Self::add_value_req(Self::add_value(a, b), c),
            Self::add_value_req(b, c),
            Self::add_value_req(a, Self::add_value(b, c)),
        ensures
            Self::add_value(Self::add_value(a, b), c) == Self::add_value(a, Self::add_value(b, c)),
    ;
}

/// A commutative monoid with negation.
///
/// An element added to its negation is the zero element of the underlying monoid.
pub trait Abelian: Monoid + Neg<Output = Self> {
    /// The view of the negation of a value.
    spec fn neg_value(a: Self::V) -> Self::V;

    /// Whether a value can be negated without overflow.
    spec fn neg_value_req(a: Self::V) -> bool;

    /// Whether every value added to its negation gives a zero value.
    spec fn negation_cancels() -> bool;

    /// The negation of the value.
    fn negate(self) -> (r: Self)
        requires
            Self::neg_value_req(self@),
        ensures
            r@ == Self::neg_value(self@),
    ;

    /// A value added to its negation is zero.
    proof fn lemma_add_neg(a: Self::V)
        requires
            Self::neg_value_req(a),
            Self::negation_cancels(),
        ensures
            Self::add_value_req(a, Self::neg_value(a)),
            Self::is_zero_value(Self::add_value(a, Self::neg_value(a))),
    ;

    /// Negating twice gives the value back.
    proof fn lemma_neg_neg(a: Self::V)
        requires
            Self::neg_value_req(a),
        ensures
            Self::neg_value_req(Self::neg_value(a)),
            Self::neg_value(Self::neg_value(a)) == a,
    ;
}

impl Monoid for isize {
    open spec fn zero_is_unique() -> bool {
        true
    }

    fn is_identity(&self) -> (b: bool) {
        *self == 0
    }

    proof fn lemma_zero_unique(v: isize) {
    }

    open spec fn zero_value() -> isize {
        0
    }

    open spec fn is_zero_value(v: isize) -> bool {
        v == 0
    }

    open spec fn add_value(a: isize, b: isize) -> isize {
        (a + b) as isize
    }

    open spec fn add_value_req(a: isize, b: isize) -> bool {
        isize::MIN <= a + b <= isize::MAX
    }

    fn is_zero(&self) -> (b: bool) {
        *self == 0
    }

    fn zero() -> (z: Self) {
        0
    }

    fn add_assign(&mut self, rhs: &Self)
        ensures
            *final(self) == *old(self) + *rhs,
    {
        *self = *self + *rhs;
    }

    fn duplicate(&self) -> (r: Self) {
        *self
    }

    proof fn lemma_zero_is_zero() {
    }

    fn add_fits(&self, rhs: &Self) -> (b: bool) {
        self.checked_add(*rhs).is_some()
    }

    proof fn lemma_add_zero(a: isize) {
    }

    proof fn lemma_zero_add(a: isize) {
    }

    proof fn lemma_add_commutative(a: isize, b: isize) {
    }

    proof fn lemma_add_associative(a: isize, b: isize, c: isize) {
    }
}

impl Abelian for isize {
    open spec fn negation_cancels() -> bool {
        true
    }

    open spec fn neg_value(a: isize) -> isize {
        (-a) as isize
    }

    open spec fn neg_value_req(a: isize) -> bool {
        a != isize::MIN
    }

    fn negate(self) -> (r: Self)
        ensures
            r == -self,
    {
        -self
    }

    proof fn lemma_add_neg(a: isize) {
    }

    proof fn lemma_neg_neg(a: isize) {
    }
}

impl Monoid for i128 {
    open spec fn zero_is_unique() -> bool {
        true
    }

    fn is_identity(&self) -> (b: bool) {
        *self == 0
    }

    proof fn lemma_zero_unique(v: i128) {
    }

    open spec fn zero_value() -> i128 {
        0
    }

    open spec fn is_zero_value(v: i128) -> bool {
        v == 0
    }

    open spec fn add_value(a: i128, b: i128) -> i128 {
        (a + b) as i128
    }

    open spec fn add_value_req(a: i128, b: i128) -> bool {
        i128::MIN <= a + b <= i128::MAX
    }

    fn is_zero(&self) -> (b: bool) {
        *self == 0
    }

    fn zero() -> (z: Self) {
        0
    }

    fn add_assign(&mut self, rhs: &Self)
        ensures
            *final(self) == *old(self) + *rhs,
    {
        *self = *self + *rhs;
    }

    fn duplicate(&self) -> (r: Self) {
        *self
    }

    proof fn lemma_zero_is_zero() {
    }

    fn add_fits(&self, rhs: &Self) -> (b: bool) {
        self.checked_add(*rhs).is_some()
    }

    proof fn lemma_add_zero(a: i128) {
    }

    proof fn lemma_zero_add(a: i128) {
    }

    proof fn lemma_add_commutative(a: i128, b: i128) {
    }

    proof fn lemma_add_associative(a: i128, b: i128, c: i128) {
    }
}

impl Abelian for i128 {
    open spec fn negation_cancels() -> bool {
        true
    }

    open spec fn neg_value(a: i128) -> i128 {
        (-a) as i128
    }

    open spec fn neg_value_req(a: i128) -> bool {
        a != i128::MIN
    }

    fn negate(self) -> (r: Self)
        ensures
            r == -self,
    {
        -self
    }

    proof fn lemma_add_neg(a: i128) {
    }

    proof fn lemma_neg_neg(a: i128) {
    }
}

impl Monoid for i64 {
    open spec fn zero_is_unique() -> bool {
        true
    }

    fn is_identity(&self) -> (b: bool) {
        *self == 0
    }

    proof fn lemma_zero_unique(v: i64) {
    }

    open spec fn zero_value() -> i64 {
        0
    }

    open spec fn is_zero_value(v: i64) -> bool {
        v == 0
    }

    open spec fn add_value(a: i64, b: i64) -> i64 {
        (a + b) as i64
    }

    open spec fn add_value_req(a: i64, b: i64) -> bool {
        i64::MIN <= a + b <= i64::MAX
    }

    fn is_zero(&self) -> (b: bool) {
        *self == 0
    }

    fn zero() -> (z: Self) {
        0
    }

    fn add_assign(&mut self, rhs: &Self)
        ensures
            *final(self) == *old(self) + *rhs,
    {
        *self = *self + *rhs;
    }

    fn duplicate(&self) -> (r: Self) {
        *self
    }

    proof fn lemma_zero_is_zero() {
    }

    fn add_fits(&self, rhs: &Self) -> (b: bool) {
        self.checked_add(*rhs).is_some()
    }

    proof fn lemma_add_zero(a: i64) {
    }

    proof fn lemma_zero_add(a: i64) {
    }

    proof fn lemma_add_commutative(a: i64, b: i64) {
    }

    proof fn lemma_add_associative(a: i64, b: i64, c: i64) {
    }
}

impl Abelian for i64 {
    open spec fn negation_cancels() -> bool {
        true
    }

    open spec fn neg_value(a: i64) -> i64 {
        (-a) as i64
    }

    open spec fn neg_value_req(a: i64) -> bool {
        a != i64::MIN
    }

    fn negate(self) -> (r: Self)
        ensures
            r == -self,
    {
        -self
    }

    proof fn lemma_add_neg(a: i64) {
    }

    proof fn lemma_neg_neg(a: i64) {
    }
}

impl Monoid for i32 {
    open spec fn zero_is_unique() -> bool {
        true
    }

    fn is_identity(&self) -> (b: bool) {
        *self == 0
    }

    proof fn lemma_zero_unique(v: i32) {
    }

    open spec fn zero_value() -> i32 {
        0
    }

    open spec fn is_zero_value(v: i32) -> bool {
        v == 0
    }

    open spec fn add_value(a: i32, b: i32) -> i32 {
        (a + b) as i32
    }

    open spec fn add_value_req(a: i32, b: i32) -> bool {
        i32::MIN <= a + b <= i32::MAX
    }

    fn is_zero(&self) -> (b: bool) {
        *self == 0
    }

    fn zero() -> (z: Self) {
        0
    }

    fn add_assign(&mut self, rhs: &Self)
        ensures
            *final(self) == *old(self) + *rhs,
    {
        *self = *self + *rhs;
    }

    fn duplicate(&self) -> (r: Self) {
        *self
    }

    proof fn lemma_zero_is_zero() {
    }

    fn add_fits(&self, rhs: &Self) -> (b: bool) {
        self.checked_add(*rhs).is_some()
    }

    proof fn lemma_add_zero(a: i32) {
    }

    proof fn lemma_zero_add(a: i32) {
    }

    proof fn lemma_add_commutative(a: i32, b: i32) {
    }

    proof fn lemma_add_associative(a: i32, b: i32, c: i32) {
    }
}

impl Abelian for i32 {
    open spec fn negation_cancels() -> bool {
        true
    }

    open spec fn neg_value(a: i32) -> i32 {
        (-a) as i32
    }

    open spec fn neg_value_req(a: i32) -> bool {
        a != i32::MIN
    }

    fn negate(self) -> (r: Self)
        ensures
            r == -self,
    {
        -self
    }

    proof fn lemma_add_neg(a: i32) {
    }

    proof fn lemma_neg_neg(a: i32) {
    }
}

impl Monoid for i16 {
    open spec fn zero_is_unique() -> bool {
        true
    }

    fn is_identity(&self) -> (b: bool) {
        *self == 0
    }

    proof fn lemma_zero_unique(v: i16) {
    }

    open spec fn zero_value() -> i16 {
        0
    }

    open spec fn is_zero_value(v: i16) -> bool {
        v == 0
    }

    open spec fn add_value(a: i16, b: i16) -> i16 {
        (a + b) as i16
    }

    open spec fn add_value_req(a: i16, b: i16) -> bool {
        i16::MIN <= a + b <= i16::MAX
    }

    fn is_zero(&self) -> (b: bool) {
        *self == 0
    }

    fn zero() -> (z: Self) {
        0
    }

    fn add_assign(&mut self, rhs: &Self)
        ensures
            *final(self) == *old(self) + *rhs,
    {
        *self = *self + *rhs;
    }

    fn duplicate(&self) -> (r: Self) {
        *self
    }

    proof fn lemma_zero_is_zero() {
    }

    fn add_fits(&self, rhs: &Self) -> (b: bool) {
        self.checked_add(*rhs).is_some()
    }

    proof fn lemma_add_zero(a: i16) {
    }

    proof fn lemma_zero_add(a: i16) {
    }

    proof fn lemma_add_commutative(a: i16, b: i16) {
    }

    proof fn lemma_add_associative(a: i16, b: i16, c: i16) {
    }
}

impl Abelian for i16 {
    open spec fn negation_cancels() -> bool {
        true
    }

    open spec fn neg_value(a: i16) -> i16 {
        (-a) as i16
    }

    open spec fn neg_value_req(a: i16) -> bool {
        a != i16::MIN
    }

    fn negate(self) -> (r: Self)
        ensures
            r == -self,
    {
        -self
    }

    proof fn lemma_add_neg(a: i16) {
    }

    proof fn lemma_neg_neg(a: i16) {
    }
}

impl Monoid for i8 {
    open spec fn zero_is_unique() -> bool {
        true
    }

    fn is_identity(&self) -> (b: bool) {
        *self == 0
    }

    proof fn lemma_zero_unique(v: i8) {
    }

    open spec fn zero_value() -> i8 {
        0
    }

    open spec fn is_zero_value(v: i8) -> bool {
        v == 0
    }

    open spec fn add_value(a: i8, b: i8) -> i8 {
        (a + b) as i8
    }

    open spec fn add_value_req(a: i8, b: i8) -> bool {
        i8::MIN <= a + b <= i8::MAX
    }

    fn is_zero(&self) -> (b: bool) {
        *self == 0
    }

    fn zero() -> (z: Self) {
        0
    }

    fn add_assign(&mut self, rhs: &Self)
        ensures
            *final(self) == *old(self) + *rhs,
    {
        *self = *self + *rhs;
    }

    fn duplicate(&self) -> (r: Self) {
        *self
    }

    proof fn lemma_zero_is_zero() {
    }

    fn add_fits(&self, rhs: &Self) -> (b: bool) {
        self.checked_add(*rhs).is_some()
    }

    proof fn lemma_add_zero(a: i8) {
    }

    proof fn lemma_zero_add(a: i8) {
    }

    proof fn lemma_add_commutative(a: i8, b: i8) {
    }

    proof fn lemma_add_associative(a: i8, b: i8, c: i8) {
    }
}

impl Abelian for i8 {
    open spec fn negation_cancels() -> bool {
        true
    }

    open spec fn neg_value(a: i8) -> i8 {
        (-a) as i8
    }

    open spec fn neg_value_req(a: i8) -> bool {
        a != i8::MIN
    }

    fn negate(self) -> (r: Self)
        ensures
            r == -self,
    {
        -self
    }

    proof fn lemma_add_neg(a: i8) {
    }

    proof fn lemma_neg_neg(a: i8) {
    }
}

/// `isize` differences are integers: zero is `0`, they add and negate as integers, and an
/// addition or negation is allowed exactly where its result fits in `isize`.
pub proof fn lemma_isize_arithmetic(a: isize, b: isize)
    ensures
        <isize as Monoid>::zero_value() == 0,
        <isize as Monoid>::is_zero_value(a) <==> a == 0,
        <isize as Monoid>::add_value_req(a, b) <==> isize::MIN <= a + b <= isize::MAX,
        isize::MIN <= a + b <= isize::MAX ==> <isize as Monoid>::add_value(a, b) == a + b,
        <isize as Abelian>::neg_value_req(a) <==> isize::MIN <= -a <= isize::MAX,
        isize::MIN <= -a <= isize::MAX ==> <isize as Abelian>::neg_value(a) == -a,
{
}

/// `i128` differences are integers: zero is `0`, they add and negate as integers, and an
/// addition or negation is allowed exactly where its result fits in `i128`.
pub proof fn lemma_i128_arithmetic(a: i128, b: i128)
    ensures
        <i128 as Monoid>::zero_value() == 0,
        <i128 as Monoid>::is_zero_value(a) <==> a == 0,
        <i128 as Monoid>::add_value_req(a, b) <==> i128::MIN <= a + b <= i128::MAX,
        i128::MIN <= a + b <= i128::MAX ==> <i128 as Monoid>::add_value(a, b) == a + b,
        <i128 as Abelian>::neg_value_req(a) <==> i128::MIN <= -a <= i128::MAX,
        i128::MIN <= -a <= i128::MAX ==> <i128 as Abelian>::neg_value(a) == -a,
{
}

/// `i64` differences are integers: zero is `0`, they add and negate as integers, and an
/// addition or negation is allowed exactly where its result fits in `i64`.
pub proof fn lemma_i64_arithmetic(a: i64, b: i64)
    ensures
        <i64 as Monoid>::zero_value() == 0,
        <i64 as Monoid>::is_zero_value(a) <==> a == 0,
        <i64 as Monoid>::add_value_req(a, b) <==> i64::MIN <= a + b <= i64::MAX,
        i64::MIN <= a + b <= i64::MAX ==> <i64 as Monoid>::add_value(a, b) == a + b,
        <i64 as Abelian>::neg_value_req(a) <==> i64::MIN <= -a <= i64::MAX,
        i64::MIN <= -a <= i64::MAX ==> <i64 as Abelian>::neg_value(a) == -a,
{
}

/// `i32` differences are integers: zero is `0`, they add and negate as integers, and an
/// addition or negation is allowed exactly where its result fits in `i32`.
pub proof fn lemma_i32_arithmetic(a: i32, b: i32)
    ensures
        <i32 as Monoid>::zero_value() == 0,
        <i32 as Monoid>::is_zero_value(a) <==> a == 0,
        <i32 as Monoid>::add_value_req(a, b) <==> i32::MIN <= a + b <= i32::MAX,
        i32::MIN <= a + b <= i32::MAX ==> <i32 as Monoid>::add_value(a, b) == a + b,
        <i32 as Abelian>::neg_value_req(a) <==> i32::MIN <= -a <= i32::MAX,
        i32::MIN <= -a <= i32::MAX ==> <i32 as Abelian>::neg_value(a) == -a,
{
}

/// `i16` differences are integers: zero is `0`, they add and negate as integers, and an
/// addition or negation is allowed exactly where its result fits in `i16`.
pub proof fn lemma_i16_arithmetic(a: i16, b: i16)
    ensures
        <i16 as Monoid>::zero_value() == 0,
        <i16 as Monoid>::is_zero_value(a) <==> a == 0,
        <i16 as Monoid>::add_value_req(a, b) <==> i16::MIN <= a + b <= i16::MAX,
        i16::MIN <= a + b <= i16::MAX ==> <i16 as Monoid>::add_value(a, b) == a + b,
        <i16 as Abelian>::neg_value_req(a) <==> i16::MIN <= -a <= i16::MAX,
        i16::MIN <= -a <= i16::MAX ==> <i16 as Abelian>::neg_value(a) == -a,
{
}

/// `i8` differences are integers: zero is `0`, they add and negate as integers, and an
/// addition or negation is allowed exactly where its result fits in `i8`.
pub proof fn lemma_i8_arithmetic(a: i8, b: i8)
    ensures
        <i8 as Monoid>::zero_value() == 0,
        <i8 as Monoid>::is_zero_value(a) <==> a == 0,
        <i8 as Monoid>::add_value_req(a, b) <==> i8::MIN <= a + b <= i8::MAX,
        i8::MIN <= a + b <= i8::MAX ==> <i8 as Monoid>::add_value(a, b) == a + b,
        <i8 as Abelian>::neg_value_req(a) <==> i8::MIN <= -a <= i8::MAX,
        i8::MIN <= -a <= i8::MAX ==> <i8 as Abelian>::neg_value(a) == -a,
{
}

/// The difference defined by a pair of difference elements.
///
/// This type is essentially a pair, with the arithmetic applied to each element.
#[derive(Copy, Clone, Debug, PartialEq, Eq, PartialOrd, Ord)]
pub struct DiffPair<R1, R2> {
    /// The first element in the pair.
    pub element1: R1,
    /// The second element in the pair.
    pub element2: R2,
}

impl<R1: View, R2: View> View for DiffPair<R1, R2> {
    type V = (R1::V, R2::V);

    open spec fn view(&self) -> (R1::V, R2::V) {
        (self.element1@, self.element2@)
    }
}

impl<R1, R2> DiffPair<R1, R2> {
    /// Creates a new Diff pair from two elements.
    pub fn new(elt1: R1, elt2: R2) -> (r: Self)
        ensures
            r.element1 == elt1,
            r.element2 == elt2,
    {
        DiffPair { element1: elt1, element2: elt2 }
    }
}

/// A pair accumulates element by element, and is zero where it equals the pair of identities.
impl<R1: Monoid, R2: Monoid> Monoid for DiffPair<R1, R2> {
    open spec fn zero_value() -> (R1::V, R2::V) {
        (R1::zero_value(), R2::zero_value())
    }

    open spec fn is_zero_value(v: (R1::V, R2::V)) -> bool {
        v == (R1::zero_value(), R2::zero_value())
    }

    open spec fn zero_is_unique() -> bool {
        true
    }

    fn is_identity(&self) -> (b: bool) {
        self.element1.is_identity() && self.element2.is_identity()
    }

    proof fn lemma_zero_unique(v: (R1::V, R2::V)) {
    }

    open spec fn add_value(a: (R1::V, R2::V), b: (R1::V, R2::V)) -> (R1::V, R2::V) {
        (R1::add_value(a.0, b.0), R2::add_value(a.1, b.1))
    }

    open spec fn add_value_req(a: (R1::V, R2::V), b: (R1::V, R2::V)) -> bool {
        R1::add_value_req(a.0, b.0) && R2::add_value_req(a.1, b.1)
    }

    fn is_zero(&self) -> (b: bool) {
        self.is_identity()
    }

    fn zero() -> (z: Self) {
        DiffPair { element1: R1::zero(), element2: R2::zero() }
    }

    fn add_assign(&mut self, rhs: &Self) {
        self.element1.add_assign(&rhs.element1);
        self.element2.add_assign(&rhs.element2);
    }

    fn duplicate(&self) -> (r: Self) {
        DiffPair { element1: self.element1.duplicate(), element2: self.element2.duplicate() }
    }

    proof fn lemma_zero_is_zero() {
        R1::lemma_zero_is_zero();
        R2::lemma_zero_is_zero();
    }

    fn add_fits(&self, rhs: &Self) -> (b: bool) {
        self.element1.add_fits(&rhs.element1) && self.element2.add_fits(&rhs.element2)
    }

    proof fn lemma_add_zero(a: (R1::V, R2::V)) {
        R1::lemma_add_zero(a.0);
        R2::lemma_add_zero(a.1);
    }

    proof fn lemma_zero_add(a: (R1::V, R2::V)) {
        R1::lemma_zero_add(a.0);
        R2::lemma_zero_add(a.1);
    }

    proof fn lemma_add_commutative(a: (R1::V, R2::V), b: (R1::V, R2::V)) {
        R1::lemma_add_commutative(a.0, b.0);
        R2::lemma_add_commutative(a.1, b.1);
    }

    proof fn lemma_add_associative(a: (R1::V, R2::V), b: (R1::V, R2::V), c: (R1::V, R2::V)) {
        R1::lemma_add_associative(a.0, b.0, c.0);
        R2::lemma_add_associative(a.1, b.1, c.1);
    }
}

impl<R1: Abelian, R2: Abelian> Neg for DiffPair<R1, R2> {
    type Output = Self;

    fn neg(self) -> (r: Self)
        ensures
            r@ == Self::neg_value(self@),
    {
        DiffPair { element1: self.element1.negate(), element2: self.element2.negate() }
    }
}

/// `neg` is stated over views, by `Abelian::neg_value` in its `ensures`; `obeys_neg_spec` is
/// false, so that `neg_spec`, left unspecified, is never used and claims nothing.
impl<R1: Abelian, R2: Abelian> vstd::std_specs::ops::NegSpecImpl for DiffPair<R1, R2> {
    open spec fn obeys_neg_spec() -> bool {
        false
    }

    open spec fn neg_req(self) -> bool {
        Self::neg_value_req(self@)
    }

    open spec fn neg_spec(self) -> Self {
        arbitrary()
    }
}

impl<R1: Abelian, R2: Abelian> Abelian for DiffPair<R1, R2> {
    open spec fn neg_value(a: (R1::V, R2::V)) -> (R1::V, R2::V) {
        (R1::neg_value(a.0), R2::neg_value(a.1))
    }

    open spec fn neg_value_req(a: (R1::V, R2::V)) -> bool {
        R1::neg_value_req(a.0) && R2::neg_value_req(a.1)
    }

    /// A pair cancels where each element cancels to its identity itself.
    open spec fn negation_cancels() -> bool {
        &&& R1::negation_cancels()
        &&& R2::negation_cancels()
        &&& R1::zero_is_unique()
        &&& R2::zero_is_unique()
    }

    fn negate(self) -> (r: Self) {
        self.neg()
    }

    proof fn lemma_add_neg(a: (R1::V, R2::V)) {
        R1::lemma_add_neg(a.0);
        R2::lemma_add_neg(a.1);
        R1::lemma_zero_unique(R1::add_value(a.0, R1::neg_value(a.0)));
        R2::lemma_zero_unique(R2::add_value(a.1, R2::neg_value(a.1)));
    }

    proof fn lemma_neg_neg(a: (R1::V, R2::V)) {
        R1::lemma_neg_neg(a.0);
        R2::lemma_neg_neg(a.1);
    }
}

/// A pair adds element by element: each element of the sum is the sum of the elements, and the
/// addition is allowed exactly where both elements' additions are. A pair is zero exactly when it
/// is the pair of identities.
pub proof fn lemma_pair_add<R1: Monoid, R2: Monoid>(a: (R1::V, R2::V), b: (R1::V, R2::V))
    ensures
        <DiffPair<R1, R2> as Monoid>::add_value(a, b).0 == R1::add_value(a.0, b.0),
        <DiffPair<R1, R2> as Monoid>::add_value(a, b).1 == R2::add_value(a.1, b.1),
        <DiffPair<R1, R2> as Monoid>::add_value_req(a, b) <==> (R1::add_value_req(a.0, b.0)
            && R2::add_value_req(a.1, b.1)),
        <DiffPair<R1, R2> as Monoid>::zero_value() == (R1::zero_value(), R2::zero_value()),
        <DiffPair<R1, R2> as Monoid>::is_zero_value(a) <==> (a.0 == R1::zero_value() && a.1
            == R2::zero_value()),
{
}

/// A pair negates element by element.
pub proof fn lemma_pair_neg<R1: Abelian, R2: Abelian>(a: (R1::V, R2::V))
    ensures
        <DiffPair<R1, R2> as Abelian>::neg_value(a) == (R1::neg_value(a.0), R2::neg_value(a.1)),
        <DiffPair<R1, R2> as Abelian>::neg_value_req(a) <==> (R1::neg_value_req(a.0)
            && R2::neg_value_req(a.1)),
{
}

impl<T: Copy, R1: Mul<T, Output = R1>, R2: Mul<T, Output = R2>> Mul<T> for DiffPair<R1, R2> {
    type Output = Self;

    fn mul(self, other: T) -> (r: Self)
        ensures
            call_ensures(R1::mul, (self.element1, other), r.element1),
            call_ensures(R2::mul, (self.element2, other), r.element2),
    {
        DiffPair::new(self.element1.mul(other), self.element2.mul(other))
    }
}

/// The product of a pair is the pair of the products, where both elements' products are
/// specified; `mul` states in its `ensures` that each element is a result of that element's own
/// `mul` in every case.
impl<T: Copy, R1: Mul<T, Output = R1>, R2: Mul<T, Output = R2>> vstd::std_specs::ops::MulSpecImpl<T> for DiffPair<R1, R2> {
    open spec fn obeys_mul_spec() -> bool {
        R1::obeys_mul_spec() && R2::obeys_mul_spec()
    }

    open spec fn mul_req(self, other: T) -> bool {
        self.element1.mul_req(other) && self.element2.mul_req(other)
    }

    open spec fn mul_spec(self, other: T) -> Self {
        DiffPair { element1: self.element1.mul_spec(other), element2: self.element2.mul_spec(other) }
    }
}

/// A variable number of accumulable updates.
#[derive(Clone, Debug, PartialEq, Eq, PartialOrd, Ord)]
pub struct DiffVector<R> {
    buffer: Vec<R>,
}

impl<R> DiffVector<R> {
    /// The updates held, in order.
    pub closed spec fn updates(&self) -> Seq<R> {
        self.buffer@
    }

    /// Create new DiffVector from Vec
    pub fn new(vec: Vec<R>) -> (r: DiffVector<R>)
        ensures
            r.updates() == vec@,
    {
        DiffVector { buffer: vec }
    }
}

impl<R> std::ops::Deref for DiffVector<R> {
    type Target = [R];

    fn deref(&self) -> (r: &[R])
        ensures
            r@ == self.updates(),
    {
        self.buffer.as_slice()
    }
}

impl<R> std::ops::DerefMut for DiffVector<R> {
    fn deref_mut(&mut self) -> (r: &mut [R])
        ensures
            r@ == old(self).updates(),
            final(r)@ == final(self).updates(),
    {
        self.buffer.as_mut_slice()
    }
}

impl<R> IntoIterator for DiffVector<R> {
    type Item = R;
    type IntoIter = std::vec::IntoIter<R>;

    fn into_iter(self) -> (r: std::vec::IntoIter<R>)
        ensures
            r.remaining() == self.updates(),
    {
        broadcast use vstd::std_specs::vec::axiom_spec_into_iter;

        self.buffer.into_iter()
    }
}

impl<R: View> View for DiffVector<R> {
    type V = Seq<R::V>;

    open spec fn view(&self) -> Seq<R::V> {
        self.updates().map_values(|x: R| x@)
    }
}

/// The sum of two vectors of updates, position by position; where one is longer, its extra
/// updates stand alone, as if the shorter were padded with zeros.
pub open spec fn vector_sum<R: Monoid>(lhs: Seq<R::V>, rhs: Seq<R::V>) -> Seq<R::V> {
    Seq::new(
        if lhs.len() >= rhs.len() {
            lhs.len()
        } else {
            rhs.len()
        },
        |i: int|
            if i < lhs.len() && i < rhs.len() {
                R::add_value(lhs[i], rhs[i])
            } else if i < lhs.len() {
                lhs[i]
            } else {
                rhs[i]
            },
    )
}

/// Whether every addition of two updates that `vector_sum(lhs, rhs)` performs is free of
/// overflow.
pub open spec fn vector_add_req<R: Monoid>(lhs: Seq<R::V>, rhs: Seq<R::V>) -> bool {
    forall|i: int|
        0 <= i < lhs.len() && 0 <= i < rhs.len() ==> R::add_value_req(lhs[i], #[trigger] rhs[i])
}

impl<R: Monoid> Monoid for DiffVector<R> {
    open spec fn zero_value() -> Seq<R::V> {
        Seq::empty()
    }

    open spec fn is_zero_value(v: Seq<R::V>) -> bool {
        forall|i: int| 0 <= i < v.len() ==> R::is_zero_value(#[trigger] v[i])
    }

    /// A vector of zeros is zero without being empty.
    open spec fn zero_is_unique() -> bool {
        false
    }

    fn is_identity(&self) -> (b: bool) {
        proof {
            if self@.len() == 0 {
                assert(self@ =~= Seq::<R::V>::empty());
            }
        }
        self.buffer.len() == 0
    }

    proof fn lemma_zero_unique(v: Seq<R::V>) {
    }

    open spec fn add_value(a: Seq<R::V>, b: Seq<R::V>) -> Seq<R::V> {
        vector_sum::<R>(a, b)
    }

    open spec fn add_value_req(a: Seq<R::V>, b: Seq<R::V>) -> bool {
        vector_add_req::<R>(a, b)
    }

    fn is_zero(&self) -> (b: bool) {
        let mut index: usize = 0;
        while index < self.buffer.len()
            invariant
                index <= self@.len(),
                self@.len() == self.buffer@.len(),
                forall|i: int| 0 <= i < index ==> R::is_zero_value(#[trigger] self@[i]),
            decreases self@.len() - index,
        {
            if !self.buffer[index].is_zero() {
                assert(self@[index as int] == self.buffer@[index as int]@);
                return false;
            }
            index = index + 1;
        }
        true
    }

    fn zero() -> (z: Self) {
        let z = DiffVector { buffer: Vec::new() };
        proof {
            assert(z@ =~= Seq::<R::V>::empty());
        }
        z
    }

    fn add_assign(&mut self, rhs: &Self) {
        let ghost lhs0 = self@;
        let ghost want = vector_sum::<R>(self@, rhs@);
        // Ensure sufficient length to receive addition, padding with the identity.
        while self.buffer.len() < rhs.buffer.len()
            invariant
                lhs0.len() <= self.buffer@.len(),
                lhs0.len() < rhs@.len() ==> self.buffer@.len() <= rhs@.len(),
                lhs0.len() >= rhs@.len() ==> self.buffer@.len() == lhs0.len(),
                rhs@.len() == rhs.buffer@.len(),
                forall|i: int| 0 <= i < lhs0.len() ==> #[trigger] self.buffer@[i]@ == lhs0[i],
                forall|i: int|
                    lhs0.len() <= i < self.buffer@.len() ==> #[trigger] self.buffer@[i]@
                        == R::zero_value(),
            decreases rhs@.len() - self.buffer@.len(),
        {
            self.buffer.push(R::zero());
        }
        let ghost lhs1 = self.buffer@;
        // As the other is not longer, apply updates without tests.
        let mut index: usize = 0;
        while index < rhs.buffer.len()
            invariant
                index <= rhs@.len() <= self.buffer@.len(),
                rhs@.len() == rhs.buffer@.len(),
                self.buffer@.len() == lhs1.len(),
                lhs1.len() == want.len(),
                forall|i: int| 0 <= i < lhs0.len() ==> #[trigger] lhs1[i]@ == lhs0[i],
                forall|i: int| lhs0.len() <= i < lhs1.len() ==> #[trigger] lhs1[i]@ == R::zero_value(),
                vector_add_req::<R>(lhs0, rhs@),
                want == vector_sum::<R>(lhs0, rhs@),
                forall|i: int| 0 <= i < index ==> #[trigger] self.buffer@[i]@ == want[i],
                forall|i: int| index <= i < lhs1.len() ==> #[trigger] self.buffer@[i] == lhs1[i],
            decreases rhs@.len() - index,
        {
            let mut update = self.buffer[index].duplicate();
            proof {
                let k = index as int;
                assert(rhs@[k] == rhs.buffer@[k]@);
                assert(update@ == lhs1[k]@);
                R::lemma_zero_add(rhs@[k]);
            }
            update.add_assign(&rhs.buffer[index]);
            self.buffer.set(index, update);
            index = index + 1;
        }
        proof {
            assert(self@ =~= want);
        }
    }

    fn duplicate(&self) -> (r: Self) {
        let mut buffer: Vec<R> = Vec::new();
        let mut index: usize = 0;
        while index < self.buffer.len()
            invariant
                index <= self.buffer@.len(),
                buffer@.len() == index,
                forall|i: int| 0 <= i < index ==> #[trigger] buffer@[i]@ == self.buffer@[i]@,
            decreases self.buffer@.len() - index,
        {
            buffer.push(self.buffer[index].duplicate());
            index = index + 1;
        }
        let r = DiffVector { buffer };
        proof {
            assert(r@ =~= self@);
        }
        r
    }

    proof fn lemma_zero_is_zero() {
    }

    fn add_fits(&self, rhs: &Self) -> (b: bool) {
        let mut index: usize = 0;
        while index < self.buffer.len() && index < rhs.buffer.len()
            invariant
                index <= self@.len(),
                self@.len() == self.buffer@.len(),
                rhs@.len() == rhs.buffer@.len(),
                forall|i: int|
                    0 <= i < index && i < rhs@.len() ==> R::add_value_req(self@[i], #[trigger] rhs@[i]),
            decreases self@.len() - index,
        {
            proof {
                let k = index as int;
                assert(self@[k] == self.buffer@[k]@);
                assert(rhs@[k] == rhs.buffer@[k]@);
            }
            if !self.buffer[index].add_fits(&rhs.buffer[index]) {
                return false;
            }
            index = index + 1;
        }
        true
    }

    proof fn lemma_add_zero(a: Seq<R::V>) {
        assert(vector_sum::<R>(a, Seq::empty()) =~= a);
    }

    proof fn lemma_zero_add(a: Seq<R::V>) {
        assert(vector_sum::<R>(Seq::empty(), a) =~= a);
    }

    proof fn lemma_add_commutative(a: Seq<R::V>, b: Seq<R::V>) {
        assert forall|i: int| 0 <= i < a.len() && 0 <= i < b.len() implies R::add_value_req(
            b[i],
            #[trigger] a[i],
        ) && R::add_value(a[i], b[i]) == R::add_value(b[i], a[i]) by {
            R::lemma_add_commutative(a[i], b[i]);
        }
        assert(vector_sum::<R>(a, b) =~= vector_sum::<R>(b, a));
    }

    proof fn lemma_add_associative(a: Seq<R::V>, b: Seq<R::V>, c: Seq<R::V>) {
        let ab = vector_sum::<R>(a, b);
        let bc = vector_sum::<R>(b, c);
        let left = vector_sum::<R>(ab, c);
        let right = vector_sum::<R>(a, bc);
        assert forall|i: int| 0 <= i < left.len() implies #[trigger] left[i] == right[i] by {
            if i < a.len() && i < b.len() && i < c.len() {
                assert(R::add_value_req(a[i], b[i]));
                assert(R::add_value_req(ab[i], c[i]));
                assert(R::add_value_req(b[i], c[i]));
                assert(R::add_value_req(a[i], bc[i]));
                R::lemma_add_associative(a[i], b[i], c[i]);
            }
        }
        assert(left =~= right);
    }
}

/// A vector is zero exactly when each of its updates is zero: the empty vector is zero, and a
/// vector with one more update is zero exactly when the shorter one is zero and that update is
/// zero; so any update that is not zero, at any position, makes the vector not zero.
pub proof fn lemma_vector_zero<R: Monoid>(v: Seq<R::V>, x: R::V)
    ensures
        <DiffVector<R> as Monoid>::is_zero_value(Seq::empty()),
        <DiffVector<R> as Monoid>::is_zero_value(v.push(x)) <==> (<DiffVector<
            R,
        > as Monoid>::is_zero_value(v) && R::is_zero_value(x)),
        forall|i: int|
            0 <= i < v.len() && !R::is_zero_value(#[trigger] v[i]) ==> !<DiffVector<
                R,
            > as Monoid>::is_zero_value(v),
{
    let w = v.push(x);
    assert(w[v.len() as int] == x);
    assert forall|i: int| 0 <= i < v.len() implies #[trigger] w[i] == v[i] by {}
    if <DiffVector<R> as Monoid>::is_zero_value(v) && R::is_zero_value(x) {
        assert forall|i: int| 0 <= i < w.len() implies R::is_zero_value(#[trigger] w[i]) by {
            if i < v.len() {
                assert(w[i] == v[i]);
            }
        }
    }
    if <DiffVector<R> as Monoid>::is_zero_value(w) {
        assert(R::is_zero_value(w[v.len() as int]));
        assert forall|i: int| 0 <= i < v.len() implies R::is_zero_value(#[trigger] v[i]) by {
            assert(R::is_zero_value(w[i]));
        }
    }
}

/// Two vectors add position by position at every position that both hold; beyond the shorter
/// one, the longer one's updates stand alone; the sum is as long as the longer one; and the
/// addition is allowed exactly where each of the position-wise additions is.
pub proof fn lemma_vector_add<R: Monoid>(a: Seq<R::V>, b: Seq<R::V>)
    ensures
        <DiffVector<R> as Monoid>::add_value(a, b).len() == if a.len() >= b.len() {
            a.len()
        } else {
            b.len()
        },
        forall|i: int|
            0 <= i < a.len() && i < b.len() ==> #[trigger] <DiffVector<R> as Monoid>::add_value(
                a,
                b,
            )[i] == R::add_value(a[i], b[i]),
        forall|i: int|
            b.len() <= i < a.len() ==> #[trigger] <DiffVector<R> as Monoid>::add_value(a, b)[i]
                == a[i],
        forall|i: int|
            a.len() <= i < b.len() ==> #[trigger] <DiffVector<R> as Monoid>::add_value(a, b)[i]
                == b[i],
        <DiffVector<R> as Monoid>::add_value_req(a, b) <==> (forall|i: int|
            0 <= i < a.len() && i < b.len() ==> R::add_value_req(a[i], #[trigger] b[i])),
{
}

impl<R: Abelian> Neg for DiffVector<R> {
    type Output = Self;

    fn neg(self) -> (r: Self)
        ensures
            r@ == Self::neg_value(self@),
    {
        let ghost src = self.buffer@;
        proof {
            assert forall|j: int| 0 <= j < src.len() implies R::neg_value_req(
                #[trigger] src[j]@,
            ) by {
                assert(self@[j] == src[j]@);
            }
        }
        let mut buffer: Vec<R> = Vec::new();
        for update in iter: self.buffer.into_iter()
            invariant
                iter.seq() == src,
                forall|j: int| 0 <= j < src.len() ==> R::neg_value_req(#[trigger] src[j]@),
                buffer@.len() == iter.index(),
                forall|j: int|
                    0 <= j < buffer@.len() ==> #[trigger] buffer@[j]@ == R::neg_value(src[j]@),
        {
            buffer.push(update.negate());
        }
        let r = DiffVector { buffer };
        proof {
            assert(r@ =~= Self::neg_value(self@));
        }
        r
    }
}

/// `neg` is stated over views, by `Abelian::neg_value` in its `ensures`; `obeys_neg_spec` is
/// false, so that `neg_spec`, left unspecified, is never used and claims nothing.
impl<R: Abelian> vstd::std_specs::ops::NegSpecImpl for DiffVector<R> {
    open spec fn obeys_neg_spec() -> bool {
        false
    }

    open spec fn neg_req(self) -> bool {
        Self::neg_value_req(self@)
    }

    open spec fn neg_spec(self) -> Self {
        arbitrary()
    }
}

impl<R: Abelian> Abelian for DiffVector<R> {
    open spec fn neg_value(a: Seq<R::V>) -> Seq<R::V> {
        a.map_values(|x: R::V| R::neg_value(x))
    }

    open spec fn neg_value_req(a: Seq<R::V>) -> bool {
        forall|i: int| 0 <= i < a.len() ==> R::neg_value_req(#[trigger] a[i])
    }

    open spec fn negation_cancels() -> bool {
        R::negation_cancels()
    }

    fn negate(self) -> (r: Self) {
        self.neg()
    }

    proof fn lemma_add_neg(a: Seq<R::V>) {
        let n = Self::neg_value(a);
        assert forall|i: int| 0 <= i < a.len() implies R::add_value_req(#[trigger] a[i], n[i]) && R::is_zero_value(vector_sum::<R>(a, n)[i]) by {
            R::lemma_add_neg(a[i]);
        }
    }

    proof fn lemma_neg_neg(a: Seq<R::V>) {
        let n = Self::neg_value(a);
        assert forall|i: int| 0 <= i < a.len() implies R::neg_value_req(#[trigger] n[i])
            && R::neg_value(n[i]) == a[i] by {
            R::lemma_neg_neg(a[i]);
        }
        assert(Self::neg_value(n) =~= a);
    }
}

/// A vector negates update by update, keeping its length; the empty vector is the identity.
pub proof fn lemma_vector_neg<R: Abelian>(a: Seq<R::V>)
    ensures
        <DiffVector<R> as Monoid>::zero_value() == Seq::<R::V>::empty(),
        <DiffVector<R> as Abelian>::neg_value(a).len() == a.len(),
        forall|i: int|
            0 <= i < a.len() ==> #[trigger] <DiffVector<R> as Abelian>::neg_value(a)[i]
                == R::neg_value(a[i]),
        <DiffVector<R> as Abelian>::neg_value_req(a) <==> (forall|i: int|
            0 <= i < a.len() ==> R::neg_value_req(#[trigger] a[i])),
{
}

impl<T: Copy, R: Mul<T, Output = R>> Mul<T> for DiffVector<R> {
    type Output = Self;

    fn mul(self, other: T) -> (r: Self)
        ensures
            r.updates().len() == self.updates().len(),
            R::obeys_mul_spec() ==> forall|i: int|
                0 <= i < self.updates().len() ==> #[trigger] r.updates()[i]
                    == self.updates()[i].mul_spec(other),
            forall|i: int|
                0 <= i < self.updates().len() ==> call_ensures(
                    R::mul,
                    (self.updates()[i], other),
                    #[trigger] r.updates()[i],
                ),
    {
        let ghost src = self.buffer@;
        let mut buffer: Vec<R> = Vec::new();
        for update in iter: self.buffer.into_iter()
            invariant
                iter.seq() == src,
                forall|j: int| 0 <= j < src.len() ==> (#[trigger] src[j]).mul_req(other),
                buffer@.len() == iter.index(),
                R::obeys_mul_spec() ==> forall|j: int|
                    0 <= j < buffer@.len() ==> #[trigger] buffer@[j] == src[j].mul_spec(other),
                forall|j: int|
                    0 <= j < buffer@.len() ==> call_ensures(R::mul, (src[j], other), #[trigger] buffer@[j]),
        {
            buffer.push(update.mul(other));
        }
        DiffVector { buffer }
    }
}

/// `mul` is stated over the updates, in its `ensures`: each is a result of the updates' own
/// `mul`, and their `mul_spec` where that is specified. `obeys_mul_spec` is false, so that
/// `mul_spec`, left unspecified, is never used and claims nothing. A spec function cannot build
/// the `Vec` that a `DiffVector` holds from a sequence, so the product cannot be given here as
/// a value of `DiffVector`.
impl<T: Copy, R: Mul<T, Output = R>> vstd::std_specs::ops::MulSpecImpl<T> for DiffVector<R> {
    open spec fn obeys_mul_spec() -> bool {
        false
    }

    open spec fn mul_req(self, other: T) -> bool {
        forall|i: int|
            0 <= i < self.updates().len() ==> (#[trigger] self.updates()[i]).mul_req(other)
    }

    open spec fn mul_spec(self, other: T) -> Self {
        arbitrary()
    }
}

} // verus!
