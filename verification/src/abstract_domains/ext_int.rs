//! Integers extended with the two infinities.

use vstd::prelude::*;
use vstd::std_specs::convert::TryFromSpecImpl;
use vstd::std_specs::ops::{AddSpecImpl, DivSpecImpl, MulSpecImpl, NegSpecImpl, SubSpecImpl};
use vstd::string::StringExecFns;
use crate::text::{chars_of, decimal_text, parse_i64, parsed_i64, push_decimal, trim_range, trimmed};

verus! {

/// Division of mathematical integers that rounds toward zero, as machine
/// division does.
pub open spec fn trunc_div(a: int, b: int) -> int {
    if a >= 0 {
        a / b
    } else {
        -((-a) / b)
    }
}

/// A mathematical extended integer: an element of {-inf} + Z + {+inf}.
pub enum ExtInt {
    NegInf,
    Fin(int),
    PosInf,
}

impl ExtInt {
    /// The total order with `NegInf` below and `PosInf` above every integer.
    pub open spec fn le(self, other: ExtInt) -> bool {
        match (self, other) {
            (ExtInt::NegInf, _) => true,
            (_, ExtInt::PosInf) => true,
            (ExtInt::Fin(a), ExtInt::Fin(b)) => a <= b,
            _ => false,
        }
    }

    pub open spec fn lt(self, other: ExtInt) -> bool {
        self.le(other) && self != other
    }

    pub open spec fn min(self, other: ExtInt) -> ExtInt {
        if self.le(other) {
            self
        } else {
            other
        }
    }

    pub open spec fn max(self, other: ExtInt) -> ExtInt {
        if self.le(other) {
            other
        } else {
            self
        }
    }

    /// The sign of the value: -1, 0 or 1.
    pub open spec fn sign(self) -> int {
        match self {
            ExtInt::NegInf => -1,
            ExtInt::Fin(x) => if x < 0 {
                -1
            } else if x == 0 {
                0
            } else {
                1
            },
            ExtInt::PosInf => 1,
        }
    }

    /// The infinity of the given sign, or zero for sign zero.
    pub open spec fn infinity(sign: int) -> ExtInt {
        if sign < 0 {
            ExtInt::NegInf
        } else if sign == 0 {
            ExtInt::Fin(0)
        } else {
            ExtInt::PosInf
        }
    }

    /// Negation swaps the infinities.
    pub open spec fn negated(self) -> ExtInt {
        match self {
            ExtInt::NegInf => ExtInt::PosInf,
            ExtInt::Fin(x) => ExtInt::Fin(-x),
            ExtInt::PosInf => ExtInt::NegInf,
        }
    }

    /// A sum is defined unless it adds the two opposite infinities.
    pub open spec fn plus_defined(self, other: ExtInt) -> bool {
        !(self is PosInf && other is NegInf) && !(self is NegInf && other is PosInf)
    }

    /// An infinite operand gives the sum its sign.
    pub open spec fn plus(self, other: ExtInt) -> ExtInt
        recommends
            self.plus_defined(other),
    {
        match (self, other) {
            (ExtInt::Fin(a), ExtInt::Fin(b)) => ExtInt::Fin(a + b),
            (ExtInt::NegInf, _) | (_, ExtInt::NegInf) => ExtInt::NegInf,
            _ => ExtInt::PosInf,
        }
    }

    /// A difference is defined unless it subtracts an infinity from itself.
    pub open spec fn minus_defined(self, other: ExtInt) -> bool {
        !(self is PosInf && other is PosInf) && !(self is NegInf && other is NegInf)
    }

    pub open spec fn minus(self, other: ExtInt) -> ExtInt
        recommends
            self.minus_defined(other),
    {
        self.plus(other.negated())
    }

    /// Zero times anything is zero; otherwise an infinite operand makes the
    /// product infinite, with the product of the signs.
    pub open spec fn times(self, other: ExtInt) -> ExtInt {
        match (self, other) {
            (ExtInt::Fin(a), ExtInt::Fin(b)) => ExtInt::Fin(a * b),
            _ => ExtInt::infinity(self.sign() * other.sign()),
        }
    }

    /// A total division: anything over an infinity is zero, a finite value
    /// over zero is the infinity of its sign (zero for zero), and an infinity
    /// over a finite value keeps the product of the signs.
    pub open spec fn over(self, other: ExtInt) -> ExtInt {
        match (self, other) {
            (_, ExtInt::NegInf) | (_, ExtInt::PosInf) => ExtInt::Fin(0),
            (_, ExtInt::Fin(b)) if b == 0 => ExtInt::infinity(self.sign()),
            (ExtInt::Fin(a), ExtInt::Fin(b)) => ExtInt::Fin(trunc_div(a, b)),
            _ => ExtInt::infinity(self.sign() * other.sign()),
        }
    }

    /// Whether a finite value lies in the range of `i64`.
    pub open spec fn fits(self) -> bool {
        self matches ExtInt::Fin(x) ==> i64::MIN <= x <= i64::MAX
    }
}

/// An extended integer whose finite values are machine integers.
#[derive(PartialEq, Eq, PartialOrd, Ord, Structural, Clone, Copy, Debug)]
pub enum Int {
    NegInf,
    Num(i64),
    PosInf,
}

impl View for Int {
    type V = ExtInt;

    open spec fn view(&self) -> ExtInt {
        match *self {
            Int::NegInf => ExtInt::NegInf,
            Int::Num(x) => ExtInt::Fin(x as int),
            Int::PosInf => ExtInt::PosInf,
        }
    }
}

impl Int {
    /// The machine value that stands for a mathematical one in range.
    pub open spec fn of(v: ExtInt) -> Int
        recommends
            v.fits(),
    {
        match v {
            ExtInt::NegInf => Int::NegInf,
            ExtInt::Fin(x) => Int::Num(x as i64),
            ExtInt::PosInf => Int::PosInf,
        }
    }

    /// Whether `self` is at most `other` in the order of the extended integers.
    pub fn le(self, other: Int) -> (r: bool)
        ensures
            r == self@.le(other@),
    {
        match (self, other) {
            (Int::NegInf, _) => true,
            (_, Int::PosInf) => true,
            (Int::Num(a), Int::Num(b)) => a <= b,
            _ => false,
        }
    }

    /// Whether `self` is strictly below `other`.
    pub fn lt(self, other: Int) -> (r: bool)
        ensures
            r == self@.lt(other@),
    {
        self.le(other) && self != other
    }

    /// The smaller of the two values.
    pub fn min(self, other: Int) -> (r: Int)
        ensures
            r@ == self@.min(other@),
    {
        if self.le(other) {
            self
        } else {
            other
        }
    }

    /// The sign of the value: -1, 0 or 1.
    pub fn signum(self) -> (r: i8)
        ensures
            r == self@.sign(),
    {
        match self {
            Int::NegInf => -1,
            Int::Num(x) => if x < 0 {
                -1
            } else if x == 0 {
                0
            } else {
                1
            },
            Int::PosInf => 1,
        }
    }

    /// The larger of the two values.
    pub fn max(self, other: Int) -> (r: Int)
        ensures
            r@ == self@.max(other@),
    {
        if self.le(other) {
            other
        } else {
            self
        }
    }
}

/// The extended integer that a text writes: `inf`, `-inf` or a decimal
/// integer, with white space around it.
pub open spec fn int_of_text(s: Seq<char>) -> Option<Int> {
    let t = trimmed(s);
    if t == seq!['i', 'n', 'f'] {
        Some(Int::PosInf)
    } else if t == seq!['-', 'i', 'n', 'f'] {
        Some(Int::NegInf)
    } else {
        match parsed_i64(t) {
            Some(x) => Some(Int::Num(x)),
            None => None,
        }
    }
}

/// The text of an extended integer: `inf`, `-inf` or the decimal digits.
pub open spec fn int_text(x: Int) -> Seq<char> {
    match x {
        Int::PosInf => seq!['i', 'n', 'f'],
        Int::NegInf => seq!['-', 'i', 'n', 'f'],
        Int::Num(v) => decimal_text(v as int),
    }
}

/// The error of a text that writes no extended integer: the text.
#[derive(Debug, Clone, Copy)]
pub struct BadInt<'a>(pub &'a str);

impl<'a> BadInt<'a> {
    /// The text of the error.
    pub fn message(&self) -> (r: String)
        ensures
            r@ == "invalid conversion: "@ + self.0@ + ": String -> Int"@,
    {
        let mut out = String::new();
        out.append("invalid conversion: ");
        out.append(self.0);
        out.append(": String -> Int");
        assert(out@ =~= "invalid conversion: "@ + self.0@ + ": String -> Int"@);
        out
    }
}

impl Int {
    /// Reads the extended integer that `v[from..to]` writes.
    pub fn parse_range(v: &Vec<char>, from: usize, to: usize) -> (r: Option<Int>)
        requires
            from <= to <= v.len(),
        ensures
            r == int_of_text(v@.subrange(from as int, to as int)),
    {
        let (a, b) = trim_range(v, from, to);
        let ghost t = v@.subrange(a as int, b as int);
        if b - a == 3 && v[a] == 'i' && v[a + 1] == 'n' && v[a + 2] == 'f' {
            assert(t =~= seq!['i', 'n', 'f']);
            return Some(Int::PosInf);
        }
        if b - a == 4 && v[a] == '-' && v[a + 1] == 'i' && v[a + 2] == 'n' && v[a + 3] == 'f' {
            assert(t =~= seq!['-', 'i', 'n', 'f']);
            return Some(Int::NegInf);
        }
        proof {
            if t == seq!['i', 'n', 'f'] {
                assert(t.len() == 3 && t[0] == 'i' && t[1] == 'n' && t[2] == 'f');
            }
            if t == seq!['-', 'i', 'n', 'f'] {
                assert(t.len() == 4 && t[0] == '-' && t[1] == 'i' && t[2] == 'n' && t[3] == 'f');
            }
        }
        match parse_i64(v, a, b) {
            Some(x) => Some(Int::Num(x)),
            None => None,
        }
    }

    /// The text of the value.
    pub fn to_text(self) -> (r: String)
        ensures
            r@ == int_text(self),
    {
        let mut out = String::new();
        match self {
            Int::PosInf => {
                proof {
                    reveal_strlit("inf");
                }
                out.append("inf");
                assert(out@ =~= seq!['i', 'n', 'f']);
            },
            Int::NegInf => {
                proof {
                    reveal_strlit("-inf");
                }
                out.append("-inf");
                assert(out@ =~= seq!['-', 'i', 'n', 'f']);
            },
            Int::Num(x) => {
                push_decimal(&mut out, x);
                assert(Seq::<char>::empty() + decimal_text(x as int) =~= decimal_text(x as int));
            },
        }
        out
    }
}

impl<'a> TryFrom<&'a str> for Int {
    type Error = BadInt<'a>;

    fn try_from(value: &'a str) -> (r: Result<Int, BadInt<'a>>) {
        let v = chars_of(value);
        assert(v@.subrange(0, v@.len() as int) == v@);
        match Int::parse_range(&v, 0, v.len()) {
            Some(x) => Ok(x),
            None => Err(BadInt(value)),
        }
    }
}

impl<'a> TryFromSpecImpl<&'a str> for Int {
    open spec fn obeys_try_from_spec() -> bool {
        true
    }

    open spec fn try_from_spec(value: &'a str) -> Result<Int, BadInt<'a>> {
        match int_of_text(value@) {
            Some(x) => Ok(x),
            None => Err(BadInt(value)),
        }
    }
}

/// `of` undoes the view.
pub proof fn lemma_of_view(x: Int)
    ensures
        Int::of(x@) == x,
        x@.fits(),
{
}

/// A quotient rounded toward zero is no larger in magnitude than the dividend.
pub proof fn lemma_trunc_div_bound(a: int, b: int)
    requires
        b != 0,
    ensures
        a >= 0 ==> -a <= trunc_div(a, b) <= a,
        a <= 0 ==> a <= trunc_div(a, b) <= -a,
{
    let n = if a >= 0 { a } else { -a };
    let q = n / b;
    let r = n % b;
    assert(n == b * q + r && 0 <= r && (b > 0 ==> r < b) && (b < 0 ==> r < -b))
        by (nonlinear_arith)
        requires
            b != 0,
            q == n / b,
            r == n % b,
    ;
    assert(-n <= q <= n) by (nonlinear_arith)
        requires
            n >= 0,
            b != 0,
            n == b * q + r,
            0 <= r,
            b > 0 ==> r < b,
            b < 0 ==> r < -b,
    ;
}

/// An extended integer whose finite values are wide enough to hold, without
/// rounding, the result of one arithmetic step on machine endpoints.
#[derive(Clone, Copy)]
pub enum Wide {
    NegInf,
    Num(i128),
    PosInf,
}

impl View for Wide {
    type V = ExtInt;

    open spec fn view(&self) -> ExtInt {
        match *self {
            Wide::NegInf => ExtInt::NegInf,
            Wide::Num(x) => ExtInt::Fin(x as int),
            Wide::PosInf => ExtInt::PosInf,
        }
    }
}

/// A bound on the magnitude of an operand that keeps one step within `i128`.
pub open spec fn small(x: ExtInt) -> bool {
    x matches ExtInt::Fin(v) ==> -0x8000_0000_0000_0000 <= v <= 0x8000_0000_0000_0000
}

impl Wide {
    /// The same value, wide.
    pub fn of(x: Int) -> (r: Wide)
        ensures
            r@ == x@,
            small(r@),
    {
        match x {
            Int::NegInf => Wide::NegInf,
            Int::Num(v) => Wide::Num(v as i128),
            Int::PosInf => Wide::PosInf,
        }
    }

    /// The same value with a machine integer, where it fits one.
    pub fn narrow(self) -> (r: Int)
        requires
            self@.fits(),
        ensures
            r@ == self@,
    {
        match self {
            Wide::NegInf => Int::NegInf,
            Wide::Num(v) => Int::Num(v as i64),
            Wide::PosInf => Int::PosInf,
        }
    }

    /// Whether `self` is at most `other`.
    pub fn le(self, other: Wide) -> (r: bool)
        ensures
            r == self@.le(other@),
    {
        match (self, other) {
            (Wide::NegInf, _) => true,
            (_, Wide::PosInf) => true,
            (Wide::Num(a), Wide::Num(b)) => a <= b,
            _ => false,
        }
    }

    /// Whether `self` is strictly below `other`.
    pub fn lt(self, other: Wide) -> (r: bool)
        ensures
            r == self@.lt(other@),
    {
        match (self, other) {
            (Wide::NegInf, Wide::NegInf) => false,
            (Wide::PosInf, Wide::PosInf) => false,
            (Wide::NegInf, _) => true,
            (_, Wide::PosInf) => true,
            (Wide::Num(a), Wide::Num(b)) => a < b,
            _ => false,
        }
    }

    /// The smaller of the two values.
    pub fn min(self, other: Wide) -> (r: Wide)
        ensures
            r@ == self@.min(other@),
    {
        if self.le(other) {
            self
        } else {
            other
        }
    }

    /// The larger of the two values.
    pub fn max(self, other: Wide) -> (r: Wide)
        ensures
            r@ == self@.max(other@),
    {
        if self.le(other) {
            other
        } else {
            self
        }
    }

    /// The sign of the value: -1, 0 or 1.
    pub fn signum(self) -> (r: i8)
        ensures
            r == self@.sign(),
    {
        match self {
            Wide::NegInf => -1,
            Wide::Num(x) => if x < 0 {
                -1
            } else if x == 0 {
                0
            } else {
                1
            },
            Wide::PosInf => 1,
        }
    }

    /// The infinity of the given sign, or zero for sign zero.
    pub fn infinity(sign: i8) -> (r: Wide)
        ensures
            r@ == ExtInt::infinity(sign as int),
    {
        if sign < 0 {
            Wide::NegInf
        } else if sign == 0 {
            Wide::Num(0)
        } else {
            Wide::PosInf
        }
    }

    /// The opposite value.
    pub fn negated(self) -> (r: Wide)
        requires
            small(self@),
        ensures
            r@ == self@.negated(),
            small(r@),
    {
        match self {
            Wide::NegInf => Wide::PosInf,
            Wide::Num(x) => Wide::Num(-x),
            Wide::PosInf => Wide::NegInf,
        }
    }

    /// The sum.
    pub fn plus(self, other: Wide) -> (r: Wide)
        requires
            small(self@),
            small(other@),
        ensures
            r@ == self@.plus(other@),
    {
        match (self, other) {
            (Wide::Num(a), Wide::Num(b)) => Wide::Num(a + b),
            (Wide::NegInf, _) | (_, Wide::NegInf) => Wide::NegInf,
            _ => Wide::PosInf,
        }
    }

    /// The difference.
    pub fn minus(self, other: Wide) -> (r: Wide)
        requires
            small(self@),
            small(other@),
        ensures
            r@ == self@.minus(other@),
    {
        self.plus(other.negated())
    }

    /// The product.
    pub fn times(self, other: Wide) -> (r: Wide)
        requires
            small(self@),
            small(other@),
        ensures
            r@ == self@.times(other@),
    {
        match (self, other) {
            (Wide::Num(a), Wide::Num(b)) => {
                assert(-0x4000_0000_0000_0000_0000_0000_0000_0000 <= a * b
                    <= 0x4000_0000_0000_0000_0000_0000_0000_0000) by (nonlinear_arith)
                    requires
                        -0x8000_0000_0000_0000 <= a <= 0x8000_0000_0000_0000,
                        -0x8000_0000_0000_0000 <= b <= 0x8000_0000_0000_0000,
                ;
                Wide::Num(a * b)
            },
            _ => Wide::infinity(self.signum() * other.signum()),
        }
    }

    /// The quotient, rounded toward zero.
    pub fn over(self, other: Wide) -> (r: Wide)
        requires
            small(self@),
            small(other@),
        ensures
            r@ == self@.over(other@),
            small(r@),
    {
        match (self, other) {
            (_, Wide::NegInf) | (_, Wide::PosInf) => Wide::Num(0),
            (Wide::Num(a), Wide::Num(b)) if b != 0 => {
                proof {
                    lemma_trunc_div_bound(a as int, b as int);
                }
                Wide::Num(a / b)
            },
            (_, Wide::Num(_)) if other.signum() == 0 => Wide::infinity(self.signum()),
            _ => Wide::infinity(self.signum() * other.signum()),
        }
    }
}

/// Negation. The result must fit: every value but the least machine integer
/// has one.
impl core::ops::Neg for Int {
    type Output = Int;

    fn neg(self) -> (r: Int) {
        Wide::of(self).negated().narrow()
    }
}

impl NegSpecImpl for Int {
    open spec fn obeys_neg_spec() -> bool {
        true
    }

    open spec fn neg_req(self) -> bool {
        self@.negated().fits()
    }

    open spec fn neg_spec(self) -> Int {
        Int::of(self@.negated())
    }
}

/// Addition. The sum of the two opposite infinities is not defined, and a
/// finite sum must fit.
impl core::ops::Add for Int {
    type Output = Int;

    fn add(self, rhs: Int) -> (r: Int) {
        Wide::of(self).plus(Wide::of(rhs)).narrow()
    }
}

impl AddSpecImpl for Int {
    open spec fn obeys_add_spec() -> bool {
        true
    }

    open spec fn add_req(self, rhs: Int) -> bool {
        self@.plus_defined(rhs@) && self@.plus(rhs@).fits()
    }

    open spec fn add_spec(self, rhs: Int) -> Int {
        Int::of(self@.plus(rhs@))
    }
}

/// Subtraction. The difference of an infinity and itself is not defined,
/// and a finite difference must fit.
impl core::ops::Sub for Int {
    type Output = Int;

    fn sub(self, rhs: Int) -> (r: Int) {
        Wide::of(self).minus(Wide::of(rhs)).narrow()
    }
}

impl SubSpecImpl for Int {
    open spec fn obeys_sub_spec() -> bool {
        true
    }

    open spec fn sub_req(self, rhs: Int) -> bool {
        self@.minus_defined(rhs@) && self@.minus(rhs@).fits()
    }

    open spec fn sub_spec(self, rhs: Int) -> Int {
        Int::of(self@.minus(rhs@))
    }
}

/// Multiplication. A finite product must fit.
impl core::ops::Mul for Int {
    type Output = Int;

    fn mul(self, rhs: Int) -> (r: Int) {
        Wide::of(self).times(Wide::of(rhs)).narrow()
    }
}

impl MulSpecImpl for Int {
    open spec fn obeys_mul_spec() -> bool {
        true
    }

    open spec fn mul_req(self, rhs: Int) -> bool {
        self@.times(rhs@).fits()
    }

    open spec fn mul_spec(self, rhs: Int) -> Int {
        Int::of(self@.times(rhs@))
    }
}

/// Division, total on the extended integers. A finite quotient must fit:
/// every one but that of the least machine integer by -1 does.
impl core::ops::Div for Int {
    type Output = Int;

    fn div(self, rhs: Int) -> (r: Int) {
        Wide::of(self).over(Wide::of(rhs)).narrow()
    }
}

impl DivSpecImpl for Int {
    open spec fn obeys_div_spec() -> bool {
        true
    }

    open spec fn div_req(self, rhs: Int) -> bool {
        self@.over(rhs@).fits()
    }

    open spec fn div_spec(self, rhs: Int) -> Int {
        Int::of(self@.over(rhs@))
    }
}

} // verus!
