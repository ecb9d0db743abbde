//! Signed numbers of arbitrary precision.
use vstd::prelude::*;
use vstd::string::{StrSliceExecFns, StringExecFns};
use crate::natural::Natural;
use crate::decimal::{all_digits, decimal_value, decimal_digits, is_digit, first_digit, minus_signs,
    lemma_first_digit};
use crate::algorithms::subtraction::sub_signed;

verus! {

/// The sign of an integer.
#[derive(Debug, PartialEq, Eq, Structural, Clone, Copy)]
pub enum Sign {
    /// Greater than or equal to zero.
    Positive,
    /// Less than zero.
    Negative,
}

impl Sign {
    /// The opposite sign.
    pub open spec fn spec_negate(self) -> Sign {
        match self {
            Sign::Positive => Sign::Negative,
            Sign::Negative => Sign::Positive,
        }
    }

    /// The sign of a product of two numbers with these signs.
    pub open spec fn spec_times(self, other: Sign) -> Sign {
        if self == other {
            Sign::Positive
        } else {
            Sign::Negative
        }
    }

    /// The opposite sign.
    pub fn negate(self) -> (r: Sign)
        ensures
            r == self.spec_negate(),
    {
        match self {
            Sign::Positive => Sign::Negative,
            Sign::Negative => Sign::Positive,
        }
    }

    /// The sign of a product of two numbers with these signs.
    pub fn times(self, other: Sign) -> (r: Sign)
        ensures
            r == self.spec_times(other),
    {
        match (self, other) {
            (Sign::Positive, Sign::Positive) => Sign::Positive,
            (Sign::Positive, Sign::Negative) => Sign::Negative,
            (Sign::Negative, Sign::Positive) => Sign::Negative,
            (Sign::Negative, Sign::Negative) => Sign::Positive,
        }
    }
}

/// The operator `*` on signs: the sign of a product.
impl core::ops::Mul<Sign> for Sign {
    type Output = Sign;

    fn mul(self, other: Sign) -> (r: Sign) {
        self.times(other)
    }
}

/// What `*` means on signs.
impl vstd::std_specs::ops::MulSpecImpl<Sign> for Sign {
    open spec fn obeys_mul_spec() -> bool {
        true
    }

    open spec fn mul_req(self, other: Sign) -> bool {
        true
    }

    open spec fn mul_spec(self, other: Sign) -> Sign {
        self.spec_times(other)
    }
}

/// The number with the given sign and magnitude.
pub open spec fn signed(sign: Sign, magnitude: nat) -> int {
    match sign {
        Sign::Positive => magnitude as int,
        Sign::Negative => -(magnitude as int),
    }
}

/// The quotient of `a` by `b`, rounded toward zero.
pub open spec fn truncated_quotient(a: int, b: int) -> int {
    let q = (if a < 0 {
        -a
    } else {
        a
    }) / (if b < 0 {
        -b
    } else {
        b
    });
    if (a < 0) != (b < 0) {
        -q
    } else {
        q
    }
}

/// A signed number of arbitrary precision: a sign and a magnitude.
///
/// Every value that the functions of this type return is well-formed:
/// the magnitude is, and zero is positive.
#[derive(Debug)]
pub struct Integer {
    sign: Sign,
    size: Natural,
}

impl PartialEq for Integer {
    /// Two integers are equal when they stand for the same number.
    fn eq(&self, other: &Integer) -> (r: bool) {
        let same_size = self.size == other.size;
        same_size && (self.sign == other.sign || self.size.is_zero())
    }
}

/// What `==` means on integers.
impl vstd::std_specs::cmp::PartialEqSpecImpl for Integer {
    open spec fn obeys_eq_spec() -> bool {
        true
    }

    open spec fn eq_spec(&self, other: &Integer) -> bool {
        self@ == other@
    }
}

impl Eq for Integer {

}

impl View for Integer {
    type V = int;

    /// The number that this value stands for.
    open spec fn view(&self) -> int {
        signed(self.spec_sign(), self.spec_magnitude()@)
    }
}

impl Integer {
    /// The sign of this number.
    pub closed spec fn spec_sign(&self) -> Sign {
        self.sign
    }

    /// The magnitude of this number.
    pub closed spec fn spec_magnitude(&self) -> Natural {
        self.size
    }

    /// Well-formedness: the magnitude is well-formed, and zero is positive.
    pub open spec fn wf(&self) -> bool {
        &&& self.spec_magnitude().wf()
        &&& self.spec_magnitude()@ == 0 ==> self.spec_sign() == Sign::Positive
    }

    /// The integer with the given sign and magnitude.  Zero is positive
    /// whatever sign is given.
    pub fn new(sign: Sign, size: Natural) -> (r: Integer)
        ensures
            r.wf(),
            r@ == signed(sign, size@),
            r.spec_magnitude()@ == size@,
            r.spec_sign() == if size@ == 0 {
                Sign::Positive
            } else {
                sign
            },
    {
        let mut size = size;
        crate::algorithms::division::normalize(&mut size);
        if size.is_zero() {
            Integer { sign: Sign::Positive, size }
        } else {
            Integer { sign, size }
        }
    }

    /// The sign of this number.
    pub fn sign(&self) -> (r: Sign)
        ensures
            r == self.spec_sign(),
    {
        self.sign
    }

    /// The magnitude of this number.
    pub fn magnitude(&self) -> (r: &Natural)
        ensures
            *r == self.spec_magnitude(),
    {
        &self.size
    }

    /// The sum of two integers.
    pub fn add(&self, other: &Integer) -> (r: Integer)
        ensures
            r.wf(),
            r@ == self@ + other@,
    {
        match (self.sign, other.sign) {
            (Sign::Positive, Sign::Positive) => Integer::new(
                Sign::Positive,
                self.size.add(&other.size),
            ),
            (Sign::Negative, Sign::Negative) => Integer::new(
                Sign::Negative,
                self.size.add(&other.size),
            ),
            (Sign::Negative, Sign::Positive) => {
                let (sign, size) = sub_signed(&other.size, &self.size);
                Integer::new(sign, size)
            },
            (Sign::Positive, Sign::Negative) => {
                let (sign, size) = sub_signed(&self.size, &other.size);
                Integer::new(sign, size)
            },
        }
    }

    /// The difference of two integers.
    pub fn sub(&self, other: &Integer) -> (r: Integer)
        ensures
            r.wf(),
            r@ == self@ - other@,
    {
        let (sign, result) = match (self.sign, other.sign) {
            (Sign::Positive, Sign::Positive) => sub_signed(&self.size, &other.size),
            (Sign::Negative, Sign::Negative) => sub_signed(&other.size, &self.size),
            (Sign::Positive, Sign::Negative) => (Sign::Positive, self.size.add(&other.size)),
            (Sign::Negative, Sign::Positive) => (Sign::Negative, self.size.add(&other.size)),
        };
        Integer::new(sign, result)
    }

    /// The product of two integers.
    pub fn mul(&self, other: &Integer) -> (r: Integer)
        ensures
            r.wf(),
            r@ == self@ * other@,
    {
        proof {
            let a = self.size@ as int;
            let b = other.size@ as int;
            assert((-a) * b == -(a * b) && a * (-b) == -(a * b) && (-a) * (-b) == a * b)
                by (nonlinear_arith);
        }
        Integer::new(self.sign.times(other.sign), self.size.mul(&other.size))
    }

    /// The quotient of two integers, rounded toward zero.
    pub fn div(&self, other: &Integer) -> (r: Integer)
        requires
            other@ != 0,
        ensures
            r.wf(),
            r@ == truncated_quotient(self@, other@),
    {
        let (d, _r) = crate::algorithms::division::div(&self.size, &other.size);
        proof {
            if self.size@ == 0 {
                vstd::arithmetic::div_mod::lemma_div_basics_1(other.size@ as int);
            }
        }
        Integer::new(self.sign.times(other.sign), d)
    }
}

/// The sign that a run of characters before a number gives it: negative
/// where it holds an odd number of minus signs.
pub open spec fn sign_of_prefix(s: Seq<char>) -> Sign {
    if minus_signs(s) % 2 == 1 {
        Sign::Negative
    } else {
        Sign::Positive
    }
}

/// The text that a sign is written as.
pub open spec fn sign_text(sign: Sign) -> Seq<char> {
    match sign {
        Sign::Positive => Seq::empty(),
        Sign::Negative => seq!['-'],
    }
}

impl Integer {
    /// Reads an integer from a text: a run of characters before the first
    /// digit, of which each minus sign flips the sign and the others are
    /// passed over, then decimal digits to the end of the text.  A text
    /// without digits reads as zero.
    pub fn from_string(s: &str) -> (r: Integer)
        requires
            all_digits(s@.skip(first_digit(s@))),
        ensures
            r.wf(),
            r@ == signed(
                sign_of_prefix(s@.take(first_digit(s@))),
                decimal_value(s@.skip(first_digit(s@))),
            ),
    {
        let len = s.unicode_len();
        let mut sign = Sign::Positive;
        let mut count: usize = 0;
        let mut found = false;
        while count < len && !found
            invariant
                count <= len,
                len == s@.len(),
                forall|j: int| 0 <= j < count ==> !is_digit(#[trigger] s@[j]),
                found ==> count < len && is_digit(s@[count as int]),
                sign == sign_of_prefix(s@.take(count as int)),
            decreases len - count + if found { 0int } else { 1int },
        {
            let ch = s.get_char(count);
            if ch >= '0' && ch <= '9' {
                found = true;
            } else {
                proof {
                    assert(s@.take(count as int + 1).drop_last() =~= s@.take(count as int));
                }
                if ch == '-' {
                    sign = sign.negate();
                }
                count += 1;
            }
        }
        proof {
            lemma_first_digit(s@, count as int);
        }
        let digits = s.substring_char(count, len);
        Integer::new(sign, Natural::from_string(digits))
    }

    /// The decimal text of this number: a minus sign where it is
    /// negative, then the digits of its magnitude.  Zero is written as the
    /// empty text.
    pub fn to_string(&self) -> (r: String)
        ensures
            r@ == sign_text(self.spec_sign()) + decimal_digits(self.spec_magnitude()@),
    {
        let mut text = String::new();
        match self.sign {
            Sign::Positive => {},
            Sign::Negative => {
                proof {
                    reveal_strlit("-");
                }
                text.append("-");
            },
        }
        let digits = self.size.to_string();
        text.append(digits.as_str());
        text
    }
}

impl From<Natural> for Integer {
    /// The integer with the value of a natural.
    fn from(n: Natural) -> (r: Integer)
        ensures
            r.wf(),
            r@ == n@,
    {
        Integer::new(Sign::Positive, n)
    }
}

/// What the conversion returns is stated by `from` itself, since no
/// integer can be made in a specification.
impl vstd::std_specs::convert::FromSpecImpl<Natural> for Integer {
    open spec fn obeys_from_spec() -> bool {
        false
    }

    open spec fn from_spec(n: Natural) -> Integer {
        arbitrary()
    }
}

/// The operator `+` on references, which does what `Integer::add` does.
impl core::ops::Add<&Integer> for &Integer {
    type Output = Integer;

    fn add(self, other: &Integer) -> (r: Integer)
        ensures
            r.wf(),
            r@ == self@ + other@,
    {
        Integer::add(self, other)
    }
}

/// The operator `-` on references, which does what `Integer::sub` does.
impl core::ops::Sub<&Integer> for &Integer {
    type Output = Integer;

    fn sub(self, other: &Integer) -> (r: Integer)
        ensures
            r.wf(),
            r@ == self@ - other@,
    {
        Integer::sub(self, other)
    }
}

/// The operator `*` on references, which does what `Integer::mul` does.
impl core::ops::Mul<&Integer> for &Integer {
    type Output = Integer;

    fn mul(self, other: &Integer) -> (r: Integer)
        ensures
            r.wf(),
            r@ == self@ * other@,
    {
        Integer::mul(self, other)
    }
}

/// When the operator may be used.  What it returns is stated by the
/// operator itself, since no integer can be made in a specification.
impl vstd::std_specs::ops::AddSpecImpl<&Integer> for &Integer {
    open spec fn obeys_add_spec() -> bool {
        false
    }

    open spec fn add_req(self, other: &Integer) -> bool {
        true
    }

    open spec fn add_spec(self, other: &Integer) -> Integer {
        arbitrary()
    }
}

/// When the operator may be used.  What it returns is stated by the
/// operator itself, since no integer can be made in a specification.
impl vstd::std_specs::ops::SubSpecImpl<&Integer> for &Integer {
    open spec fn obeys_sub_spec() -> bool {
        false
    }

    open spec fn sub_req(self, other: &Integer) -> bool {
        true
    }

    open spec fn sub_spec(self, other: &Integer) -> Integer {
        arbitrary()
    }
}

/// When the operator may be used.  What it returns is stated by the
/// operator itself, since no integer can be made in a specification.
impl vstd::std_specs::ops::MulSpecImpl<&Integer> for &Integer {
    open spec fn obeys_mul_spec() -> bool {
        false
    }

    open spec fn mul_req(self, other: &Integer) -> bool {
        true
    }

    open spec fn mul_spec(self, other: &Integer) -> Integer {
        arbitrary()
    }
}

/// The operator `/` on references, which does what `Integer::div` does.
impl core::ops::Div<&Integer> for &Integer {
    type Output = Integer;

    fn div(self, other: &Integer) -> (r: Integer)
        ensures
            r.wf(),
            r@ == truncated_quotient(self@, other@),
    {
        Integer::div(self, other)
    }
}

/// When the operator may be used.  What it returns is stated by the
/// operator itself, since no integer can be made in a specification.
impl vstd::std_specs::ops::DivSpecImpl<&Integer> for &Integer {
    open spec fn obeys_div_spec() -> bool {
        false
    }

    open spec fn div_req(self, other: &Integer) -> bool {
        other@ != 0
    }

    open spec fn div_spec(self, other: &Integer) -> Integer {
        arbitrary()
    }
}

} // verus!
