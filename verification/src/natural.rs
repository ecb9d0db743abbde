//! Unsigned numbers of arbitrary precision.
use vstd::prelude::*;
use vstd::string::StringExecFns;
use core::cmp::Ordering;
use crate::limbs::{base, pow_base, limbs_value, canonical, flag, limb_or_zero};
use crate::decimal::{all_digits, decimal_value, decimal_digits, digit_char};
use crate::algorithms::comparison::{cmp_slice, digit_length};
use crate::algorithms::addition::{add_mut, add_with_carry};
use crate::algorithms::subtraction::{normalize_vec, sub_signed};
use crate::integer::Sign;

verus! {

/// One 64-bit digit of a multiple-precision number.
pub type Limb = u64;

/// An unsigned number of arbitrary precision.
///
/// The limbs are stored least significant first.  Every value that the
/// functions of this type return is well-formed: its limbs are canonical,
/// so the top limb is not zero and zero has no limbs at all.
#[derive(Debug)]
pub struct Natural {
    pub(crate) digits: Vec<Limb>,
}

impl View for Natural {
    type V = nat;

    /// The number that this value stands for.
    open spec fn view(&self) -> nat {
        limbs_value(self.limbs())
    }
}

impl Clone for Natural {
    /// A copy with the same limbs.
    fn clone(&self) -> (r: Natural)
        ensures
            r.limbs() == self.limbs(),
    {
        let digits = self.digits.clone();
        Natural { digits }
    }
}

impl From<Limb> for Natural {
    /// The natural with the value of one limb.
    fn from(digit: Limb) -> (r: Natural)
        ensures
            r.wf(),
            r@ == digit,
    {
        let mut digits: Vec<Limb> = Vec::new();
        if digit != 0 {
            digits.push(digit);
            proof {
                crate::limbs::lemma_value_single(digit);
            }
        }
        Natural { digits }
    }
}

/// What the conversion returns is stated by `from` itself, since no
/// natural can be made in a specification.
impl vstd::std_specs::convert::FromSpecImpl<Limb> for Natural {
    open spec fn obeys_from_spec() -> bool {
        false
    }

    open spec fn from_spec(digit: Limb) -> Natural {
        arbitrary()
    }
}

impl From<Vec<Limb>> for Natural {
    /// The natural that the little-endian limbs stand for.  Zero limbs at
    /// the top are dropped.
    fn from(digits: Vec<Limb>) -> (r: Natural)
        ensures
            r.wf(),
            r@ == limbs_value(digits@),
            canonical(digits@) ==> r.limbs() == digits@,
    {
        let mut digits = digits;
        normalize_vec(&mut digits);
        Natural { digits }
    }
}

/// What the conversion returns is stated by `from` itself, since no
/// natural can be made in a specification.
impl vstd::std_specs::convert::FromSpecImpl<Vec<Limb>> for Natural {
    open spec fn obeys_from_spec() -> bool {
        false
    }

    open spec fn from_spec(digits: Vec<Limb>) -> Natural {
        arbitrary()
    }
}

impl TryFrom<Natural> for u32 {
    type Error = &'static str;

    /// The lowest 32 bits of a natural of at most one limb; an error for
    /// a natural of more limbs.
    fn try_from(n: Natural) -> (r: Result<u32, &'static str>) {
        if n.digits.len() == 0 {
            Ok(0u32)
        } else if n.digits.len() == 1 {
            let limb = n.digits[0];
            assert(limb & 0xFFFF_FFFF == limb % 0x1_0000_0000) by (bit_vector);
            Ok((limb & 0xFFFF_FFFF) as u32)
        } else {
            Err("Error converting a Natural to unsigned integer")
        }
    }
}

/// What the conversion to a native number returns.
impl vstd::std_specs::convert::TryFromSpecImpl<Natural> for u32 {
    open spec fn obeys_try_from_spec() -> bool {
        true
    }

    open spec fn try_from_spec(n: Natural) -> Result<u32, &'static str> {
        if n.limbs().len() == 0 {
            Ok(0u32)
        } else if n.limbs().len() == 1 {
            Ok((n.limbs()[0] % 0x1_0000_0000) as u32)
        } else {
            Err("Error converting a Natural to unsigned integer")
        }
    }
}

impl PartialEq for Natural {
    /// Two naturals are equal when they stand for the same number.
    fn eq(&self, other: &Natural) -> (r: bool) {
        match cmp_slice(&self.digits, &other.digits) {
            Ordering::Equal => true,
            _ => false,
        }
    }
}

/// What `==` means on naturals.
impl vstd::std_specs::cmp::PartialEqSpecImpl for Natural {
    open spec fn obeys_eq_spec() -> bool {
        true
    }

    open spec fn eq_spec(&self, other: &Natural) -> bool {
        self@ == other@
    }
}

impl Eq for Natural {

}

impl PartialOrd for Natural {
    /// Naturals are ordered as the numbers they stand for.
    fn partial_cmp(&self, other: &Natural) -> (r: Option<Ordering>) {
        Some(cmp_slice(&self.digits, &other.digits))
    }
}

/// What `<` and the other comparisons mean on naturals.
impl vstd::std_specs::cmp::PartialOrdSpecImpl for Natural {
    open spec fn obeys_partial_cmp_spec() -> bool {
        true
    }

    open spec fn partial_cmp_spec(&self, other: &Natural) -> Option<Ordering> {
        if self@ < other@ {
            Some(Ordering::Less)
        } else if self@ == other@ {
            Some(Ordering::Equal)
        } else {
            Some(Ordering::Greater)
        }
    }
}

impl Natural {
    /// The limbs of this value, least significant first.
    pub open(crate) spec fn limbs(&self) -> Seq<u64> {
        self.digits@
    }

    /// Well-formedness: the limbs are in canonical form.
    pub open spec fn wf(&self) -> bool {
        canonical(self.limbs())
    }

    /// Zero.
    pub fn zero() -> (r: Natural)
        ensures
            r.wf(),
            r@ == 0,
    {
        Natural { digits: Vec::new() }
    }

    /// One.
    pub fn one() -> (r: Natural)
        ensures
            r.wf(),
            r@ == 1,
    {
        Natural::from(1u64)
    }

    /// Whether this is zero.
    pub fn is_zero(&self) -> (r: bool)
        ensures
            r <==> self@ == 0,
    {
        let len = digit_length(&self.digits);
        proof {
            crate::limbs::lemma_significant_prefix(self.limbs(), len);
            crate::limbs::lemma_canonical_zero(crate::limbs::prefix(self.limbs(), len));
        }
        len == 0
    }

    /// Whether this number is at least `other`.
    pub fn at_least(&self, other: &Natural) -> (r: bool)
        ensures
            r <==> self@ >= other@,
    {
        match cmp_slice(&self.digits, &other.digits) {
            Ordering::Less => false,
            _ => true,
        }
    }

    /// The limb at position `i`, counted from the least significant one;
    /// zero past the top limb.
    pub fn limb_at(&self, i: usize) -> (r: Limb)
        ensures
            r == limb_or_zero(self.limbs(), i as int),
    {
        if i < self.digits.len() {
            self.digits[i]
        } else {
            0
        }
    }

    /// The limbs of this number, least significant first.
    pub fn to_limbs(&self) -> (r: Vec<Limb>)
        ensures
            r@ == self.limbs(),
    {
        let digits = self.digits.clone();
        digits
    }

    /// The sum of two naturals.
    pub fn add(&self, other: &Natural) -> (r: Natural)
        ensures
            r.wf(),
            r@ == self@ + other@,
    {
        let result = crate::algorithms::addition::add(&self.digits, &other.digits);
        Natural::from(result)
    }

    /// Adds `other` to this number in place.
    pub fn add_mut(&mut self, other: &Natural)
        ensures
            final(self).wf(),
            final(self)@ == old(self)@ + other@,
    {
        // Make room for every limb of the other number; a carry out of the
        // top takes one limb more.
        if self.digits.len() < other.digits.len() {
            let ghost shorter = self.digits@;
            self.digits.resize(other.digits.len(), 0);
            proof {
                crate::limbs::lemma_value_take_zeros(self.digits@, shorter.len() as int);
            }
        }
        let ghost sized = self.digits@;
        let carry = add_mut(self.digits.as_mut_slice(), &other.digits);
        if carry {
            proof {
                crate::limbs::lemma_value_push(self.digits@, 1);
            }
            self.digits.push(1);
        } else {
            assert(flag(carry) * pow_base(sized.len()) == 0) by (nonlinear_arith)
                requires
                    flag(carry) == 0,
            ;
        }
        normalize_vec(&mut self.digits);
    }

    /// The difference of two naturals, or no value where `other` is the
    /// greater.
    pub fn sub(&self, other: &Natural) -> (r: Option<Natural>)
        ensures
            self@ < other@ <==> r.is_none(),
            r.is_some() ==> r.unwrap().wf() && r.unwrap()@ == self@ - other@,
    {
        let (sign, value) = sub_signed(self, other);
        match sign {
            Sign::Negative => None,
            Sign::Positive => Some(value),
        }
    }

    /// The product of two naturals.
    pub fn mul(&self, other: &Natural) -> (r: Natural)
        ensures
            r.wf(),
            r@ == self@ * other@,
    {
        let result = crate::algorithms::multiplication::mul(&self.digits, &other.digits);
        Natural::from(result)
    }

    /// The quotient and the remainder of this number divided by `other`.
    pub fn div(&self, other: &Natural) -> (r: (Natural, Natural))
        requires
            other@ != 0,
        ensures
            r.0.wf(),
            r.1.wf(),
            self@ == r.0@ * other@ + r.1@,
            r.1@ < other@,
            r.0@ == self@ / other@,
            r.1@ == self@ % other@,
    {
        crate::algorithms::division::div(self, other)
    }

    /// Adds one to this number in place.
    pub fn inc(&mut self)
        ensures
            final(self).wf(),
            final(self)@ == old(self)@ + 1,
    {
        let ghost orig = self.digits@;
        let mut carry = true;
        let mut i: usize = 0;
        while carry && i < self.digits.len()
            invariant
                i <= orig.len(),
                self.digits@.len() == orig.len(),
                self.digits@.skip(i as int) == orig.skip(i as int),
                limbs_value(self.digits@.take(i as int)) + flag(carry) * pow_base(i as nat)
                    == limbs_value(orig.take(i as int)) + 1,
            decreases orig.len() - i,
        {
            let (digit, c) = add_with_carry(self.digits[i], 0, carry);
            let ghost before = self.digits@;
            proof {
                assert(before[i as int] == before.skip(i as int)[0]);
                assert(orig.take(i as int + 1) =~= orig.take(i as int).push(orig[i as int]));
                crate::limbs::lemma_value_push(orig.take(i as int), orig[i as int]);
                crate::limbs::lemma_value_push(before.take(i as int), digit);
                let p = pow_base(i as nat);
                assert(digit * p + flag(c) * (base() * p) == orig[i as int] * p + flag(carry) * p)
                    by (nonlinear_arith)
                    requires
                        digit + flag(c) * base() == orig[i as int] + 0 + flag(carry),
                ;
            }
            self.digits[i] = digit;
            carry = c;
            proof {
                assert(self.digits@.take(i as int + 1) =~= before.take(i as int).push(digit));
                assert(self.digits@.skip(i as int + 1) =~= before.skip(i as int).skip(1));
            }
            i += 1;
        }
        proof {
            crate::limbs::lemma_value_split(self.digits@, i as int);
            crate::limbs::lemma_value_split(orig, i as int);
            let p = pow_base(i as nat);
            assert(flag(carry) * p == if carry {
                p
            } else {
                0
            }) by (nonlinear_arith);
        }
        if carry {
            proof {
                crate::limbs::lemma_value_push(self.digits@, 1);
            }
            self.digits.push(1);
        }
        normalize_vec(&mut self.digits);
    }

    /// Reads a natural from a text of decimal digits.  The empty text
    /// reads as zero.
    pub fn from_string(s: &str) -> (r: Natural)
        requires
            all_digits(s@),
        ensures
            r.wf(),
            r@ == decimal_value(s@),
    {
        proof {
            assert(vstd::string::is_ascii(s)) by {
                assert forall|i: int| 0 <= i < s@.len() implies '\0' <= #[trigger] s@[i]
                    <= '\u{7f}' by {
                }
            }
            vstd::string::is_ascii_spec_bytes(s);
        }
        let bytes = s.as_bytes();
        let ten = Natural::from(10u64);
        let mut n = Natural::zero();
        let mut i: usize = 0;
        while i < bytes.len()
            invariant
                i <= bytes@.len(),
                bytes@.len() == s@.len(),
                forall|k: int| 0 <= k < s@.len() ==> bytes@[k] == s@[k] as u8,
                all_digits(s@),
                ten@ == 10,
                n.wf(),
                n@ == decimal_value(s@.take(i as int)),
            decreases bytes@.len() - i,
        {
            let c = bytes[i];
            proof {
                assert(s@.take(i as int + 1).drop_last() =~= s@.take(i as int));
            }
            let d: u64 = (c - 48) as u64;
            n = n.mul(&ten).add(&Natural::from(d));
            i += 1;
        }
        proof {
            assert(s@.take(i as int) =~= s@);
        }
        n
    }

    /// The decimal digits of this number, most significant first.  Zero
    /// is written as the empty text.
    pub fn to_string(&self) -> (r: String)
        ensures
            r@ == decimal_digits(self@),
    {
        let ten = Natural::from(10u64);
        let mut n = self.clone();
        // The digits, least significant first.
        let mut digits: Vec<u8> = Vec::new();
        while !n.is_zero()
            invariant
                ten@ == 10,
                forall|k: int| 0 <= k < digits@.len() ==> digits@[k] < 10,
                decimal_digits(self@) == decimal_digits(n@) + reversed_digits(digits@),
            decreases n@,
        {
            let (d, r) = n.div(&ten);
            let rem = r.limb_at(0);
            proof {
                crate::limbs::lemma_canonical_zero(r.limbs());
                assert(pow_base(1) == base() * pow_base(0));
                crate::limbs::lemma_canonical_length(r.limbs(), 1);
                if r.limbs().len() == 1 {
                    assert(r.limbs() =~= seq![r.limbs()[0]]);
                    crate::limbs::lemma_value_single(r.limbs()[0]);
                }
                lemma_reversed_push(digits@, rem as u8);
                assert(decimal_digits(d@).push(digit_char(rem as nat)) + reversed_digits(digits@)
                    =~= decimal_digits(d@) + reversed_digits(digits@.push(rem as u8)));
            }
            digits.push(rem as u8);
            n = d;
        }
        let mut text = String::new();
        let mut i: usize = digits.len();
        proof {
            assert(text@ + reversed_digits(digits@.take(i as int)) =~= reversed_digits(digits@)) by {
                assert(digits@.take(i as int) =~= digits@);
            }
        }
        while i > 0
            invariant
                i <= digits@.len(),
                forall|k: int| 0 <= k < digits@.len() ==> digits@[k] < 10,
                text@ + reversed_digits(digits@.take(i as int)) == decimal_digits(self@),
            decreases i,
        {
            i -= 1;
            proof {
                assert(digits@.take(i as int + 1).drop_last() =~= digits@.take(i as int));
                assert(text@ + reversed_digits(digits@.take(i as int + 1)) =~= (text@ + seq![
                    digit_char(digits@[i as int] as nat),
                ]) + reversed_digits(digits@.take(i as int)));
            }
            text.append(digit_text(digits[i]));
        }
        text
    }
}

/// The operator `+` on references, which does what `Natural::add` does.
impl core::ops::Add<&Natural> for &Natural {
    type Output = Natural;

    fn add(self, other: &Natural) -> (r: Natural)
        ensures
            r.wf(),
            r@ == self@ + other@,
    {
        Natural::add(self, other)
    }
}

/// When the operator may be used.  What it returns is stated by the
/// operator itself, since no natural can be made in a specification.
impl vstd::std_specs::ops::AddSpecImpl<&Natural> for &Natural {
    open spec fn obeys_add_spec() -> bool {
        false
    }

    open spec fn add_req(self, other: &Natural) -> bool {
        true
    }

    open spec fn add_spec(self, other: &Natural) -> Natural {
        arbitrary()
    }
}

/// The operator `*` on references, which does what `Natural::mul` does.
impl core::ops::Mul<&Natural> for &Natural {
    type Output = Natural;

    fn mul(self, other: &Natural) -> (r: Natural)
        ensures
            r.wf(),
            r@ == self@ * other@,
    {
        Natural::mul(self, other)
    }
}

/// When the operator may be used.  What it returns is stated by the
/// operator itself, since no natural can be made in a specification.
impl vstd::std_specs::ops::MulSpecImpl<&Natural> for &Natural {
    open spec fn obeys_mul_spec() -> bool {
        false
    }

    open spec fn mul_req(self, other: &Natural) -> bool {
        true
    }

    open spec fn mul_spec(self, other: &Natural) -> Natural {
        arbitrary()
    }
}

/// The characters of a sequence of digit values, last value first.
pub open spec fn reversed_digits(d: Seq<u8>) -> Seq<char>
    decreases d.len(),
{
    if d.len() == 0 {
        Seq::empty()
    } else {
        seq![digit_char(d.last() as nat)] + reversed_digits(d.drop_last())
    }
}

/// Reversing with one more value puts its character in front.
proof fn lemma_reversed_push(d: Seq<u8>, x: u8)
    ensures
        reversed_digits(d.push(x)) == seq![digit_char(x as nat)] + reversed_digits(d),
{
    assert(d.push(x).drop_last() =~= d);
}

/// The one-character text of a digit value.
fn digit_text(d: u8) -> (r: &'static str)
    requires
        d < 10,
    ensures
        r@ == seq![digit_char(d as nat)],
{
    proof {
        reveal_strlit("0");
        reveal_strlit("1");
        reveal_strlit("2");
        reveal_strlit("3");
        reveal_strlit("4");
        reveal_strlit("5");
        reveal_strlit("6");
        reveal_strlit("7");
        reveal_strlit("8");
        reveal_strlit("9");
    }
    let r = if d == 0 {
        "0"
    } else if d == 1 {
        "1"
    } else if d == 2 {
        "2"
    } else if d == 3 {
        "3"
    } else if d == 4 {
        "4"
    } else if d == 5 {
        "5"
    } else if d == 6 {
        "6"
    } else if d == 7 {
        "7"
    } else if d == 8 {
        "8"
    } else {
        "9"
    };
    r
}

} // verus!
