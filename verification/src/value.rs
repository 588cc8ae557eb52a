//! Tagged numeric scalars, the unit of attribute storage and comparison.

use crate::numeric::{
    bits_are_nan, float_key, float_scaled, int_against_float, int_scaled, lemma_float_order,
    lemma_scale, sign, sign_of,
};
use vstd::prelude::*;

verus! {

/// The two kinds of scalar an attribute can hold.
#[derive(Debug, Clone, Copy, PartialEq, Eq, Structural)]
pub enum RGGType {
    Int,
    Float,
}

/// A tagged scalar: a 32-bit integer, or the bit pattern of a binary32 float.
///
/// The tag decides how the 32 raw bits are read. Two values are equal when
/// both the tag and the raw bits agree; an integer never equals a float.
#[derive(Debug, Clone, Copy, PartialEq, Eq, Structural)]
pub struct Value {
    pub(crate) raw_value: i32,
    pub(crate) rgg_type: RGGType,
}

/// The float pattern that a two's complement integer holds.
pub open spec fn raw_to_bits(raw: i32) -> int {
    if raw >= 0 {
        raw as int
    } else {
        raw + 0x1_0000_0000
    }
}

impl Value {
    /// The tag.
    pub closed spec fn kind(self) -> RGGType {
        self.rgg_type
    }

    /// The integer held, meaningful when the tag is `Int`.
    pub closed spec fn int_value(self) -> int {
        self.raw_value as int
    }

    /// The float bit pattern held, meaningful when the tag is `Float`.
    pub closed spec fn float_bits(self) -> int {
        raw_to_bits(self.raw_value)
    }

    /// Two values with the same tag and the same raw contents are the same value.
    pub proof fn lemma_equal(self, other: Value)
        requires
            self.kind() == other.kind(),
            self.kind() == RGGType::Int ==> self.int_value() == other.int_value(),
            self.kind() == RGGType::Float ==> self.float_bits() == other.float_bits(),
        ensures
            self == other,
    {
    }

    /// Whether the value is a number: every integer is, and every float but a NaN.
    pub open spec fn is_number(self) -> bool {
        self.kind() == RGGType::Int || !bits_are_nan(self.float_bits())
    }

    /// The number that the value stands for, in units of 2^-149, in which
    /// every integer and every float is a whole number.
    pub open spec fn scaled(self) -> int {
        match self.kind() {
            RGGType::Int => int_scaled(self.int_value()),
            RGGType::Float => float_scaled(self.float_bits()),
        }
    }

    /// How the two values stand to each other as numbers, whatever their
    /// tags: -1 where `self` is the lesser, 0 where both are the same
    /// number, 1 where `self` is the greater. `None` where one is a NaN.
    pub open spec fn stands_to(self, other: Value) -> Option<int> {
        if self.is_number() && other.is_number() {
            Some(sign_of(self.scaled(), other.scaled()))
        } else {
            None
        }
    }

    /// Numeric `self < other`; false where one is a NaN.
    pub open spec fn is_less(self, other: Value) -> bool {
        self.is_number() && other.is_number() && self.scaled() < other.scaled()
    }

    /// Numeric `self <= other`; false where one is a NaN.
    pub open spec fn is_at_most(self, other: Value) -> bool {
        self.is_number() && other.is_number() && self.scaled() <= other.scaled()
    }

    /// Numeric `self == other`; false where one is a NaN. An integer and a
    /// float can be the same number, and so are the two float zeros,
    /// although as values they differ.
    pub open spec fn is_same_number(self, other: Value) -> bool {
        self.is_number() && other.is_number() && self.scaled() == other.scaled()
    }

    /// The integer value `i`.
    pub closed spec fn int_of(i: i32) -> Value {
        Value { raw_value: i, rgg_type: RGGType::Int }
    }

    /// The zero of the given type.
    pub fn new(value_type: RGGType) -> (v: Value)
        ensures
            v.kind() == value_type,
            v.int_value() == 0,
            v.float_bits() == 0,
    {
        Value { raw_value: 0, rgg_type: value_type }
    }

    /// An integer value.
    pub fn new_int(i: i32) -> (v: Value)
        ensures
            v == Value::int_of(i),
            v.kind() == RGGType::Int,
            v.int_value() == i,
    {
        Value { raw_value: i, rgg_type: RGGType::Int }
    }

    /// A float value, given by its binary32 bit pattern.
    pub fn new_float_bits(bits: u32) -> (v: Value)
        ensures
            v.kind() == RGGType::Float,
            v.float_bits() == bits,
    {
        let raw: i32 = if bits < 0x8000_0000 {
            bits as i32
        } else {
            (bits - 0x8000_0000) as i32 + i32::MIN
        };
        Value { raw_value: raw, rgg_type: RGGType::Float }
    }

    /// The tag of the value.
    pub fn rgg_type(&self) -> (t: RGGType)
        ensures
            t == self.kind(),
    {
        self.rgg_type
    }

    /// The integer held, or `None` where the value is a float.
    pub fn get_i32(&self) -> (r: Option<i32>)
        ensures
            r == (if self.kind() == RGGType::Int {
                Some(self.int_value() as i32)
            } else {
                None
            }),
            self.kind() == RGGType::Int ==> r.unwrap() as int == self.int_value(),
    {
        match self.rgg_type {
            RGGType::Int => Some(self.raw_value),
            RGGType::Float => None,
        }
    }

    /// The bit pattern of the float held, or `None` where the value is an integer.
    pub fn get_f32_bits(&self) -> (r: Option<u32>)
        ensures
            r is Some <==> self.kind() == RGGType::Float,
            r is Some ==> r.unwrap() as int == self.float_bits(),
    {
        match self.rgg_type {
            RGGType::Int => None,
            RGGType::Float => {
                if self.raw_value >= 0 {
                    Some(self.raw_value as u32)
                } else {
                    Some((self.raw_value - i32::MIN) as u32 + 0x8000_0000)
                }
            },
        }
    }

    /// Makes the value the integer `v`, whatever it held before.
    pub fn set_i32(&mut self, v: i32)
        ensures
            final(self).kind() == RGGType::Int,
            final(self).int_value() == v,
    {
        self.raw_value = v;
        self.rgg_type = RGGType::Int;
    }

    /// Makes the value the float with the given bit pattern, whatever it held before.
    pub fn set_f32_bits(&mut self, bits: u32)
        ensures
            final(self).kind() == RGGType::Float,
            final(self).float_bits() == bits,
    {
        *self = Value::new_float_bits(bits);
    }

    /// Whether the value is a float that is no number.
    pub fn is_nan(&self) -> (r: bool)
        ensures
            r == !self.is_number(),
    {
        match self.get_f32_bits() {
            Some(bits) => {
                let magnitude = if bits >= 0x8000_0000 {
                    bits - 0x8000_0000
                } else {
                    bits
                };
                magnitude > 0x7f80_0000
            },
            None => false,
        }
    }

    /// Compares the two values as numbers: -1 where `self` is the lesser,
    /// 0 where both are the same number, 1 where `self` is the greater.
    /// `None` where one of them is a NaN.
    pub fn relation(&self, other: &Value) -> (r: Option<i8>)
        ensures
            match r {
                Some(s) => self.stands_to(*other) == Some(s as int),
                None => self.stands_to(*other) is None,
            },
    {
        if self.is_nan() || other.is_nan() {
            return None;
        }
        match (self.rgg_type, other.rgg_type) {
            (RGGType::Int, RGGType::Int) => {
                proof {
                    vstd::arithmetic::power2::lemma_pow2_pos(149);
                    lemma_scale(
                        self.int_value(),
                        other.int_value(),
                        vstd::arithmetic::power2::pow2(149) as int,
                    );
                }
                Some(sign(self.raw_value as i64, other.raw_value as i64))
            },
            (RGGType::Float, RGGType::Float) => {
                proof {
                    lemma_float_order(self.float_bits(), other.float_bits());
                }
                Some(sign(float_place(self.raw_value), float_place(other.raw_value)))
            },
            (RGGType::Int, RGGType::Float) => {
                match other.get_f32_bits() {
                    Some(bits) => Some(int_against_float(self.raw_value, bits)),
                    None => None,
                }
            },
            (RGGType::Float, RGGType::Int) => {
                match self.get_f32_bits() {
                    Some(bits) => Some(-int_against_float(other.raw_value, bits)),
                    None => None,
                }
            },
        }
    }

    /// Numeric `self < other`.
    pub fn less_than(&self, other: &Value) -> (r: bool)
        ensures
            r == self.is_less(*other),
    {
        match self.relation(other) {
            Some(s) => s < 0,
            None => false,
        }
    }

    /// Numeric `self <= other`.
    pub fn at_most(&self, other: &Value) -> (r: bool)
        ensures
            r == self.is_at_most(*other),
    {
        match self.relation(other) {
            Some(s) => s <= 0,
            None => false,
        }
    }

    /// Numeric `self == other`.
    pub fn same_number(&self, other: &Value) -> (r: bool)
        ensures
            r == self.is_same_number(*other),
    {
        match self.relation(other) {
            Some(s) => s == 0,
            None => false,
        }
    }
}

/// The place of the float whose raw bits are `raw` among the bit patterns.
fn float_place(raw: i32) -> (r: i64)
    ensures
        r == float_key(raw_to_bits(raw)),
{
    if raw >= 0 {
        raw as i64
    } else {
        -(raw as i64 + 0x8000_0000)
    }
}

impl From<i32> for Value {
    fn from(i: i32) -> (v: Value) {
        Value::new_int(i)
    }
}

impl vstd::std_specs::convert::FromSpecImpl<i32> for Value {
    open spec fn obeys_from_spec() -> bool {
        true
    }

    open spec fn from_spec(i: i32) -> Value {
        Value::int_of(i)
    }
}

} // verus!
