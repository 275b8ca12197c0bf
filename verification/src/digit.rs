//! The value domain of a cell: blank, or a digit 1..9.
//!
//! Each digit maps to a distinct single bit (bit `d - 1` for digit `d`), so a
//! 9-bit mask can record which digits occupy a line; a blank maps to no bit.

use vstd::prelude::*;

verus! {

/// The content of one cell: blank or a digit 1..9.
#[derive(Debug, Clone, Copy, PartialEq, Eq, Structural)]
pub enum Value {
    Blank,
    One,
    Two,
    Three,
    Four,
    Five,
    Six,
    Seven,
    Eight,
    Nine,
}

/// The numeric value of a cell: 0 for a blank, otherwise the digit.
pub open spec fn dv(v: Value) -> int {
    match v {
        Value::Blank => 0,
        Value::One => 1,
        Value::Two => 2,
        Value::Three => 3,
        Value::Four => 4,
        Value::Five => 5,
        Value::Six => 6,
        Value::Seven => 7,
        Value::Eight => 8,
        Value::Nine => 9,
    }
}

/// The bit that digit `d` occupies in a line mask.
pub open spec fn mask_of(d: int) -> u16 {
    1u16 << ((d - 1) as u16)
}

impl Default for Value {
    /// A cell starts out blank.
    fn default() -> (r: Value)
        ensures
            r == Value::Blank,
    {
        Value::Blank
    }
}

pub proof fn lemma_dv_range(v: Value)
    ensures
        0 <= dv(v) <= 9,
{
}

pub proof fn lemma_dv_injective(a: Value, b: Value)
    requires
        dv(a) == dv(b),
    ensures
        a == b,
{
}

impl Value {
    /// The numeric value of this cell, 0..=9.
    pub fn to_i32(&self) -> (r: i32)
        ensures
            r == dv(*self),
    {
        match self {
            Value::Blank => 0,
            Value::One => 1,
            Value::Two => 2,
            Value::Three => 3,
            Value::Four => 4,
            Value::Five => 5,
            Value::Six => 6,
            Value::Seven => 7,
            Value::Eight => 8,
            Value::Nine => 9,
        }
    }

    /// Converts a host integer to a cell value; integers outside 0..=9 have
    /// no cell value and are a caller error.
    pub fn from_i32(n: i32) -> (r: Option<Value>)
        ensures
            r is Some <==> 0 <= n <= 9,
            r matches Some(v) ==> dv(v) == n,
    {
        match n {
            0 => Some(Value::Blank),
            1 => Some(Value::One),
            2 => Some(Value::Two),
            3 => Some(Value::Three),
            4 => Some(Value::Four),
            5 => Some(Value::Five),
            6 => Some(Value::Six),
            7 => Some(Value::Seven),
            8 => Some(Value::Eight),
            9 => Some(Value::Nine),
            _ => None,
        }
    }

    /// True for a blank cell.
    pub fn is_blank(&self) -> (r: bool)
        ensures
            r <==> dv(*self) == 0,
    {
        matches!(self, Value::Blank)
    }

    /// The next digit in candidate order: blank is followed by 1, digit `d`
    /// by `d + 1`, and 9 by nothing (the candidates are exhausted).
    pub fn next(&self) -> (r: Option<Value>)
        ensures
            r is Some <==> dv(*self) < 9,
            r matches Some(v) ==> dv(v) == dv(*self) + 1,
    {
        match self {
            Value::Blank => Some(Value::One),
            Value::One => Some(Value::Two),
            Value::Two => Some(Value::Three),
            Value::Three => Some(Value::Four),
            Value::Four => Some(Value::Five),
            Value::Five => Some(Value::Six),
            Value::Six => Some(Value::Seven),
            Value::Seven => Some(Value::Eight),
            Value::Eight => Some(Value::Nine),
            Value::Nine => None,
        }
    }

    /// The bit-flag encoding of this cell value: digit `d` sets bit `d - 1`
    /// alone; a blank sets no bit.
    pub fn mask(&self) -> (m: u16)
        ensures
            dv(*self) == 0 ==> m == 0,
            dv(*self) != 0 ==> m == mask_of(dv(*self)),
    {
        proof {
            assert(1u16 << 0u16 == 1u16) by (bit_vector);
            assert(1u16 << 1u16 == 2u16) by (bit_vector);
            assert(1u16 << 2u16 == 4u16) by (bit_vector);
            assert(1u16 << 3u16 == 8u16) by (bit_vector);
            assert(1u16 << 4u16 == 16u16) by (bit_vector);
            assert(1u16 << 5u16 == 32u16) by (bit_vector);
            assert(1u16 << 6u16 == 64u16) by (bit_vector);
            assert(1u16 << 7u16 == 128u16) by (bit_vector);
            assert(1u16 << 8u16 == 256u16) by (bit_vector);
        }
        match self {
            Value::Blank => 0,
            Value::One => 1,
            Value::Two => 2,
            Value::Three => 4,
            Value::Four => 8,
            Value::Five => 16,
            Value::Six => 32,
            Value::Seven => 64,
            Value::Eight => 128,
            Value::Nine => 256,
        }
    }
}

} // verus!
