//! The wire-type table: every value on the wire starts with a header byte
//! whose low five bits hold one of these codes. The numeric identity of each
//! code is part of the wire format and never changes.

use vstd::prelude::*;

verus! {

/// The closed set of payload shapes a value can carry.
#[derive(Debug, Clone, Copy, PartialEq, Eq, Structural)]
pub enum WireType {
    Null,
    BoolFalse,
    BoolTrue,
    Nat8,
    Nat16,
    Nat32,
    Nat64,
    Int8,
    Int16,
    Int32,
    Int64,
    Float32,
    Float64,
    Decimal32,
    Decimal64,
    Nat,
    Int,
    Bytes,
    String,
    Symbol,
    List,
}

pub const WIRE_TYPE_MIN: u8 = 1;

pub const WIRE_TYPE_MAX: u8 = 21;

pub const WIRE_TYPE_MASK: u8 = 32 - 1;

pub const WIRE_FLAG_KIND: u8 = 0x40;

pub const WIRE_FLAG_TAGS: u8 = 0x80;

impl WireType {
    /// The on-wire code of this wire type.
    pub open spec fn code_spec(self) -> u8 {
        match self {
            WireType::Null => 1,
            WireType::BoolFalse => 2,
            WireType::BoolTrue => 3,
            WireType::Nat8 => 4,
            WireType::Nat16 => 5,
            WireType::Nat32 => 6,
            WireType::Nat64 => 7,
            WireType::Int8 => 8,
            WireType::Int16 => 9,
            WireType::Int32 => 10,
            WireType::Int64 => 11,
            WireType::Float32 => 12,
            WireType::Float64 => 13,
            WireType::Decimal32 => 14,
            WireType::Decimal64 => 15,
            WireType::Nat => 16,
            WireType::Int => 17,
            WireType::Bytes => 18,
            WireType::String => 19,
            WireType::Symbol => 20,
            WireType::List => 21,
        }
    }

    /// The wire type a code in the valid range denotes.
    pub open spec fn from_code_spec(code: u8) -> WireType
        recommends
            WIRE_TYPE_MIN <= code <= WIRE_TYPE_MAX,
    {
        if code == 1 {
            WireType::Null
        } else if code == 2 {
            WireType::BoolFalse
        } else if code == 3 {
            WireType::BoolTrue
        } else if code == 4 {
            WireType::Nat8
        } else if code == 5 {
            WireType::Nat16
        } else if code == 6 {
            WireType::Nat32
        } else if code == 7 {
            WireType::Nat64
        } else if code == 8 {
            WireType::Int8
        } else if code == 9 {
            WireType::Int16
        } else if code == 10 {
            WireType::Int32
        } else if code == 11 {
            WireType::Int64
        } else if code == 12 {
            WireType::Float32
        } else if code == 13 {
            WireType::Float64
        } else if code == 14 {
            WireType::Decimal32
        } else if code == 15 {
            WireType::Decimal64
        } else if code == 16 {
            WireType::Nat
        } else if code == 17 {
            WireType::Int
        } else if code == 18 {
            WireType::Bytes
        } else if code == 19 {
            WireType::String
        } else {
            if code == 20 {
                WireType::Symbol
            } else {
                WireType::List
            }
        }
    }

    /// The on-wire code of this wire type, for storage in a header byte.
    pub fn code(self) -> (c: u8)
        ensures
            c == self.code_spec(),
            WIRE_TYPE_MIN <= c <= WIRE_TYPE_MAX,
            WireType::from_code_spec(c) == self,
    {
        match self {
            WireType::Null => 1,
            WireType::BoolFalse => 2,
            WireType::BoolTrue => 3,
            WireType::Nat8 => 4,
            WireType::Nat16 => 5,
            WireType::Nat32 => 6,
            WireType::Nat64 => 7,
            WireType::Int8 => 8,
            WireType::Int16 => 9,
            WireType::Int32 => 10,
            WireType::Int64 => 11,
            WireType::Float32 => 12,
            WireType::Float64 => 13,
            WireType::Decimal32 => 14,
            WireType::Decimal64 => 15,
            WireType::Nat => 16,
            WireType::Int => 17,
            WireType::Bytes => 18,
            WireType::String => 19,
            WireType::Symbol => 20,
            WireType::List => 21,
        }
    }

    /// Looks a code up in the table; codes outside `[1, 21]` denote nothing.
    pub fn from_code(code: u8) -> (r: Option<WireType>)
        ensures
            match r {
                Some(wt) => {
                    &&& WIRE_TYPE_MIN <= code <= WIRE_TYPE_MAX
                    &&& wt == WireType::from_code_spec(code)
                    &&& wt.code_spec() == code
                },
                None => code < WIRE_TYPE_MIN || code > WIRE_TYPE_MAX,
            },
    {
        match code {
            1 => Some(WireType::Null),
            2 => Some(WireType::BoolFalse),
            3 => Some(WireType::BoolTrue),
            4 => Some(WireType::Nat8),
            5 => Some(WireType::Nat16),
            6 => Some(WireType::Nat32),
            7 => Some(WireType::Nat64),
            8 => Some(WireType::Int8),
            9 => Some(WireType::Int16),
            10 => Some(WireType::Int32),
            11 => Some(WireType::Int64),
            12 => Some(WireType::Float32),
            13 => Some(WireType::Float64),
            14 => Some(WireType::Decimal32),
            15 => Some(WireType::Decimal64),
            16 => Some(WireType::Nat),
            17 => Some(WireType::Int),
            18 => Some(WireType::Bytes),
            19 => Some(WireType::String),
            20 => Some(WireType::Symbol),
            21 => Some(WireType::List),
            _ => None,
        }
    }
}

} // verus!
