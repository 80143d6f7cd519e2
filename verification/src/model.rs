//! The mathematical model of an object: its stored form, and the canonical
//! value that the stored form denotes.
use vstd::prelude::*;

verus! {

/// An object as it is stored: the variant of each number, the bits of each
/// float and the order of the entries of each mapping are kept.
pub enum Raw {
    /// The unit value.
    Null,
    /// A truth value.
    Bool(bool),
    /// An integer stored as signed.
    Signed(i64),
    /// An integer stored as unsigned.
    Unsigned(u64),
    /// A float, as its IEEE-754 binary64 bit pattern.
    Float(u64),
    /// Text, as its UTF-8 bytes.
    Str(Seq<u8>),
    /// A byte blob.
    Bin(Seq<u8>),
    /// An ordered list.
    List(Seq<Raw>),
    /// The entries of a mapping, in stored order.
    Mapping(Seq<(Raw, Raw)>),
}

/// What an object denotes once the representation of its numbers is forgotten.
///
/// Two objects are equal exactly when they denote the same `Val`.
pub enum Val {
    /// The unit value.
    Null,
    /// A truth value.
    Bool(bool),
    /// An integer, whichever variant stored it.
    Int(int),
    /// A float, held as its rank (see [`float_rank`]).
    Float(int),
    /// Text, as its UTF-8 bytes.
    Str(Seq<u8>),
    /// A byte blob.
    Bin(Seq<u8>),
    /// An ordered list.
    List(Seq<Val>),
    /// The entries of a mapping, in stored order.
    Mapping(Seq<(Val, Val)>),
}

/// The rank of a float among the floats, from its bit pattern.
///
/// Negative numbers rank below zero by their magnitude, both zeros rank 0,
/// positive numbers rank by their magnitude, and every NaN has the one rank
/// above positive infinity.
pub open spec fn float_rank(bits: u64) -> int {
    let magnitude = if bits >= 0x8000_0000_0000_0000 {
        bits - 0x8000_0000_0000_0000
    } else {
        bits as int
    };
    if magnitude > 0x7FF0_0000_0000_0000 {
        0x7FF0_0000_0000_0001
    } else if bits >= 0x8000_0000_0000_0000 {
        -magnitude
    } else {
        magnitude
    }
}

/// Whether the bit pattern is that of a NaN: all exponent bits set and a
/// fraction that is not zero.
pub open spec fn is_nan(bits: u64) -> bool {
    bits % 0x8000_0000_0000_0000 > 0x7FF0_0000_0000_0000
}

impl Raw {
    /// The canonical value that the stored object denotes.
    pub open spec fn canon(self) -> Val
        decreases self,
    {
        match self {
            Raw::Null => Val::Null,
            Raw::Bool(b) => Val::Bool(b),
            Raw::Signed(n) => Val::Int(n as int),
            Raw::Unsigned(n) => Val::Int(n as int),
            Raw::Float(bits) => Val::Float(float_rank(bits)),
            Raw::Str(s) => Val::Str(s),
            Raw::Bin(s) => Val::Bin(s),
            Raw::List(items) => Val::List(canon_list(items)),
            Raw::Mapping(entries) => Val::Mapping(canon_entries(entries)),
        }
    }
}

/// The canonical values of the items of a list.
pub open spec fn canon_list(items: Seq<Raw>) -> Seq<Val>
    decreases items,
{
    Seq::new(
        items.len(),
        |i: int|
            if 0 <= i < items.len() {
                items[i].canon()
            } else {
                Val::Null
            },
    )
}

/// The canonical values of the keys and values of the entries of a mapping.
pub open spec fn canon_entries(entries: Seq<(Raw, Raw)>) -> Seq<(Val, Val)>
    decreases entries,
{
    Seq::new(
        entries.len(),
        |i: int|
            if 0 <= i < entries.len() {
                (entries[i].0.canon(), entries[i].1.canon())
            } else {
                (Val::Null, Val::Null)
            },
    )
}

/// The ordinal class of a value: values of different classes are ordered by
/// class alone. From the first class to the last: the unit value, truth
/// values, negative integers, other integers, floats, text, blobs, lists and
/// mappings.
pub open spec fn class(v: Val) -> nat {
    match v {
        Val::Null => 0,
        Val::Bool(_) => 1,
        Val::Int(i) => if i < 0 { 2 } else { 3 },
        Val::Float(_) => 4,
        Val::Str(_) => 5,
        Val::Bin(_) => 6,
        Val::List(_) => 7,
        Val::Mapping(_) => 8,
    }
}

} // verus!
