//! The dynamic value type.
use crate::binary::bin_bytes;
use crate::mapping::ObjMap;
use crate::model::{class, Raw, Val};
use serde::bytes::ByteBuf;
use vstd::prelude::*;

verus! {

/// A generic object that can hold any value of a self-describing format.
///
/// The important aspect of this generic object enum is that it can consume all
/// possible values and does not expect any specific types. This makes it
/// possible to decode data first and interpret it later.
///
/// Equality, order and hashing go by the value that an object denotes (see
/// [`Obj::val`]), not by how it is stored: a `Signed` object that is not
/// negative is the same value as the `Unsigned` object of the same magnitude,
/// and every NaN is the same value. The variant that was stored is kept for
/// matching and for replaying the object.
#[derive(Debug)]
pub enum Obj {
    /// `None` / `null` / `nil`
    Null,
    /// Boolean value
    Bool(bool),
    /// Signed integer
    Signed(i64),
    /// Unsigned integer
    Unsigned(u64),
    /// Floating-point value, as its IEEE-754 binary64 bit pattern
    Float(u64),
    /// Utf-8 string
    Str(String),
    /// Byte sequence
    Bin(ByteBuf),
    /// List / tuple / sequence
    List(Vec<Obj>),
    /// Mapping / object
    Mapping(ObjMap),
}

impl View for Obj {
    type V = Raw;

    open spec fn view(&self) -> Raw
        decreases self,
    {
        match *self {
            Obj::Null => Raw::Null,
            Obj::Bool(b) => Raw::Bool(b),
            Obj::Signed(n) => Raw::Signed(n),
            Obj::Unsigned(n) => Raw::Unsigned(n),
            Obj::Float(bits) => Raw::Float(bits),
            Obj::Str(s) => Raw::Str(vstd::utf8::encode_utf8(s@)),
            Obj::Bin(b) => Raw::Bin(bin_bytes(b)),
            Obj::List(items) => Raw::List(view_list(items@)),
            Obj::Mapping(m) => Raw::Mapping(m.view()),
        }
    }
}

/// The stored forms of the items of a list.
pub open spec fn view_list(items: Seq<Obj>) -> Seq<Raw>
    decreases items,
{
    Seq::new(
        items.len(),
        |i: int|
            if 0 <= i < items.len() {
                items[i].view()
            } else {
                Raw::Null
            },
    )
}

/// The stored forms of the keys and values of the entries of a mapping.
pub open spec fn view_entries(entries: Seq<(Obj, Obj)>) -> Seq<(Raw, Raw)>
    decreases entries,
{
    Seq::new(
        entries.len(),
        |i: int|
            if 0 <= i < entries.len() {
                (entries[i].0.view(), entries[i].1.view())
            } else {
                (Raw::Null, Raw::Null)
            },
    )
}

impl Obj {
    /// The canonical value that the object denotes.
    pub open spec fn val(&self) -> Val {
        self@.canon()
    }

    /// The ordinal class of the object, by which objects of different kinds
    /// are ordered.
    pub fn type_num(&self) -> (n: u8)
        ensures
            n == class(self.val()),
    {
        match self {
            Obj::Null => 0,
            Obj::Bool(_) => 1,
            Obj::Signed(v) => if *v < 0 { 2 } else { 3 },
            Obj::Unsigned(_) => 3,
            Obj::Float(_) => 4,
            Obj::Str(_) => 5,
            Obj::Bin(_) => 6,
            Obj::List(_) => 7,
            Obj::Mapping(_) => 8,
        }
    }

    /// A copy of the object, with the same stored form.
    pub fn duplicate(&self) -> (r: Obj)
        ensures
            r@ == self@,
        decreases self,
    {
        match self {
            Obj::Null => Obj::Null,
            Obj::Bool(v) => Obj::Bool(*v),
            Obj::Signed(v) => Obj::Signed(*v),
            Obj::Unsigned(v) => Obj::Unsigned(*v),
            Obj::Float(v) => Obj::Float(*v),
            Obj::Str(v) => Obj::Str(v.clone()),
            Obj::Bin(v) => Obj::Bin(v.clone()),
            Obj::List(items) => {
                let mut copies: Vec<Obj> = Vec::new();
                let mut i: usize = 0;
                while i < items.len()
                    invariant
                        i <= items.len(),
                        copies.len() == i,
                        forall|j: int| 0 <= j < i ==> copies@[j]@ == items@[j]@,
                        self == Obj::List(*items),
                    decreases items.len() - i,
                {
                    assert(decreases_to!(self => self->List_0));
                    copies.push(items[i].duplicate());
                    i += 1;
                }
                assert(view_list(copies@) =~= view_list(items@));
                Obj::List(copies)
            },
            Obj::Mapping(m) => Obj::Mapping(m.duplicate()),
        }
    }
}

impl Clone for Obj {
    /// A copy of the object, with the same stored form.
    fn clone(&self) -> (r: Obj)
        ensures
            r@ == self@,
    {
        self.duplicate()
    }
}

impl Default for Obj {
    /// The unit value.
    fn default() -> (r: Obj)
        ensures
            r == Obj::Null,
    {
        Obj::Null
    }
}

} // verus!
