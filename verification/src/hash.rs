//! Hashing: the byte stream that an object feeds to a hasher.
use crate::binary::bin_as_slice;
use crate::mapping::ObjMap;
use crate::model::{canon_list, class, float_rank, Val};
use crate::value::{view_list, Obj};
use core::hash::Hasher;
use std::collections::hash_map::DefaultHasher;
use vstd::std_specs::hash::DefaultHasherAdditionalSpecFns;
use vstd::prelude::*;

verus! {

/// The eight bytes of a 64-bit word, the most significant first.
pub open spec fn word_bytes(w: u64) -> Seq<u8> {
    seq![
        (w / 0x0100_0000_0000_0000) as u8,
        (w / 0x0001_0000_0000_0000 % 256) as u8,
        (w / 0x0000_0100_0000_0000 % 256) as u8,
        (w / 0x0000_0001_0000_0000 % 256) as u8,
        (w / 0x0000_0000_0100_0000 % 256) as u8,
        (w / 0x0000_0000_0001_0000 % 256) as u8,
        (w / 0x0000_0000_0000_0100 % 256) as u8,
        (w % 256) as u8,
    ]
}

/// The word that stands for an integer in the hash stream: the integer itself
/// where it is not negative, its two's complement where it is.
pub open spec fn int_word(i: int) -> u64 {
    if i < 0 {
        (i + 0x1_0000_0000_0000_0000) as u64
    } else {
        i as u64
    }
}

/// The word that stands for a float in the hash stream, from its rank: the
/// bit pattern of the float, with one pattern for every NaN and one for both
/// zeros.
pub open spec fn float_word(rank: int) -> u64 {
    if rank > 0x7FF0_0000_0000_0000 {
        0x7FF8_0000_0000_0000
    } else if rank >= 0 {
        rank as u64
    } else {
        (0x8000_0000_0000_0000 - rank) as u64
    }
}

/// The bytes that a value feeds to a hasher: the byte of its class, then its
/// payload. Numbers are one word; text, blobs, lists and mappings are their
/// length as a word, then their content in order.
pub open spec fn hash_stream(v: Val) -> Seq<u8>
    decreases v, 0nat,
{
    seq![class(v) as u8] + match v {
        Val::Null => Seq::empty(),
        Val::Bool(b) => seq![if b { 1u8 } else { 0u8 }],
        Val::Int(i) => word_bytes(int_word(i)),
        Val::Float(r) => word_bytes(float_word(r)),
        Val::Str(s) => word_bytes(s.len() as u64) + s,
        Val::Bin(s) => word_bytes(s.len() as u64) + s,
        Val::List(x) => word_bytes(x.len() as u64) + list_stream(x, x.len()),
        Val::Mapping(x) => word_bytes(x.len() as u64) + entries_stream(x, x.len()),
    }
}

/// The hash streams of the first `n` items of a list, one after the other.
pub open spec fn list_stream(x: Seq<Val>, n: nat) -> Seq<u8>
    decreases x, n,
{
    if n == 0 || n > x.len() {
        Seq::empty()
    } else {
        list_stream(x, (n - 1) as nat) + hash_stream(x[n - 1])
    }
}

/// The hash streams of the first `n` entries of a mapping, each key before
/// its value.
pub open spec fn entries_stream(x: Seq<(Val, Val)>, n: nat) -> Seq<u8>
    decreases x, n,
{
    if n == 0 || n > x.len() {
        Seq::empty()
    } else {
        entries_stream(x, (n - 1) as nat) + hash_stream(x[n - 1].0) + hash_stream(x[n - 1].1)
    }
}

/// Appends the eight bytes of `w`, the most significant first.
fn push_word(out: &mut Vec<u8>, w: u64)
    ensures
        final(out)@ == old(out)@ + word_bytes(w),
{
    out.push((w / 0x0100_0000_0000_0000) as u8);
    out.push((w / 0x0001_0000_0000_0000 % 256) as u8);
    out.push((w / 0x0000_0100_0000_0000 % 256) as u8);
    out.push((w / 0x0000_0001_0000_0000 % 256) as u8);
    out.push((w / 0x0000_0000_0100_0000 % 256) as u8);
    out.push((w / 0x0000_0000_0001_0000 % 256) as u8);
    out.push((w / 0x0000_0000_0000_0100 % 256) as u8);
    out.push((w % 256) as u8);
}

/// Appends `bytes`.
fn push_bytes(out: &mut Vec<u8>, bytes: &[u8])
    ensures
        final(out)@ == old(out)@ + bytes@,
{
    let mut i: usize = 0;
    while i < bytes.len()
        invariant
            i <= bytes.len(),
            out@ == old(out)@ + bytes@.take(i as int),
        decreases bytes.len() - i,
    {
        out.push(bytes[i]);
        i += 1;
    }
}

/// The word that stands in the hash stream for a signed integer.
fn signed_word(v: i64) -> (w: u64)
    ensures
        w == int_word(v as int),
{
    if v < 0 {
        u64::MAX - (-(v + 1)) as u64
    } else {
        v as u64
    }
}

/// The word that stands in the hash stream for the float with the given bit
/// pattern.
fn float_hash_word(bits: u64) -> (w: u64)
    ensures
        w == float_word(float_rank(bits)),
{
    let negative = bits >= 0x8000_0000_0000_0000;
    let magnitude: u64 = if negative {
        bits - 0x8000_0000_0000_0000
    } else {
        bits
    };
    if magnitude > 0x7FF0_0000_0000_0000 {
        0x7FF8_0000_0000_0000
    } else if magnitude == 0 {
        0
    } else {
        bits
    }
}

impl Obj {
    /// Appends to `out` the bytes that the object feeds to a hasher.
    pub fn hash_into(&self, out: &mut Vec<u8>)
        ensures
            final(out)@ == old(out)@ + hash_stream(self.val()),
        decreases self,
    {
        out.push(self.type_num());
        match self {
            Obj::Null => {},
            Obj::Bool(v) => {
                out.push(
                    if *v {
                        1
                    } else {
                        0
                    },
                );
            },
            Obj::Signed(v) => push_word(out, signed_word(*v)),
            Obj::Unsigned(v) => push_word(out, *v),
            Obj::Float(v) => push_word(out, float_hash_word(*v)),
            Obj::Str(v) => {
                let bytes = v.as_str().as_bytes();
                push_word(out, bytes.len() as u64);
                push_bytes(out, bytes);
            },
            Obj::Bin(v) => {
                let bytes = bin_as_slice(v);
                push_word(out, bytes.len() as u64);
                push_bytes(out, bytes);
            },
            Obj::List(items) => {
                let ghost x = canon_list(view_list(items@));
                push_word(out, items.len() as u64);
                let ghost head = out@;
                let mut i: usize = 0;
                while i < items.len()
                    invariant
                        i <= items.len(),
                        x.len() == items.len(),
                        forall|j: int|
                            0 <= j < items.len() ==> x[j] == (#[trigger] items@[j]).val(),
                        out@ == head + list_stream(x, i as nat),
                        self == Obj::List(*items),
                    decreases items.len() - i,
                {
                    assert(decreases_to!(self => self->List_0));
                    items[i].hash_into(out);
                    i += 1;
                }
            },
            Obj::Mapping(m) => m.hash_into(out),
        }
    }

    /// The bytes that the object feeds to a hasher. Objects that are equal
    /// feed the same bytes.
    pub fn hash_bytes(&self) -> (bytes: Vec<u8>)
        ensures
            bytes@ == hash_stream(self.val()),
    {
        let mut bytes: Vec<u8> = Vec::new();
        self.hash_into(&mut bytes);
        bytes
    }

    /// The hash of the object under the standard hasher, fed the hash stream
    /// in one write. Objects that are equal have the same hash.
    pub fn hash_code(&self) -> (h: u64)
        ensures
            h == DefaultHasher::spec_finish(seq![hash_stream(self.val())]),
    {
        let bytes = self.hash_bytes();
        let mut state = DefaultHasher::new();
        state.write(bytes.as_slice());
        assert(state@ =~= seq![hash_stream(self.val())]);
        state.finish()
    }
}

impl ObjMap {
    /// Appends to `out` the length of the mapping as a word, then the hash
    /// stream of each key and of its value, in stored order.
    pub fn hash_into(&self, out: &mut Vec<u8>)
        ensures
            final(out)@ == old(out)@ + (word_bytes(self.vals().len() as u64) + entries_stream(
                self.vals(),
                self.vals().len(),
            )),
        decreases self,
    {
        let ghost x = self.vals();
        proof {
            self.lemma_view();
        }
        push_word(out, self.entries.len() as u64);
        let ghost head = out@;
        let mut i: usize = 0;
        while i < self.entries.len()
            invariant
                i <= self.entries.len(),
                x.len() == self.entries.len(),
                forall|j: int|
                    0 <= j < self.entries.len() ==> x[j] == (
                        (#[trigger] self.entries@[j]).0.val(),
                        self.entries@[j].1.val(),
                    ),
                out@ == head + entries_stream(x, i as nat),
            decreases self.entries.len() - i,
        {
            self.entries[i].0.hash_into(out);
            self.entries[i].1.hash_into(out);
            i += 1;
        }
    }
}

/// `Hasher::write`, which feeds bytes to a hasher of any kind. Nothing is
/// claimed of the state that it leaves.
#[verifier::external_body]
fn feed<H: Hasher>(state: &mut H, bytes: &[u8]) {
    state.write(bytes)
}

impl core::hash::Hash for Obj {
    /// Feeds the hash stream of the object to `state`, in one write.
    fn hash<H: Hasher>(&self, state: &mut H) {
        let bytes = self.hash_bytes();
        feed(state, bytes.as_slice());
    }
}

} // verus!
