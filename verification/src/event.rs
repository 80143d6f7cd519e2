//! The event vocabulary of the build and emit protocols, and what a stream
//! of events decodes to.
use crate::mapping::{keys_ascend, put_all, raw_put};
use crate::model::{canon_entries, Raw};
use crate::value::Obj;
use vstd::prelude::*;

verus! {

/// One primitive event of a decoder or for an encoder.
#[derive(Debug, PartialEq, Eq)]
pub enum Event {
    /// The unit value.
    Null,
    /// A truth value.
    Bool(bool),
    /// An unsigned integer.
    Unsigned(u64),
    /// A signed integer.
    Signed(i64),
    /// A float, as its IEEE-754 binary64 bit pattern.
    Float(u64),
    /// Text.
    Str(String),
    /// A byte blob.
    Bytes(Vec<u8>),
    /// The start of a sequence, with a hint of its length.
    SeqBegin(usize),
    /// The end of a sequence.
    SeqEnd,
    /// The start of a mapping, with a hint of the number of its entries.
    MapBegin(usize),
    /// The end of a mapping.
    MapEnd,
}

/// An event as a mathematical value: text and blobs are byte sequences.
pub enum Tok {
    /// The unit value.
    Null,
    /// A truth value.
    Bool(bool),
    /// An unsigned integer.
    Unsigned(u64),
    /// A signed integer.
    Signed(i64),
    /// A float, as its bit pattern.
    Float(u64),
    /// Text, as its UTF-8 bytes.
    Str(Seq<u8>),
    /// A byte blob.
    Bytes(Seq<u8>),
    /// The start of a sequence, with a hint of its length.
    SeqBegin(usize),
    /// The end of a sequence.
    SeqEnd,
    /// The start of a mapping, with a hint of the number of its entries.
    MapBegin(usize),
    /// The end of a mapping.
    MapEnd,
}

impl View for Event {
    type V = Tok;

    open spec fn view(&self) -> Tok {
        match *self {
            Event::Null => Tok::Null,
            Event::Bool(v) => Tok::Bool(v),
            Event::Unsigned(v) => Tok::Unsigned(v),
            Event::Signed(v) => Tok::Signed(v),
            Event::Float(v) => Tok::Float(v),
            Event::Str(v) => Tok::Str(vstd::utf8::encode_utf8(v@)),
            Event::Bytes(v) => Tok::Bytes(v@),
            Event::SeqBegin(n) => Tok::SeqBegin(n),
            Event::SeqEnd => Tok::SeqEnd,
            Event::MapBegin(n) => Tok::MapBegin(n),
            Event::MapEnd => Tok::MapEnd,
        }
    }
}

impl Tok {
    /// The event without its hint: a begin event hints at a length, which a
    /// decoder does not take for true.
    pub open spec fn plain(self) -> Tok {
        match self {
            Tok::SeqBegin(_) => Tok::SeqBegin(0),
            Tok::MapBegin(_) => Tok::MapBegin(0),
            _ => self,
        }
    }
}

/// Whether two streams are the same but for the hints of their begin events.
pub open spec fn alike(a: Seq<Tok>, b: Seq<Tok>) -> bool {
    a.len() == b.len() && forall|i: int|
        0 <= i < a.len() ==> (#[trigger] a[i]).plain() == b[i].plain()
}

/// The events of a stream as mathematical values.
pub open spec fn toks(events: Seq<Event>) -> Seq<Tok> {
    events.map_values(|e: Event| e@)
}

/// Why a decode failed.
#[derive(Debug, PartialEq, Eq)]
pub enum DecodeError {
    /// The events do not form a value: the stream ends early, a container is
    /// closed that was not opened, a key has no value, or events follow the
    /// value.
    MalformedInput,
    /// The value is nested deeper than the ceiling allows.
    NestingTooDeep,
    /// A discriminant matches none of the known variants; it is handed back.
    UnknownVariant(Obj),
}

/// The events that replay a stored object: a scalar is one event; a list is
/// its begin event, its items in order and its end event; a mapping is its
/// begin event, each key followed by its value in stored order, and its end
/// event. A begin event hints at the number of items or entries.
pub open spec fn emit(r: Raw) -> Seq<Tok>
    decreases r, 0nat,
{
    match r {
        Raw::Null => seq![Tok::Null],
        Raw::Bool(v) => seq![Tok::Bool(v)],
        Raw::Signed(v) => seq![Tok::Signed(v)],
        Raw::Unsigned(v) => seq![Tok::Unsigned(v)],
        Raw::Float(v) => seq![Tok::Float(v)],
        Raw::Str(v) => seq![Tok::Str(v)],
        Raw::Bin(v) => seq![Tok::Bytes(v)],
        Raw::List(items) => seq![Tok::SeqBegin(items.len() as usize)] + emit_list(
            items,
            items.len(),
        ) + seq![Tok::SeqEnd],
        Raw::Mapping(entries) => seq![Tok::MapBegin(entries.len() as usize)] + emit_entries(
            entries,
            entries.len(),
        ) + seq![Tok::MapEnd],
    }
}

/// The events of the first `n` items of a list.
pub open spec fn emit_list(items: Seq<Raw>, n: nat) -> Seq<Tok>
    decreases items, n,
{
    if n == 0 || n > items.len() {
        Seq::empty()
    } else {
        emit_list(items, (n - 1) as nat) + emit(items[n - 1])
    }
}

/// The events of the first `n` entries of a mapping.
pub open spec fn emit_entries(entries: Seq<(Raw, Raw)>, n: nat) -> Seq<Tok>
    decreases entries, n,
{
    if n == 0 || n > entries.len() {
        Seq::empty()
    } else {
        emit_entries(entries, (n - 1) as nat) + emit(entries[n - 1].0) + emit(entries[n - 1].1)
    }
}

/// What decoding one value at `pos` gives: the stored object and the position
/// after its last event, or the first failure met. `depth` is the number of
/// containers that may still be opened.
pub open spec fn parse(s: Seq<Tok>, pos: nat, depth: nat) -> Result<(Raw, nat), DecodeError>
    decreases s.len() - pos, 1nat,
{
    if pos >= s.len() {
        Err(DecodeError::MalformedInput)
    } else {
        match s[pos as int] {
            Tok::Null => Ok((Raw::Null, pos + 1)),
            Tok::Bool(v) => Ok((Raw::Bool(v), pos + 1)),
            Tok::Unsigned(v) => Ok((Raw::Unsigned(v), pos + 1)),
            Tok::Signed(v) => Ok((Raw::Signed(v), pos + 1)),
            Tok::Float(v) => Ok((Raw::Float(v), pos + 1)),
            Tok::Str(v) => Ok((Raw::Str(v), pos + 1)),
            Tok::Bytes(v) => Ok((Raw::Bin(v), pos + 1)),
            Tok::SeqBegin(_) => if depth == 0 {
                Err(DecodeError::NestingTooDeep)
            } else {
                parse_items(s, pos + 1, (depth - 1) as nat, Seq::empty())
            },
            Tok::MapBegin(_) => if depth == 0 {
                Err(DecodeError::NestingTooDeep)
            } else {
                parse_entries(s, pos + 1, (depth - 1) as nat, Seq::empty())
            },
            Tok::SeqEnd => Err(DecodeError::MalformedInput),
            Tok::MapEnd => Err(DecodeError::MalformedInput),
        }
    }
}

/// What decoding the rest of a sequence at `pos` gives, `done` being the
/// items decoded so far: items are appended in arrival order up to the end
/// event.
pub open spec fn parse_items(s: Seq<Tok>, pos: nat, depth: nat, done: Seq<Raw>) -> Result<
    (Raw, nat),
    DecodeError,
>
    decreases s.len() - pos, 2nat,
{
    if pos >= s.len() {
        Err(DecodeError::MalformedInput)
    } else if s[pos as int] is SeqEnd {
        Ok((Raw::List(done), pos + 1))
    } else {
        match parse(s, pos, depth) {
            Ok((item, next)) => if pos < next <= s.len() {
                parse_items(s, next, depth, done.push(item))
            } else {
                Err(DecodeError::MalformedInput)
            },
            Err(e) => Err(e),
        }
    }
}

/// What decoding the rest of a mapping at `pos` gives, `done` being the
/// entries stored so far: each key is followed by its value, and an entry
/// whose key equals an earlier one replaces that entry's value.
pub open spec fn parse_entries(s: Seq<Tok>, pos: nat, depth: nat, done: Seq<(Raw, Raw)>) -> Result<
    (Raw, nat),
    DecodeError,
>
    decreases s.len() - pos, 2nat,
{
    if pos >= s.len() {
        Err(DecodeError::MalformedInput)
    } else if s[pos as int] is MapEnd {
        Ok((Raw::Mapping(done), pos + 1))
    } else {
        match parse(s, pos, depth) {
            Ok((key, mid)) => if pos < mid <= s.len() {
                match parse(s, mid, depth) {
                    Ok((value, next)) => if mid < next <= s.len() {
                        parse_entries(s, next, depth, raw_put(done, key, value))
                    } else {
                        Err(DecodeError::MalformedInput)
                    },
                    Err(e) => Err(e),
                }
            } else {
                Err(DecodeError::MalformedInput)
            },
            Err(e) => Err(e),
        }
    }
}

/// What decoding a whole stream gives: the one value that its events form.
/// Events after the value are a malformation.
pub open spec fn parse_all(s: Seq<Tok>, depth: nat) -> Result<Raw, DecodeError> {
    match parse(s, 0, depth) {
        Ok((r, next)) => if next == s.len() {
            Ok(r)
        } else {
            Err(DecodeError::MalformedInput)
        },
        Err(e) => Err(e),
    }
}

impl Raw {
    /// The object as a build stores it: lists keep their items in order, and
    /// the entries of every mapping are stored in turn, so that the keys
    /// ascend and the last value of a key is the one held.
    pub open spec fn normal(self) -> Raw
        decreases self,
    {
        match self {
            Raw::List(items) => Raw::List(normal_list(items)),
            Raw::Mapping(entries) => Raw::Mapping(
                put_all(Seq::empty(), normal_entries(entries), entries.len()),
            ),
            _ => self,
        }
    }

    /// Whether the object is nested no deeper than `depth` containers.
    pub open spec fn within(self, depth: nat) -> bool
        decreases self,
    {
        match self {
            Raw::List(items) => depth > 0 && forall|i: int|
                0 <= i < items.len() ==> (#[trigger] items[i]).within((depth - 1) as nat),
            Raw::Mapping(entries) => depth > 0 && forall|i: int|
                0 <= i < entries.len() ==> (#[trigger] entries[i]).0.within((depth - 1) as nat)
                    && entries[i].1.within((depth - 1) as nat),
            _ => true,
        }
    }

    /// Whether the keys of every mapping in the object ascend strictly.
    pub open spec fn wf(self) -> bool
        decreases self,
    {
        match self {
            Raw::List(items) => forall|i: int| 0 <= i < items.len() ==> (#[trigger] items[i]).wf(),
            Raw::Mapping(entries) => keys_ascend(canon_entries(entries)) && forall|i: int|
                0 <= i < entries.len() ==> (#[trigger] entries[i]).0.wf() && entries[i].1.wf(),
            _ => true,
        }
    }
}


/// The items of a list, each as a build stores it.
pub open spec fn normal_list(items: Seq<Raw>) -> Seq<Raw>
    decreases items,
{
    Seq::new(
        items.len(),
        |i: int|
            if 0 <= i < items.len() {
                items[i].normal()
            } else {
                Raw::Null
            },
    )
}

/// The entries of a mapping in their order, each key and value as a build
/// stores it.
pub open spec fn normal_entries(entries: Seq<(Raw, Raw)>) -> Seq<(Raw, Raw)>
    decreases entries,
{
    Seq::new(
        entries.len(),
        |i: int|
            if 0 <= i < entries.len() {
                (entries[i].0.normal(), entries[i].1.normal())
            } else {
                (Raw::Null, Raw::Null)
            },
    )
}

} // verus!
