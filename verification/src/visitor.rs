//! The build and emit protocols: from a stream of events to an object, and
//! back.
use crate::binary::{bin_as_slice, bin_from_vec, copy_bytes};
use crate::event::{
    emit, emit_entries, emit_list, parse, parse_all, parse_entries, parse_items, toks, DecodeError,
    Event,
};
use crate::laws::law_built_well_formed;
use crate::mapping::ObjMap;
use crate::model::Raw;
use crate::value::{view_entries, view_list, Obj};
use vstd::prelude::*;

verus! {

/// What a decode step returned, as mathematical values.
pub open spec fn outcome(r: Result<(Obj, usize), DecodeError>) -> Result<(Raw, nat), DecodeError> {
    match r {
        Ok((o, next)) => Ok((o@, next as nat)),
        Err(e) => Err(e),
    }
}

/// What a decode returned, as a mathematical value.
pub open spec fn built(r: Result<Obj, DecodeError>) -> Result<Raw, DecodeError> {
    match r {
        Ok(o) => Ok(o@),
        Err(e) => Err(e),
    }
}

/// The most items for which room is made before any of them has arrived.
pub const MAX_PREALLOCATED: usize = 4096;

/// The room to make for a container whose begin event hints at `hint` items:
/// as much as the hint asks for, up to `MAX_PREALLOCATED` and no more.
fn room(hint: usize) -> (n: usize)
    ensures
        n == (if hint < MAX_PREALLOCATED {
            hint
        } else {
            MAX_PREALLOCATED
        }),
{
    if hint < MAX_PREALLOCATED {
        hint
    } else {
        MAX_PREALLOCATED
    }
}

/// The adapter that folds decode events into objects. It holds no state.
pub struct GenericVisitor;

impl GenericVisitor {
    /// The object for an absent value.
    pub fn visit_none(&self) -> (o: Obj)
        ensures
            o == Obj::Null,
    {
        Obj::Null
    }

    /// The object for the unit value.
    pub fn visit_unit(&self) -> (o: Obj)
        ensures
            o == Obj::Null,
    {
        Obj::Null
    }

    /// The object for a truth value.
    pub fn visit_bool(&self, val: bool) -> (o: Obj)
        ensures
            o == Obj::Bool(val),
    {
        Obj::Bool(val)
    }

    /// The object for an unsigned integer.
    pub fn visit_u64(&self, val: u64) -> (o: Obj)
        ensures
            o == Obj::Unsigned(val),
    {
        Obj::Unsigned(val)
    }

    /// The object for a signed integer; it stays signed.
    pub fn visit_i64(&self, val: i64) -> (o: Obj)
        ensures
            o == Obj::Signed(val),
    {
        Obj::Signed(val)
    }

    /// The object for a float, given as its bit pattern.
    pub fn visit_f64(&self, bits: u64) -> (o: Obj)
        ensures
            o == Obj::Float(bits),
    {
        Obj::Float(bits)
    }

    /// The object for borrowed text: it owns a copy.
    pub fn visit_str(&self, val: &str) -> (o: Obj)
        ensures
            o@ == Raw::Str(vstd::utf8::encode_utf8(val@)),
    {
        Obj::Str(val.to_owned())
    }

    /// The object for owned text.
    pub fn visit_string(&self, val: String) -> (o: Obj)
        ensures
            o == Obj::Str(val),
    {
        Obj::Str(val)
    }

    /// The object for borrowed bytes: it owns a copy.
    pub fn visit_bytes(&self, val: &[u8]) -> (o: Obj)
        ensures
            o@ == Raw::Bin(val@),
    {
        Obj::Bin(bin_from_vec(copy_bytes(val)))
    }

    /// The object for owned bytes.
    pub fn visit_byte_buf(&self, val: Vec<u8>) -> (o: Obj)
        ensures
            o@ == Raw::Bin(val@),
    {
        Obj::Bin(bin_from_vec(val))
    }

    /// Decodes the value that starts at `pos`, opening at most `depth`
    /// containers inside one another, and returns it with the position after
    /// its last event.
    pub fn visit(&self, events: &Vec<Event>, pos: usize, depth: usize) -> (r: Result<
        (Obj, usize),
        DecodeError,
    >)
        ensures
            outcome(r) == parse(toks(events@), pos as nat, depth as nat),
            r matches Ok((_, next)) ==> pos < next <= events.len(),
        decreases depth, 0nat,
    {
        if pos >= events.len() {
            return Err(DecodeError::MalformedInput);
        }
        match &events[pos] {
            Event::Null => Ok((self.visit_none(), pos + 1)),
            Event::Bool(v) => Ok((self.visit_bool(*v), pos + 1)),
            Event::Unsigned(v) => Ok((self.visit_u64(*v), pos + 1)),
            Event::Signed(v) => Ok((self.visit_i64(*v), pos + 1)),
            Event::Float(v) => Ok((self.visit_f64(*v), pos + 1)),
            Event::Str(v) => Ok((self.visit_str(v.as_str()), pos + 1)),
            Event::Bytes(v) => Ok((self.visit_bytes(v.as_slice()), pos + 1)),
            Event::SeqBegin(hint) => {
                if depth == 0 {
                    Err(DecodeError::NestingTooDeep)
                } else {
                    self.visit_seq(events, pos + 1, depth - 1, *hint)
                }
            },
            Event::MapBegin(_) => {
                if depth == 0 {
                    Err(DecodeError::NestingTooDeep)
                } else {
                    self.visit_map(events, pos + 1, depth - 1)
                }
            },
            Event::SeqEnd => Err(DecodeError::MalformedInput),
            Event::MapEnd => Err(DecodeError::MalformedInput),
        }
    }

    /// Decodes the items of a sequence whose begin event stands just before
    /// `start`, up to its end event. Room is made for at most
    /// `MAX_PREALLOCATED` items ahead of their arrival, whatever `hint` says.
    pub fn visit_seq(
        &self,
        events: &Vec<Event>,
        start: usize,
        depth: usize,
        hint: usize,
    ) -> (r: Result<(Obj, usize), DecodeError>)
        ensures
            outcome(r) == parse_items(
                toks(events@),
                start as nat,
                depth as nat,
                Seq::<Raw>::empty(),
            ),
            r matches Ok((_, next)) ==> start < next <= events.len(),
        decreases depth, 1nat,
    {
        let ghost s = toks(events@);
        if start > events.len() {
            return Err(DecodeError::MalformedInput);
        }
        let mut list: Vec<Obj> = Vec::with_capacity(room(hint));
        let mut pos = start;
        assert(view_list(list@) =~= Seq::<Raw>::empty());
        loop
            invariant
                start <= pos <= events.len(),
                s == toks(events@),
                parse_items(s, start as nat, depth as nat, Seq::<Raw>::empty()) == parse_items(
                    s,
                    pos as nat,
                    depth as nat,
                    view_list(list@),
                ),
            decreases events.len() - pos,
        {
            if pos >= events.len() {
                return Err(DecodeError::MalformedInput);
            }
            if let Event::SeqEnd = &events[pos] {
                return Ok((Obj::List(list), pos + 1));
            }
            match self.visit(events, pos, depth) {
                Ok((item, next)) => {
                    let ghost before = view_list(list@);
                    list.push(item);
                    assert(view_list(list@) =~= before.push(item@));
                    pos = next;
                },
                Err(e) => {
                    return Err(e);
                },
            }
        }
    }

    /// Decodes the entries of a mapping whose begin event stands just before
    /// `start`, up to its end event. An entry whose key equals an earlier one
    /// replaces that entry's value.
    pub fn visit_map(&self, events: &Vec<Event>, start: usize, depth: usize) -> (r: Result<
        (Obj, usize),
        DecodeError,
    >)
        ensures
            outcome(r) == parse_entries(
                toks(events@),
                start as nat,
                depth as nat,
                Seq::<(Raw, Raw)>::empty(),
            ),
            r matches Ok((_, next)) ==> start < next <= events.len(),
        decreases depth, 1nat,
    {
        let ghost s = toks(events@);
        if start > events.len() {
            return Err(DecodeError::MalformedInput);
        }
        let mut map = ObjMap::new();
        let mut pos = start;
        loop
            invariant
                start <= pos <= events.len(),
                s == toks(events@),
                parse_entries(s, start as nat, depth as nat, Seq::<(Raw, Raw)>::empty())
                    == parse_entries(s, pos as nat, depth as nat, map@),
            decreases events.len() - pos,
        {
            if pos >= events.len() {
                return Err(DecodeError::MalformedInput);
            }
            if let Event::MapEnd = &events[pos] {
                return Ok((Obj::Mapping(map), pos + 1));
            }
            let (key, mid) = match self.visit(events, pos, depth) {
                Ok(decoded) => decoded,
                Err(e) => {
                    return Err(e);
                },
            };
            let (value, next) = match self.visit(events, mid, depth) {
                Ok(decoded) => decoded,
                Err(e) => {
                    return Err(e);
                },
            };
            map.insert(key, value);
            pos = next;
        }
    }
}

/// Appends one event.
fn push_event(out: &mut Vec<Event>, event: Event)
    ensures
        toks(final(out)@) == toks(old(out)@) + seq![event@],
{
    out.push(event);
}

impl Obj {
    /// Builds the object that a whole stream of events describes. Containers
    /// may be nested `max_depth` deep and no deeper. In what is built the keys
    /// of every mapping ascend.
    pub fn build(events: &Vec<Event>, max_depth: usize) -> (r: Result<Obj, DecodeError>)
        ensures
            built(r) == parse_all(toks(events@), max_depth as nat),
            r matches Ok(o) ==> o@.wf() && o@.within(max_depth as nat),
    {
        proof {
            law_built_well_formed(toks(events@), max_depth as nat);
        }
        match GenericVisitor.visit(events, 0, max_depth) {
            Ok((o, next)) => {
                if next == events.len() {
                    Ok(o)
                } else {
                    Err(DecodeError::MalformedInput)
                }
            },
            Err(e) => Err(e),
        }
    }

    /// The events that replay the object. The keys of every mapping in the
    /// object ascend, as they do in every object that was made by this
    /// library, so that building from the events gives the object back.
    pub fn emit(&self) -> (events: Vec<Event>)
        ensures
            toks(events@) == emit(self@),
            self@.wf(),
    {
        let mut events: Vec<Event> = Vec::new();
        self.emit_into(&mut events);
        events
    }

    /// Appends the events that replay the object.
    pub fn emit_into(&self, out: &mut Vec<Event>)
        ensures
            toks(final(out)@) == toks(old(out)@) + emit(self@),
            self@.wf(),
        decreases self,
    {
        match self {
            Obj::Null => push_event(out, Event::Null),
            Obj::Bool(v) => push_event(out, Event::Bool(*v)),
            Obj::Signed(v) => push_event(out, Event::Signed(*v)),
            Obj::Unsigned(v) => push_event(out, Event::Unsigned(*v)),
            Obj::Float(v) => push_event(out, Event::Float(*v)),
            Obj::Str(v) => push_event(out, Event::Str(v.clone())),
            Obj::Bin(v) => push_event(out, Event::Bytes(copy_bytes(bin_as_slice(v)))),
            Obj::List(items) => {
                let ghost x = view_list(items@);
                push_event(out, Event::SeqBegin(items.len()));
                let ghost head = toks(out@);
                let mut i: usize = 0;
                while i < items.len()
                    invariant
                        i <= items.len(),
                        x == view_list(items@),
                        toks(out@) == head + emit_list(x, i as nat),
                        forall|j: int| 0 <= j < i ==> (#[trigger] x[j]).wf(),
                        self == Obj::List(*items),
                    decreases items.len() - i,
                {
                    assert(decreases_to!(self => self->List_0));
                    items[i].emit_into(out);
                    i += 1;
                }
                push_event(out, Event::SeqEnd);
            },
            Obj::Mapping(m) => m.emit_into(out),
        }
    }
}

impl ObjMap {
    /// Appends the events that replay the mapping: its begin event, each key
    /// followed by its value in stored order, and its end event.
    pub fn emit_into(&self, out: &mut Vec<Event>)
        ensures
            toks(final(out)@) == toks(old(out)@) + emit(Raw::Mapping(self@)),
            Raw::Mapping(self@).wf(),
        decreases self,
    {
        let ghost x = self@;
        proof {
            self.lemma_view();
        }
        push_event(out, Event::MapBegin(self.len()));
        let ghost head = toks(out@);
        let mut i: usize = 0;
        while i < self.entries.len()
            invariant
                i <= self.entries.len(),
                x == view_entries(self.entries@),
                toks(out@) == head + emit_entries(x, i as nat),
                forall|j: int| 0 <= j < i ==> (#[trigger] x[j]).0.wf() && x[j].1.wf(),
            decreases self.entries.len() - i,
        {
            self.entries[i].0.emit_into(out);
            self.entries[i].1.emit_into(out);
            i += 1;
        }
        push_event(out, Event::MapEnd);
    }
}

/// Finds the known discriminant that equals `discriminant` and returns its
/// position, the first one where several are equal. Where none is equal the
/// discriminant is handed back in the error.
pub fn select_variant(discriminant: Obj, known: &Vec<Obj>) -> (r: Result<usize, DecodeError>)
    ensures
        match r {
            Ok(i) => i < known.len() && known[i as int].val() == discriminant.val() && forall|
                j: int,
            |
                0 <= j < i ==> (#[trigger] known[j]).val() != discriminant.val(),
            Err(e) => e == DecodeError::UnknownVariant(discriminant) && forall|j: int|
                0 <= j < known.len() ==> (#[trigger] known[j]).val() != discriminant.val(),
        },
{
    let mut i: usize = 0;
    while i < known.len()
        invariant
            i <= known.len(),
            forall|j: int| 0 <= j < i ==> (#[trigger] known[j]).val() != discriminant.val(),
        decreases known.len() - i,
    {
        if known[i] == discriminant {
            return Ok(i);
        }
        i += 1;
    }
    Err(DecodeError::UnknownVariant(discriminant))
}

} // verus!
