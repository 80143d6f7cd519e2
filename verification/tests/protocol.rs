use serde::bytes::ByteBuf;
use serde_utils::{select_variant, DecodeError, Event, GenericVisitor, Obj, ObjMap};

fn text(value: &str) -> Obj {
    Obj::Str(value.to_string())
}

fn nested(depth: usize) -> Obj {
    let mut value = Obj::Null;
    for _ in 0..depth {
        value = Obj::List(vec![value]);
    }
    value
}

#[test]
fn a_nested_object_survives_the_round_trip() {
    let value = Obj::Mapping(ObjMap::from_pairs(vec![
        (text("list"), Obj::List(vec![Obj::Signed(-3), Obj::Unsigned(3), Obj::Signed(3)])),
        (Obj::Unsigned(7), Obj::Bin(ByteBuf::from(vec![0, 255, 7]))),
        (
            Obj::List(vec![Obj::Null]),
            Obj::Mapping(ObjMap::from_pairs(vec![(Obj::Bool(true), Obj::Float(1.5f64.to_bits()))])),
        ),
        (Obj::Float(f64::NAN.to_bits()), text("\u{e9}t\u{e9}")),
    ]));
    let events = value.emit();
    let rebuilt = Obj::build(&events, 3).unwrap();
    assert_eq!(rebuilt, value);
    assert_eq!(rebuilt.emit(), events);
}

#[test]
fn numbers_keep_their_variant() {
    assert!(matches!(Obj::build(&Obj::Signed(5).emit(), 0), Ok(Obj::Signed(5))));
    assert!(matches!(Obj::build(&Obj::Unsigned(5).emit(), 0), Ok(Obj::Unsigned(5))));
    assert!(matches!(
        Obj::build(&vec![Event::Float(0xFFF8_0000_0000_0001)], 0),
        Ok(Obj::Float(0xFFF8_0000_0000_0001))
    ));
}

#[test]
fn an_object_is_replayed_as_its_events() {
    assert_eq!(Obj::Null.emit(), vec![Event::Null]);
    assert_eq!(Obj::Bool(true).emit(), vec![Event::Bool(true)]);
    assert_eq!(Obj::Unsigned(3).emit(), vec![Event::Unsigned(3)]);
    assert_eq!(Obj::Signed(3).emit(), vec![Event::Signed(3)]);
    assert_eq!(Obj::Float(17).emit(), vec![Event::Float(17)]);
    assert_eq!(text("x").emit(), vec![Event::Str("x".to_string())]);
    assert_eq!(Obj::Bin(ByteBuf::from(vec![1, 2])).emit(), vec![Event::Bytes(vec![1, 2])]);
    let value = Obj::List(vec![
        Obj::Unsigned(1),
        Obj::Mapping(ObjMap::from_pairs(vec![
            (text("b"), Obj::Null),
            (text("a"), Obj::List(vec![])),
        ])),
    ]);
    assert_eq!(
        value.emit(),
        vec![
            Event::SeqBegin(2),
            Event::Unsigned(1),
            Event::MapBegin(2),
            Event::Str("a".to_string()),
            Event::SeqBegin(0),
            Event::SeqEnd,
            Event::Str("b".to_string()),
            Event::Null,
            Event::MapEnd,
            Event::SeqEnd,
        ]
    );
}

#[test]
fn emit_into_appends_to_what_is_there() {
    let mut events = vec![Event::Null];
    Obj::Bool(false).emit_into(&mut events);
    Obj::List(vec![]).emit_into(&mut events);
    assert_eq!(
        events,
        vec![Event::Null, Event::Bool(false), Event::SeqBegin(0), Event::SeqEnd]
    );
}

#[test]
fn events_are_folded_into_an_object() {
    let events = vec![
        Event::MapBegin(3),
        Event::Unsigned(2),
        Event::Str("two".to_string()),
        Event::Unsigned(1),
        Event::SeqBegin(1),
        Event::Bytes(vec![9]),
        Event::SeqEnd,
        Event::Signed(2),
        Event::Str("deux".to_string()),
        Event::MapEnd,
    ];
    let built = Obj::build(&events, 2).unwrap();
    let expected = Obj::Mapping(ObjMap::from_pairs(vec![
        (Obj::Unsigned(1), Obj::List(vec![Obj::Bin(ByteBuf::from(vec![9]))])),
        (Obj::Unsigned(2), text("deux")),
    ]));
    assert_eq!(built, expected);
    match built {
        Obj::Mapping(map) => {
            assert_eq!(map.len(), 2);
            assert!(matches!(map.entries()[0].0, Obj::Unsigned(1)));
            assert!(matches!(map.entries()[1].0, Obj::Unsigned(2)));
        }
        _ => panic!("a mapping was built"),
    }
}

#[test]
fn nesting_up_to_the_ceiling_is_built() {
    assert_eq!(Obj::build(&nested(0).emit(), 0), Ok(nested(0)));
    assert_eq!(Obj::build(&nested(3).emit(), 3), Ok(nested(3)));
    assert_eq!(Obj::build(&nested(3).emit(), 64), Ok(nested(3)));
}

#[test]
fn nesting_beyond_the_ceiling_fails() {
    assert_eq!(Obj::build(&nested(1).emit(), 0), Err(DecodeError::NestingTooDeep));
    assert_eq!(Obj::build(&nested(4).emit(), 3), Err(DecodeError::NestingTooDeep));
    let inside_a_mapping = vec![
        Event::MapBegin(1),
        Event::Null,
        Event::SeqBegin(0),
        Event::SeqEnd,
        Event::MapEnd,
    ];
    assert_eq!(Obj::build(&inside_a_mapping, 1), Err(DecodeError::NestingTooDeep));
    assert!(Obj::build(&inside_a_mapping, 2).is_ok());
}

#[test]
fn a_hostile_depth_fails_without_exhausting_the_stack() {
    let mut events: Vec<Event> = Vec::new();
    for _ in 0..200000 {
        events.push(Event::SeqBegin(1));
    }
    assert_eq!(Obj::build(&events, 64), Err(DecodeError::NestingTooDeep));
}

#[test]
fn a_hostile_size_hint_is_not_believed() {
    let events = vec![Event::SeqBegin(usize::MAX), Event::Null, Event::SeqEnd];
    assert_eq!(Obj::build(&events, 1), Ok(Obj::List(vec![Obj::Null])));
    let events = vec![Event::MapBegin(usize::MAX), Event::MapEnd];
    assert_eq!(Obj::build(&events, 1), Ok(Obj::Mapping(ObjMap::new())));
}

#[test]
fn malformed_streams_fail() {
    let malformed: Vec<Vec<Event>> = vec![
        vec![],
        vec![Event::SeqEnd],
        vec![Event::MapEnd],
        vec![Event::SeqBegin(0)],
        vec![Event::SeqBegin(1), Event::Null],
        vec![Event::MapBegin(0)],
        vec![Event::MapBegin(1), Event::Null, Event::MapEnd],
        vec![Event::MapBegin(1), Event::Null, Event::Null],
        vec![Event::MapBegin(1), Event::Null],
        vec![Event::SeqBegin(0), Event::MapEnd],
        vec![Event::MapBegin(0), Event::SeqEnd],
        vec![Event::Null, Event::Null],
        vec![Event::SeqBegin(0), Event::SeqEnd, Event::SeqEnd],
    ];
    for events in malformed {
        assert_eq!(Obj::build(&events, 8), Err(DecodeError::MalformedInput));
    }
}

#[test]
fn the_first_failure_is_reported() {
    let deep_then_broken = vec![Event::SeqBegin(1), Event::SeqBegin(0)];
    assert_eq!(Obj::build(&deep_then_broken, 1), Err(DecodeError::NestingTooDeep));
    assert_eq!(Obj::build(&deep_then_broken, 2), Err(DecodeError::MalformedInput));
    let broken_then_deep = vec![Event::SeqBegin(1), Event::MapEnd, Event::SeqBegin(0)];
    assert_eq!(Obj::build(&broken_then_deep, 1), Err(DecodeError::MalformedInput));
}

#[test]
fn a_value_is_decoded_from_the_middle_of_a_stream() {
    let events = vec![
        Event::Bool(true),
        Event::SeqBegin(2),
        Event::Unsigned(1),
        Event::Unsigned(2),
        Event::SeqEnd,
        Event::Null,
    ];
    let visitor = GenericVisitor;
    assert_eq!(visitor.visit(&events, 0, 4), Ok((Obj::Bool(true), 1)));
    assert_eq!(
        visitor.visit(&events, 1, 4),
        Ok((Obj::List(vec![Obj::Unsigned(1), Obj::Unsigned(2)]), 5))
    );
    assert_eq!(visitor.visit(&events, 5, 4), Ok((Obj::Null, 6)));
    assert_eq!(visitor.visit(&events, 6, 4), Err(DecodeError::MalformedInput));
    assert_eq!(visitor.visit(&events, 4, 4), Err(DecodeError::MalformedInput));
    assert_eq!(
        visitor.visit_seq(&events, 2, 4, 2),
        Ok((Obj::List(vec![Obj::Unsigned(1), Obj::Unsigned(2)]), 5))
    );
    assert_eq!(visitor.visit_seq(&events, 7, 4, 0), Err(DecodeError::MalformedInput));
    assert_eq!(visitor.visit_map(&events, 7, 4), Err(DecodeError::MalformedInput));
}

struct Record {
    test: String,
    option: Option<bool>,
}

fn decode_record(events: &Vec<Event>) -> Result<(Record, usize), DecodeError> {
    let visitor = GenericVisitor;
    let mut record = Record { test: String::new(), option: None };
    if !matches!(events.first(), Some(Event::MapBegin(_))) {
        return Err(DecodeError::MalformedInput);
    }
    let mut pos: usize = 1;
    loop {
        if matches!(events.get(pos), Some(Event::MapEnd)) {
            return Ok((record, pos + 1));
        }
        let (key, after_key) = visitor.visit(events, pos, 8)?;
        let (value, after_value) = visitor.visit(events, after_key, 8)?;
        if key == Obj::Unsigned(0) {
            match value {
                Obj::Str(text) => record.test = text,
                _ => return Err(DecodeError::MalformedInput),
            }
        } else if key == Obj::Unsigned(2) {
            match value {
                Obj::Bool(flag) => record.option = Some(flag),
                Obj::Null => record.option = None,
                _ => return Err(DecodeError::MalformedInput),
            }
        }
        pos = after_value;
    }
}

#[test]
fn an_unknown_field_is_consumed_and_dropped() {
    let events = vec![
        Event::MapBegin(3),
        Event::Unsigned(0),
        Event::Str("test".to_string()),
        Event::Unsigned(1),
        Event::MapBegin(1),
        Event::Str("nested".to_string()),
        Event::SeqBegin(2),
        Event::Unsigned(56),
        Event::Null,
        Event::SeqEnd,
        Event::MapEnd,
        Event::Unsigned(2),
        Event::Bool(true),
        Event::MapEnd,
        Event::Str("next".to_string()),
    ];
    let (record, next) = decode_record(&events).unwrap();
    assert_eq!(record.test, "test");
    assert_eq!(record.option, Some(true));
    assert_eq!(next, 14);
    assert_eq!(GenericVisitor.visit(&events, next, 0), Ok((text("next"), 15)));
}

#[test]
fn a_missing_field_keeps_its_default() {
    let events = vec![
        Event::MapBegin(1),
        Event::Unsigned(0),
        Event::Str("test".to_string()),
        Event::MapEnd,
    ];
    let (record, next) = decode_record(&events).unwrap();
    assert_eq!(record.test, "test");
    assert_eq!(record.option, None);
    assert_eq!(next, 4);
}

#[test]
fn a_known_discriminant_selects_its_variant() {
    let known = vec![Obj::Unsigned(0), Obj::Unsigned(1), text("c"), Obj::Signed(1)];
    assert_eq!(select_variant(Obj::Unsigned(0), &known), Ok(0));
    assert_eq!(select_variant(Obj::Signed(1), &known), Ok(1));
    assert_eq!(select_variant(text("c"), &known), Ok(2));
}

#[test]
fn an_unknown_discriminant_is_handed_back() {
    let known = vec![Obj::Unsigned(0), Obj::Unsigned(2)];
    assert_eq!(
        select_variant(Obj::Unsigned(1), &known),
        Err(DecodeError::UnknownVariant(Obj::Unsigned(1)))
    );
    match select_variant(text("b"), &Vec::new()) {
        Err(DecodeError::UnknownVariant(Obj::Str(given))) => assert_eq!(given, "b"),
        _ => panic!("the discriminant is unknown"),
    }
}

#[test]
fn scalar_events_give_their_objects() {
    let visitor = GenericVisitor;
    assert!(matches!(visitor.visit_none(), Obj::Null));
    assert!(matches!(visitor.visit_unit(), Obj::Null));
    assert!(matches!(visitor.visit_bool(true), Obj::Bool(true)));
    assert!(matches!(visitor.visit_u64(4352), Obj::Unsigned(4352)));
    assert!(matches!(visitor.visit_i64(4352), Obj::Signed(4352)));
    assert!(matches!(visitor.visit_i64(-4352), Obj::Signed(-4352)));
    assert!(matches!(visitor.visit_f64(1.0f64.to_bits()), Obj::Float(0x3FF0_0000_0000_0000)));
    match visitor.visit_str("test") {
        Obj::Str(held) => assert_eq!(held, "test"),
        _ => panic!("text was given"),
    }
    match visitor.visit_string("owned".to_string()) {
        Obj::Str(held) => assert_eq!(held, "owned"),
        _ => panic!("text was given"),
    }
}

#[test]
fn byte_events_give_buffers_with_the_same_bytes() {
    let visitor = GenericVisitor;
    let given: Vec<u8> = vec![0, 1, 2, 3, 4];
    match visitor.visit_bytes(&given) {
        Obj::Bin(held) => assert_eq!(&held[..], &given[..]),
        _ => panic!("bytes were given"),
    }
    match visitor.visit_byte_buf(vec![7, 8]) {
        Obj::Bin(held) => assert_eq!(held, ByteBuf::from(vec![7, 8])),
        _ => panic!("bytes were given"),
    }
    match visitor.visit_bytes(&[]) {
        Obj::Bin(held) => assert!(held.is_empty()),
        _ => panic!("bytes were given"),
    }
    let copy = Obj::Bin(ByteBuf::from(vec![5, 6])).clone();
    assert_eq!(copy.emit(), vec![Event::Bytes(vec![5, 6])]);
}
