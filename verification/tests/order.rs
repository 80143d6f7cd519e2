use serde::bytes::ByteBuf;
use serde_utils::{Obj, ObjMap, Rel};
use std::cmp::Ordering;

fn float(value: f64) -> Obj {
    Obj::Float(value.to_bits())
}

fn text(value: &str) -> Obj {
    Obj::Str(value.to_string())
}

fn samples() -> Vec<Obj> {
    vec![
        Obj::Null,
        Obj::Bool(false),
        Obj::Bool(true),
        Obj::Signed(i64::MIN),
        Obj::Signed(-1),
        Obj::Signed(0),
        Obj::Unsigned(0),
        Obj::Signed(7),
        Obj::Unsigned(7),
        Obj::Unsigned(u64::MAX),
        float(f64::NEG_INFINITY),
        float(-1.5),
        float(-0.0),
        float(0.0),
        float(1.5),
        float(f64::INFINITY),
        float(f64::NAN),
        text(""),
        text("a"),
        text("ab"),
        Obj::Bin(ByteBuf::from(vec![])),
        Obj::Bin(ByteBuf::from(vec![255])),
        Obj::List(vec![]),
        Obj::List(vec![Obj::Signed(1)]),
        Obj::List(vec![Obj::Unsigned(1), Obj::Null]),
        Obj::Mapping(ObjMap::new()),
        Obj::Mapping(ObjMap::from_pairs(vec![(Obj::Null, Obj::Null)])),
    ]
}

#[test]
fn signed_equals_unsigned_of_same_magnitude() {
    let magnitudes: Vec<u64> = vec![0, 1, 5, 4352, 9223372036854775807];
    for m in magnitudes {
        let signed = Obj::Signed(i64::try_from(m).unwrap());
        let unsigned = Obj::Unsigned(m);
        assert!(signed == unsigned);
        assert!(unsigned == signed);
        assert_eq!(signed.compare(&unsigned), Rel::Same);
        assert_eq!(signed.hash_bytes(), unsigned.hash_bytes());
    }
}

#[test]
fn signed_equals_unsigned_under_cmp() {
    assert_eq!(Obj::Signed(5).cmp(&Obj::Unsigned(5)), Ordering::Equal);
    assert_eq!(Obj::Unsigned(5).cmp(&Obj::Signed(5)), Ordering::Equal);
    assert_eq!(Obj::Signed(5).partial_cmp(&Obj::Unsigned(5)), Some(Ordering::Equal));
    assert_eq!(Obj::Signed(5).cmp(&Obj::Unsigned(6)), Ordering::Less);
    assert_eq!(Obj::Unsigned(6).cmp(&Obj::Signed(5)), Ordering::Greater);
}

#[test]
fn compare_tells_how_two_objects_stand() {
    assert_eq!(Obj::Null.compare(&Obj::Bool(false)), Rel::Before);
    assert_eq!(Obj::Bool(true).compare(&Obj::Bool(false)), Rel::After);
    assert_eq!(Obj::Signed(3).compare(&Obj::Unsigned(3)), Rel::Same);
    assert_eq!(Obj::Signed(-3).compare(&Obj::Unsigned(3)), Rel::Before);
    assert_eq!(text("b").compare(&text("ab")), Rel::After);
    assert_eq!(
        Obj::List(vec![Obj::Null]).compare(&Obj::List(vec![Obj::Null, Obj::Null])),
        Rel::Before
    );
}

#[test]
fn negative_signed_never_equals_unsigned() {
    assert!(Obj::Signed(-1) != Obj::Unsigned(u64::MAX));
    assert!(Obj::Signed(-1) < Obj::Unsigned(0));
    assert!(Obj::Signed(i64::MIN) < Obj::Signed(-1));
    assert!(Obj::Bool(true) < Obj::Signed(i64::MIN));
}

#[test]
fn every_nan_is_the_same_value() {
    let quiet = Obj::Float(0x7FF8_0000_0000_0000);
    let signalling = Obj::Float(0x7FF0_0000_0000_0001);
    let negative = Obj::Float(0xFFFF_FFFF_FFFF_FFFF);
    assert!(quiet == signalling);
    assert!(quiet == negative);
    assert!(float(f64::NAN) == quiet);
    assert_eq!(quiet.hash_bytes(), negative.hash_bytes());
    assert!(float(f64::NAN) != float(0.0));
}

#[test]
fn nan_follows_every_other_float() {
    let others: Vec<f64> =
        vec![f64::NEG_INFINITY, -1.0, -0.0, 0.0, 1.0e300, f64::MAX, f64::INFINITY];
    for other in others {
        assert!(float(other) < float(f64::NAN));
        assert!(float(f64::NAN) > float(other));
    }
}

#[test]
fn floats_are_ordered_as_ieee_orders_them() {
    let values: Vec<f64> = vec![
        f64::NEG_INFINITY,
        f64::MIN,
        -345.4434,
        -1.0,
        -f64::MIN_POSITIVE,
        -5.0e-324,
        -0.0,
        0.0,
        5.0e-324,
        f64::MIN_POSITIVE,
        1.0,
        1.2,
        3.5,
        f64::MAX,
        f64::INFINITY,
    ];
    for a in &values {
        for b in &values {
            let expected = a.partial_cmp(b).unwrap();
            assert_eq!(float(*a).partial_cmp(&float(*b)), Some(expected));
        }
    }
}

#[test]
fn both_zeros_are_equal_and_hash_alike() {
    assert!(float(-0.0) == float(0.0));
    assert_eq!(float(-0.0).hash_bytes(), float(0.0).hash_bytes());
}

#[test]
fn classes_are_ordered_by_precedence() {
    let ladder = vec![
        Obj::Null,
        Obj::Bool(false),
        Obj::Bool(true),
        Obj::Unsigned(1),
        float(f64::NAN),
    ];
    for i in 1..ladder.len() {
        assert!(ladder[i - 1] < ladder[i]);
    }
    assert!(float(f64::NAN) < text(""));
    assert!(text("zzz") < Obj::Bin(ByteBuf::from(vec![])));
    assert!(Obj::Bin(ByteBuf::from(vec![255, 255])) < Obj::List(vec![]));
    assert!(Obj::List(vec![Obj::List(vec![])]) < Obj::Mapping(ObjMap::new()));
}

#[test]
fn type_num_is_the_ordinal_class() {
    assert_eq!(Obj::Null.type_num(), 0);
    assert_eq!(Obj::Bool(true).type_num(), 1);
    assert_eq!(Obj::Signed(-3).type_num(), 2);
    assert_eq!(Obj::Signed(3).type_num(), 3);
    assert_eq!(Obj::Signed(0).type_num(), 3);
    assert_eq!(Obj::Unsigned(3).type_num(), 3);
    assert_eq!(float(0.5).type_num(), 4);
    assert_eq!(text("x").type_num(), 5);
    assert_eq!(Obj::Bin(ByteBuf::from(vec![1])).type_num(), 6);
    assert_eq!(Obj::List(vec![]).type_num(), 7);
    assert_eq!(Obj::Mapping(ObjMap::new()).type_num(), 8);
}

#[test]
fn text_is_ordered_byte_by_byte() {
    assert!(text("a") < text("b"));
    assert!(text("Z") < text("a"));
    assert!(text("a") < text("aa"));
    assert!(text("z") < text("\u{e9}"));
    assert!(text("\u{ffff}") < text("\u{10000}"));
    assert!(text("test") == text("test"));
}

#[test]
fn a_list_precedes_its_extensions() {
    let short = Obj::List(vec![Obj::Unsigned(1)]);
    let long = Obj::List(vec![Obj::Signed(1), Obj::Null]);
    assert!(short < long);
    assert!(Obj::List(vec![Obj::Unsigned(2)]) > long);
}

#[test]
fn mappings_are_ordered_by_key_then_value() {
    let one = Obj::Mapping(ObjMap::from_pairs(vec![(Obj::Unsigned(1), Obj::Bool(true))]));
    let two = Obj::Mapping(ObjMap::from_pairs(vec![(Obj::Unsigned(2), Obj::Bool(false))]));
    let more = Obj::Mapping(ObjMap::from_pairs(vec![
        (Obj::Unsigned(1), Obj::Bool(true)),
        (Obj::Unsigned(0), Obj::Null),
    ]));
    assert!(one < two);
    assert!(more < one);
}

#[test]
fn exactly_one_relation_holds_of_any_pair() {
    let values = samples();
    for a in &values {
        for b in &values {
            let less = a < b;
            let equal = a == b;
            let greater = a > b;
            let holding = [less, equal, greater].iter().filter(|held| **held).count();
            assert_eq!(holding, 1);
            assert_eq!(less, b > a);
        }
    }
}

#[test]
fn the_order_is_transitive_on_samples() {
    let values = samples();
    for a in &values {
        for b in &values {
            for c in &values {
                if a < b && b < c {
                    assert!(a < c);
                }
                if a == b && b == c {
                    assert!(a == c);
                }
            }
        }
    }
}

#[test]
fn samples_stand_in_ascending_order() {
    let values = samples();
    for i in 1..values.len() {
        assert!(values[i - 1] <= values[i]);
    }
}

#[test]
fn default_is_null() {
    assert_eq!(Obj::default(), Obj::Null);
}

#[test]
fn a_clone_equals_what_it_copies() {
    for value in samples() {
        let copy = value.clone();
        assert_eq!(copy, value);
        assert_eq!(copy.emit(), value.emit());
    }
}
