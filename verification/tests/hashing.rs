use serde::bytes::ByteBuf;
use serde_utils::{Obj, ObjMap};
use std::collections::hash_map::DefaultHasher;
use std::collections::{HashMap, HashSet};
use std::hash::{Hash, Hasher};

fn digest(value: &Obj) -> u64 {
    let mut state = DefaultHasher::new();
    value.hash(&mut state);
    state.finish()
}

#[test]
fn scalars_feed_their_class_and_payload() {
    assert_eq!(Obj::Null.hash_bytes(), vec![0]);
    assert_eq!(Obj::Bool(false).hash_bytes(), vec![1, 0]);
    assert_eq!(Obj::Bool(true).hash_bytes(), vec![1, 1]);
    assert_eq!(Obj::Unsigned(1).hash_bytes(), vec![3, 0, 0, 0, 0, 0, 0, 0, 1]);
    assert_eq!(
        Obj::Unsigned(0x0102_0304_0506_0708).hash_bytes(),
        vec![3, 1, 2, 3, 4, 5, 6, 7, 8]
    );
    assert_eq!(Obj::Signed(258).hash_bytes(), vec![3, 0, 0, 0, 0, 0, 0, 1, 2]);
    assert_eq!(
        Obj::Signed(-1).hash_bytes(),
        vec![2, 255, 255, 255, 255, 255, 255, 255, 255]
    );
    assert_eq!(
        Obj::Signed(-2).hash_bytes(),
        vec![2, 255, 255, 255, 255, 255, 255, 255, 254]
    );
    assert_eq!(
        Obj::Signed(i64::MIN).hash_bytes(),
        vec![2, 128, 0, 0, 0, 0, 0, 0, 0]
    );
}

#[test]
fn floats_feed_their_canonical_bits() {
    assert_eq!(
        Obj::Float(1.0f64.to_bits()).hash_bytes(),
        vec![4, 0x3F, 0xF0, 0, 0, 0, 0, 0, 0]
    );
    assert_eq!(
        Obj::Float((-2.0f64).to_bits()).hash_bytes(),
        vec![4, 0xC0, 0, 0, 0, 0, 0, 0, 0]
    );
    assert_eq!(Obj::Float(0.0f64.to_bits()).hash_bytes(), vec![4, 0, 0, 0, 0, 0, 0, 0, 0]);
    assert_eq!(
        Obj::Float((-0.0f64).to_bits()).hash_bytes(),
        vec![4, 0, 0, 0, 0, 0, 0, 0, 0]
    );
    assert_eq!(
        Obj::Float(0xFFF0_0000_0000_0001).hash_bytes(),
        vec![4, 0x7F, 0xF8, 0, 0, 0, 0, 0, 0]
    );
    assert_eq!(
        Obj::Float(f64::INFINITY.to_bits()).hash_bytes(),
        vec![4, 0x7F, 0xF0, 0, 0, 0, 0, 0, 0]
    );
}

#[test]
fn text_and_blobs_feed_their_length_and_content() {
    assert_eq!(
        Obj::Str("ab".to_string()).hash_bytes(),
        vec![5, 0, 0, 0, 0, 0, 0, 0, 2, 97, 98]
    );
    assert_eq!(
        Obj::Str("\u{e9}".to_string()).hash_bytes(),
        vec![5, 0, 0, 0, 0, 0, 0, 0, 2, 0xC3, 0xA9]
    );
    assert_eq!(
        Obj::Bin(ByteBuf::from(vec![9, 8, 7])).hash_bytes(),
        vec![6, 0, 0, 0, 0, 0, 0, 0, 3, 9, 8, 7]
    );
    assert_eq!(
        Obj::Bin(ByteBuf::from(vec![])).hash_bytes(),
        vec![6, 0, 0, 0, 0, 0, 0, 0, 0]
    );
}

#[test]
fn containers_feed_their_length_and_items_in_order() {
    assert_eq!(
        Obj::List(vec![Obj::Null, Obj::Bool(true)]).hash_bytes(),
        vec![7, 0, 0, 0, 0, 0, 0, 0, 2, 0, 1, 1]
    );
    let mapping = ObjMap::from_pairs(vec![
        (Obj::Bool(true), Obj::Null),
        (Obj::Null, Obj::Bool(false)),
    ]);
    assert_eq!(
        Obj::Mapping(mapping).hash_bytes(),
        vec![8, 0, 0, 0, 0, 0, 0, 0, 2, 0, 1, 0, 1, 1, 0]
    );
}

#[test]
fn hash_into_appends_to_what_is_there() {
    let mut out: Vec<u8> = vec![42];
    Obj::Bool(true).hash_into(&mut out);
    Obj::Null.hash_into(&mut out);
    assert_eq!(out, vec![42, 1, 1, 0]);
}

#[test]
fn equal_objects_hash_alike() {
    let pairs = vec![
        (Obj::Signed(1), Obj::Unsigned(1)),
        (Obj::Float(f64::NAN.to_bits()), Obj::Float(0x7FF0_0000_0000_0002)),
        (Obj::Float(0.0f64.to_bits()), Obj::Float((-0.0f64).to_bits())),
        (
            Obj::List(vec![Obj::Signed(2), Obj::Unsigned(3)]),
            Obj::List(vec![Obj::Unsigned(2), Obj::Signed(3)]),
        ),
        (
            Obj::Mapping(ObjMap::from_pairs(vec![(Obj::Signed(1), Obj::Signed(2))])),
            Obj::Mapping(ObjMap::from_pairs(vec![(Obj::Unsigned(1), Obj::Unsigned(2))])),
        ),
    ];
    for (a, b) in pairs {
        assert_eq!(a, b);
        assert_eq!(a.hash_bytes(), b.hash_bytes());
        assert_eq!(digest(&a), digest(&b));
        assert_eq!(a.hash_code(), b.hash_code());
    }
}

#[test]
fn a_hasher_is_fed_the_hash_stream() {
    let value = Obj::List(vec![Obj::Unsigned(7), Obj::Str("x".to_string())]);
    let mut expected = DefaultHasher::new();
    expected.write(&value.hash_bytes());
    let expected = expected.finish();
    assert_eq!(digest(&value), expected);
    assert_eq!(value.hash_code(), expected);
    assert_ne!(digest(&value), digest(&Obj::Null));
    assert_ne!(value.hash_code(), Obj::Null.hash_code());
}

#[test]
fn equal_objects_are_one_member_of_a_hash_set() {
    let mut set: HashSet<Obj> = HashSet::new();
    assert!(set.insert(Obj::Unsigned(1)));
    assert!(!set.insert(Obj::Signed(1)));
    assert!(set.insert(Obj::Signed(-1)));
    assert!(set.insert(Obj::Float(f64::NAN.to_bits())));
    assert!(!set.insert(Obj::Float(0x7FF0_0000_0000_0003)));
    assert!(set.insert(Obj::List(vec![Obj::Unsigned(2)])));
    assert!(!set.insert(Obj::List(vec![Obj::Signed(2)])));
    assert_eq!(set.len(), 4);
    assert!(set.contains(&Obj::Signed(1)));
}

#[test]
fn equal_objects_are_one_key_of_a_hash_map() {
    let mut map: HashMap<Obj, u32> = HashMap::new();
    map.insert(Obj::Unsigned(1), 10);
    map.insert(Obj::Signed(1), 11);
    assert_eq!(map.len(), 1);
    assert_eq!(map.get(&Obj::Unsigned(1)), Some(&11));
}
