//! End-to-end decodes driven the way a generic decode routine drives the
//! engine: request the next field, enter scopes, take units, check the
//! store is drained.

use flat_query::{Deserializer, Error, VariantShape, confirm_unit_variant};

/// Drain the current key as a sequence of strings, the way a sequence
/// field is decoded: enter the scope, take units until the scope releases
/// itself, then confirm it was consumed.
fn drain_sequence(d: &mut Deserializer) -> Vec<String> {
    d.begin_sequence().unwrap();
    let mut items: Vec<String> = Vec::new();
    while d.sequence_active() {
        items.push(d.next_unit().unwrap());
    }
    d.end_sequence().unwrap();
    items
}

#[test]
fn single_array() {
    // `id=1&id=2&id=3` into a record with one sequence field `id`.
    let mut d = Deserializer::from_query_str("id=1&id=2&id=3").unwrap();
    d.begin_record().unwrap();
    assert_eq!(d.current_key().unwrap(), "id");
    let ids = drain_sequence(&mut d);
    d.end_record();
    d.finish().unwrap();
    assert_eq!(ids, vec!["1".to_string(), "2".to_string(), "3".to_string()]);
}

#[test]
fn array_and_number() {
    // `id=1&id=2&foo=3` into `{id: sequence<string>, foo: u32}`.
    let mut d = Deserializer::from_query_str("id=1&id=2&foo=3").unwrap();
    d.begin_record().unwrap();
    let mut ids: Option<Vec<String>> = None;
    let mut foo: Option<u32> = None;
    while !d.is_empty() {
        let key = d.current_key().unwrap();
        if key == "id" {
            ids = Some(drain_sequence(&mut d));
        } else if key == "foo" {
            foo = Some(d.decode_unsigned(u32::MAX as u64).unwrap() as u32);
        } else {
            panic!("unexpected key {key}");
        }
    }
    d.end_record();
    d.finish().unwrap();
    assert_eq!(ids.unwrap(), vec!["1".to_string(), "2".to_string()]);
    assert_eq!(foo.unwrap(), 3);
}

#[test]
fn no_nested_map() {
    // `x=y=1&y=2` into a sequence of records: the inner record is refused.
    let mut d = Deserializer::from_query_str("x=y=1&y=2").unwrap();
    d.begin_record().unwrap();
    assert_eq!(d.current_key().unwrap(), "x");
    d.begin_sequence().unwrap();
    let err = d.begin_record().unwrap_err();
    assert!(matches!(err, Error::ForbiddenNestedMap));
}

#[test]
fn no_nested_sequence() {
    // A sequence element that is itself a sequence is refused.
    let mut d = Deserializer::from_query_str("x=1&x=2").unwrap();
    d.begin_record().unwrap();
    d.begin_sequence().unwrap();
    let err = d.begin_sequence().unwrap_err();
    assert!(matches!(err, Error::ForbiddenNestedSequence));
}

#[test]
fn sequence_stopped_early() {
    // A consumer that leaves a declared sequence before its key is
    // exhausted leaves the guard set, which the scope exit refuses.
    let mut d = Deserializer::from_query_str("x=1&x=2").unwrap();
    d.begin_record().unwrap();
    d.begin_sequence().unwrap();
    let first = d.next_unit().unwrap();
    assert_eq!(first, "1");
    let err = d.end_sequence().unwrap_err();
    assert!(matches!(err, Error::SequenceNotConsumed));
}

#[test]
fn option_string() {
    // `{x: optional<string>, y: string, z: optional<string>}`: a present
    // optional field decodes through the optional check to its value; an
    // absent one is never requested at all.
    let cases: Vec<(&str, Option<&str>, &str, Option<&str>)> = vec![
        ("y=5", None, "5", None),
        ("y=5&x=2", Some("2"), "5", None),
        ("y=1&z=2", None, "1", Some("2")),
        ("x=hello&y=world&z=wow", Some("hello"), "world", Some("wow")),
    ];
    for (query, want_x, want_y, want_z) in cases {
        let mut d = Deserializer::from_query_str(query).unwrap();
        d.begin_record().unwrap();
        let mut x: Option<String> = None;
        let mut y: Option<String> = None;
        let mut z: Option<String> = None;
        while !d.is_empty() {
            let key = d.current_key().unwrap();
            if key == "x" {
                d.check_optional().unwrap();
                x = Some(d.next_unit().unwrap());
            } else if key == "y" {
                y = Some(d.next_unit().unwrap());
            } else if key == "z" {
                d.check_optional().unwrap();
                z = Some(d.next_unit().unwrap());
            } else {
                panic!("unexpected key {key}");
            }
        }
        d.end_record();
        d.finish().unwrap();
        assert_eq!(x.as_deref(), want_x, "query {query}");
        assert_eq!(y.as_deref(), Some(want_y), "query {query}");
        assert_eq!(z.as_deref(), want_z, "query {query}");
    }

    // The required field `y` missing from an empty input: the engine hands
    // out no field at all, which the caller's type reports in its own way.
    let d = Deserializer::from_query_str("").unwrap();
    assert!(d.is_empty());
    assert!(matches!(d.current_key().unwrap_err(), Error::MissingKey));
}

#[test]
fn packed_sequence_elements() {
    // `x=1,2,3&x=4,5,6,7,8&x=9`: each raw element arrives whole; the target
    // type may unpack it (a comma-packed list here), since the flat format
    // itself carries no nesting.
    let mut d = Deserializer::from_query_str("x=1,2,3&x=4,5,6,7,8&x=9").unwrap();
    d.begin_record().unwrap();
    assert_eq!(d.current_key().unwrap(), "x");
    let raw = drain_sequence(&mut d);
    d.end_record();
    d.finish().unwrap();
    assert_eq!(raw.len(), 3);
    let unpacked: Vec<Vec<String>> = raw
        .iter()
        .map(|s| s.split(',').map(str::to_string).collect())
        .collect();
    assert_eq!(unpacked[0], vec!["1", "2", "3"]);
    assert_eq!(unpacked[1], vec!["4", "5", "6", "7", "8"]);
    assert_eq!(unpacked[2], vec!["9"]);
    let flat: Vec<String> = unpacked.into_iter().flatten().collect();
    let want: Vec<String> = (1u64..=9).map(|n| n.to_string()).collect();
    assert_eq!(flat, want);
}

#[test]
fn option_sequence_field() {
    // `{x: optional<sequence<u64>>}`: an empty input never asks for `x` at
    // all; a present key decodes its whole run.
    let d = Deserializer::from_query_str("").unwrap();
    assert!(d.is_empty());
    d.finish().unwrap();

    let mut d = Deserializer::from_query_str("x=1&x=2").unwrap();
    d.begin_record().unwrap();
    assert_eq!(d.current_key().unwrap(), "x");
    d.check_optional().unwrap();
    d.begin_sequence().unwrap();
    let mut xs: Vec<u64> = Vec::new();
    while d.sequence_active() {
        xs.push(d.decode_unsigned(u64::MAX).unwrap());
    }
    d.end_sequence().unwrap();
    d.end_record();
    d.finish().unwrap();
    assert_eq!(xs, vec![1, 2]);
}

#[test]
fn top_level_option_rejected() {
    // An optional value outside any record scope is not representable.
    let d = Deserializer::from_query_str("x=1").unwrap();
    let err = d.check_optional().unwrap_err();
    assert!(matches!(err, Error::ForbiddenTopLevelOption));
}

#[test]
fn simple_enum() {
    // `id=a&id=b&id=c&id=b&foo=c` into `{id: sequence<Enum{A,B,C}>, foo:
    // Enum}`: each unit is the variant name, matched by the target type.
    #[derive(Debug, PartialEq)]
    enum MyEnum {
        A,
        B,
        C,
    }
    fn variant_of(name: &str) -> MyEnum {
        confirm_unit_variant(VariantShape::Unit).unwrap();
        match name {
            "a" => MyEnum::A,
            "b" => MyEnum::B,
            "c" => MyEnum::C,
            other => panic!("unknown variant {other}"),
        }
    }
    let mut d = Deserializer::from_query_str("id=a&id=b&id=c&id=b&foo=c").unwrap();
    d.begin_record().unwrap();
    let mut ids: Vec<MyEnum> = Vec::new();
    let mut foo: Option<MyEnum> = None;
    while !d.is_empty() {
        let key = d.current_key().unwrap();
        if key == "id" {
            d.begin_sequence().unwrap();
            while d.sequence_active() {
                let unit = d.next_unit().unwrap();
                ids.push(variant_of(&unit));
            }
            d.end_sequence().unwrap();
        } else if key == "foo" {
            let unit = d.next_unit().unwrap();
            foo = Some(variant_of(&unit));
        } else {
            panic!("unexpected key {key}");
        }
    }
    d.end_record();
    d.finish().unwrap();
    assert_eq!(ids, vec![MyEnum::A, MyEnum::B, MyEnum::C, MyEnum::B]);
    assert_eq!(foo.unwrap(), MyEnum::C);
}

#[test]
fn enum_payload_rejected() {
    // Variants that carry data cannot be fed from a flat value.
    for shape in [VariantShape::Newtype, VariantShape::Tuple, VariantShape::Struct] {
        let err = confirm_unit_variant(shape).unwrap_err();
        assert!(matches!(err, Error::ExpectedUnitVariant));
    }
}

#[test]
fn trailing_values() {
    // A key the target type never asked for is left in the store and
    // reported once decoding is otherwise done.
    let mut d = Deserializer::from_query_str("a=1&b=2").unwrap();
    d.begin_record().unwrap();
    assert_eq!(d.current_key().unwrap(), "a");
    assert_eq!(d.next_unit().unwrap(), "1");
    d.end_record();
    let err = d.finish().unwrap_err();
    assert!(matches!(err, Error::TrailingValues));
}
