//! Unit tests of the primitive, container, and collection codecs.

use into_dynamo::codec::{IntoAttributeValue, WithDefault};
use into_dynamo::collections::{StringMap, StringSet};
use into_dynamo::error::Error;
use into_dynamo::item::IntoDynamoItem;
use into_dynamo::primitive::PositiveUsize;
use into_dynamo::record::decode_defaulted;
use into_dynamo::value::AttrValue;

fn wrong_type(r: Result<impl std::fmt::Debug, Error>) -> String {
    let Error::WrongType(message) = r.unwrap_err();
    message
}

#[test]
fn bool_round_trips() {
    assert_eq!(true.into_av(), AttrValue::Bool(true));
    assert_eq!(bool::from_av(AttrValue::Bool(false)).unwrap(), false);
    assert_eq!(
        wrong_type(bool::from_av(AttrValue::S("abc".to_string()))),
        "Expected Bool, got S(abc)"
    );
}

#[test]
fn string_round_trips() {
    let av = "hello".to_string().into_av();
    assert_eq!(av, AttrValue::S("hello".to_string()));
    assert_eq!(String::from_av(av).unwrap(), "hello");
    assert_eq!(
        wrong_type(String::from_av(AttrValue::Bool(true))),
        "Expected S, got Bool(true)"
    );
}

#[test]
fn unsigned_numbers_round_trip() {
    assert_eq!(25usize.into_av(), AttrValue::N("25".to_string()));
    assert_eq!(0u32.into_av(), AttrValue::N("0".to_string()));
    assert_eq!(
        u128::MAX.into_av(),
        AttrValue::N("340282366920938463463374607431768211455".to_string())
    );
    assert_eq!(
        usize::from_av(AttrValue::N("25".to_string())).unwrap(),
        25usize
    );
    assert_eq!(u16::from_av(AttrValue::N("65535".to_string())).unwrap(), u16::MAX);
    // leading zeros and an explicit plus sign are accepted
    assert_eq!(u32::from_av(AttrValue::N("007".to_string())).unwrap(), 7);
    assert_eq!(u32::from_av(AttrValue::N("+7".to_string())).unwrap(), 7);
}

#[test]
fn signed_numbers_round_trip() {
    assert_eq!((-5000isize).into_av(), AttrValue::N("-5000".to_string()));
    assert_eq!(
        isize::from_av(AttrValue::N("-5000".to_string())).unwrap(),
        -5000
    );
    assert_eq!(i8::from_av(AttrValue::N("-128".to_string())).unwrap(), i8::MIN);
    assert_eq!(
        i128::MIN.into_av(),
        AttrValue::N("-170141183460469231731687303715884105728".to_string())
    );
    assert_eq!(
        i128::from_av(AttrValue::N(
            "-170141183460469231731687303715884105728".to_string()
        ))
        .unwrap(),
        i128::MIN
    );
}

#[test]
fn numeric_decode_rejects_bad_text() {
    assert_eq!(
        wrong_type(u16::from_av(AttrValue::N("abc".to_string()))),
        "Could not parse number, got N(abc)"
    );
    // out of the width's range
    assert_eq!(
        wrong_type(u16::from_av(AttrValue::N("70000".to_string()))),
        "Could not parse number, got N(70000)"
    );
    // a sign alone is not a number
    assert!(wrong_type(i32::from_av(AttrValue::N("-".to_string())))
        .starts_with("Could not parse number"));
    // no cross-variant coercion: a boolean never decodes as a number
    assert_eq!(
        wrong_type(u64::from_av(AttrValue::Bool(true))),
        "Expected N, got Bool(true)"
    );
    // unsigned types reject negative text
    assert!(wrong_type(usize::from_av(AttrValue::N("-1".to_string())))
        .starts_with("Could not parse number"));
}

#[test]
fn optional_round_trips() {
    assert_eq!(Option::<String>::None.into_av(), AttrValue::Null);
    assert_eq!(
        Some("x".to_string()).into_av(),
        AttrValue::S("x".to_string())
    );
    assert_eq!(Option::<String>::from_av(AttrValue::Null).unwrap(), None);
    assert_eq!(
        Option::<String>::from_av(AttrValue::S("x".to_string())).unwrap(),
        Some("x".to_string())
    );
    // a present but mistyped value is a hard error, not a silent absence
    assert_eq!(
        wrong_type(Option::<String>::from_av(AttrValue::Bool(true))),
        "Expected S, got Bool(true)"
    );
}

#[test]
fn byte_blobs_use_the_binary_variant() {
    let av = vec![1u8, 2, 255].into_av();
    assert_eq!(av, AttrValue::B(vec![1, 2, 255]));
    assert_eq!(Vec::<u8>::from_av(av).unwrap(), vec![1u8, 2, 255]);
    assert_eq!(
        wrong_type(Vec::<u8>::from_av(AttrValue::L(vec![]))),
        "Expected B, got L(len 0)"
    );
}

#[test]
fn lists_preserve_order() {
    let av = vec![3u64, 1, 2].into_av();
    assert_eq!(
        av,
        AttrValue::L(vec![
            AttrValue::N("3".to_string()),
            AttrValue::N("1".to_string()),
            AttrValue::N("2".to_string()),
        ])
    );
    assert_eq!(Vec::<u64>::from_av(av).unwrap(), vec![3u64, 1, 2]);
    // one bad element fails the whole list
    let err = wrong_type(Vec::<u64>::from_av(AttrValue::L(vec![
        AttrValue::N("1".to_string()),
        AttrValue::S("x".to_string()),
    ])));
    assert_eq!(err, "Expected N, got S(x)");
}

#[test]
fn empty_string_set_encodes_as_null() {
    let set = StringSet::new();
    assert_eq!(set.into_av(), AttrValue::Null);
    // and Null decodes back to the empty set
    let back = StringSet::from_av(AttrValue::Null).unwrap();
    assert_eq!(back.len(), 0);
}

#[test]
fn string_set_round_trips_and_dedupes() {
    let mut set = StringSet::new();
    set.insert("test_value".to_string());
    set.insert("other".to_string());
    set.insert("test_value".to_string());
    assert_eq!(set.len(), 2);
    let av = set.into_av();
    assert_eq!(
        av,
        AttrValue::Ss(vec!["test_value".to_string(), "other".to_string()])
    );
    let back = StringSet::from_av(av).unwrap();
    assert!(back.contains("test_value"));
    assert!(back.contains("other"));
    assert!(!back.contains("absent"));
    assert_eq!(
        wrong_type(StringSet::from_av(AttrValue::Bool(true))),
        "Expected SS or Null, got Bool(true)"
    );
}

#[test]
fn string_map_round_trips() {
    let mut map: StringMap<String> = StringMap::new();
    map.insert("test_key".to_string(), "test_value".to_string());
    map.insert("other".to_string(), "x".to_string());
    let av = map.into_av();
    assert_eq!(
        av,
        AttrValue::M(vec![
            (
                "test_key".to_string(),
                AttrValue::S("test_value".to_string())
            ),
            ("other".to_string(), AttrValue::S("x".to_string())),
        ])
    );
    let back = StringMap::<String>::from_av(av).unwrap();
    assert_eq!(back.len(), 2);
    assert_eq!(back.get("test_key").unwrap(), "test_value");
    assert!(back.get("absent").is_none());
}

#[test]
fn string_map_as_item() {
    let mut map: StringMap<u64> = StringMap::new();
    map.insert("a".to_string(), 1);
    map.insert("b".to_string(), 2);
    let item = map.into_item();
    assert_eq!(
        item,
        vec![
            ("a".to_string(), AttrValue::N("1".to_string())),
            ("b".to_string(), AttrValue::N("2".to_string())),
        ]
    );
    let back = StringMap::<u64>::from_item(item).unwrap();
    assert_eq!(back.get("a"), Some(&1));
    assert_eq!(back.get("b"), Some(&2));
}

#[test]
fn pair_round_trips_with_exact_arity() {
    let av = (42u64, "answer".to_string()).into_av();
    assert_eq!(
        av,
        AttrValue::L(vec![
            AttrValue::N("42".to_string()),
            AttrValue::S("answer".to_string()),
        ])
    );
    let back = <(u64, String)>::from_av(av).unwrap();
    assert_eq!(back, (42u64, "answer".to_string()));
    // wrong arity is an error, even with a valid prefix
    let err = wrong_type(<(u64, String)>::from_av(AttrValue::L(vec![
        AttrValue::N("1".to_string()),
        AttrValue::S("a".to_string()),
        AttrValue::S("b".to_string()),
    ])));
    assert_eq!(err, "Expected L with 2 elements");
}

#[test]
fn positive_usize_rejects_zero() {
    let p = PositiveUsize::new(25).unwrap();
    assert_eq!(p.get(), 25);
    assert!(PositiveUsize::new(0).is_none());
    assert_eq!(p.into_av(), AttrValue::N("25".to_string()));
    let back = PositiveUsize::from_av(AttrValue::N("25".to_string())).unwrap();
    assert_eq!(back.get(), 25);
    assert_eq!(
        wrong_type(PositiveUsize::from_av(AttrValue::N("0".to_string()))),
        "Expected positive N, got 0"
    );
}

#[test]
fn defaulted_field_substitutes_the_default() {
    let mut map: Vec<(String, AttrValue)> = Vec::new();
    // the key is absent: decode yields the type's default instead of failing
    let s: String = decode_defaulted(&mut map, "comment").unwrap();
    assert_eq!(s, "");
    let n: u64 = decode_defaulted(&mut map, "count").unwrap();
    assert_eq!(n, 0);
    // a present key still decodes normally
    let mut map = vec![("count".to_string(), AttrValue::N("7".to_string()))];
    let n: u64 = decode_defaulted(&mut map, "count").unwrap();
    assert_eq!(n, 7);
    // and a present but bad value is an error, not the default
    let mut map = vec![("count".to_string(), AttrValue::S("x".to_string()))];
    let err = wrong_type(decode_defaulted::<u64>(&mut map, "count"));
    assert_eq!(err, "Expected N, got S(x)");
}

#[test]
fn default_values_are_empty_or_zero() {
    assert_eq!(String::default_value(), "");
    assert_eq!(u64::default_value(), 0);
    assert_eq!(bool::default_value(), false);
    assert_eq!(Option::<String>::default_value(), None);
    assert_eq!(Vec::<u64>::default_value(), Vec::<u64>::new());
    assert_eq!(StringSet::default_value().len(), 0);
    assert_eq!(StringMap::<u64>::default_value().len(), 0);
}

#[test]
fn empty_values_round_trip() {
    // empty text
    let av = String::new().into_av();
    assert_eq!(av, AttrValue::S(String::new()));
    assert_eq!(String::from_av(av).unwrap(), "");
    // empty list
    let av = Vec::<u64>::new().into_av();
    assert_eq!(av, AttrValue::L(vec![]));
    assert_eq!(Vec::<u64>::from_av(av).unwrap(), Vec::<u64>::new());
    // empty blob
    let av = Vec::<u8>::new().into_av();
    assert_eq!(av, AttrValue::B(vec![]));
    assert_eq!(Vec::<u8>::from_av(av).unwrap(), Vec::<u8>::new());
    // an empty map is still a map, unlike an empty string set
    let av = StringMap::<String>::new().into_av();
    assert_eq!(av, AttrValue::M(vec![]));
    assert_eq!(StringMap::<String>::from_av(av).unwrap().len(), 0);
}

#[test]
fn nested_containers_round_trip() {
    let value: Vec<Vec<u64>> = vec![vec![1, 2], vec![], vec![3]];
    let av = value.into_av();
    assert_eq!(
        av,
        AttrValue::L(vec![
            AttrValue::L(vec![
                AttrValue::N("1".to_string()),
                AttrValue::N("2".to_string())
            ]),
            AttrValue::L(vec![]),
            AttrValue::L(vec![AttrValue::N("3".to_string())]),
        ])
    );
    let back = Vec::<Vec<u64>>::from_av(av).unwrap();
    assert_eq!(back, vec![vec![1, 2], vec![], vec![3]]);
}

#[test]
fn nested_maps_round_trip() {
    let mut inner: StringMap<u64> = StringMap::new();
    inner.insert("x".to_string(), 1);
    let mut outer: StringMap<StringMap<u64>> = StringMap::new();
    outer.insert("inner".to_string(), inner);
    let av = outer.into_av();
    assert_eq!(
        av,
        AttrValue::M(vec![(
            "inner".to_string(),
            AttrValue::M(vec![("x".to_string(), AttrValue::N("1".to_string()))]),
        )])
    );
    let back = StringMap::<StringMap<u64>>::from_av(av).unwrap();
    assert_eq!(back.get("inner").unwrap().get("x"), Some(&1));
}

#[test]
fn one_bad_entry_fails_the_whole_map() {
    let av = AttrValue::M(vec![
        ("a".to_string(), AttrValue::N("1".to_string())),
        ("b".to_string(), AttrValue::S("x".to_string())),
    ]);
    let err = wrong_type(StringMap::<u64>::from_av(av));
    assert_eq!(err, "Expected N, got S(x)");
}

#[test]
fn optional_empty_set_is_lossy_by_design() {
    // A present empty set encodes as Null, exactly as an absent optional
    // does, so decoding recovers the absence, not the set: the one family of
    // values whose round trip is deliberately lossy.
    let av = Some(StringSet::new()).into_av();
    assert_eq!(av, AttrValue::Null);
    let back = Option::<StringSet>::from_av(av).unwrap();
    assert_eq!(back, None);
}
