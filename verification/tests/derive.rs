//! The codec a derivation front end would emit for a sum type, written out
//! by hand against the library's variant engine.

use into_dynamo::error::Error;
use into_dynamo::record::{decode_required, encode_field, take_field};
use into_dynamo::value::AttrValue;
use into_dynamo::variant::{
    decode_variant, encode_unit_variant, encode_variant_map, positional_key, unknown_variant,
    VariantForm,
};

#[derive(Debug, PartialEq)]
pub enum TestEnum {
    Test1,
    Test2,
    Test3,
    TestStruct { test: String },
}

impl Default for TestEnum {
    fn default() -> TestEnum {
        TestEnum::Test2
    }
}

impl TestEnum {
    fn into_av(self) -> AttrValue {
        match self {
            TestEnum::Test1 => encode_unit_variant("Test1"),
            TestEnum::Test2 => encode_unit_variant("Test2"),
            // declared rename: the wire tag differs from the identifier
            TestEnum::Test3 => encode_unit_variant("renamed"),
            TestEnum::TestStruct { test } => {
                let mut fields: Vec<(String, AttrValue)> = Vec::new();
                encode_field(&mut fields, "test", test);
                encode_variant_map(fields, "TestStruct")
            }
        }
    }

    fn from_av(av: AttrValue) -> Result<TestEnum, Error> {
        match decode_variant(av)? {
            VariantForm::Unit(name) => match name.as_str() {
                "Test1" => Ok(TestEnum::Test1),
                "Test2" => Ok(TestEnum::Test2),
                "renamed" => Ok(TestEnum::Test3),
                other => Err(unknown_variant("TestEnum", "Test1, Test2, renamed", other)),
            },
            VariantForm::Tagged(name, mut fields) => match name.as_str() {
                "TestStruct" => Ok(TestEnum::TestStruct {
                    test: decode_required(&mut fields, "test")?,
                }),
                other => Err(unknown_variant("TestEnum", "TestStruct", other)),
            },
        }
    }
}

#[derive(Debug, PartialEq)]
pub struct TestStruct {
    action_abc: TestEnum,
}

impl TestStruct {
    fn into_item(self) -> Vec<(String, AttrValue)> {
        let mut out: Vec<(String, AttrValue)> = Vec::new();
        out.push(("action_abc".to_string(), self.action_abc.into_av()));
        out
    }

    fn from_item(mut map: Vec<(String, AttrValue)>) -> Result<TestStruct, Error> {
        Ok(TestStruct {
            // the field is declared `default`: an absent key decodes to the
            // type's default value instead of failing
            action_abc: match take_field(&mut map, "action_abc") {
                Some(av) => TestEnum::from_av(av)?,
                None => TestEnum::default(),
            },
        })
    }
}

#[test]
fn lib_it_works() {
    let test = TestStruct {
        action_abc: TestEnum::Test3,
    };

    let mut item = test.into_item();
    item.retain(|(k, _)| k != "action_abc");

    let test = TestStruct::from_item(item).unwrap();
    assert_eq!(test.action_abc, TestEnum::Test2);
}

#[test]
fn unit_variant_encodes_as_bare_wire_name() {
    assert_eq!(
        TestEnum::Test1.into_av(),
        AttrValue::S("Test1".to_string())
    );
    let back = TestEnum::from_av(AttrValue::S("Test1".to_string())).unwrap();
    assert_eq!(back, TestEnum::Test1);
}

#[test]
fn renamed_variant_uses_wire_name_both_ways() {
    // encode writes the declared rename, not the identifier
    assert_eq!(
        TestEnum::Test3.into_av(),
        AttrValue::S("renamed".to_string())
    );
    // decode matches the rename
    let back = TestEnum::from_av(AttrValue::S("renamed".to_string())).unwrap();
    assert_eq!(back, TestEnum::Test3);
    // the identifier itself is not a wire name
    let err = TestEnum::from_av(AttrValue::S("Test3".to_string())).unwrap_err();
    let Error::WrongType(message) = err;
    assert_eq!(
        message,
        "Expected variant of enum TestEnum (one of Test1, Test2, renamed), got Test3"
    );
}

#[test]
fn tagged_variant_round_trips() {
    let value = TestEnum::TestStruct {
        test: "substruct_string".to_string(),
    };
    let av = value.into_av();
    assert_eq!(
        av,
        AttrValue::M(vec![
            (
                "test".to_string(),
                AttrValue::S("substruct_string".to_string())
            ),
            (
                "dynamo_enum_variant_name".to_string(),
                AttrValue::S("TestStruct".to_string())
            ),
        ])
    );
    let back = TestEnum::from_av(av).unwrap();
    assert_eq!(
        back,
        TestEnum::TestStruct {
            test: "substruct_string".to_string(),
        }
    );
}

#[test]
fn unknown_tagged_variant_fails() {
    let av = AttrValue::M(vec![
        ("test".to_string(), AttrValue::S("x".to_string())),
        (
            "dynamo_enum_variant_name".to_string(),
            AttrValue::S("NoSuchVariant".to_string()),
        ),
    ]);
    let err = TestEnum::from_av(av).unwrap_err();
    let Error::WrongType(message) = err;
    assert_eq!(
        message,
        "Expected variant of enum TestEnum (one of TestStruct), got NoSuchVariant"
    );
}

#[test]
fn map_without_discriminator_fails() {
    let av = AttrValue::M(vec![(
        "test".to_string(),
        AttrValue::S("x".to_string()),
    )]);
    let err = TestEnum::from_av(av).unwrap_err();
    let Error::WrongType(message) = err;
    assert_eq!(message, "Expected S for dynamo_enum_variant_name, got None");
}

#[test]
fn enum_payload_missing_field_names_it() {
    let av = AttrValue::M(vec![(
        "dynamo_enum_variant_name".to_string(),
        AttrValue::S("TestStruct".to_string()),
    )]);
    let err = TestEnum::from_av(av).unwrap_err();
    let Error::WrongType(message) = err;
    assert_eq!(message, "Missing field test");
}

/// A sum type with a positional-fields variant: its field keys are
/// synthesised from the positions.
#[derive(Debug, PartialEq)]
pub enum Tagged {
    Pair(u64, String),
}

impl Tagged {
    fn into_av(self) -> AttrValue {
        match self {
            Tagged::Pair(first, second) => {
                let mut fields: Vec<(String, AttrValue)> = Vec::new();
                encode_field(&mut fields, positional_key(0).as_str(), first);
                encode_field(&mut fields, positional_key(1).as_str(), second);
                encode_variant_map(fields, "Pair")
            }
        }
    }

    fn from_av(av: AttrValue) -> Result<Tagged, Error> {
        match decode_variant(av)? {
            VariantForm::Unit(name) => Err(unknown_variant("Tagged", "Pair", name.as_str())),
            VariantForm::Tagged(name, mut fields) => match name.as_str() {
                "Pair" => Ok(Tagged::Pair(
                    decode_required(&mut fields, positional_key(0).as_str())?,
                    decode_required(&mut fields, positional_key(1).as_str())?,
                )),
                other => Err(unknown_variant("Tagged", "Pair", other)),
            },
        }
    }
}

#[test]
fn positional_variant_round_trips() {
    let value = Tagged::Pair(7, "seven".to_string());
    let av = value.into_av();
    assert_eq!(
        av,
        AttrValue::M(vec![
            ("field_0".to_string(), AttrValue::N("7".to_string())),
            ("field_1".to_string(), AttrValue::S("seven".to_string())),
            (
                "dynamo_enum_variant_name".to_string(),
                AttrValue::S("Pair".to_string())
            ),
        ])
    );
    let back = Tagged::from_av(av).unwrap();
    assert_eq!(back, Tagged::Pair(7, "seven".to_string()));
}
