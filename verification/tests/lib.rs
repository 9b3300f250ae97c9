use into_dynamo::error::Error;
use into_dynamo::record::{decode_optional, decode_required, encode_field, encode_optional_field};
use into_dynamo::value::AttrValue;

#[derive(Debug, PartialEq)]
pub struct TestStruct {
    string_name: String,
    usize_name: usize,
    isize_name: isize,
    bool_name: bool,
    vec_string_name: Vec<String>,
    option_name_some: Option<String>,
    option_name_none: Option<Vec<String>>,
}

impl TestStruct {
    fn into_item(self) -> Vec<(String, AttrValue)> {
        let mut out: Vec<(String, AttrValue)> = Vec::new();
        encode_field(&mut out, "string_name", self.string_name);
        encode_field(&mut out, "usize_name", self.usize_name);
        encode_field(&mut out, "isize_name", self.isize_name);
        encode_field(&mut out, "bool_name", self.bool_name);
        encode_field(&mut out, "vec_string_name", self.vec_string_name);
        encode_optional_field(&mut out, "option_name_some", self.option_name_some);
        encode_optional_field(&mut out, "option_name_none", self.option_name_none);
        out
    }

    fn from_item(mut map: Vec<(String, AttrValue)>) -> Result<TestStruct, Error> {
        Ok(TestStruct {
            string_name: decode_required(&mut map, "string_name")?,
            usize_name: decode_required(&mut map, "usize_name")?,
            isize_name: decode_required(&mut map, "isize_name")?,
            bool_name: decode_required(&mut map, "bool_name")?,
            vec_string_name: decode_required(&mut map, "vec_string_name")?,
            option_name_some: decode_optional(&mut map, "option_name_some")?,
            option_name_none: decode_optional(&mut map, "option_name_none")?,
        })
    }
}

fn sample() -> TestStruct {
    TestStruct {
        string_name: "test_value".to_string(),
        usize_name: 25,
        isize_name: -5000,
        bool_name: true,
        vec_string_name: vec!["test_value".to_string(), "test_value2".to_string()],
        option_name_some: Some("x".to_string()),
        option_name_none: None,
    }
}

#[test]
fn it_works() {
    let test = sample();
    let item = test.into_item();

    let expected: Vec<(String, AttrValue)> = vec![
        (
            "string_name".to_string(),
            AttrValue::S("test_value".to_string()),
        ),
        ("usize_name".to_string(), AttrValue::N("25".to_string())),
        ("isize_name".to_string(), AttrValue::N("-5000".to_string())),
        ("bool_name".to_string(), AttrValue::Bool(true)),
        (
            "vec_string_name".to_string(),
            AttrValue::L(vec![
                AttrValue::S("test_value".to_string()),
                AttrValue::S("test_value2".to_string()),
            ]),
        ),
        (
            "option_name_some".to_string(),
            AttrValue::S("x".to_string()),
        ),
    ];
    assert_eq!(item, expected);

    let back = TestStruct::from_item(item).unwrap();
    assert_eq!(back, sample());
}

#[test]
fn missing_required_field_names_it() {
    let mut item = sample().into_item();
    item.retain(|(k, _)| k != "bool_name");
    let err = TestStruct::from_item(item).unwrap_err();
    let Error::WrongType(message) = err;
    assert_eq!(message, "Missing field bool_name");
}

#[test]
fn absent_optional_field_decodes_to_none() {
    let test = TestStruct {
        option_name_some: None,
        ..sample()
    };
    let item = test.into_item();
    assert!(item.iter().all(|(k, _)| k != "option_name_some"));
    let back = TestStruct::from_item(item).unwrap();
    assert_eq!(back.option_name_some, None);
}

#[test]
fn explicit_null_optional_field_decodes_to_none() {
    let mut item = sample().into_item();
    for entry in item.iter_mut() {
        if entry.0 == "option_name_some" {
            entry.1 = AttrValue::Null;
        }
    }
    let back = TestStruct::from_item(item).unwrap();
    assert_eq!(back.option_name_some, None);
}

#[test]
fn present_but_mistyped_optional_field_is_an_error() {
    let mut item = sample().into_item();
    for entry in item.iter_mut() {
        if entry.0 == "option_name_some" {
            entry.1 = AttrValue::Bool(true);
        }
    }
    let err = TestStruct::from_item(item).unwrap_err();
    let Error::WrongType(message) = err;
    assert_eq!(message, "Expected S, got Bool(true)");
}
