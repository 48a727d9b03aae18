use r2proto3::types::TypesParser;
use r2proto3::utils::{ErrorKind, R2Proto3Error};
use regex::Regex;

#[test]
fn test_dropping_unnecessary_stuff() {
    assert_eq!(TypesParser::drop_type_unnecessary_stuff(" String,").as_str(), "String");
    assert_eq!(
        TypesParser::drop_type_unnecessary_stuff("HashMap<String, u32>").as_str(),
        "HashMap<String, u32>"
    );
    assert_eq!(
        TypesParser::drop_type_unnecessary_stuff("HashMap<String, u32>, // this is an example")
            .as_str(),
        "HashMap<String, u32>"
    );
}

#[test]
fn split_inner_types_test() {
    assert_eq!(
        TypesParser::split_inner_types(&"HashMap<String, i32>"[8..19]),
        Ok(vec!["String".to_string(), " i32".to_string()])
    );

    let inner_map_type_re =
        Regex::new("(HashMap<([a-zA-Z0-9<>,:_ ]*)>)|(BTreeMap<([a-zA-Z0-9<>,:_ ]*)>)").unwrap();
    assert_eq!(
        inner_map_type_re.captures_iter("HashMap<String, u32>").map(|c| c.extract()).next(),
        Some(("HashMap<String, u32>", ["HashMap<String, u32>", "String, u32"]))
    );

    assert_eq!(
        TypesParser::split_inner_types(
            inner_map_type_re
                .captures_iter("HashMap<String, u32>")
                .map(|c| c.extract::<2>())
                .next()
                .unwrap()
                .1[1]
        ),
        Ok(vec!["String".to_string(), " u32".to_string()])
    );
}

fn resolve(expr: &str, known: &[&str], for_map_key: bool) -> Result<String, ErrorKind> {
    let tp = TypesParser::new();
    let known: Vec<String> = known.iter().map(|s| s.to_string()).collect();
    tp.rust_type_to_protobuf(expr, &known, for_map_key).map_err(|e| e.kind())
}

#[test]
fn scalar_table_maps_exactly() {
    let cases = [
        ("f64", "double"),
        ("f32", "float"),
        ("f16", "float"),
        ("f8", "float"),
        ("i64", "int64"),
        ("i32", "int32"),
        ("i16", "int32"),
        ("i8", "int32"),
        ("u64", "uint64"),
        ("u32", "uint32"),
        ("u16", "uint32"),
        ("u8", "uint32"),
        ("bool", "bool"),
        ("String", "string"),
        ("Vec<u8>", "bytes"),
    ];
    for (expr, expected) in cases {
        assert_eq!(resolve(expr, &[], false), Ok(expected.to_string()));
    }
}

#[test]
fn float_and_bytes_rejected_as_map_keys() {
    for expr in ["f64", "f32", "f16", "f8", "Vec<u8>"] {
        assert_eq!(resolve(expr, &[], true), Err(ErrorKind::UnsupportedMapKey));
    }
    assert_eq!(resolve("i64", &[], true), Ok("int64".to_string()));
    assert_eq!(resolve("String", &[], true), Ok("string".to_string()));
    assert_eq!(resolve("bool", &[], true), Ok("bool".to_string()));
}

#[test]
fn optional_wraps_and_never_flattens() {
    assert_eq!(resolve("Option<String>", &[], false), Ok("optional string".to_string()));
    assert_eq!(resolve("Option<i64>", &[], false), Ok("optional int64".to_string()));
    assert_eq!(
        resolve("Option<Option<String>>", &[], false),
        Err(ErrorKind::DoubleWrapped)
    );
}

#[test]
fn list_wraps_and_never_flattens() {
    assert_eq!(resolve("Vec<i64>", &[], false), Ok("repeated int64".to_string()));
    assert_eq!(resolve("Vec<String>", &[], false), Ok("repeated string".to_string()));
    assert_eq!(resolve("Vec<Vec<i64>>", &[], false), Err(ErrorKind::DoubleWrapped));
}

#[test]
fn splitter_respects_nested_delimiters() {
    assert_eq!(
        TypesParser::split_inner_types("A<B,C>, D"),
        Ok(vec!["A<B,C>".to_string(), " D".to_string()])
    );
}

#[test]
fn splitter_rejects_mismatched_delimiters() {
    let r = TypesParser::split_inner_types("A>B");
    assert!(r.is_err());
    assert_eq!(r.unwrap_err().kind(), ErrorKind::MismatchedDelimiters);
    let r = TypesParser::split_inner_types("A<(B>)");
    assert!(r.is_err());
    assert_eq!(r.unwrap_err().kind(), ErrorKind::MismatchedDelimiters);
}

#[test]
fn map_resolves_and_restricts_keys() {
    assert_eq!(
        resolve("HashMap<String, u32>", &[], false),
        Ok("map<string, uint32>".to_string())
    );
    assert_eq!(
        resolve("BTreeMap<String, i64>", &[], false),
        Ok("map<string, int64>".to_string())
    );
    assert_eq!(resolve("HashMap<f64, String>", &[], false), Err(ErrorKind::UnsupportedMapKey));
    assert_eq!(resolve("HashMap<u8>", &[], false), Err(ErrorKind::WrongArity));
    assert_eq!(resolve("HashMap<u8, u8, u8>", &[], false), Err(ErrorKind::WrongArity));
}

#[test]
fn known_and_unknown_type_names() {
    assert_eq!(resolve("Foo", &["Foo"], false), Ok("Foo".to_string()));
    assert_eq!(resolve("Bar", &["Foo"], false), Err(ErrorKind::UnknownType));
    assert_eq!(resolve("Vec<Foo>", &["Foo"], false), Ok("repeated Foo".to_string()));
}

#[test]
fn error_equality_compares_descriptions_only() {
    let a = R2Proto3Error::new(ErrorKind::UnknownType, "same text".to_string());
    let b = R2Proto3Error::new(ErrorKind::WrongArity, "same text".to_string());
    let c = R2Proto3Error::new(ErrorKind::UnknownType, "other text".to_string());
    assert_eq!(a, b);
    assert_ne!(a, c);
}

#[test]
fn clear_type_name_strips_visibility() {
    assert_eq!(TypesParser::clear_type_name("pub name").as_str(), "name");
    assert_eq!(TypesParser::clear_type_name("pub(crate) name").as_str(), "name");
    assert_eq!(TypesParser::clear_type_name("pub(super) name").as_str(), "name");
    assert_eq!(TypesParser::clear_type_name("name").as_str(), "name");
}
