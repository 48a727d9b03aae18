use r2proto3::parser::{Parser, RawDecl};
use r2proto3::utils::ErrorKind;

fn decl(name: &str, lines: &[&str]) -> RawDecl {
    RawDecl { name: name.to_string(), lines: lines.iter().map(|s| s.to_string()).collect() }
}

fn strings(v: &[&str]) -> Vec<String> {
    v.iter().map(|s| s.to_string()).collect()
}

#[test]
fn field_numbers_skip_reserved_band() {
    let parser = Parser::new(false, false, false);
    let lines: Vec<String> = (0..19_000).map(|_| "flag: bool".to_string()).collect();
    let fields = parser.parse_struct_fields(&lines, &strings(&[])).unwrap();
    assert_eq!(fields.len(), 19_000);
    assert_eq!(fields[0].field_num, 1);
    assert_eq!(fields[18_997].field_num, 18_998);
    assert_eq!(fields[18_998].field_num, 18_999);
    assert_eq!(fields[18_999].field_num, 20_000);
    for f in &fields {
        assert!(f.field_num < 19_000 || f.field_num >= 20_000);
    }
}

#[test]
fn anonymous_fields_get_synthesized_names() {
    let parser = Parser::new(false, false, false);
    let fields = parser.parse_struct_fields(&strings(&["i32", "String"]), &strings(&[])).unwrap();
    assert_eq!(fields.len(), 2);
    assert_eq!(fields[0].name.as_str(), "anonymous_value_1");
    assert_eq!(fields[0].proto3_type.as_str(), "int32");
    assert_eq!(fields[1].name.as_str(), "anonymous_value_2");
    assert_eq!(fields[1].proto3_type.as_str(), "string");
}

#[test]
fn anonymous_names_follow_line_position_past_reserved_band() {
    let parser = Parser::new(false, false, false);
    let lines: Vec<String> = (0..19_000).map(|_| "bool".to_string()).collect();
    let fields = parser.parse_struct_fields(&lines, &strings(&[])).unwrap();
    assert_eq!(fields[18_998].name.as_str(), "anonymous_value_18999");
    assert_eq!(fields[18_998].field_num, 18_999);
    assert_eq!(fields[18_999].name.as_str(), "anonymous_value_19000");
    assert_eq!(fields[18_999].field_num, 20_000);
}

#[test]
fn enum_values_count_from_zero_without_gaps() {
    let parser = Parser::new(false, false, false);
    let variants =
        parser.parse_enum_fields(&strings(&["Alpha,", "Beta,", "Gamma"])).unwrap();
    assert_eq!(variants.len(), 3);
    for (i, v) in variants.iter().enumerate() {
        assert_eq!(v.value, i as i32);
    }
    assert_eq!(variants[0].name.as_str(), "Alpha");
    assert_eq!(variants[1].name.as_str(), "Beta");
    assert_eq!(variants[2].name.as_str(), "Gamma");
}

#[test]
fn value_carrying_variant_rejects_enum() {
    let parser = Parser::new(false, false, false);
    let r = parser.parse_enum_fields(&strings(&["Alpha", "Beta(u32)"]));
    assert_eq!(r.unwrap_err().kind(), ErrorKind::ValueCarryingVariant);
}

#[test]
fn end_to_end_two_field_struct() {
    let mut parser = Parser::new(false, false, false);
    let messages = vec![decl("X", &["name: String,", "values: Vec<i64>,"])];
    let skips = parser.process(&messages, &vec![], &strings(&["X"])).unwrap();
    assert!(skips.is_empty());
    assert_eq!(
        parser.generate(),
        "syntax = \"proto3\";\n\nmessage X {\n  string name = 1;\n  repeated int64 values = 2;\n}\n"
    );
}

#[test]
fn end_to_end_map_field() {
    let mut parser = Parser::new(false, false, false);
    let messages = vec![decl("M", &["table: HashMap<String, u32>,"])];
    parser.process(&messages, &vec![], &strings(&["M"])).unwrap();
    assert_eq!(
        parser.generate(),
        "syntax = \"proto3\";\n\nmessage M {\n  map<string, uint32> table = 1;\n}\n"
    );
}

#[test]
fn end_to_end_enum_rendering() {
    let mut parser = Parser::new(false, false, false);
    let enums = vec![decl("Color", &["Red,", "Green,", "Blue,"])];
    parser.process(&vec![], &enums, &strings(&["Color"])).unwrap();
    assert_eq!(
        parser.generate(),
        "syntax = \"proto3\";\n\nenum Color {\n  Red = 0;\n  Green = 1;\n  Blue = 2;\n}\n"
    );
}

#[test]
fn empty_run_renders_only_syntax_line() {
    let mut parser = Parser::new(false, false, false);
    parser.process(&vec![], &vec![], &strings(&[])).unwrap();
    assert_eq!(parser.generate(), "syntax = \"proto3\";\n");
}

#[test]
fn entities_render_in_ascending_name_order() {
    let mut parser = Parser::new(false, false, false);
    let messages = vec![decl("Zeta", &["a: bool,"]), decl("Alpha", &["b: bool,"])];
    parser.process(&messages, &vec![], &strings(&["Zeta", "Alpha"])).unwrap();
    let out = parser.generate();
    let alpha = out.find("message Alpha").unwrap();
    let zeta = out.find("message Zeta").unwrap();
    assert!(alpha < zeta);
}

#[test]
fn duplicate_name_keeps_later_declaration() {
    let mut parser = Parser::new(false, false, false);
    let messages = vec![
        decl("Foo", &["first: bool,"]),
        decl("Foo", &["second: i64,"]),
    ];
    parser.process(&messages, &vec![], &strings(&["Foo"])).unwrap();
    let out = parser.generate();
    assert_eq!(out.matches("message Foo").count(), 1);
    assert!(out.contains("int64 second = 1;"));
    assert!(!out.contains("first"));
}

#[test]
fn unresolvable_entity_dropped_in_lenient_mode() {
    let mut parser = Parser::new(false, false, false);
    let messages = vec![decl("Good", &["a: bool,"]), decl("Bad", &["x: Nonsense,"])];
    let skips = parser.process(&messages, &vec![], &strings(&["Good", "Bad"])).unwrap();
    assert_eq!(skips.len(), 1);
    assert_eq!(skips[0].0.as_str(), "Bad");
    assert_eq!(skips[0].1.kind(), ErrorKind::UnknownType);
    let out = parser.generate();
    assert!(out.contains("message Good"));
    assert!(!out.contains("Bad"));
}

#[test]
fn unresolvable_entity_aborts_strict_run() {
    let mut parser = Parser::new(false, true, false);
    let messages = vec![decl("Bad", &["x: Nonsense,"])];
    let r = parser.process(&messages, &vec![], &strings(&["Bad"]));
    let err = r.unwrap_err();
    assert_eq!(err.kind(), ErrorKind::UnknownType);
    assert!(err.description().contains("the struct `Bad` won't be attached"));
    assert!(err.description().contains(" :: cause of = "));
    assert!(err.description().contains("unknown type - `Nonsense`"));
}

#[test]
fn double_wrap_error_reaches_the_run() {
    let mut parser = Parser::new(false, true, false);
    let messages = vec![decl("W", &["xs: Vec<Vec<u32>>,"])];
    let r = parser.process(&messages, &vec![], &strings(&["W"]));
    assert_eq!(r.unwrap_err().kind(), ErrorKind::DoubleWrapped);
}

#[test]
fn forward_reference_resolves() {
    let mut parser = Parser::new(false, false, false);
    let messages = vec![
        decl("Uses", &["other: Later,"]),
        decl("Later", &["n: u32,"]),
    ];
    parser.process(&messages, &vec![], &strings(&["Uses", "Later"])).unwrap();
    let out = parser.generate();
    assert!(out.contains("Later other = 1;"));
}

#[test]
fn field_line_comments_and_commas_are_stripped() {
    let parser = Parser::new(false, false, false);
    let fields = parser
        .parse_struct_fields(
            &strings(&["count: u64, // how many"]),
            &strings(&[]),
        )
        .unwrap();
    assert_eq!(fields[0].name.as_str(), "count");
    assert_eq!(fields[0].rust_type.as_str(), "u64");
    assert_eq!(fields[0].proto3_type.as_str(), "uint64");
}
