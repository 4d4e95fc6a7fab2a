use conf_reader::config_from_lines::ConfigValue;
use conf_reader::file_reader::schema_file_reader::{schema_from_lines, schema_from_text};
use conf_reader::json_from_conf::{json_from_conf, JsonFromConfError};
use conf_reader::model::schema::{schema_from_rules, Schema, SchemaError, ValueType};

fn text(s: &str) -> ConfigValue {
    ConfigValue::String(s.to_string())
}

fn object(members: Vec<(&str, ConfigValue)>) -> ConfigValue {
    ConfigValue::Object(members.into_iter().map(|(k, v)| (k.to_string(), v)).collect())
}

fn schema(rules: &[(&str, &str)]) -> Schema {
    schema_from_rules(&rules.to_vec()).unwrap()
}

const TAGS: [(&str, ValueType); 5] = [
    ("Bool", ValueType::Bool),
    ("Number", ValueType::Number),
    ("String", ValueType::String),
    ("Array", ValueType::Array),
    ("Object", ValueType::Object),
];

#[test]
fn each_type_is_named_by_its_own_name() {
    for (name, tag) in TAGS {
        assert_eq!(ValueType::from_text(name), Some(tag));
        assert_eq!(tag.name(), name);
    }
}

#[test]
fn type_names_are_matched_letter_for_letter() {
    for name in
        ["bool", "BOOL", "string", "number", "array", "object", "Boolean", "Int", "", " Bool", "Bool ", "Str"]
    {
        assert_eq!(ValueType::from_text(name), None, "{:?}", name);
    }
}

#[test]
fn which_values_have_which_type() {
    let values = [
        (ConfigValue::Boolean(true), Some(ValueType::Bool)),
        (ConfigValue::Boolean(false), Some(ValueType::Bool)),
        (ConfigValue::Number(0), Some(ValueType::Number)),
        (ConfigValue::Number(-7), Some(ValueType::Number)),
        (text(""), Some(ValueType::String)),
        (text("true"), Some(ValueType::String)),
        (object(vec![]), Some(ValueType::Object)),
        (object(vec![("a", ConfigValue::Null)]), Some(ValueType::Object)),
        (ConfigValue::Null, None),
    ];
    for (value, its_type) in &values {
        for (_, tag) in TAGS {
            assert_eq!(tag.matches_value(value), Some(tag) == *its_type, "{:?} {:?}", tag, value);
        }
    }
}

#[test]
fn a_rule_with_an_unknown_type_is_rejected_with_its_text() {
    match Schema::default().add_rule("debug", "boolean") {
        Err(SchemaError::InvalidValueType(given)) => assert_eq!(given, "boolean"),
        other => panic!("accepted: {:?}", other),
    }
    let error = Schema::default().add_rule("debug", "").unwrap_err();
    assert_eq!(error.message(), "Invalid value type: ");
    let error = Schema::default().add_rule("debug", "string").unwrap_err();
    assert_eq!(error.message(), "Invalid value type: string");
}

#[test]
fn a_key_outside_the_schema_is_invalid_whatever_the_value() {
    let schema = schema(&[("debug", "Bool"), ("log.file", "String")]);
    let values = [
        ConfigValue::Boolean(true),
        ConfigValue::Number(1),
        text("x"),
        object(vec![]),
        ConfigValue::Null,
    ];
    for value in &values {
        for path in [vec!["endpoint"], vec!["log"], vec!["file"], vec!["log", "name"], vec![], vec![""], vec!["Debug"], vec!["debug", ""]] {
            assert!(!schema.is_valid(&path, value), "{:?} {:?}", path, value);
        }
    }
    for value in &values {
        assert!(!Schema::default().is_valid(&["debug"], value));
    }
}

#[test]
fn a_listed_key_is_valid_with_a_value_of_its_type_only() {
    let schema = schema(&[
        ("debug", "Bool"),
        ("log.file", "String"),
        ("revalidate", "Number"),
        ("log", "Object"),
        ("list", "Array"),
    ]);
    assert!(schema.is_valid(&["debug"], &ConfigValue::Boolean(false)));
    assert!(!schema.is_valid(&["debug"], &text("false")));
    assert!(!schema.is_valid(&["debug"], &ConfigValue::Number(0)));
    assert!(schema.is_valid(&["log", "file"], &text("/var/log")));
    assert!(!schema.is_valid(&["log", "file"], &ConfigValue::Boolean(true)));
    assert!(schema.is_valid(&["revalidate"], &ConfigValue::Number(60)));
    assert!(!schema.is_valid(&["revalidate"], &text("60")));
    assert!(schema.is_valid(&["log"], &object(vec![])));
    assert!(!schema.is_valid(&["log"], &text("x")));
    for value in [ConfigValue::Boolean(true), ConfigValue::Number(1), text("[]"), object(vec![]), ConfigValue::Null] {
        assert!(!schema.is_valid(&["list"], &value));
        assert!(!schema.is_valid(&["debug"], &ConfigValue::Null));
    }
}

#[test]
fn a_later_rule_for_a_key_replaces_the_earlier_one() {
    let schema = Schema::default()
        .add_rule("a", "Bool")
        .unwrap()
        .add_rule("b", "Number")
        .unwrap()
        .add_rule("a", "String")
        .unwrap();
    assert!(schema.is_valid(&["a"], &text("x")));
    assert!(!schema.is_valid(&["a"], &ConfigValue::Boolean(true)));
    assert!(schema.is_valid(&["b"], &ConfigValue::Number(1)));
    let schema =
        Schema::new(vec![("a".to_string(), ValueType::Bool), ("a".to_string(), ValueType::Number)]);
    assert!(schema.is_valid(&["a"], &ConfigValue::Number(1)));
    assert!(!schema.is_valid(&["a"], &ConfigValue::Boolean(true)));
}

#[test]
fn the_first_unknown_type_ends_the_building_of_a_schema() {
    let rules = vec![("a", "Bool"), ("b", "int"), ("c", "String"), ("d", "float")];
    match schema_from_rules(&rules) {
        Err(SchemaError::InvalidValueType(given)) => assert_eq!(given, "int"),
        other => panic!("accepted: {:?}", other),
    }
    assert!(schema_from_rules(&vec![]).is_ok());
}

#[test]
fn schema_validation_accepts_matching_lines() {
    let schema = Schema::new(vec![
        ("endpoint".to_string(), ValueType::from_text("String").unwrap()),
        ("debug".to_string(), ValueType::from_text("Bool").unwrap()),
        ("log.file".to_string(), ValueType::from_text("String").unwrap()),
    ]);
    let document = json_from_conf(
        vec!["endpoint = localhost:3000", "debug = true", "log.file = /var/log/console.log"],
        Some(schema),
    )
    .unwrap();
    let expected = object(vec![
        ("endpoint", text("localhost:3000")),
        ("debug", ConfigValue::Boolean(true)),
        ("log", object(vec![("file", text("/var/log/console.log"))])),
    ]);
    assert_eq!(document, expected);
}

#[test]
fn schema_validation_rejects_a_value_of_another_type() {
    let schema = Schema::new(vec![("debug".to_string(), ValueType::from_text("String").unwrap())]);
    match json_from_conf(vec!["debug = true"], Some(schema)) {
        Err(JsonFromConfError::NotMatchToTheSchema(detail)) => {
            assert_eq!(detail, "key: debug, value: true")
        }
        other => panic!("converted: {:?}", other),
    }
}

#[test]
fn the_error_names_key_and_raw_value() {
    let error = json_from_conf(vec!["  log.level =  007  "], Some(schema(&[("log.level", "String")])))
        .unwrap_err();
    assert_eq!(error.message(), "Config not match to the Schema: key: log.level, value: 007");
}

#[test]
fn the_first_mismatch_in_line_order_ends_the_conversion() {
    let schema = schema(&[("a", "Number"), ("b", "Bool"), ("c", "String")]);
    let lines = vec!["a = 1", "# b = 2", "b = 2", "c = 3", "a = x"];
    match json_from_conf(lines, Some(schema)) {
        Err(JsonFromConfError::NotMatchToTheSchema(detail)) => assert_eq!(detail, "key: b, value: 2"),
        other => panic!("converted: {:?}", other),
    }
}

#[test]
fn a_key_outside_the_schema_ends_the_conversion() {
    let schema = schema(&[("a", "Number")]);
    match json_from_conf(vec!["a = 1", "b = 2"], Some(schema)) {
        Err(JsonFromConfError::NotMatchToTheSchema(detail)) => assert_eq!(detail, "key: b, value: 2"),
        other => panic!("converted: {:?}", other),
    }
    match json_from_conf(vec!["a = 1"], Some(Schema::default())) {
        Err(JsonFromConfError::NotMatchToTheSchema(detail)) => assert_eq!(detail, "key: a, value: 1"),
        other => panic!("converted: {:?}", other),
    }
}

#[test]
fn without_a_schema_every_assignment_is_written() {
    let lines = vec!["a = 1", "b.c = x", "; no", "b.d = false"];
    let expected = conf_reader::config_from_lines(lines.clone()).into_value();
    assert_eq!(json_from_conf(lines, None).unwrap(), expected);
    assert_eq!(json_from_conf(vec![], None).unwrap(), ConfigValue::Null);
    assert_eq!(json_from_conf(vec!["#"], Some(Schema::default())).unwrap(), ConfigValue::Null);
}

#[test]
fn a_schema_changes_no_document() {
    let lines = vec!["a = 1", "", "b.c = x", "b.d = false", "a = 2"];
    let schema = schema(&[("a", "Number"), ("b.c", "String"), ("b.d", "Bool")]);
    assert_eq!(
        json_from_conf(lines.clone(), Some(schema)).unwrap(),
        json_from_conf(lines, None).unwrap()
    );
}

#[test]
fn a_comment_or_blank_line_changes_no_checked_conversion() {
    let lines = vec!["a = 1", "b = true", "c = 3"];
    let rules = [("a", "Number"), ("b", "String"), ("c", "Number")];
    for skipped in ["# b = x", ";", "", " \t"] {
        for at in 0..=lines.len() {
            let mut longer = lines.clone();
            longer.insert(at, skipped);
            let error = json_from_conf(longer, Some(schema(&rules))).unwrap_err();
            assert_eq!(error.message(), "Config not match to the Schema: key: b, value: true");
        }
    }
}

#[test]
fn success_to_read_schema_file() {
    let schema = schema_from_text("endpoint -> string\ndebug -> bool\nlog.file -> string\n");
    let expected = conf_reader::file_reader::schema_file_reader::Schema::new(vec![
        ("endpoint".to_string(), "string".to_string()),
        ("debug".to_string(), "bool".to_string()),
        ("log.file".to_string(), "string".to_string()),
    ]);
    assert_eq!(schema, expected);
    assert_eq!(
        schema.rules(),
        vec![("endpoint", "string"), ("debug", "bool"), ("log.file", "string")]
    );
}

#[test]
fn schema_sources_are_equal_where_they_are_the_same_mapping() {
    let source = |rules: &[(&str, &str)]| {
        conf_reader::file_reader::schema_file_reader::Schema::new(
            rules.iter().map(|(k, t)| (k.to_string(), t.to_string())).collect(),
        )
    };
    let one = source(&[("a", "Bool"), ("b", "String")]);
    assert_eq!(one, source(&[("b", "String"), ("a", "Bool")]));
    assert_eq!(one, source(&[("a", "Number"), ("b", "String"), ("a", "Bool")]));
    assert_eq!(one, schema_from_text("a -> Bool\nb -> String"));
    assert_ne!(one, source(&[("a", "Bool")]));
    assert_ne!(one, source(&[("a", "Bool"), ("b", "String"), ("c", "Bool")]));
    assert_ne!(one, source(&[("a", "Bool"), ("b", "string")]));
    assert_ne!(one, source(&[("a", "Bool"), ("B", "String")]));
    assert_ne!(one, source(&[]));
    assert_eq!(source(&[]), conf_reader::file_reader::schema_file_reader::Schema::default());
    assert!(one.same_rules(&source(&[("b", "String"), ("a", "Bool")])));
}

#[test]
fn a_schema_source_lists_no_key_twice() {
    let schema = conf_reader::file_reader::schema_file_reader::Schema::new(vec![
        ("a".to_string(), "Bool".to_string()),
        ("b".to_string(), "String".to_string()),
        ("a".to_string(), "Number".to_string()),
        ("c".to_string(), "Bool".to_string()),
        ("b".to_string(), "Object".to_string()),
    ]);
    assert_eq!(schema.rules(), vec![("a", "Number"), ("b", "Object"), ("c", "Bool")]);
    assert_eq!(schema.to_text(), "a -> Number\nb -> Object\nc -> Bool\n");
    let schema = schema.add_rule("a", "Array").add_rule("d", "Bool");
    assert_eq!(
        schema.rules(),
        vec![("a", "Array"), ("b", "Object"), ("c", "Bool"), ("d", "Bool")]
    );
}

#[test]
fn schemas_are_equal_where_they_are_the_same_mapping() {
    let one = schema(&[("a", "Bool"), ("b", "String")]);
    assert_eq!(one, schema(&[("b", "String"), ("a", "Bool")]));
    assert_eq!(one, schema(&[("a", "Number"), ("b", "String"), ("a", "Bool")]));
    assert_eq!(
        one,
        Schema::new(vec![
            ("a".to_string(), ValueType::Array),
            ("b".to_string(), ValueType::String),
            ("a".to_string(), ValueType::Bool),
        ])
    );
    assert_ne!(one, schema(&[("a", "Bool")]));
    assert_ne!(one, schema(&[("a", "Bool"), ("b", "Number")]));
    assert_ne!(one, schema(&[("a", "Bool"), ("b", "String"), ("c", "Bool")]));
    assert_ne!(one, schema(&[("a", "Bool"), ("b.", "String")]));
    assert_ne!(one, Schema::default());
    assert_eq!(Schema::default(), Schema::new(vec![]));
    assert!(one.same_rules(&schema(&[("b", "String"), ("a", "Bool")])));
}

#[test]
fn the_lines_of_a_schema_source() {
    let schema = schema_from_lines(vec![
        "  a.b  ->  String ",
        "no rule here",
        "c->Bool",
        "# d -> Number",
        "e -> f -> g",
        "a.b -> Number",
        "->",
        "",
    ]);
    assert_eq!(
        schema.rules(),
        vec![("a.b", "Number"), ("c", "Bool"), ("# d", "Number"), ("e", "f -> g"), ("", "")]
    );
    assert_eq!(schema.to_text(), "a.b -> Number\nc -> Bool\n# d -> Number\ne -> f -> g\n -> \n");
}

#[test]
fn a_schema_source_is_written_out_rule_by_rule() {
    let schema = conf_reader::file_reader::schema_file_reader::Schema::default()
        .add_rule("endpoint", "String")
        .add_rule("debug", "Bool")
        .add_rule("endpoint", "Number");
    assert_eq!(schema.to_text(), "endpoint -> Number\ndebug -> Bool\n");
    assert_eq!(conf_reader::file_reader::schema_file_reader::Schema::default().to_text(), "");
}

#[test]
fn from_a_schema_source_to_a_schema() {
    let source = schema_from_text("debug -> Bool\nlog.file -> String");
    let schema = schema_from_rules(&source.rules()).unwrap();
    assert!(schema.is_valid(&["debug"], &ConfigValue::Boolean(true)));
    assert!(schema.is_valid(&["log", "file"], &text("x")));
    let source = schema_from_text("debug -> bool");
    assert_eq!(
        schema_from_rules(&source.rules()).unwrap_err().message(),
        "Invalid value type: bool"
    );
}
