use conf_reader::config_from_lines::{set_config, Config, ConfigValue};
use conf_reader::equality::same_document;

fn text(s: &str) -> ConfigValue {
    ConfigValue::String(s.to_string())
}

fn object(members: Vec<(&str, ConfigValue)>) -> ConfigValue {
    ConfigValue::Object(members.into_iter().map(|(k, v)| (k.to_string(), v)).collect())
}

fn holding(value: ConfigValue) -> Config {
    let mut config = Config::new();
    config.set(value);
    config
}

fn sample() -> ConfigValue {
    object(vec![
        ("a", ConfigValue::Number(1)),
        ("b", object(vec![("c", text("x")), ("d", ConfigValue::Boolean(true))])),
        ("e", ConfigValue::Null),
    ])
}

#[test]
fn writing_at_a_path_of_one_key() {
    let config = set_config(Config::new(), vec!["a"], "1");
    assert_eq!(*config.value(), object(vec![("a", ConfigValue::Number(1))]));
    let config = set_config(holding(sample()), vec!["a"], "two");
    assert_eq!(
        *config.value(),
        object(vec![
            ("a", text("two")),
            ("b", object(vec![("c", text("x")), ("d", ConfigValue::Boolean(true))])),
            ("e", ConfigValue::Null),
        ])
    );
}

#[test]
fn writing_at_a_longer_path_keeps_the_other_members() {
    let config = set_config(holding(sample()), vec!["b", "c"], "false");
    assert_eq!(
        *config.value(),
        object(vec![
            ("a", ConfigValue::Number(1)),
            ("b", object(vec![("c", ConfigValue::Boolean(false)), ("d", ConfigValue::Boolean(true))])),
            ("e", ConfigValue::Null),
        ])
    );
    let config = set_config(holding(sample()), vec!["b", "new", "deep"], "7");
    assert_eq!(
        *config.value(),
        object(vec![
            ("a", ConfigValue::Number(1)),
            (
                "b",
                object(vec![
                    ("c", text("x")),
                    ("d", ConfigValue::Boolean(true)),
                    ("new", object(vec![("deep", ConfigValue::Number(7))])),
                ])
            ),
            ("e", ConfigValue::Null),
        ])
    );
}

#[test]
fn a_node_on_the_way_that_is_no_object_becomes_one() {
    for root in [ConfigValue::Null, ConfigValue::Boolean(true), ConfigValue::Number(3), text("x")] {
        let config = set_config(holding(root), vec!["k"], "v");
        assert_eq!(*config.value(), object(vec![("k", text("v"))]));
    }
    let config = set_config(holding(sample()), vec!["a", "x", "y"], "1");
    assert_eq!(
        *config.value(),
        object(vec![
            ("a", object(vec![("x", object(vec![("y", ConfigValue::Number(1))]))])),
            ("b", object(vec![("c", text("x")), ("d", ConfigValue::Boolean(true))])),
            ("e", ConfigValue::Null),
        ])
    );
    let config = set_config(holding(sample()), vec!["e", "f"], "1");
    assert_eq!(
        *config.value(),
        object(vec![
            ("a", ConfigValue::Number(1)),
            ("b", object(vec![("c", text("x")), ("d", ConfigValue::Boolean(true))])),
            ("e", object(vec![("f", ConfigValue::Number(1))])),
        ])
    );
}

#[test]
fn without_a_key_nothing_is_written() {
    let config = set_config(holding(sample()), vec![], "1");
    assert_eq!(*config.value(), sample());
    let config = set_config(Config::new(), vec![], "1");
    assert_eq!(*config.value(), ConfigValue::Null);
}

#[test]
fn writing_twice_at_a_path_is_writing_the_second_value_once() {
    let paths: [Vec<&str>; 6] =
        [vec!["a"], vec!["b", "c"], vec!["b", "z"], vec!["a", "b", "c"], vec!["new"], vec!["", ""]];
    let values = ["1", "true", "text", "-5", ""];
    for path in &paths {
        for first in values {
            for second in values {
                let twice =
                    set_config(set_config(holding(sample()), path.clone(), first), path.clone(), second);
                let once = set_config(holding(sample()), path.clone(), second);
                assert_eq!(*twice.value(), *once.value());
            }
        }
    }
}

#[test]
fn a_very_long_path() {
    let keys: Vec<String> = (0..2000).map(|i| format!("k{}", i)).collect();
    let path: Vec<&str> = keys.iter().map(|k| k.as_str()).collect();
    let config = set_config(Config::new(), path.clone(), "true");
    let mut node = config.value();
    for key in &path {
        match node {
            ConfigValue::Object(bindings) => {
                assert_eq!(bindings.len(), 1);
                assert_eq!(bindings[0].0, *key);
                node = &bindings[0].1;
            }
            other => panic!("not an object: {:?}", other),
        }
    }
    assert!(matches!(node, ConfigValue::Boolean(true)));
}

#[test]
fn the_order_of_the_bindings_does_not_count() {
    let one = object(vec![
        ("a", ConfigValue::Number(1)),
        ("b", object(vec![("c", text("x")), ("d", ConfigValue::Boolean(true))])),
    ]);
    let other = object(vec![
        ("b", object(vec![("d", ConfigValue::Boolean(true)), ("c", text("x"))])),
        ("a", ConfigValue::Number(1)),
    ]);
    assert!(same_document(&one, &other));
    assert!(one == other);
    assert_eq!(one, other);
}

#[test]
fn a_replaced_binding_does_not_count() {
    let one = object(vec![("a", ConfigValue::Number(1)), ("b", text("x")), ("a", ConfigValue::Number(2))]);
    assert_eq!(one, object(vec![("a", ConfigValue::Number(2)), ("b", text("x"))]));
    assert_ne!(one, object(vec![("a", ConfigValue::Number(1)), ("b", text("x"))]));
    assert_ne!(one, object(vec![("a", ConfigValue::Number(2))]));
}

#[test]
fn different_documents_are_told_apart() {
    let values = [
        ConfigValue::Null,
        ConfigValue::Boolean(true),
        ConfigValue::Boolean(false),
        ConfigValue::Number(0),
        ConfigValue::Number(1),
        text(""),
        text("0"),
        text("true"),
        object(vec![]),
        object(vec![("a", ConfigValue::Null)]),
        object(vec![("a", ConfigValue::Number(0))]),
        object(vec![("b", ConfigValue::Number(0))]),
        object(vec![("a", ConfigValue::Number(0)), ("b", ConfigValue::Number(0))]),
        object(vec![("a", object(vec![]))]),
        object(vec![("a", object(vec![("a", ConfigValue::Number(0))]))]),
    ];
    for (i, a) in values.iter().enumerate() {
        for (j, b) in values.iter().enumerate() {
            assert_eq!(same_document(a, b), i == j, "{:?} {:?}", a, b);
            assert_eq!(a == b, i == j);
        }
    }
}
