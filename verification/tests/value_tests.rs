use valitron::parser::parse;
use valitron::FieldName;
use valitron::Value;
use valitron::ValueMap;

fn sample() -> Value {
    Value::Struct(vec![
        (
            "color".to_string(),
            Value::Tuple(vec![Value::UInt8(1), Value::UInt8(2)]),
        ),
        (
            "items".to_string(),
            Value::Array(vec![
                Value::String("a".to_string()),
                Value::String("b".to_string()),
            ]),
        ),
        ("name".to_string(), Value::String("jo".to_string())),
    ])
}

#[test]
fn test_get_with_name() {
    let v = sample();
    let name = v.get_with_name(&FieldName::Literal("name".to_string()));
    assert_eq!(name, Some(&Value::String("jo".to_string())));
    assert_eq!(v.get_with_name(&FieldName::Literal("nope".to_string())), None);
    assert_eq!(v.get_with_name(&FieldName::Array(0)), None);

    let arr = v.get_with_name(&FieldName::Literal("items".to_string())).unwrap();
    assert_eq!(
        arr.get_with_name(&FieldName::Array(1)),
        Some(&Value::String("b".to_string()))
    );
    assert_eq!(arr.get_with_name(&FieldName::Array(2)), None);
}

#[test]
fn test_get_with_names() {
    let v = sample();
    let path = parse("color.1").unwrap();
    assert_eq!(v.get_with_names(&path), Some(&Value::UInt8(2)));
    let path = parse("items[0]").unwrap();
    assert_eq!(v.get_with_names(&path), Some(&Value::String("a".to_string())));
    let path = parse("items[9]").unwrap();
    assert_eq!(v.get_with_names(&path), None);
    let empty: Vec<FieldName> = vec![];
    assert_eq!(v.get_with_names(&empty), Some(&sample()));
}

#[test]
fn test_get() {
    let v = sample();
    assert_eq!(v.get("name"), Some(&Value::String("jo".to_string())));
    assert_eq!(v.get("missing"), None);
    assert_eq!(Value::UInt8(1).get("name"), None);
}

#[test]
fn test_is_leaf() {
    assert!(Value::UInt8(1).is_leaf());
    assert!(Value::Int64(-1).is_leaf());
    assert!(Value::Unit.is_leaf());
    assert!(Value::String("x".to_string()).is_leaf());
    assert!(!Value::Array(vec![]).is_leaf());
    assert!(!Value::Struct(vec![]).is_leaf());
    assert!(!Value::Float32(0).is_leaf());
}

#[test]
fn test_replace_with_names() {
    let mut v = sample();
    let path = parse("color.0").unwrap();
    let displaced = v.replace_with_names(&path, Value::UInt8(9)).unwrap();
    assert_eq!(displaced, Value::UInt8(1));
    assert_eq!(v.get_with_names(&path), Some(&Value::UInt8(9)));

    let bad = parse("color[5]").unwrap();
    let back = v.replace_with_names(&bad, Value::UInt8(7)).unwrap_err();
    assert_eq!(back, Value::UInt8(7));
}

#[test]
fn test_get_mut() {
    let mut v = sample();
    if let Some(m) = v.get_mut("name") {
        *m = Value::String("pat".to_string());
    }
    assert_eq!(v.get("name"), Some(&Value::String("pat".to_string())));
    assert!(v.get_mut("missing").is_none());
    assert!(Value::UInt8(1).get_mut("name").is_none());
}

#[test]
fn test_get_with_name_mut() {
    let mut v = sample();
    if let Some(m) = v.get_with_name_mut(&FieldName::Literal("name".to_string())) {
        *m = Value::String("zoe".to_string());
    }
    assert_eq!(v.get("name"), Some(&Value::String("zoe".to_string())));
    assert!(v.get_with_name_mut(&FieldName::Literal("nope".to_string())).is_none());
}

#[test]
fn test_get_with_names_mut() {
    let mut v = sample();
    let path = parse("items[1]").unwrap();
    if let Some(m) = v.get_with_names_mut(&path) {
        *m = Value::String("c".to_string());
    }
    assert_eq!(v.get_with_names(&path), Some(&Value::String("c".to_string())));
    let bad = parse("items[9]").unwrap();
    assert!(v.get_with_names_mut(&bad).is_none());
}

#[test]
fn test_current_mut() {
    let mut map = ValueMap::new(sample());
    map.index(parse("color.0").unwrap());
    if let Some(m) = map.current_mut() {
        *m = Value::UInt8(42);
    }
    assert_eq!(map.current(), Some(&Value::UInt8(42)));
}

#[test]
fn test_value_map() {
    let mut map = ValueMap::new(sample());
    map.index(parse("name").unwrap());
    assert_eq!(map.current(), Some(&Value::String("jo".to_string())));
    assert_eq!(
        map.get(&FieldName::Literal("name".to_string())),
        Some(&Value::String("jo".to_string()))
    );

    let old = map.take_current().unwrap();
    assert_eq!(old, Value::String("jo".to_string()));
    assert_eq!(map.current(), Some(&Value::Unit));
    assert!(map.restore_current(Value::String("flo".to_string())));
    assert_eq!(map.current(), Some(&Value::String("flo".to_string())));

    let whole = map.value();
    assert_eq!(
        whole.get("name"),
        Some(&Value::String("flo".to_string()))
    );
}

#[test]
fn test_duplicate_keys_first_match() {
    // lookup resolves to the first entry bearing the key
    let v = Value::Struct(vec![
        ("a".to_string(), Value::UInt8(1)),
        ("a".to_string(), Value::UInt8(2)),
    ]);
    assert_eq!(v.get("a"), Some(&Value::UInt8(1)));
}

#[test]
fn test_enum_addressing() {
    let v = Value::StructVariant(
        "B",
        vec![
            ("b".to_string(), Value::UInt8(44)),
            ("g".to_string(), Value::UInt8(33)),
            ("r".to_string(), Value::UInt8(22)),
        ],
    );
    let path = parse("[g]").unwrap();
    assert_eq!(v.get_with_names(&path), Some(&Value::UInt8(33)));

    let v = Value::Enum("A", vec![Value::UInt8(11)]);
    let path = parse("0").unwrap();
    assert_eq!(v.get_with_names(&path), Some(&Value::UInt8(11)));
}
