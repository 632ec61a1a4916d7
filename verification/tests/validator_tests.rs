use valitron::available::Required;
use valitron::available::StartWith;
use valitron::available::Trim;
use valitron::custom;
use valitron::Message;
use valitron::RuleExt;
use valitron::Validator;
use valitron::Value;

fn person(name: &str, age: u8, weight: f32) -> Value {
    Value::Struct(vec![
        ("age".to_string(), Value::UInt8(age)),
        ("name".to_string(), Value::String(name.to_string())),
        ("weight".to_string(), Value::Float32(weight.to_bits())),
    ])
}

fn age_limit(n: Value) -> (Value, Result<(), Message>) {
    if let Value::UInt8(age) = n {
        if age >= 25 && age <= 45 {
            return (n, Ok(()));
        }
    }
    (n, Err(Message::fallback("age should be between 25 and 45")))
}

fn weight_limit(v: Value) -> (Value, Result<(), Message>) {
    if let Value::Float32(bits) = v {
        let w = f32::from_bits(bits);
        if w >= 40.0 && w <= 80.0 {
            return (v, Ok(()));
        }
    }
    (v, Err(Message::fallback("weight should be between 40 and 80")))
}

#[test]
fn test_validator() {
    let validator = Validator::new()
        .rule("name", Required.and(StartWith("hello")))
        .rule("age", custom(age_limit))
        .rule("weight", custom(weight_limit))
        .message(vec![
            ("name.required", "name is required"),
            ("name.start_with", "name should be starts with `hello`"),
        ]);

    let res = validator.validate_value(person("li", 18, 20.0)).unwrap_err();

    assert!(res.len() == 3);
    assert_eq!(
        res.get("age").unwrap()[0].text(),
        "age should be between 25 and 45"
    );
    assert_eq!(
        res.get("weight").unwrap()[0].text(),
        "weight should be between 40 and 80",
    );
    assert_eq!(
        res.get("name").unwrap()[0].text(),
        "name should be starts with `hello`",
    );
    // an override replaces the text but keeps the kind
    assert!(matches!(
        res.get("name").unwrap()[0].kind(),
        valitron::MessageKind::StartWith(_)
    ));
}

#[test]
fn test_validator_pass() {
    let validator = Validator::new()
        .rule("name", Required.and(StartWith("hello")))
        .rule("age", custom(age_limit));
    let out = validator.validate_value(person("hello li", 30, 60.0)).unwrap();
    assert_eq!(out, person("hello li", 30, 60.0));
}

#[test]
fn test_has_tuple() {
    let validator = Validator::new().rule(0u8, StartWith("hello")).message(vec![(
        "0.start_with",
        "first item should be start with `hello`",
    )]);

    let foo = Value::TupleStruct(vec![
        Value::String("heoo".to_string()),
        Value::String("bar".to_string()),
    ]);

    let res = validator.validate_value(foo).unwrap_err();
    assert!(res.len() == 1);

    assert_eq!(
        res.get("0").unwrap()[0].text(),
        "first item should be start with `hello`"
    );
}

#[test]
fn test_has_array() {
    let validator = Validator::new().rule([1usize], StartWith("hello"));

    let arr = Value::Array(vec![
        Value::String("foo".to_string()),
        Value::String("bar".to_string()),
    ]);

    let res = validator.validate_value(arr).unwrap_err();

    assert!(res.len() == 1);
    assert_eq!(
        res.get("[1]").unwrap()[0].text(),
        "this field must be start with `hello`"
    );
}

#[test]
fn test_rule_order() {
    // the trim rewrite must be visible to the later prefix check
    let tree = Value::Struct(vec![(
        "name".to_string(),
        Value::String("  hello world".to_string()),
    )]);
    let validator = Validator::new().rule("name", Trim.and(StartWith("hello")));
    let out = validator.validate_value(tree).unwrap();
    assert_eq!(
        out,
        Value::Struct(vec![(
            "name".to_string(),
            Value::String("hello world".to_string())
        )])
    );
}

fn empty_name() -> Value {
    Value::Struct(vec![("name".to_string(), Value::String("".to_string()))])
}

#[test]
fn test_bail() {
    // both rules fail; with bail only the first failure is reported
    let with_bail = Validator::new().rule("name", Required.and(StartWith("x")).bail());
    let res = with_bail.validate_value(empty_name()).unwrap_err();
    let msgs = res.get("name").unwrap();
    assert_eq!(msgs.len(), 1);
    assert_eq!(msgs[0].text(), "this field is required");

    let without_bail = Validator::new().rule("name", Required.and(StartWith("x")));
    let res = without_bail.validate_value(empty_name()).unwrap_err();
    let msgs = res.get("name").unwrap();
    assert_eq!(msgs.len(), 2);
    assert_eq!(msgs[0].text(), "this field is required");
    assert_eq!(msgs[1].text(), "this field must be start with `x`");
}

#[test]
fn test_aggregation_independence() {
    // the failing field is reported alone; the passing field is still checked
    let tree = Value::Struct(vec![
        ("age".to_string(), Value::UInt8(30)),
        ("name".to_string(), Value::String("  ok".to_string())),
    ]);
    let validator = Validator::new()
        .rule("name", Trim.and(StartWith("zzz")))
        .rule("age", custom(age_limit));
    let res = validator.validate_value(tree).unwrap_err();
    assert_eq!(res.len(), 1);
    assert!(res.get("name").is_some());
    assert!(res.get("age").is_none());
}

#[test]
fn test_missing_field_fails() {
    let validator = Validator::new().rule("nope", Required);
    let res = validator.validate_value(empty_name()).unwrap_err();
    assert_eq!(res.len(), 1);
    assert_eq!(res.get("nope").unwrap()[0].text(), "this field is required");
}

fn record() -> Value {
    let c_value = Value::TupleStruct(vec![
        Value::Int8(22),
        Value::UInt64(33),
        Value::Float32(5.0_f32.to_bits()),
        Value::Float64(100.0_f64.to_bits()),
    ]);
    let b_value = Value::Struct(vec![
        ("c".to_string(), c_value),
        ("foo_str".to_string(), Value::String("hello".to_string())),
    ]);
    Value::Struct(vec![
        ("b".to_string(), b_value),
        ("foo".to_string(), Value::UInt8(11)),
    ])
}

#[test]
fn test_record_unchanged() {
    // a pass with no rules hands the tree back bit for bit
    let validator = Validator::new();
    let out = validator.validate_value(record()).unwrap();
    assert_eq!(out, record());
}

#[test]
fn test_nested_path_rule() {
    let validator = Validator::new().rule("b.foo_str", StartWith("hello"));
    let out = validator.validate_value(record()).unwrap();
    assert_eq!(out, record());

    let validator = Validator::new().rule("b.c.0", custom(|v: Value| match v {
        Value::Int8(n) if n > 0 => (v, Ok(())),
        _ => (v, Err(Message::fallback("not positive"))),
    }));
    assert!(validator.validate_value(record()).is_ok());
}

#[test]
fn test_wf_check() {
    let good = Validator::new().rule("a.b", Required);
    assert!(good.wf_check());
    let bad = Validator::new().rule(".oops", Required);
    assert!(!bad.wf_check());
}
