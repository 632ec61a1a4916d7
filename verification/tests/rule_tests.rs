use valitron::available::Email;
use valitron::available::Not;
use valitron::available::Required;
use valitron::available::StartWith;
use valitron::available::Trim;
use valitron::available::validate_email;
use valitron::available::str_starts_with;
use valitron::available::str_trim;
use valitron::custom;
use valitron::ErasedRule;
use valitron::RuleList;
use valitron::parser::parse;
use valitron::rule_list::is_valid_name_str;
use valitron::IntoRuleList;
use valitron::Message;
use valitron::Rule;
use valitron::RuleExt;
use valitron::RuleShortcut;
use valitron::Value;
use valitron::ValueMap;

fn register<R: IntoRuleList>(_: R) {}

fn hander2(v: Value) -> (Value, Result<(), Message>) {
    (v, Ok(()))
}

#[derive(Clone)]
struct Gt10;

impl RuleShortcut for Gt10 {
    fn spec_name(&self) -> vstd::seq::Seq<char> {
        panic!()
    }

    fn spec_message(&self) -> valitron::message::MessageV {
        panic!()
    }

    fn spec_check(&self, _v: valitron::value::ValueV) -> (valitron::value::ValueV, bool) {
        panic!()
    }

    fn name(&self) -> &'static str {
        "gt10"
    }

    fn message(&self) -> Message {
        Message::fallback("the number should be greater than 10")
    }

    fn call(&self, data: &mut Value) -> bool {
        matches!(data, Value::UInt8(n) if *n > 10)
    }
}

#[test]
fn test() {
    register(Required);
    register(Required.custom(hander2));
    register(Required.and(StartWith("foo")));
    register(Required.and(StartWith("foo")).bail());
    register(Required.and(StartWith("foo")).custom(hander2).bail());
    register(
        Required
            .and(StartWith("foo"))
            .custom(hander2)
            .custom(|v: Value| (v, Ok(())))
            .bail(),
    );

    register(custom(hander2));
    register(custom(hander2).and(StartWith("foo")));
    register(custom(hander2).and(StartWith("foo")).bail());
    register(custom(|v: Value| (v, Ok(()))).and(Gt10));
    register(Gt10.custom(|v: Value| (v, Ok(()))));
}

#[test]
fn test_required_call() {
    let mut v = Value::String("".to_string());
    assert!(!RuleShortcut::call(&Required, &mut v));
    let mut v = Value::String("x".to_string());
    assert!(RuleShortcut::call(&Required, &mut v));
    let mut v = Value::Array(vec![]);
    assert!(!RuleShortcut::call(&Required, &mut v));
    let mut v = Value::UInt8(0);
    assert!(RuleShortcut::call(&Required, &mut v));
    let mut v = Value::Unit;
    assert!(RuleShortcut::call(&Required, &mut v));
}

#[test]
fn test_start_with() {
    assert!(str_starts_with("hello world", "hello"));
    assert!(!str_starts_with("heoo", "hello"));
    assert!(str_starts_with("abc", ""));
    assert!(!str_starts_with("ab", "abc"));

    let mut v = Value::String("hello world".to_string());
    assert!(RuleShortcut::call(&StartWith("hello"), &mut v));
    let mut v = Value::UInt8(3);
    assert!(!RuleShortcut::call(&StartWith("hello"), &mut v));
}

#[test]
fn test_email() {
    assert!(validate_email("user@example.com"));
    assert!(validate_email("a@b"));
    assert!(!validate_email("user"));
    assert!(!validate_email("@example.com"));
    assert!(!validate_email("user@"));
    assert!(!validate_email("a@b@c"));
    assert!(!validate_email(""));
}

#[test]
fn test_not() {
    let mut v = Value::String("".to_string());
    assert!(RuleShortcut::call(&Not(Required), &mut v));
    let mut v = Value::String("x".to_string());
    assert!(!RuleShortcut::call(&Not(Required), &mut v));
    assert_eq!(RuleShortcut::name(&Not(Required)), "required");
}

#[test]
fn test_trim() {
    assert_eq!(str_trim("  a b \t"), "a b");
    assert_eq!(str_trim("\r\n x\n"), "x");
    assert_eq!(str_trim("   "), "");
    assert_eq!(str_trim(""), "");
    assert_eq!(str_trim("abc"), "abc");

    let mut v = Value::String("  hi  ".to_string());
    assert!(RuleShortcut::call(&Trim, &mut v));
    assert_eq!(v, Value::String("hi".to_string()));
    let mut v = Value::UInt8(1);
    assert!(RuleShortcut::call(&Trim, &mut v));
    assert_eq!(v, Value::UInt8(1));
}

#[test]
fn test_rule_names() {
    assert_eq!(RuleShortcut::name(&Required), "required");
    assert_eq!(RuleShortcut::name(&StartWith("x")), "start_with");
    assert_eq!(RuleShortcut::name(&Email), "email");
    assert_eq!(RuleShortcut::name(&Trim), "trim");
}

#[test]
fn test_contains_and_valid_name() {
    let list = Required.and(StartWith("foo")).into_list();
    assert!(list.contains("required"));
    assert!(list.contains("start_with"));
    assert!(!list.contains("email"));
    assert!(list.valid_name());
}

#[test]
fn test_name_validity() {
    assert!(is_valid_name_str("abc"));
    assert!(is_valid_name_str("_a1"));
    assert!(is_valid_name_str("A_9"));
    assert!(is_valid_name_str("start_with"));
    assert!(!is_valid_name_str("9a"));
    assert!(!is_valid_name_str("a-b"));
    assert!(!is_valid_name_str(""));
    assert!(!is_valid_name_str("a b"));
    assert!(!is_valid_name_str("rule.name"));
}

#[derive(Clone)]
struct BadName;

impl RuleShortcut for BadName {
    fn spec_name(&self) -> vstd::seq::Seq<char> {
        panic!()
    }

    fn spec_message(&self) -> valitron::message::MessageV {
        panic!()
    }

    fn spec_check(&self, _v: valitron::value::ValueV) -> (valitron::value::ValueV, bool) {
        panic!()
    }

    fn name(&self) -> &'static str {
        "9bad"
    }

    fn message(&self) -> Message {
        Message::fallback("bad")
    }

    fn call(&self, _data: &mut Value) -> bool {
        true
    }
}

#[test]
fn test_invalid_rule_name_detected() {
    let list = Required.and(BadName).into_list();
    assert!(!list.valid_name());
}

#[test]
fn test_message_map() {
    // the remapping layer rewrites the payload; the name stays
    let mapped = ErasedRule::new(Required).map(|m: Message| m.with_text("changed"));
    assert_eq!(mapped.name(), "required");
    let list = RuleList { list: vec![mapped], is_bail: false };
    let mut map = ValueMap::new(Value::Struct(vec![(
        "name".to_string(),
        Value::String("".to_string()),
    )]));
    map.index(parse("name").unwrap());
    let msgs = list.call(&mut map);
    assert_eq!(msgs.len(), 1);
    assert_eq!(msgs[0].0, "required");
    assert_eq!(msgs[0].1.text(), "changed");
}

#[test]
fn test_rule_list_map() {
    let list = Required.and(StartWith("x")).map(|m: Message| m.with_text("no"));
    let mut map = ValueMap::new(Value::Struct(vec![(
        "name".to_string(),
        Value::String("".to_string()),
    )]));
    map.index(parse("name").unwrap());
    let msgs = list.call(&mut map);
    assert_eq!(msgs.len(), 2);
    assert_eq!(msgs[0].1.text(), "no");
    assert_eq!(msgs[1].1.text(), "no");
}

#[test]
fn test_rule_call_on_context() {
    let mut map = ValueMap::new(Value::Struct(vec![(
        "name".to_string(),
        Value::String("".to_string()),
    )]));
    map.index(parse("name").unwrap());
    let res = Rule::call(&Required, &mut map);
    assert_eq!(res.unwrap_err().text(), "this field is required");

    let mut map = ValueMap::new(Value::Struct(vec![(
        "name".to_string(),
        Value::String("ok".to_string()),
    )]));
    map.index(parse("name").unwrap());
    assert!(Rule::call(&Required, &mut map).is_ok());
}
