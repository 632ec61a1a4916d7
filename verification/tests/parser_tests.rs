use valitron::field_name::names_to_string;
use valitron::field_name::FieldName;
use valitron::field_name::FieldNames;
use valitron::parser::parse;
use valitron::parser::parse_message;

#[test]
fn test_parse() {
    let names = parse("abc").unwrap();
    assert_eq!(names, vec![FieldName::Literal("abc".into())]);

    let names = parse("name.full_name").unwrap();
    assert_eq!(
        names,
        vec![
            FieldName::Literal("name".into()),
            FieldName::Literal("full_name".into())
        ]
    );

    let names = parse("name.1").unwrap();
    assert_eq!(
        names,
        vec![FieldName::Literal("name".into()), FieldName::Tuple(1)]
    );

    let names = parse("name[511]").unwrap();
    assert_eq!(
        names,
        vec![FieldName::Literal("name".into()), FieldName::Array(511)]
    );

    let names = parse("name[age]").unwrap();
    assert_eq!(
        names,
        vec![
            FieldName::Literal("name".into()),
            FieldName::StructVariant("age".into())
        ]
    );

    let names = parse("5").unwrap();
    assert_eq!(names, vec![FieldName::Tuple(5)]);

    parse("511").unwrap_err();
    parse("5age").unwrap_err();
    parse("[5]age").unwrap_err();
    parse(".age").unwrap_err();

    let names = parse("name.age[foo][0].color.0").unwrap();
    assert_eq!(
        names,
        vec![
            FieldName::Literal("name".into()),
            FieldName::Literal("age".into()),
            FieldName::StructVariant("foo".into()),
            FieldName::Array(0),
            FieldName::Literal("color".into()),
            FieldName::Tuple(0),
        ]
    );
}

#[test]
fn test_parse_rejections() {
    parse(".age").unwrap_err();
    parse("age.").unwrap_err();
    parse("a.[0]").unwrap_err();
    parse("]x").unwrap_err();
    parse("a[b").unwrap_err();
    parse("a[]").unwrap_err();
    parse("a b").unwrap_err();
    parse("name[256]age").unwrap_err();
    parse("256").unwrap_err();
    // an index beyond the machine word is rejected as a unit
    parse("name[18446744073709551616]").unwrap_err();
    assert_eq!(
        parse("name[18446744073709551615]").unwrap(),
        vec![
            valitron::FieldName::Literal("name".into()),
            valitron::FieldName::Array(usize::MAX)
        ]
    );
}

#[test]
fn test_parse_empty() {
    let names = parse("").unwrap();
    assert_eq!(names, Vec::<FieldName>::new());
}

#[test]
fn test_round_trip() {
    let cases = [
        "abc",
        "name.full_name",
        "name.1",
        "name[511]",
        "name[age]",
        "5",
        "name.age[foo][0].color.0",
        "[0]",
        "[0][1]",
        "a[0].b.2[c]",
    ];
    for case in cases {
        let names = parse(case).unwrap();
        let rendered = names_to_string(&names);
        assert_eq!(rendered, *case);
        let reparsed = parse(&rendered).unwrap();
        assert_eq!(reparsed, names);
    }
}

#[test]
fn test_names_to_string() {
    let names = vec![
        FieldName::Literal("name".into()),
        FieldName::StructVariant("age".into()),
        FieldName::Array(0),
        FieldName::Tuple(7),
    ];
    assert_eq!(names_to_string(&names), "name[age][0].7");
}

#[test]
fn test_field_names_from() {
    let fs = FieldNames::from(vec![
        FieldName::Literal("name".to_string()),
        FieldName::Tuple(1),
        FieldName::Array(2),
    ]);
    assert_eq!(fs.string(), "name.1[2]");
    let fs = FieldNames::from(FieldName::Literal("abc".to_string()));
    assert_eq!(fs.string(), "abc");
}

#[test]
fn test_parse_message() {
    let mk = parse_message("name.required").unwrap();
    assert_eq!(mk.fields.string(), "name");
    assert_eq!(mk.rule, "required");

    let mk = parse_message("a.b.start_with").unwrap();
    assert_eq!(mk.fields.string(), "a.b");
    assert_eq!(mk.rule, "start_with");

    parse_message("nodot").unwrap_err();
}
