use valitron::available::Email;
use valitron::available::Required;
use valitron::available::Trim;
use valitron::string;
use valitron::Message;
use valitron::RuleExt;

#[test]
fn test_validate_string() {
    let msgs = string::validate("  ".to_string(), Trim.and(Required));
    assert_eq!(msgs.len(), 1);
    assert_eq!(msgs[0].text(), "this field is required");

    let msgs = string::validate("ok".to_string(), Trim.and(Required));
    assert!(msgs.is_empty());
}

#[test]
fn test_validate_ref_writes_back() {
    let mut s = " Jone ".to_string();
    let msgs = string::validate_ref(&mut s, Trim.and(Required));
    assert!(msgs.is_empty());
    assert_eq!(s, "Jone");
}

struct Password(String);

fn validate_password(pass: Password) -> (Password, Result<(), Message>) {
    let upper = pass.0.find(char::is_uppercase);
    let lower = pass.0.find(char::is_lowercase);
    let num = pass.0.find(char::is_numeric);
    if upper.is_some() && lower.is_some() && num.is_some() {
        (pass, Ok(()))
    } else {
        (
            pass,
            Err(Message::fallback(
                "password need to contain uppercase, lowercase and numeric",
            )),
        )
    }
}

#[test]
fn test_string_validator() {
    let mut name = " Jone ".to_string();
    let mut email = "jone@gmail.com".to_string();
    let mut password = "Abc123".to_string();
    let mut age: u8 = 12;

    let valid = string::Validator::new()
        .insert("name", &mut name, Trim.and(Required))
        .insert("email", &mut email, Trim.and(Required).and(Email))
        .insert_fn("password", || {
            let (_, r) = validate_password(Password(password.clone()));
            r
        })
        .insert_fn("age", || {
            if age < 10 {
                age = 10;
            }
            if age > 18 {
                Err(Message::fallback("age is out of range"))
            } else {
                Ok(())
            }
        });

    assert_eq!(name, "Jone");
    assert!(valid.validate(12u8).is_ok());
}

#[test]
fn test_string_validator_failures() {
    let mut name = "  ".to_string();
    let valid = string::Validator::new()
        .insert("name", &mut name, Trim.and(Required))
        .insert_fn("age", || -> Result<(), Message> {
            Err(Message::fallback("age is out of range"))
        });
    let err = valid.validate(0u8).unwrap_err();
    assert_eq!(err.map.len(), 2);
    assert_eq!(err.map[0].0, "name");
    assert_eq!(err.map[0].1[0].text(), "this field is required");
    assert_eq!(err.map[1].0, "age");
    assert_eq!(err.map[1].1[0].text(), "age is out of range");
}
