use sshdconfig::registry::{
    display_name, lookup, lookup_lower, validate, ValidationReason, Validator, ValueKind,
};

#[test]
fn lookup_ignores_case() {
    let spec = lookup(b"PORT").unwrap();
    assert_eq!(spec.kind, ValueKind::List);
    assert!(spec.repeatable);
    assert_eq!(spec.validator, Validator::Number { min: 1, max: 65535 });
    assert_eq!(lookup(b"port"), lookup(b"Port"));
}

#[test]
fn lookup_kinds() {
    assert_eq!(lookup(b"PasswordAuthentication").unwrap().kind, ValueKind::Scalar);
    assert!(!lookup(b"PasswordAuthentication").unwrap().repeatable);
    assert_eq!(lookup(b"Subsystem").unwrap().kind, ValueKind::ObjectList);
    assert_eq!(lookup(b"ListenAddress").unwrap().kind, ValueKind::List);
}

#[test]
fn lookup_unknown_and_reserved_names() {
    assert_eq!(lookup(b"nosuchkeyword"), None);
    assert_eq!(lookup(b""), None);
    assert_eq!(lookup(b"match"), None);
    assert_eq!(lookup(b"Match"), None);
    assert_eq!(lookup(b"criteria"), None);
    assert_eq!(lookup(b"port 22"), None);
    assert_eq!(lookup(b"_ensure"), None);
}

#[test]
fn lookup_lower_wants_the_canonical_form() {
    assert!(lookup_lower(b"port").is_some());
    assert_eq!(lookup_lower(b"Port"), None);
}

#[test]
fn display_name_is_the_written_form() {
    assert_eq!(display_name(b"passwordauthentication"), b"PasswordAuthentication".to_vec());
    assert_eq!(display_name(b"port"), b"Port".to_vec());
    assert_eq!(display_name(b"unknownword"), b"unknownword".to_vec());
}

#[test]
fn validate_numbers() {
    let v = Validator::Number { min: 1, max: 65535 };
    assert_eq!(validate(v, b"22"), None);
    assert_eq!(validate(v, b"1"), None);
    assert_eq!(validate(v, b"65535"), None);
    assert_eq!(validate(v, b"0022"), None);
    assert_eq!(validate(v, b"0"), Some(ValidationReason::OutOfRange));
    assert_eq!(validate(v, b"65536"), Some(ValidationReason::OutOfRange));
    assert_eq!(validate(v, b"99999"), Some(ValidationReason::OutOfRange));
    assert_eq!(validate(v, b"99999999999999999999999999"), Some(ValidationReason::OutOfRange));
    assert_eq!(validate(v, b""), Some(ValidationReason::NotANumber));
    assert_eq!(validate(v, b"22a"), Some(ValidationReason::NotANumber));
    assert_eq!(validate(v, b"-1"), Some(ValidationReason::NotANumber));
    assert_eq!(validate(v, b"999999999999999999999999x"), Some(ValidationReason::NotANumber));
}

#[test]
fn validate_yes_no() {
    assert_eq!(validate(Validator::YesNo, b"yes"), None);
    assert_eq!(validate(Validator::YesNo, b"No"), None);
    assert_eq!(validate(Validator::YesNo, b"YES"), None);
    assert_eq!(validate(Validator::YesNo, b"maybe"), Some(ValidationReason::NotYesNo));
    assert_eq!(validate(Validator::YesNo, b""), Some(ValidationReason::NotYesNo));
}

#[test]
fn validate_any() {
    assert_eq!(validate(Validator::Any, b""), None);
    assert_eq!(validate(Validator::Any, b"anything at all"), None);
}
