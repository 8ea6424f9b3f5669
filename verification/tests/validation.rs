use mysql_env::version::validate_version;

#[test]
fn rejects_two_component_version() {
    assert!(!validate_version("8.0"));
}

#[test]
fn rejects_non_numeric_version() {
    assert!(!validate_version("abc"));
}

#[test]
fn rejects_four_component_version() {
    assert!(!validate_version("8.0.37.1"));
}

#[test]
fn accepts_three_component_version() {
    assert!(validate_version("8.0.37"));
}

#[test]
fn accepts_multi_digit_components() {
    assert!(validate_version("10.234.5"));
}

#[test]
fn rejects_empty_string() {
    assert!(!validate_version(""));
}

#[test]
fn rejects_trailing_dot() {
    assert!(!validate_version("8.0.37."));
}

#[test]
fn rejects_empty_component() {
    assert!(!validate_version("8..37"));
}

#[test]
fn rejects_letters_between_numbers() {
    assert!(!validate_version("8a0b37"));
}

#[test]
fn rejects_spaces() {
    assert!(!validate_version(" 8.0.37"));
    assert!(!validate_version("8.0.37 "));
}
