use calculator::utils::{extract_digit, extract_next_token, extract_operator, extract_whitespace};

#[test]
fn extract_digit_none() {
    assert_eq!(extract_digit(""), ("", ""));
}

#[test]
fn extract_digit_one() {
    assert_eq!(extract_digit("5+7"), ("5", "+7"));
}

#[test]
fn extract_digit_several() {
    assert_eq!(extract_digit("53+7"), ("53", "+7"));
}

#[test]
fn extract_digit_only() {
    assert_eq!(extract_digit("557"), ("557", ""));
}

#[test]
fn extract_digit_not_digit() {
    assert_eq!(extract_digit("+7"), ("", "+7"));
}

#[test]
fn extract_operator_none() {
    assert_eq!(extract_operator(""), ("", ""));
}

#[test]
fn extract_operator_one() {
    assert_eq!(extract_operator("+7"), ("+", "7"));
}

#[test]
fn extract_operator_several() {
    assert_eq!(extract_operator("//7"), ("//", "7"));
}

#[test]
fn extract_operator_only() {
    assert_eq!(extract_operator("*"), ("*", ""));
}

#[test]
fn extract_operator_not_digit() {
    assert_eq!(extract_operator("7"), ("", "7"));
}

#[test]
fn extract_whitespace_none() {
    assert_eq!(extract_whitespace(""), ("", ""));
}

#[test]
fn extract_whitespace_some() {
    assert_eq!(extract_whitespace("  7"), ("  ", "7"));
}

#[test]
fn extract_all() {
    let s = "3+22 *-5";
    let (test, s) = extract_next_token(s);
    assert_eq!(test, "3");
    let (test, s) = extract_next_token(s);
    assert_eq!(test, "+");
    let (test, s) = extract_next_token(s);
    assert_eq!(test, "22");
    let (test, s) = extract_next_token(s);
    assert_eq!(test, "*");
    let (test, s) = extract_next_token(s);
    assert_eq!(test, "-");
    let (test, s) = extract_next_token(s);
    assert_eq!(test, "5");
    let (test, _) = extract_next_token(s);
    assert_eq!(test, "");
}

#[test]
fn extract_digit_stops_before_non_ascii() {
    assert_eq!(extract_digit("12é3"), ("12", "é3"));
}

#[test]
fn extract_next_token_on_unknown_character() {
    assert_eq!(extract_next_token("  é+1"), ("", ""));
    assert_eq!(extract_next_token("   "), ("", ""));
}

#[test]
fn extract_next_token_takes_one_operator() {
    assert_eq!(extract_next_token(" */2"), ("*", "/2"));
}
