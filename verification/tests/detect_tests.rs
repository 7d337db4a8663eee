use case_styles::{Case, DetectError};

#[test]
fn errors_on_non_token_input() {
    let result = Case::detect("not token");

    assert!(result.is_err());
    assert_eq!(result.unwrap_err().message(), "input 'not token' is not a token");
}

#[test]
fn detect_detects_camel_case() {
    let result = Case::CamelCase.matches("camelCase");

    assert!(result);
}

#[test]
fn errors_on_other_whitespace() {
    assert!(Case::detect("tab\there").is_err());
    assert!(Case::detect("line\nbreak").is_err());
    let err = Case::detect("a b").unwrap_err();
    assert_eq!(err, DetectError::InvalidInputError(String::from("a b")));
}

#[test]
fn detects_each_unambiguous_style() {
    assert_eq!(Case::detect("camelCase").unwrap(), Some(Case::CamelCase));
    assert_eq!(Case::detect("PascalCase").unwrap(), Some(Case::PascalCase));
    assert_eq!(Case::detect("SHOUTING_SNAKE").unwrap(), Some(Case::ShoutingSnakeCase));
    assert_eq!(Case::detect("snake_case").unwrap(), Some(Case::SnakeCase));
    assert_eq!(Case::detect("kebab-case").unwrap(), Some(Case::KebabCase));
}

#[test]
fn ambiguous_token_detects_as_none() {
    // a single lowercase word matches camelCase, snake_case and
    // kebab-case at once
    assert_eq!(Case::detect("lowercase").unwrap(), None);
    // an all-uppercase word matches PascalCase and SHOUTING_SNAKE_CASE
    assert_eq!(Case::detect("SHOUTING").unwrap(), None);
}

#[test]
fn unmatched_token_detects_as_none() {
    assert_eq!(Case::detect("").unwrap(), None);
    assert_eq!(Case::detect("1234").unwrap(), None);
    assert_eq!(Case::detect("mixed_Case").unwrap(), None);
    assert_eq!(Case::detect("snake-and_kebab").unwrap(), None);
}
