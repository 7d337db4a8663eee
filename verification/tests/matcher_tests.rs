use case_styles::Case;

#[test]
fn matchers_detects_camel_case() {
    let result = Case::CamelCase.matches("camelCase");

    assert!(result);
}

#[test]
fn detects_not_camel_case() {
    let result = Case::CamelCase.matches("camel_case");

    assert!(!result);
}

#[test]
fn detects_shouting_snake_case() {
    let result = Case::ShoutingSnakeCase.matches("SHOUTING_SNAKE");

    assert!(result);
}

#[test]
fn detects_not_shouting_snake() {
    let result = Case::ShoutingSnakeCase.matches("shoutingSnake");

    assert!(!result);
}

#[test]
fn detects_pascal_case() {
    let result = Case::PascalCase.matches("PascalCase");

    assert!(result);
}

#[test]
fn detects_not_pascal_case() {
    let result = Case::PascalCase.matches("pascal-case");

    assert!(!result);
}

#[test]
fn detects_snake_case() {
    let result = Case::SnakeCase.matches("snake_case");

    assert!(result);
}

#[test]
fn detects_not_snake_case() {
    let result = Case::SnakeCase.matches("snake-case");

    assert!(!result);
}

#[test]
fn detects_kebab_case() {
    let result = Case::KebabCase.matches("kebab-case");

    assert!(result);
}

#[test]
fn detects_not_kebab_case() {
    let result = Case::KebabCase.matches("kebab_case");

    assert!(!result);
}

#[test]
fn empty_token_matches_no_style() {
    assert!(!Case::PascalCase.matches(""));
    assert!(!Case::ShoutingSnakeCase.matches(""));
    assert!(!Case::CamelCase.matches(""));
    assert!(!Case::SnakeCase.matches(""));
    assert!(!Case::KebabCase.matches(""));
}

#[test]
fn single_lowercase_word_matches_three_styles() {
    assert!(Case::CamelCase.matches("lowercase"));
    assert!(Case::SnakeCase.matches("lowercase"));
    assert!(Case::KebabCase.matches("lowercase"));
    assert!(!Case::PascalCase.matches("lowercase"));
    assert!(!Case::ShoutingSnakeCase.matches("lowercase"));
}
