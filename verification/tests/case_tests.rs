use case_styles::Case;

#[test]
fn display_camel_case() {
    assert_eq!(Case::CamelCase.display_name(), "camelCase");
}

#[test]
fn display_all_styles() {
    assert_eq!(Case::PascalCase.display_name(), "PascalCase");
    assert_eq!(Case::ShoutingSnakeCase.display_name(), "SHOUTING_SNAKE_CASE");
    assert_eq!(Case::SnakeCase.display_name(), "snake_case");
    assert_eq!(Case::KebabCase.display_name(), "kebab-case");
}

#[test]
fn parses_canonical_names_and_aliases() {
    assert_eq!(Case::from_name("pascal-case"), Some(Case::PascalCase));
    assert_eq!(Case::from_name("PascalCase"), Some(Case::PascalCase));
    assert_eq!(Case::from_name("pc"), Some(Case::PascalCase));
    assert_eq!(Case::from_name("shouting-snake-case"), Some(Case::ShoutingSnakeCase));
    assert_eq!(Case::from_name("SHOUTING_SNAKE_CASE"), Some(Case::ShoutingSnakeCase));
    assert_eq!(Case::from_name("ssc"), Some(Case::ShoutingSnakeCase));
    assert_eq!(Case::from_name("camel-case"), Some(Case::CamelCase));
    assert_eq!(Case::from_name("camelCase"), Some(Case::CamelCase));
    assert_eq!(Case::from_name("cc"), Some(Case::CamelCase));
    assert_eq!(Case::from_name("snake-case"), Some(Case::SnakeCase));
    assert_eq!(Case::from_name("snake_case"), Some(Case::SnakeCase));
    assert_eq!(Case::from_name("sc"), Some(Case::SnakeCase));
    assert_eq!(Case::from_name("kebab-case"), Some(Case::KebabCase));
    assert_eq!(Case::from_name("kc"), Some(Case::KebabCase));
}

#[test]
fn rejects_unknown_names() {
    assert_eq!(Case::from_name(""), None);
    assert_eq!(Case::from_name("dromedary"), None);
    assert_eq!(Case::from_name("camelcase"), None);
}

#[test]
fn canonical_order_of_all_styles() {
    let all = Case::all();
    assert_eq!(
        all,
        vec![
            Case::PascalCase,
            Case::ShoutingSnakeCase,
            Case::CamelCase,
            Case::SnakeCase,
            Case::KebabCase,
        ]
    );
    for (i, style) in all.iter().enumerate() {
        assert_eq!(style.index(), i);
    }
}
