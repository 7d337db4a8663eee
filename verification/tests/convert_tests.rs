use case_styles::{convert_case_to, convert_line, convert_lines, Case};

#[test]
fn to_kebab_case() {
    assert_eq!("camel-case", convert_case_to("camelCase", Case::KebabCase));
}

#[test]
fn converts_single_line_single_case() {
    // ARRANGE
    let input = "snake_case text with lowercase_words_separated_by_underscore";
    let rules = vec![(Case::SnakeCase, Case::CamelCase)];

    // ACT
    let output = convert_line(input, &rules);

    // ASSERT
    assert_eq!(output, String::from("snakeCase text with lowercaseWordsSeparatedByUnderscore"));
}

#[test]
fn works_with_multiple_newlines() {
    // ARRANGE
    let input = vec![
        String::from("ThisIsSome text with"),
        String::from("SomePascalCased words and"),
        String::from("also some NewLines interspesed"),
    ];
    let rules = vec![(Case::PascalCase, Case::KebabCase)];

    // ACT
    let output = convert_lines(&input, &rules);

    // ASSERT
    assert_eq!(
        output,
        vec![
            String::from("this-is-some text with"),
            String::from("some-pascal-cased words and"),
            String::from("also some new-lines interspesed"),
        ]
    );
}

#[test]
fn converts_to_every_style() {
    assert_eq!(convert_case_to("fooBar", Case::PascalCase), "FooBar");
    assert_eq!(convert_case_to("fooBar", Case::ShoutingSnakeCase), "FOO_BAR");
    assert_eq!(convert_case_to("fooBar", Case::CamelCase), "fooBar");
    assert_eq!(convert_case_to("fooBar", Case::SnakeCase), "foo_bar");
    assert_eq!(convert_case_to("fooBar", Case::KebabCase), "foo-bar");
}

#[test]
fn round_trips_between_all_styles() {
    // one canonical token per style, carried to every style and back
    let tokens = [
        ("FooBar", Case::PascalCase),
        ("FOO_BAR", Case::ShoutingSnakeCase),
        ("fooBar", Case::CamelCase),
        ("foo_bar", Case::SnakeCase),
        ("foo-bar", Case::KebabCase),
    ];
    let targets = [
        Case::PascalCase,
        Case::ShoutingSnakeCase,
        Case::CamelCase,
        Case::SnakeCase,
        Case::KebabCase,
    ];
    for (token, original) in tokens {
        assert_eq!(Case::detect(token).unwrap(), Some(original));
        for target in targets {
            let there = convert_case_to(token, target);
            let back = convert_case_to(&there, original);
            assert_eq!(back, token);
        }
    }
}

#[test]
fn converting_to_own_style_is_identity() {
    assert_eq!(convert_case_to("FooBar", Case::PascalCase), "FooBar");
    assert_eq!(convert_case_to("FOO_BAR", Case::ShoutingSnakeCase), "FOO_BAR");
    assert_eq!(convert_case_to("fooBar", Case::CamelCase), "fooBar");
    assert_eq!(convert_case_to("foo_bar", Case::SnakeCase), "foo_bar");
    assert_eq!(convert_case_to("foo-bar", Case::KebabCase), "foo-bar");
}

#[test]
fn strips_repeated_separators_when_converting() {
    assert_eq!(convert_case_to("foo__bar", Case::SnakeCase), "foo_bar");
    assert_eq!(convert_case_to("_foo_", Case::KebabCase), "foo");
}

#[test]
fn preserves_blank_lines_and_line_count() {
    let input = vec![
        String::from(""),
        String::from("   "),
        String::from("a_b  c_d"),
        String::from(""),
    ];
    let rules = vec![(Case::SnakeCase, Case::CamelCase)];
    let output = convert_lines(&input, &rules);
    assert_eq!(output.len(), input.len());
    assert_eq!(
        output,
        vec![String::from(""), String::from("   "), String::from("aB  cD"), String::from("")]
    );
}

#[test]
fn applies_first_matching_rule_per_token() {
    let rules = vec![
        (Case::SnakeCase, Case::CamelCase),
        (Case::PascalCase, Case::KebabCase),
        (Case::SnakeCase, Case::ShoutingSnakeCase),
    ];
    // each token follows its own detected style's first rule
    assert_eq!(convert_line("some_token SomeToken", &rules), "someToken some-token");
}

#[test]
fn passes_through_unmatched_and_undetectable_tokens() {
    let rules = vec![(Case::SnakeCase, Case::CamelCase)];
    // kebab-case has no rule; "lowercase" and "1234" detect as nothing
    assert_eq!(
        convert_line("kebab-token lowercase 1234 under_score", &rules),
        "kebab-token lowercase 1234 underScore"
    );
}

#[test]
fn keeps_whitespace_runs_exactly() {
    let rules = vec![(Case::SnakeCase, Case::KebabCase)];
    assert_eq!(convert_line("  a_b\t\tc_d ", &rules), "  a-b\t\tc-d ");
}
