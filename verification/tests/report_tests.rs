use case_styles::{Case, CaseReport, CaseReportError, Fraction, PercentageCaseReport,
    ProportionCaseReport};

fn lines_of(text: &str) -> Vec<String> {
    text.lines().map(String::from).collect()
}

#[test]
fn finds_single_camel_case() {
    // ARRANGE
    let input = lines_of("camelCase");

    // ACT
    let report = CaseReport::from(&input);

    // ASSERT
    let present: Vec<Case> =
        Case::all().into_iter().filter(|c| report.count(*c) > 0).collect();
    assert_eq!(present.len(), 1);
    assert_eq!(present[0], Case::CamelCase);
    assert_eq!(report.count(Case::CamelCase), 1);
}

#[test]
fn finds_several_cases() {
    // ARRANGE
    let input = lines_of(
        r#"
            camelCaseFirst snake_case_first
            camelCaseSecond camelCaseThird
            snake_case_second snake_case_third PascalCase
        "#,
    );

    // ACT
    let report = CaseReport::from(&input);

    // ASSERT
    let present: Vec<Case> =
        Case::all().into_iter().filter(|c| report.count(*c) > 0).collect();
    assert_eq!(present.len(), 3);
    assert_eq!(report.count(Case::CamelCase), 3);
    assert_eq!(report.count(Case::SnakeCase), 3);
    assert_eq!(report.count(Case::PascalCase), 1);
}

#[test]
fn finds_most_used_case() {
    // ARRANGE
    let input = lines_of(
        r#"
            camelCaseFirst snake_case_first
            camelCaseSecond camelCaseThird
            snake_case_second snake_case_third PascalCase
            camelCase
        "#,
    );

    // ACT
    let report = CaseReport::from(&input);
    let main_case = report.main();

    // ASSERT
    assert!(main_case.is_some());
    assert_eq!(main_case.unwrap(), Case::CamelCase);
}

#[test]
fn no_main_case_in_empty_report() {
    let report = CaseReport::from(&lines_of("... 1234 ..."));
    assert_eq!(report.main(), None);
    assert_eq!(CaseReport::from(&Vec::new()).main(), None);
}

#[test]
fn main_case_ties_break_by_canonical_order() {
    let report = CaseReport { pascal: 0, shouting: 2, camel: 2, snake: 2, kebab: 0 };
    assert_eq!(report.main(), Some(Case::ShoutingSnakeCase));
}

#[test]
fn correct_proportions() {
    // ARRANGE
    let input = lines_of(
        r#"
            camelCaseFirst snake_case_first
            camelCaseSecond camelCaseThird
            snake_case_second snake_case_third PascalCase
        "#,
    );

    // ACT
    let report = CaseReport::from(&input);
    let proportions = report.proportions();

    // ASSERT
    let camel = proportions.value(Case::CamelCase).unwrap();
    let snake = proportions.value(Case::SnakeCase).unwrap();
    let pascal = proportions.value(Case::PascalCase).unwrap();
    assert_eq!(camel.num as f32 / camel.den as f32, 0.42857143_f32);
    assert_eq!(snake.num as f32 / snake.den as f32, 0.42857143_f32);
    assert_eq!(pascal.num as f32 / pascal.den as f32, 0.14285715_f32);
}

#[test]
fn proportions_sum_to_one_exactly() {
    let report = CaseReport { pascal: 1, shouting: 0, camel: 3, snake: 3, kebab: 0 };
    let proportions = report.proportions();
    let mut numerators: u64 = 0;
    let mut denominator: u64 = 0;
    for style in Case::all() {
        if let Some(f) = proportions.value(style) {
            numerators += f.num;
            denominator = f.den;
        }
    }
    assert_eq!(numerators, denominator);
    assert_eq!(denominator, 7);
}

#[test]
fn as_percentages() {
    // ARRANGE
    let proportion_report = ProportionCaseReport {
        pascal: Some(Fraction { num: 3, den: 10 }),
        shouting: None,
        camel: Some(Fraction { num: 25, den: 100 }),
        snake: Some(Fraction { num: 45, den: 100 }),
        kebab: None,
    };

    // ACT
    let percentages_report = proportion_report.as_percentages().unwrap();

    // ASSERT
    let camel = percentages_report.value(Case::CamelCase).unwrap();
    let pascal = percentages_report.value(Case::PascalCase).unwrap();
    let snake = percentages_report.value(Case::SnakeCase).unwrap();
    assert_eq!(camel.num as f32 / camel.den as f32, 25_f32);
    assert_eq!(pascal.num as f32 / pascal.den as f32, 30_f32);
    assert_eq!(snake.num as f32 / snake.den as f32, 45_f32);
}

#[test]
fn as_percentages_bad_input() {
    // ARRANGE
    let proportion_report = ProportionCaseReport {
        pascal: None,
        shouting: None,
        camel: Some(Fraction { num: 100, den: 1 }),
        snake: None,
        kebab: None,
    };

    // ACT
    let as_percentages = proportion_report.as_percentages();

    // ASSERT
    assert!(as_percentages.is_err());
    assert_eq!(
        as_percentages.unwrap_err(),
        CaseReportError::PercentageConversionError(Fraction { num: 100, den: 1 })
    );
}

#[test]
fn frequency_case_report_display() {
    // ARRANGE
    let report = CaseReport { pascal: 3, shouting: 0, camel: 1, snake: 2, kebab: 0 };

    // ACT
    let result = report.render();

    // ASSERT
    assert_eq!(result, "PascalCase: 3\nsnake_case: 2\ncamelCase: 1");
}

#[test]
fn percentage_case_report_display() {
    // ARRANGE
    let report = PercentageCaseReport(ProportionCaseReport {
        pascal: Some(Fraction { num: 1999, den: 100 }),
        shouting: None,
        camel: None,
        snake: Some(Fraction { num: 225, den: 10 }),
        kebab: Some(Fraction { num: 433, den: 10 }),
    });

    // ACT
    let display = report.render();

    // ASSERT
    assert_eq!(display, "kebab-case: 43.3%\nsnake_case: 22.5%\nPascalCase: 19.99%");
}

#[test]
fn proportion_report_display() {
    let report = CaseReport { pascal: 1, shouting: 0, camel: 3, snake: 0, kebab: 0 };
    let proportions = report.proportions();
    assert_eq!(proportions.render(), "camelCase: 0.75\nPascalCase: 0.25");
}

#[test]
fn non_terminating_percentage_is_cut_to_eight_digits() {
    let proportion_report = ProportionCaseReport {
        pascal: None,
        shouting: None,
        camel: Some(Fraction { num: 1, den: 3 }),
        snake: None,
        kebab: None,
    };
    let percentages = proportion_report.as_percentages().unwrap();
    assert_eq!(percentages.render(), "camelCase: 33.33333333%");
}

#[test]
fn empty_report_renders_empty() {
    let report = CaseReport { pascal: 0, shouting: 0, camel: 0, snake: 0, kebab: 0 };
    assert_eq!(report.render(), "");
}
