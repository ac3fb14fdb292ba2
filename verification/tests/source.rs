use sfcalc::source::{digit_runs_fit, parse_records, Field, SourceError, DIGIT_RUN_LIMIT};

#[test]
fn records_come_out_of_json() {
    let text = r#"[
        {"id": "B", "name": "Item B", "recipeType": "SMELTERY", "result": 2,
         "recipe": [{"value": "A", "amount": 3}]},
        {"id": "C", "name": "Item C", "recipeType": "PRESS", "result": 1}
    ]"#;
    let records = parse_records(text).unwrap();
    assert_eq!(records.len(), 2);
    assert_eq!(records[0].id, "B");
    assert_eq!(records[0].name, "Item B");
    assert_eq!(records[0].recipe_type, "SMELTERY");
    assert_eq!(records[0].result, 2);
    assert_eq!(records[0].recipe.len(), 1);
    assert_eq!(records[0].recipe[0].value, "A");
    assert_eq!(records[0].recipe[0].amount, 3);
    assert_eq!(records[1].id, "C");
    assert_eq!(records[1].recipe.len(), 0);
}

#[test]
fn text_that_is_no_json_is_refused() {
    assert_eq!(parse_records("[{").unwrap_err(), SourceError::Syntax);
}

#[test]
fn missing_members_are_named() {
    let no_name = r#"[{"id": "B", "recipeType": "X", "result": 1, "recipe": []}]"#;
    assert_eq!(parse_records(no_name).unwrap_err(), SourceError::Record(0, Field::Name));
    let no_id = r#"[{"name": "B", "recipeType": "X", "result": 1, "recipe": []}]"#;
    assert_eq!(parse_records(no_id).unwrap_err(), SourceError::Record(0, Field::Id));
    let no_amount = r#"[{"id": "A", "name": "A", "recipeType": "X", "result": 1, "recipe": []},
        {"id": "B", "name": "B", "recipeType": "X", "result": 1,
         "recipe": [{"value": "A", "amount": 1}, {"value": "A"}]}]"#;
    assert_eq!(
        parse_records(no_amount).unwrap_err(),
        SourceError::Record(1, Field::IngredientAmount(1))
    );
    let no_value = r#"[{"id": "B", "name": "B", "recipeType": "X", "result": 1,
         "recipe": [{"amount": 1}]}]"#;
    assert_eq!(
        parse_records(no_value).unwrap_err(),
        SourceError::Record(0, Field::IngredientValue(0))
    );
    let no_kind = r#"[{"id": "B", "name": "B", "result": 1, "recipe": []}]"#;
    assert_eq!(parse_records(no_kind).unwrap_err(), SourceError::Record(0, Field::RecipeType));
    let bad_result = r#"[{"id": "B", "name": "B", "recipeType": "X", "result": -1, "recipe": []}]"#;
    assert_eq!(parse_records(bad_result).unwrap_err(), SourceError::Record(0, Field::Result));
}

#[test]
fn counts_are_plain_numbers_of_thirty_two_bits() {
    let with = |result: &str| {
        format!(r#"[{{"id": "B", "name": "B", "recipeType": "X", "result": {}, "recipe": []}}]"#, result)
    };
    assert_eq!(parse_records(&with("0")).unwrap()[0].result, 0);
    assert_eq!(parse_records(&with("4294967295")).unwrap()[0].result, u32::MAX);
    for other in ["4294967296", "1.5", "\"1\"", "null", "true", "[1]"] {
        assert_eq!(parse_records(&with(other)).unwrap_err(), SourceError::Record(0, Field::Result));
    }
}

#[test]
fn a_document_that_is_no_array_gives_no_records() {
    assert_eq!(parse_records("{}").unwrap().len(), 0);
    assert_eq!(parse_records("3").unwrap().len(), 0);
    assert_eq!(parse_records("[]").unwrap().len(), 0);
}

#[test]
fn a_member_that_is_no_object_lacks_its_name() {
    assert_eq!(parse_records("[1]").unwrap_err(), SourceError::Record(0, Field::Name));
    let second = r#"[{"id": "A", "name": "A", "recipeType": "X", "result": 1}, "B"]"#;
    assert_eq!(parse_records(second).unwrap_err(), SourceError::Record(1, Field::Name));
}

#[test]
fn a_fraction_with_more_digits_than_the_parser_counts_is_refused_unread() {
    let zeros = "0".repeat(32769);
    assert_eq!(parse_records(&format!("0.{}", zeros)).unwrap_err(), SourceError::DigitRun);
    assert_eq!(parse_records(&format!("-0.{}", zeros)).unwrap_err(), SourceError::DigitRun);
    assert_eq!(parse_records(&format!("[0.{}1]", zeros)).unwrap_err(), SourceError::DigitRun);
    let record = format!(
        r#"[{{"id": "B", "name": "B", "recipeType": "X", "result": 0.{}, "recipe": []}}]"#,
        zeros
    );
    assert_eq!(parse_records(&record).unwrap_err(), SourceError::DigitRun);
}

#[test]
fn digits_in_a_row_are_counted_wherever_they_stand() {
    assert_eq!(DIGIT_RUN_LIMIT, 32767);
    let most = "7".repeat(DIGIT_RUN_LIMIT);
    let more = "7".repeat(DIGIT_RUN_LIMIT + 1);
    assert!(digit_runs_fit(""));
    assert!(digit_runs_fit("no digit"));
    assert!(digit_runs_fit(&most));
    assert!(!digit_runs_fit(&more));
    assert!(digit_runs_fit(&format!("{}.{}", most, most)));
    assert!(digit_runs_fit(&format!("{}{}{}", most, '\u{661}', most)));
    assert!(digit_runs_fit(&format!("x{}x{}x", most, most)));
    assert!(!digit_runs_fit(&format!("x{}x{}x", most, more)));
    assert!(!digit_runs_fit(&format!("{}x", more)));
    assert!(!digit_runs_fit(&format!("x{}", more)));
    assert!(!digit_runs_fit(&format!("{}{}", most, most)));
    assert_eq!(
        parse_records(&format!(r#"[{{"id": "{}"}}]"#, more)).unwrap_err(),
        SourceError::DigitRun
    );
}

#[test]
fn the_longest_run_of_digits_that_fits_is_read() {
    let most = "0".repeat(DIGIT_RUN_LIMIT);
    assert_eq!(parse_records(&format!("0.{}", most)).unwrap().len(), 0);
    assert_eq!(parse_records(&format!("[0.{}", most)).unwrap_err(), SourceError::Syntax);
    let record = format!(
        r#"[{{"id": "{}", "name": "B", "recipeType": "X", "result": 3, "recipe": []}}]"#,
        most
    );
    let records = parse_records(&record).unwrap();
    assert_eq!(records[0].id, most);
    assert_eq!(records[0].result, 3);
    let fraction = format!(
        r#"[{{"id": "B", "name": "B", "recipeType": "X", "result": 1.{}, "recipe": []}}]"#,
        most
    );
    assert_eq!(parse_records(&fraction).unwrap_err(), SourceError::Record(0, Field::Result));
}
