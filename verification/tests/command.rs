use sfcalc::calculator::CraftingCalculator;
use sfcalc::catalog::Catalog;
use sfcalc::command::{
    carry_out, invoke, parse_argument, ArgumentError, Command, InvocationError, SEPARATOR,
    STOCK_MARK,
};
use sfcalc::item::{IngredientRecord, ItemRecord};

fn catalog() -> Catalog {
    let records = vec![ItemRecord {
        id: "B".to_string(),
        name: "B".to_string(),
        recipe_type: "K".to_string(),
        result: 2,
        recipe: vec![IngredientRecord { value: "A".to_string(), amount: 3 }],
    }];
    Catalog::load(&records, &vec!["A".to_string()]).unwrap()
}

fn command(id: &str, count: u32, in_stock: bool) -> Command {
    Command { id: id.to_string(), count, in_stock }
}

#[test]
fn a_craft_request_is_an_identifier_and_a_count() {
    assert_eq!(parse_argument("GEAR:12"), Ok(command("GEAR", 12, false)));
    assert_eq!(parse_argument("B:0"), Ok(command("B", 0, false)));
    assert_eq!(parse_argument("B:007"), Ok(command("B", 7, false)));
    assert_eq!(parse_argument("B:+5"), Ok(command("B", 5, false)));
    assert_eq!(parse_argument("B:4294967295"), Ok(command("B", u32::MAX, false)));
    assert_eq!(parse_argument(":1"), Ok(command("", 1, false)));
    assert_eq!(SEPARATOR, ':');
}

#[test]
fn a_leading_mark_declares_stock() {
    assert_eq!(parse_argument("#GEAR:12"), Ok(command("GEAR", 12, true)));
    assert_eq!(parse_argument("##A:1"), Ok(command("#A", 1, true)));
    assert_eq!(parse_argument("A#:1"), Ok(command("A#", 1, false)));
    assert_eq!(STOCK_MARK, '#');
}

#[test]
fn the_first_separator_divides() {
    assert_eq!(parse_argument("A:B:1"), Err(ArgumentError::CountNotANumber));
    assert_eq!(parse_argument("A::1"), Err(ArgumentError::CountNotANumber));
}

#[test]
fn a_request_without_separator_is_malformed() {
    assert_eq!(parse_argument("GEAR"), Err(ArgumentError::Malformed));
    assert_eq!(parse_argument(""), Err(ArgumentError::Malformed));
    assert_eq!(parse_argument("#"), Err(ArgumentError::Malformed));
    assert_eq!(parse_argument("#GEAR12"), Err(ArgumentError::Malformed));
}

#[test]
fn a_count_must_be_a_number_of_thirty_two_bits() {
    for arg in ["A:", "A:+", "A:x", "A:1x", "A:-1", "A: 1", "A:1 ", "A:++1", "A:1.5", "A:4294967296", "A:99999999999999999999", "A:\u{661}"] {
        assert_eq!(parse_argument(arg), Err(ArgumentError::CountNotANumber));
    }
}

#[test]
fn requests_are_carried_out_on_the_calculator() {
    let catalog = catalog();
    let mut calculator = CraftingCalculator::new();
    assert_eq!(carry_out(&mut calculator, &catalog, &command("B", 5, true)), Ok(()));
    assert_eq!(calculator.surplus().get("B"), 5);
    assert_eq!(carry_out(&mut calculator, &catalog, &command("B", 8, false)), Ok(()));
    assert_eq!(calculator.completed().get("B"), 2);
    assert_eq!(calculator.surplus().get("B"), 1);
    assert_eq!(calculator.base_materials().get("A"), 6);
}

#[test]
fn an_unknown_identifier_is_refused() {
    let catalog = catalog();
    let mut calculator = CraftingCalculator::new();
    assert_eq!(
        carry_out(&mut calculator, &catalog, &command("A", 1, false)),
        Err(InvocationError::ItemNotFound)
    );
    assert_eq!(invoke(&mut calculator, &catalog, "#C:1"), Err(InvocationError::ItemNotFound));
    assert_eq!(calculator.completed().len(), 0);
    assert_eq!(calculator.surplus().len(), 0);
}

#[test]
fn written_requests_are_read_and_carried_out() {
    let catalog = catalog();
    let mut calculator = CraftingCalculator::new();
    assert_eq!(invoke(&mut calculator, &catalog, "B:5"), Ok(()));
    assert_eq!(calculator.completed().get("B"), 3);
    assert_eq!(invoke(&mut calculator, &catalog, "#B:2"), Ok(()));
    assert_eq!(calculator.surplus().get("B"), 3);
    assert_eq!(
        invoke(&mut calculator, &catalog, "B"),
        Err(InvocationError::Argument(ArgumentError::Malformed))
    );
    assert_eq!(
        invoke(&mut calculator, &catalog, "B:many"),
        Err(InvocationError::Argument(ArgumentError::CountNotANumber))
    );
    assert_eq!(calculator.completed().get("B"), 3);
}

#[test]
fn a_request_out_of_range_is_reported() {
    let catalog = catalog();
    let mut calculator = CraftingCalculator::new();
    calculator.add_base_material("A", u64::MAX - 2).unwrap();
    assert_eq!(invoke(&mut calculator, &catalog, "B:2"), Err(InvocationError::Overflow));
    assert!(!calculator.completed().contains("B"));
    calculator.add_extra(&catalog, 0, u64::MAX).unwrap();
    assert_eq!(invoke(&mut calculator, &catalog, "#B:1"), Err(InvocationError::Overflow));
}
