use sfcalc::calculator::{CraftError, CraftingCalculator};
use sfcalc::catalog::Catalog;
use sfcalc::item::{IngredientRecord, ItemRecord};

fn record(id: &str, result: u32, recipe: &[(&str, u32)]) -> ItemRecord {
    ItemRecord {
        id: id.to_string(),
        name: format!("{} name", id),
        recipe_type: "WORKBENCH".to_string(),
        result,
        recipe: recipe
            .iter()
            .map(|(value, amount)| IngredientRecord { value: value.to_string(), amount: *amount })
            .collect(),
    }
}

fn raw(ids: &[&str]) -> Vec<String> {
    ids.iter().map(|id| id.to_string()).collect()
}

fn workshop() -> Catalog {
    let records = vec![
        record("PLATE", 1, &[("IRON_DUST", 2)]),
        record("GEAR", 4, &[("PLATE", 3), ("STICK", 1)]),
        record("MOTOR", 1, &[("GEAR", 2), ("PLATE", 1), ("COIL", 5)]),
        record("COIL", 3, &[("COPPER_DUST", 1)]),
    ];
    Catalog::load(&records, &raw(&["IRON_DUST", "COPPER_DUST"])).unwrap()
}

fn ledgers(calculator: &CraftingCalculator) -> Vec<Vec<(String, u64)>> {
    let mut all = Vec::new();
    for ledger in [calculator.surplus(), calculator.completed(), calculator.base_materials()] {
        let mut entries: Vec<(String, u64)> = (0..ledger.len())
            .map(|k| (ledger.key(k).to_string(), ledger.get(ledger.key(k))))
            .collect();
        entries.sort();
        all.push(entries);
    }
    all
}

#[test]
fn craft_with_leftover_then_from_surplus() {
    let records = vec![record("A", 1, &[]), record("B", 2, &[("A", 3)])];
    let catalog = Catalog::load(&records, &raw(&["A"])).unwrap();
    assert_eq!(catalog.recipe_depth(catalog.find("A").unwrap()), 1);
    let b = catalog.find("B").unwrap();
    let mut calculator = CraftingCalculator::new();

    assert_eq!(calculator.craft(&catalog, b, 5), Ok(()));
    assert_eq!(calculator.completed().get("B"), 3);
    assert_eq!(calculator.surplus().get("B"), 1);
    assert_eq!(calculator.base_materials().get("A"), 9);

    assert_eq!(calculator.craft(&catalog, b, 1), Ok(()));
    assert_eq!(calculator.completed().get("B"), 3);
    assert_eq!(calculator.surplus().get("B"), 0);
    assert_eq!(calculator.base_materials().get("A"), 9);
}

#[test]
fn a_new_calculator_has_empty_ledgers() {
    let calculator = CraftingCalculator::new();
    assert_eq!(calculator.surplus().len(), 0);
    assert_eq!(calculator.completed().len(), 0);
    assert_eq!(calculator.base_materials().len(), 0);
}

#[test]
fn demand_goes_down_through_the_recipes() {
    let catalog = workshop();
    let mut calculator = CraftingCalculator::new();
    assert_eq!(calculator.craft(&catalog, catalog.find("MOTOR").unwrap(), 2), Ok(()));
    assert_eq!(calculator.completed().get("MOTOR"), 2);
    assert_eq!(calculator.completed().get("GEAR"), 1);
    assert_eq!(calculator.completed().get("PLATE"), 5);
    assert_eq!(calculator.completed().get("COIL"), 4);
    assert_eq!(calculator.surplus().get("MOTOR"), 0);
    assert_eq!(calculator.surplus().get("GEAR"), 0);
    assert_eq!(calculator.surplus().get("PLATE"), 0);
    assert_eq!(calculator.surplus().get("COIL"), 2);
    assert_eq!(calculator.base_materials().get("IRON_DUST"), 10);
    assert_eq!(calculator.base_materials().get("STICK"), 1);
    assert_eq!(calculator.base_materials().get("COPPER_DUST"), 4);
    assert_eq!(calculator.base_materials().len(), 3);
    assert_eq!(calculator.completed().len(), 4);
}

#[test]
fn operations_are_the_demand_over_the_yield_rounded_up() {
    let catalog = workshop();
    let coil = catalog.find("COIL").unwrap();
    for (count, operations, left) in [(1, 1, 2), (2, 1, 1), (3, 1, 0), (4, 2, 2), (9, 3, 0), (10, 4, 2)] {
        let mut calculator = CraftingCalculator::new();
        assert_eq!(calculator.craft(&catalog, coil, count), Ok(()));
        assert_eq!(calculator.completed().get("COIL"), operations);
        assert_eq!(calculator.surplus().get("COIL"), left);
        assert_eq!(calculator.base_materials().get("COPPER_DUST"), operations);
    }
}

#[test]
fn large_counts_round_up_exactly() {
    let catalog = workshop();
    let coil = catalog.find("COIL").unwrap();
    let mut calculator = CraftingCalculator::new();
    assert_eq!(calculator.craft(&catalog, coil, 16_777_217), Ok(()));
    assert_eq!(calculator.completed().get("COIL"), 5_592_406);
    assert_eq!(calculator.surplus().get("COIL"), 1);
    let mut calculator = CraftingCalculator::new();
    assert_eq!(calculator.craft(&catalog, coil, u64::MAX), Ok(()));
    assert_eq!(calculator.completed().get("COIL"), 6_148_914_691_236_517_205);
    assert_eq!(calculator.surplus().get("COIL"), 0);
    let mut calculator = CraftingCalculator::new();
    assert_eq!(calculator.craft(&catalog, coil, u64::MAX - 1), Ok(()));
    assert_eq!(calculator.completed().get("COIL"), 6_148_914_691_236_517_205);
    assert_eq!(calculator.surplus().get("COIL"), 1);
}

#[test]
fn what_was_produced_is_what_was_asked_for_and_what_is_left() {
    let catalog = workshop();
    let gear = catalog.find("GEAR").unwrap();
    let mut calculator = CraftingCalculator::new();
    let mut asked = 0;
    for count in [1, 2, 7, 0, 5, 3] {
        let surplus_before = calculator.surplus().get("GEAR");
        let completed_before = calculator.completed().get("GEAR");
        assert_eq!(calculator.craft(&catalog, gear, count), Ok(()));
        asked += count;
        let operations = calculator.completed().get("GEAR") - completed_before;
        assert_eq!(surplus_before + operations * 4, count + calculator.surplus().get("GEAR"));
        assert_eq!(calculator.completed().get("GEAR") * 4, asked + calculator.surplus().get("GEAR"));
        assert!(calculator.surplus().get("GEAR") < 4);
    }
    assert_eq!(calculator.completed().get("GEAR"), 5);
    assert_eq!(calculator.surplus().get("GEAR"), 2);
}

#[test]
fn a_request_for_nothing_changes_no_quantity() {
    let catalog = workshop();
    let motor = catalog.find("MOTOR").unwrap();
    let mut calculator = CraftingCalculator::new();
    assert_eq!(calculator.craft(&catalog, motor, 0), Ok(()));
    assert!(calculator.completed().contains("MOTOR"));
    assert!(calculator.completed().contains("GEAR"));
    assert!(calculator.surplus().contains("PLATE"));
    assert!(calculator.base_materials().contains("IRON_DUST"));
    for ledger in ledgers(&calculator) {
        assert!(ledger.iter().all(|(_, quantity)| *quantity == 0));
    }

    assert_eq!(calculator.craft(&catalog, motor, 3), Ok(()));
    let before = ledgers(&calculator);
    assert_eq!(calculator.craft(&catalog, motor, 0), Ok(()));
    assert_eq!(ledgers(&calculator), before);
}

#[test]
fn a_request_for_nothing_on_an_item_without_ingredients_adds_its_entries_only() {
    let catalog = Catalog::load(&vec![record("A", 1, &[]), record("B", 1, &[])], &raw(&[])).unwrap();
    let mut calculator = CraftingCalculator::new();
    assert_eq!(calculator.craft(&catalog, 0, 0), Ok(()));
    assert_eq!(
        ledgers(&calculator),
        vec![vec![("A".to_string(), 0)], vec![("A".to_string(), 0)], vec![]]
    );
}

#[test]
fn declared_stock_is_used_before_anything_is_crafted() {
    let catalog = workshop();
    let motor = catalog.find("MOTOR").unwrap();
    let mut calculator = CraftingCalculator::new();
    assert_eq!(calculator.add_extra(&catalog, motor, 5), Ok(()));
    assert_eq!(calculator.surplus().get("MOTOR"), 5);
    assert_eq!(calculator.craft(&catalog, motor, 3), Ok(()));
    assert_eq!(calculator.surplus().get("MOTOR"), 2);
    assert_eq!(calculator.craft(&catalog, motor, 2), Ok(()));
    assert_eq!(calculator.surplus().get("MOTOR"), 0);
    for ledger in &ledgers(&calculator)[1..] {
        assert!(ledger.iter().all(|(_, quantity)| *quantity == 0));
    }
    assert_eq!(calculator.completed().get("MOTOR"), 0);
    assert_eq!(calculator.completed().get("GEAR"), 0);
    assert_eq!(calculator.base_materials().get("IRON_DUST"), 0);
}

#[test]
fn stock_covers_a_part_and_the_rest_is_crafted() {
    let catalog = workshop();
    let coil = catalog.find("COIL").unwrap();
    let mut calculator = CraftingCalculator::new();
    assert_eq!(calculator.add_extra(&catalog, coil, 2), Ok(()));
    assert_eq!(calculator.craft(&catalog, coil, 6), Ok(()));
    assert_eq!(calculator.completed().get("COIL"), 2);
    assert_eq!(calculator.surplus().get("COIL"), 2);
    assert_eq!(calculator.base_materials().get("COPPER_DUST"), 2);
}

#[test]
fn stock_of_one_item_serves_no_other() {
    let catalog = workshop();
    let mut calculator = CraftingCalculator::new();
    assert_eq!(calculator.add_extra(&catalog, catalog.find("PLATE").unwrap(), 100), Ok(()));
    assert_eq!(calculator.craft(&catalog, catalog.find("COIL").unwrap(), 3), Ok(()));
    assert_eq!(calculator.completed().get("COIL"), 1);
    assert_eq!(calculator.surplus().get("PLATE"), 100);
}

#[test]
fn stock_of_an_ingredient_is_used_on_the_way_down() {
    let catalog = workshop();
    let mut calculator = CraftingCalculator::new();
    assert_eq!(calculator.add_extra(&catalog, catalog.find("PLATE").unwrap(), 2), Ok(()));
    assert_eq!(calculator.craft(&catalog, catalog.find("GEAR").unwrap(), 1), Ok(()));
    assert_eq!(calculator.completed().get("GEAR"), 1);
    assert_eq!(calculator.surplus().get("GEAR"), 3);
    assert_eq!(calculator.completed().get("PLATE"), 1);
    assert_eq!(calculator.surplus().get("PLATE"), 0);
    assert_eq!(calculator.base_materials().get("IRON_DUST"), 2);
}

#[test]
fn a_raw_material_is_counted_and_not_crafted() {
    let records = vec![
        record("DUST", 1, &[("ORE", 4)]),
        record("INGOT", 1, &[("DUST", 2)]),
    ];
    let catalog = Catalog::load(&records, &raw(&["DUST"])).unwrap();
    let mut calculator = CraftingCalculator::new();
    assert_eq!(calculator.add_extra(&catalog, 0, 50), Ok(()));
    assert_eq!(calculator.craft(&catalog, 1, 3), Ok(()));
    assert_eq!(calculator.base_materials().get("DUST"), 6);
    assert!(!calculator.base_materials().contains("ORE"));
    assert!(!calculator.completed().contains("DUST"));
    assert_eq!(calculator.surplus().get("DUST"), 50);

    assert_eq!(calculator.craft(&catalog, 0, 51), Ok(()));
    assert_eq!(calculator.completed().get("DUST"), 1);
    assert_eq!(calculator.base_materials().get("ORE"), 4);
}

#[test]
fn independent_requests_give_the_same_ledgers_in_either_order() {
    let records = vec![
        record("PLATE", 1, &[("IRON_DUST", 2)]),
        record("GEAR", 4, &[("PLATE", 3), ("STICK", 1)]),
        record("COIL", 3, &[("COPPER_DUST", 1), ("STICK", 2)]),
        record("LAMP", 2, &[("COIL", 1), ("IRON_DUST", 1)]),
    ];
    let catalog = Catalog::load(&records, &raw(&["IRON_DUST", "COPPER_DUST"])).unwrap();
    let gear = catalog.find("GEAR").unwrap();
    let lamp = catalog.find("LAMP").unwrap();

    let mut first = CraftingCalculator::new();
    assert_eq!(first.craft(&catalog, gear, 5), Ok(()));
    assert_eq!(first.craft(&catalog, lamp, 7), Ok(()));
    let mut second = CraftingCalculator::new();
    assert_eq!(second.craft(&catalog, lamp, 7), Ok(()));
    assert_eq!(second.craft(&catalog, gear, 5), Ok(()));

    assert_eq!(ledgers(&first), ledgers(&second));
    assert_eq!(first.base_materials().get("STICK"), 6);
    assert_eq!(first.base_materials().get("IRON_DUST"), 16);
    assert_eq!(first.base_materials().get("COPPER_DUST"), 2);
}

#[test]
fn craft_unknown_position_is_refused() {
    let catalog = workshop();
    let mut calculator = CraftingCalculator::new();
    assert_eq!(calculator.craft(&catalog, 4, 1), Err(CraftError::UnknownItem));
    assert_eq!(calculator.add_extra(&catalog, 4, 1), Err(CraftError::UnknownItem));
    assert_eq!(calculator.completed().len(), 0);
    assert_eq!(calculator.surplus().len(), 0);
}

#[test]
fn a_request_out_of_range_leaves_the_ledgers_alone() {
    let catalog = workshop();
    let motor = catalog.find("MOTOR").unwrap();
    let mut calculator = CraftingCalculator::new();
    assert_eq!(calculator.craft(&catalog, motor, 1), Ok(()));
    let before = ledgers(&calculator);
    assert_eq!(calculator.craft(&catalog, motor, u64::MAX / 2), Err(CraftError::Overflow));
    assert_eq!(ledgers(&calculator), before);
    assert_eq!(calculator.craft(&catalog, motor, 1), Ok(()));
    assert_eq!(calculator.completed().get("MOTOR"), 2);
}

#[test]
fn totals_out_of_range_are_refused() {
    let catalog = workshop();
    let plate = catalog.find("PLATE").unwrap();
    let mut calculator = CraftingCalculator::new();
    assert_eq!(calculator.craft(&catalog, plate, u64::MAX / 2), Ok(()));
    assert_eq!(calculator.base_materials().get("IRON_DUST"), u64::MAX - 1);
    assert_eq!(calculator.craft(&catalog, plate, 1), Err(CraftError::Overflow));
    assert_eq!(calculator.completed().get("PLATE"), u64::MAX / 2);
    assert_eq!(calculator.base_materials().get("IRON_DUST"), u64::MAX - 1);
}

#[test]
fn stock_out_of_range_is_refused() {
    let catalog = workshop();
    let mut calculator = CraftingCalculator::new();
    assert_eq!(calculator.add_extra(&catalog, 0, u64::MAX), Ok(()));
    assert_eq!(calculator.add_extra(&catalog, 0, 1), Err(CraftError::Overflow));
    assert_eq!(calculator.surplus().get("PLATE"), u64::MAX);
}

#[test]
fn the_entries_of_an_item_can_be_opened_by_hand() {
    let mut calculator = CraftingCalculator::new();
    assert_eq!(calculator.completed_crafts("X"), 0);
    assert_eq!(calculator.extra_crafts("Y"), 0);
    assert!(calculator.completed().contains("X"));
    assert!(calculator.surplus().contains("Y"));
    assert!(!calculator.surplus().contains("X"));
    assert_eq!(calculator.add_base_material("ORE", 3), Ok(()));
    assert_eq!(calculator.add_base_material("ORE", 4), Ok(()));
    assert_eq!(calculator.base_materials().get("ORE"), 7);
    assert_eq!(calculator.add_base_material("ORE", u64::MAX), Err(CraftError::Overflow));
    assert_eq!(calculator.base_materials().get("ORE"), 7);
}

#[test]
fn a_duplicate_calculator_goes_its_own_way() {
    let catalog = workshop();
    let mut calculator = CraftingCalculator::new();
    assert_eq!(calculator.craft(&catalog, 0, 2), Ok(()));
    let mut copy = calculator.duplicate();
    assert_eq!(ledgers(&copy), ledgers(&calculator));
    assert_eq!(copy.craft(&catalog, 0, 1), Ok(()));
    assert_eq!(calculator.completed().get("PLATE"), 2);
    assert_eq!(copy.completed().get("PLATE"), 3);
}
