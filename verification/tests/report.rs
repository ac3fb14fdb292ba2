use sfcalc::calculator::CraftingCalculator;
use sfcalc::catalog::Catalog;
use sfcalc::item::{IngredientRecord, ItemRecord};
use sfcalc::report::{
    craft_line, craft_order, material_lines, render, report, CraftLine, IngredientUse,
    MaterialLine, Report,
};

fn record(id: &str, name: &str, kind: &str, result: u32, recipe: &[(&str, u32)]) -> ItemRecord {
    ItemRecord {
        id: id.to_string(),
        name: name.to_string(),
        recipe_type: kind.to_string(),
        result,
        recipe: recipe
            .iter()
            .map(|(value, amount)| IngredientRecord { value: value.to_string(), amount: *amount })
            .collect(),
    }
}

fn workshop() -> Catalog {
    let records = vec![
        record("PLATE", "\u{a7}bPlate", "PRESS", 1, &[("IRON_DUST", 2)]),
        record("GEAR", "Gear", "WORKBENCH", 4, &[("PLATE", 3), ("STICK", 1)]),
        record("MOTOR", "\u{a7}6\u{a7}lMotor", "ASSEMBLY", 1, &[("GEAR", 2), ("PLATE", 1), ("COIL", 5)]),
        record("COIL", "Coil", "WORKBENCH", 3, &[("COPPER_DUST", 1)]),
    ];
    let raw = vec!["IRON_DUST".to_string(), "COPPER_DUST".to_string()];
    Catalog::load(&records, &raw).unwrap()
}

#[test]
fn crafted_items_are_listed_from_the_simplest_recipe_to_the_deepest() {
    let catalog = workshop();
    let mut calculator = CraftingCalculator::new();
    calculator.craft(&catalog, catalog.find("MOTOR").unwrap(), 2).unwrap();
    assert_eq!(craft_order(&catalog, calculator.completed()), vec![0, 3, 1, 2]);
}

#[test]
fn only_items_with_an_entry_are_listed() {
    let catalog = workshop();
    let mut calculator = CraftingCalculator::new();
    assert_eq!(craft_order(&catalog, calculator.completed()), Vec::<usize>::new());
    calculator.craft(&catalog, catalog.find("COIL").unwrap(), 1).unwrap();
    calculator.craft(&catalog, catalog.find("GEAR").unwrap(), 0).unwrap();
    assert_eq!(craft_order(&catalog, calculator.completed()), vec![0, 3, 1]);
}

#[test]
fn a_line_gives_what_each_ingredient_comes_to() {
    let catalog = workshop();
    let mut calculator = CraftingCalculator::new();
    calculator.craft(&catalog, catalog.find("MOTOR").unwrap(), 2).unwrap();
    assert_eq!(
        craft_line(&catalog, calculator.completed(), 2),
        CraftLine {
            item: 2,
            name: "Motor".to_string(),
            operations: 2,
            kind: "ASSEMBLY".to_string(),
            ingredients: vec![
                IngredientUse { name: "Gear".to_string(), per_operation: 2, total: 4 },
                IngredientUse { name: "Plate".to_string(), per_operation: 1, total: 2 },
                IngredientUse { name: "Coil".to_string(), per_operation: 5, total: 10 },
            ],
        }
    );
}

#[test]
fn ingredient_totals_may_exceed_sixty_four_bits() {
    let records = vec![record("A", "A", "K", 1, &[("ORE", 1)]), record("B", "B", "K", u32::MAX, &[("A", u32::MAX)])];
    let catalog = Catalog::load(&records, &Vec::new()).unwrap();
    let mut calculator = CraftingCalculator::new();
    calculator.add_extra(&catalog, 1, u64::MAX).unwrap();
    calculator.craft(&catalog, 1, 0).unwrap();
    calculator.completed_crafts("B");
    let mut line = craft_line(&catalog, calculator.completed(), 1);
    assert_eq!(line.ingredients[0].total, 0);
    for _ in 0..4 {
        calculator.craft(&catalog, 0, u64::MAX / 4).unwrap();
    }
    line = craft_line(&catalog, calculator.completed(), 0);
    assert_eq!(line.operations, u64::MAX - 3);
    assert_eq!(line.ingredients[0].total, (u64::MAX - 3) as u128);
}

#[test]
fn base_materials_are_listed_in_ascending_order_of_their_identifiers() {
    let catalog = workshop();
    let mut calculator = CraftingCalculator::new();
    calculator.craft(&catalog, catalog.find("MOTOR").unwrap(), 2).unwrap();
    calculator.add_base_material("\u{a7}aGLOW", 1).unwrap();
    assert_eq!(
        material_lines(calculator.base_materials()),
        vec![
            MaterialLine { name: "COPPER_DUST".to_string(), quantity: 4 },
            MaterialLine { name: "IRON_DUST".to_string(), quantity: 10 },
            MaterialLine { name: "STICK".to_string(), quantity: 1 },
            MaterialLine { name: "GLOW".to_string(), quantity: 1 },
        ]
    );
}

#[test]
fn the_plan_is_the_same_whatever_the_order_of_independent_requests() {
    let catalog = workshop();
    let gear = catalog.find("GEAR").unwrap();
    let coil = catalog.find("COIL").unwrap();
    let mut first = CraftingCalculator::new();
    first.craft(&catalog, gear, 5).unwrap();
    first.craft(&catalog, coil, 7).unwrap();
    let mut second = CraftingCalculator::new();
    second.craft(&catalog, coil, 7).unwrap();
    second.craft(&catalog, gear, 5).unwrap();
    assert_eq!(report(&first, &catalog), report(&second, &catalog));
}

#[test]
fn the_plan_holds_materials_and_crafts() {
    let catalog = workshop();
    let mut calculator = CraftingCalculator::new();
    calculator.craft(&catalog, catalog.find("GEAR").unwrap(), 5).unwrap();
    let plan = report(&calculator, &catalog);
    assert_eq!(
        plan,
        Report {
            base_materials: vec![
                MaterialLine { name: "IRON_DUST".to_string(), quantity: 12 },
                MaterialLine { name: "STICK".to_string(), quantity: 2 },
            ],
            crafts: vec![
                CraftLine {
                    item: 0,
                    name: "Plate".to_string(),
                    operations: 6,
                    kind: "PRESS".to_string(),
                    ingredients: vec![IngredientUse {
                        name: "IRON_DUST".to_string(),
                        per_operation: 2,
                        total: 12,
                    }],
                },
                CraftLine {
                    item: 1,
                    name: "Gear".to_string(),
                    operations: 2,
                    kind: "WORKBENCH".to_string(),
                    ingredients: vec![
                        IngredientUse { name: "Plate".to_string(), per_operation: 3, total: 6 },
                        IngredientUse { name: "STICK".to_string(), per_operation: 1, total: 2 },
                    ],
                },
            ],
        }
    );
}

#[test]
fn the_plan_is_written_line_by_line() {
    let catalog = workshop();
    let mut calculator = CraftingCalculator::new();
    calculator.craft(&catalog, catalog.find("MOTOR").unwrap(), 2).unwrap();
    let lines = render(&report(&calculator, &catalog));
    assert_eq!(
        lines,
        vec![
            "BASE MATERIALS: ",
            "\tCOPPER_DUST:4",
            "\tIRON_DUST:10",
            "\tSTICK:1",
            "Plate(5):PRESS",
            "\t2xIRON_DUST(10)",
            "Coil(4):WORKBENCH",
            "\t1xCOPPER_DUST(4)",
            "Gear(1):WORKBENCH",
            "\t3xPlate(3)",
            "\t1xSTICK(1)",
            "Motor(2):ASSEMBLY",
            "\t2xGear(4)",
            "\t1xPlate(2)",
            "\t5xCoil(10)",
        ]
    );
}

#[test]
fn an_empty_plan_is_its_heading() {
    let catalog = workshop();
    let calculator = CraftingCalculator::new();
    let plan = report(&calculator, &catalog);
    assert_eq!(plan, Report { base_materials: vec![], crafts: vec![] });
    assert_eq!(render(&plan), vec!["BASE MATERIALS: "]);
}
