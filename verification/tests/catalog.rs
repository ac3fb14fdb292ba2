use sfcalc::catalog::{Catalog, Classification, LoadError};
use sfcalc::item::{IngredientRecord, Item, ItemRecord, SFItem};

fn record(id: &str, name: &str, result: u32, recipe: &[(&str, u32)]) -> ItemRecord {
    ItemRecord {
        id: id.to_string(),
        name: name.to_string(),
        recipe_type: format!("{}_KIND", id),
        result,
        recipe: recipe
            .iter()
            .map(|(value, amount)| IngredientRecord { value: value.to_string(), amount: *amount })
            .collect(),
    }
}

fn raw(ids: &[&str]) -> Vec<String> {
    ids.iter().map(|id| id.to_string()).collect()
}

fn workshop() -> Catalog {
    let records = vec![
        record("PLATE", "Plate", 1, &[("IRON_DUST", 2)]),
        record("GEAR", "Gear", 4, &[("PLATE", 3), ("STICK", 1)]),
        record("MOTOR", "Motor", 1, &[("GEAR", 2), ("PLATE", 1), ("COIL", 5)]),
        record("COIL", "Coil", 3, &[("COPPER_DUST", 1)]),
    ];
    Catalog::load(&records, &raw(&["IRON_DUST", "COPPER_DUST"])).unwrap()
}

#[test]
fn a_new_item_has_no_recipe_yet() {
    let item = SFItem::new(&record("GEAR", "Gear", 4, &[("PLATE", 3)]));
    assert_eq!(item.id, "GEAR");
    assert_eq!(item.name, "Gear");
    assert!(item.recipe.is_none());
}

#[test]
fn a_loaded_catalog_holds_each_record_at_its_position() {
    let catalog = workshop();
    assert_eq!(catalog.len(), 4);
    assert_eq!(catalog.item(0).id, "PLATE");
    assert_eq!(catalog.item(3).id, "COIL");
    assert_eq!(catalog.item(1).name, "Gear");
    let recipe = catalog.item(1).recipe.as_ref().unwrap();
    assert_eq!(recipe.kind, "GEAR_KIND");
    assert_eq!(recipe.yield_per_operation, 4);
    assert_eq!(recipe.ingredients.len(), 2);
    assert!(matches!(recipe.ingredients[0], (Item::SF(0), 3)));
    assert!(matches!(&recipe.ingredients[1], (Item::Vanilla(id), 1) if id == "STICK"));
}

#[test]
fn an_ingredient_may_refer_to_a_later_record() {
    let catalog = workshop();
    let recipe = catalog.item(2).recipe.as_ref().unwrap();
    assert!(matches!(recipe.ingredients[2], (Item::SF(3), 5)));
}

#[test]
fn items_are_found_by_identifier() {
    let catalog = workshop();
    assert_eq!(catalog.find("PLATE"), Some(0));
    assert_eq!(catalog.find("MOTOR"), Some(2));
    assert_eq!(catalog.find("STICK"), None);
    assert_eq!(catalog.find(""), None);
}

#[test]
fn the_allowlist_decides_before_the_reference() {
    let records = vec![
        record("DUST", "Dust", 1, &[("ORE", 1)]),
        record("INGOT", "Ingot", 1, &[("DUST", 2), ("COAL", 1), ("WIRE", 1)]),
        record("WIRE", "Wire", 2, &[("INGOT_SCRAP", 1)]),
    ];
    let catalog = Catalog::load(&records, &raw(&["DUST", "COAL"])).unwrap();
    assert!(catalog.is_raw("DUST"));
    assert!(catalog.is_raw("COAL"));
    assert!(!catalog.is_raw("WIRE"));
    let lines = &catalog.item(1).recipe.as_ref().unwrap().ingredients;
    assert_eq!(catalog.classify(&lines[0].0), Classification::RawTerminal);
    assert_eq!(catalog.classify(&lines[1].0), Classification::RawTerminal);
    assert_eq!(catalog.classify(&lines[2].0), Classification::Recurse(2));
    let wire = &catalog.item(2).recipe.as_ref().unwrap().ingredients;
    assert_eq!(catalog.classify(&wire[0].0), Classification::BaseTerminal);
}

#[test]
fn ingredients_give_their_identifier_and_name() {
    let catalog = workshop();
    let lines = &catalog.item(1).recipe.as_ref().unwrap().ingredients;
    assert_eq!(lines[0].0.get_id(&catalog), "PLATE");
    assert_eq!(lines[0].0.get_name(&catalog), "Plate");
    assert_eq!(lines[1].0.get_id(&catalog), "STICK");
    assert_eq!(lines[1].0.get_name(&catalog), "STICK");
}

#[test]
fn depth_is_one_where_every_ingredient_is_terminal() {
    let catalog = workshop();
    assert_eq!(catalog.recipe_depth(0), 1);
    assert_eq!(catalog.recipe_depth(3), 1);
    assert_eq!(catalog.item(0).get_recipe_depth(&catalog), 1);
    let empty = Catalog::load(&vec![record("A", "A", 1, &[])], &raw(&[])).unwrap();
    assert_eq!(empty.recipe_depth(0), 1);
}

#[test]
fn depth_is_one_more_than_the_deepest_ingredient() {
    let catalog = workshop();
    assert_eq!(catalog.recipe_depth(1), 2);
    assert_eq!(catalog.recipe_depth(2), 3);
    assert_eq!(catalog.item(1).get_recipe_depth(&catalog), 2);
    assert_eq!(catalog.item(2).get_recipe_depth(&catalog), 3);
}

#[test]
fn a_raw_ingredient_adds_no_depth() {
    let records = vec![
        record("PLATE", "Plate", 1, &[("ORE", 1)]),
        record("GEAR", "Gear", 1, &[("PLATE", 1)]),
        record("MOTOR", "Motor", 1, &[("GEAR", 1)]),
    ];
    let catalog = Catalog::load(&records, &raw(&["GEAR"])).unwrap();
    assert_eq!(catalog.recipe_depth(0), 1);
    assert_eq!(catalog.recipe_depth(1), 2);
    assert_eq!(catalog.recipe_depth(2), 1);
}

#[test]
fn the_depth_of_an_ingredient_is_that_of_what_it_refers_to() {
    let catalog = workshop();
    let lines = &catalog.item(2).recipe.as_ref().unwrap().ingredients;
    assert_eq!(lines[0].0.get_recipe_depth(&catalog), 2);
    assert_eq!(lines[1].0.get_recipe_depth(&catalog), 1);
    let gear = &catalog.item(1).recipe.as_ref().unwrap().ingredients;
    assert_eq!(gear[1].0.get_recipe_depth(&catalog), 1);
}

#[test]
fn a_repeated_identifier_is_refused() {
    let records = vec![
        record("A", "A", 1, &[]),
        record("B", "B", 0, &[]),
        record("A", "again", 1, &[]),
    ];
    assert_eq!(Catalog::load(&records, &raw(&[])).err(), Some(LoadError::DuplicateId(2)));
}

#[test]
fn a_yield_of_zero_is_refused() {
    let records = vec![
        record("A", "A", 1, &[("X", 1)]),
        record("B", "B", 0, &[("X", 0)]),
        record("C", "C", 0, &[]),
    ];
    assert_eq!(Catalog::load(&records, &raw(&[])).err(), Some(LoadError::InvalidYield(1)));
}

#[test]
fn a_quantity_of_zero_is_refused() {
    let records = vec![
        record("A", "A", 1, &[("X", 1)]),
        record("B", "B", 2, &[("X", 1), ("Y", 0), ("Z", 0)]),
    ];
    assert_eq!(Catalog::load(&records, &raw(&[])).err(), Some(LoadError::InvalidAmount(1, 1)));
}

#[test]
fn a_cycle_is_refused_at_the_first_item_that_leads_into_it() {
    let records = vec![
        record("FREE", "Free", 1, &[("ORE", 1)]),
        record("LEAD_IN", "Lead in", 1, &[("A", 1)]),
        record("A", "A", 1, &[("B", 1), ("FREE", 1)]),
        record("B", "B", 1, &[("A", 1)]),
    ];
    assert_eq!(Catalog::load(&records, &raw(&[])).err(), Some(LoadError::CyclicRecipe(1)));
    let own = vec![record("SELF", "Self", 1, &[("SELF", 1)])];
    assert_eq!(Catalog::load(&own, &raw(&[])).err(), Some(LoadError::CyclicRecipe(0)));
}

#[test]
fn a_raw_material_breaks_a_cycle() {
    let records = vec![
        record("DUST", "Dust", 1, &[("INGOT", 1)]),
        record("INGOT", "Ingot", 1, &[("DUST", 1)]),
    ];
    let catalog = Catalog::load(&records, &raw(&["DUST"])).unwrap();
    assert_eq!(catalog.recipe_depth(1), 1);
    assert_eq!(catalog.recipe_depth(0), 2);
}

#[test]
fn an_empty_catalog_loads() {
    let catalog = Catalog::load(&Vec::new(), &raw(&["A"])).unwrap();
    assert_eq!(catalog.len(), 0);
    assert_eq!(catalog.find("A"), None);
    assert!(catalog.is_raw("A"));
}
