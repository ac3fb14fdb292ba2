use sfcalc::item::{IngredientRecord, Item, ItemRecord, SFItem};
use vstd::hash_map::StringHashMap;

#[test]
fn a_recipe_is_resolved_against_the_positions_given() {
    let record = ItemRecord {
        id: "GEAR".to_string(),
        name: "Gear".to_string(),
        recipe_type: "WORKBENCH".to_string(),
        result: 4,
        recipe: vec![
            IngredientRecord { value: "PLATE".to_string(), amount: 3 },
            IngredientRecord { value: "STICK".to_string(), amount: 1 },
            IngredientRecord { value: "GEAR".to_string(), amount: 2 },
        ],
    };
    let mut positions = StringHashMap::new();
    positions.insert("PLATE".to_string(), 7usize);
    positions.insert("GEAR".to_string(), 0usize);
    let mut item = SFItem::new(&record);
    assert!(item.recipe.is_none());
    item.load(&record, &positions);
    assert_eq!(item.id, "GEAR");
    assert_eq!(item.name, "Gear");
    let recipe = item.recipe.as_ref().unwrap();
    assert_eq!(recipe.kind, "WORKBENCH");
    assert_eq!(recipe.yield_per_operation, 4);
    assert_eq!(recipe.ingredients.len(), 3);
    assert!(matches!(recipe.ingredients[0], (Item::SF(7), 3)));
    assert!(matches!(&recipe.ingredients[1], (Item::Vanilla(id), 1) if id == "STICK"));
    assert!(matches!(recipe.ingredients[2], (Item::SF(0), 2)));
}
