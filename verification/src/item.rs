//! Items, recipes and the records they are loaded from.

use vstd::hash_map::StringHashMap;
use vstd::prelude::*;

verus! {

/// What an ingredient refers to, as a mathematical value.
pub enum ItemView {
    /// The catalog item at this position.
    SF(int),
    /// A material that the catalog does not hold, by its identifier.
    Vanilla(Seq<char>),
}

/// A recipe as a mathematical value.
pub struct RecipeView {
    pub kind: Seq<char>,
    pub ingredients: Seq<(ItemView, nat)>,
    pub yield_per_operation: nat,
}

/// A catalog item as a mathematical value.
pub struct SFItemView {
    pub id: Seq<char>,
    pub name: Seq<char>,
    pub recipe: Option<RecipeView>,
}

/// One ingredient line of an item record as a mathematical value: the
/// ingredient's identifier and the quantity per operation.
pub type IngredientRecordView = (Seq<char>, nat);

/// An item record as a mathematical value.
pub struct ItemRecordView {
    pub id: Seq<char>,
    pub name: Seq<char>,
    pub recipe_type: Seq<char>,
    pub result: nat,
    pub recipe: Seq<IngredientRecordView>,
}

/// One ingredient line of an item record.
#[derive(Debug, Clone)]
pub struct IngredientRecord {
    /// The identifier of the ingredient.
    pub value: String,
    /// The quantity that one operation consumes.
    pub amount: u32,
}

/// An item as the catalog's source lists it.
#[derive(Debug, Clone)]
pub struct ItemRecord {
    pub id: String,
    pub name: String,
    /// The label of the recipe's kind, passed through unchanged.
    pub recipe_type: String,
    /// The number of units that one operation produces.
    pub result: u32,
    pub recipe: Vec<IngredientRecord>,
}

impl View for IngredientRecord {
    type V = IngredientRecordView;

    open spec fn view(&self) -> IngredientRecordView {
        (self.value@, self.amount as nat)
    }
}

impl View for ItemRecord {
    type V = ItemRecordView;

    open spec fn view(&self) -> ItemRecordView {
        ItemRecordView {
            id: self.id@,
            name: self.name@,
            recipe_type: self.recipe_type@,
            result: self.result as nat,
            recipe: Seq::new(self.recipe@.len(), |k: int| self.recipe@[k]@),
        }
    }
}

/// What an ingredient refers to.
#[derive(Debug, Clone)]
pub enum Item {
    /// The catalog item at this position.
    SF(usize),
    /// A material that the catalog does not hold, by its identifier.
    Vanilla(String),
}

impl View for Item {
    type V = ItemView;

    open spec fn view(&self) -> ItemView {
        match self {
            Item::SF(p) => ItemView::SF(*p as int),
            Item::Vanilla(id) => ItemView::Vanilla(id@),
        }
    }
}

/// How an item is made.
#[derive(Debug, Clone)]
pub struct Recipe {
    /// The label of the recipe's kind, passed through unchanged.
    pub kind: String,
    /// The ingredients, each with the quantity that one operation consumes.
    pub ingredients: Vec<(Item, u32)>,
    /// The number of units that one operation produces.
    pub yield_per_operation: u32,
}

/// The ingredient lines of a recipe as mathematical values.
pub open spec fn lines_view(lines: Seq<(Item, u32)>) -> Seq<(ItemView, nat)> {
    Seq::new(lines.len(), |k: int| (lines[k].0@, lines[k].1 as nat))
}

impl View for Recipe {
    type V = RecipeView;

    open spec fn view(&self) -> RecipeView {
        RecipeView {
            kind: self.kind@,
            ingredients: lines_view(self.ingredients@),
            yield_per_operation: self.yield_per_operation as nat,
        }
    }
}

/// A catalog item. Its recipe is absent only while the catalog is loaded.
#[derive(Debug, Clone)]
pub struct SFItem {
    pub name: String,
    pub id: String,
    pub recipe: Option<Recipe>,
}

impl View for SFItem {
    type V = SFItemView;

    open spec fn view(&self) -> SFItemView {
        SFItemView {
            id: self.id@,
            name: self.name@,
            recipe: match self.recipe {
                Some(recipe) => Some(recipe@),
                None => None,
            },
        }
    }
}

/// What an ingredient identifier refers to, given the positions of the
/// catalog's identifiers: the item that bears it, or else a material outside
/// the catalog.
pub open spec fn resolve(positions: Map<Seq<char>, usize>, value: Seq<char>) -> ItemView {
    if positions.contains_key(value) {
        ItemView::SF(positions[value] as int)
    } else {
        ItemView::Vanilla(value)
    }
}

/// The recipe that a record describes, its ingredients resolved.
pub open spec fn resolve_recipe(positions: Map<Seq<char>, usize>, record: ItemRecordView) -> RecipeView {
    RecipeView {
        kind: record.recipe_type,
        ingredients: Seq::new(
            record.recipe.len(),
            |k: int| (resolve(positions, record.recipe[k].0), record.recipe[k].1),
        ),
        yield_per_operation: record.result,
    }
}

impl SFItem {
    /// The item of a record, before its recipe is resolved.
    pub fn new(record: &ItemRecord) -> (item: SFItem)
        ensures
            item@ == (SFItemView { id: record@.id, name: record@.name, recipe: None }),
    {
        SFItem { name: record.name.clone(), id: record.id.clone(), recipe: None }
    }

    /// Resolves the recipe of the item from its record: an ingredient whose
    /// identifier has a position becomes a reference to the item there, any
    /// other a material outside the catalog.
    pub fn load(&mut self, record: &ItemRecord, positions: &StringHashMap<usize>)
        ensures
            final(self)@ == (SFItemView {
                recipe: Some(resolve_recipe(positions@, record@)),
                ..old(self)@
            }),
    {
        let mut lines: Vec<(Item, u32)> = Vec::new();
        let mut k: usize = 0;
        while k < record.recipe.len()
            invariant
                k <= record.recipe.len(),
                lines@.len() == k,
                forall|m: int|
                    0 <= m < k ==> (#[trigger] lines@[m]).0@ == resolve(positions@, record@.recipe[m].0)
                        && lines@[m].1 == record@.recipe[m].1,
            decreases record.recipe.len() - k,
        {
            let line = &record.recipe[k];
            let item = match positions.get(line.value.as_str()) {
                Some(p) => Item::SF(*p),
                None => Item::Vanilla(line.value.clone()),
            };
            lines.push((item, line.amount));
            k += 1;
        }
        let recipe = Recipe {
            kind: record.recipe_type.clone(),
            ingredients: lines,
            yield_per_operation: record.result,
        };
        assert(recipe@.ingredients =~= resolve_recipe(positions@, record@).ingredients);
        self.recipe = Some(recipe);
    }
}

} // verus!
