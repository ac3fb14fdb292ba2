//! The catalog as a mathematical value: items, the demand that their
//! ingredients pass on, and the depth of their recipes.

use crate::item::{ItemView, SFItemView};
use vstd::prelude::*;

verus! {

/// Where the demand for an ingredient goes.
pub enum ClassificationView {
    /// A designated raw material: counted as base material, whatever it refers to.
    RawTerminal,
    /// A craftable item that is not a raw material: crafted in turn.
    Recurse(int),
    /// A material outside the catalog: counted as base material.
    BaseTerminal,
}

/// A catalog as a mathematical value: its items in order and the identifiers
/// that are designated raw materials.
pub struct CatalogView {
    pub items: Seq<SFItemView>,
    pub raw: Set<Seq<char>>,
}

impl CatalogView {
    /// `i` is a position of the catalog.
    pub open spec fn has(self, i: int) -> bool {
        0 <= i < self.items.len()
    }

    /// The ingredient lines of the item at `i`.
    pub open spec fn ingredients(self, i: int) -> Seq<(ItemView, nat)> {
        self.items[i].recipe->0.ingredients
    }

    /// The number of units that one operation of the item at `i` produces.
    pub open spec fn yield_of(self, i: int) -> nat {
        self.items[i].recipe->0.yield_per_operation
    }

    /// Some item of the catalog has this identifier.
    pub open spec fn is_item_id(self, id: Seq<char>) -> bool {
        exists|i: int| self.has(i) && #[trigger] self.items[i].id == id
    }

    /// The identifier under which an ingredient is accounted.
    pub open spec fn id_of(self, item: ItemView) -> Seq<char> {
        match item {
            ItemView::SF(p) => self.items[p].id,
            ItemView::Vanilla(id) => id,
        }
    }

    /// The display name of an ingredient.
    pub open spec fn name_of(self, item: ItemView) -> Seq<char> {
        match item {
            ItemView::SF(p) => self.items[p].name,
            ItemView::Vanilla(id) => id,
        }
    }

    /// An ingredient that refers to an item refers to one of the catalog.
    pub open spec fn knows(self, item: ItemView) -> bool {
        match item {
            ItemView::SF(p) => self.has(p),
            ItemView::Vanilla(_) => true,
        }
    }

    /// The raw-material allowlist decides first; after it, what the
    /// ingredient refers to.
    pub open spec fn classify(self, item: ItemView) -> ClassificationView {
        if self.raw.contains(self.id_of(item)) {
            ClassificationView::RawTerminal
        } else {
            match item {
                ItemView::SF(p) => ClassificationView::Recurse(p),
                ItemView::Vanilla(_) => ClassificationView::BaseTerminal,
            }
        }
    }

    /// Ingredient line `k` of the item at `i` passes its demand on to the
    /// item at `j`.
    pub open spec fn feeds(self, i: int, k: int, j: int) -> bool {
        &&& self.has(i)
        &&& 0 <= k < self.ingredients(i).len()
        &&& self.classify(self.ingredients(i)[k].0) == ClassificationView::Recurse(j)
    }

    /// `r` gives some items a positive rank such that every ranked item
    /// passes demand on to ranked items of smaller rank only. Rank 0 means
    /// that the item is not ranked.
    pub open spec fn ranking(self, r: Seq<nat>) -> bool {
        &&& r.len() == self.items.len()
        &&& forall|i: int, k: int, j: int| #[trigger]
            self.feeds(i, k, j) && r[i] > 0 ==> 0 < r[j] < r[i]
    }

    /// Some ranking ranks the item at `i`: no chain of demand that starts
    /// there comes back to an item it has passed.
    pub open spec fn rankable(self, i: int) -> bool {
        exists|r: Seq<nat>| self.ranking(r) && self.has(i) && r[i] > 0
    }

    /// `r` is a ranking that ranks every item.
    pub open spec fn total_ranking(self, r: Seq<nat>) -> bool {
        &&& self.ranking(r)
        &&& forall|i: int| 0 <= i < r.len() ==> #[trigger] r[i] > 0
    }

    /// The demand graph has no cycle.
    pub open spec fn acyclic(self) -> bool {
        exists|r: Seq<nat>| self.total_ranking(r)
    }

    /// The rank of the item at `i` in one fixed ranking of all items.
    pub open spec fn rank(self, i: int) -> nat {
        (choose|r: Seq<nat>| self.total_ranking(r))[i]
    }

    /// Every item has a recipe with a positive yield and positive ingredient
    /// quantities, item references stay inside the catalog, materials
    /// outside of it bear no item's identifier, and identifiers are unique.
    pub open spec fn sound(self) -> bool {
        &&& forall|i: int|
            self.has(i) ==> (#[trigger] self.items[i]).recipe is Some && self.yield_of(i) >= 1
        &&& forall|i: int, k: int|
            self.has(i) && 0 <= k < self.ingredients(i).len() ==> {
                let line = #[trigger] self.ingredients(i)[k];
                &&& line.1 >= 1
                &&& match line.0 {
                    ItemView::SF(p) => self.has(p),
                    ItemView::Vanilla(id) => !self.is_item_id(id),
                }
            }
        &&& forall|i: int, j: int|
            #![trigger self.items[i], self.items[j]]
            self.has(i) && self.has(j) && self.items[i].id == self.items[j].id ==> i == j
    }

    /// The catalog is sound and its demand graph has no cycle.
    pub open spec fn wf(self) -> bool {
        self.sound() && self.acyclic()
    }

    /// In a well-formed catalog demand flows from higher to lower rank.
    pub proof fn lemma_rank_decreases(self, i: int, k: int, j: int)
        requires
            self.wf(),
            self.feeds(i, k, j),
        ensures
            self.has(j),
            self.rank(j) < self.rank(i),
    {
        let r = choose|r: Seq<nat>| self.total_ranking(r);
        assert(self.total_ranking(r));
        assert(r[i] > 0);
        assert(self.ingredients(i)[k].0 == ItemView::SF(j));
    }
}

/// The greatest recipe depth among the first `k` ingredient lines of the
/// item at `i` that pass their demand on; 0 where none of them does.
pub open spec fn deepest_ingredient(cat: CatalogView, i: int, k: nat) -> nat
    decreases cat.rank(i), k,
    when cat.wf() && cat.has(i) && k <= cat.ingredients(i).len()
    via deepest_ingredient_decreases
{
    if k == 0 {
        0
    } else {
        let before = deepest_ingredient(cat, i, (k - 1) as nat);
        match cat.classify(cat.ingredients(i)[k - 1].0) {
            ClassificationView::Recurse(j) => {
                let depth = recipe_depth(cat, j);
                if depth > before {
                    depth
                } else {
                    before
                }
            },
            _ => before,
        }
    }
}

/// The recipe depth of the item at `i`: 1 where no ingredient passes its
/// demand on, and otherwise one more than the greatest depth among the
/// items that it passes demand on to.
pub open spec fn recipe_depth(cat: CatalogView, i: int) -> nat
    decreases cat.rank(i), cat.ingredients(i).len() + 1,
    when cat.wf() && cat.has(i)
{
    1 + deepest_ingredient(cat, i, cat.ingredients(i).len())
}

#[via_fn]
proof fn deepest_ingredient_decreases(cat: CatalogView, i: int, k: nat) {
    if k != 0 {
        match cat.classify(cat.ingredients(i)[k - 1].0) {
            ClassificationView::Recurse(j) => {
                cat.lemma_rank_decreases(i, k - 1, j);
            },
            _ => {},
        }
    }
}

/// The depth that an ingredient stands at: that of the item it refers to,
/// and 1 for a material outside the catalog.
pub open spec fn item_depth(cat: CatalogView, item: ItemView) -> nat {
    match item {
        ItemView::SF(p) => recipe_depth(cat, p),
        ItemView::Vanilla(_) => 1,
    }
}

} // verus!
