//! The plan that a calculation leaves: base materials, and the crafted
//! items from the simplest recipe to the deepest.

use crate::calculator::CraftingCalculator;
use crate::catalog::Catalog;
use crate::graph::{recipe_depth, CatalogView};
use crate::decimal::{decimal_string, decimal_text};
use crate::ledger::{sorted_ids, Ledger};
use crate::text::{plain_text, remove_formatting};
use vstd::prelude::*;
use vstd::string::StringExecFns;

verus! {

/// What one ingredient line of a crafted item comes to, as a mathematical
/// value.
pub struct IngredientUseView {
    pub name: Seq<char>,
    pub per_operation: nat,
    pub total: nat,
}

/// One crafted item of the plan as a mathematical value.
pub struct CraftLineView {
    pub item: int,
    pub name: Seq<char>,
    pub operations: nat,
    pub kind: Seq<char>,
    pub ingredients: Seq<IngredientUseView>,
}

/// What one ingredient line of a crafted item comes to.
#[derive(Debug, Clone, PartialEq, Eq)]
pub struct IngredientUse {
    /// The display name of the ingredient, without formatting escapes.
    pub name: String,
    /// The quantity that one operation consumes.
    pub per_operation: u32,
    /// The quantity that all operations of the item consume.
    pub total: u128,
}

/// One crafted item of the plan.
#[derive(Debug, Clone, PartialEq, Eq)]
pub struct CraftLine {
    /// The position of the item in the catalog.
    pub item: usize,
    /// The display name of the item, without formatting escapes.
    pub name: String,
    /// The operations performed for the item.
    pub operations: u64,
    /// The label of the recipe's kind.
    pub kind: String,
    pub ingredients: Vec<IngredientUse>,
}

/// One base material of the plan.
#[derive(Debug, Clone, PartialEq, Eq)]
pub struct MaterialLine {
    /// The identifier of the material, without formatting escapes.
    pub name: String,
    /// The quantity consumed.
    pub quantity: u64,
}

/// The plan of a calculation.
#[derive(Debug, Clone, PartialEq, Eq)]
pub struct Report {
    /// The base materials, in ascending order of their identifiers.
    pub base_materials: Vec<MaterialLine>,
    /// The crafted items, by ascending recipe depth, and by catalog
    /// position within one depth.
    pub crafts: Vec<CraftLine>,
}

impl View for IngredientUse {
    type V = IngredientUseView;

    open spec fn view(&self) -> IngredientUseView {
        IngredientUseView {
            name: self.name@,
            per_operation: self.per_operation as nat,
            total: self.total as nat,
        }
    }
}

impl View for CraftLine {
    type V = CraftLineView;

    open spec fn view(&self) -> CraftLineView {
        CraftLineView {
            item: self.item as int,
            name: self.name@,
            operations: self.operations as nat,
            kind: self.kind@,
            ingredients: Seq::new(self.ingredients@.len(), |m: int| self.ingredients@[m]@),
        }
    }
}

impl View for MaterialLine {
    type V = (Seq<char>, nat);

    open spec fn view(&self) -> (Seq<char>, nat) {
        (self.name@, self.quantity as nat)
    }
}

/// The item at `i` has an entry among the operations performed.
pub open spec fn listed(cat: CatalogView, completed: Map<Seq<char>, nat>, i: int) -> bool {
    cat.has(i) && completed.contains_key(cat.items[i].id)
}

/// The item at `i` stands before the item at `j` in the plan: its recipe
/// is less deep, or as deep and earlier in the catalog.
pub open spec fn precedes(cat: CatalogView, i: int, j: int) -> bool {
    recipe_depth(cat, i) < recipe_depth(cat, j) || (recipe_depth(cat, i) == recipe_depth(cat, j) && i
        < j)
}

/// `order` holds the positions of the items with an entry among the
/// operations performed, each once, from the simplest recipe to the
/// deepest.
pub open spec fn is_craft_order(
    cat: CatalogView,
    completed: Map<Seq<char>, nat>,
    order: Seq<usize>,
) -> bool {
    &&& forall|k: int| 0 <= k < order.len() ==> listed(cat, completed, #[trigger] order[k] as int)
    &&& forall|i: int| #[trigger]
        listed(cat, completed, i) ==> exists|k: int| 0 <= k < order.len() && #[trigger] order[k] == i
    &&& forall|k: int, l: int|
        0 <= k < l < order.len() ==> precedes(cat, #[trigger] order[k] as int, #[trigger] order[l] as int)
}

/// The items with an entry among the operations performed have one such
/// order only.
pub proof fn lemma_craft_order_unique(
    cat: CatalogView,
    completed: Map<Seq<char>, nat>,
    a: Seq<usize>,
    b: Seq<usize>,
)
    requires
        cat.wf(),
        is_craft_order(cat, completed, a),
        is_craft_order(cat, completed, b),
    ensures
        a == b,
    decreases a.len(),
{
    if a.len() == 0 {
        if b.len() > 0 {
            assert(listed(cat, completed, b[0] as int));
        }
        assert(a =~= b);
    } else {
        let x = a.last();
        assert(listed(cat, completed, a[a.len() - 1] as int));
        let j = choose|j: int| 0 <= j < b.len() && #[trigger] b[j] == x as int;
        let y = b.last();
        assert(listed(cat, completed, b[b.len() - 1] as int));
        let i = choose|i: int| 0 <= i < a.len() && #[trigger] a[i] == y as int;
        if j < b.len() - 1 {
            assert(precedes(cat, b[j] as int, b[b.len() - 1] as int));
            if i < a.len() - 1 {
                assert(precedes(cat, a[i] as int, a[a.len() - 1] as int));
            }
        }
        assert(x == y);
        let rest = completed.remove(cat.items[x as int].id);
        assert forall|k: int| 0 <= k < a.drop_last().len() implies listed(
            cat,
            rest,
            #[trigger] a.drop_last()[k] as int,
        ) by {
            assert(listed(cat, completed, a[k] as int));
            assert(precedes(cat, a[k] as int, a[a.len() - 1] as int));
        }
        assert forall|k: int| 0 <= k < b.drop_last().len() implies listed(
            cat,
            rest,
            #[trigger] b.drop_last()[k] as int,
        ) by {
            assert(listed(cat, completed, b[k] as int));
            assert(precedes(cat, b[k] as int, b[b.len() - 1] as int));
        }
        assert forall|p: int| #[trigger] listed(cat, rest, p) implies exists|k: int|
            0 <= k < a.drop_last().len() && #[trigger] a.drop_last()[k] == p by {
            assert(listed(cat, completed, p));
            let k = choose|k: int| 0 <= k < a.len() && #[trigger] a[k] == p;
            assert(a.drop_last()[k] == p);
        }
        assert forall|p: int| #[trigger] listed(cat, rest, p) implies exists|k: int|
            0 <= k < b.drop_last().len() && #[trigger] b.drop_last()[k] == p by {
            assert(listed(cat, completed, p));
            let k = choose|k: int| 0 <= k < b.len() && #[trigger] b[k] == p;
            assert(b.drop_last()[k] == p);
        }
        assert forall|k: int, l: int| 0 <= k < l < a.drop_last().len() implies precedes(
            cat,
            #[trigger] a.drop_last()[k] as int,
            #[trigger] a.drop_last()[l] as int,
        ) by {
            assert(precedes(cat, a[k] as int, a[l] as int));
        }
        assert forall|k: int, l: int| 0 <= k < l < b.drop_last().len() implies precedes(
            cat,
            #[trigger] b.drop_last()[k] as int,
            #[trigger] b.drop_last()[l] as int,
        ) by {
            assert(precedes(cat, b[k] as int, b[l] as int));
        }
        lemma_craft_order_unique(cat, rest, a.drop_last(), b.drop_last());
        assert(a =~= a.drop_last().push(x));
        assert(b =~= b.drop_last().push(y));
    }
}

/// The plan's line for the item at `i`.
pub open spec fn craft_line_of(cat: CatalogView, completed: Map<Seq<char>, nat>, i: int) -> CraftLineView {
    let operations = completed[cat.items[i].id];
    CraftLineView {
        item: i,
        name: plain_text(cat.items[i].name),
        operations,
        kind: cat.items[i].recipe->0.kind,
        ingredients: Seq::new(
            cat.ingredients(i).len(),
            |m: int|
                IngredientUseView {
                    name: plain_text(cat.name_of(cat.ingredients(i)[m].0)),
                    per_operation: cat.ingredients(i)[m].1,
                    total: cat.ingredients(i)[m].1 * operations,
                },
        ),
    }
}

/// The greatest recipe depth in the catalog, 0 for an empty catalog.
fn greatest_depth(catalog: &Catalog) -> (deepest: usize)
    requires
        catalog.wf(),
    ensures
        forall|i: int| catalog@.has(i) ==> recipe_depth(catalog@, i) <= deepest,
{
    let mut deepest: usize = 0;
    let mut i: usize = 0;
    while i < catalog.len()
        invariant
            catalog.wf(),
            i <= catalog@.items.len(),
            forall|h: int| 0 <= h < i ==> recipe_depth(catalog@, h) <= deepest,
        decreases catalog@.items.len() - i,
    {
        let depth = catalog.recipe_depth(i);
        if depth > deepest {
            deepest = depth;
        }
        i += 1;
    }
    deepest
}

/// The positions of the items for which operations were counted, from the
/// simplest recipe to the deepest, and by position within one depth.
pub fn craft_order(catalog: &Catalog, completed: &Ledger) -> (order: Vec<usize>)
    requires
        catalog.wf(),
    ensures
        is_craft_order(catalog@, completed@, order@),
{
    let ghost cat = catalog@;
    let ghost done = completed@;
    let deepest = greatest_depth(catalog);
    let n = catalog.len();
    let mut order: Vec<usize> = Vec::new();
    let mut level: usize = 0;
    while level < deepest
        invariant
            catalog.wf(),
            cat == catalog@,
            done == completed@,
            n == cat.items.len(),
            level <= deepest,
            forall|k: int|
                0 <= k < order@.len() ==> listed(cat, done, #[trigger] order@[k] as int)
                    && recipe_depth(cat, order@[k] as int) <= level,
            forall|i: int| #[trigger]
                listed(cat, done, i) && recipe_depth(cat, i) <= level ==> exists|k: int|
                    0 <= k < order@.len() && #[trigger] order@[k] == i,
            forall|k: int, l: int|
                0 <= k < l < order@.len() ==> precedes(
                    cat,
                    #[trigger] order@[k] as int,
                    #[trigger] order@[l] as int,
                ),
        decreases deepest - level,
    {
        level += 1;
        let mut i: usize = 0;
        while i < n
            invariant
                catalog.wf(),
                cat == catalog@,
                done == completed@,
                n == cat.items.len(),
                i <= n,
                1 <= level,
                forall|k: int|
                    0 <= k < order@.len() ==> listed(cat, done, #[trigger] order@[k] as int) && (
                    recipe_depth(cat, order@[k] as int) < level || (recipe_depth(
                        cat,
                        order@[k] as int,
                    ) == level && order@[k] < i)),
                forall|x: int| #[trigger]
                    listed(cat, done, x) && (recipe_depth(cat, x) < level || (recipe_depth(cat, x)
                        == level && x < i)) ==> exists|k: int|
                        0 <= k < order@.len() && #[trigger] order@[k] == x,
                forall|k: int, l: int|
                    0 <= k < l < order@.len() ==> precedes(
                        cat,
                        #[trigger] order@[k] as int,
                        #[trigger] order@[l] as int,
                    ),
            decreases n - i,
        {
            if catalog.recipe_depth(i) == level && completed.contains(catalog.item(i).id.as_str()) {
                let ghost before = order@;
                order.push(i);
                proof {
                    assert forall|x: int| #[trigger]
                        listed(cat, done, x) && (recipe_depth(cat, x) < level || (recipe_depth(cat, x)
                            == level && x < i + 1)) implies exists|k: int|
                        0 <= k < order@.len() && #[trigger] order@[k] == x by {
                        if x == i {
                            assert(order@[before.len() as int] == x);
                        } else {
                            let k = choose|k: int| 0 <= k < before.len() && #[trigger] before[k] == x;
                            assert(order@[k] == x);
                        }
                    }
                }
            }
            i += 1;
        }
    }
    order
}

/// The plan's line for the item at position `i`.
pub fn craft_line(catalog: &Catalog, completed: &Ledger, i: usize) -> (line: CraftLine)
    requires
        catalog.wf(),
        listed(catalog@, completed@, i as int),
        completed.wf(),
    ensures
        line@ == craft_line_of(catalog@, completed@, i as int),
{
    let ghost cat = catalog@;
    let entry = catalog.item(i);
    let operations = completed.get(entry.id.as_str());
    let recipe = entry.recipe.as_ref().unwrap();
    let mut ingredients: Vec<IngredientUse> = Vec::new();
    let mut m: usize = 0;
    while m < recipe.ingredients.len()
        invariant
            catalog.wf(),
            cat == catalog@,
            cat.has(i as int),
            recipe@ == cat.items[i as int].recipe->0,
            m <= recipe.ingredients.len(),
            ingredients@.len() == m,
            forall|h: int|
                0 <= h < m ==> (#[trigger] ingredients@[h])@ == craft_line_of(
                    cat,
                    completed@,
                    i as int,
                ).ingredients[h],
            operations == completed@[cat.items[i as int].id],
        decreases recipe.ingredients.len() - m,
    {
        let line = &recipe.ingredients[m];
        assert(cat.ingredients(i as int)[m as int] == (line.0@, line.1 as nat));
        let name = remove_formatting(line.0.get_name(catalog));
        assert(line.1 * operations <= u128::MAX) by (nonlinear_arith)
            requires
                line.1 <= u32::MAX,
                operations <= u64::MAX,
        ;
        let total = (line.1 as u128) * (operations as u128);
        ingredients.push(IngredientUse { name, per_operation: line.1, total });
        m += 1;
    }
    let line = CraftLine {
        item: i,
        name: remove_formatting(entry.name.as_str()),
        operations,
        kind: recipe.kind.clone(),
        ingredients,
    };
    assert(line@.ingredients =~= craft_line_of(cat, completed@, i as int).ingredients);
    line
}

/// The plan's line for the base material `id`.
pub open spec fn material_line_of(base: Map<Seq<char>, nat>, id: Seq<char>) -> (Seq<char>, nat) {
    (plain_text(id), base[id])
}

/// The base materials of the ledger, in ascending order of their
/// identifiers.
pub fn material_lines(base: &Ledger) -> (lines: Vec<MaterialLine>)
    requires
        base.wf(),
    ensures
        lines@.len() == sorted_ids(base@).len(),
        forall|k: int|
            0 <= k < lines@.len() ==> (#[trigger] lines@[k])@ == material_line_of(
                base@,
                sorted_ids(base@)[k],
            ),
{
    let mut lines: Vec<MaterialLine> = Vec::new();
    let mut k: usize = 0;
    proof {
        base.lemma_keys();
    }
    while k < base.len()
        invariant
            base.wf(),
            base.keys() == sorted_ids(base@),
            k <= base.keys().len(),
            lines@.len() == k,
            forall|h: int|
                0 <= h < k ==> (#[trigger] lines@[h])@ == material_line_of(base@, base.keys()[h]),
        decreases base.keys().len() - k,
    {
        let id = base.key(k);
        proof {
            base.lemma_keys();
            assert(base.keys().contains(id@));
        }
        lines.push(MaterialLine { name: remove_formatting(id), quantity: base.get(id) });
        k += 1;
    }
    lines
}

/// The plan of the calculation: every base material consumed, and every
/// item for which operations were counted, with what its ingredient lines
/// come to, from the simplest recipe to the deepest.
pub fn report(calculator: &CraftingCalculator, catalog: &Catalog) -> (plan: Report)
    requires
        calculator.wf(),
        catalog.wf(),
    ensures
        plan.base_materials@.len() == sorted_ids(calculator@.base).len(),
        forall|k: int|
            0 <= k < plan.base_materials@.len() ==> (#[trigger] plan.base_materials@[k])@
                == material_line_of(calculator@.base, sorted_ids(calculator@.base)[k]),
        is_craft_order(
            catalog@,
            calculator@.completed,
            Seq::new(plan.crafts@.len(), |k: int| plan.crafts@[k].item),
        ),
        forall|k: int|
            0 <= k < plan.crafts@.len() ==> (#[trigger] plan.crafts@[k])@ == craft_line_of(
                catalog@,
                calculator@.completed,
                plan.crafts@[k].item as int,
            ),
{
    let base_materials = material_lines(calculator.base_materials());
    let completed = calculator.completed();
    let order = craft_order(catalog, completed);
    let mut crafts: Vec<CraftLine> = Vec::new();
    let mut k: usize = 0;
    while k < order.len()
        invariant
            catalog.wf(),
            completed.wf(),
            completed@ == calculator@.completed,
            is_craft_order(catalog@, completed@, order@),
            k <= order.len(),
            crafts@.len() == k,
            forall|h: int|
                0 <= h < k ==> (#[trigger] crafts@[h]).item == order@[h] && crafts@[h]@
                    == craft_line_of(catalog@, completed@, order@[h] as int),
        decreases order.len() - k,
    {
        crafts.push(craft_line(catalog, completed, order[k]));
        k += 1;
    }
    assert(Seq::new(crafts@.len(), |k: int| crafts@[k].item) =~= order@);
    Report { base_materials, crafts }
}

/// A plan as a mathematical value.
pub struct ReportView {
    pub base_materials: Seq<(Seq<char>, nat)>,
    pub crafts: Seq<CraftLineView>,
}

impl View for Report {
    type V = ReportView;

    open spec fn view(&self) -> ReportView {
        ReportView {
            base_materials: Seq::new(self.base_materials@.len(), |k: int| self.base_materials@[k]@),
            crafts: Seq::new(self.crafts@.len(), |k: int| self.crafts@[k]@),
        }
    }
}

/// The heading of the base materials.
pub open spec fn heading_text() -> Seq<char> {
    "BASE MATERIALS: "@
}

/// The written line of a base material: its name and its quantity.
pub open spec fn material_text(line: (Seq<char>, nat)) -> Seq<char> {
    "\t"@ + line.0 + ":"@ + decimal_text(line.1)
}

/// The written line of a crafted item: its name, the operations, and the
/// kind of its recipe.
pub open spec fn craft_text(line: CraftLineView) -> Seq<char> {
    line.name + "("@ + decimal_text(line.operations) + "):"@ + line.kind
}

/// The written line of an ingredient: the quantity per operation, the
/// name, and the quantity in all.
pub open spec fn ingredient_text(line: IngredientUseView) -> Seq<char> {
    "\t"@ + decimal_text(line.per_operation) + "x"@ + line.name + "("@ + decimal_text(line.total)
        + ")"@
}

/// The written lines of the first `k` base materials.
pub open spec fn material_texts(lines: Seq<(Seq<char>, nat)>, k: nat) -> Seq<Seq<char>>
    decreases k,
{
    if k == 0 {
        Seq::empty()
    } else {
        material_texts(lines, (k - 1) as nat).push(material_text(lines[k - 1]))
    }
}

/// The written lines of the first `m` ingredients.
pub open spec fn ingredient_texts(lines: Seq<IngredientUseView>, m: nat) -> Seq<Seq<char>>
    decreases m,
{
    if m == 0 {
        Seq::empty()
    } else {
        ingredient_texts(lines, (m - 1) as nat).push(ingredient_text(lines[m - 1]))
    }
}

/// The written lines of the first `k` crafted items, each followed by
/// those of its ingredients.
pub open spec fn craft_texts(lines: Seq<CraftLineView>, k: nat) -> Seq<Seq<char>>
    decreases k,
{
    if k == 0 {
        Seq::empty()
    } else {
        craft_texts(lines, (k - 1) as nat).push(craft_text(lines[k - 1])) + ingredient_texts(
            lines[k - 1].ingredients,
            lines[k - 1].ingredients.len(),
        )
    }
}

/// The written plan: the heading, the base materials, and the crafted
/// items with their ingredients.
pub open spec fn report_texts(plan: ReportView) -> Seq<Seq<char>> {
    seq![heading_text()] + material_texts(plan.base_materials, plan.base_materials.len())
        + craft_texts(plan.crafts, plan.crafts.len())
}

/// The lines as mathematical values.
pub open spec fn texts_view(lines: Seq<String>) -> Seq<Seq<char>> {
    Seq::new(lines.len(), |k: int| lines[k]@)
}

fn material_line_text(line: &MaterialLine) -> (text: String)
    ensures
        text@ == material_text(line@),
{
    let mut text = "\t".to_owned();
    text.append(line.name.as_str());
    text.append(":");
    text.append(decimal_string(line.quantity as u128).as_str());
    text
}

fn craft_line_text(line: &CraftLine) -> (text: String)
    ensures
        text@ == craft_text(line@),
{
    let mut text = line.name.clone();
    text.append("(");
    text.append(decimal_string(line.operations as u128).as_str());
    text.append("):");
    text.append(line.kind.as_str());
    text
}

fn ingredient_line_text(line: &IngredientUse) -> (text: String)
    ensures
        text@ == ingredient_text(line@),
{
    let mut text = "\t".to_owned();
    text.append(decimal_string(line.per_operation as u128).as_str());
    text.append("x");
    text.append(line.name.as_str());
    text.append("(");
    text.append(decimal_string(line.total).as_str());
    text.append(")");
    text
}

/// Writes the plan out, line by line.
pub fn render(plan: &Report) -> (lines: Vec<String>)
    ensures
        texts_view(lines@) == report_texts(plan@),
{
    let mut lines: Vec<String> = Vec::new();
    lines.push("BASE MATERIALS: ".to_owned());
    let ghost head = seq![heading_text()];
    assert(texts_view(lines@) == head);
    let mut k: usize = 0;
    while k < plan.base_materials.len()
        invariant
            k <= plan.base_materials@.len(),
            texts_view(lines@) == head + material_texts(plan@.base_materials, k as nat),
        decreases plan.base_materials@.len() - k,
    {
        let ghost before = texts_view(lines@);
        lines.push(material_line_text(&plan.base_materials[k]));
        assert(texts_view(lines@) == before.push(material_text(plan@.base_materials[k as int])));
        k += 1;
    }
    let ghost top = head + material_texts(plan@.base_materials, plan@.base_materials.len());
    let mut k: usize = 0;
    while k < plan.crafts.len()
        invariant
            k <= plan.crafts@.len(),
            texts_view(lines@) == top + craft_texts(plan@.crafts, k as nat),
        decreases plan.crafts@.len() - k,
    {
        let craft = &plan.crafts[k];
        let ghost before = texts_view(lines@);
        lines.push(craft_line_text(craft));
        assert(texts_view(lines@) == before.push(craft_text(craft@)));
        let ghost opened = texts_view(lines@);
        let mut m: usize = 0;
        while m < craft.ingredients.len()
            invariant
                m <= craft.ingredients@.len(),
                texts_view(lines@) == opened + ingredient_texts(craft@.ingredients, m as nat),
            decreases craft.ingredients@.len() - m,
        {
            let ghost before = texts_view(lines@);
            lines.push(ingredient_line_text(&craft.ingredients[m]));
            assert(texts_view(lines@) == before.push(ingredient_text(craft@.ingredients[m as int])));
            m += 1;
        }
        assert(plan@.crafts[k as int] == craft@);
        assert(top + craft_texts(plan@.crafts, k as nat).push(craft_text(craft@)) + ingredient_texts(
            craft@.ingredients,
            craft@.ingredients.len(),
        ) == top + craft_texts(plan@.crafts, (k + 1) as nat));
        k += 1;
    }
    lines
}

} // verus!
