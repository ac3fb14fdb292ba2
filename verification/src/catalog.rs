//! The recipe catalog: items, their recipes, and the raw-material allowlist.

use crate::graph::{
    deepest_ingredient, item_depth, recipe_depth, CatalogView, ClassificationView,
};
use crate::item::{resolve_recipe, Item, ItemRecord, ItemRecordView, ItemView, SFItem, SFItemView};
use crate::ranking::{assign_depths, lemma_ranks_are_depths, ranks_of};
use vstd::hash_map::StringHashMap;
use vstd::hash_set::StringHashSet;
use vstd::prelude::*;

verus! {

/// Where the demand for an ingredient goes.
#[derive(Debug, Clone, Copy, PartialEq, Eq)]
pub enum Classification {
    /// A designated raw material: counted as base material, whatever it refers to.
    RawTerminal,
    /// A craftable item that is not a raw material: crafted in turn.
    Recurse(usize),
    /// A material outside the catalog: counted as base material.
    BaseTerminal,
}

impl View for Classification {
    type V = ClassificationView;

    open spec fn view(&self) -> ClassificationView {
        match self {
            Classification::RawTerminal => ClassificationView::RawTerminal,
            Classification::Recurse(p) => ClassificationView::Recurse(*p as int),
            Classification::BaseTerminal => ClassificationView::BaseTerminal,
        }
    }
}

/// The items with their resolved recipes and the raw-material allowlist.
/// Built once by [`Catalog::load`] and read-only afterwards.
pub struct Catalog {
    items: Vec<SFItem>,
    positions: StringHashMap<usize>,
    raw: StringHashSet,
    depths: Vec<usize>,
}

impl View for Catalog {
    type V = CatalogView;

    closed spec fn view(&self) -> CatalogView {
        CatalogView {
            items: Seq::new(self.items@.len(), |i: int| self.items@[i]@),
            raw: self.raw@,
        }
    }
}

impl Catalog {
    /// The lookup table gives each identifier its position, and the stored
    /// depths are the recipe depths.
    pub closed spec fn indexed(&self) -> bool {
        &&& forall|id: Seq<char>| self.positions@.contains_key(id) <==> self@.is_item_id(id)
        &&& forall|i: int|
            self@.has(i) ==> self.positions@[(#[trigger] self@.items[i]).id] == i
        &&& self.depths@.len() == self.items@.len()
        &&& forall|i: int| self@.has(i) ==> #[trigger] self.depths@[i] == recipe_depth(self@, i)
    }

    /// The catalog is well formed, and so are its lookup table and depths.
    pub open spec fn wf(&self) -> bool {
        self@.wf() && self.indexed()
    }

    /// The number of items.
    pub fn len(&self) -> (n: usize)
        ensures
            n == self@.items.len(),
    {
        self.items.len()
    }

    /// The item at position `i`.
    pub fn item(&self, i: usize) -> (item: &SFItem)
        requires
            i < self@.items.len(),
        ensures
            item@ == self@.items[i as int],
    {
        &self.items[i]
    }

    /// The position of the item that bears `id`, if any does.
    pub fn find(&self, id: &str) -> (found: Option<usize>)
        requires
            self.wf(),
        ensures
            match found {
                Some(i) => self@.has(i as int) && self@.items[i as int].id == id@,
                None => !self@.is_item_id(id@),
            },
    {
        match self.positions.get(id) {
            Some(p) => {
                proof {
                    assert(self.positions@.contains_key(id@));
                    assert(self@.is_item_id(id@));
                    let i = choose|i: int| self@.has(i) && #[trigger] self@.items[i].id == id@;
                    assert(self.positions@[self@.items[i].id] == i);
                }
                Some(*p)
            },
            None => None,
        }
    }

    /// Whether `id` is a designated raw material.
    pub fn is_raw(&self, id: &str) -> (raw: bool)
        ensures
            raw == self@.raw.contains(id@),
    {
        self.raw.contains(id)
    }

    /// Decides where the demand for an ingredient goes. The allowlist of
    /// raw materials is asked first, so that a raw material counts as base
    /// material even where it has a recipe of its own.
    pub fn classify(&self, item: &Item) -> (class: Classification)
        requires
            self@.knows(item@),
        ensures
            class@ == self@.classify(item@),
    {
        if self.raw.contains(item.get_id(self)) {
            Classification::RawTerminal
        } else {
            match item {
                Item::SF(p) => Classification::Recurse(*p),
                Item::Vanilla(_) => Classification::BaseTerminal,
            }
        }
    }

    /// The recipe depth of the item at position `i`.
    pub fn recipe_depth(&self, i: usize) -> (depth: usize)
        requires
            self.wf(),
            i < self@.items.len(),
        ensures
            depth == recipe_depth(self@, i as int),
    {
        self.depths[i]
    }
}

impl Item {
    /// The identifier under which the ingredient is accounted.
    pub fn get_id<'a>(&'a self, catalog: &'a Catalog) -> (id: &'a str)
        requires
            catalog@.knows(self@),
        ensures
            id@ == catalog@.id_of(self@),
    {
        match self {
            Item::SF(p) => catalog.items[*p].id.as_str(),
            Item::Vanilla(id) => id.as_str(),
        }
    }

    /// The display name of the ingredient: that of the item it refers to,
    /// and the identifier of a material outside the catalog.
    pub fn get_name<'a>(&'a self, catalog: &'a Catalog) -> (name: &'a str)
        requires
            catalog@.knows(self@),
        ensures
            name@ == catalog@.name_of(self@),
    {
        match self {
            Item::SF(p) => catalog.items[*p].name.as_str(),
            Item::Vanilla(id) => id.as_str(),
        }
    }

    /// The depth that the ingredient stands at.
    pub fn get_recipe_depth(&self, catalog: &Catalog) -> (depth: usize)
        requires
            catalog.wf(),
            catalog@.knows(self@),
        ensures
            depth == item_depth(catalog@, self@),
    {
        match self {
            Item::SF(p) => catalog.depths[*p],
            Item::Vanilla(_) => 1,
        }
    }
}

impl SFItem {
    /// The recipe depth of an item of the catalog, computed from the depths
    /// of what it passes demand on to.
    pub fn get_recipe_depth(&self, catalog: &Catalog) -> (depth: usize)
        requires
            catalog.wf(),
            catalog@.items.contains(self@),
        ensures
            forall|i: int|
                catalog@.has(i) && #[trigger] catalog@.items[i] == self@ ==> depth == recipe_depth(
                    catalog@,
                    i,
                ),
    {
        let ghost i = choose|i: int| catalog@.has(i) && catalog@.items[i] == self@;
        let mut best: usize = 0;
        if let Some(recipe) = &self.recipe {
            let mut k: usize = 0;
            assert(recipe@.ingredients == catalog@.ingredients(i));
            while k < recipe.ingredients.len()
                invariant
                    catalog.wf(),
                    catalog@.has(i),
                    recipe@.ingredients == catalog@.ingredients(i),
                    k <= recipe.ingredients.len(),
                    best == deepest_ingredient(catalog@, i, k as nat),
                decreases recipe.ingredients.len() - k,
            {
                let line = &recipe.ingredients[k];
                assert(catalog@.ingredients(i)[k as int].0 == line.0@);
                if let Classification::Recurse(j) = catalog.classify(&line.0) {
                    let depth = catalog.depths[j];
                    if depth > best {
                        best = depth;
                    }
                }
                k += 1;
            }
        }
        proof {
            assert(catalog.depths@[i] == recipe_depth(catalog@, i));
        }
        best + 1
    }
}

/// The records as mathematical values.
pub open spec fn records_view(records: Seq<ItemRecord>) -> Seq<ItemRecordView> {
    Seq::new(records.len(), |i: int| records[i]@)
}

/// The identifiers as a set.
pub open spec fn id_set(ids: Seq<String>) -> Set<Seq<char>> {
    Set::new(|id: Seq<char>| exists|k: int| 0 <= k < ids.len() && #[trigger] ids[k]@ == id)
}

/// Some record bears `id`.
pub open spec fn has_record(records: Seq<ItemRecordView>, id: Seq<char>) -> bool {
    exists|i: int| 0 <= i < records.len() && #[trigger] records[i].id == id
}

/// No two records bear the same identifier.
pub open spec fn distinct_ids(records: Seq<ItemRecordView>) -> bool {
    forall|i: int, j: int|
        #![trigger records[i], records[j]]
        0 <= i < records.len() && 0 <= j < records.len() && records[i].id == records[j].id ==> i
            == j
}

/// The position of the record that bears each identifier.
pub open spec fn positions_of(records: Seq<ItemRecordView>) -> Map<Seq<char>, usize> {
    Map::new(
        |id: Seq<char>| has_record(records, id),
        |id: Seq<char>|
            (choose|i: int| 0 <= i < records.len() && #[trigger] records[i].id == id) as usize,
    )
}

/// The yield of the record and the quantity of each of its ingredient
/// lines are positive.
pub open spec fn record_valid(record: ItemRecordView) -> bool {
    &&& record.result >= 1
    &&& forall|k: int| 0 <= k < record.recipe.len() ==> (#[trigger] record.recipe[k]).1 >= 1
}

/// The catalog that the records describe: one item for each record, at the
/// record's position, with its ingredients resolved against all records.
pub open spec fn catalog_of(records: Seq<ItemRecordView>, raw: Set<Seq<char>>) -> CatalogView {
    CatalogView {
        items: Seq::new(
            records.len(),
            |i: int|
                SFItemView {
                    id: records[i].id,
                    name: records[i].name,
                    recipe: Some(resolve_recipe(positions_of(records), records[i])),
                },
        ),
        raw,
    }
}

/// The records can be loaded: their identifiers are distinct, each of them
/// is valid, and the demand graph of their catalog has no cycle.
pub open spec fn loadable(records: Seq<ItemRecordView>, raw: Set<Seq<char>>) -> bool {
    &&& distinct_ids(records)
    &&& forall|i: int| 0 <= i < records.len() ==> record_valid(#[trigger] records[i])
    &&& catalog_of(records, raw).acyclic()
}

/// Why records cannot be loaded. Each error names the first record at which
/// its check fails; the checks run in the order of the variants.
#[derive(Debug, Clone, Copy, PartialEq, Eq)]
pub enum LoadError {
    /// The record at this position bears the identifier of an earlier one.
    DuplicateId(usize),
    /// The record at this position yields nothing per operation.
    InvalidYield(usize),
    /// The record at the first position asks, in the ingredient line at the
    /// second, for a quantity of zero.
    InvalidAmount(usize, usize),
    /// The item at this position cannot be ranked: a chain of demand that
    /// starts there comes back to an item it has passed.
    CyclicRecipe(usize),
}

/// What an error says of the records.
pub open spec fn explains(
    records: Seq<ItemRecordView>,
    raw: Set<Seq<char>>,
    error: LoadError,
) -> bool {
    match error {
        LoadError::DuplicateId(j) => {
            &&& j < records.len()
            &&& distinct_ids(records.take(j as int))
            &&& has_record(records.take(j as int), records[j as int].id)
        },
        LoadError::InvalidYield(i) => {
            &&& distinct_ids(records)
            &&& i < records.len()
            &&& forall|h: int| 0 <= h < i ==> record_valid(#[trigger] records[h])
            &&& records[i as int].result == 0
        },
        LoadError::InvalidAmount(i, k) => {
            &&& distinct_ids(records)
            &&& i < records.len()
            &&& forall|h: int| 0 <= h < i ==> record_valid(#[trigger] records[h])
            &&& records[i as int].result >= 1
            &&& k < records[i as int].recipe.len()
            &&& forall|m: int| 0 <= m < k ==> (#[trigger] records[i as int].recipe[m]).1 >= 1
            &&& records[i as int].recipe[k as int].1 == 0
        },
        LoadError::CyclicRecipe(i) => {
            &&& distinct_ids(records)
            &&& forall|h: int| 0 <= h < records.len() ==> record_valid(#[trigger] records[h])
            &&& catalog_of(records, raw).has(i as int)
            &&& !catalog_of(records, raw).rankable(i as int)
            &&& forall|h: int| 0 <= h < i ==> catalog_of(records, raw).rankable(h)
        },
    }
}

/// Records of which an error speaks cannot be loaded.
pub proof fn lemma_error_excludes_load(
    records: Seq<ItemRecordView>,
    raw: Set<Seq<char>>,
    error: LoadError,
)
    requires
        explains(records, raw, error),
    ensures
        !loadable(records, raw),
{
    match error {
        LoadError::DuplicateId(j) => {
            let early = records.take(j as int);
            let id = records[j as int].id;
            let i = choose|i: int| 0 <= i < early.len() && #[trigger] early[i].id == id;
            assert(records[i].id == records[j as int].id);
        },
        LoadError::InvalidYield(i) => {
            assert(!record_valid(records[i as int]));
        },
        LoadError::InvalidAmount(i, k) => {
            assert(!record_valid(records[i as int]));
        },
        LoadError::CyclicRecipe(i) => {
            let cat = catalog_of(records, raw);
            if cat.acyclic() {
                let r = choose|r: Seq<nat>| cat.total_ranking(r);
                assert(cat.ranking(r) && cat.has(i as int) && r[i as int] > 0);
            }
        },
    }
}

/// Gives each identifier the position of its record, or names the first
/// record that repeats an identifier.
fn index_records(records: &Vec<ItemRecord>) -> (result: Result<StringHashMap<usize>, LoadError>)
    ensures
        match result {
            Ok(positions) => {
                &&& distinct_ids(records_view(records@))
                &&& positions@ == positions_of(records_view(records@))
            },
            Err(error) => error is DuplicateId && explains(
                records_view(records@),
                Set::empty(),
                error,
            ),
        },
{
    let ghost rv = records_view(records@);
    let mut positions: StringHashMap<usize> = StringHashMap::new();
    let mut j: usize = 0;
    while j < records.len()
        invariant
            rv == records_view(records@),
            j <= records.len(),
            distinct_ids(rv.take(j as int)),
            forall|id: Seq<char>| positions@.contains_key(id) <==> has_record(rv.take(j as int), id),
            forall|i: int| 0 <= i < j ==> positions@[(#[trigger] rv[i]).id] == i,
        decreases records.len() - j,
    {
        let record = &records[j];
        assert(rv[j as int] == record@);
        if positions.contains_key(record.id.as_str()) {
            return Err(LoadError::DuplicateId(j));
        }
        positions.insert(record.id.clone(), j);
        proof {
            let early = rv.take(j as int);
            let next = rv.take(j + 1);
            assert forall|a: int, b: int|
                0 <= a < next.len() && 0 <= b < next.len() && next[a].id == next[b].id implies a
                == b by {
                if a < j && b < j {
                    assert(early[a].id == early[b].id);
                } else if a < j {
                    assert(early[a].id == rv[j as int].id);
                    assert(has_record(early, rv[j as int].id));
                } else if b < j {
                    assert(early[b].id == rv[j as int].id);
                    assert(has_record(early, rv[j as int].id));
                }
            }
            assert forall|id: Seq<char>| positions@.contains_key(id) <==> has_record(next, id) by {
                if has_record(early, id) {
                    let i = choose|i: int| 0 <= i < early.len() && #[trigger] early[i].id == id;
                    assert(next[i].id == id);
                }
                if id == record@.id {
                    assert(next[j as int].id == id);
                }
                if has_record(next, id) {
                    let i = choose|i: int| 0 <= i < next.len() && #[trigger] next[i].id == id;
                    if i < j {
                        assert(early[i].id == id);
                    }
                }
            }
            assert forall|i: int| 0 <= i < j + 1 implies positions@[(#[trigger] rv[i]).id] == i by {
                if i < j {
                    assert(early[i].id == rv[i].id);
                    assert(has_record(early, rv[i].id));
                }
            }
        }
        j += 1;
    }
    proof {
        assert(rv.take(j as int) =~= rv);
        assert forall|id: Seq<char>| has_record(rv, id) implies #[trigger] positions@[id]
            == positions_of(rv)[id] by {
            let i = choose|i: int| 0 <= i < rv.len() && #[trigger] rv[i].id == id;
            assert(positions@[rv[i].id] == i);
        }
        assert(positions@ =~= positions_of(rv));
    }
    Ok(positions)
}

/// The first ingredient line of the record that asks for a quantity of
/// zero, if there is one.
fn zero_amount(record: &ItemRecord) -> (found: Option<usize>)
    ensures
        match found {
            Some(k) => {
                &&& k < record@.recipe.len()
                &&& forall|m: int| 0 <= m < k ==> (#[trigger] record@.recipe[m]).1 >= 1
                &&& record@.recipe[k as int].1 == 0
            },
            None => forall|m: int|
                0 <= m < record@.recipe.len() ==> (#[trigger] record@.recipe[m]).1 >= 1,
        },
{
    let mut k: usize = 0;
    while k < record.recipe.len()
        invariant
            k <= record.recipe.len(),
            forall|m: int| 0 <= m < k ==> (#[trigger] record@.recipe[m]).1 >= 1,
        decreases record.recipe.len() - k,
    {
        if record.recipe[k].amount == 0 {
            return Some(k);
        }
        k += 1;
    }
    None
}

/// Makes the item of each record and resolves its recipe, or names the
/// first record that is not valid.
fn resolve_records(records: &Vec<ItemRecord>, positions: &StringHashMap<usize>) -> (result: Result<
    Vec<SFItem>,
    LoadError,
>)
    requires
        distinct_ids(records_view(records@)),
        positions@ == positions_of(records_view(records@)),
    ensures
        match result {
            Ok(items) => {
                &&& forall|i: int|
                    0 <= i < records@.len() ==> record_valid(#[trigger] records_view(records@)[i])
                &&& items@.len() == records@.len()
                &&& forall|i: int|
                    0 <= i < records@.len() ==> (#[trigger] items@[i])@ == catalog_of(
                        records_view(records@),
                        Set::empty(),
                    ).items[i]
            },
            Err(error) => (error is InvalidYield || error is InvalidAmount) && explains(
                records_view(records@),
                Set::empty(),
                error,
            ),
        },
{
    let ghost rv = records_view(records@);
    let mut items: Vec<SFItem> = Vec::new();
    let mut i: usize = 0;
    while i < records.len()
        invariant
            rv == records_view(records@),
            distinct_ids(rv),
            positions@ == positions_of(rv),
            i <= records.len(),
            items@.len() == i,
            forall|h: int| 0 <= h < i ==> record_valid(#[trigger] rv[h]),
            forall|h: int|
                0 <= h < i ==> (#[trigger] items@[h])@ == catalog_of(rv, Set::empty()).items[h],
        decreases records.len() - i,
    {
        let record = &records[i];
        assert(rv[i as int] == record@);
        if record.result == 0 {
            return Err(LoadError::InvalidYield(i));
        }
        match zero_amount(record) {
            Some(k) => {
                return Err(LoadError::InvalidAmount(i, k));
            },
            None => {},
        }
        let mut item = SFItem::new(record);
        item.load(record, positions);
        items.push(item);
        i += 1;
    }
    Ok(items)
}

/// The set of the identifiers listed.
fn collect_ids(ids: &Vec<String>) -> (set: StringHashSet)
    ensures
        set@ == id_set(ids@),
{
    let mut set = StringHashSet::new();
    let mut k: usize = 0;
    while k < ids.len()
        invariant
            k <= ids.len(),
            set@ == id_set(ids@.take(k as int)),
        decreases ids.len() - k,
    {
        set.insert(ids[k].clone());
        proof {
            let early = ids@.take(k as int);
            let next = ids@.take(k + 1);
            assert forall|id: Seq<char>| set@.contains(id) <==> id_set(next).contains(id) by {
                if id_set(early).contains(id) {
                    let m = choose|m: int| 0 <= m < early.len() && #[trigger] early[m]@ == id;
                    assert(next[m]@ == id);
                }
                if id == ids@[k as int]@ {
                    assert(next[k as int]@ == id);
                }
                if id_set(next).contains(id) {
                    let m = choose|m: int| 0 <= m < next.len() && #[trigger] next[m]@ == id;
                    if m < k {
                        assert(early[m]@ == id);
                    }
                }
            }
            assert(set@ =~= id_set(next));
        }
        k += 1;
    }
    proof {
        assert(ids@.take(k as int) =~= ids@);
    }
    set
}

/// The catalog of distinct, valid records is sound.
proof fn lemma_catalog_of_sound(records: Seq<ItemRecordView>, raw: Set<Seq<char>>)
    requires
        distinct_ids(records),
        forall|i: int| 0 <= i < records.len() ==> record_valid(#[trigger] records[i]),
        records.len() <= usize::MAX,
    ensures
        catalog_of(records, raw).sound(),
        forall|id: Seq<char>| catalog_of(records, raw).is_item_id(id) <==> has_record(records, id),
        forall|i: int|
            0 <= i < records.len() ==> positions_of(records)[(#[trigger] records[i]).id] == i,
{
    let cat = catalog_of(records, raw);
    assert forall|id: Seq<char>| cat.is_item_id(id) <==> has_record(records, id) by {
        if cat.is_item_id(id) {
            let i = choose|i: int| cat.has(i) && #[trigger] cat.items[i].id == id;
            assert(records[i].id == id);
        }
        if has_record(records, id) {
            let i = choose|i: int| 0 <= i < records.len() && #[trigger] records[i].id == id;
            assert(cat.items[i].id == id);
        }
    }
    assert forall|i: int| 0 <= i < records.len() implies positions_of(records)[(
    #[trigger] records[i]).id] == i by {
        let id = records[i].id;
        assert(has_record(records, id));
        let c = choose|c: int| 0 <= c < records.len() && #[trigger] records[c].id == id;
        assert(records[c].id == records[i].id);
    }
    assert forall|i: int| cat.has(i) implies (#[trigger] cat.items[i]).recipe is Some
        && cat.yield_of(i) >= 1 by {
        assert(record_valid(records[i]));
    }
    assert forall|i: int, k: int| cat.has(i) && 0 <= k < cat.ingredients(i).len() implies {
        let line = #[trigger] cat.ingredients(i)[k];
        &&& line.1 >= 1
        &&& match line.0 {
            ItemView::SF(p) => cat.has(p),
            ItemView::Vanilla(id) => !cat.is_item_id(id),
        }
    } by {
        assert(record_valid(records[i]));
        let value = records[i].recipe[k].0;
        assert(records[i].recipe[k].1 >= 1);
        if has_record(records, value) {
            let c = choose|c: int| 0 <= c < records.len() && #[trigger] records[c].id == value;
            assert(positions_of(records)[value] == c as usize);
        }
    }
    assert forall|i: int, j: int|
        #![trigger cat.items[i], cat.items[j]]
        cat.has(i) && cat.has(j) && cat.items[i].id == cat.items[j].id implies i == j by {
        assert(records[i].id == records[j].id);
    }
}

impl Catalog {
    /// Builds the catalog of the records, with `raw_materials` as the
    /// identifiers that always count as base material. Identifiers are
    /// indexed first, so that an ingredient may refer to an item that a
    /// later record describes; then each recipe is resolved, and at last
    /// every item is given its recipe depth, which finds cycles.
    pub fn load(records: &Vec<ItemRecord>, raw_materials: &Vec<String>) -> (result: Result<
        Catalog,
        LoadError,
    >)
        ensures
            result is Ok <==> loadable(records_view(records@), id_set(raw_materials@)),
            match result {
                Ok(catalog) => {
                    &&& catalog.wf()
                    &&& catalog@ == catalog_of(records_view(records@), id_set(raw_materials@))
                },
                Err(error) => explains(records_view(records@), id_set(raw_materials@), error),
            },
    {
        let ghost rv = records_view(records@);
        let ghost raw_ids = id_set(raw_materials@);
        let positions = match index_records(records) {
            Ok(positions) => positions,
            Err(error) => {
                proof {
                    lemma_error_excludes_load(rv, raw_ids, error);
                }
                return Err(error);
            },
        };
        let items = match resolve_records(records, &positions) {
            Ok(items) => items,
            Err(error) => {
                proof {
                    lemma_error_excludes_load(rv, raw_ids, error);
                }
                return Err(error);
            },
        };
        let raw = collect_ids(raw_materials);
        let mut catalog = Catalog { items, positions, raw, depths: Vec::new() };
        proof {
            assert(catalog@.items =~= catalog_of(rv, raw_ids).items);
            assert(catalog@ == catalog_of(rv, raw_ids));
            assert(rv.len() == records.len());
            lemma_catalog_of_sound(rv, raw_ids);
        }
        match assign_depths(&catalog) {
            Ok(depths) => {
                proof {
                    let cat = catalog@;
                    let ranks = ranks_of(depths@);
                    assert(cat.acyclic());
                    assert forall|i: int| cat.has(i) implies #[trigger] depths@[i] == recipe_depth(
                        cat,
                        i,
                    ) by {
                        lemma_ranks_are_depths(cat, ranks, i);
                    }
                }
                catalog.depths = depths;
                Ok(catalog)
            },
            Err(i) => {
                proof {
                    lemma_error_excludes_load(rv, raw_ids, LoadError::CyclicRecipe(i));
                }
                Err(LoadError::CyclicRecipe(i))
            },
        }
    }
}

} // verus!
