//! What a request can reach, and what it leaves alone.

use crate::graph::{CatalogView, ClassificationView};
use crate::model::{
    add_base_spec, consume_spec, craft_spec, operations_for, settle_item, LedgerView,
};
use vstd::prelude::*;

verus! {

/// Demand for the item at `from` reaches the item at `to`, in any number
/// of steps.
pub open spec fn reaches(cat: CatalogView, from: int, to: int) -> bool
    decreases cat.rank(from),
    when cat.wf() && cat.has(from)
    via reaches_decreases
{
    from == to || exists|k: int, j: int| #[trigger] cat.feeds(from, k, j) && reaches(cat, j, to)
}

#[via_fn]
proof fn reaches_decreases(cat: CatalogView, from: int, to: int) {
    assert forall|k: int, j: int| #[trigger] cat.feeds(from, k, j) implies cat.rank(j) < cat.rank(
        from,
    ) by {
        cat.lemma_rank_decreases(from, k, j);
    }
}

/// What demand reaches lies in the catalog, at a rank that is not above
/// that of the start, and below it for every other item.
pub proof fn lemma_reach_rank(cat: CatalogView, from: int, to: int)
    requires
        cat.wf(),
        cat.has(from),
        reaches(cat, from, to),
    ensures
        cat.has(to),
        cat.rank(to) <= cat.rank(from),
        to != from ==> cat.rank(to) < cat.rank(from),
    decreases cat.rank(from),
{
    if from != to {
        let (k, j) = choose|k: int, j: int| #[trigger] cat.feeds(from, k, j) && reaches(cat, j, to);
        cat.lemma_rank_decreases(from, k, j);
        lemma_reach_rank(cat, j, to);
    }
}

/// What an ingredient's item reaches, the item reaches.
pub proof fn lemma_reach_through(cat: CatalogView, from: int, k: int, j: int, to: int)
    requires
        cat.wf(),
        cat.feeds(from, k, j),
        reaches(cat, j, to),
    ensures
        reaches(cat, from, to),
{
}

/// The entry of a ledger for `id`, if it has one.
pub open spec fn entry(m: Map<Seq<char>, nat>, id: Seq<char>) -> Option<nat> {
    if m.contains_key(id) {
        Some(m[id])
    } else {
        None
    }
}

/// `id` is the identifier of no item that demand for the item at `item`
/// reaches.
pub open spec fn outside(cat: CatalogView, item: int, id: Seq<char>) -> bool {
    forall|x: int| #[trigger] reaches(cat, item, x) ==> cat.items[x].id != id
}

/// `id` is the identifier of no item that demand passed on by the item at
/// `item` reaches.
pub open spec fn outside_ingredients(cat: CatalogView, item: int, id: Seq<char>) -> bool {
    forall|k: int, j: int| #[trigger] cat.feeds(item, k, j) ==> outside(cat, j, id)
}

/// A request leaves the surplus and the operation count of every item
/// alone that its demand does not reach.
pub proof fn lemma_craft_frame(cat: CatalogView, s: LedgerView, item: int, count: nat, id: Seq<char>)
    requires
        cat.wf(),
        cat.has(item),
        outside(cat, item, id),
    ensures
        entry(craft_spec(cat, s, item, count).surplus, id) == entry(s.surplus, id),
        entry(craft_spec(cat, s, item, count).completed, id) == entry(s.completed, id),
    decreases cat.rank(item), cat.ingredients(item).len() + 1,
{
    assert(reaches(cat, item, item));
    assert forall|k: int, j: int| #[trigger] cat.feeds(item, k, j) implies outside(cat, j, id) by {
        assert forall|x: int| #[trigger] reaches(cat, j, x) implies cat.items[x].id != id by {
            lemma_reach_through(cat, item, k, j, x);
        }
    }
    lemma_consume_frame(
        cat,
        settle_item(cat, s, item, count),
        item,
        operations_for(cat, s, item, count),
        0,
        id,
    );
}

/// Supplying ingredient lines leaves the surplus and the operation count
/// of every item alone that the demand passed on does not reach.
pub proof fn lemma_consume_frame(
    cat: CatalogView,
    s: LedgerView,
    item: int,
    operations: nat,
    k: nat,
    id: Seq<char>,
)
    requires
        cat.wf(),
        cat.has(item),
        outside_ingredients(cat, item, id),
    ensures
        entry(consume_spec(cat, s, item, operations, k).surplus, id) == entry(s.surplus, id),
        entry(consume_spec(cat, s, item, operations, k).completed, id) == entry(s.completed, id),
    decreases cat.rank(item), cat.ingredients(item).len() - k,
{
    if k < cat.ingredients(item).len() {
        let line = cat.ingredients(item)[k as int];
        let needed = operations * line.1;
        let supplied = match cat.classify(line.0) {
            ClassificationView::Recurse(j) => craft_spec(cat, s, j, needed),
            _ => add_base_spec(s, cat.id_of(line.0), needed),
        };
        match cat.classify(line.0) {
            ClassificationView::Recurse(j) => {
                assert(cat.feeds(item, k as int, j));
                cat.lemma_rank_decreases(item, k as int, j);
                lemma_craft_frame(cat, s, j, needed, id);
            },
            _ => {},
        }
        lemma_consume_frame(cat, supplied, item, operations, k + 1, id);
    }
}

/// No item reaches itself through its ingredients.
pub proof fn lemma_own_id_outside_ingredients(cat: CatalogView, item: int)
    requires
        cat.wf(),
        cat.has(item),
    ensures
        outside_ingredients(cat, item, cat.items[item].id),
{
    assert forall|k: int, j: int| #[trigger] cat.feeds(item, k, j) implies outside(
        cat,
        j,
        cat.items[item].id,
    ) by {
        cat.lemma_rank_decreases(item, k, j);
        assert forall|x: int| #[trigger] reaches(cat, j, x) implies cat.items[x].id
            != cat.items[item].id by {
            lemma_reach_rank(cat, j, x);
        }
    }
}

/// An item whose demand does not reach the item at `x` reaches no item
/// with the identifier of `x`.
pub proof fn lemma_unreached_is_outside(cat: CatalogView, item: int, x: int)
    requires
        cat.wf(),
        cat.has(item),
        cat.has(x),
        !reaches(cat, item, x),
    ensures
        outside(cat, item, cat.items[x].id),
{
    assert forall|y: int| #[trigger] reaches(cat, item, y) implies cat.items[y].id
        != cat.items[x].id by {
        lemma_reach_rank(cat, item, y);
    }
}

/// Demand for the item at `item` ends, at some item that it reaches, in
/// base material `id`.
pub open spec fn draws_on(cat: CatalogView, item: int, id: Seq<char>) -> bool {
    exists|x: int, k: int|
        reaches(cat, item, x) && 0 <= k < cat.ingredients(x).len() && !(cat.classify(
            (#[trigger] cat.ingredients(x)[k]).0,
        ) is Recurse) && cat.id_of(cat.ingredients(x)[k].0) == id
}

/// A request leaves every base material alone that its demand does not
/// end in.
pub proof fn lemma_craft_base_frame(
    cat: CatalogView,
    s: LedgerView,
    item: int,
    count: nat,
    id: Seq<char>,
)
    requires
        cat.wf(),
        cat.has(item),
        !draws_on(cat, item, id),
    ensures
        entry(craft_spec(cat, s, item, count).base, id) == entry(s.base, id),
    decreases cat.rank(item), cat.ingredients(item).len() + 1,
{
    lemma_consume_base_frame(
        cat,
        settle_item(cat, s, item, count),
        item,
        operations_for(cat, s, item, count),
        0,
        id,
    );
}

/// Supplying ingredient lines leaves every base material alone that the
/// demand does not end in.
pub proof fn lemma_consume_base_frame(
    cat: CatalogView,
    s: LedgerView,
    item: int,
    operations: nat,
    k: nat,
    id: Seq<char>,
)
    requires
        cat.wf(),
        cat.has(item),
        !draws_on(cat, item, id),
    ensures
        entry(consume_spec(cat, s, item, operations, k).base, id) == entry(s.base, id),
    decreases cat.rank(item), cat.ingredients(item).len() - k,
{
    if k < cat.ingredients(item).len() {
        let line = cat.ingredients(item)[k as int];
        let needed = operations * line.1;
        let supplied = match cat.classify(line.0) {
            ClassificationView::Recurse(j) => craft_spec(cat, s, j, needed),
            _ => add_base_spec(s, cat.id_of(line.0), needed),
        };
        match cat.classify(line.0) {
            ClassificationView::Recurse(j) => {
                assert(cat.feeds(item, k as int, j));
                cat.lemma_rank_decreases(item, k as int, j);
                if draws_on(cat, j, id) {
                    let (x, m) = choose|x: int, m: int|
                        reaches(cat, j, x) && 0 <= m < cat.ingredients(x).len() && !(cat.classify(
                            (#[trigger] cat.ingredients(x)[m]).0,
                        ) is Recurse) && cat.id_of(cat.ingredients(x)[m].0) == id;
                    lemma_reach_through(cat, item, k as int, j, x);
                    assert(draws_on(cat, item, id));
                }
                lemma_craft_base_frame(cat, s, j, needed, id);
            },
            _ => {
                assert(reaches(cat, item, item));
                assert(cat.ingredients(item)[k as int] == line);
                assert(cat.id_of(line.0) != id);
            },
        }
        lemma_consume_base_frame(cat, supplied, item, operations, k + 1, id);
    }
}

} // verus!
