//! Recipe depths for a whole catalog, and the search for cycles that
//! giving them out amounts to.

use crate::catalog::{Catalog, Classification};
use crate::graph::{deepest_ingredient, recipe_depth, CatalogView, ClassificationView};
use crate::item::ItemView;
use vstd::prelude::*;

verus! {

/// The greatest rank among the items that the first `k` ingredient lines of
/// the item at `i` pass their demand on to; 0 where none of them does.
pub open spec fn deepest_ranked(cat: CatalogView, ranks: Seq<nat>, i: int, k: nat) -> nat
    decreases k,
{
    if k == 0 {
        0
    } else {
        let before = deepest_ranked(cat, ranks, i, (k - 1) as nat);
        match cat.classify(cat.ingredients(i)[k - 1].0) {
            ClassificationView::Recurse(j) => if ranks[j] > before {
                ranks[j]
            } else {
                before
            },
            _ => before,
        }
    }
}

/// `ranks` is a ranking in which the rank of every ranked item is one more
/// than the greatest rank among the items that it passes demand on to.
pub open spec fn depth_ranking(cat: CatalogView, ranks: Seq<nat>) -> bool {
    &&& cat.ranking(ranks)
    &&& forall|i: int|
        cat.has(i) && #[trigger] ranks[i] > 0 ==> ranks[i] == 1 + deepest_ranked(
            cat,
            ranks,
            i,
            cat.ingredients(i).len(),
        )
}

/// The item at `i` passes demand on to an item that `ranks` does not rank.
pub open spec fn blocked(cat: CatalogView, ranks: Seq<nat>, i: int) -> bool {
    exists|k: int, j: int| #[trigger] cat.feeds(i, k, j) && ranks[j] == 0
}

/// The depths as ranks.
pub open spec fn ranks_of(depths: Seq<usize>) -> Seq<nat> {
    Seq::new(depths.len(), |i: int| depths[i] as nat)
}

/// The number of entries that are 0.
pub open spec fn unranked(depths: Seq<usize>) -> nat
    decreases depths.len(),
{
    if depths.len() == 0 {
        0
    } else {
        unranked(depths.drop_last()) + if depths.last() == 0 {
            1nat
        } else {
            0nat
        }
    }
}

proof fn lemma_unranked_bound(depths: Seq<usize>)
    ensures
        unranked(depths) <= depths.len(),
        unranked(depths) == 0 ==> forall|i: int| 0 <= i < depths.len() ==> #[trigger] depths[i] > 0,
        (forall|i: int| 0 <= i < depths.len() ==> #[trigger] depths[i] == 0) ==> unranked(depths)
            == depths.len(),
    decreases depths.len(),
{
    if depths.len() > 0 {
        lemma_unranked_bound(depths.drop_last());
        assert forall|i: int| 0 <= i < depths.len() - 1 implies depths.drop_last()[i]
            == depths[i] by {}
        if unranked(depths) == 0 {
            assert forall|i: int| 0 <= i < depths.len() implies #[trigger] depths[i] > 0 by {
                if i < depths.len() - 1 {
                    assert(depths.drop_last()[i] > 0);
                }
            }
        }
    }
}

proof fn lemma_unranked_update(depths: Seq<usize>, i: int, value: usize)
    requires
        0 <= i < depths.len(),
        depths[i] == 0,
        value > 0,
    ensures
        unranked(depths) >= 1,
        unranked(depths.update(i, value)) == unranked(depths) - 1,
    decreases depths.len(),
{
    if i == depths.len() - 1 {
        assert(depths.update(i, value).drop_last() =~= depths.drop_last());
    } else {
        lemma_unranked_update(depths.drop_last(), i, value);
        assert(depths.update(i, value).drop_last() =~= depths.drop_last().update(i, value));
    }
}

/// The greatest rank among what an item passes demand on to depends on
/// the ranks of those items only.
proof fn lemma_deepest_ranked_frame(cat: CatalogView, r1: Seq<nat>, r2: Seq<nat>, i: int, k: nat)
    requires
        forall|m: int, j: int| 0 <= m < k && #[trigger] cat.feeds(i, m, j) ==> r1[j] == r2[j],
        cat.has(i),
        k <= cat.ingredients(i).len(),
    ensures
        deepest_ranked(cat, r1, i, k) == deepest_ranked(cat, r2, i, k),
    decreases k,
{
    if k > 0 {
        lemma_deepest_ranked_frame(cat, r1, r2, i, (k - 1) as nat);
        match cat.classify(cat.ingredients(i)[k - 1].0) {
            ClassificationView::Recurse(j) => {
                assert(cat.feeds(i, k - 1, j));
            },
            _ => {},
        }
    }
}

/// No ranking ranks an item that `ranks` leaves out, where every item that
/// `ranks` leaves out passes demand on to another such item.
proof fn lemma_blocked_unrankable(cat: CatalogView, ranks: Seq<nat>, r: Seq<nat>, i: int)
    requires
        ranks.len() == cat.items.len(),
        forall|h: int| cat.has(h) && #[trigger] ranks[h] == 0 ==> blocked(cat, ranks, h),
        cat.sound(),
        cat.ranking(r),
        cat.has(i),
        ranks[i] == 0,
    ensures
        r[i] == 0,
    decreases r[i],
{
    if r[i] > 0 {
        assert(blocked(cat, ranks, i));
        let (k, j) = choose|k: int, j: int| #[trigger] cat.feeds(i, k, j) && ranks[j] == 0;
        assert(cat.ingredients(i)[k].0 == ItemView::SF(j));
        lemma_blocked_unrankable(cat, ranks, r, j);
    }
}

/// Ranks that rank every item and obey the depth recurrence are the recipe
/// depths.
pub proof fn lemma_ranks_are_depths(cat: CatalogView, ranks: Seq<nat>, i: int)
    requires
        cat.wf(),
        cat.total_ranking(ranks),
        depth_ranking(cat, ranks),
        cat.has(i),
    ensures
        ranks[i] == recipe_depth(cat, i),
    decreases ranks[i], cat.ingredients(i).len() + 1,
{
    lemma_deepest_ranked_is_deepest(cat, ranks, i, cat.ingredients(i).len());
}

proof fn lemma_deepest_ranked_is_deepest(cat: CatalogView, ranks: Seq<nat>, i: int, k: nat)
    requires
        cat.wf(),
        cat.total_ranking(ranks),
        depth_ranking(cat, ranks),
        cat.has(i),
        k <= cat.ingredients(i).len(),
    ensures
        deepest_ranked(cat, ranks, i, k) == deepest_ingredient(cat, i, k),
    decreases ranks[i], k,
{
    if k > 0 {
        lemma_deepest_ranked_is_deepest(cat, ranks, i, (k - 1) as nat);
        match cat.classify(cat.ingredients(i)[k - 1].0) {
            ClassificationView::Recurse(j) => {
                assert(cat.feeds(i, k - 1, j));
                assert(cat.ingredients(i)[k - 1].0 == ItemView::SF(j));
                lemma_ranks_are_depths(cat, ranks, j);
            },
            _ => {},
        }
    }
}

/// Giving an unranked item one more than the greatest depth among the
/// items that it passes demand on to, all of them ranked, keeps a depth
/// ranking.
proof fn lemma_depth_given(cat: CatalogView, depths: Seq<usize>, i: int, depth: usize)
    requires
        cat.sound(),
        cat.has(i),
        depths.len() == cat.items.len(),
        depths[i] == 0,
        depth_ranking(cat, ranks_of(depths)),
        depth == 1 + deepest_ranked(cat, ranks_of(depths), i, cat.ingredients(i).len()),
        forall|k: int, j: int| #[trigger] cat.feeds(i, k, j) ==> 0 < depths[j] < depth,
    ensures
        depth_ranking(cat, ranks_of(depths.update(i, depth))),
{
    let old_ranks = ranks_of(depths);
    let ranks = ranks_of(depths.update(i, depth));
    assert forall|a: int, k: int, b: int| #[trigger] cat.feeds(a, k, b) && ranks[a] > 0 implies 0
        < ranks[b] < ranks[a] by {
        assert(cat.ingredients(a)[k].0 == ItemView::SF(b));
        if a != i {
            assert(old_ranks[a] > 0);
            assert(0 < old_ranks[b] < old_ranks[a]);
        } else {
            assert(0 < depths[b] < depth);
        }
    }
    assert forall|a: int| cat.has(a) && #[trigger] ranks[a] > 0 implies ranks[a] == 1
        + deepest_ranked(cat, ranks, a, cat.ingredients(a).len()) by {
        assert forall|m: int, j: int|
            0 <= m < cat.ingredients(a).len() && #[trigger] cat.feeds(a, m, j) implies old_ranks[j]
            == ranks[j] by {
            assert(cat.ingredients(a)[m].0 == ItemView::SF(j));
            if a != i {
                assert(old_ranks[a] > 0);
                assert(0 < old_ranks[j]);
            } else {
                assert(0 < depths[j]);
            }
        }
        lemma_deepest_ranked_frame(cat, old_ranks, ranks, a, cat.ingredients(a).len());
        if a != i {
            assert(old_ranks[a] > 0);
        }
    }
}

/// The depth of the item at `i` as the depths so far give it: one more
/// than the greatest depth among the items that it passes demand on
/// to, if each of them has a depth already.
fn depth_if_ready(catalog: &Catalog, depths: &Vec<usize>, i: usize) -> (found: Option<usize>)
    requires
        catalog@.sound(),
        depths@.len() == catalog@.items.len(),
        i < catalog@.items.len(),
        forall|h: int| 0 <= h < depths@.len() ==> #[trigger] depths@[h] < usize::MAX,
    ensures
        match found {
            Some(depth) => {
                &&& depth == 1 + deepest_ranked(
                    catalog@,
                    ranks_of(depths@),
                    i as int,
                    catalog@.ingredients(i as int).len(),
                )
                &&& forall|k: int, j: int| #[trigger]
                    catalog@.feeds(i as int, k, j) ==> 0 < depths@[j] < depth
            },
            None => blocked(catalog@, ranks_of(depths@), i as int),
        },
{
    let ghost cat = catalog@;
    let ghost ranks = ranks_of(depths@);
    let recipe = catalog.item(i).recipe.as_ref().unwrap();
    assert(recipe@.ingredients == cat.ingredients(i as int));
    let mut best: usize = 0;
    let mut k: usize = 0;
    while k < recipe.ingredients.len()
        invariant
            cat == catalog@,
            cat.sound(),
            ranks == ranks_of(depths@),
            depths@.len() == cat.items.len(),
            i < cat.items.len(),
            forall|h: int| 0 <= h < depths@.len() ==> #[trigger] depths@[h] < usize::MAX,
            recipe@.ingredients == cat.ingredients(i as int),
            k <= recipe.ingredients.len(),
            best == deepest_ranked(cat, ranks, i as int, k as nat),
            best < usize::MAX,
            forall|m: int, j: int|
                0 <= m < k && #[trigger] cat.feeds(i as int, m, j) ==> 0 < depths@[j] <= best,
        decreases recipe.ingredients.len() - k,
    {
        let line = &recipe.ingredients[k];
        assert(cat.ingredients(i as int)[k as int] == (line.0@, line.1 as nat));
        if let Classification::Recurse(j) = catalog.classify(&line.0) {
            assert(cat.feeds(i as int, k as int, j as int));
            let depth = depths[j];
            if depth == 0 {
                return None;
            }
            if depth > best {
                best = depth;
            }
        }
        k += 1;
    }
    Some(best + 1)
}

/// Gives every item its recipe depth, or names the first item that
/// cannot be ranked. An item gets its depth once every item that it
/// passes demand on to has one; the items are gone through until a
/// round gives no depth.
pub(crate) fn assign_depths(catalog: &Catalog) -> (result: Result<Vec<usize>, usize>)
    requires
        catalog@.sound(),
    ensures
        match result {
            Ok(depths) => {
                &&& depths@.len() == catalog@.items.len()
                &&& catalog@.total_ranking(ranks_of(depths@))
                &&& depth_ranking(catalog@, ranks_of(depths@))
            },
            Err(i) => {
                &&& catalog@.has(i as int)
                &&& !catalog@.rankable(i as int)
                &&& forall|h: int| 0 <= h < i ==> catalog@.rankable(h)
            },
        },
{
    let ghost cat = catalog@;
    let n = catalog.len();
    let mut depths: Vec<usize> = Vec::new();
    while depths.len() < n
        invariant
            depths@.len() <= n,
            forall|h: int| 0 <= h < depths@.len() ==> #[trigger] depths@[h] == 0,
        decreases n - depths.len(),
    {
        depths.push(0);
    }
    let mut remaining: usize = n;
    let mut stuck = false;
    proof {
        lemma_unranked_bound(depths@);
    }
    while remaining > 0 && !stuck
        invariant
            cat == catalog@,
            cat.sound(),
            n == cat.items.len(),
            depths@.len() == n,
            depth_ranking(cat, ranks_of(depths@)),
            remaining == unranked(depths@),
            forall|h: int| 0 <= h < n ==> #[trigger] depths@[h] + remaining <= n,
            stuck ==> remaining > 0 && forall|h: int|
                cat.has(h) && #[trigger] ranks_of(depths@)[h] == 0 ==> blocked(
                    cat,
                    ranks_of(depths@),
                    h,
                ),
        decreases remaining + if stuck { 0nat } else { 1nat },
    {
        let before = remaining;
        let ghost start = depths@;
        let mut i: usize = 0;
        while i < n
            invariant
                cat == catalog@,
                cat.sound(),
                n == cat.items.len(),
                depths@.len() == n,
                start.len() == n,
                i <= n,
                depth_ranking(cat, ranks_of(depths@)),
                remaining == unranked(depths@),
                remaining <= before,
                forall|h: int| 0 <= h < n ==> #[trigger] depths@[h] + remaining <= n,
                remaining == before ==> depths@ == start && forall|h: int|
                    0 <= h < i && #[trigger] ranks_of(start)[h] == 0 ==> blocked(
                        cat,
                        ranks_of(start),
                        h,
                    ),
            decreases n - i,
        {
            if depths[i] == 0 {
                proof {
                    lemma_unranked_update(depths@, i as int, 1);
                }
                match depth_if_ready(catalog, &depths, i) {
                    Some(depth) => {
                        let ghost old_depths = depths@;
                        let ghost old_ranks = ranks_of(old_depths);
                        depths.set(i, depth);
                        remaining = remaining - 1;
                        proof {
                            lemma_unranked_update(old_depths, i as int, depth);
                            lemma_depth_given(cat, old_depths, i as int, depth);
                            assert forall|h: int| 0 <= h < n implies #[trigger] depths@[h]
                                + remaining <= n by {
                                if h != i {
                                    assert(old_depths[h] + remaining + 1 <= n);
                                } else {
                                    lemma_depth_bound(
                                        cat,
                                        old_ranks,
                                        i as int,
                                        cat.ingredients(i as int).len(),
                                        (n - remaining - 1) as nat,
                                    );
                                }
                            }
                        }
                    },
                    None => {},
                }
            }
            i += 1;
        }
        if remaining == before {
            stuck = true;
        }
    }
    if stuck {
        let mut i: usize = 0;
        while depths[i] != 0
            invariant
                cat == catalog@,
                n == cat.items.len(),
                depths@.len() == n,
                i < n,
                unranked(depths@) > 0,
                cat.ranking(ranks_of(depths@)),
                forall|h: int| 0 <= h < i ==> #[trigger] depths@[h] > 0,
                forall|h: int| 0 <= h < i ==> cat.rankable(h),
            decreases n - i,
        {
            proof {
                assert(ranks_of(depths@)[i as int] > 0);
                if i + 1 == n {
                    lemma_all_ranked(depths@);
                }
            }
            i += 1;
        }
        proof {
            let ranks = ranks_of(depths@);
            if cat.rankable(i as int) {
                let r = choose|r: Seq<nat>| cat.ranking(r) && cat.has(i as int) && r[i as int] > 0;
                lemma_blocked_unrankable(cat, ranks, r, i as int);
            }
        }
        Err(i)
    } else {
        proof {
            lemma_unranked_bound(depths@);
            assert forall|h: int| 0 <= h < ranks_of(depths@).len() implies #[trigger] ranks_of(
                depths@,
            )[h] > 0 by {
                assert(depths@[h] > 0);
            }
        }
        Ok(depths)
    }
}

/// A depth made from ranks that are at most `bound` is at most one more.
proof fn lemma_depth_bound(cat: CatalogView, ranks: Seq<nat>, i: int, k: nat, bound: nat)
    requires
        cat.sound(),
        cat.has(i),
        ranks.len() == cat.items.len(),
        k <= cat.ingredients(i).len(),
        forall|h: int| 0 <= h < ranks.len() ==> #[trigger] ranks[h] <= bound,
    ensures
        deepest_ranked(cat, ranks, i, k) <= bound,
    decreases k,
{
    if k > 0 {
        lemma_depth_bound(cat, ranks, i, (k - 1) as nat, bound);
        match cat.classify(cat.ingredients(i)[k - 1].0) {
            ClassificationView::Recurse(j) => {
                assert(cat.ingredients(i)[k - 1].0 == ItemView::SF(j));
            },
            _ => {},
        }
    }
}

/// Where every entry is positive, none is counted as 0.
proof fn lemma_all_ranked(depths: Seq<usize>)
    requires
        forall|h: int| 0 <= h < depths.len() ==> #[trigger] depths[h] > 0,
    ensures
        unranked(depths) == 0,
    decreases depths.len(),
{
    if depths.len() > 0 {
        assert forall|h: int| 0 <= h < depths.len() - 1 implies #[trigger] depths.drop_last()[h]
            > 0 by {
            assert(depths[h] > 0);
        }
        lemma_all_ranked(depths.drop_last());
    }
}

} // verus!
