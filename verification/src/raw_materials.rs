//! The materials that count as base material even where the catalog has a
//! recipe for them.

use crate::decimal::{decimal_string, decimal_text};
use vstd::prelude::*;
use vstd::string::StringExecFns;

verus! {

/// The number of gold tiers.
pub const GOLD_TIERS: usize = 11;

/// The carat of the gold tier `tier`: 4 for the first, and 2 more for each
/// one after it.
pub open spec fn gold_carat(tier: nat) -> nat {
    (tier + 2) * 2
}

/// The identifier of the gold tier `tier`.
pub open spec fn gold_id(tier: nat) -> Seq<char> {
    "GOLD_"@ + decimal_text(gold_carat(tier)) + "K"@
}

/// The identifiers of the dusts and of the other materials that are never
/// taken apart.
pub open spec fn plain_ids() -> Seq<Seq<char>> {
    seq![
        "SULFATE"@,
        "BASIC_CIRCUIT_BOARD"@,
        "IRON_DUST"@,
        "GOLD_DUST"@,
        "COPPER_DUST"@,
        "TIN_DUST"@,
        "SILVER_DUST"@,
        "ALUMINUM_DUST"@,
        "LEAD_DUST"@,
        "ZINC_DUST"@,
        "MAGNESIUM_DUST"@,
        "PULVERIZED_ORE"@,
    ]
}

/// The standard raw materials: the plain ones, then the gold tiers.
pub open spec fn standard_ids() -> Seq<Seq<char>> {
    plain_ids() + Seq::new(GOLD_TIERS as nat, |tier: int| gold_id(tier as nat))
}

/// The identifiers as mathematical values.
pub open spec fn ids_view(ids: Seq<String>) -> Seq<Seq<char>> {
    Seq::new(ids.len(), |k: int| ids[k]@)
}

/// The standard raw materials.
pub fn standard() -> (ids: Vec<String>)
    ensures
        ids_view(ids@) == standard_ids(),
{
    let mut ids: Vec<String> = Vec::new();
    ids.push("SULFATE".to_owned());
    ids.push("BASIC_CIRCUIT_BOARD".to_owned());
    ids.push("IRON_DUST".to_owned());
    ids.push("GOLD_DUST".to_owned());
    ids.push("COPPER_DUST".to_owned());
    ids.push("TIN_DUST".to_owned());
    ids.push("SILVER_DUST".to_owned());
    ids.push("ALUMINUM_DUST".to_owned());
    ids.push("LEAD_DUST".to_owned());
    ids.push("ZINC_DUST".to_owned());
    ids.push("MAGNESIUM_DUST".to_owned());
    ids.push("PULVERIZED_ORE".to_owned());
    assert(ids_view(ids@) == plain_ids());
    let mut tier: usize = 0;
    while tier < GOLD_TIERS
        invariant
            tier <= GOLD_TIERS,
            ids_view(ids@) == plain_ids() + Seq::new(tier as nat, |t: int| gold_id(t as nat)),
        decreases GOLD_TIERS - tier,
    {
        let ghost before = ids_view(ids@);
        let mut id = "GOLD_".to_owned();
        let carat = (tier + 2) * 2;
        id.append(decimal_string(carat as u128).as_str());
        id.append("K");
        ids.push(id);
        proof {
            assert(ids_view(ids@) == before.push(gold_id(tier as nat)));
            assert(Seq::new(tier as nat, |t: int| gold_id(t as nat)).push(gold_id(tier as nat))
                == Seq::new((tier + 1) as nat, |t: int| gold_id(t as nat)));
        }
        tier += 1;
    }
    ids
}

} // verus!
