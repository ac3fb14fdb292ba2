use sfcalc::raw_materials::{standard, GOLD_TIERS};

#[test]
fn standard_raw_materials_are_the_dusts_and_the_gold_tiers() {
    let ids = standard();
    assert_eq!(GOLD_TIERS, 11);
    assert_eq!(ids.len(), 23);
    assert_eq!(
        &ids[..12],
        &[
            "SULFATE",
            "BASIC_CIRCUIT_BOARD",
            "IRON_DUST",
            "GOLD_DUST",
            "COPPER_DUST",
            "TIN_DUST",
            "SILVER_DUST",
            "ALUMINUM_DUST",
            "LEAD_DUST",
            "ZINC_DUST",
            "MAGNESIUM_DUST",
            "PULVERIZED_ORE",
        ]
    );
    assert_eq!(
        &ids[12..],
        &[
            "GOLD_4K", "GOLD_6K", "GOLD_8K", "GOLD_10K", "GOLD_12K", "GOLD_14K", "GOLD_16K",
            "GOLD_18K", "GOLD_20K", "GOLD_22K", "GOLD_24K",
        ]
    );
}
