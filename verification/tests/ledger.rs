use sfcalc::ledger::Ledger;

#[test]
fn a_new_ledger_is_empty() {
    let ledger = Ledger::new();
    assert_eq!(ledger.len(), 0);
    assert!(!ledger.contains("A"));
    assert_eq!(ledger.get("A"), 0);
}

#[test]
fn entries_are_kept_in_ascending_order_of_their_identifiers() {
    let mut ledger = Ledger::new();
    ledger.set("B", 4);
    ledger.set("A", 0);
    ledger.set("B", 9);
    ledger.set("AB", 1);
    ledger.set("", 2);
    ledger.set("a", 3);
    ledger.set("C", 5);
    assert_eq!(ledger.len(), 6);
    let keys: Vec<&str> = (0..ledger.len()).map(|k| ledger.key(k)).collect();
    assert_eq!(keys, vec!["", "A", "AB", "B", "C", "a"]);
    assert_eq!(ledger.get("B"), 9);
    assert_eq!(ledger.get("A"), 0);
    assert_eq!(ledger.get(""), 2);
    assert!(ledger.contains("A"));
    assert!(!ledger.contains("D"));
}

#[test]
fn adding_sums_up_and_stops_at_the_limit() {
    let mut ledger = Ledger::new();
    assert!(ledger.add("A", 5));
    assert!(ledger.add("A", 7));
    assert_eq!(ledger.get("A"), 12);
    assert!(ledger.add("A", u64::MAX - 12));
    assert_eq!(ledger.get("A"), u64::MAX);
    assert!(!ledger.add("A", 1));
    assert_eq!(ledger.get("A"), u64::MAX);
    assert!(ledger.add("A", 0));
    assert!(!ledger.contains("B"));
    assert!(ledger.add("B", 0));
    assert!(ledger.contains("B"));
    assert_eq!(ledger.len(), 2);
}

#[test]
fn a_duplicate_has_the_same_entries_and_a_life_of_its_own() {
    let mut ledger = Ledger::new();
    ledger.set("Y", 2);
    ledger.set("X", 1);
    let mut copy = ledger.duplicate();
    assert_eq!(copy.len(), 2);
    assert_eq!(copy.key(0), "X");
    assert_eq!(copy.key(1), "Y");
    assert_eq!(copy.get("X"), 1);
    assert_eq!(copy.get("Y"), 2);
    copy.set("X", 10);
    copy.set("Z", 3);
    assert_eq!(ledger.get("X"), 1);
    assert_eq!(ledger.len(), 2);
    assert!(!ledger.contains("Z"));
}
