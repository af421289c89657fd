use velin_core::slots::SlotTable;

fn interning_checks() {
    let mut slots = SlotTable::new();
    let hp = slots.intern("hp");
    let mp = slots.intern("mp");
    assert_ne!(hp, mp);
    assert_eq!(slots.intern("hp"), hp);
    assert_eq!(slots.get("mp"), Some(mp));
    assert_eq!(slots.get("missing"), None);
    assert_eq!(slots.name(hp), Some("hp"));
    assert_eq!(slots.len(), 2);
    assert!(!slots.is_empty());
    assert!(SlotTable::new().is_empty());
    assert_eq!(slots.names().len(), 2);
    assert_eq!(slots.name(99), None);
}

#[test]
fn slots_interning_is_stable_and_reversible() {
    interning_checks();
}

#[test]
fn slots_tests_interning_is_stable_and_reversible() {
    interning_checks();
}

#[test]
fn names_can_be_dropped_without_changing_slot_width_or_rng_slot() {
    let mut slots = SlotTable::new();
    let value = slots.intern("value");
    let rng = slots.intern_rng_state();
    let stripped = slots.without_names();
    assert_eq!(stripped.len(), 2);
    assert!(!stripped.has_names());
    assert_eq!(stripped.get("value"), None);
    assert_eq!(stripped.name(value), None);
    assert_eq!(stripped.rng_state(), Some(rng));
}

#[test]
fn rng_slot_is_interned_once_and_named_tables_round_trip() {
    let mut slots = SlotTable::new();
    assert_eq!(slots.rng_state(), None);
    let rng = slots.intern_rng_state();
    assert_eq!(slots.intern_rng_state(), rng);
    assert_eq!(slots.rng_state(), Some(rng));
    let x = slots.intern("x");
    assert_eq!(x, 1);
    assert!(slots.has_names());
    let names: Vec<String> = slots.names().to_vec();
    let rebuilt = SlotTable::from_names(names).unwrap();
    assert_eq!(rebuilt.get("x"), Some(1));
    assert_eq!(rebuilt.rng_state(), Some(rng));
    assert!(SlotTable::from_names(vec!["a".to_string(), "a".to_string()]).is_err());
}

#[test]
fn duplicate_names_are_reported_by_the_first_repeat() {
    let names = vec!["x".to_string(), "y".to_string(), "y".to_string(), "x".to_string()];
    assert_eq!(SlotTable::from_names(names).unwrap_err(), "duplicate slot name `y`");
    let names = vec!["x".to_string(), "x".to_string()];
    assert_eq!(SlotTable::from_names(names).unwrap_err(), "duplicate slot name `x`");
}
