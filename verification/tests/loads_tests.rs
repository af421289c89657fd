use velin_core::loads::LoadSet;

#[test]
fn inline_load_set_spills_sorts_and_deduplicates() {
    let mut loads = LoadSet::new();
    for load in [(4, 1), (2, 3), (5, 1), (1, 8), (3, 2), (2, 3)] {
        loads.insert(load);
    }
    loads.sort_and_deduplicate();
    assert_eq!(loads.as_slice(), &[(1, 8), (2, 3), (3, 2), (4, 1), (5, 1)]);
}

#[test]
fn single_loads_stay_inline() {
    let mut loads = LoadSet::new();
    assert!(loads.as_slice().is_empty());
    loads.insert((7, 2));
    loads.insert((7, 2));
    assert!(matches!(loads, LoadSet::One((7, 2))));
    loads.sort_and_deduplicate();
    assert_eq!(loads.as_slice(), &[(7, 2)]);
}
