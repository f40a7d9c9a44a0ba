use basebuilder::dwarf::{spawn_columns, DWARF_COUNT, SPAWN_REACH};

#[test]
fn dwarves_land_in_distinct_columns_near_the_middle() {
    for seed in [0u64, 1, 42, u64::MAX] {
        let columns = spawn_columns(seed);
        assert_eq!(columns.len(), DWARF_COUNT);
        for (i, column) in columns.iter().enumerate() {
            assert!(-SPAWN_REACH <= *column && *column <= SPAWN_REACH);
            assert!(!columns[i + 1..].contains(column));
        }
    }
}

#[test]
fn the_same_seed_gives_the_same_columns() {
    assert_eq!(spawn_columns(7), spawn_columns(7));
}
