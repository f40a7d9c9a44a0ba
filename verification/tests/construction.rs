use basebuilder::construction::{BuildToolState, BuildingMaterialsNeeded, UnderConstruction, FULL_PROGRESS};

fn needs(list: &[(&str, u32)]) -> BuildingMaterialsNeeded {
    BuildingMaterialsNeeded::new(list.iter().map(|(name, amount)| (name.to_string(), *amount)).collect())
}

fn listed(needed: &BuildingMaterialsNeeded) -> Vec<(String, u32)> {
    needed.resources_needed().clone()
}

#[test]
fn construction_starts_at_no_progress() {
    let site = UnderConstruction::default();
    assert_eq!(site.progress(), 0);
    assert!(!site.finished());
    assert_eq!(UnderConstruction::new().progress(), 0);
}

#[test]
fn progress_adds_up_and_stops_at_full() {
    let mut site = UnderConstruction::new();
    for _ in 0..4 {
        site.add_progress(20);
    }
    assert_eq!(site.progress(), 80);
    assert!(!site.finished());
    site.add_progress(20);
    assert_eq!(site.progress(), FULL_PROGRESS);
    assert!(site.finished());
    site.add_progress(20);
    assert_eq!(site.progress(), FULL_PROGRESS);
    assert!(site.finished());
}

#[test]
fn progress_past_full_is_capped() {
    let mut site = UnderConstruction::new();
    site.add_progress(70);
    site.add_progress(70);
    assert_eq!(site.progress(), 100);
}

#[test]
fn delivery_lowers_every_entry_of_the_material() {
    let mut needed = needs(&[("Log", 3), ("Stone", 2), ("Log", 1)]);
    needed.deliver_resource(&"Log".to_string(), 2);
    assert_eq!(
        listed(&needed),
        vec![("Log".to_string(), 1), ("Stone".to_string(), 2), ("Log".to_string(), 0)]
    );
    needed.deliver_resource(&"Plank".to_string(), 5);
    assert_eq!(
        listed(&needed),
        vec![("Log".to_string(), 1), ("Stone".to_string(), 2), ("Log".to_string(), 0)]
    );
    assert!(!needed.is_satisfied());
}

#[test]
fn arrivals_count_down_and_drop_what_is_no_longer_needed() {
    let mut needed = needs(&[("Log", 2), ("Stone", 1)]);
    needed.material_arrived(&"Log".to_string());
    assert_eq!(listed(&needed), vec![("Log".to_string(), 1), ("Stone".to_string(), 1)]);
    needed.material_arrived(&"Stone".to_string());
    assert_eq!(listed(&needed), vec![("Log".to_string(), 1)]);
    needed.material_arrived(&"Plank".to_string());
    assert_eq!(listed(&needed), vec![("Log".to_string(), 1)]);
    assert!(!needed.is_satisfied());
    needed.material_arrived(&"Log".to_string());
    assert!(listed(&needed).is_empty());
    assert!(needed.is_satisfied());
}

#[test]
fn an_arrival_lowers_only_the_first_entry_of_its_name() {
    let mut needed = needs(&[("Log", 1), ("Log", 4)]);
    needed.material_arrived(&"Log".to_string());
    assert_eq!(listed(&needed), vec![("Log".to_string(), 4)]);
}

#[test]
fn ladder_needs_one_log() {
    let needed = needs(&[("Log", 1)]);
    assert_eq!(listed(&needed), vec![("Log".to_string(), 1)]);
    assert!(!needed.is_satisfied());
    assert_ne!(BuildToolState::Inactive, BuildToolState::Placing);
}
