use basebuilder::entity::EntityId;
use basebuilder::health::{apply_damage_events, damage_from_hit, Health, HealthDamageEvent};

#[test]
fn damage_lowers_health_but_not_below_zero() {
    let mut health = Health(100);
    health.take_damage(30);
    assert_eq!(health, Health(70));
    health.take_damage(100);
    assert_eq!(health, Health(0));
    health.take_damage(5);
    assert_eq!(health, Health(0));
}

#[test]
fn damage_events_apply_to_their_target_only() {
    let target = EntityId(1);
    let other = EntityId(2);
    let events = vec![
        HealthDamageEvent { entity: target, damage: 10 },
        HealthDamageEvent { entity: other, damage: 50 },
        HealthDamageEvent { entity: target, damage: 15 },
    ];
    let mut health = Health(40);
    apply_damage_events(target, &mut health, &events);
    assert_eq!(health, Health(15));
    let mut others = Health(40);
    apply_damage_events(other, &mut others, &events);
    assert_eq!(others, Health(0));
}

#[test]
fn split_damage_adds_up_like_one_blow() {
    let target = EntityId(3);
    let split = vec![
        HealthDamageEvent { entity: target, damage: 7 },
        HealthDamageEvent { entity: target, damage: 8 },
    ];
    let mut by_parts = Health(20);
    apply_damage_events(target, &mut by_parts, &split);
    let mut at_once = Health(20);
    at_once.take_damage(15);
    assert_eq!(by_parts, at_once);
}

#[test]
fn a_hit_damages_only_what_has_health() {
    assert_eq!(
        damage_from_hit(EntityId(4), 12, true),
        Some(HealthDamageEvent { entity: EntityId(4), damage: 12 })
    );
    assert_eq!(damage_from_hit(EntityId(4), 12, false), None);
}
