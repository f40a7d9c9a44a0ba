//! Hit points and damage.

use vstd::prelude::*;
use crate::entity::EntityId;

verus! {

/// The hit points of a creature or a tree.
#[derive(Clone, Copy, Debug, PartialEq, Eq, Hash, Structural)]
pub struct Health(pub u32);

/// Damage dealt to an entity.
#[derive(Clone, Copy, Debug, PartialEq, Eq, Hash, Structural)]
pub struct HealthDamageEvent {
    pub entity: EntityId,
    pub damage: u32,
}

impl Health {
    /// Takes damage: the hit points drop by the damage, but not below zero.
    pub fn take_damage(&mut self, damage: u32)
        ensures
            final(self).0 == if old(self).0 >= damage { old(self).0 - damage } else { 0 },
    {
        self.0 = self.0.saturating_sub(damage);
    }
}

/// Hit points never grow from damage, and hit points at zero stay at zero.
pub proof fn law_damage_only_lowers(health: u32, damage: u32)
    ensures
        ({
            let after: int = if health >= damage { health - damage } else { 0 };
            &&& 0 <= after <= health
            &&& health == 0 ==> after == 0
            &&& damage >= health ==> after == 0
        }),
{
}

/// The hit points left of `health` after the events in order: each event for `target`
/// takes its damage, the others pass it by.
pub open spec fn after_events(health: u32, events: Seq<HealthDamageEvent>, target: EntityId) -> u32
    decreases events.len(),
{
    if events.len() == 0 {
        health
    } else {
        let before = after_events(health, events.drop_last(), target);
        if events.last().entity == target {
            if before >= events.last().damage { (before - events.last().damage) as u32 } else { 0 }
        } else {
            before
        }
    }
}

/// The damage the events deal to `target`, all together.
pub open spec fn damage_to(events: Seq<HealthDamageEvent>, target: EntityId) -> nat
    decreases events.len(),
{
    if events.len() == 0 {
        0
    } else if events.last().entity == target {
        damage_to(events.drop_last(), target) + events.last().damage as nat
    } else {
        damage_to(events.drop_last(), target)
    }
}

/// Applies the damage events to the health of `target`; see `after_events`.
pub fn apply_damage_events(target: EntityId, health: &mut Health, events: &Vec<HealthDamageEvent>)
    ensures
        final(health).0 == after_events(old(health).0, events@, target),
{
    let ghost start = health.0;
    let mut i: usize = 0;
    while i < events.len()
        invariant
            i <= events@.len(),
            health.0 == after_events(start, events@.take(i as int), target),
        decreases events.len() - i,
    {
        proof {
            assert(events@.take(i + 1).drop_last() =~= events@.take(i as int));
            assert(events@.take(i + 1).last() == events@[i as int]);
        }
        if events[i].entity == target {
            health.take_damage(events[i].damage);
        }
        i = i + 1;
    }
    assert(events@.take(i as int) =~= events@);
}

/// The damage an entity takes when it is hit: an event for it when it has hit points,
/// nothing otherwise.
pub fn damage_from_hit(target: EntityId, damage: u32, has_health: bool) -> (event: Option<HealthDamageEvent>)
    ensures
        event == if has_health { Some(HealthDamageEvent { entity: target, damage }) } else { None },
{
    if has_health {
        Some(HealthDamageEvent { entity: target, damage })
    } else {
        None
    }
}

/// However the damage is split into events and in whatever order they come, the hit
/// points left are the hit points less all the damage together, but not below zero.
pub proof fn law_damage_adds_up(health: u32, events: Seq<HealthDamageEvent>, target: EntityId)
    ensures
        after_events(health, events, target) == if health >= damage_to(events, target) {
            health - damage_to(events, target)
        } else {
            0
        },
    decreases events.len(),
{
    if events.len() > 0 {
        law_damage_adds_up(health, events.drop_last(), target);
    }
}

} // verus!
