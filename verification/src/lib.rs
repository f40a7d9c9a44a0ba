//! Verified core of a tile-based colony builder: inventories and item stacks,
//! tile pathfinding, construction progress, and the decision logic of the
//! workers' actions.

pub mod actions;
pub mod construction;
pub mod dwarf;
pub mod entity;
pub mod health;
pub mod inventory;
pub mod labor;
pub mod pathfinding;
