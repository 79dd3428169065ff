//! A deterministic grid-combat engine: a square battlefield holds at most one
//! combatant per cell; combatants differ in health, attack and defense, and
//! adjacent combatants can move or fight under Manhattan-distance rules.

pub mod position;
pub mod unit;
pub mod world;

pub use position::Position;
pub use unit::Unit;
pub use world::World;
