//! Per-turn decision engine for a fleet of agents on a toroidal grid of
//! depletable resources: grid arithmetic, a cost field from one agent,
//! target selection, a task state machine and a collision-free move resolver.

pub mod position;
pub mod grid;
pub mod cost_field;
pub mod target;
pub mod tasks;
pub mod navi;
pub mod turn;
