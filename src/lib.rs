//! Grid indexing, flow-field pathfinding and territory allegiance for a
//! tile-based tactical simulation.
pub mod coords;
pub mod grid;
pub mod flow_field;
pub mod ring;
pub mod territory;
