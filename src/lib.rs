pub mod agent;
pub mod construction;
pub mod era;
pub mod executor;
pub mod exploration;
pub mod fleet;
pub mod graph;
pub mod ledger;
pub mod models;
pub mod pathfinding;
pub mod procurement;
pub mod tasks;
