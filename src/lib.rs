pub mod cache;
pub mod collect;
pub mod decorate;
pub mod demand;
pub mod names;
pub mod node_id;
