//! Ghost-tile afterlife: knowledge left by retired agents, kept as tiles
//! whose weight decays over time and is boosted when a query matches them.

pub mod fraction;
pub mod text;
pub mod tombstone;
pub mod ghost_tile;
pub mod afterlife;
pub mod laws;
pub mod history;
