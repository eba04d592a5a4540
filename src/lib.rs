//! Edge-side catalog cache, search ranking and statistics normalisation
//! for a game-statistics API.
pub mod text;
pub mod cache;
pub mod catalog;
pub mod detail;
pub mod json;
pub mod prefetch;
pub mod rank;
pub mod search;
pub mod stats;
