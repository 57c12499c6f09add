//! Verified normalization and rendering pipeline for a game-item catalog.
//!
//! The library turns abstract XML element trees into a canonical item
//! catalog (prices, fabrication and deconstruction recipes, level
//! resources, localized names) and renders the catalog into a price
//! table and wiki-markup tables and infoboxes.

pub mod decimal;
pub mod infobox;
pub mod model;
pub mod node;
pub mod parse;
pub mod render;
pub mod text;
