//! Aggregation of daily contribution counts from several git-hosting
//! providers, a cache-aside layer over the merged result, and a
//! calendar-grid heatmap with quantized intensity levels.

pub mod codec;
pub mod date;
pub mod heatmap;
pub mod providers;
pub mod services;
pub mod state;
pub mod totals;
