//! A terminal dashboard core: named numeric streams are sampled on a cadence,
//! kept as per-stream histories, and rendered as scrolling bar graphs inside a
//! character grid, under keyboard navigation, resize and interval changes.
//!
//! Sample values are carried as fixed-point integers in thousandths of the
//! stream's unit; styled text is ordinary `String`s holding ANSI style
//! markers, which layout arithmetic ignores.

pub mod text;
pub mod format;
pub mod theme;
pub mod stream;
pub mod model;
pub mod render;
pub mod frame;
pub mod providers;
