//! Turns a whitespace-aligned pinout table into keyed records, groups and
//! sorts them by chosen columns, and lays each group out as one unit of a
//! schematic symbol library.

pub mod emit;
pub mod group;
pub mod order;
pub mod record;
pub mod rules;
pub mod scan;
pub mod select;
pub mod sort;
pub mod text;
