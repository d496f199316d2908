//! Battery-history charting: segmentation of a time-ordered sample sequence
//! into maximal same-mode runs, and assembly of those runs into a drawable
//! chart description (axis ranges, colored series, label formatting).

pub mod record;
pub mod segment;
pub mod chart;
pub mod label;
