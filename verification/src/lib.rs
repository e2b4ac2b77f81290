//! Verified core of a charting library: colour schemes, the IEEE-754 orderings
//! that chart positions are compared by, series data bookkeeping, line paths and
//! the tooltip's row handling.

pub mod colours;
pub mod order;
pub mod series;
pub mod line;
pub mod tooltip;
