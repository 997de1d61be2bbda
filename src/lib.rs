//! One snapshot of a market: which instruments to ask, what their answers
//! add up to, and how the extremes are ranked, selected and shown.
//!
//! - `cache`: instruments known to return no data, with a time to live.
//! - `batch`: the joined per-instrument outcomes of one fan-out.
//! - `normalize`: price series relative to their first close, and alignment
//!   on the reference instrument's time index.
//! - `rank`: exact ordering of scores and the two extreme-count policies.
//! - `lsr`: the long/short text report.
//! - `chart`: the plan of the closes chart.
//! - `text`: decimal and padded text.

pub mod batch;
pub mod cache;
pub mod chart;
pub mod lsr;
pub mod normalize;
pub mod rank;
pub mod text;
