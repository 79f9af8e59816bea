//! Inventory of cluster workloads: per-container compliance and cost records,
//! their rollups at two granularities, and a ranked, filtered report.
//!
//! CPU cost is held as a whole number of millicores (thousandths of a core):
//! a quantity is read to the nearest millicore, and sums over records are
//! exact.

pub mod aggregate;
pub mod decimal;
pub mod extract;
pub mod fanout;
pub mod image;
pub mod order;
pub mod quantity;
pub mod rank;
pub mod record;
pub mod report;
pub mod rollup;
pub mod text;
pub mod utils;
pub mod workload;
