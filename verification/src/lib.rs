//! Weighted median of a collection of weighted records, found by selection
//! instead of a full sort.
//!
//! The weighted median is the value at which the cumulative weight, taken in
//! ascending order of value, first reaches half of the total weight. It is
//! found as quickselect finds an order statistic: a window of the records is
//! partitioned around a pivot and narrowed to the side that holds half of the
//! weight, while the weight of what was left out is carried along in two
//! deltas. Records that share the pivot's value are folded into the pivot,
//! and a window that is already sorted is scanned once.
//!
//! Values are `i64` and weights are `u64`; weight sums are carried in `u128`,
//! which cannot overflow for any slice. A median that falls between two values
//! is reported as that pair, so no rounding takes place.

pub mod data;
pub mod median;
pub mod partition;
pub mod scan;
pub mod select;
pub mod sortedness;
pub mod weights;
mod window;

pub use data::{Data, Median, MedianError, Record};
pub use partition::{partition, partition_range, partition_without_duplicates};
pub use scan::{base_case, sorted_scan};
pub use select::{calculate, weighted_median};
pub use sortedness::{is_sorted, sortedness, Sortedness};
pub use weights::weight_sum;
