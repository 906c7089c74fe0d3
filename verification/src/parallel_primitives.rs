pub mod blocks;
pub mod elementwise;
pub mod filter;
pub mod scan;
pub mod transform;
pub mod tree_scan;

pub use blocks::blocked_for;
pub use elementwise::par_for;
pub use filter::par_filter;
pub use scan::{inline_pref_sums, par_inline_prefix_sums};
pub use transform::par_map;
pub use tree_scan::par_inline_prefix_sums_helper;
