// Fork-join primitives over slices (elementwise passes, map, prefix sums,
// filter) and a family of quicksorts built on them, with contracts that say
// what each of them computes.

pub mod fork;
pub mod numeric;
pub mod order;
pub mod parallel_primitives;
pub mod slices;
pub mod sort;
pub mod sortedness;
pub mod utils;
