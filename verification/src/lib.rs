//! Small algorithms and data structures, each with a machine-checked
//! contract.
//!
//! The centrepiece is [`btree::BTree`], an unbalanced binary search tree
//! whose operations are specified against the mathematical tree in
//! [`shape`]; what holds of them is proved in [`laws`]. The other modules
//! hold independent problems on arrays, strings, grids and numbers.
pub mod array;
pub mod bags;
pub mod bit;
pub mod btree;
pub mod calc;
pub mod deranged;
pub mod dynamic;
pub mod file;
pub mod geometry;
pub mod laws;
pub mod llist;
pub mod math;
pub mod matrix;
pub mod numbers;
pub mod order;
pub mod shape;
pub mod sorting;
pub mod string;
pub mod text;
pub mod tree_node;

pub use crate::bit::min_flips;
pub use crate::btree::{BTIterator, BTree};
pub use crate::calc::{parse, Node, Operator};
pub use crate::deranged::{is_deranged, longest_deranged};
pub use crate::dynamic::{bowling, coins, lcs, lis, parens, rod, subset_sum, Term};
pub use crate::file::PasswordRecord;
pub use crate::geometry::max_points_in_runs;
pub use crate::llist::{LLIterator, LList};
pub use crate::math::{largest_altitude, max_profit, max_value, summary_ranges};
pub use crate::matrix::{count_negatives, equal_pairs, Solution};
pub use crate::string::{
    anagram, char_occurrences, min_distance, next_greatest_letter, palindrome, permutations,
    reverse,
};
pub use crate::tree_node::{get_minimum_difference, max_level_sum, TreeNode};
