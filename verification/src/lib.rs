//! Classic interview algorithms, each with a machine-checked contract.

pub mod kth_largest;
pub mod lru_cache;
pub mod num_islands;
pub mod three_sum;
pub mod longest_substring;
pub mod reverse_list;
pub mod reverse_k_group;
pub mod zigzag_level_order;
