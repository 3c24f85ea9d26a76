//! The collections and algorithms, one module each. `graph_theory`,
//! `search_order`, `forest`, `order`, `sort_order` and `indexing` hold the
//! definitions and lemmas that the contracts of the others are stated in.

pub mod array_stack;
pub mod binary_search_tree;
pub mod connectivity_quick_find;
pub mod connectivity_quick_union;
pub mod connectivity_quick_union_improved;
pub mod directed_graph;
pub mod forest;
pub mod graph_search;
pub mod graph_theory;
pub mod indexing;
pub mod linked_list_queue;
pub mod linked_list_stack;
pub mod llrb_tree;
pub mod order;
pub mod priority_queue;
pub mod search_order;
pub mod separate_chainining_hash_table;
pub mod sort_order;
pub mod sorting;
pub mod undirected_graph;
