//! Classic data structures and algorithms with machine-checked contracts:
//! graphs and the searches over them, stacks, queues, search trees,
//! union-find, a priority queue, a hash table and sorting.

pub mod algorithms;
