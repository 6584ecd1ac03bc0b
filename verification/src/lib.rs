pub mod graph;
pub mod graph_input;
pub mod hash_set;
pub mod hash_set2;
pub mod linked_list;
pub mod old_graph;
pub mod primes;
pub mod set_item;
pub mod stack;
pub mod trie;
