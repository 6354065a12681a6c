//! Graph embeddings by random walks: the graph and its walk sampler, the
//! Huffman tree that encodes every node as a path of binary decisions, and the
//! plan of updates that a training epoch performs.
pub mod edge_list;
pub mod graph;
pub mod huffman_tree;
pub mod leaf_order;
pub mod merging;
pub mod parent_pass;
pub mod trainer;
pub mod tree_model;
pub mod tree_paths;
