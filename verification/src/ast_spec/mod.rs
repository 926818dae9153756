//! A JSON syntax tree whose nodes are stored in a node map and refer to their children by
//! reference, rather than directly.

pub mod json;
pub mod test_json;
pub mod vec_node_map;
