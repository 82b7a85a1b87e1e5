//! Verified core of the seekslam mapping stack: octree key arithmetic and
//! nodes, the grid geometry of the SegLink text detector, the scan graph
//! with its binary record format, and the Model Context Protocol data types.

pub mod octree_key;
pub mod data_node;
pub mod model_context_protocol;
pub mod seglink_grid;
pub mod seglink_group;
pub mod scan_graph;
