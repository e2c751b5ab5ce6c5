//! Point-cloud navigation: a balanced spatial index (k-d tree) over 3-D
//! points, nearest-point and radius queries, and an A*-style shortest-path
//! search over the implicit proximity graph, with a cached adjacency list
//! and a polled asynchronous job boundary.

pub mod gc;
pub mod geom;
pub mod job;
pub mod kdnavi;
pub mod kdtree;
pub mod node;
pub mod pq;
