use vstd::prelude::*;

pub mod bfs;
pub mod graph;
pub mod grid;
pub mod layered;
pub mod multipartite;
pub mod options;
pub mod planar;
pub mod radial;
pub mod search;
pub mod shell;
pub mod splitmix;
pub mod text_order;
pub mod transform_locked;
pub mod traversal;
pub mod two_coloring;
