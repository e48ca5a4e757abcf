//! Algorithms on graphs.

pub mod dfs;
pub mod postorder;
pub mod postorder_laws;
pub mod preorder;
pub mod preorder_laws;
pub mod walks;
