//! Traversal planning and replay: step records, the pacing timer, the step
//! player, and the depth-first and breadth-first planners.

pub mod algorithm;
pub mod bfs;
pub mod dfs;
pub mod timer;
