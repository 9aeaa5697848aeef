pub mod bellman_ford;
pub mod depth_first_search;
pub mod dijkstra;
pub mod laws;
pub mod relaxation;
pub mod run;
pub mod walks;
pub mod weight;
