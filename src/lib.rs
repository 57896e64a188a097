pub mod contraction_laws;
pub mod cut;
pub mod ford_fulkerson;
pub mod graph;
pub mod important_cut;
pub mod max_flow;
pub mod naive;
pub mod node;
pub mod path_bounds;
pub mod path_residual;

pub use cut::{Cut, CutError, ImportantCut};
pub use graph::{ResidualGraph, UnGraph};
pub use important_cut::important_cuts;
pub use naive::{filter_important_cuts, generate_cuts};
pub use node::{NodeData, NodeType};
pub use path_residual::{IndexMapping, Path};
