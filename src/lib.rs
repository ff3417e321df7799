pub mod arena;
pub mod graph;
pub mod parser;

pub use arena::{Arena, SlotHandle};
pub use graph::{Digraph, Node, NodeHandle, TopologicalSortError};
pub use parser::{DigraphParser, GraphParseError};
