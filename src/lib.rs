//! Dot-bracket-plus notation for RNA secondary structures: parsing into a
//! pair table and decomposition of that table into an ordered tree of loops,
//! together with the integer bookkeeping that a circular layout of the loops
//! relies on: the walk around each loop, its bonds and neighbours, the order
//! in which loops are placed, and strand boundaries.

pub mod types;
pub mod parser;
pub mod loops;
pub mod elements;
pub mod strands;
pub mod svg;
pub mod placement;
pub mod backbone;
pub mod tree;

pub use elements::{collect_elements, find_neighbor_loop, loop_has_unpaired, Elem};
pub use loops::decompose;
pub use parser::parse;
pub use types::{LoopInfo, PairTable};
