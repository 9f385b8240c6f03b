//! A reverse-mode automatic-differentiation engine over vectors of
//! single-precision scalars, carried as bit patterns.
//!
//! A graph of elementary operations is built bottom-up; every node computes
//! its forward value eagerly at construction. A backward pass over one chosen
//! output node then accumulates, exactly once per node, the gradient of that
//! output with respect to every node reachable from it.
pub mod scalar;
pub mod vecops;
pub mod node;
pub mod ops;
pub mod graph;
pub mod laws;

pub use graph::Graph;
pub use node::{ANode, IdAllocator, NodeView, OpKind};
pub use ops::{
    AddN, BulkSum, Constant, Cos, Divide, Exp, Ln, Multiply, Negate, Power, Sin, Subtract,
    SumVec, Variable,
};
