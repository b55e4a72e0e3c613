//! A scalar reverse-mode automatic-differentiation engine and a small
//! neural-network layer built on it.
//!
//! The computation graph lives in an arena ([`graph::Graph`]) whose nodes
//! refer to their operands by index; the index is the node's identity.
//! Every constructor appends a node and states, as a [`graph::Term`], the
//! expression the new node denotes. [`topo::backward_order`] yields the order
//! in which the backward pass must visit the nodes: each reachable node
//! exactly once, every consumer before each of its operands. Numerical
//! evaluation is left to the caller, which holds a value and a gradient per
//! node next to the arena.
//!
//! A network ([`nn::MultiLayerPerceptron`]) names its parameters by ids
//! `0 .. n`; a training step starts a fresh arena whose first `n` leaves are
//! the parameters, so the parameter enumeration, optimizer state and saved
//! weights ([`persist`]) all line up position by position.

pub mod op;
pub mod graph;
pub mod ops;
pub mod topo;
pub mod nn;
pub mod loss;
pub mod functional;
pub mod persist;
pub mod metrics;

pub use op::{ActvFn, Op};
