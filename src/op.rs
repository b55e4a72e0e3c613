use vstd::prelude::*;

verus! {

/// Activation functions a neuron may apply to its weighted sum.
#[derive(Debug, Clone, Copy, PartialEq, Eq, Structural)]
pub enum ActvFn {
    ReLU,
    LeakyReLU,
    Tanh,
    Sigmoid,
}

/// The operation that produced a node of the graph.
#[derive(Debug, Clone, Copy, PartialEq, Eq, Structural)]
pub enum Op {
    Add,
    Mul,
    Pow,
    Ln,
    Exp,
    ActvFn(ActvFn),
    /// A leaf whose value is held by the caller (an input or a parameter).
    Var,
    /// A leaf holding a constant known to the graph.
    Const,
}

/// Number of operands an operation takes.
pub open spec fn arity(op: Op) -> nat {
    match op {
        Op::Add | Op::Mul | Op::Pow => 2,
        Op::Ln | Op::Exp | Op::ActvFn(_) => 1,
        Op::Var | Op::Const => 0,
    }
}

/// The symbol shown for an operation when a graph is printed.
pub open spec fn symbol_of(op: Op) -> &'static str {
    match op {
        Op::Add => "+",
        Op::Mul => "*",
        Op::Pow => "^",
        Op::Ln => "ln",
        Op::Exp => "exp",
        Op::ActvFn(ActvFn::ReLU) => "ReLU",
        Op::ActvFn(ActvFn::LeakyReLU) => "LeakyReLU",
        Op::ActvFn(ActvFn::Tanh) => "tanh",
        Op::ActvFn(ActvFn::Sigmoid) => "σ",
        Op::Var | Op::Const => "",
    }
}

impl Op {
    /// The symbol shown for this operation when a graph is printed.
    pub fn symbol(&self) -> (r: &'static str)
        ensures
            r == symbol_of(*self),
    {
        match self {
            Op::Add => "+",
            Op::Mul => "*",
            Op::Pow => "^",
            Op::Ln => "ln",
            Op::Exp => "exp",
            Op::ActvFn(ActvFn::ReLU) => "ReLU",
            Op::ActvFn(ActvFn::LeakyReLU) => "LeakyReLU",
            Op::ActvFn(ActvFn::Tanh) => "tanh",
            Op::ActvFn(ActvFn::Sigmoid) => "σ",
            Op::Var | Op::Const => "",
        }
    }

    /// Number of operands this operation takes.
    pub fn arity(&self) -> (r: usize)
        ensures
            r == arity(*self),
    {
        match self {
            Op::Add | Op::Mul | Op::Pow => 2,
            Op::Ln | Op::Exp | Op::ActvFn(_) => 1,
            Op::Var | Op::Const => 0,
        }
    }
}

} // verus!
