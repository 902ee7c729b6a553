//! The nested operation tree and the error kinds of the pipeline.
//!
//! [`Op`] is the executable tree: a sequence of operation nodes where a
//! loop node owns its fully resolved body. [`OpS`] is its mathematical
//! model, with unbounded counts and ghost sequences, and is what every
//! contract in this crate speaks of; [`view_op`] and [`view_ops`] map the
//! executable tree to the model.

use vstd::prelude::*;

verus! {

/// The error kinds a pipeline stage can surface.
#[derive(Clone, Copy, Debug, PartialEq, Eq, Structural)]
pub enum BfError {
    /// Malformed bracket nesting: an unmatched loop-open or loop-close in
    /// the source. Surfaced by the structural parser, the peephole
    /// optimizer and the linear compiler; no legal jump address exists.
    ProgramMalformed,
    /// The fuel bound handed to an execution engine ran out before the
    /// program terminated. Running again with more fuel makes progress on
    /// any terminating program; a non-terminating program exceeds every
    /// bound.
    OutOfFuel,
}

/// One node of the executable nested operation tree. Move and arithmetic
/// nodes carry a fused run count; a loop node owns its body.
pub enum Op {
    /// Move the data pointer forward by the given count.
    Fwd(usize),
    /// Move the data pointer backward by the given count.
    Bwd(usize),
    /// Add the given count to the current cell, modulo 256.
    Inc(u8),
    /// Subtract the given count from the current cell, modulo 256.
    Dec(u8),
    /// Write the current cell to the output.
    Out,
    /// Read one byte of runtime input into the current cell.
    In,
    /// Repeat the body while the current cell is nonzero.
    Loop(Vec<Op>),
}

/// The mathematical model of an operation node.
pub enum OpS {
    /// Move the data pointer forward by the given count.
    Fwd(nat),
    /// Move the data pointer backward by the given count.
    Bwd(nat),
    /// Add the given count to the current cell, modulo 256.
    Inc(u8),
    /// Subtract the given count from the current cell, modulo 256.
    Dec(u8),
    /// Write the current cell to the output.
    Out,
    /// Read one byte of runtime input into the current cell.
    In,
    /// Repeat the body while the current cell is nonzero.
    Loop(Seq<OpS>),
}

/// The model of one executable node.
pub open spec fn view_op(op: Op) -> OpS
    decreases op,
{
    match op {
        Op::Fwd(n) => OpS::Fwd(n as nat),
        Op::Bwd(n) => OpS::Bwd(n as nat),
        Op::Inc(n) => OpS::Inc(n),
        Op::Dec(n) => OpS::Dec(n),
        Op::Out => OpS::Out,
        Op::In => OpS::In,
        Op::Loop(body) => OpS::Loop(view_ops(body@)),
    }
}

/// The model of a sequence of executable nodes, element by element.
pub open spec fn view_ops(ops: Seq<Op>) -> Seq<OpS>
    decreases ops,
{
    if ops.len() == 0 {
        Seq::empty()
    } else {
        seq![view_op(ops[0])] + view_ops(ops.subrange(1, ops.len() as int))
    }
}

/// `view_ops` maps element by element: same length, and the model of the
/// element at each index.
pub proof fn lemma_view_ops_index(ops: Seq<Op>)
    ensures
        view_ops(ops).len() == ops.len(),
        forall|i: int| 0 <= i < ops.len() ==> view_ops(ops)[i] == view_op(ops[i]),
    decreases ops.len(),
{
    if ops.len() == 0 {
    } else {
        lemma_view_ops_index(ops.subrange(1, ops.len() as int));
        assert(forall|i: int|
            1 <= i < ops.len() ==> ops.subrange(1, ops.len() as int)[i - 1] == ops[i]);
    }
}

/// Extending a sequence of nodes by one extends its model by one.
pub proof fn lemma_view_ops_push(ops: Seq<Op>, op: Op)
    ensures
        view_ops(ops.push(op)) == view_ops(ops).push(view_op(op)),
    decreases ops.len(),
{
    lemma_view_ops_index(ops.push(op));
    lemma_view_ops_index(ops);
    assert(view_ops(ops.push(op)) =~= view_ops(ops).push(view_op(op)));
}

} // verus!
