//! The peephole optimizer: run fusion over the nested operation tree.
//!
//! Consecutive identical pointer-move or cell-arithmetic operations are
//! fused into single counted operations — increment and decrement counts
//! modulo the cell width, move counts as plain unsigned magnitudes — and
//! loop bodies are fused recursively. [`optimizing_parse`] parses and
//! then fuses, so its result is the fusion of the structural parse.
//!
//! The transform is proved semantically transparent ([`lemma_fuse_transparent`]):
//! the fused tree means exactly what the original tree means, in every
//! state and at every fuel bound. It is also proved idempotent
//! ([`lemma_fuse_idempotent`]): fusing a second time changes nothing.

use crate::ast::{lemma_view_ops_index, view_op, view_ops, BfError, Op, OpS};
use crate::parser::{parse, parse_toks};
use crate::sem::{cell_add, cell_sub, lemma_run_op_wf, lemma_run_ops_wf, run_op, run_ops,
    wrap_bwd, wrap_fwd, VmState, MEM_SIZE};
use crate::token::Tok;
use vstd::arithmetic::div_mod::{
    lemma_add_mod_noop, lemma_add_mod_noop_right, lemma_mod_add_multiples_vanish,
    lemma_mod_bound, lemma_small_mod, lemma_sub_mod_noop, lemma_sub_mod_noop_right,
};
use vstd::prelude::*;
use vstd::slice::slice_subrange;

verus! {

/// Whether two adjacent operations form a fusible run: the same kind
/// among the four counted kinds, and for pointer moves a fused count
/// that still fits the machine word.
pub open spec fn mergeable(a: OpS, b: OpS) -> bool {
    match (a, b) {
        (OpS::Fwd(x), OpS::Fwd(y)) => x + y <= usize::MAX,
        (OpS::Bwd(x), OpS::Bwd(y)) => x + y <= usize::MAX,
        (OpS::Inc(_), OpS::Inc(_)) => true,
        (OpS::Dec(_), OpS::Dec(_)) => true,
        _ => false,
    }
}

/// The single counted operation a fusible pair fuses into.
pub open spec fn merge(a: OpS, b: OpS) -> OpS {
    match (a, b) {
        (OpS::Fwd(x), OpS::Fwd(y)) => OpS::Fwd(x + y),
        (OpS::Bwd(x), OpS::Bwd(y)) => OpS::Bwd(x + y),
        (OpS::Inc(x), OpS::Inc(y)) => OpS::Inc((((x + y) as int) % 256) as u8),
        (OpS::Dec(x), OpS::Dec(y)) => OpS::Dec((((x + y) as int) % 256) as u8),
        _ => a,
    }
}

/// Run fusion of one node: fuse the body of a loop, leave the rest.
pub open spec fn fuse_op(op: OpS) -> OpS
    decreases op,
{
    match op {
        OpS::Loop(body) => OpS::Loop(fuse(body)),
        _ => op,
    }
}

/// Run fusion of a sequence: a right-to-left fold that fuses each node
/// into the head of the fused tail whenever the pair is fusible.
pub open spec fn fuse(ops: Seq<OpS>) -> Seq<OpS>
    decreases ops,
{
    if ops.len() == 0 {
        Seq::empty()
    } else {
        let rest = fuse(ops.subrange(1, ops.len() as int));
        let a = fuse_op(ops[0]);
        if rest.len() > 0 && mergeable(a, rest[0]) {
            seq![merge(a, rest[0])] + rest.subrange(1, rest.len() as int)
        } else {
            seq![a] + rest
        }
    }
}

/// A node is fully fused when every loop body under it is.
pub open spec fn fused_op(op: OpS) -> bool
    decreases op,
{
    match op {
        OpS::Loop(body) => fused(body),
        _ => true,
    }
}

/// A sequence is fully fused: no adjacent fusible pair remains, and
/// every loop body is fully fused.
pub open spec fn fused(ops: Seq<OpS>) -> bool
    decreases ops,
{
    if ops.len() == 0 {
        true
    } else {
        &&& fused_op(ops[0])
        &&& (ops.len() > 1 ==> !mergeable(ops[0], ops[1]))
        &&& fused(ops.subrange(1, ops.len() as int))
    }
}

/// Moving backward lands on the Euclidean remainder of `p - n`.
proof fn lemma_wrap_bwd_alt(p: nat, n: nat)
    requires
        p < MEM_SIZE,
    ensures
        wrap_bwd(p, n) as int == (p - n) % (MEM_SIZE as int),
{
    let m = MEM_SIZE as int;
    let k = n % (MEM_SIZE as nat);
    lemma_sub_mod_noop_right(p as int, n as int, m);
    assert((p - k) % m == (p - n) % m);
    if k <= p {
        lemma_small_mod((p - k) as nat, MEM_SIZE as nat);
    } else {
        lemma_mod_add_multiples_vanish(p - k, m);
        lemma_small_mod((p + MEM_SIZE - k) as nat, MEM_SIZE as nat);
    }
}

/// Moving forward lands on the Euclidean remainder of `p + n`.
proof fn lemma_wrap_fwd_alt(p: nat, n: nat)
    ensures
        wrap_fwd(p, n) as int == (p as int + n as int) % (MEM_SIZE as int),
{
}

/// Running a fusible pair is running its fusion: the two operations
/// always succeed and compose to the single counted operation.
proof fn lemma_merge_runs(a: OpS, b: OpS, st: VmState, fuel: nat)
    requires
        st.wf(),
        mergeable(a, b),
    ensures
        run_op(a, st, fuel) matches Some(st1) && run_op(b, st1, fuel) == run_op(
            merge(a, b),
            st,
            fuel,
        ),
{
    let m = MEM_SIZE as int;
    match (a, b) {
        (OpS::Fwd(x), OpS::Fwd(y)) => {
            let p = st.ptr;
            lemma_wrap_fwd_alt(p, x);
            lemma_wrap_fwd_alt(wrap_fwd(p, x), y);
            lemma_wrap_fwd_alt(p, (x + y) as nat);
            lemma_add_mod_noop(p as int + x as int, y as int, m);
            lemma_add_mod_noop_right((p + x) as int, y as int, m);
            lemma_add_mod_noop_right((p as int + x as int) % m, y as int, m);
            lemma_mod_bound(p as int + x as int, m);
        },
        (OpS::Bwd(x), OpS::Bwd(y)) => {
            let p = st.ptr;
            lemma_wrap_bwd_alt(p, x);
            lemma_mod_bound(p as int - x as int, m);
            lemma_wrap_bwd_alt(wrap_bwd(p, x), y);
            lemma_wrap_bwd_alt(p, (x + y) as nat);
            lemma_sub_mod_noop(p as int - x as int, y as int, m);
            lemma_sub_mod_noop_right((p - x) as int, y as int, m);
            lemma_sub_mod_noop_right((p as int - x as int) % m, y as int, m);
            lemma_small_mod(p, MEM_SIZE as nat);
        },
        (OpS::Inc(x), OpS::Inc(y)) => {
            let c = st.cell() as int;
            lemma_add_mod_noop(c + x, y as int, 256);
            lemma_add_mod_noop_right((c + x) as int, y as int, 256);
            lemma_add_mod_noop_right(((c + x) % 256) as int, y as int, 256);
            lemma_mod_bound(c + x, 256);
            lemma_small_mod(st.cell() as nat, 256);
            lemma_add_mod_noop_right(c, (x + y) as int, 256);
            assert(st.mem.update(st.ptr as int, cell_add(st.cell(), x)).update(
                st.ptr as int,
                cell_add(cell_add(st.cell(), x), y),
            ) =~= st.mem.update(st.ptr as int, cell_add(cell_add(st.cell(), x), y)));
        },
        (OpS::Dec(x), OpS::Dec(y)) => {
            let c = st.cell() as int;
            lemma_cell_sub_alt(st.cell(), x);
            lemma_cell_sub_alt(cell_sub(st.cell(), x), y);
            lemma_cell_sub_alt(st.cell(), (((x + y) as int) % 256) as u8);
            lemma_mod_bound(c - x, 256);
            lemma_sub_mod_noop(c - x, y as int, 256);
            lemma_sub_mod_noop_right((c - x) as int, y as int, 256);
            lemma_sub_mod_noop_right(((c - x) % 256) as int, y as int, 256);
            lemma_small_mod(st.cell() as nat, 256);
            lemma_mod_bound((x + y) as int, 256);
            lemma_sub_mod_noop_right(c, (x + y) as int, 256);
            assert(st.mem.update(st.ptr as int, cell_sub(st.cell(), x)).update(
                st.ptr as int,
                cell_sub(cell_sub(st.cell(), x), y),
            ) =~= st.mem.update(st.ptr as int, cell_sub(cell_sub(st.cell(), x), y)));
        },
        _ => {},
    }
}

/// Subtracting from a cell lands on the Euclidean remainder of `c - n`.
proof fn lemma_cell_sub_alt(c: u8, n: u8)
    ensures
        cell_sub(c, n) as int == (c - n) % 256,
{
    if n <= c {
        lemma_small_mod((c - n) as nat, 256);
    } else {
        lemma_mod_add_multiples_vanish(c - n, 256);
        lemma_small_mod(((c + 256) - n) as nat, 256);
    }
}

/// Run fusion, executably: returns the fused form of `ops`.
pub fn fuse_slice(ops: &[Op]) -> (r: Vec<Op>)
    ensures
        view_ops(r@) == fuse(view_ops(ops@)),
    decreases ops@,
{
    proof {
        lemma_view_ops_index(ops@);
    }
    if ops.len() == 0 {
        let r: Vec<Op> = Vec::new();
        return r;
    }
    let tail = slice_subrange(ops, 1, ops.len());
    let mut rest = fuse_slice(tail);
    proof {
        assert(view_ops(tail@) =~= view_ops(ops@).subrange(1, ops@.len() as int)) by {
            lemma_view_ops_index(tail@);
            assert(view_ops(tail@).len() == tail@.len());
            assert(forall|k: int|
                0 <= k < tail@.len() ==> view_ops(tail@)[k] == view_op(ops@[k + 1]));
            assert(forall|k: int|
                0 <= k < tail@.len() ==> view_ops(ops@).subrange(1, ops@.len() as int)[k]
                    == view_ops(ops@)[k + 1]);
        }
        lemma_view_ops_index(rest@);
    }
    let a: Op = match &ops[0] {
        Op::Fwd(x) => Op::Fwd(*x),
        Op::Bwd(x) => Op::Bwd(*x),
        Op::Inc(x) => Op::Inc(*x),
        Op::Dec(x) => Op::Dec(*x),
        Op::Out => Op::Out,
        Op::In => Op::In,
        Op::Loop(body) => {
            proof {
                assert(decreases_to!(ops@ => ops@[0]));
                assert(ops@[0] == Op::Loop(*body));
                assert(decreases_to!(ops@[0] => ops@[0]->Loop_0));
                assert(decreases_to!(*body => body@));
            }
            Op::Loop(fuse_slice(body.as_slice()))
        },
    };
    proof {
        assert(view_op(a) == fuse_op(view_op(ops@[0])));
    }
    if rest.len() > 0 {
        let merged: Option<Op> = match (&a, &rest[0]) {
            (Op::Fwd(x), Op::Fwd(y)) => if *x <= usize::MAX - *y {
                Some(Op::Fwd(*x + *y))
            } else {
                None
            },
            (Op::Bwd(x), Op::Bwd(y)) => if *x <= usize::MAX - *y {
                Some(Op::Bwd(*x + *y))
            } else {
                None
            },
            (Op::Inc(x), Op::Inc(y)) => Some(Op::Inc(x.wrapping_add(*y))),
            (Op::Dec(x), Op::Dec(y)) => Some(Op::Dec(x.wrapping_add(*y))),
            _ => None,
        };
        match merged {
            Some(fusedhead) => {
                let ghost rpre = rest@;
                proof {
                    assert(mergeable(view_op(a), view_ops(rpre)[0]));
                    assert(view_op(fusedhead) == merge(view_op(a), view_ops(rpre)[0]));
                }
                rest.set(0, fusedhead);
                proof {
                    lemma_view_ops_index(rest@);
                    assert(view_ops(rest@) =~= seq![
                        merge(fuse_op(view_op(ops@[0])), view_ops(rpre)[0]),
                    ] + view_ops(rpre).subrange(1, view_ops(rpre).len() as int));
                }
                return rest;
            },
            None => {
                proof {
                    assert(!mergeable(view_op(a), view_ops(rest@)[0]));
                }
                let ghost rpre = rest@;
                rest.insert(0, a);
                proof {
                    lemma_view_ops_index(rest@);
                    assert(view_ops(rest@) =~= seq![fuse_op(view_op(ops@[0]))] + view_ops(rpre));
                }
                return rest;
            },
        }
    } else {
        let ghost rpre = rest@;
        rest.insert(0, a);
        proof {
            lemma_view_ops_index(rest@);
            assert(view_ops(rest@) =~= seq![fuse_op(view_op(ops@[0]))] + view_ops(rpre));
        }
        return rest;
    }
}

/// The peephole optimizer: the structural parse of `tokens` with every
/// run fused — or `ProgramMalformed` exactly where the structural parser
/// fails.
pub fn optimizing_parse(tokens: &Vec<Tok>) -> (r: Result<Vec<Op>, BfError>)
    ensures
        match r {
            Ok(ops) => parse_toks(tokens@) matches Some(base) && view_ops(ops@) == fuse(base),
            Err(e) => e == BfError::ProgramMalformed && parse_toks(tokens@) is None,
        },
{
    match parse(tokens) {
        Ok(base) => Ok(fuse_slice(base.as_slice())),
        Err(e) => Err(e),
    }
}

/// The peephole optimizer is semantically transparent on one node: a
/// fused node means exactly what the original node means, in every
/// well-formed state and at every fuel bound.
pub proof fn lemma_fuse_op_transparent(op: OpS, st: VmState, fuel: nat)
    requires
        st.wf(),
    ensures
        run_op(fuse_op(op), st, fuel) == run_op(op, st, fuel),
    decreases fuel, op,
{
    match op {
        OpS::Loop(body) => {
            if st.cell() == 0 {
            } else if fuel == 0 {
            } else {
                lemma_fuse_transparent(body, st, (fuel - 1) as nat);
                match run_ops(body, st, (fuel - 1) as nat) {
                    Some(st1) => {
                        lemma_run_ops_wf(body, st, (fuel - 1) as nat);
                        lemma_fuse_op_transparent(op, st1, (fuel - 1) as nat);
                    },
                    None => {},
                }
            }
        },
        _ => {},
    }
}

/// The peephole optimizer is semantically transparent: the fused form
/// of an operation sequence produces the same final state — memory,
/// pointer, input and output — as the sequence itself, in every
/// well-formed state and at every fuel bound.
pub proof fn lemma_fuse_transparent(ops: Seq<OpS>, st: VmState, fuel: nat)
    requires
        st.wf(),
    ensures
        run_ops(fuse(ops), st, fuel) == run_ops(ops, st, fuel),
    decreases fuel, ops,
{
    if ops.len() == 0 {
    } else {
        let tail = ops.subrange(1, ops.len() as int);
        let rest = fuse(tail);
        let a = fuse_op(ops[0]);
        lemma_fuse_op_transparent(ops[0], st, fuel);
        match run_op(ops[0], st, fuel) {
            Some(st1) => {
                lemma_run_op_wf(ops[0], st, fuel);
                lemma_fuse_transparent(tail, st1, fuel);
                if rest.len() > 0 && mergeable(a, rest[0]) {
                    assert(a == ops[0]);
                    lemma_merge_runs(a, rest[0], st, fuel);
                    let fs = seq![merge(a, rest[0])] + rest.subrange(1, rest.len() as int);
                    assert(fuse(ops) == fs);
                    assert(fs[0] == merge(a, rest[0]));
                    assert(fs.subrange(1, fs.len() as int) =~= rest.subrange(
                        1,
                        rest.len() as int,
                    ));
                    match run_op(rest[0], st1, fuel) {
                        Some(st2) => {
                            assert(run_ops(fs, st, fuel) == run_ops(
                                rest.subrange(1, rest.len() as int),
                                st2,
                                fuel,
                            ));
                            assert(run_ops(rest, st1, fuel) == run_ops(
                                rest.subrange(1, rest.len() as int),
                                st2,
                                fuel,
                            ));
                        },
                        None => {
                            assert(run_ops(fs, st, fuel) is None);
                            assert(run_ops(rest, st1, fuel) is None);
                        },
                    }
                } else {
                    let fs = seq![a] + rest;
                    assert(fuse(ops) == fs);
                    assert(fs[0] == a);
                    assert(fs.subrange(1, fs.len() as int) =~= rest);
                    assert(run_op(a, st, fuel) == Some(st1));
                }
            },
            None => {
                if rest.len() > 0 && mergeable(a, rest[0]) {
                    assert(a == ops[0]);
                    lemma_merge_runs(a, rest[0], st, fuel);
                    assert(false);
                } else {
                    let fs = seq![a] + rest;
                    assert(fs[0] == a);
                    assert(run_op(a, st, fuel) is None);
                    assert(run_ops(fuse(ops), st, fuel) is None);
                }
            },
        }
    }
}

/// Fusing one node leaves it fully fused.
pub proof fn lemma_fuse_op_fused(op: OpS)
    ensures
        fused_op(fuse_op(op)),
    decreases op,
{
    match op {
        OpS::Loop(body) => {
            lemma_fuse_fused(body);
        },
        _ => {},
    }
}

/// The optimizer's output is fully fused: no adjacent fusible pair
/// remains anywhere in it.
pub proof fn lemma_fuse_fused(ops: Seq<OpS>)
    ensures
        fused(fuse(ops)),
    decreases ops,
{
    if ops.len() == 0 {
    } else {
        let tail = ops.subrange(1, ops.len() as int);
        let rest = fuse(tail);
        let a = fuse_op(ops[0]);
        lemma_fuse_fused(tail);
        lemma_fuse_op_fused(ops[0]);
        if rest.len() > 0 && mergeable(a, rest[0]) {
            let h = merge(a, rest[0]);
            let fs = seq![h] + rest.subrange(1, rest.len() as int);
            assert(fs[0] == h);
            assert(fs.subrange(1, fs.len() as int) =~= rest.subrange(1, rest.len() as int));
            assert(fused_op(h));
            if fs.len() > 1 {
                assert(fs[1] == rest[1]);
                assert(!mergeable(rest[0], rest[1]));
                assert(!mergeable(h, rest[1]));
            }
            assert(fused(rest.subrange(1, rest.len() as int)));
            assert(fused(fs));
        } else {
            let fs = seq![a] + rest;
            assert(fs[0] == a);
            assert(fs.subrange(1, fs.len() as int) =~= rest);
            if fs.len() > 1 {
                assert(fs[1] == rest[0]);
            }
            assert(fused(fs));
        }
    }
}

/// Fusing a fully fused node changes nothing.
pub proof fn lemma_fused_op_fixed(op: OpS)
    requires
        fused_op(op),
    ensures
        fuse_op(op) == op,
    decreases op,
{
    match op {
        OpS::Loop(body) => {
            lemma_fused_fixed(body);
        },
        _ => {},
    }
}

/// A fully fused sequence is a fixed point of the optimizer.
pub proof fn lemma_fused_fixed(ops: Seq<OpS>)
    requires
        fused(ops),
    ensures
        fuse(ops) == ops,
    decreases ops,
{
    if ops.len() == 0 {
        assert(fuse(ops) =~= ops);
    } else {
        let tail = ops.subrange(1, ops.len() as int);
        lemma_fused_fixed(tail);
        lemma_fused_op_fixed(ops[0]);
        let rest = fuse(tail);
        let a = fuse_op(ops[0]);
        if rest.len() > 0 && mergeable(a, rest[0]) {
            assert(rest[0] == ops[1]);
            assert(false);
        } else {
            assert(seq![a] + rest =~= ops);
        }
    }
}

/// Run fusion is idempotent: the optimizer's own output is a fixed
/// point, so running it a second time changes nothing.
pub proof fn lemma_fuse_idempotent(ops: Seq<OpS>)
    ensures
        fuse(fuse(ops)) == fuse(ops),
{
    lemma_fuse_fused(ops);
    lemma_fused_fixed(fuse(ops));
}

} // verus!
