//! The mathematical model of the machine and the semantics of the nested
//! operation tree.
//!
//! A [`VmState`] holds the byte memory, the data pointer, the runtime
//! input not yet consumed, and the output produced so far. [`run_ops`]
//! gives the meaning of an operation sequence as a partial function on
//! states: fuel bounds the number of loop iterations (one unit per
//! iteration, at every nesting level), and `None` means the bound was
//! exhausted. All other behavior is total:
//!
//! - pointer moves wrap modulo the memory capacity;
//! - cell arithmetic wraps modulo 256;
//! - reading from exhausted input leaves the cell unchanged.

use crate::ast::OpS;
use vstd::arithmetic::div_mod::{
    lemma_add_mod_noop, lemma_add_mod_noop_right, lemma_small_mod,
};
use vstd::prelude::*;

verus! {

/// The fixed capacity of the machine's memory, in cells.
pub const MEM_SIZE: usize = 65536;

/// The model of the machine: memory, data pointer, remaining runtime
/// input, and the output produced so far.
pub struct VmState {
    /// The byte cells, always exactly [`MEM_SIZE`] of them.
    pub mem: Seq<u8>,
    /// The data pointer, always below [`MEM_SIZE`].
    pub ptr: nat,
    /// The runtime input bytes not yet consumed.
    pub input: Seq<u8>,
    /// The output bytes produced so far.
    pub output: Seq<u8>,
}

impl VmState {
    /// Well-formedness: full-capacity memory and an in-range pointer.
    pub open spec fn wf(self) -> bool {
        &&& self.mem.len() == MEM_SIZE
        &&& self.ptr < MEM_SIZE
    }

    /// The state at the start of a run: memory all zero, pointer at zero,
    /// no output yet.
    pub open spec fn init(input: Seq<u8>) -> VmState {
        VmState { mem: Seq::new(MEM_SIZE as nat, |i: int| 0u8), ptr: 0, input, output: Seq::empty() }
    }

    /// The cell at the data pointer.
    pub open spec fn cell(self) -> u8 {
        self.mem[self.ptr as int]
    }
}

/// The data pointer after moving forward `n` cells, wrapping at the
/// capacity.
pub open spec fn wrap_fwd(p: nat, n: nat) -> nat {
    (p + n) % (MEM_SIZE as nat)
}

/// The data pointer after moving backward `n` cells, wrapping at zero to
/// the far end of memory.
pub open spec fn wrap_bwd(p: nat, n: nat) -> nat {
    let k = n % (MEM_SIZE as nat);
    if k <= p {
        (p - k) as nat
    } else {
        ((p + MEM_SIZE as nat) - k) as nat
    }
}

/// A cell after adding `n`, modulo 256.
pub open spec fn cell_add(c: u8, n: u8) -> u8 {
    ((c + n) % 256) as u8
}

/// A cell after subtracting `n`, modulo 256.
pub open spec fn cell_sub(c: u8, n: u8) -> u8 {
    if n <= c {
        (c - n) as u8
    } else {
        ((c + 256) - n) as u8
    }
}

/// The meaning of one operation node on a state. `fuel` bounds loop
/// iterations; `None` means it ran out.
pub open spec fn run_op(op: OpS, st: VmState, fuel: nat) -> Option<VmState>
    decreases fuel, op,
{
    match op {
        OpS::Fwd(n) => Some(VmState { ptr: wrap_fwd(st.ptr, n), ..st }),
        OpS::Bwd(n) => Some(VmState { ptr: wrap_bwd(st.ptr, n), ..st }),
        OpS::Inc(n) => Some(
            VmState { mem: st.mem.update(st.ptr as int, cell_add(st.cell(), n)), ..st },
        ),
        OpS::Dec(n) => Some(
            VmState { mem: st.mem.update(st.ptr as int, cell_sub(st.cell(), n)), ..st },
        ),
        OpS::Out => Some(VmState { output: st.output.push(st.cell()), ..st }),
        OpS::In => if st.input.len() == 0 {
            Some(st)
        } else {
            Some(
                VmState {
                    mem: st.mem.update(st.ptr as int, st.input[0]),
                    input: st.input.subrange(1, st.input.len() as int),
                    ..st
                },
            )
        },
        OpS::Loop(body) => {
            if st.cell() == 0 {
                Some(st)
            } else if fuel == 0 {
                None
            } else {
                match run_ops(body, st, (fuel - 1) as nat) {
                    Some(st1) => run_op(op, st1, (fuel - 1) as nat),
                    None => None,
                }
            }
        },
    }
}

/// The meaning of an operation sequence: the nodes in order, each on the
/// state the previous one produced.
pub open spec fn run_ops(ops: Seq<OpS>, st: VmState, fuel: nat) -> Option<VmState>
    decreases fuel, ops,
{
    if ops.len() == 0 {
        Some(st)
    } else {
        match run_op(ops[0], st, fuel) {
            Some(st1) => run_ops(ops.subrange(1, ops.len() as int), st1, fuel),
            None => None,
        }
    }
}

/// Every operation preserves well-formedness of the state.
pub proof fn lemma_run_op_wf(op: OpS, st: VmState, fuel: nat)
    requires
        st.wf(),
    ensures
        run_op(op, st, fuel) matches Some(st1) ==> st1.wf(),
    decreases fuel, op,
{
    match op {
        OpS::Loop(body) => {
            if st.cell() == 0 {
            } else if fuel == 0 {
            } else {
                match run_ops(body, st, (fuel - 1) as nat) {
                    Some(st1) => {
                        lemma_run_ops_wf(body, st, (fuel - 1) as nat);
                        lemma_run_op_wf(op, st1, (fuel - 1) as nat);
                    },
                    None => {},
                }
            }
        },
        _ => {},
    }
}

/// Every operation sequence preserves well-formedness of the state.
pub proof fn lemma_run_ops_wf(ops: Seq<OpS>, st: VmState, fuel: nat)
    requires
        st.wf(),
    ensures
        run_ops(ops, st, fuel) matches Some(st1) ==> st1.wf(),
    decreases fuel, ops,
{
    if ops.len() == 0 {
    } else {
        lemma_run_op_wf(ops[0], st, fuel);
        match run_op(ops[0], st, fuel) {
            Some(st1) => {
                lemma_run_ops_wf(ops.subrange(1, ops.len() as int), st1, fuel);
            },
            None => {},
        }
    }
}

/// A cell after adding an arbitrary count, modulo 256.
pub open spec fn cell_add_n(c: u8, n: nat) -> u8 {
    ((c + n) % 256) as u8
}

/// Cell arithmetic wraps at 256: a run of `k` unit increments leaves
/// the checked cell at its starting value plus `k`, modulo 256, and
/// changes nothing else. In particular 256 consecutive increments bring
/// a cell back to where it began.
pub proof fn lemma_inc_run_wraps(k: nat, st: VmState, fuel: nat)
    requires
        st.wf(),
    ensures
        run_ops(Seq::new(k, |i: int| OpS::Inc(1)), st, fuel) == Some(
            VmState { mem: st.mem.update(st.ptr as int, cell_add_n(st.cell(), k)), ..st },
        ),
    decreases k,
{
    let ops = Seq::new(k, |i: int| OpS::Inc(1));
    if k == 0 {
        lemma_small_mod(st.cell() as nat, 256);
        assert(st.mem.update(st.ptr as int, cell_add_n(st.cell(), 0)) =~= st.mem);
    } else {
        let c = st.cell() as int;
        let st1 = VmState { mem: st.mem.update(st.ptr as int, cell_add(st.cell(), 1)), ..st };
        assert(run_op(ops[0], st, fuel) == Some(st1));
        assert(ops.subrange(1, k as int) =~= Seq::new((k - 1) as nat, |i: int| OpS::Inc(1)));
        lemma_inc_run_wraps((k - 1) as nat, st1, fuel);
        assert(st1.cell() == cell_add(st.cell(), 1));
        lemma_add_mod_noop(c + 1, k - 1, 256);
        lemma_add_mod_noop_right((c + 1) % 256, k - 1, 256);
        lemma_small_mod(st.cell() as nat, 256);
        assert(cell_add_n(st1.cell(), (k - 1) as nat) == cell_add_n(st.cell(), k));
        assert(st1.mem.update(st.ptr as int, cell_add_n(st1.cell(), (k - 1) as nat)) =~= st.mem.update(
            st.ptr as int,
            cell_add_n(st.cell(), k),
        ));
    }
}

/// A loop whose checked cell is zero on entry executes its body exactly
/// zero times: the state is unchanged, whatever the body would do.
pub proof fn lemma_loop_zero_iterations(body: Seq<OpS>, st: VmState, fuel: nat)
    requires
        st.cell() == 0,
    ensures
        run_op(OpS::Loop(body), st, fuel) == Some(st),
{
}

/// The canonical countdown loop — the body a single unit decrement —
/// executes its body exactly as many times as the checked cell's
/// starting value `N`: `N` units of fuel are necessary and sufficient,
/// the cell ends at zero, and nothing else changes.
pub proof fn lemma_loop_countdown(st: VmState, fuel: nat)
    requires
        st.wf(),
    ensures
        run_op(OpS::Loop(seq![OpS::Dec(1)]), st, fuel) == (if fuel >= st.cell() {
            Some(VmState { mem: st.mem.update(st.ptr as int, 0u8), ..st })
        } else {
            None
        }),
    decreases st.cell(),
{
    let body = seq![OpS::Dec(1)];
    if st.cell() == 0 {
        assert(st.mem.update(st.ptr as int, 0u8) =~= st.mem);
    } else if fuel == 0 {
    } else {
        let st1 = VmState { mem: st.mem.update(st.ptr as int, cell_sub(st.cell(), 1)), ..st };
        assert(cell_sub(st.cell(), 1) == st.cell() - 1);
        assert(body.len() == 1);
        assert(body[0] == OpS::Dec(1));
        assert(run_op(body[0], st, (fuel - 1) as nat) == Some(st1));
        assert(body.subrange(1, 1) =~= Seq::<OpS>::empty());
        assert(run_ops(Seq::<OpS>::empty(), st1, (fuel - 1) as nat) == Some(st1));
        assert(run_ops(body, st, (fuel - 1) as nat) == Some(st1));
        lemma_loop_countdown(st1, (fuel - 1) as nat);
        assert(st1.mem.update(st.ptr as int, 0u8) =~= st.mem.update(st.ptr as int, 0u8));
    }
}

/// Fuel is monotone for one operation: a result reached at some bound
/// is reached, unchanged, at every larger bound.
pub proof fn lemma_run_op_fuel_mono(op: OpS, st: VmState, f1: nat, f2: nat)
    requires
        f1 <= f2,
        run_op(op, st, f1) is Some,
    ensures
        run_op(op, st, f2) == run_op(op, st, f1),
    decreases f1, op,
{
    match op {
        OpS::Loop(body) => {
            if st.cell() == 0 {
            } else {
                lemma_run_ops_fuel_mono(body, st, (f1 - 1) as nat, (f2 - 1) as nat);
                match run_ops(body, st, (f1 - 1) as nat) {
                    Some(st1) => {
                        lemma_run_op_fuel_mono(op, st1, (f1 - 1) as nat, (f2 - 1) as nat);
                    },
                    None => {},
                }
            }
        },
        _ => {},
    }
}

/// Fuel is monotone for an operation sequence: a result reached at some
/// bound is reached, unchanged, at every larger bound. Running again
/// with more fuel can only turn an exhausted run into a completed one.
pub proof fn lemma_run_ops_fuel_mono(ops: Seq<OpS>, st: VmState, f1: nat, f2: nat)
    requires
        f1 <= f2,
        run_ops(ops, st, f1) is Some,
    ensures
        run_ops(ops, st, f2) == run_ops(ops, st, f1),
    decreases f1, ops,
{
    if ops.len() == 0 {
    } else {
        lemma_run_op_fuel_mono(ops[0], st, f1, f2);
        match run_op(ops[0], st, f1) {
            Some(st1) => {
                lemma_run_ops_fuel_mono(ops.subrange(1, ops.len() as int), st1, f1, f2);
            },
            None => {},
        }
    }
}

} // verus!
