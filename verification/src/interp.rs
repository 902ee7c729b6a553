//! The executable machine and the tree-walking execution engine.
//!
//! A [`Machine`] owns the fixed-size byte memory, the data pointer, the
//! runtime input (consumed one byte per read instruction) and the output
//! produced so far. [`run`] walks a nested operation tree and is proved
//! to realize exactly the semantics [`crate::sem::run_ops`] gives to its
//! model: fuel bounds the number of loop iterations, and the engine
//! reports [`BfError::OutOfFuel`] precisely when the semantics is
//! undefined at that bound.

use crate::ast::{lemma_view_ops_index, view_ops, BfError, Op, OpS};
use crate::sem::{run_op, run_ops, VmState, MEM_SIZE};
use vstd::prelude::*;

verus! {

/// The machine a program runs on: memory, data pointer, runtime input
/// with a read position, and the output sink.
pub struct Machine {
    /// The byte cells; always exactly [`MEM_SIZE`] of them.
    pub mem: Vec<u8>,
    /// The data pointer; always below [`MEM_SIZE`].
    pub ptr: usize,
    /// The runtime input handed to the machine up front.
    pub input: Vec<u8>,
    /// How many input bytes have been consumed.
    pub in_pos: usize,
    /// The output bytes produced so far.
    pub output: Vec<u8>,
}

impl View for Machine {
    type V = VmState;

    /// The mathematical state this machine realizes; the input view is
    /// what remains to be read.
    open spec fn view(&self) -> VmState {
        VmState {
            mem: self.mem@,
            ptr: self.ptr as nat,
            input: self.input@.subrange(self.in_pos as int, self.input@.len() as int),
            output: self.output@,
        }
    }
}

impl Machine {
    /// Well-formedness: full-capacity memory, in-range pointer, read
    /// position inside the input.
    pub open spec fn wf(self) -> bool {
        &&& self.mem@.len() == MEM_SIZE
        &&& self.ptr < MEM_SIZE
        &&& self.in_pos <= self.input@.len()
    }

    /// A fresh machine: memory all zero, pointer at zero, the given
    /// runtime input, no output.
    pub fn new(input: Vec<u8>) -> (m: Machine)
        ensures
            m.wf(),
            m@ == VmState::init(input@),
    {
        let mut mem: Vec<u8> = Vec::new();
        let mut i: usize = 0;
        while i < MEM_SIZE
            invariant
                i <= MEM_SIZE,
                mem@.len() == i,
                forall|k: int| 0 <= k < i ==> mem@[k] == 0u8,
            decreases MEM_SIZE - i,
        {
            mem.push(0u8);
            i = i + 1;
        }
        let m = Machine { mem, ptr: 0, input, in_pos: 0, output: Vec::new() };
        proof {
            assert(m@.mem =~= Seq::new(MEM_SIZE as nat, |k: int| 0u8));
            assert(m@.input =~= m.input@);
            assert(m@.output =~= Seq::<u8>::empty());
            assert(m@ =~= VmState::init(m.input@));
        }
        m
    }

    /// The output produced so far.
    pub fn output_bytes(&self) -> (r: &Vec<u8>)
        ensures
            r@ == self@.output,
    {
        &self.output
    }

    /// The data pointer.
    pub fn pointer(&self) -> (r: usize)
        ensures
            r as nat == self@.ptr,
    {
        self.ptr
    }

    /// The cell at the given address.
    pub fn cell_at(&self, i: usize) -> (r: u8)
        requires
            self.wf(),
            i < MEM_SIZE,
        ensures
            r == self@.mem[i as int],
    {
        self.mem[i]
    }
}

/// The tree-walking execution engine. Walks `ops` in order on `m`;
/// `fuel` bounds the number of loop iterations at every nesting level.
/// Returns `Ok` exactly when the semantics of the tree is defined at
/// this fuel bound, and then `m` holds exactly the state the semantics
/// prescribes; reports `OutOfFuel` exactly when it is not.
pub fn run(ops: &Vec<Op>, m: &mut Machine, fuel: u64) -> (r: Result<(), BfError>)
    requires
        old(m).wf(),
    ensures
        final(m).wf(),
        match r {
            Ok(_) => run_ops(view_ops(ops@), old(m)@, fuel as nat) == Some(final(m)@),
            Err(e) => e == BfError::OutOfFuel && run_ops(view_ops(ops@), old(m)@, fuel as nat)
                is None,
        },
    decreases ops@,
{
    let n = ops.len();
    proof {
        lemma_view_ops_index(ops@);
    }
    let mut i: usize = 0;
    proof {
        assert(view_ops(ops@).subrange(0, n as int) =~= view_ops(ops@));
    }
    while i < n
        invariant
            i <= n,
            n == ops@.len(),
            m.wf(),
            view_ops(ops@).len() == n,
            forall|k: int| 0 <= k < n ==> view_ops(ops@)[k] == crate::ast::view_op(ops@[k]),
            run_ops(view_ops(ops@), old(m)@, fuel as nat) == run_ops(
                view_ops(ops@).subrange(i as int, n as int),
                m@,
                fuel as nat,
            ),
        decreases n - i,
    {
        let ghost pre = m@;
        let ghost vops = view_ops(ops@);
        let ghost vop = view_ops(ops@)[i as int];
        proof {
            assert(vops.subrange(i as int, n as int)[0] == vop);
            assert(vops.subrange(i as int, n as int).subrange(
                1,
                vops.subrange(i as int, n as int).len() as int,
            ) =~= vops.subrange(i + 1, n as int));
        }
        match &ops[i] {
            Op::Fwd(k) => {
                let kk = *k % MEM_SIZE;
                m.ptr = (m.ptr + kk) % MEM_SIZE;
                proof {
                    vstd::arithmetic::div_mod::lemma_add_mod_noop(
                        pre.ptr as int,
                        *k as int,
                        MEM_SIZE as int,
                    );
                    vstd::arithmetic::div_mod::lemma_mod_self_0(MEM_SIZE as int);
                    vstd::arithmetic::div_mod::lemma_small_mod(pre.ptr, MEM_SIZE as nat);
                    assert(run_op(vop, pre, fuel as nat) == Some(m@));
                }
                i = i + 1;
            },
            Op::Bwd(k) => {
                let kk = *k % MEM_SIZE;
                if kk <= m.ptr {
                    m.ptr = m.ptr - kk;
                } else {
                    m.ptr = (m.ptr + MEM_SIZE) - kk;
                }
                proof {
                    assert(run_op(vop, pre, fuel as nat) == Some(m@));
                }
                i = i + 1;
            },
            Op::Inc(v) => {
                let c = m.mem[m.ptr];
                m.mem.set(m.ptr, c.wrapping_add(*v));
                proof {
                    assert(run_op(vop, pre, fuel as nat) == Some(m@));
                }
                i = i + 1;
            },
            Op::Dec(v) => {
                let c = m.mem[m.ptr];
                m.mem.set(m.ptr, c.wrapping_sub(*v));
                proof {
                    assert(run_op(vop, pre, fuel as nat) == Some(m@));
                }
                i = i + 1;
            },
            Op::Out => {
                let c = m.mem[m.ptr];
                m.output.push(c);
                proof {
                    assert(run_op(vop, pre, fuel as nat) == Some(m@));
                }
                i = i + 1;
            },
            Op::In => {
                if m.in_pos < m.input.len() {
                    let b = m.input[m.in_pos];
                    m.mem.set(m.ptr, b);
                    m.in_pos = m.in_pos + 1;
                    proof {
                        assert(pre.input[0] == b);
                        assert(m@.input =~= pre.input.subrange(1, pre.input.len() as int));
                        assert(run_op(vop, pre, fuel as nat) == Some(m@));
                    }
                } else {
                    proof {
                        assert(pre.input.len() == 0);
                        assert(run_op(vop, pre, fuel as nat) == Some(m@));
                    }
                }
                i = i + 1;
            },
            Op::Loop(body) => {
                let ghost bview = view_ops(body@);
                proof {
                    assert(vop == OpS::Loop(bview));
                }
                let mut f: u64 = fuel;
                while m.mem[m.ptr] != 0
                    invariant
                        m.wf(),
                        i < n,
                        n == ops@.len(),
                        vops == view_ops(ops@),
                        vops.len() == n,
                        vop == vops[i as int],
                        vop == OpS::Loop(bview),
                        bview == view_ops(body@),
                        ops@[i as int] == Op::Loop(*body),
                        vops.subrange(i as int, n as int)[0] == vop,
                        run_ops(vops, old(m)@, fuel as nat) == run_ops(
                            vops.subrange(i as int, n as int),
                            pre,
                            fuel as nat,
                        ),
                        run_op(vop, pre, fuel as nat) == run_op(vop, m@, f as nat),
                    decreases f,
                {
                    if f == 0 {
                        proof {
                            assert(run_op(vop, m@, 0) is None);
                            assert(run_ops(vops.subrange(i as int, n as int), pre, fuel as nat)
                                is None);
                        }
                        return Err(BfError::OutOfFuel);
                    }
                    f = f - 1;
                    let ghost at_iter = m@;
                    proof {
                        assert(ops@[i as int] == Op::Loop(*body));
                        assert(decreases_to!(ops@ => ops@[i as int]));
                        assert(decreases_to!(ops@[i as int] => ops@[i as int]->Loop_0));
                        assert(ops@[i as int]->Loop_0 == *body);
                        assert(decreases_to!(*body => body@));
                        assert(decreases_to!(ops@ => body@));
                    }
                    let res = run(body, m, f);
                    match res {
                        Ok(_) => {
                            proof {
                                assert(run_ops(bview, at_iter, f as nat) == Some(m@));
                                assert(run_op(vop, at_iter, (f + 1) as nat) == run_op(
                                    vop,
                                    m@,
                                    f as nat,
                                ));
                            }
                        },
                        Err(_) => {
                            proof {
                                assert(run_ops(bview, at_iter, f as nat) is None);
                                assert(run_op(vop, at_iter, (f + 1) as nat) is None);
                                assert(run_op(vop, pre, fuel as nat) is None);
                                assert(run_ops(vops.subrange(i as int, n as int), pre, fuel as nat)
                                    is None);
                            }
                            return Err(BfError::OutOfFuel);
                        },
                    }
                }
                proof {
                    assert(m@.cell() == 0);
                    assert(run_op(vop, m@, f as nat) == Some(m@));
                    assert(run_op(vop, pre, fuel as nat) == Some(m@));
                }
                i = i + 1;
            },
        }
    }
    proof {
        assert(view_ops(ops@).subrange(n as int, n as int) =~= Seq::<OpS>::empty());
    }
    Ok(())
}

} // verus!
