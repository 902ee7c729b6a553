//! The linear compiler and the flat execution engine.
//!
//! The compiler ([`compile`]) turns a token sequence into a flat
//! instruction array in which a loop-open carries the address one past
//! its matching loop-close (taken when the checked cell is zero) and a
//! loop-close carries the address of its matching loop-open, resolved by
//! the same counter-scan bracket resolver the structural parser uses.
//! Malformed bracket nesting surfaces [`BfError::ProgramMalformed`].
//!
//! [`run_flat`] is the program-counter-driven engine: a fetch-execute
//! loop proved to realize exactly the small-step semantics
//! [`run_flat_from`], with fuel bounding the number of executed
//! instructions.

use crate::ast::{BfError, OpS};
use crate::interp::Machine;
use crate::parser::{cons_parsed, find_close, lemma_scan_close_range, parse_toks, scan_close};
use crate::sem::{cell_add, cell_sub, run_op, run_ops, wrap_bwd, wrap_fwd, VmState, MEM_SIZE};
use crate::token::Tok;
use vstd::arithmetic::div_mod::lemma_small_mod;
use vstd::prelude::*;
use vstd::slice::slice_subrange;

verus! {

/// One instruction of the flat program. Bracket instructions carry
/// their resolved absolute jump target.
#[derive(Clone, Copy, Debug, PartialEq, Eq, Structural)]
pub enum Instr {
    /// Move the data pointer forward one cell.
    Fwd,
    /// Move the data pointer backward one cell.
    Bwd,
    /// Increment the current cell.
    Inc,
    /// Decrement the current cell.
    Dec,
    /// Write the current cell to the output.
    Out,
    /// Read one byte of runtime input into the current cell.
    In,
    /// Loop open: jump to the carried address — one past the matching
    /// close — when the current cell is zero, else fall through.
    Open(usize),
    /// Loop close: jump back to the carried address of the matching
    /// open, where the zero check is re-evaluated.
    Close(usize),
}

/// The token sequence with every sentinel dropped: what the compiler
/// actually lays out, one instruction per token.
pub open spec fn strip_nop(toks: Seq<Tok>) -> Seq<Tok>
    decreases toks.len(),
{
    if toks.len() == 0 {
        Seq::empty()
    } else if toks[0] == Tok::Nop {
        strip_nop(toks.subrange(1, toks.len() as int))
    } else {
        seq![toks[0]] + strip_nop(toks.subrange(1, toks.len() as int))
    }
}

/// Appending one token to the input appends at most one stripped token.
proof fn lemma_strip_nop_snoc(toks: Seq<Tok>, t: Tok)
    ensures
        strip_nop(toks.push(t)) == (if t == Tok::Nop {
            strip_nop(toks)
        } else {
            strip_nop(toks).push(t)
        }),
    decreases toks.len(),
{
    if toks.len() == 0 {
        assert(toks =~= Seq::<Tok>::empty());
        assert(toks.push(t)[0] == t);
        assert(toks.push(t).subrange(1, 1) =~= toks);
        if t != Tok::Nop {
            assert(seq![t] + strip_nop(toks) =~= strip_nop(toks).push(t));
        }
    } else {
        assert(toks.push(t)[0] == toks[0]);
        assert(toks.push(t).subrange(1, toks.len() + 1 as int) =~= toks.subrange(
            1,
            toks.len() as int,
        ).push(t));
        lemma_strip_nop_snoc(toks.subrange(1, toks.len() as int), t);
        if toks[0] != Tok::Nop && t != Tok::Nop {
            assert(seq![toks[0]] + strip_nop(toks.subrange(1, toks.len() as int)).push(t) =~= (
            seq![toks[0]] + strip_nop(toks.subrange(1, toks.len() as int))).push(t));
        }
    }
}

/// Nothing stripped is the sentinel.
proof fn lemma_strip_nop_symbols(toks: Seq<Tok>)
    ensures
        forall|i: int| 0 <= i < strip_nop(toks).len() ==> strip_nop(toks)[i] != Tok::Nop,
    decreases toks.len(),
{
    if toks.len() == 0 {
    } else {
        lemma_strip_nop_symbols(toks.subrange(1, toks.len() as int));
        if toks[0] != Tok::Nop {
            assert(forall|i: int|
                1 <= i < strip_nop(toks).len() ==> strip_nop(toks)[i] == strip_nop(
                    toks.subrange(1, toks.len() as int),
                )[i - 1]);
        }
    }
}

/// The index of the loop-open that brings the nesting counter from
/// `depth` down to zero, scanning `toks` backward from `i`; `None` if
/// the scan runs off the front.
pub open spec fn scan_open(toks: Seq<Tok>, i: int, depth: nat) -> Option<nat>
    decreases i + 1,
    when i >= -1
{
    if i < 0 {
        None
    } else if i >= toks.len() {
        None
    } else if toks[i] == Tok::Open {
        if depth <= 1 {
            Some(i as nat)
        } else {
            scan_open(toks, i - 1, (depth - 1) as nat)
        }
    } else if toks[i] == Tok::Close {
        scan_open(toks, i - 1, depth + 1)
    } else {
        scan_open(toks, i - 1, depth)
    }
}

/// A successful backward scan lands on a loop-open within bounds.
pub proof fn lemma_scan_open_range(toks: Seq<Tok>, i: int, depth: nat)
    requires
        i >= -1,
    ensures
        scan_open(toks, i, depth) matches Some(j) ==> j <= i && j < toks.len() && toks[j as int]
            == Tok::Open,
    decreases i + 1,
{
    if i < 0 || i >= toks.len() {
    } else if toks[i] == Tok::Open {
        if depth <= 1 {
        } else {
            lemma_scan_open_range(toks, i - 1, (depth - 1) as nat);
        }
    } else if toks[i] == Tok::Close {
        lemma_scan_open_range(toks, i - 1, depth + 1);
    } else {
        lemma_scan_open_range(toks, i - 1, depth);
    }
}

/// The jump target a loop-open at `i` carries: one past its matching
/// loop-close.
pub open spec fn open_target(ts: Seq<Tok>, i: int) -> Option<nat> {
    match scan_close(ts.subrange(i, ts.len() as int), 1, 1) {
        Some(jr) => Some((i + jr + 1) as nat),
        None => None,
    }
}

/// The jump target a loop-close at `i` carries: its matching loop-open.
pub open spec fn close_target(ts: Seq<Tok>, i: int) -> Option<nat> {
    scan_open(ts, i - 1, 1)
}

/// The instruction `ins`, laid out at `i`, agrees with the token at
/// `i`, including the resolved jump target of a bracket.
pub open spec fn instr_matches_at(ts: Seq<Tok>, ins: Instr, i: int) -> bool {
    match ts[i] {
        Tok::Fwd => ins == Instr::Fwd,
        Tok::Bwd => ins == Instr::Bwd,
        Tok::Inc => ins == Instr::Inc,
        Tok::Dec => ins == Instr::Dec,
        Tok::Out => ins == Instr::Out,
        Tok::In => ins == Instr::In,
        Tok::Open => open_target(ts, i) matches Some(t) && ins == Instr::Open(t as usize),
        Tok::Close => close_target(ts, i) matches Some(t) && ins == Instr::Close(t as usize),
        Tok::Nop => false,
    }
}

/// The instruction laid out at `i` agrees with the token at `i`.
pub open spec fn instr_matches(ts: Seq<Tok>, prog: Seq<Instr>, i: int) -> bool {
    instr_matches_at(ts, prog[i], i)
}

/// A flat program compiled from `ts`: one instruction per token, each
/// with its resolved target.
pub open spec fn compiled(ts: Seq<Tok>, prog: Seq<Instr>) -> bool {
    &&& prog.len() == ts.len()
    &&& forall|i: int| 0 <= i < ts.len() ==> instr_matches(ts, prog, i)
}

/// Every bracket in `ts` has a match to resolve to.
pub open spec fn compilable(ts: Seq<Tok>) -> bool {
    &&& forall|i: int| 0 <= i < ts.len() && ts[i] == Tok::Open ==> open_target(ts, i) is Some
    &&& forall|i: int| 0 <= i < ts.len() && ts[i] == Tok::Close ==> close_target(ts, i) is Some
}

/// The backward bracket resolver: `toks[close]` is a loop-close; scan
/// backward with a nesting counter and return the index of the loop-open
/// that balances it, or `ProgramMalformed` if the counter never returns
/// to zero.
pub fn find_open(toks: &[Tok], close: usize) -> (r: Result<usize, BfError>)
    requires
        close < toks@.len(),
        toks@[close as int] == Tok::Close,
    ensures
        match r {
            Ok(j) => scan_open(toks@, close - 1, 1) == Some(j as nat) && j < close,
            Err(e) => e == BfError::ProgramMalformed && scan_open(toks@, close - 1, 1) is None,
        },
{
    let mut i: usize = close;
    let mut depth: usize = 1;
    while i > 0
        invariant
            i <= close,
            close < toks@.len(),
            1 <= depth,
            depth <= close - i + 1,
            scan_open(toks@, close - 1, 1) == scan_open(toks@, i - 1, depth as nat),
        decreases i,
    {
        let t = toks[i - 1];
        if t == Tok::Open {
            if depth == 1 {
                proof {
                    lemma_scan_open_range(toks@, close - 1, 1);
                }
                return Ok(i - 1);
            }
            depth = depth - 1;
        } else if t == Tok::Close {
            depth = depth + 1;
        }
        i = i - 1;
    }
    Err(BfError::ProgramMalformed)
}

/// The linear compiler. Drops the sentinel, then lays out one
/// instruction per token, resolving for every loop-open the address one
/// past its matching loop-close and for every loop-close the address of
/// its matching loop-open; surfaces `ProgramMalformed` if any bracket
/// has no match.
pub fn compile(tokens: &Vec<Tok>) -> (r: Result<Vec<Instr>, BfError>)
    ensures
        match r {
            Ok(prog) => compiled(strip_nop(tokens@), prog@),
            Err(e) => e == BfError::ProgramMalformed && !compilable(strip_nop(tokens@)),
        },
{
    let mut ts: Vec<Tok> = Vec::new();
    let n0 = tokens.len();
    let mut i: usize = 0;
    while i < n0
        invariant
            i <= n0,
            n0 == tokens@.len(),
            ts@ == strip_nop(tokens@.subrange(0, i as int)),
        decreases n0 - i,
    {
        let t = tokens[i];
        if t != Tok::Nop {
            ts.push(t);
        }
        proof {
            assert(tokens@.subrange(0, i + 1 as int) =~= tokens@.subrange(0, i as int).push(
                tokens@[i as int],
            ));
            lemma_strip_nop_snoc(tokens@.subrange(0, i as int), tokens@[i as int]);
        }
        i = i + 1;
    }
    proof {
        assert(tokens@.subrange(0, n0 as int) =~= tokens@);
        lemma_strip_nop_symbols(tokens@);
    }
    let n = ts.len();
    let mut prog: Vec<Instr> = Vec::new();
    let mut j: usize = 0;
    while j < n
        invariant
            j <= n,
            n == ts@.len(),
            ts@ == strip_nop(tokens@),
            forall|k: int| 0 <= k < n ==> ts@[k] != Tok::Nop,
            prog@.len() == j,
            forall|k: int| 0 <= k < j ==> instr_matches_at(ts@, #[trigger] prog@[k], k),
        decreases n - j,
    {
        let t = ts[j];
        match t {
            Tok::Fwd => {
                prog.push(Instr::Fwd);
            },
            Tok::Bwd => {
                prog.push(Instr::Bwd);
            },
            Tok::Inc => {
                prog.push(Instr::Inc);
            },
            Tok::Dec => {
                prog.push(Instr::Dec);
            },
            Tok::Out => {
                prog.push(Instr::Out);
            },
            Tok::In => {
                prog.push(Instr::In);
            },
            Tok::Open => {
                let window = slice_subrange(ts.as_slice(), j, n);
                match find_close(window) {
                    Ok(jr) => {
                        prog.push(Instr::Open(j + jr + 1));
                        proof {
                            assert(window@ =~= ts@.subrange(j as int, n as int));
                            assert(open_target(ts@, j as int) == Some((j + jr + 1) as nat));
                        }
                    },
                    Err(_) => {
                        proof {
                            assert(window@ =~= ts@.subrange(j as int, n as int));
                            assert(open_target(ts@, j as int) is None);
                        }
                        return Err(BfError::ProgramMalformed);
                    },
                }
            },
            Tok::Close => {
                match find_open(ts.as_slice(), j) {
                    Ok(k) => {
                        prog.push(Instr::Close(k));
                        proof {
                            assert(close_target(ts@, j as int) == Some(k as nat));
                        }
                    },
                    Err(_) => {
                        proof {
                            assert(close_target(ts@, j as int) is None);
                        }
                        return Err(BfError::ProgramMalformed);
                    },
                }
            },
            Tok::Nop => {
                proof {
                    assert(false);
                }
            },
        }
        proof {
            assert(instr_matches_at(ts@, prog@[j as int], j as int));
        }
        j = j + 1;
    }
    Ok(prog)
}

/// The small-step semantics of a flat program from program counter `pc`:
/// a fetch-execute chain in which `fuel` bounds the number of executed
/// instructions and `None` means the bound was exhausted. Execution
/// halts normally when the program counter reaches the program length.
pub open spec fn run_flat_from(prog: Seq<Instr>, pc: nat, st: VmState, fuel: nat) -> Option<
    VmState,
>
    decreases fuel,
{
    if pc >= prog.len() {
        Some(st)
    } else if fuel == 0 {
        None
    } else {
        let f2 = (fuel - 1) as nat;
        match prog[pc as int] {
            Instr::Fwd => run_flat_from(
                prog,
                pc + 1,
                VmState { ptr: wrap_fwd(st.ptr, 1), ..st },
                f2,
            ),
            Instr::Bwd => run_flat_from(
                prog,
                pc + 1,
                VmState { ptr: wrap_bwd(st.ptr, 1), ..st },
                f2,
            ),
            Instr::Inc => run_flat_from(
                prog,
                pc + 1,
                VmState { mem: st.mem.update(st.ptr as int, cell_add(st.cell(), 1)), ..st },
                f2,
            ),
            Instr::Dec => run_flat_from(
                prog,
                pc + 1,
                VmState { mem: st.mem.update(st.ptr as int, cell_sub(st.cell(), 1)), ..st },
                f2,
            ),
            Instr::Out => run_flat_from(
                prog,
                pc + 1,
                VmState { output: st.output.push(st.cell()), ..st },
                f2,
            ),
            Instr::In => if st.input.len() == 0 {
                run_flat_from(prog, pc + 1, st, f2)
            } else {
                run_flat_from(
                    prog,
                    pc + 1,
                    VmState {
                        mem: st.mem.update(st.ptr as int, st.input[0]),
                        input: st.input.subrange(1, st.input.len() as int),
                        ..st
                    },
                    f2,
                )
            },
            Instr::Open(t) => if st.cell() == 0 {
                run_flat_from(prog, t as nat, st, f2)
            } else {
                run_flat_from(prog, pc + 1, st, f2)
            },
            Instr::Close(t) => run_flat_from(prog, t as nat, st, f2),
        }
    }
}

/// The flat execution engine: a fetch-execute loop over the compiled
/// program. `fuel` bounds the number of executed instructions. Returns
/// `Ok` exactly when the small-step semantics reaches the program end at
/// this bound, and then `m` holds exactly the state it prescribes;
/// reports `OutOfFuel` exactly when the bound runs out first.
pub fn run_flat(prog: &Vec<Instr>, m: &mut Machine, fuel: u64) -> (r: Result<(), BfError>)
    requires
        old(m).wf(),
    ensures
        final(m).wf(),
        match r {
            Ok(_) => run_flat_from(prog@, 0, old(m)@, fuel as nat) == Some(final(m)@),
            Err(e) => e == BfError::OutOfFuel && run_flat_from(prog@, 0, old(m)@, fuel as nat)
                is None,
        },
{
    let mut pc: usize = 0;
    let mut f: u64 = fuel;
    while pc < prog.len()
        invariant
            m.wf(),
            run_flat_from(prog@, 0, old(m)@, fuel as nat) == run_flat_from(
                prog@,
                pc as nat,
                m@,
                f as nat,
            ),
        decreases f,
    {
        if f == 0 {
            return Err(BfError::OutOfFuel);
        }
        f = f - 1;
        let ghost pre = m@;
        let instr = prog[pc];
        match instr {
            Instr::Fwd => {
                m.ptr = (m.ptr + 1) % MEM_SIZE;
                pc = pc + 1;
            },
            Instr::Bwd => {
                proof {
                    lemma_small_mod(1nat, MEM_SIZE as nat);
                }
                if m.ptr >= 1 {
                    m.ptr = m.ptr - 1;
                } else {
                    m.ptr = MEM_SIZE - 1;
                }
                pc = pc + 1;
                proof {
                    assert(m@.ptr == wrap_bwd(pre.ptr, 1));
                }
            },
            Instr::Inc => {
                let c = m.mem[m.ptr];
                m.mem.set(m.ptr, c.wrapping_add(1));
                pc = pc + 1;
            },
            Instr::Dec => {
                let c = m.mem[m.ptr];
                m.mem.set(m.ptr, c.wrapping_sub(1));
                pc = pc + 1;
            },
            Instr::Out => {
                let c = m.mem[m.ptr];
                m.output.push(c);
                pc = pc + 1;
            },
            Instr::In => {
                if m.in_pos < m.input.len() {
                    let b = m.input[m.in_pos];
                    m.mem.set(m.ptr, b);
                    m.in_pos = m.in_pos + 1;
                    proof {
                        assert(pre.input[0] == b);
                        assert(m@.input =~= pre.input.subrange(1, pre.input.len() as int));
                    }
                } else {
                    proof {
                        assert(pre.input.len() == 0);
                    }
                }
                pc = pc + 1;
            },
            Instr::Open(t) => {
                if m.mem[m.ptr] == 0 {
                    pc = t;
                } else {
                    pc = pc + 1;
                }
            },
            Instr::Close(t) => {
                pc = t;
            },
        }
    }
    Ok(())
}

/// A token sequence with no brackets and no sentinel: a straight-line
/// program.
pub open spec fn loop_free(ts: Seq<Tok>) -> bool {
    forall|i: int|
        0 <= i < ts.len() ==> ts[i] != Tok::Open && ts[i] != Tok::Close && ts[i] != Tok::Nop
}

/// The two parsing strategies agree on straight-line programs: walking
/// the structural parse and running the compiled flat program from the
/// same starting state reach the same final state — memory, pointer,
/// input and output — whenever the flat engine has fuel for its
/// instructions. Tree fuel is irrelevant here: without loops none is
/// ever consumed.
pub proof fn lemma_backends_agree_straight_line(
    ts: Seq<Tok>,
    prog: Seq<Instr>,
    st: VmState,
    ftree: nat,
    fflat: nat,
)
    requires
        loop_free(ts),
        compiled(ts, prog),
        st.wf(),
        fflat >= ts.len(),
    ensures
        parse_toks(ts) matches Some(ops) && run_ops(ops, st, ftree) == run_flat_from(
            prog,
            0,
            st,
            fflat,
        ),
{
    lemma_agree_from(ts, prog, 0, st, ftree, fflat);
    assert(ts.subrange(0, ts.len() as int) =~= ts);
}

/// The inductive core of the straight-line agreement, from position `i`.
proof fn lemma_agree_from(
    ts: Seq<Tok>,
    prog: Seq<Instr>,
    i: nat,
    st: VmState,
    ftree: nat,
    fflat: nat,
)
    requires
        loop_free(ts),
        compiled(ts, prog),
        i <= ts.len(),
        fflat >= ts.len() - i,
        st.wf(),
    ensures
        parse_toks(ts.subrange(i as int, ts.len() as int)) matches Some(ops) && run_ops(
            ops,
            st,
            ftree,
        ) == run_flat_from(prog, i, st, fflat),
    decreases ts.len() - i,
{
    let n = ts.len() as int;
    let sub = ts.subrange(i as int, n);
    if i == ts.len() {
        assert(sub =~= Seq::<Tok>::empty());
    } else {
        let t = ts[i as int];
        assert(sub[0] == t);
        assert(sub.subrange(1, sub.len() as int) =~= ts.subrange(i as int + 1, n));
        assert(instr_matches(ts, prog, i as int));
        let v = match t {
            Tok::Fwd => OpS::Fwd(1),
            Tok::Bwd => OpS::Bwd(1),
            Tok::Inc => OpS::Inc(1),
            Tok::Dec => OpS::Dec(1),
            Tok::Out => OpS::Out,
            _ => OpS::In,
        };
        let st1 = match t {
            Tok::Fwd => VmState { ptr: wrap_fwd(st.ptr, 1), ..st },
            Tok::Bwd => VmState { ptr: wrap_bwd(st.ptr, 1), ..st },
            Tok::Inc => VmState {
                mem: st.mem.update(st.ptr as int, cell_add(st.cell(), 1)),
                ..st
            },
            Tok::Dec => VmState {
                mem: st.mem.update(st.ptr as int, cell_sub(st.cell(), 1)),
                ..st
            },
            Tok::Out => VmState { output: st.output.push(st.cell()), ..st },
            _ => if st.input.len() == 0 {
                st
            } else {
                VmState {
                    mem: st.mem.update(st.ptr as int, st.input[0]),
                    input: st.input.subrange(1, st.input.len() as int),
                    ..st
                }
            },
        };
        assert(run_op(v, st, ftree) == Some(st1));
        assert(st1.wf());
        assert(parse_toks(sub) == cons_parsed(v, parse_toks(ts.subrange(i as int + 1, n))));
        lemma_agree_from(ts, prog, i + 1, st1, ftree, (fflat - 1) as nat);
        match parse_toks(ts.subrange(i as int + 1, n)) {
            Some(tail_ops) => {
                let ops = seq![v] + tail_ops;
                assert(ops[0] == v);
                assert(ops.subrange(1, ops.len() as int) =~= tail_ops);
                assert(run_ops(ops, st, ftree) == run_ops(tail_ops, st1, ftree));
                assert(run_flat_from(prog, i, st, fflat) == run_flat_from(
                    prog,
                    i + 1,
                    st1,
                    (fflat - 1) as nat,
                ));
            },
            None => {
                assert(false);
            },
        }
    }
}

/// In a compiled program every jump target is in range: a loop-open
/// jumps at most one past the end, a loop-close jumps strictly inside
/// the program, and always backward to a loop-open's instruction.
pub proof fn lemma_compiled_targets_in_range(ts: Seq<Tok>, prog: Seq<Instr>)
    requires
        compiled(ts, prog),
        ts.len() <= usize::MAX,
    ensures
        forall|i: int|
            0 <= i < prog.len() ==> match #[trigger] prog[i] {
                Instr::Open(t) => i + 1 < t <= prog.len(),
                Instr::Close(t) => 0 <= t < i,
                _ => true,
            },
{
    assert forall|i: int| 0 <= i < prog.len() implies match #[trigger] prog[i] {
        Instr::Open(t) => i + 1 < t <= prog.len(),
        Instr::Close(t) => 0 <= t < i,
        _ => true,
    } by {
        assert(instr_matches(ts, prog, i));
        match ts[i] {
            Tok::Open => {
                lemma_scan_close_range(ts.subrange(i, ts.len() as int), 1, 1);
            },
            Tok::Close => {
                lemma_scan_open_range(ts, i - 1, 1);
            },
            _ => {},
        }
    }
}

/// The contribution of one token to the bracket balance.
spec fn tok_delta(t: Tok) -> int {
    if t == Tok::Open {
        1
    } else if t == Tok::Close {
        -1
    } else {
        0
    }
}

/// The bracket balance of `ts` over the half-open range `[a, b)`.
spec fn bal(ts: Seq<Tok>, a: int, b: int) -> int
    decreases b - a,
    when a <= b
{
    if a >= b {
        0
    } else {
        bal(ts, a, b - 1) + tok_delta(ts[b - 1])
    }
}

/// The balance over a range peels off its first token.
proof fn lemma_bal_left(ts: Seq<Tok>, a: int, b: int)
    requires
        a < b,
    ensures
        bal(ts, a, b) == tok_delta(ts[a]) + bal(ts, a + 1, b),
    decreases b - a,
{
    if a + 1 < b {
        lemma_bal_left(ts, a, b - 1);
    } else {
        assert(bal(ts, a, b) == bal(ts, a, a) + tok_delta(ts[a]));
        assert(bal(ts, a, a) == 0);
        assert(bal(ts, a + 1, b) == 0);
    }
}

/// What a successful forward scan means in terms of balance: the close
/// it lands on brings the running depth from `d` down to one, and the
/// depth never fell below one on the way.
proof fn lemma_scan_close_chr(ts: Seq<Tok>, k: nat, d: nat)
    requires
        1 <= d,
        k <= ts.len(),
    ensures
        scan_close(ts, k, d) matches Some(j) ==> {
            &&& k <= j < ts.len()
            &&& ts[j as int] == Tok::Close
            &&& d as int + bal(ts, k as int, j as int) == 1
            &&& forall|m: int| k <= m <= j ==> d as int + bal(ts, k as int, m) >= 1
        },
    decreases ts.len() - k,
{
    if k >= ts.len() {
    } else if ts[k as int] == Tok::Close && d <= 1 {
    } else {
        let d2: nat = if ts[k as int] == Tok::Close {
            (d - 1) as nat
        } else if ts[k as int] == Tok::Open {
            d + 1
        } else {
            d
        };
        lemma_scan_close_chr(ts, k + 1, d2);
        match scan_close(ts, k, d) {
            Some(j) => {
                lemma_bal_left(ts, k as int, j as int);
                assert forall|m: int| k <= m <= j implies d as int + bal(ts, k as int, m)
                    >= 1 by {
                    if m > k {
                        lemma_bal_left(ts, k as int, m);
                    }
                }
            },
            None => {},
        }
    }
}

/// The balance of a suffix range, read inside the suffix or in the
/// whole sequence, is the same.
proof fn lemma_bal_offset(ts: Seq<Tok>, i: int, a: int, b: int)
    requires
        0 <= i,
        0 <= a <= b,
        i + b <= ts.len(),
    ensures
        bal(ts.subrange(i, ts.len() as int), a, b) == bal(ts, i + a, i + b),
    decreases b - a,
{
    if a < b {
        lemma_bal_offset(ts, i, a, b - 1);
    }
}

/// The backward scan retraces a forward match: starting just inside a
/// region whose balance profile never goes negative, with the depth the
/// profile prescribes, it lands on the loop-open at `i`.
proof fn lemma_scan_open_back(ts: Seq<Tok>, i: int, j: int, m: int, d: nat)
    requires
        0 <= i <= m,
        m < j,
        j <= ts.len(),
        ts[i] == Tok::Open,
        1 <= d,
        d as int == 1 + bal(ts, i + 1, m + 1),
        forall|mm: int| i < mm < j ==> #[trigger] bal(ts, i + 1, mm) >= 0,
    ensures
        scan_open(ts, m, d) == Some(i as nat),
    decreases m,
{
    if m == i {
        assert(bal(ts, i + 1, i + 1) == 0);
        assert(d == 1);
    } else {
        assert(bal(ts, i + 1, m + 1) == bal(ts, i + 1, m) + tok_delta(ts[m]));
        if ts[m] == Tok::Open {
            assert(bal(ts, i + 1, m) >= 0);
            assert(d >= 2);
            lemma_scan_open_back(ts, i, j, m - 1, (d - 1) as nat);
        } else if ts[m] == Tok::Close {
            lemma_scan_open_back(ts, i, j, m - 1, d + 1);
        } else {
            lemma_scan_open_back(ts, i, j, m - 1, d);
        }
    }
}

/// Matched bracket addresses are mutually consistent: when a loop-open
/// at `i` resolves its jump to `t` — one past its matching close — that
/// close at `t - 1` resolves its own jump back to exactly `i`.
pub proof fn lemma_match_addresses_consistent(ts: Seq<Tok>, i: int, t: nat)
    requires
        0 <= i < ts.len(),
        ts[i] == Tok::Open,
        open_target(ts, i) == Some(t),
    ensures
        i + 2 <= t <= ts.len(),
        ts[t - 1] == Tok::Close,
        close_target(ts, t as int - 1) == Some(i as nat),
{
    let sub = ts.subrange(i, ts.len() as int);
    lemma_scan_close_chr(sub, 1, 1);
    match scan_close(sub, 1, 1) {
        Some(jr) => {
            assert(t == i + jr + 1);
            let j = i + jr as int;
            assert(sub[jr as int] == ts[j]);
            lemma_bal_offset(ts, i, 1, jr as int);
            assert(bal(ts, i + 1, j) == 0);
            assert forall|mm: int| i < mm < j implies #[trigger] bal(ts, i + 1, mm) >= 0 by {
                if mm > i + 1 {
                    lemma_bal_offset(ts, i, 1, mm - i);
                } else {
                    assert(bal(ts, i + 1, i + 1) == 0);
                }
            }
            lemma_scan_open_back(ts, i, j, j - 1, 1);
        },
        None => {
            assert(false);
        },
    }
}

/// Fuel is monotone for the flat engine: a final state reached at some
/// instruction budget is reached, unchanged, at every larger budget.
pub proof fn lemma_run_flat_fuel_mono(prog: Seq<Instr>, pc: nat, st: VmState, f1: nat, f2: nat)
    requires
        f1 <= f2,
        run_flat_from(prog, pc, st, f1) is Some,
    ensures
        run_flat_from(prog, pc, st, f2) == run_flat_from(prog, pc, st, f1),
    decreases f1,
{
    if pc >= prog.len() {
    } else {
        let g1 = (f1 - 1) as nat;
        let g2 = (f2 - 1) as nat;
        match prog[pc as int] {
            Instr::Fwd => {
                lemma_run_flat_fuel_mono(
                    prog,
                    pc + 1,
                    VmState { ptr: wrap_fwd(st.ptr, 1), ..st },
                    g1,
                    g2,
                );
            },
            Instr::Bwd => {
                lemma_run_flat_fuel_mono(
                    prog,
                    pc + 1,
                    VmState { ptr: wrap_bwd(st.ptr, 1), ..st },
                    g1,
                    g2,
                );
            },
            Instr::Inc => {
                lemma_run_flat_fuel_mono(
                    prog,
                    pc + 1,
                    VmState { mem: st.mem.update(st.ptr as int, cell_add(st.cell(), 1)), ..st },
                    g1,
                    g2,
                );
            },
            Instr::Dec => {
                lemma_run_flat_fuel_mono(
                    prog,
                    pc + 1,
                    VmState { mem: st.mem.update(st.ptr as int, cell_sub(st.cell(), 1)), ..st },
                    g1,
                    g2,
                );
            },
            Instr::Out => {
                lemma_run_flat_fuel_mono(
                    prog,
                    pc + 1,
                    VmState { output: st.output.push(st.cell()), ..st },
                    g1,
                    g2,
                );
            },
            Instr::In => {
                if st.input.len() == 0 {
                    lemma_run_flat_fuel_mono(prog, pc + 1, st, g1, g2);
                } else {
                    lemma_run_flat_fuel_mono(
                        prog,
                        pc + 1,
                        VmState {
                            mem: st.mem.update(st.ptr as int, st.input[0]),
                            input: st.input.subrange(1, st.input.len() as int),
                            ..st
                        },
                        g1,
                        g2,
                    );
                }
            },
            Instr::Open(t) => {
                if st.cell() == 0 {
                    lemma_run_flat_fuel_mono(prog, t as nat, st, g1, g2);
                } else {
                    lemma_run_flat_fuel_mono(prog, pc + 1, st, g1, g2);
                }
            },
            Instr::Close(t) => {
                lemma_run_flat_fuel_mono(prog, t as nat, st, g1, g2);
            },
        }
    }
}

} // verus!
