//! The bracket resolver and the structural parser.
//!
//! The bracket resolver ([`find_close`]) matches a loop-open token to its
//! loop-close by the canonical counter scan. The structural parser
//! ([`parse`]) builds a nested operation tree: each primitive token maps
//! to a unit-count node, and a loop-open wraps the recursively parsed
//! sub-sequence up to its matching close in a loop node. Malformed
//! bracket nesting surfaces [`BfError::ProgramMalformed`].
//!
//! The mathematical model is [`parse_toks`]; the parser returns exactly
//! what it denotes, and fails exactly where it is undefined.

use crate::ast::{lemma_view_ops_push, view_op, view_ops, BfError, Op, OpS};
use crate::token::Tok;
use vstd::prelude::*;
use vstd::slice::slice_subrange;

verus! {

/// The index of the loop-close that brings the nesting counter from
/// `depth` down to zero, scanning `toks` from `i`; `None` if the scan
/// runs off the end.
pub open spec fn scan_close(toks: Seq<Tok>, i: nat, depth: nat) -> Option<nat>
    decreases toks.len() - i,
    when i <= toks.len()
{
    if i >= toks.len() {
        None
    } else if toks[i as int] == Tok::Close {
        if depth <= 1 {
            Some(i)
        } else {
            scan_close(toks, i + 1, (depth - 1) as nat)
        }
    } else if toks[i as int] == Tok::Open {
        scan_close(toks, i + 1, depth + 1)
    } else {
        scan_close(toks, i + 1, depth)
    }
}

/// A successful scan lands on a loop-close within bounds.
pub proof fn lemma_scan_close_range(toks: Seq<Tok>, i: nat, depth: nat)
    requires
        i <= toks.len(),
    ensures
        scan_close(toks, i, depth) matches Some(j) ==> i <= j < toks.len() && toks[j as int]
            == Tok::Close,
    decreases toks.len() - i,
{
    if i >= toks.len() {
    } else if toks[i as int] == Tok::Close {
        if depth <= 1 {
        } else {
            lemma_scan_close_range(toks, i + 1, (depth - 1) as nat);
        }
    } else if toks[i as int] == Tok::Open {
        lemma_scan_close_range(toks, i + 1, depth + 1);
    } else {
        lemma_scan_close_range(toks, i + 1, depth);
    }
}

/// Prefix an already-parsed run of nodes onto a parse result.
pub open spec fn prepend_parsed(ops: Seq<OpS>, rest: Option<Seq<OpS>>) -> Option<Seq<OpS>> {
    match rest {
        Some(s) => Some(ops + s),
        None => None,
    }
}

/// Prefix one node onto a parse result.
pub open spec fn cons_parsed(op: OpS, rest: Option<Seq<OpS>>) -> Option<Seq<OpS>> {
    match rest {
        Some(s) => Some(seq![op] + s),
        None => None,
    }
}

/// The structural parser as a mathematical function. Each primitive
/// token becomes a unit-count node; a loop-open wraps the sub-sequence up
/// to its matching close; the sentinel is skipped; an unmatched bracket
/// makes the result `None`.
pub open spec fn parse_toks(toks: Seq<Tok>) -> Option<Seq<OpS>>
    decreases toks.len(),
{
    if toks.len() == 0 {
        Some(Seq::empty())
    } else {
        let rest = toks.subrange(1, toks.len() as int);
        match toks[0] {
            Tok::Fwd => cons_parsed(OpS::Fwd(1), parse_toks(rest)),
            Tok::Bwd => cons_parsed(OpS::Bwd(1), parse_toks(rest)),
            Tok::Inc => cons_parsed(OpS::Inc(1), parse_toks(rest)),
            Tok::Dec => cons_parsed(OpS::Dec(1), parse_toks(rest)),
            Tok::Out => cons_parsed(OpS::Out, parse_toks(rest)),
            Tok::In => cons_parsed(OpS::In, parse_toks(rest)),
            Tok::Nop => parse_toks(rest),
            Tok::Close => None,
            Tok::Open => match scan_close(toks, 1, 1) {
                Some(j) => if 1 <= j < toks.len() {
                    match parse_toks(toks.subrange(1, j as int)) {
                        Some(body) => cons_parsed(
                            OpS::Loop(body),
                            parse_toks(toks.subrange(j + 1 as int, toks.len() as int)),
                        ),
                        None => None,
                    }
                } else {
                    None
                },
                None => None,
            },
        }
    }
}

/// Prefixing a run and then one node is prefixing the extended run.
proof fn lemma_prepend_cons(a: Seq<OpS>, v: OpS, rest: Option<Seq<OpS>>)
    ensures
        prepend_parsed(a, cons_parsed(v, rest)) == prepend_parsed(a.push(v), rest),
{
    match rest {
        Some(s) => {
            assert(a + (seq![v] + s) =~= a.push(v) + s);
        },
        None => {},
    }
}

/// The bracket resolver. `toks[0]` is a loop-open; scan forward with a
/// nesting counter and return the index of the loop-close that balances
/// it, or `ProgramMalformed` if the counter never returns to zero.
pub fn find_close(toks: &[Tok]) -> (r: Result<usize, BfError>)
    requires
        toks@.len() >= 1,
        toks@[0] == Tok::Open,
    ensures
        match r {
            Ok(j) => scan_close(toks@, 1, 1) == Some(j as nat) && 1 <= j < toks@.len(),
            Err(e) => e == BfError::ProgramMalformed && scan_close(toks@, 1, 1) is None,
        },
{
    let n = toks.len();
    let mut i: usize = 1;
    let mut depth: usize = 1;
    while i < n
        invariant
            1 <= i <= n,
            n == toks@.len(),
            1 <= depth,
            depth <= i,
            scan_close(toks@, 1, 1) == scan_close(toks@, i as nat, depth as nat),
        decreases n - i,
    {
        let t = toks[i];
        if t == Tok::Close {
            if depth == 1 {
                proof {
                    lemma_scan_close_range(toks@, 1, 1);
                }
                return Ok(i);
            }
            depth = depth - 1;
        } else if t == Tok::Open {
            depth = depth + 1;
        }
        i = i + 1;
    }
    Err(BfError::ProgramMalformed)
}

/// The structural parser on a token slice: the executable form of
/// [`parse_toks`].
pub fn parse_slice(toks: &[Tok]) -> (r: Result<Vec<Op>, BfError>)
    ensures
        match r {
            Ok(ops) => parse_toks(toks@) == Some(view_ops(ops@)),
            Err(e) => e == BfError::ProgramMalformed && parse_toks(toks@) is None,
        },
    decreases toks@.len(),
{
    let mut ops: Vec<Op> = Vec::new();
    let n = toks.len();
    let mut i: usize = 0;
    proof {
        assert(toks@.subrange(0, n as int) =~= toks@);
        match parse_toks(toks@) {
            Some(s) => {
                assert(Seq::<OpS>::empty() + s =~= s);
            },
            None => {},
        }
    }
    while i < n
        invariant
            i <= n,
            n == toks@.len(),
            parse_toks(toks@) == prepend_parsed(
                view_ops(ops@),
                parse_toks(toks@.subrange(i as int, n as int)),
            ),
        decreases n - i,
    {
        let ghost pre = ops@;
        let ghost win = toks@.subrange(i as int, n as int);
        proof {
            assert(win[0] == toks@[i as int]);
            assert(win.subrange(1, win.len() as int) =~= toks@.subrange(i + 1, n as int));
        }
        let t = toks[i];
        match t {
            Tok::Fwd => {
                ops.push(Op::Fwd(1));
                proof {
                    lemma_view_ops_push(pre, Op::Fwd(1));
                    lemma_prepend_cons(
                        view_ops(pre),
                        OpS::Fwd(1),
                        parse_toks(toks@.subrange(i + 1, n as int)),
                    );
                }
                i = i + 1;
            },
            Tok::Bwd => {
                ops.push(Op::Bwd(1));
                proof {
                    lemma_view_ops_push(pre, Op::Bwd(1));
                    lemma_prepend_cons(
                        view_ops(pre),
                        OpS::Bwd(1),
                        parse_toks(toks@.subrange(i + 1, n as int)),
                    );
                }
                i = i + 1;
            },
            Tok::Inc => {
                ops.push(Op::Inc(1));
                proof {
                    lemma_view_ops_push(pre, Op::Inc(1));
                    lemma_prepend_cons(
                        view_ops(pre),
                        OpS::Inc(1),
                        parse_toks(toks@.subrange(i + 1, n as int)),
                    );
                }
                i = i + 1;
            },
            Tok::Dec => {
                ops.push(Op::Dec(1));
                proof {
                    lemma_view_ops_push(pre, Op::Dec(1));
                    lemma_prepend_cons(
                        view_ops(pre),
                        OpS::Dec(1),
                        parse_toks(toks@.subrange(i + 1, n as int)),
                    );
                }
                i = i + 1;
            },
            Tok::Out => {
                ops.push(Op::Out);
                proof {
                    lemma_view_ops_push(pre, Op::Out);
                    lemma_prepend_cons(
                        view_ops(pre),
                        OpS::Out,
                        parse_toks(toks@.subrange(i + 1, n as int)),
                    );
                }
                i = i + 1;
            },
            Tok::In => {
                ops.push(Op::In);
                proof {
                    lemma_view_ops_push(pre, Op::In);
                    lemma_prepend_cons(
                        view_ops(pre),
                        OpS::In,
                        parse_toks(toks@.subrange(i + 1, n as int)),
                    );
                }
                i = i + 1;
            },
            Tok::Nop => {
                i = i + 1;
            },
            Tok::Close => {
                return Err(BfError::ProgramMalformed);
            },
            Tok::Open => {
                let window = slice_subrange(toks, i, n);
                match find_close(window) {
                    Err(_) => {
                        return Err(BfError::ProgramMalformed);
                    },
                    Ok(j) => {
                        let body_slice = slice_subrange(toks, i + 1, i + j);
                        proof {
                            assert(body_slice@ =~= win.subrange(1, j as int));
                        }
                        match parse_slice(body_slice) {
                            Err(_) => {
                                return Err(BfError::ProgramMalformed);
                            },
                            Ok(body) => {
                                let ghost bview = view_ops(body@);
                                ops.push(Op::Loop(body));
                                proof {
                                    assert(win.subrange(j + 1, win.len() as int) =~= toks@.subrange(
                                        i + j + 1,
                                        n as int,
                                    ));
                                    lemma_view_ops_push(pre, Op::Loop(body));
                                    assert(view_op(Op::Loop(body)) == OpS::Loop(bview));
                                    lemma_prepend_cons(
                                        view_ops(pre),
                                        OpS::Loop(bview),
                                        parse_toks(toks@.subrange(i + j + 1, n as int)),
                                    );
                                }
                                i = i + j + 1;
                            },
                        }
                    },
                }
            },
        }
    }
    proof {
        assert(toks@.subrange(n as int, n as int) =~= Seq::<Tok>::empty());
        match parse_toks(toks@) {
            Some(s) => {
                assert(view_ops(ops@) + Seq::<OpS>::empty() =~= view_ops(ops@));
            },
            None => {},
        }
    }
    Ok(ops)
}

/// The structural parser. Builds the nested operation tree of `tokens`,
/// or surfaces `ProgramMalformed` on an unmatched bracket.
pub fn parse(tokens: &Vec<Tok>) -> (r: Result<Vec<Op>, BfError>)
    ensures
        match r {
            Ok(ops) => parse_toks(tokens@) == Some(view_ops(ops@)),
            Err(e) => e == BfError::ProgramMalformed && parse_toks(tokens@) is None,
        },
{
    parse_slice(tokens.as_slice())
}

} // verus!
