use bfvm::ast::{BfError, Op};
use bfvm::flat::{compile, run_flat, Instr};
use bfvm::interp::{run, Machine};
use bfvm::optimizer::{fuse_slice, optimizing_parse};
use bfvm::parser::parse;
use bfvm::sem::MEM_SIZE;
use bfvm::token::{tokenize, Tok};

const FUEL: u64 = 1_000_000;

fn ops_eq(a: &[Op], b: &[Op]) -> bool {
    if a.len() != b.len() {
        return false;
    }
    for i in 0..a.len() {
        let same = match (&a[i], &b[i]) {
            (Op::Fwd(x), Op::Fwd(y)) => x == y,
            (Op::Bwd(x), Op::Bwd(y)) => x == y,
            (Op::Inc(x), Op::Inc(y)) => x == y,
            (Op::Dec(x), Op::Dec(y)) => x == y,
            (Op::Out, Op::Out) => true,
            (Op::In, Op::In) => true,
            (Op::Loop(x), Op::Loop(y)) => ops_eq(x, y),
            _ => false,
        };
        if !same {
            return false;
        }
    }
    true
}

fn run_tree(src: &[u8], input: Vec<u8>) -> (Machine, Result<(), BfError>) {
    let tokens = tokenize(src);
    let ops = parse(&tokens).expect("well-formed program");
    let mut m = Machine::new(input);
    let r = run(&ops, &mut m, FUEL);
    (m, r)
}

fn run_tree_optimized(src: &[u8], input: Vec<u8>) -> (Machine, Result<(), BfError>) {
    let tokens = tokenize(src);
    let ops = optimizing_parse(&tokens).expect("well-formed program");
    let mut m = Machine::new(input);
    let r = run(&ops, &mut m, FUEL);
    (m, r)
}

fn run_jump_table(src: &[u8], input: Vec<u8>) -> (Machine, Result<(), BfError>) {
    let tokens = tokenize(src);
    let prog = compile(&tokens).expect("well-formed program");
    let mut m = Machine::new(input);
    let r = run_flat(&prog, &mut m, FUEL);
    (m, r)
}

#[test]
fn lexer_keeps_symbols_in_order() {
    let tokens = tokenize(b"a+b- comment >x<[.,] 123");
    assert_eq!(
        tokens,
        vec![
            Tok::Inc,
            Tok::Dec,
            Tok::Fwd,
            Tok::Bwd,
            Tok::Open,
            Tok::Out,
            Tok::In,
            Tok::Close,
            Tok::Nop,
        ]
    );
}

#[test]
fn lexer_empty_source_is_just_the_sentinel() {
    assert_eq!(tokenize(b""), vec![Tok::Nop]);
    assert_eq!(tokenize(b"hello world"), vec![Tok::Nop]);
}

#[test]
fn scenario_two_increments_then_output() {
    let (m, r) = run_tree(b"++.", Vec::new());
    assert!(r.is_ok());
    assert_eq!(m.output_bytes(), &vec![2u8]);
}

#[test]
fn scenario_two_increments_all_backends_agree() {
    let (m1, r1) = run_tree(b"++.", Vec::new());
    let (m2, r2) = run_tree_optimized(b"++.", Vec::new());
    let (m3, r3) = run_jump_table(b"++.", Vec::new());
    assert!(r1.is_ok() && r2.is_ok() && r3.is_ok());
    assert_eq!(m1.output_bytes(), &vec![2u8]);
    assert_eq!(m2.output_bytes(), &vec![2u8]);
    assert_eq!(m3.output_bytes(), &vec![2u8]);
}

#[test]
fn scenario_multiplication_loop() {
    let (m, r) = run_tree(b"++[>++<-]>.", Vec::new());
    assert!(r.is_ok());
    assert_eq!(m.output_bytes(), &vec![4u8]);
    assert_eq!(m.pointer(), 1);
    assert_eq!(m.cell_at(0), 0);
    assert_eq!(m.cell_at(1), 4);
}

#[test]
fn scenario_multiplication_loop_all_backends_agree() {
    let (m1, r1) = run_tree(b"++[>++<-]>.", Vec::new());
    let (m2, r2) = run_tree_optimized(b"++[>++<-]>.", Vec::new());
    let (m3, r3) = run_jump_table(b"++[>++<-]>.", Vec::new());
    assert!(r1.is_ok() && r2.is_ok() && r3.is_ok());
    assert_eq!(m1.output_bytes(), m2.output_bytes());
    assert_eq!(m1.output_bytes(), m3.output_bytes());
    assert_eq!(m1.pointer(), m2.pointer());
    assert_eq!(m1.pointer(), m3.pointer());
    for i in 0..4 {
        assert_eq!(m1.cell_at(i), m2.cell_at(i));
        assert_eq!(m1.cell_at(i), m3.cell_at(i));
    }
}

#[test]
fn scenario_unmatched_open_is_malformed() {
    let tokens = tokenize(b"++[>++<-");
    assert!(matches!(parse(&tokens), Err(BfError::ProgramMalformed)));
    assert!(matches!(optimizing_parse(&tokens), Err(BfError::ProgramMalformed)));
    assert!(matches!(compile(&tokens), Err(BfError::ProgramMalformed)));
}

#[test]
fn scenario_unmatched_close_is_malformed() {
    let tokens = tokenize(b"+]+");
    assert!(matches!(parse(&tokens), Err(BfError::ProgramMalformed)));
    assert!(matches!(optimizing_parse(&tokens), Err(BfError::ProgramMalformed)));
    assert!(matches!(compile(&tokens), Err(BfError::ProgramMalformed)));
}

#[test]
fn scenario_backward_move_wraps_to_last_cell() {
    let (m, r) = run_tree(b"<", Vec::new());
    assert!(r.is_ok());
    assert_eq!(m.pointer(), MEM_SIZE - 1);
    let (m2, r2) = run_jump_table(b"<", Vec::new());
    assert!(r2.is_ok());
    assert_eq!(m2.pointer(), MEM_SIZE - 1);
    let (m3, r3) = run_tree_optimized(b"<", Vec::new());
    assert!(r3.is_ok());
    assert_eq!(m3.pointer(), MEM_SIZE - 1);
}

#[test]
fn forward_move_wraps_at_capacity() {
    let mut src: Vec<u8> = Vec::new();
    for _ in 0..MEM_SIZE {
        src.push(b'>');
    }
    src.push(b'+');
    let (m, r) = run_tree(&src, Vec::new());
    assert!(r.is_ok());
    assert_eq!(m.pointer(), 0);
    assert_eq!(m.cell_at(0), 1);
    let (m2, r2) = run_jump_table(&src, Vec::new());
    assert!(r2.is_ok());
    assert_eq!(m2.pointer(), 0);
    assert_eq!(m2.cell_at(0), 1);
}

#[test]
fn increments_wrap_at_256() {
    let src: Vec<u8> = vec![b'+'; 256];
    let (m, r) = run_tree(&src, Vec::new());
    assert!(r.is_ok());
    assert_eq!(m.cell_at(0), 0);
}

#[test]
fn one_increment_then_255_more_wraps_to_zero() {
    let mut src: Vec<u8> = vec![b'+'];
    src.extend(vec![b'+'; 255]);
    let (m, r) = run_tree_optimized(&src, Vec::new());
    assert!(r.is_ok());
    assert_eq!(m.cell_at(0), 0);
}

#[test]
fn decrement_from_zero_wraps_to_255() {
    let (m, r) = run_tree(b"-", Vec::new());
    assert!(r.is_ok());
    assert_eq!(m.cell_at(0), 255);
}

#[test]
fn loop_with_zero_cell_runs_zero_times() {
    let (m, r) = run_tree(b"[+>+<].", Vec::new());
    assert!(r.is_ok());
    assert_eq!(m.output_bytes(), &vec![0u8]);
    assert_eq!(m.cell_at(0), 0);
    assert_eq!(m.cell_at(1), 0);
}

#[test]
fn countdown_loop_runs_exactly_n_times() {
    let tokens = tokenize(b"+++++[-]");
    let ops = parse(&tokens).expect("well-formed program");
    let mut m = Machine::new(Vec::new());
    assert_eq!(run(&ops, &mut m, 5), Ok(()));
    assert_eq!(m.cell_at(0), 0);
    let mut m2 = Machine::new(Vec::new());
    assert_eq!(run(&ops, &mut m2, 4), Err(BfError::OutOfFuel));
}

#[test]
fn nonterminating_loop_reports_out_of_fuel() {
    let tokens = tokenize(b"+[]");
    let ops = parse(&tokens).expect("well-formed program");
    let mut m = Machine::new(Vec::new());
    assert_eq!(run(&ops, &mut m, 1000), Err(BfError::OutOfFuel));
    let prog = compile(&tokens).expect("well-formed program");
    let mut m2 = Machine::new(Vec::new());
    assert_eq!(run_flat(&prog, &mut m2, 1000), Err(BfError::OutOfFuel));
}

#[test]
fn optimizer_fuses_runs_into_counted_nodes() {
    let tokens = tokenize(b"+++>>><<---");
    let ops = optimizing_parse(&tokens).expect("well-formed program");
    assert_eq!(ops.len(), 4);
    assert!(matches!(ops[0], Op::Inc(3)));
    assert!(matches!(ops[1], Op::Fwd(3)));
    assert!(matches!(ops[2], Op::Bwd(2)));
    assert!(matches!(ops[3], Op::Dec(3)));
}

#[test]
fn optimizer_fuses_inside_loop_bodies() {
    let tokens = tokenize(b"++[>++<-]");
    let ops = optimizing_parse(&tokens).expect("well-formed program");
    assert_eq!(ops.len(), 2);
    assert!(matches!(ops[0], Op::Inc(2)));
    match &ops[1] {
        Op::Loop(body) => {
            assert_eq!(body.len(), 4);
            assert!(matches!(body[0], Op::Fwd(1)));
            assert!(matches!(body[1], Op::Inc(2)));
            assert!(matches!(body[2], Op::Bwd(1)));
            assert!(matches!(body[3], Op::Dec(1)));
        },
        _ => panic!("expected a loop node"),
    }
}

#[test]
fn optimizer_takes_increment_runs_modulo_256() {
    let src: Vec<u8> = vec![b'+'; 256];
    let tokens = tokenize(&src);
    let ops = optimizing_parse(&tokens).expect("well-formed program");
    assert_eq!(ops.len(), 1);
    assert!(matches!(ops[0], Op::Inc(0)));
}

#[test]
fn optimizer_is_idempotent_on_its_output() {
    let tokens = tokenize(b"+++>>><<---[>>++<<-][-]..,,");
    let once = optimizing_parse(&tokens).expect("well-formed program");
    let twice = fuse_slice(&once);
    assert!(ops_eq(&once, &twice));
}

#[test]
fn optimizer_is_transparent_on_a_program_with_input() {
    let src = b",>,[<+>-]<.";
    let input = vec![30u8, 12u8];
    let (m1, r1) = run_tree(src, input.clone());
    let (m2, r2) = run_tree_optimized(src, input);
    assert!(r1.is_ok() && r2.is_ok());
    assert_eq!(m1.output_bytes(), &vec![42u8]);
    assert_eq!(m1.output_bytes(), m2.output_bytes());
    assert_eq!(m1.pointer(), m2.pointer());
    for i in 0..4 {
        assert_eq!(m1.cell_at(i), m2.cell_at(i));
    }
}

#[test]
fn reading_exhausted_input_leaves_cell_unchanged() {
    let (m, r) = run_tree(b"+++,.", Vec::new());
    assert!(r.is_ok());
    assert_eq!(m.output_bytes(), &vec![3u8]);
}

#[test]
fn reading_input_fills_the_cell() {
    let (m, r) = run_tree(b",.", vec![65u8]);
    assert!(r.is_ok());
    assert_eq!(m.output_bytes(), &vec![65u8]);
}

#[test]
fn compile_resolves_jump_targets() {
    let tokens = tokenize(b"[]");
    let prog = compile(&tokens).expect("well-formed program");
    assert_eq!(prog, vec![Instr::Open(2), Instr::Close(0)]);
    let tokens2 = tokenize(b"+[[-]>]");
    let prog2 = compile(&tokens2).expect("well-formed program");
    assert_eq!(
        prog2,
        vec![
            Instr::Inc,
            Instr::Open(7),
            Instr::Open(5),
            Instr::Dec,
            Instr::Close(2),
            Instr::Fwd,
            Instr::Close(1),
        ]
    );
}

#[test]
fn parser_skips_sentinels_inside_the_stream() {
    let tokens = vec![Tok::Inc, Tok::Nop, Tok::Inc, Tok::Out, Tok::Nop];
    let ops = parse(&tokens).expect("well-formed program");
    assert_eq!(ops.len(), 3);
    assert!(matches!(ops[0], Op::Inc(1)));
    assert!(matches!(ops[1], Op::Inc(1)));
    assert!(matches!(ops[2], Op::Out));
}

#[test]
fn jump_table_backend_reads_input() {
    let (m, r) = run_jump_table(b",>,[<+>-]<.", vec![30u8, 12u8]);
    assert!(r.is_ok());
    assert_eq!(m.output_bytes(), &vec![42u8]);
}

#[test]
fn deeply_nested_loops_resolve() {
    let (m, r) = run_tree(b"++[>++[>++<-]<-]>>.", Vec::new());
    assert!(r.is_ok());
    assert_eq!(m.output_bytes(), &vec![8u8]);
    let (m2, r2) = run_jump_table(b"++[>++[>++<-]<-]>>.", Vec::new());
    assert!(r2.is_ok());
    assert_eq!(m2.output_bytes(), &vec![8u8]);
    let (m3, r3) = run_tree_optimized(b"++[>++[>++<-]<-]>>.", Vec::new());
    assert!(r3.is_ok());
    assert_eq!(m3.output_bytes(), &vec![8u8]);
}
