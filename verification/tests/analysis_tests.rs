use analysis_core::assignments::{LatticeAssignments, lattice_value_eq};
use analysis_core::driver::EngineDriver;
use analysis_core::engine::SymbolicEngine;
use analysis_core::error::Error;
use analysis_core::il::{
    BinOp, Block, Constant, ControlFlowGraph, Edge, Expression, Function, Instruction, Operation,
    Program, Scalar,
};
use analysis_core::lattice::LatticeValue;
use analysis_core::location::{AnalysisLocation, FunctionLocation, ProgramLocation};
use analysis_core::memory::SymbolicMemory;
use analysis_core::value_set::{Endian, ValueSetAnalysis, compute};
use std::rc::Rc;

fn values(vals: &[u64], bits: u32) -> LatticeValue {
    let mut v: Vec<Constant> = Vec::new();
    for x in vals {
        v.push(Constant::new(*x, bits));
    }
    LatticeValue::Values(v)
}

fn expect_values(v: &LatticeValue, expected: &[u64], bits: u32) {
    match v {
        LatticeValue::Values(cs) => {
            assert_eq!(cs.len(), expected.len());
            for (c, x) in cs.iter().zip(expected.iter()) {
                assert_eq!(c.value, *x);
                assert_eq!(c.bits, bits);
            }
        },
        LatticeValue::Join => panic!("expected a value set, found top"),
        LatticeValue::Meet => panic!("expected a value set, found bottom"),
    }
}

#[test]
fn join_is_idempotent_and_commutative() {
    let a = values(&[5], 32);
    let b = values(&[7], 32);
    let aa = a.join(&a, 4);
    assert!(lattice_value_eq(&aa, &a));
    let ab = a.join(&b, 4);
    let ba = b.join(&a, 4);
    assert!(lattice_value_eq(&ab, &ba));
    expect_values(&ab, &[5, 7], 32);
}

#[test]
fn join_is_associative() {
    let a = values(&[1], 32);
    let b = values(&[2], 32);
    let c = values(&[3], 32);
    let left = a.join(&b, 4).join(&c, 4);
    let right = a.join(&b.join(&c, 4), 4);
    assert!(lattice_value_eq(&left, &right));
    expect_values(&left, &[1, 2, 3], 32);
}

#[test]
fn join_widens_past_the_bound() {
    let a = values(&[1, 2], 4);
    let b = values(&[3], 4);
    let w = a.join(&b, 2);
    assert!(matches!(w, LatticeValue::Join));
    let meet = LatticeValue::Meet;
    let kept = a.join(&meet, 2);
    expect_values(&kept, &[1, 2], 4);
}

#[test]
fn memory_byte_round_trip_both_endians() {
    for endian in [Endian::Big, Endian::Little] {
        let mut memory = SymbolicMemory::new(64, endian);
        memory.store(0x1000, Expression::constant(0xab, 8));
        match memory.load_byte(0x1000) {
            Some(Expression::Constant(c)) => {
                assert_eq!(c.value, 0xab);
                assert_eq!(c.bits, 8);
            },
            _ => panic!("expected the stored byte back"),
        }
        let c = memory.load_constant(0x1000, 8).expect("one byte present");
        assert_eq!(c.value, 0xab);
    }
}

#[test]
fn memory_little_endian_store_decomposes() {
    let mut memory = SymbolicMemory::new(64, Endian::Little);
    memory.store(0x2000, Expression::constant(0x11223344, 32));
    let expected = [0x44u64, 0x33, 0x22, 0x11];
    for (i, b) in expected.iter().enumerate() {
        match memory.load_byte(0x2000 + i as u64) {
            Some(Expression::Constant(c)) => assert_eq!(c.value, *b),
            _ => panic!("expected a concrete byte"),
        }
    }
    let c = memory.load_constant(0x2000, 32).expect("all bytes present");
    assert_eq!(c.value, 0x11223344);
    assert_eq!(c.bits, 32);
}

#[test]
fn memory_big_endian_store_decomposes() {
    let mut memory = SymbolicMemory::new(64, Endian::Big);
    memory.store(0x2000, Expression::constant(0x11223344, 32));
    let expected = [0x11u64, 0x22, 0x33, 0x44];
    for (i, b) in expected.iter().enumerate() {
        match memory.load_byte(0x2000 + i as u64) {
            Some(Expression::Constant(c)) => assert_eq!(c.value, *b),
            _ => panic!("expected a concrete byte"),
        }
    }
    let c = memory.load_constant(0x2000, 32).expect("all bytes present");
    assert_eq!(c.value, 0x11223344);
}

#[test]
fn memory_builds_fresh_bytes_on_first_read() {
    let mut memory = SymbolicMemory::new(64, Endian::Little);
    let e = memory.load_or_build(0x3000, 16);
    match e {
        Expression::Constant(_) => panic!("unwritten memory must be symbolic"),
        _ => {},
    }
    // The fresh bytes are now present.
    assert!(memory.load_byte(0x3000).is_some());
    assert!(memory.load_byte(0x3001).is_some());
}

fn fresh_analysis_state(max: usize) -> LatticeAssignments {
    LatticeAssignments::new(max)
}

fn single_block_cfg(operations: Vec<Operation>) -> ControlFlowGraph {
    let instructions = operations
        .into_iter()
        .map(|operation| Instruction { address: None, operation })
        .collect();
    ControlFlowGraph { blocks: vec![Block { instructions }], edges: vec![] }
}

#[test]
fn phi_joins_equal_sources() {
    let cfg = single_block_cfg(vec![]);
    let vsa = ValueSetAnalysis::new(&cfg, 16, Endian::Big);
    let a = Scalar::new(1, 32);
    let b = Scalar::new(2, 32);
    let d = Scalar::new(3, 32);
    let mut state = fresh_analysis_state(16);
    state.set(a, values(&[5], 32));
    state.set(b, values(&[5], 32));
    let out = vsa
        .transfer(&Operation::Phi { dst: d, src: vec![a, b] }, state)
        .expect("phi transfer succeeds");
    expect_values(&out.get(&d), &[5], 32);
}

#[test]
fn phi_joins_distinct_sources() {
    let cfg = single_block_cfg(vec![]);
    let vsa = ValueSetAnalysis::new(&cfg, 16, Endian::Big);
    let a = Scalar::new(1, 32);
    let b = Scalar::new(2, 32);
    let d = Scalar::new(3, 32);
    let mut state = fresh_analysis_state(16);
    state.set(a, values(&[5], 32));
    state.set(b, values(&[7], 32));
    let out = vsa
        .transfer(&Operation::Phi { dst: d, src: vec![a, b] }, state)
        .expect("phi transfer succeeds");
    expect_values(&out.get(&d), &[5, 7], 32);
}

#[test]
fn phi_widens_at_bound_one() {
    let cfg = single_block_cfg(vec![]);
    let vsa = ValueSetAnalysis::new(&cfg, 1, Endian::Big);
    let a = Scalar::new(1, 32);
    let b = Scalar::new(2, 32);
    let d = Scalar::new(3, 32);
    let mut state = fresh_analysis_state(1);
    state.set(a, values(&[5], 32));
    state.set(b, values(&[7], 32));
    let out = vsa
        .transfer(&Operation::Phi { dst: d, src: vec![a, b] }, state)
        .expect("phi transfer succeeds");
    assert!(matches!(out.get(&d), LatticeValue::Join));
}

#[test]
fn phi_of_nothing_is_meet() {
    let cfg = single_block_cfg(vec![]);
    let vsa = ValueSetAnalysis::new(&cfg, 16, Endian::Big);
    let d = Scalar::new(3, 32);
    let state = fresh_analysis_state(16);
    let out = vsa
        .transfer(&Operation::Phi { dst: d, src: vec![] }, state)
        .expect("phi transfer succeeds");
    assert!(matches!(out.get(&d), LatticeValue::Meet));
}

#[test]
fn load_of_unknown_address_is_meet() {
    let cfg = single_block_cfg(vec![]);
    let vsa = ValueSetAnalysis::new(&cfg, 16, Endian::Big);
    let d = Scalar::new(9, 32);
    let state = fresh_analysis_state(16);
    let out = vsa
        .transfer(
            &Operation::Load { dst: d, address: Expression::constant(0x4000, 64) },
            state,
        )
        .expect("load transfer succeeds");
    assert!(matches!(out.get(&d), LatticeValue::Meet));
}

#[test]
fn store_then_load_round_trips_in_the_abstract_memory() {
    for endian in [Endian::Big, Endian::Little] {
        let cfg = single_block_cfg(vec![]);
        let vsa = ValueSetAnalysis::new(&cfg, 16, endian);
        let d = Scalar::new(9, 16);
        let state = fresh_analysis_state(16);
        let stored = vsa
            .transfer(
                &Operation::Store {
                    address: Expression::constant(0x4000, 64),
                    src: Expression::constant(0x1234, 16),
                },
                state,
            )
            .expect("store transfer succeeds");
        let out = vsa
            .transfer(
                &Operation::Load { dst: d, address: Expression::constant(0x4000, 64) },
                stored,
            )
            .expect("load transfer succeeds");
        expect_values(&out.get(&d), &[0x1234], 16);
    }
}

#[test]
fn assign_folds_arithmetic_over_value_sets() {
    let cfg = single_block_cfg(vec![]);
    let vsa = ValueSetAnalysis::new(&cfg, 16, Endian::Big);
    let a = Scalar::new(1, 32);
    let d = Scalar::new(2, 32);
    let mut state = fresh_analysis_state(16);
    state.set(a, values(&[3, 4], 32));
    let src = Expression::Binop(
        BinOp::Add,
        Box::new(Expression::Scalar(a)),
        Box::new(Expression::constant(10, 32)),
    );
    let out = vsa
        .transfer(&Operation::Assign { dst: d, src }, state)
        .expect("assign transfer succeeds");
    expect_values(&out.get(&d), &[13, 14], 32);
}

#[test]
fn little_endian_store_of_odd_width_fails() {
    let cfg = single_block_cfg(vec![]);
    let vsa = ValueSetAnalysis::new(&cfg, 16, Endian::Little);
    let state = fresh_analysis_state(16);
    let r = vsa.transfer(
        &Operation::Store {
            address: Expression::constant(0x4000, 64),
            src: Expression::constant(1, 12),
        },
        state,
    );
    assert_eq!(r.err(), Some(Error::EvaluationWidth));
}

fn two_block_program() -> ControlFlowGraph {
    // Block 0 assigns register 1 the constant 10; block 1 reads it.
    let r1 = Scalar::new(1, 32);
    let r2 = Scalar::new(2, 32);
    let b0 = Block {
        instructions: vec![
            Instruction {
                address: Some(0x100),
                operation: Operation::Assign { dst: r1, src: Expression::constant(10, 32) },
            },
        ],
    };
    let b1 = Block {
        instructions: vec![
            Instruction {
                address: Some(0x104),
                operation: Operation::Assign { dst: r2, src: Expression::Scalar(r1) },
            },
        ],
    };
    ControlFlowGraph {
        blocks: vec![b0, b1],
        edges: vec![Edge { head: 0, tail: 1, condition: None }],
    }
}

#[test]
fn fixed_point_propagates_constants_across_blocks() {
    let cfg = two_block_program();
    let result = compute(&cfg, 16, Endian::Big, 100).expect("the analysis converges");
    let loc = AnalysisLocation::Instruction { block_index: 1, instruction_index: 0 };
    let state = result.get(&loc).expect("block 1's instruction is covered");
    expect_values(&state.get(&Scalar::new(1, 32)), &[10], 32);
    expect_values(&state.get(&Scalar::new(2, 32)), &[10], 32);
}

#[test]
fn fixed_point_covers_every_location() {
    let cfg = two_block_program();
    let result = compute(&cfg, 16, Endian::Big, 100).expect("the analysis converges");
    assert!(result.get(&AnalysisLocation::Instruction { block_index: 0, instruction_index: 0 }).is_some());
    assert!(result.get(&AnalysisLocation::Instruction { block_index: 1, instruction_index: 0 }).is_some());
    assert!(result.get(&AnalysisLocation::Edge { head: 0, tail: 1 }).is_some());
    assert!(result.get(&AnalysisLocation::EmptyBlock { block_index: 0 }).is_none());
}

#[test]
fn fixed_point_reports_non_convergence_under_a_zero_cap() {
    let cfg = two_block_program();
    let r = compute(&cfg, 16, Endian::Big, 0);
    assert!(matches!(r, Err(Error::DidNotConverge)));
}

fn branching_program() -> Program {
    // Block 0 ends in a conditional branch on an unconstrained scalar;
    // blocks 1 and 2 are the two arms.
    let s = Scalar::new(7, 32);
    let cond_true = Expression::Binop(
        BinOp::Cmpeq,
        Box::new(Expression::Scalar(s)),
        Box::new(Expression::constant(0, 32)),
    );
    let cond_false = Expression::Binop(
        BinOp::Cmpeq,
        Box::new(Expression::Scalar(s)),
        Box::new(Expression::constant(1, 32)),
    );
    let b0 = Block {
        instructions: vec![
            Instruction {
                address: Some(0x200),
                operation: Operation::Brc {
                    dst: Expression::constant(0x300, 64),
                    condition: Expression::Scalar(s),
                },
            },
        ],
    };
    let b1 = Block { instructions: vec![] };
    let b2 = Block { instructions: vec![] };
    let cfg = ControlFlowGraph {
        blocks: vec![b0, b1, b2],
        edges: vec![
            Edge { head: 0, tail: 1, condition: Some(cond_true) },
            Edge { head: 0, tail: 2, condition: Some(cond_false) },
        ],
    };
    Program { functions: vec![Function { address: 0x200, cfg }] }
}

#[test]
fn unresolved_branch_forks_into_two_independent_drivers() {
    let program = Rc::new(branching_program());
    let memory = SymbolicMemory::new(64, Endian::Little);
    let engine = SymbolicEngine::new(memory);
    let location = ProgramLocation::new(
        0,
        FunctionLocation::Instruction { block_index: 0, instruction_index: 0 },
    );
    let driver = EngineDriver::new(program, location, engine);
    assert_eq!(driver.engine().assertions().len(), 0);
    let succs = driver.step().expect("the step succeeds");
    assert_eq!(succs.len(), 2);
    let mut succs = succs;
    for d in &succs {
        assert_eq!(d.engine().assertions().len(), 1);
    }
    // The engines are independent: a store in one is invisible in the other.
    let d2 = succs.pop().unwrap();
    let mut d1 = succs.pop().unwrap();
    d1.engine.memory.store(0x9000, Expression::constant(0xff, 8));
    assert!(d1.engine.memory.load_byte(0x9000).is_some());
    assert!(d2.engine.memory.load_byte(0x9000).is_none());
}

#[test]
fn resolved_branch_takes_one_edge_without_forking() {
    let program = Rc::new(branching_program());
    let memory = SymbolicMemory::new(64, Endian::Little);
    let mut engine = SymbolicEngine::new(memory);
    // Pin the scalar so only the first condition holds.
    engine.set_scalar(Scalar::new(7, 32), Expression::constant(0, 32));
    let location = ProgramLocation::new(
        0,
        FunctionLocation::Instruction { block_index: 0, instruction_index: 0 },
    );
    let driver = EngineDriver::new(program, location, engine);
    let succs = driver.step().expect("the step succeeds");
    assert_eq!(succs.len(), 1);
    assert_eq!(succs[0].engine().assertions().len(), 0);
    match succs[0].location().function_location() {
        FunctionLocation::Edge { head, tail } => {
            assert_eq!(*head, 0);
            assert_eq!(*tail, 1);
        },
        _ => panic!("expected an edge location"),
    }
}

#[test]
fn terminal_location_yields_no_successors() {
    let program = Rc::new(branching_program());
    let memory = SymbolicMemory::new(64, Endian::Little);
    let engine = SymbolicEngine::new(memory);
    // Block 1 is empty and has no outgoing edges.
    let location = ProgramLocation::new(0, FunctionLocation::EmptyBlock { block_index: 1 });
    let driver = EngineDriver::new(program, location, engine);
    let succs = driver.step().expect("the step succeeds");
    assert!(succs.is_empty());
}

#[test]
fn from_address_finds_the_instruction() {
    let program = branching_program();
    let loc = ProgramLocation::from_address(0x200, &program).expect("the address exists");
    assert_eq!(loc.function_index(), 0);
    match loc.function_location() {
        FunctionLocation::Instruction { block_index, instruction_index } => {
            assert_eq!(*block_index, 0);
            assert_eq!(*instruction_index, 0);
        },
        _ => panic!("expected an instruction location"),
    }
    assert!(ProgramLocation::from_address(0xdead, &program).is_none());
}

#[test]
fn engine_executes_straight_line_code() {
    let memory = SymbolicMemory::new(64, Endian::Little);
    let mut engine = SymbolicEngine::new(memory);
    let a = Scalar::new(1, 32);
    let b = Scalar::new(2, 32);
    engine
        .execute(&Operation::Assign { dst: a, src: Expression::constant(41, 32) })
        .expect("assign succeeds");
    let src = Expression::Binop(
        BinOp::Add,
        Box::new(Expression::Scalar(a)),
        Box::new(Expression::constant(1, 32)),
    );
    engine.execute(&Operation::Assign { dst: b, src }).expect("assign succeeds");
    match engine.get_scalar(&b) {
        Some(Expression::Constant(c)) => assert_eq!(c.value, 42),
        _ => panic!("expected the folded constant"),
    }
}

#[test]
fn engine_store_load_round_trips_through_memory() {
    let memory = SymbolicMemory::new(64, Endian::Little);
    let mut engine = SymbolicEngine::new(memory);
    let d = Scalar::new(5, 32);
    engine
        .execute(&Operation::Store {
            address: Expression::constant(0x5000, 64),
            src: Expression::constant(0xdeadbeef, 32),
        })
        .expect("store succeeds");
    engine
        .execute(&Operation::Load { dst: d, address: Expression::constant(0x5000, 64) })
        .expect("load succeeds");
    match engine.get_scalar(&d) {
        Some(Expression::Constant(c)) => {
            assert_eq!(c.value, 0xdeadbeef);
            assert_eq!(c.bits, 32);
        },
        _ => panic!("expected the loaded constant"),
    }
}

#[test]
fn engine_rejects_a_symbolic_store_address() {
    let memory = SymbolicMemory::new(64, Endian::Little);
    let mut engine = SymbolicEngine::new(memory);
    let r = engine.execute(&Operation::Store {
        address: Expression::Scalar(Scalar::new(8, 64)),
        src: Expression::constant(1, 8),
    });
    assert_eq!(r.err(), Some(Error::AddressUnresolved));
}
