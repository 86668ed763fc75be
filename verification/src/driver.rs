//! The symbolic execution driver: one independent execution path,
//! owning a program location and a symbolic engine, and sharing the
//! (immutable) program with the drivers forked from it. One step may
//! yield zero successors (a terminal path), one (straight-line code or a
//! resolved branch), or several (an unresolved conditional branch).

use vstd::prelude::*;
use std::rc::Rc;
use crate::engine::{SymbolicEngine, spec_concretize, spec_execute_ok};
use crate::error::Error;
use crate::il::{ControlFlowGraph, Expression, Program, Scalar};
use crate::location::{FunctionLocation, ProgramLocation};

verus! {

/// Relies on Rc::clone: returns another handle to the same shared
/// value, without copying it.
#[verifier::external_body]
fn share_program(p: &Rc<Program>) -> (r: Rc<Program>)
    ensures
        r == *p,
{
    Rc::clone(p)
}

/// How many successor paths leaving block `b` the first `upto` edges
/// contribute: an unconditional edge always continues, a conditional
/// edge continues unless its condition concretizes to zero, and an
/// unresolvable condition forks a path too.
pub open spec fn feasible_successor_count(
    cfg: ControlFlowGraph,
    b: int,
    vm: Map<Scalar, Expression>,
    upto: int,
) -> int
    decreases upto,
{
    if upto <= 0 {
        0
    } else {
        feasible_successor_count(cfg, b, vm, upto - 1) + (if cfg.edges@[upto - 1].head == b {
            match cfg.edges@[upto - 1].condition {
                None => 1int,
                Some(c) => match spec_concretize(c, vm) {
                    Some(k) => if k.value != 0 {
                        1int
                    } else {
                        0int
                    },
                    None => 1int,
                },
            }
        } else {
            0int
        })
    }
}

/// How many edges leave block `b` among the first `upto` edges.
pub open spec fn out_edge_count(cfg: ControlFlowGraph, b: int, upto: int) -> int
    decreases upto,
{
    if upto <= 0 {
        0
    } else {
        out_edge_count(cfg, b, upto - 1) + (if cfg.edges@[upto - 1].head == b {
            1int
        } else {
            0int
        })
    }
}

/// Every edge leaving block `b` is conditional and its condition cannot
/// be resolved to a single concrete value under the valuation.
pub open spec fn all_out_edges_unresolved(
    cfg: ControlFlowGraph,
    b: int,
    vm: Map<Scalar, Expression>,
) -> bool {
    forall|e: int|
        0 <= e < cfg.edges@.len() && (#[trigger] cfg.edges@[e]).head == b ==> cfg.edges@[e].condition
            is Some && spec_concretize(cfg.edges@[e].condition->Some_0, vm) is None
}

/// A branch none of whose conditions can be resolved forks into one
/// successor per outgoing edge: a two-way conditional branch yields
/// exactly two successor drivers.
pub proof fn lemma_unresolved_branch_forks(
    cfg: ControlFlowGraph,
    b: int,
    vm: Map<Scalar, Expression>,
    upto: int,
)
    requires
        0 <= upto <= cfg.edges@.len(),
        all_out_edges_unresolved(cfg, b, vm),
    ensures
        feasible_successor_count(cfg, b, vm, upto) == out_edge_count(cfg, b, upto),
    decreases upto,
{
    if upto > 0 {
        lemma_unresolved_branch_forks(cfg, b, vm, upto - 1);
        if cfg.edges@[upto - 1].head == b {
            assert(cfg.edges@[upto - 1].condition is Some);
        }
    }
}

/// One independent symbolic execution path.
pub struct EngineDriver {
    pub program: Rc<Program>,
    pub location: ProgramLocation,
    pub engine: SymbolicEngine,
}

impl EngineDriver {
    pub open spec fn wf(self) -> bool {
        &&& self.program.wf()
        &&& self.engine.wf()
    }

    /// When a step succeeds: the location resolves far enough for the
    /// step to act (its function, block, and instruction exist; an
    /// edge's tail block exists), and, at an instruction, executing its
    /// operation succeeds under the current valuation.
    pub open spec fn step_ok(self) -> bool {
        &&& self.location.function_index < self.program.functions@.len()
        &&& {
            let cfg = self.program.functions@[self.location.function_index as int].cfg;
            match self.location.function_location {
                FunctionLocation::Instruction { block_index, instruction_index } => {
                    &&& block_index < cfg.blocks@.len()
                    &&& instruction_index < cfg.blocks@[block_index as int].instructions@.len()
                    &&& spec_execute_ok(
                        cfg.blocks@[block_index as int].instructions@[
                            instruction_index as int].operation,
                        self.engine.valuation(),
                    )
                },
                FunctionLocation::Edge { head, tail } => tail < cfg.blocks@.len(),
                FunctionLocation::EmptyBlock { .. } => true,
            }
        }
    }

    pub fn new(program: Rc<Program>, location: ProgramLocation, engine: SymbolicEngine) -> (r:
        EngineDriver)
        ensures
            r.program == program,
            r.location == location,
            r.engine == engine,
    {
        EngineDriver { program, location, engine }
    }

    pub fn location(&self) -> (r: &ProgramLocation)
        ensures
            *r == self.location,
    {
        &self.location
    }

    pub fn program(&self) -> (r: &Rc<Program>)
        ensures
            *r == self.program,
    {
        &self.program
    }

    pub fn engine(&self) -> (r: &SymbolicEngine)
        ensures
            *r == self.engine,
    {
        &self.engine
    }

    /// Advance this path by one location. Returns the ordered successor
    /// drivers: none at a terminal location, one along straight-line
    /// code or a resolved branch, one per feasible edge at a branch —
    /// with exactly one more assertion on each path forked at an
    /// unresolvable condition. Successors share the program; each owns
    /// its engine.
    pub fn step(self) -> (r: Result<Vec<EngineDriver>, Error>)
        requires
            self.wf(),
        ensures
            r matches Ok(succs) ==> forall|k: int|
                0 <= k < succs@.len() ==> (#[trigger] succs@[k]).program == self.program
                    && succs@[k].wf() && self.engine.assertions@.is_prefix_of(
                    succs@[k].engine.assertions@),
            (r is Ok) == self.step_ok(),
            r matches Err(e) ==> e == Error::LocationNotFound || e == Error::AddressUnresolved
                || e == Error::EvaluationWidth,
            r matches Err(e) ==> (e == Error::LocationNotFound) == !(
            self.location.function_index < self.program.functions@.len() && match self.location.function_location {
                FunctionLocation::Instruction { block_index, instruction_index } => block_index
                    < self.program.functions@[
                    self.location.function_index as int].cfg.blocks@.len() && instruction_index
                    < self.program.functions@[self.location.function_index as int].cfg.blocks@[
                    block_index as int].instructions@.len(),
                FunctionLocation::Edge { head, tail } => tail < self.program.functions@[
                    self.location.function_index as int].cfg.blocks@.len(),
                FunctionLocation::EmptyBlock { .. } => true,
            }),
            r matches Ok(succs) ==> match self.location.function_location {
                FunctionLocation::Edge { head, tail } => {
                    &&& self.location.function_index < self.program.functions@.len()
                    &&& tail < self.program.functions@[
                        self.location.function_index as int].cfg.blocks@.len()
                    &&& succs@.len() == 1
                    &&& succs@[0].engine == self.engine
                    &&& succs@[0].location == (ProgramLocation {
                        function_index: self.location.function_index,
                        function_location: if self.program.functions@[
                            self.location.function_index as int].cfg.blocks@[
                            tail as int].instructions@.len() == 0 {
                            FunctionLocation::EmptyBlock { block_index: tail }
                        } else {
                            FunctionLocation::Instruction { block_index: tail, instruction_index: 0 }
                        },
                    })
                },
                FunctionLocation::Instruction { block_index, instruction_index } => {
                    &&& self.location.function_index < self.program.functions@.len()
                    &&& block_index < self.program.functions@[
                        self.location.function_index as int].cfg.blocks@.len()
                    &&& instruction_index < self.program.functions@[
                        self.location.function_index as int].cfg.blocks@[
                        block_index as int].instructions@.len()
                    &&& (instruction_index + 1 < self.program.functions@[
                        self.location.function_index as int].cfg.blocks@[
                        block_index as int].instructions@.len() ==> succs@.len() == 1 && succs@[
                        0].location == (ProgramLocation {
                        function_index: self.location.function_index,
                        function_location: FunctionLocation::Instruction {
                            block_index,
                            instruction_index: (instruction_index + 1) as usize,
                        },
                    }))
                    &&& (instruction_index + 1 >= self.program.functions@[
                        self.location.function_index as int].cfg.blocks@[
                        block_index as int].instructions@.len() ==> forall|k: int|
                        0 <= k < succs@.len() ==> exists|e2: int|
                            0 <= e2 < self.program.functions@[
                                self.location.function_index as int].cfg.edges@.len() && (
                            #[trigger] self.program.functions@[
                                self.location.function_index as int].cfg.edges@[e2]).head
                                == block_index && (#[trigger] succs@[k]).location.function_location
                                == (FunctionLocation::Edge {
                                head: self.program.functions@[
                                    self.location.function_index as int].cfg.edges@[e2].head,
                                tail: self.program.functions@[
                                    self.location.function_index as int].cfg.edges@[e2].tail,
                            }))
                },
                FunctionLocation::EmptyBlock { block_index } => {
                    let cfg = self.program.functions@[self.location.function_index as int].cfg;
                    &&& succs@.len() == feasible_successor_count(
                        cfg,
                        block_index as int,
                        self.engine.valuation(),
                        cfg.edges@.len() as int,
                    )
                    &&& forall|k: int|
                        0 <= k < succs@.len() ==> (#[trigger] succs@[k]).engine.valuation()
                            == self.engine.valuation() && exists|e2: int|
                            0 <= e2 < cfg.edges@.len() && (#[trigger] cfg.edges@[e2]).head
                                == block_index && succs@[k].location.function_location
                                == (FunctionLocation::Edge {
                                head: cfg.edges@[e2].head,
                                tail: cfg.edges@[e2].tail,
                            }) && (match cfg.edges@[e2].condition {
                                None => succs@[k].engine.assertions@ == self.engine.assertions@,
                                Some(c) => (spec_concretize(c, self.engine.valuation())
                                    matches Some(cv) ==> cv.value != 0
                                    && succs@[k].engine.assertions@ == self.engine.assertions@) && (
                                spec_concretize(c, self.engine.valuation()) is None
                                    ==> succs@[k].engine.assertions@
                                    == self.engine.assertions@.push(c)),
                            })
                    &&& all_out_edges_unresolved(cfg, block_index as int, self.engine.valuation())
                        ==> forall|k: int|
                        0 <= k < succs@.len() ==> (#[trigger] succs@[k]).engine.assertions@.len()
                            == self.engine.assertions@.len() + 1
                },
            },
    {
        let EngineDriver { program, location, mut engine } = self;
        let fi = location.function_index;
        let func = match program.function(fi) {
            Some(f) => f,
            None => {
                return Err(Error::LocationNotFound);
            },
        };
        let cfg = &func.cfg;
        match location.function_location {
            FunctionLocation::Instruction { block_index, instruction_index } => {
                let block = match cfg.block(block_index) {
                    Some(b) => b,
                    None => {
                        return Err(Error::LocationNotFound);
                    },
                };
                let ins = match block.instruction(instruction_index) {
                    Some(i) => i,
                    None => {
                        return Err(Error::LocationNotFound);
                    },
                };
                proof {
                    assert(program.functions@[fi as int].wf());
                    assert(cfg.blocks@[block_index as int].wf());
                    assert(block.instructions@[instruction_index as int].wf());
                }
                match engine.execute(&ins.operation) {
                    Ok(_) => {},
                    Err(e) => {
                        return Err(e);
                    },
                }
                let n = block.instructions.len();
                proof {
                    assert(instruction_index < block.instructions@.len());
                }
                if n - instruction_index > 1 {
                    let loc = ProgramLocation {
                        function_index: fi,
                        function_location: FunctionLocation::Instruction {
                            block_index,
                            instruction_index: instruction_index + 1,
                        },
                    };
                    let mut out: Vec<EngineDriver> = Vec::new();
                    out.push(EngineDriver { program: share_program(&program), location: loc, engine });
                    Ok(out)
                } else {
                    Self::branch_successors(&program, fi, block_index, &engine)
                }
            },
            FunctionLocation::EmptyBlock { block_index } => {
                Self::branch_successors(&program, fi, block_index, &engine)
            },
            FunctionLocation::Edge { head, tail } => {
                let block = match cfg.block(tail) {
                    Some(b) => b,
                    None => {
                        return Err(Error::LocationNotFound);
                    },
                };
                let floc = if block.instructions.len() == 0 {
                    FunctionLocation::EmptyBlock { block_index: tail }
                } else {
                    FunctionLocation::Instruction { block_index: tail, instruction_index: 0 }
                };
                let loc = ProgramLocation { function_index: fi, function_location: floc };
                let mut out: Vec<EngineDriver> = Vec::new();
                out.push(EngineDriver { program: share_program(&program), location: loc, engine });
                Ok(out)
            },
        }
    }

    /// The successor drivers leaving a block: one per feasible outgoing
    /// edge. A condition that concretizes to zero is infeasible and
    /// dropped; one that concretizes to a non-zero value continues
    /// without forking; an unresolvable one forks, recording the edge's
    /// condition as one more path assertion on that successor alone.
    pub fn branch_successors(
        program: &Rc<Program>,
        function_index: usize,
        block_index: usize,
        engine: &SymbolicEngine,
    ) -> (r: Result<Vec<EngineDriver>, Error>)
        requires
            program.wf(),
            engine.wf(),
            function_index < program.functions@.len(),
        ensures
            r is Ok,
            r matches Ok(succs) ==> {
                let cfg = program.functions@[function_index as int].cfg;
                &&& succs@.len() == feasible_successor_count(
                    cfg,
                    block_index as int,
                    engine.valuation(),
                    cfg.edges@.len() as int,
                )
                &&& forall|k: int|
                    0 <= k < succs@.len() ==> (#[trigger] succs@[k]).program == *program
                        && succs@[k].wf() && succs@[k].engine.valuation() == engine.valuation()
                        && succs@[k].engine.memory.view_map() == engine.memory.view_map()
                        && succs@[k].location.function_index == function_index
                        && engine.assertions@.is_prefix_of(succs@[k].engine.assertions@)
                &&& forall|k: int|
                    0 <= k < succs@.len() ==> exists|e2: int|
                        0 <= e2 < cfg.edges@.len() && (#[trigger] cfg.edges@[e2]).head
                            == block_index && (#[trigger] succs@[k]).location.function_location
                            == (FunctionLocation::Edge {
                            head: cfg.edges@[e2].head,
                            tail: cfg.edges@[e2].tail,
                        }) && (match cfg.edges@[e2].condition {
                            None => succs@[k].engine.assertions@ == engine.assertions@,
                            Some(c) => (spec_concretize(c, engine.valuation()) matches Some(cv)
                                ==> cv.value != 0 && succs@[k].engine.assertions@
                                == engine.assertions@) && (spec_concretize(c, engine.valuation())
                                is None ==> succs@[k].engine.assertions@
                                == engine.assertions@.push(c)),
                        })
                &&& all_out_edges_unresolved(cfg, block_index as int, engine.valuation())
                    ==> forall|k: int|
                    0 <= k < succs@.len() ==> (#[trigger] succs@[k]).engine.assertions@.len()
                        == engine.assertions@.len() + 1
            },
    {
        let ghost cfgg = program.functions@[function_index as int].cfg;
        let ghost vm = engine.valuation();
        let func = match program.function(function_index) {
            Some(f) => f,
            None => {
                proof {
                    assert(false);
                }
                return Err(Error::LocationNotFound);
            },
        };
        let cfg = &func.cfg;
        proof {
            assert(program.functions@[function_index as int].wf());
        }
        let mut out: Vec<EngineDriver> = Vec::new();
        let mut e: usize = 0;
        while e < cfg.edges.len()
            invariant
                0 <= e <= cfg.edges@.len(),
                program.wf(),
                engine.wf(),
                function_index < program.functions@.len(),
                *cfg == cfgg,
                cfgg == program.functions@[function_index as int].cfg,
                cfgg.wf(),
                vm == engine.valuation(),
                out@.len() == feasible_successor_count(cfgg, block_index as int, vm, e as int),
                forall|k: int|
                    0 <= k < out@.len() ==> (#[trigger] out@[k]).program == *program && out@[k].wf()
                        && out@[k].engine.valuation() == engine.valuation()
                        && out@[k].engine.memory.view_map() == engine.memory.view_map()
                        && out@[k].location.function_index == function_index
                        && engine.assertions@.is_prefix_of(out@[k].engine.assertions@),
                forall|k: int|
                    0 <= k < out@.len() ==> exists|e2: int|
                        0 <= e2 < cfgg.edges@.len() && (#[trigger] cfgg.edges@[e2]).head
                            == block_index && (#[trigger] out@[k]).location.function_location
                            == (FunctionLocation::Edge {
                            head: cfgg.edges@[e2].head,
                            tail: cfgg.edges@[e2].tail,
                        }) && (match cfgg.edges@[e2].condition {
                            None => out@[k].engine.assertions@ == engine.assertions@,
                            Some(c) => (spec_concretize(c, vm) matches Some(cv) ==> cv.value != 0
                                && out@[k].engine.assertions@ == engine.assertions@) && (
                            spec_concretize(c, vm) is None ==> out@[k].engine.assertions@
                                == engine.assertions@.push(c)),
                        }),
                all_out_edges_unresolved(cfgg, block_index as int, vm) ==> forall|k: int|
                    0 <= k < out@.len() ==> (#[trigger] out@[k]).engine.assertions@.len()
                        == engine.assertions@.len() + 1,
            decreases cfg.edges@.len() - e,
        {
            if cfg.edges[e].head == block_index {
                let loc = ProgramLocation {
                    function_index,
                    function_location: FunctionLocation::Edge {
                        head: cfg.edges[e].head,
                        tail: cfg.edges[e].tail,
                    },
                };
                match &cfg.edges[e].condition {
                    None => {
                        proof {
                            assert(cfgg.edges@[e as int].wf(cfgg.blocks@.len()));
                            if all_out_edges_unresolved(cfgg, block_index as int, vm) {
                                assert(cfgg.edges@[e as int].condition is Some);
                            }
                        }
                        let ghost before = out@;
                        out.push(
                            EngineDriver {
                                program: share_program(program),
                                location: loc,
                                engine: engine.clone(),
                            },
                        );
                        proof {
                            assert forall|k: int| 0 <= k < out@.len() implies exists|e2: int|
                                0 <= e2 < cfgg.edges@.len() && (#[trigger] cfgg.edges@[e2]).head
                                    == block_index && (#[trigger] out@[k]).location.function_location
                                    == (FunctionLocation::Edge {
                                    head: cfgg.edges@[e2].head,
                                    tail: cfgg.edges@[e2].tail,
                                }) && (match cfgg.edges@[e2].condition {
                                    None => out@[k].engine.assertions@ == engine.assertions@,
                                    Some(c) => (spec_concretize(c, vm) matches Some(cv)
                                        ==> cv.value != 0 && out@[k].engine.assertions@
                                        == engine.assertions@) && (spec_concretize(c, vm) is None
                                        ==> out@[k].engine.assertions@
                                        == engine.assertions@.push(c)),
                                }) by {
                                if k < before.len() {
                                    assert(out@[k] == before[k]);
                                } else {
                                    assert(0 <= e < cfgg.edges@.len() && cfgg.edges@[e as int].head
                                        == block_index && out@[k].location.function_location
                                        == (FunctionLocation::Edge {
                                        head: cfgg.edges@[e as int].head,
                                        tail: cfgg.edges@[e as int].tail,
                                    }));
                                }
                            }
                        }
                    },
                    Some(cond) => {
                        proof {
                            assert(cfgg.edges@[e as int].wf(cfgg.blocks@.len()));
                            assert(cond.wf());
                        }
                        match engine.concretize(cond) {
                            Some(c) => {
                                if c.value != 0 {
                                    let ghost before = out@;
                                    out.push(
                                        EngineDriver {
                                            program: share_program(program),
                                            location: loc,
                                            engine: engine.clone(),
                                        },
                                    );
                                    proof {
                                        assert forall|k: int| 0 <= k < out@.len() implies exists|
                                            e2: int,
                                        |
                                            0 <= e2 < cfgg.edges@.len() && (
                                            #[trigger] cfgg.edges@[e2]).head == block_index && (
                                            #[trigger] out@[k]).location.function_location
                                                == (FunctionLocation::Edge {
                                                head: cfgg.edges@[e2].head,
                                                tail: cfgg.edges@[e2].tail,
                                            }) && (match cfgg.edges@[e2].condition {
                                                None => out@[k].engine.assertions@
                                                    == engine.assertions@,
                                                Some(c2) => (spec_concretize(c2, vm) matches Some(
                                                    cv,
                                                ) ==> cv.value != 0 && out@[k].engine.assertions@
                                                    == engine.assertions@) && (spec_concretize(
                                                    c2,
                                                    vm,
                                                ) is None ==> out@[k].engine.assertions@
                                                    == engine.assertions@.push(c2)),
                                            }) by {
                                            if k < before.len() {
                                                assert(out@[k] == before[k]);
                                            } else {
                                                assert(0 <= e < cfgg.edges@.len()
                                                    && cfgg.edges@[e as int].head == block_index
                                                    && out@[k].location.function_location
                                                    == (FunctionLocation::Edge {
                                                    head: cfgg.edges@[e as int].head,
                                                    tail: cfgg.edges@[e as int].tail,
                                                }));
                                            }
                                        }
                                    }
                                }
                            },
                            None => {
                                let mut forked = engine.clone();
                                forked.add_assertion(cond.clone());
                                let ghost before = out@;
                                out.push(
                                    EngineDriver {
                                        program: share_program(program),
                                        location: loc,
                                        engine: forked,
                                    },
                                );
                                proof {
                                    assert forall|k: int| 0 <= k < out@.len() implies exists|
                                        e2: int,
                                    |
                                        0 <= e2 < cfgg.edges@.len() && (
                                        #[trigger] cfgg.edges@[e2]).head == block_index && (
                                        #[trigger] out@[k]).location.function_location
                                            == (FunctionLocation::Edge {
                                            head: cfgg.edges@[e2].head,
                                            tail: cfgg.edges@[e2].tail,
                                        }) && (match cfgg.edges@[e2].condition {
                                            None => out@[k].engine.assertions@
                                                == engine.assertions@,
                                            Some(c2) => (spec_concretize(c2, vm) matches Some(cv)
                                                ==> cv.value != 0 && out@[k].engine.assertions@
                                                == engine.assertions@) && (spec_concretize(c2, vm)
                                                is None ==> out@[k].engine.assertions@
                                                == engine.assertions@.push(c2)),
                                        }) by {
                                        if k < before.len() {
                                            assert(out@[k] == before[k]);
                                        } else {
                                            assert(0 <= e < cfgg.edges@.len()
                                                && cfgg.edges@[e as int].head == block_index
                                                && out@[k].location.function_location
                                                == (FunctionLocation::Edge {
                                                head: cfgg.edges@[e as int].head,
                                                tail: cfgg.edges@[e as int].tail,
                                            }));
                                            assert(cfgg.edges@[e as int].condition == Some(*cond));
                                        }
                                    }
                                }
                            },
                        }
                    },
                }
            }
            e = e + 1;
        }
        Ok(out)
    }
}

} // verus!
