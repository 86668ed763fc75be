//! Addressing into a program's control-flow graphs: program locations
//! (for the symbolic execution driver) and analysis locations (the
//! dataflow points a fixed-point analysis assigns state to).

use vstd::prelude::*;
use crate::il::{ControlFlowGraph, Program};

verus! {

/// A point inside one function's control-flow graph.
#[derive(Clone, Copy, PartialEq, Eq, Structural, Debug)]
pub enum FunctionLocation {
    /// An instruction, by block index and instruction index.
    Instruction { block_index: usize, instruction_index: usize },
    /// An edge, by the indices of its head and tail blocks.
    Edge { head: usize, tail: usize },
    /// A block without instructions.
    EmptyBlock { block_index: usize },
}

/// A point inside a program: a function index and a location within
/// that function's control-flow graph.
#[derive(Clone, Copy, PartialEq, Eq, Structural, Debug)]
pub struct ProgramLocation {
    pub function_index: usize,
    pub function_location: FunctionLocation,
}

impl ProgramLocation {
    /// Whether the location resolves inside the program it addresses.
    pub open spec fn resolves_in(self, p: Program) -> bool {
        &&& self.function_index < p.functions@.len()
        &&& {
            let cfg = p.functions@[self.function_index as int].cfg;
            match self.function_location {
                FunctionLocation::Instruction { block_index, instruction_index } => {
                    &&& block_index < cfg.blocks@.len()
                    &&& instruction_index < cfg.blocks@[block_index as int].instructions@.len()
                },
                FunctionLocation::Edge { head, tail } => exists|e: int|
                    0 <= e < cfg.edges@.len() && (#[trigger] cfg.edges@[e]).head == head
                        && cfg.edges@[e].tail == tail,
                FunctionLocation::EmptyBlock { block_index } => {
                    &&& block_index < cfg.blocks@.len()
                    &&& cfg.blocks@[block_index as int].instructions@.len() == 0
                },
            }
        }
    }

    pub fn new(function_index: usize, function_location: FunctionLocation) -> (r: ProgramLocation)
        ensures
            r == (ProgramLocation { function_index, function_location }),
    {
        ProgramLocation { function_index, function_location }
    }

    pub fn function_index(&self) -> (r: usize)
        ensures
            r == self.function_index,
    {
        self.function_index
    }

    pub fn function_location(&self) -> (r: &FunctionLocation)
        ensures
            *r == self.function_location,
    {
        &self.function_location
    }

    /// The location of the instruction whose address matches, searching
    /// every function's control-flow graph. `None` exactly when no
    /// instruction in the program carries the address.
    pub fn from_address(address: u64, program: &Program) -> (r: Option<ProgramLocation>)
        ensures
            match r {
                Some(loc) => loc.resolves_in(*program) && program_has_address(*program, address)
                    && loc_address(*program, loc) == Some(address),
                None => !program_has_address(*program, address),
            },
    {
        let mut f: usize = 0;
        while f < program.functions.len()
            invariant
                0 <= f <= program.functions@.len(),
                forall|fi: int, b: int, i: int|
                    #![all_triggers]
                    (0 <= fi < f && 0 <= b < program.functions@[fi].cfg.blocks@.len() && 0 <= i
                        < program.functions@[fi].cfg.blocks@[b].instructions@.len())
                        ==> program.functions@[fi].cfg.blocks@[b].instructions@[i].address
                        != Some(address),
            decreases program.functions@.len() - f,
        {
            let cfg = &program.functions[f].cfg;
            let mut b: usize = 0;
            while b < cfg.blocks.len()
                invariant
                    0 <= b <= cfg.blocks@.len(),
                    f < program.functions@.len(),
                    *cfg == program.functions@[f as int].cfg,
                    forall|bi: int, i: int|
                        #![all_triggers]
                        (0 <= bi < b && 0 <= i < cfg.blocks@[bi].instructions@.len())
                            ==> cfg.blocks@[bi].instructions@[i].address != Some(address),
                decreases cfg.blocks@.len() - b,
            {
                let block = &cfg.blocks[b];
                let mut i: usize = 0;
                while i < block.instructions.len()
                    invariant
                        0 <= i <= block.instructions@.len(),
                        f < program.functions@.len(),
                        b < cfg.blocks@.len(),
                        *cfg == program.functions@[f as int].cfg,
                        *block == cfg.blocks@[b as int],
                        forall|k: int|
                            0 <= k < i ==> (#[trigger] block.instructions@[k]).address != Some(
                                address,
                            ),
                    decreases block.instructions@.len() - i,
                {
                    let matches_here = match block.instructions[i].address {
                        Some(a) => a == address,
                        None => false,
                    };
                    if matches_here {
                        return Some(
                            ProgramLocation {
                                function_index: f,
                                function_location: FunctionLocation::Instruction {
                                    block_index: b,
                                    instruction_index: i,
                                },
                            },
                        );
                    }
                    i = i + 1;
                }
                b = b + 1;
            }
            f = f + 1;
        }
        None
    }
}

/// Whether some instruction in the program carries the address.
pub open spec fn program_has_address(p: Program, address: u64) -> bool {
    exists|fi: int, b: int, i: int|
        #![all_triggers]
        0 <= fi < p.functions@.len() && 0 <= b < p.functions@[fi].cfg.blocks@.len() && 0 <= i
            < p.functions@[fi].cfg.blocks@[b].instructions@.len()
            && p.functions@[fi].cfg.blocks@[b].instructions@[i].address == Some(address)
}

/// The machine address at an instruction location, if any.
pub open spec fn loc_address(p: Program, loc: ProgramLocation) -> Option<u64> {
    match loc.function_location {
        FunctionLocation::Instruction { block_index, instruction_index } => if loc.resolves_in(p) {
            p.functions@[loc.function_index as int].cfg.blocks@[
                block_index as int].instructions@[instruction_index as int].address
        } else {
            None
        },
        _ => None,
    }
}

/// A dataflow point of a fixed-point analysis over one control-flow
/// graph: an instruction, an edge, or a block without instructions.
#[derive(Clone, Copy, PartialEq, Eq, Structural, Debug)]
pub enum AnalysisLocation {
    Edge { head: usize, tail: usize },
    Instruction { block_index: usize, instruction_index: usize },
    EmptyBlock { block_index: usize },
}

/// All analysis locations of a control-flow graph.
pub open spec fn analysis_location_set(cfg: ControlFlowGraph) -> Set<AnalysisLocation> {
    Set::new(
        |loc: AnalysisLocation|
            match loc {
                AnalysisLocation::Instruction { block_index, instruction_index } => {
                    &&& block_index < cfg.blocks@.len()
                    &&& instruction_index < cfg.blocks@[block_index as int].instructions@.len()
                },
                AnalysisLocation::EmptyBlock { block_index } => {
                    &&& block_index < cfg.blocks@.len()
                    &&& cfg.blocks@[block_index as int].instructions@.len() == 0
                },
                AnalysisLocation::Edge { head, tail } => exists|e: int|
                    0 <= e < cfg.edges@.len() && (#[trigger] cfg.edges@[e]).head == head
                        && cfg.edges@[e].tail == tail,
            },
    )
}

/// List every analysis location of a control-flow graph, each exactly
/// once.
pub fn analysis_locations(cfg: &ControlFlowGraph) -> (r: Vec<AnalysisLocation>)
    requires
        cfg.wf(),
    ensures
        r@.no_duplicates(),
        forall|i: int| 0 <= i < r@.len() ==> analysis_location_set(*cfg).contains(#[trigger] r@[i]),
        forall|loc: AnalysisLocation|
            #[trigger] analysis_location_set(*cfg).contains(loc) ==> r@.contains(loc),
{
    let mut out: Vec<AnalysisLocation> = Vec::new();
    let mut b: usize = 0;
    while b < cfg.blocks.len()
        invariant
            0 <= b <= cfg.blocks@.len(),
            cfg.wf(),
            out@.no_duplicates(),
            forall|k: int|
                0 <= k < out@.len() ==> analysis_location_set(*cfg).contains(#[trigger] out@[k]),
            forall|k: int| 0 <= k < out@.len() ==> !((#[trigger] out@[k]) is Edge),
            forall|k: int|
                0 <= k < out@.len() ==> ((#[trigger] out@[k]) matches AnalysisLocation::Instruction {
                    block_index,
                    ..
                } ==> block_index < b) && (out@[k] matches AnalysisLocation::EmptyBlock {
                    block_index,
                } ==> block_index < b),
            forall|loc: AnalysisLocation|
                #[trigger] analysis_location_set(*cfg).contains(loc) ==> match loc {
                    AnalysisLocation::Instruction { block_index, .. } => block_index < b
                        ==> out@.contains(loc),
                    AnalysisLocation::EmptyBlock { block_index } => block_index < b
                        ==> out@.contains(loc),
                    AnalysisLocation::Edge { .. } => true,
                },
        decreases cfg.blocks@.len() - b,
    {
        let n = cfg.blocks[b].instructions.len();
        if n == 0 {
            let loc = AnalysisLocation::EmptyBlock { block_index: b };
            proof {
                assert(!out@.contains(loc));
                assert(analysis_location_set(*cfg).contains(loc));
            }
            let ghost before = out@;
            out.push(loc);
            proof {
                assert forall|l2: AnalysisLocation| before.contains(l2) implies out@.contains(
                    l2,
                ) by {
                    let k = choose|k: int| 0 <= k < before.len() && before[k] == l2;
                    assert(out@[k] == l2);
                }
                assert(out@[out@.len() - 1] == loc);
            }
        } else {
            let mut i: usize = 0;
            while i < n
                invariant
                    0 <= i <= n,
                    b < cfg.blocks@.len(),
                    n == cfg.blocks@[b as int].instructions@.len(),
                    cfg.wf(),
                    out@.no_duplicates(),
                    forall|k: int|
                        0 <= k < out@.len() ==> analysis_location_set(*cfg).contains(
                            #[trigger] out@[k],
                        ),
                    forall|k: int| 0 <= k < out@.len() ==> !((#[trigger] out@[k]) is Edge),
                    forall|k: int|
                        0 <= k < out@.len() ==> ((#[trigger] out@[k]) matches AnalysisLocation::Instruction {
                            block_index,
                            instruction_index,
                        } ==> (block_index < b || (block_index == b && instruction_index < i))) && (
                        out@[k] matches AnalysisLocation::EmptyBlock { block_index }
                            ==> block_index < b),
                    forall|loc: AnalysisLocation|
                        #[trigger] analysis_location_set(*cfg).contains(loc) ==> match loc {
                            AnalysisLocation::Instruction { block_index, instruction_index } => (
                            block_index < b || (block_index == b && instruction_index < i))
                                ==> out@.contains(loc),
                            AnalysisLocation::EmptyBlock { block_index } => block_index < b
                                ==> out@.contains(loc),
                            AnalysisLocation::Edge { .. } => true,
                        },
                decreases n - i,
            {
                let loc = AnalysisLocation::Instruction { block_index: b, instruction_index: i };
                proof {
                    assert(!out@.contains(loc));
                    assert(analysis_location_set(*cfg).contains(loc));
                }
                let ghost before = out@;
                out.push(loc);
                proof {
                    assert forall|l2: AnalysisLocation| before.contains(l2) implies
                        out@.contains(l2) by {
                        let k = choose|k: int| 0 <= k < before.len() && before[k] == l2;
                        assert(out@[k] == l2);
                    }
                    assert(out@[out@.len() - 1] == loc);
                }
                i = i + 1;
            }
        }
        proof {
            let ghost cur = out@;
            assert forall|loc: AnalysisLocation| #[trigger] analysis_location_set(
                *cfg,
            ).contains(loc) implies match loc {
                AnalysisLocation::Instruction { block_index, .. } => block_index < b + 1
                    ==> cur.contains(loc),
                AnalysisLocation::EmptyBlock { block_index } => block_index < b + 1
                    ==> cur.contains(loc),
                AnalysisLocation::Edge { .. } => true,
            } by {}
        }
        b = b + 1;
    }
    let mut e: usize = 0;
    while e < cfg.edges.len()
        invariant
            0 <= e <= cfg.edges@.len(),
            cfg.wf(),
            out@.no_duplicates(),
            forall|k: int|
                0 <= k < out@.len() ==> analysis_location_set(*cfg).contains(#[trigger] out@[k]),
            forall|k: int|
                0 <= k < out@.len() ==> ((#[trigger] out@[k]) matches AnalysisLocation::Edge {
                    head,
                    tail,
                } ==> exists|e2: int|
                    0 <= e2 < e && (#[trigger] cfg.edges@[e2]).head == head && cfg.edges@[e2].tail
                        == tail),
            forall|loc: AnalysisLocation|
                #[trigger] analysis_location_set(*cfg).contains(loc) ==> match loc {
                    AnalysisLocation::Instruction { .. } => out@.contains(loc),
                    AnalysisLocation::EmptyBlock { .. } => out@.contains(loc),
                    AnalysisLocation::Edge { head, tail } => (exists|e2: int|
                        0 <= e2 < e && (#[trigger] cfg.edges@[e2]).head == head
                            && cfg.edges@[e2].tail == tail) ==> out@.contains(loc),
                },
        decreases cfg.edges@.len() - e,
    {
        let loc = AnalysisLocation::Edge { head: cfg.edges[e].head, tail: cfg.edges[e].tail };
        proof {
            assert(!out@.contains(loc)) by {
                if out@.contains(loc) {
                    let k = choose|k: int| 0 <= k < out@.len() && out@[k] == loc;
                    let e2 = choose|e2: int|
                        0 <= e2 < e && (#[trigger] cfg.edges@[e2]).head == cfg.edges@[e as int].head
                            && cfg.edges@[e2].tail == cfg.edges@[e as int].tail;
                }
            }
            assert(analysis_location_set(*cfg).contains(loc)) by {
                assert(0 <= e < cfg.edges@.len() && (cfg.edges@[e as int]).head
                    == cfg.edges@[e as int].head && cfg.edges@[e as int].tail
                    == cfg.edges@[e as int].tail);
            }
        }
        let ghost before = out@;
        out.push(loc);
        proof {
            assert forall|l2: AnalysisLocation| before.contains(l2) implies out@.contains(l2) by {
                let k = choose|k: int| 0 <= k < before.len() && before[k] == l2;
                assert(out@[k] == l2);
            }
            assert(out@[out@.len() - 1] == loc);
            assert forall|l2: AnalysisLocation| #[trigger] analysis_location_set(
                *cfg,
            ).contains(l2) implies match l2 {
                AnalysisLocation::Instruction { .. } => out@.contains(l2),
                AnalysisLocation::EmptyBlock { .. } => out@.contains(l2),
                AnalysisLocation::Edge { head, tail } => (exists|e2: int|
                    0 <= e2 < e + 1 && (#[trigger] cfg.edges@[e2]).head == head
                        && cfg.edges@[e2].tail == tail) ==> out@.contains(l2),
            } by {
                match l2 {
                    AnalysisLocation::Edge { head, tail } => {
                        if exists|e2: int|
                            0 <= e2 < e + 1 && (#[trigger] cfg.edges@[e2]).head == head
                                && cfg.edges@[e2].tail == tail {
                            let e2 = choose|e2: int|
                                0 <= e2 < e + 1 && (#[trigger] cfg.edges@[e2]).head == head
                                    && cfg.edges@[e2].tail == tail;
                            if e2 < e {
                                assert(before.contains(l2));
                            } else {
                                assert(l2 == loc);
                            }
                        }
                    },
                    _ => {},
                }
            }
        }
        e = e + 1;
    }
    out
}

} // verus!
