//! The value-set analysis: the lattice domain's transfer semantics for
//! each IL operation, plugged into the fixed-point solver.

use vstd::prelude::*;
use crate::assignments::{
    AssignView, LatticeAssignments, join_maps, lookup, spec_eval, spec_eval_ok, spec_store,
    view_unop_ok,
};
use crate::error::Error;
use crate::fixed_point::{
    AnalysisResult, FixedPointAnalysis, dataflow_solution, fixed_point, iterate_views,
    locations_exact, pred_table_exact, result_views, stable_at, view_opt,
};
use crate::il::{ControlFlowGraph, Operation, Scalar, UnOp};
use crate::lattice::{LatticeValue, LatticeView, spec_join, spec_lattice_unop};
use crate::location::{AnalysisLocation, analysis_location_set};

verus! {

/// Byte order of the analyzed machine.
#[derive(Clone, Copy, PartialEq, Eq, Structural, Debug)]
pub enum Endian {
    Big,
    Little,
}

/// The join over a phi operation's sources, missing sources reading as
/// `Meet`.
pub open spec fn phi_fold(srcs: Seq<Scalar>, sm: Map<Scalar, LatticeView>, max: nat) -> LatticeView
    decreases srcs.len(),
{
    if srcs.len() == 0 {
        LatticeView::Bot
    } else {
        spec_join(phi_fold(srcs.drop_last(), sm, max), lookup(sm, srcs.last()), max)
    }
}

/// The state after one IL operation, or `None` where evaluation fails
/// (a unary operator met a value outside its width domain):
/// - `Assign` binds the destination to the evaluated source;
/// - `Store` writes the evaluated source (byte-swapped first on a
///   little-endian machine) through the evaluated address;
/// - `Load` binds the destination to what the abstract memory holds at
///   the evaluated address (swapped back on little-endian), and to
///   `Meet` when the address is imprecise or was never stored; the
///   stored value is returned at the width it was stored with — the
///   destination's declared width neither narrows nor checks it, a
///   documented precision choice;
/// - `Brc` leaves the state unchanged (the condition does not narrow
///   it — a documented imprecision);
/// - `Phi` binds the destination to the join of its sources, `Meet`
///   when there are none.
pub open spec fn spec_transfer(op: Operation, sv: AssignView, little: bool, max: nat) -> Option<
    AssignView,
> {
    match op {
        Operation::Assign { dst, src } => if spec_eval_ok(src, sv.scalars, max) {
            Some(
                AssignView {
                    scalars: sv.scalars.insert(dst, spec_eval(src, sv.scalars, max)),
                    memory: sv.memory,
                },
            )
        } else {
            None
        },
        Operation::Store { address, src } => if spec_eval_ok(address, sv.scalars, max)
            && spec_eval_ok(src, sv.scalars, max) {
            let a = spec_eval(address, sv.scalars, max);
            let v = spec_eval(src, sv.scalars, max);
            if little {
                if view_unop_ok(UnOp::SwapBytes, v) {
                    Some(
                        AssignView {
                            scalars: sv.scalars,
                            memory: spec_store(
                                sv.memory,
                                a,
                                spec_lattice_unop(UnOp::SwapBytes, v, max),
                            ),
                        },
                    )
                } else {
                    None
                }
            } else {
                Some(AssignView { scalars: sv.scalars, memory: spec_store(sv.memory, a, v) })
            }
        } else {
            None
        },
        Operation::Load { dst, address } => if spec_eval_ok(address, sv.scalars, max) {
            let a = spec_eval(address, sv.scalars, max);
            match crate::assignments::single_address(a) {
                Some(ad) => if sv.memory.contains_key(ad) {
                    let v = sv.memory[ad];
                    if little {
                        if view_unop_ok(UnOp::SwapBytes, v) {
                            Some(
                                AssignView {
                                    scalars: sv.scalars.insert(
                                        dst,
                                        spec_lattice_unop(UnOp::SwapBytes, v, max),
                                    ),
                                    memory: sv.memory,
                                },
                            )
                        } else {
                            None
                        }
                    } else {
                        Some(
                            AssignView { scalars: sv.scalars.insert(dst, v), memory: sv.memory },
                        )
                    }
                } else {
                    Some(
                        AssignView {
                            scalars: sv.scalars.insert(dst, LatticeView::Bot),
                            memory: sv.memory,
                        },
                    )
                },
                None => Some(
                    AssignView {
                        scalars: sv.scalars.insert(dst, LatticeView::Bot),
                        memory: sv.memory,
                    },
                ),
            }
        } else {
            None
        },
        Operation::Brc { .. } => Some(sv),
        Operation::Phi { dst, src } => Some(
            AssignView {
                scalars: sv.scalars.insert(dst, phi_fold(src@, sv.scalars, max)),
                memory: sv.memory,
            },
        ),
    }
}

/// The value-set analysis over one control-flow graph: the graph, the
/// widening bound, and the machine's byte order.
pub struct ValueSetAnalysis<'v> {
    pub control_flow_graph: &'v ControlFlowGraph,
    pub max: usize,
    pub endian: Endian,
}

impl<'v> ValueSetAnalysis<'v> {
    pub fn new(control_flow_graph: &'v ControlFlowGraph, max: usize, endian: Endian) -> (r:
        ValueSetAnalysis<'v>)
        requires
            max >= 1,
        ensures
            r.control_flow_graph == control_flow_graph,
            r.max == max,
            r.endian == endian,
    {
        ValueSetAnalysis { control_flow_graph, max, endian }
    }

    pub fn control_flow_graph(&self) -> (r: &ControlFlowGraph)
        ensures
            r == self.control_flow_graph,
    {
        self.control_flow_graph
    }

    pub fn endian(&self) -> (r: &Endian)
        ensures
            *r == self.endian,
    {
        &self.endian
    }

    /// Apply one IL operation's transfer to a state.
    pub fn transfer(&self, operation: &Operation, state: LatticeAssignments) -> (r: Result<
        LatticeAssignments,
        Error,
    >)
        requires
            state.wf(),
            operation.wf(),
            state.max == self.max,
        ensures
            (r is Ok) == (spec_transfer(
                *operation,
                state@,
                self.endian == Endian::Little,
                state.max as nat,
            ) is Some),
            r matches Ok(s) ==> s.wf() && s.max == state.max && s@ == spec_transfer(
                *operation,
                state@,
                self.endian == Endian::Little,
                state.max as nat,
            )->Some_0,
            r matches Err(e) ==> e == Error::EvaluationWidth,
    {
        let max = state.max;
        let little = self.endian == Endian::Little;
        let ghost sv = state@;
        let mut out = state;
        match operation {
            Operation::Assign { dst, src } => {
                let v = out.eval(src)?;
                out.set(*dst, v);
                Ok(out)
            },
            Operation::Store { address, src } => {
                let a = out.eval(address)?;
                let v = out.eval(src)?;
                if little {
                    match LatticeValue::unop(UnOp::SwapBytes, &v, max) {
                        Some(swapped) => {
                            proof {
                                crate::assignments::lemma_unop_ok_view(UnOp::SwapBytes, v);
                            }
                            out.store(&a, swapped);
                            Ok(out)
                        },
                        None => {
                            proof {
                                crate::assignments::lemma_unop_ok_view(UnOp::SwapBytes, v);
                            }
                            Err(Error::EvaluationWidth)
                        },
                    }
                } else {
                    out.store(&a, v);
                    Ok(out)
                }
            },
            Operation::Load { dst, address } => {
                let a = out.eval(address)?;
                match out.load(&a) {
                    Some(v) => {
                        if little {
                            match LatticeValue::unop(UnOp::SwapBytes, &v, max) {
                                Some(swapped) => {
                                    proof {
                                        crate::assignments::lemma_unop_ok_view(UnOp::SwapBytes, v);
                                    }
                                    out.set(*dst, swapped);
                                    Ok(out)
                                },
                                None => {
                                    proof {
                                        crate::assignments::lemma_unop_ok_view(UnOp::SwapBytes, v);
                                    }
                                    Err(Error::EvaluationWidth)
                                },
                            }
                        } else {
                            out.set(*dst, v);
                            Ok(out)
                        }
                    },
                    None => {
                        out.set(*dst, LatticeValue::Meet);
                        Ok(out)
                    },
                }
            },
            Operation::Brc { .. } => Ok(out),
            Operation::Phi { dst, src } => {
                let mut acc = LatticeValue::Meet;
                let mut i: usize = 0;
                proof {
                    assert(src@.take(0) =~= Seq::<Scalar>::empty());
                }
                while i < src.len()
                    invariant
                        0 <= i <= src@.len(),
                        out.wf(),
                        out.max == max,
                        max >= 1,
                        out@ == sv,
                        acc.wf(max as nat),
                        acc@ == phi_fold(src@.take(i as int), sv.scalars, max as nat),
                    decreases src@.len() - i,
                {
                    let v = out.get(&src[i]);
                    acc = acc.join(&v, max);
                    proof {
                        assert(src@.take(i + 1).drop_last() =~= src@.take(i as int));
                        assert(src@.take(i + 1).last() == src@[i as int]);
                    }
                    i = i + 1;
                }
                proof {
                    assert(src@.take(src@.len() as int) =~= src@);
                }
                out.set(*dst, acc);
                Ok(out)
            },
        }
    }
}

impl<'v> FixedPointAnalysis for ValueSetAnalysis<'v> {
    open spec fn inv(&self) -> bool {
        self.max >= 1
    }

    open spec fn bound(&self) -> nat {
        self.max as nat
    }

    open spec fn spec_initial(&self, analysis_location: AnalysisLocation) -> AssignView {
        AssignView {
            scalars: Map::<Scalar, crate::lattice::LatticeView>::empty(),
            memory: Map::<u64, crate::lattice::LatticeView>::empty(),
        }
    }

    open spec fn spec_trans(
        &self,
        analysis_location: AnalysisLocation,
        cfg: ControlFlowGraph,
        state_in: Option<AssignView>,
    ) -> Option<AssignView> {
        let sv = match state_in {
            Some(v) => v,
            None => self.spec_initial(analysis_location),
        };
        match analysis_location {
            AnalysisLocation::Edge { .. } => Some(sv),
            AnalysisLocation::EmptyBlock { .. } => Some(sv),
            AnalysisLocation::Instruction { block_index, instruction_index } => if block_index
                < cfg.blocks@.len() && instruction_index < cfg.blocks@[
                block_index as int].instructions@.len() {
                spec_transfer(
                    cfg.blocks@[block_index as int].instructions@[
                        instruction_index as int].operation,
                    sv,
                    self.endian == Endian::Little,
                    self.max as nat,
                )
            } else {
                None
            },
        }
    }

    open spec fn spec_join_states(&self, a: AssignView, b: AssignView) -> AssignView {
        AssignView {
            scalars: join_maps(a.scalars, b.scalars, self.max as nat),
            memory: join_maps(a.memory, b.memory, self.max as nat),
        }
    }

    open spec fn trans_error_ok(
        &self,
        analysis_location: AnalysisLocation,
        cfg: ControlFlowGraph,
        e: Error,
    ) -> bool {
        match analysis_location {
            AnalysisLocation::Instruction { block_index, instruction_index } => if block_index
                < cfg.blocks@.len() && instruction_index < cfg.blocks@[
                block_index as int].instructions@.len() {
                e == Error::EvaluationWidth
            } else {
                e == Error::LocationNotFound
            },
            _ => false,
        }
    }

    fn initial(&self, analysis_location: &AnalysisLocation) -> (r: Result<
        LatticeAssignments,
        Error,
    >) {
        let s = LatticeAssignments::new(self.max);
        proof {
            assert(s@ == self.spec_initial(*analysis_location));
        }
        Ok(s)
    }

    fn trans(
        &self,
        analysis_location: &AnalysisLocation,
        cfg: &ControlFlowGraph,
        state_in: Option<&LatticeAssignments>,
    ) -> (r: Result<LatticeAssignments, Error>) {
        let ghost sv = match view_opt(state_in) {
            Some(v) => v,
            None => self.spec_initial(*analysis_location),
        };
        let state_out = match state_in {
            Some(si) => si.clone(),
            None => LatticeAssignments::new(self.max),
        };
        proof {
            assert(state_out@ == sv);
        }
        match analysis_location {
            AnalysisLocation::Edge { .. } => Ok(state_out),
            AnalysisLocation::EmptyBlock { .. } => Ok(state_out),
            AnalysisLocation::Instruction { block_index, instruction_index } => {
                let block = match cfg.block(*block_index) {
                    Some(b) => b,
                    None => {
                        return Err(Error::LocationNotFound);
                    },
                };
                let ins = match block.instruction(*instruction_index) {
                    Some(i) => i,
                    None => {
                        return Err(Error::LocationNotFound);
                    },
                };
                proof {
                    assert(cfg.blocks@[*block_index as int].wf());
                    assert(block.instructions@[*instruction_index as int].wf());
                    assert(ins.operation == cfg.blocks@[*block_index as int].instructions@[
                        *instruction_index as int].operation);
                }
                self.transfer(&ins.operation, state_out)
            },
        }
    }

    fn join(&self, state0: LatticeAssignments, state1: &LatticeAssignments) -> (r: Result<
        LatticeAssignments,
        Error,
    >) {
        let ghost a = state0@;
        let ghost b = (*state1)@;
        let joined = state0.join(state1);
        proof {
            assert(joined@ == self.spec_join_states(a, b));
        }
        Ok(joined)
    }
}

/// Run the value-set analysis over a control-flow graph to a fixed
/// point. On success the result assigns a state to every analysis
/// location of the graph, and those states solve the dataflow
/// equations: each location's state is the transfer of the join of its
/// predecessors' states. A run that does not settle within
/// `iteration_cap` passes fails with `DidNotConverge`; the only other
/// failure is a transfer failing on some reachable state.
pub fn compute(
    control_flow_graph: &ControlFlowGraph,
    max: usize,
    endian: Endian,
    iteration_cap: usize,
) -> (r: Result<AnalysisResult, Error>)
    requires
        control_flow_graph.wf(),
        max >= 1,
    ensures
        r matches Ok(res) ==> res.wf() && res.dom() == analysis_location_set(*control_flow_graph)
            && (exists|pt: Seq<Seq<usize>>|
            #[trigger] dataflow_solution(
                &(ValueSetAnalysis { control_flow_graph, max, endian }),
                *control_flow_graph,
                res.locations@,
                res.states@,
                pt,
            )) && (exists|pt: Seq<Seq<usize>>, k: nat|
            #![trigger iterate_views(&(ValueSetAnalysis { control_flow_graph, max, endian }), *control_flow_graph, res.locations@, pt, k)]
            pred_table_exact(*control_flow_graph, res.locations@, pt) && k <= iteration_cap
                && iterate_views(
                &(ValueSetAnalysis { control_flow_graph, max, endian }),
                *control_flow_graph,
                res.locations@,
                pt,
                k,
            ) == Some(result_views(res.states@)) && stable_at(
                &(ValueSetAnalysis { control_flow_graph, max, endian }),
                *control_flow_graph,
                res.locations@,
                pt,
                k,
            )),
        r matches Err(e) ==> (e == Error::EvaluationWidth && (exists|
            loc: AnalysisLocation,
            sv: Option<AssignView>,
        |
            analysis_location_set(*control_flow_graph).contains(loc) && (#[trigger] (
            ValueSetAnalysis { control_flow_graph, max, endian }).spec_trans(
                loc,
                *control_flow_graph,
                sv,
            )) is None)) || (e == Error::DidNotConverge && (exists|
            locs2: Seq<AnalysisLocation>,
            pt: Seq<Seq<usize>>,
        |
            #![trigger pred_table_exact(*control_flow_graph, locs2, pt)]
            locations_exact(*control_flow_graph, locs2) && pred_table_exact(
                *control_flow_graph,
                locs2,
                pt,
            ) && (forall|k: nat|
                k < iteration_cap ==> !(#[trigger] stable_at(
                    &(ValueSetAnalysis { control_flow_graph, max, endian }),
                    *control_flow_graph,
                    locs2,
                    pt,
                    k,
                ))))),
{
    let value_set_analysis = ValueSetAnalysis::new(control_flow_graph, max, endian);
    proof {
        assert(value_set_analysis == (ValueSetAnalysis { control_flow_graph, max, endian }));
    }
    let r = fixed_point(&value_set_analysis, value_set_analysis.control_flow_graph(), iteration_cap);
    proof {
        if r is Err && r->Err_0 != Error::DidNotConverge {
            let e = r->Err_0;
            let (loc, sv): (AnalysisLocation, Option<AssignView>) = choose|
                loc: AnalysisLocation,
                sv: Option<AssignView>,
            |
                analysis_location_set(*control_flow_graph).contains(loc) && (
                #[trigger] value_set_analysis.spec_trans(loc, *control_flow_graph, sv)) is None
                    && value_set_analysis.trans_error_ok(loc, *control_flow_graph, e);
            match loc {
                AnalysisLocation::Instruction { block_index, instruction_index } => {
                    assert(analysis_location_set(*control_flow_graph).contains(loc));
                    assert(block_index < control_flow_graph.blocks@.len() && instruction_index
                        < control_flow_graph.blocks@[block_index as int].instructions@.len());
                    assert(e == Error::EvaluationWidth);
                },
                _ => {},
            }
        }
    }
    r
}

} // verus!
