//! A generic iterative dataflow solver: given a control-flow graph and a
//! pluggable initial/transfer/join contract, it recomputes every
//! analysis location's state from the join of its predecessors' states
//! until nothing changes. An explicit iteration cap bounds the work; a
//! run that does not converge within it is reported as such, distinct
//! from any other failure.

use vstd::prelude::*;
use crate::assignments::{AssignView, LatticeAssignments};
use crate::error::Error;
use crate::il::ControlFlowGraph;
use crate::location::{AnalysisLocation, analysis_location_set, analysis_locations};

verus! {

/// The state view an optional state denotes.
pub open spec fn view_opt(state_in: Option<&LatticeAssignments>) -> Option<AssignView> {
    match state_in {
        Some(s) => Some(s@),
        None => None,
    }
}

/// The capability set an analysis plugs into the solver: seeding,
/// transfer, and join, all over the same widening bound, each pinned to
/// a specification-level mapping of its own.
pub trait FixedPointAnalysis: Sized {
    /// When the analysis itself is usable.
    spec fn inv(&self) -> bool;

    /// The widening bound its states carry.
    spec fn bound(&self) -> nat;

    /// The mapping a location is seeded with.
    spec fn spec_initial(&self, analysis_location: AnalysisLocation) -> AssignView;

    /// The mapping a location's effect produces from an in-state, or
    /// `None` where the transfer fails on it.
    spec fn spec_trans(
        &self,
        analysis_location: AnalysisLocation,
        cfg: ControlFlowGraph,
        state_in: Option<AssignView>,
    ) -> Option<AssignView>;

    /// The mapping the join of two states denotes.
    spec fn spec_join_states(&self, a: AssignView, b: AssignView) -> AssignView;

    /// Which error values a failing transfer at a location may carry.
    spec fn trans_error_ok(
        &self,
        analysis_location: AnalysisLocation,
        cfg: ControlFlowGraph,
        e: Error,
    ) -> bool;

    /// The state a location is seeded with: exactly `spec_initial`.
    fn initial(&self, analysis_location: &AnalysisLocation) -> (r: Result<
        LatticeAssignments,
        Error,
    >)
        requires
            self.inv(),
        ensures
            r is Ok,
            r matches Ok(s) ==> s.wf() && s.max as nat == self.bound() && s@ == self.spec_initial(
                *analysis_location,
            ),
    ;

    /// The state after the location's effect, from the joined
    /// predecessor state (`None` at entry locations): exactly
    /// `spec_trans`, succeeding exactly where it is defined.
    fn trans(
        &self,
        analysis_location: &AnalysisLocation,
        cfg: &ControlFlowGraph,
        state_in: Option<&LatticeAssignments>,
    ) -> (r: Result<LatticeAssignments, Error>)
        requires
            self.inv(),
            cfg.wf(),
            state_in matches Some(s) ==> s.wf() && s.max as nat == self.bound(),
        ensures
            (r is Ok) == (self.spec_trans(*analysis_location, *cfg, view_opt(state_in)) is Some),
            r matches Ok(s) ==> s.wf() && s.max as nat == self.bound() && s@ == self.spec_trans(
                *analysis_location,
                *cfg,
                view_opt(state_in),
            )->Some_0,
            r matches Err(e) ==> self.trans_error_ok(*analysis_location, *cfg, e),
    ;

    /// The join of two states: exactly `spec_join_states`, and it never
    /// fails.
    fn join(&self, state0: LatticeAssignments, state1: &LatticeAssignments) -> (r: Result<
        LatticeAssignments,
        Error,
    >)
        requires
            self.inv(),
            state0.wf(),
            state1.wf(),
            state0.max as nat == self.bound(),
            state1.max as nat == self.bound(),
        ensures
            r is Ok,
            r matches Ok(s) ==> s.wf() && s.max as nat == self.bound() && s@
                == self.spec_join_states(state0@, (*state1)@),
    ;
}

/// The result of a fixed-point run: one state per analysis location.
pub struct AnalysisResult {
    pub locations: Vec<AnalysisLocation>,
    pub states: Vec<LatticeAssignments>,
}

impl AnalysisResult {
    /// Well-formed: one state per location, each location once.
    pub open spec fn wf(self) -> bool {
        &&& self.locations@.len() == self.states@.len()
        &&& self.locations@.no_duplicates()
        &&& forall|i: int| 0 <= i < self.states@.len() ==> (#[trigger] self.states@[i]).wf()
    }

    /// The locations the result covers.
    pub open spec fn dom(self) -> Set<AnalysisLocation> {
        self.locations@.to_set()
    }

    /// The state assigned to a covered location.
    pub open spec fn state_at(self, loc: AnalysisLocation) -> AssignView {
        self.states@[choose|i: int|
            0 <= i < self.locations@.len() && self.locations@[i] == loc]@
    }

    /// Look up the state at a location. `None` exactly when the result
    /// does not cover it.
    pub fn get(&self, loc: &AnalysisLocation) -> (r: Option<&LatticeAssignments>)
        requires
            self.wf(),
        ensures
            match r {
                Some(s) => self.dom().contains(*loc) && s@ == self.state_at(*loc) && s.wf(),
                None => !self.dom().contains(*loc),
            },
    {
        let mut i: usize = 0;
        while i < self.locations.len()
            invariant
                0 <= i <= self.locations@.len(),
                self.wf(),
                forall|k: int| 0 <= k < i ==> (#[trigger] self.locations@[k]) != *loc,
            decreases self.locations@.len() - i,
        {
            if self.locations[i] == *loc {
                proof {
                    assert(self.locations@[i as int] == *loc);
                    assert(self.dom().contains(*loc));
                    let j = choose|j: int|
                        0 <= j < self.locations@.len() && self.locations@[j] == *loc;
                    assert(j == i);
                }
                return Some(&self.states[i]);
            }
            i = i + 1;
        }
        proof {
            if self.dom().contains(*loc) {
                let j = choose|j: int| 0 <= j < self.locations@.len() && self.locations@[j] == *loc;
                assert(self.locations@[j] == *loc);
            }
        }
        None
    }
}

/// Whether `p` feeds `loc` in the dataflow graph: an instruction's
/// predecessor is the previous instruction, or the incoming edges at
/// the block's start; an empty block's predecessors are its incoming
/// edges; an edge's predecessor is the last location of its head block.
pub open spec fn is_predecessor(
    cfg: ControlFlowGraph,
    p: AnalysisLocation,
    loc: AnalysisLocation,
) -> bool {
    match loc {
        AnalysisLocation::Instruction { block_index, instruction_index } => if instruction_index
            > 0 {
            p == (AnalysisLocation::Instruction {
                block_index,
                instruction_index: (instruction_index - 1) as usize,
            })
        } else {
            p matches AnalysisLocation::Edge { head, tail } && tail == block_index
                && analysis_location_set(cfg).contains(p)
        },
        AnalysisLocation::EmptyBlock { block_index } => p matches AnalysisLocation::Edge {
            head,
            tail,
        } && tail == block_index && analysis_location_set(cfg).contains(p),
        AnalysisLocation::Edge { head, tail } => if head < cfg.blocks@.len() {
            if cfg.blocks@[head as int].instructions@.len() == 0 {
                p == (AnalysisLocation::EmptyBlock { block_index: head })
            } else {
                p == (AnalysisLocation::Instruction {
                    block_index: head,
                    instruction_index: (cfg.blocks@[head as int].instructions@.len() - 1) as usize,
                })
            }
        } else {
            false
        },
    }
}

/// `ps` lists, each exactly once, the indices in `locs` of exactly the
/// predecessors of `loc`.
pub open spec fn pred_seq_exact(
    cfg: ControlFlowGraph,
    locs: Seq<AnalysisLocation>,
    loc: AnalysisLocation,
    ps: Seq<usize>,
) -> bool {
    &&& forall|j: int|
        0 <= j < ps.len() ==> (#[trigger] ps[j]) < locs.len() && is_predecessor(
            cfg,
            locs[ps[j] as int],
            loc,
        )
    &&& forall|j1: int, j2: int| 0 <= j1 < j2 < ps.len() ==> ps[j1] != ps[j2]
    &&& forall|p: AnalysisLocation|
        analysis_location_set(cfg).contains(p) && #[trigger] is_predecessor(cfg, p, loc)
            ==> exists|j: int| 0 <= j < ps.len() && locs[#[trigger] ps[j] as int] == p
}

/// The joined input state a predecessor list contributes, folded in
/// list order; `None` where there are no predecessors.
pub open spec fn folded_input<A: FixedPointAnalysis>(
    analysis: &A,
    views: Seq<AssignView>,
    ps: Seq<usize>,
) -> Option<AssignView>
    decreases ps.len(),
{
    if ps.len() == 0 {
        None
    } else {
        let rest = folded_input(analysis, views, ps.drop_last());
        let pv = views[ps.last() as int];
        match rest {
            None => Some(pv),
            Some(acc) => Some(analysis.spec_join_states(acc, pv)),
        }
    }
}

/// The mappings a state sequence denotes.
pub open spec fn result_views(states: Seq<LatticeAssignments>) -> Seq<AssignView> {
    Seq::new(states.len(), |i: int| states[i]@)
}

/// The dataflow equations hold of a location/state table, witnessed by
/// a predecessor table: for every location, `preds` lists exactly its
/// predecessors, and its state is the analysis's transfer of the join
/// of their states (no predecessors reading as no in-state).
pub open spec fn dataflow_solution<A: FixedPointAnalysis>(
    analysis: &A,
    cfg: ControlFlowGraph,
    locs: Seq<AnalysisLocation>,
    states: Seq<LatticeAssignments>,
    preds: Seq<Seq<usize>>,
) -> bool {
    &&& preds.len() == locs.len()
    &&& forall|i: int|
        0 <= i < locs.len() ==> pred_seq_exact(cfg, locs, locs[i], #[trigger] preds[i])
    &&& forall|i: int|
        0 <= i < locs.len() ==> analysis.spec_trans(
            #[trigger] locs[i],
            cfg,
            folded_input(analysis, result_views(states), preds[i]),
        ) is Some && states[i]@ == analysis.spec_trans(
            locs[i],
            cfg,
            folded_input(analysis, result_views(states), preds[i]),
        )->Some_0
}

/// `locs` lists every analysis location of the graph exactly once.
pub open spec fn locations_exact(cfg: ControlFlowGraph, locs: Seq<AnalysisLocation>) -> bool {
    &&& locs.no_duplicates()
    &&& forall|loc: AnalysisLocation|
        #[trigger] analysis_location_set(cfg).contains(loc) <==> locs.contains(loc)
}

/// `pt` lists, for every location, exactly its predecessors.
pub open spec fn pred_table_exact(
    cfg: ControlFlowGraph,
    locs: Seq<AnalysisLocation>,
    pt: Seq<Seq<usize>>,
) -> bool {
    &&& pt.len() == locs.len()
    &&& forall|i: int| 0 <= i < locs.len() ==> pred_seq_exact(cfg, locs, locs[i], #[trigger] pt[i])
}

/// The mappings every location is seeded with.
pub open spec fn initial_views<A: FixedPointAnalysis>(
    analysis: &A,
    locs: Seq<AnalysisLocation>,
) -> Seq<AssignView> {
    Seq::new(locs.len(), |i: int| analysis.spec_initial(locs[i]))
}

/// One full pass: every location's mapping recomputed as the transfer
/// of the join of its predecessors' mappings; `None` where some
/// transfer fails.
pub open spec fn pass_views<A: FixedPointAnalysis>(
    analysis: &A,
    cfg: ControlFlowGraph,
    locs: Seq<AnalysisLocation>,
    pt: Seq<Seq<usize>>,
    views: Seq<AssignView>,
) -> Option<Seq<AssignView>> {
    if forall|i: int|
        0 <= i < locs.len() ==> (#[trigger] analysis.spec_trans(
            locs[i],
            cfg,
            folded_input(analysis, views, pt[i]),
        )) is Some {
        Some(
            Seq::new(
                locs.len(),
                |i: int|
                    analysis.spec_trans(locs[i], cfg, folded_input(analysis, views, pt[i]))->Some_0,
            ),
        )
    } else {
        None
    }
}

/// The mappings after `k` full passes from the initial seeding.
pub open spec fn iterate_views<A: FixedPointAnalysis>(
    analysis: &A,
    cfg: ControlFlowGraph,
    locs: Seq<AnalysisLocation>,
    pt: Seq<Seq<usize>>,
    k: nat,
) -> Option<Seq<AssignView>>
    decreases k,
{
    if k == 0 {
        Some(initial_views(analysis, locs))
    } else {
        match iterate_views(analysis, cfg, locs, pt, (k - 1) as nat) {
            None => None,
            Some(v) => pass_views(analysis, cfg, locs, pt, v),
        }
    }
}

/// The iteration is stable after `k` passes: one more pass reproduces
/// the same mappings.
pub open spec fn stable_at<A: FixedPointAnalysis>(
    analysis: &A,
    cfg: ControlFlowGraph,
    locs: Seq<AnalysisLocation>,
    pt: Seq<Seq<usize>>,
    k: nat,
) -> bool {
    match iterate_views(analysis, cfg, locs, pt, k) {
        Some(v) => pass_views(analysis, cfg, locs, pt, v) == Some(v),
        None => false,
    }
}

/// The state view an owned optional state denotes.
pub open spec fn view_opt_owned(state_in: Option<LatticeAssignments>) -> Option<AssignView> {
    match state_in {
        Some(s) => Some(s@),
        None => None,
    }
}

/// Find a location's index in the location list.
fn find_location(locations: &Vec<AnalysisLocation>, loc: AnalysisLocation) -> (r: Option<usize>)
    ensures
        r matches Some(i) ==> i < locations@.len() && locations@[i as int] == loc,
        r is None ==> !locations@.contains(loc),
{
    let mut i: usize = 0;
    while i < locations.len()
        invariant
            0 <= i <= locations@.len(),
            forall|k: int| 0 <= k < i ==> (#[trigger] locations@[k]) != loc,
        decreases locations@.len() - i,
    {
        if locations[i] == loc {
            return Some(i);
        }
        i = i + 1;
    }
    proof {
        if locations@.contains(loc) {
            let k = choose|k: int| 0 <= k < locations@.len() && locations@[k] == loc;
            assert(locations@[k] == loc);
        }
    }
    None
}

/// The indices of the edge locations entering a block: one for each
/// edge whose tail is the block, each exactly once.
fn incoming_edge_indices(
    cfg: &ControlFlowGraph,
    locations: &Vec<AnalysisLocation>,
    block_index: usize,
) -> (r: Vec<usize>)
    requires
        cfg.wf(),
        forall|loc: AnalysisLocation|
            #[trigger] analysis_location_set(*cfg).contains(loc) ==> locations@.contains(loc),
    ensures
        forall|j: int|
            0 <= j < r@.len() ==> (#[trigger] r@[j]) < locations@.len() && (locations@[
                r@[j] as int] matches AnalysisLocation::Edge { head, tail } && tail == block_index)
                && analysis_location_set(*cfg).contains(locations@[r@[j] as int]),
        forall|j1: int, j2: int|
            0 <= j1 < j2 < r@.len() ==> locations@[(#[trigger] r@[j1]) as int] != locations@[(
            #[trigger] r@[j2]) as int],
        forall|e2: int|
            0 <= e2 < cfg.edges@.len() && (#[trigger] cfg.edges@[e2]).tail == block_index
                ==> exists|j: int|
                0 <= j < r@.len() && locations@[(#[trigger] r@[j]) as int]
                    == (AnalysisLocation::Edge {
                    head: cfg.edges@[e2].head,
                    tail: cfg.edges@[e2].tail,
                }),
{
    let mut out: Vec<usize> = Vec::new();
    let mut e: usize = 0;
    while e < cfg.edges.len()
        invariant
            0 <= e <= cfg.edges@.len(),
            cfg.wf(),
            forall|loc: AnalysisLocation|
                #[trigger] analysis_location_set(*cfg).contains(loc) ==> locations@.contains(loc),
            forall|j: int|
                0 <= j < out@.len() ==> (#[trigger] out@[j]) < locations@.len() && (locations@[
                    out@[j] as int] matches AnalysisLocation::Edge { head, tail } && tail
                    == block_index) && analysis_location_set(*cfg).contains(locations@[
                    out@[j] as int]),
            forall|j: int|
                0 <= j < out@.len() ==> exists|e2: int|
                    0 <= e2 < e && (#[trigger] cfg.edges@[e2]).tail == block_index && locations@[(
                    #[trigger] out@[j]) as int] == (AnalysisLocation::Edge {
                        head: cfg.edges@[e2].head,
                        tail: cfg.edges@[e2].tail,
                    }),
            forall|j1: int, j2: int|
                0 <= j1 < j2 < out@.len() ==> locations@[(#[trigger] out@[j1]) as int]
                    != locations@[(#[trigger] out@[j2]) as int],
            forall|e2: int|
                0 <= e2 < e && (#[trigger] cfg.edges@[e2]).tail == block_index ==> exists|j: int|
                    0 <= j < out@.len() && locations@[(#[trigger] out@[j]) as int]
                        == (AnalysisLocation::Edge {
                        head: cfg.edges@[e2].head,
                        tail: cfg.edges@[e2].tail,
                    }),
        decreases cfg.edges@.len() - e,
    {
        if cfg.edges[e].tail == block_index {
            let p = AnalysisLocation::Edge { head: cfg.edges[e].head, tail: cfg.edges[e].tail };
            proof {
                assert(analysis_location_set(*cfg).contains(p)) by {
                    assert(0 <= e < cfg.edges@.len() && cfg.edges@[e as int].head
                        == cfg.edges@[e as int].head && cfg.edges@[e as int].tail
                        == cfg.edges@[e as int].tail);
                }
            }
            match find_location(locations, p) {
                Some(pi) => {
                    let ghost before = out@;
                    proof {
                        assert forall|j: int| 0 <= j < before.len() implies locations@[(
                            #[trigger] before[j]) as int] != p by {
                            let e2 = choose|e2: int|
                                0 <= e2 < e && (#[trigger] cfg.edges@[e2]).tail == block_index
                                    && locations@[before[j] as int] == (AnalysisLocation::Edge {
                                    head: cfg.edges@[e2].head,
                                    tail: cfg.edges@[e2].tail,
                                });
                            if locations@[before[j] as int] == p {
                                assert(cfg.edges@[e2].head == cfg.edges@[e as int].head
                                    && cfg.edges@[e2].tail == cfg.edges@[e as int].tail);
                            }
                        }
                    }
                    out.push(pi);
                    proof {
                        assert(out@[out@.len() - 1] == pi && locations@[pi as int] == p);
                        assert forall|e2: int|
                            0 <= e2 < e + 1 && (#[trigger] cfg.edges@[e2]).tail == block_index
                                implies exists|j: int|
                            0 <= j < out@.len() && locations@[(#[trigger] out@[j]) as int]
                                == (AnalysisLocation::Edge {
                                head: cfg.edges@[e2].head,
                                tail: cfg.edges@[e2].tail,
                            }) by {
                            if e2 < e {
                                let j = choose|j: int|
                                    0 <= j < before.len() && locations@[(#[trigger] before[j]) as int]
                                        == (AnalysisLocation::Edge {
                                        head: cfg.edges@[e2].head,
                                        tail: cfg.edges@[e2].tail,
                                    });
                                assert(out@[j] == before[j]);
                            } else {
                                assert(locations@[out@[out@.len() - 1] as int]
                                    == (AnalysisLocation::Edge {
                                    head: cfg.edges@[e2].head,
                                    tail: cfg.edges@[e2].tail,
                                }));
                            }
                        }
                    }
                },
                None => {
                    proof {
                        assert(false);
                    }
                },
            }
        }
        e = e + 1;
    }
    out
}

/// The indices of the predecessor locations of each location: exactly
/// the dataflow predecessors, each exactly once.
fn predecessor_indices(cfg: &ControlFlowGraph, locations: &Vec<AnalysisLocation>) -> (r: Vec<
    Vec<usize>,
>)
    requires
        cfg.wf(),
        locations@.no_duplicates(),
        forall|loc: AnalysisLocation|
            #[trigger] analysis_location_set(*cfg).contains(loc) <==> locations@.contains(loc),
    ensures
        r@.len() == locations@.len(),
        forall|i: int|
            0 <= i < r@.len() ==> pred_seq_exact(*cfg, locations@, locations@[i], (
            #[trigger] r@[i])@),
{
    let mut out: Vec<Vec<usize>> = Vec::new();
    let mut li: usize = 0;
    while li < locations.len()
        invariant
            0 <= li <= locations@.len(),
            cfg.wf(),
            locations@.no_duplicates(),
            forall|loc: AnalysisLocation|
                #[trigger] analysis_location_set(*cfg).contains(loc) <==> locations@.contains(loc),
            out@.len() == li,
            forall|i: int|
                0 <= i < out@.len() ==> pred_seq_exact(*cfg, locations@, locations@[i], (
                #[trigger] out@[i])@),
        decreases locations@.len() - li,
    {
        let loc = locations[li];
        let ghost locv = locations@[li as int];
        proof {
            assert(locations@.contains(locv));
            assert(analysis_location_set(*cfg).contains(locv));
        }
        let mut preds: Vec<usize> = Vec::new();
        match loc {
            AnalysisLocation::Instruction { block_index, instruction_index } => {
                if instruction_index > 0 {
                    let p = AnalysisLocation::Instruction {
                        block_index,
                        instruction_index: instruction_index - 1,
                    };
                    proof {
                        assert(analysis_location_set(*cfg).contains(p));
                    }
                    match find_location(locations, p) {
                        Some(pi) => {
                            preds.push(pi);
                        },
                        None => {
                            proof {
                                assert(false);
                            }
                        },
                    }
                    proof {
                        assert forall|q: AnalysisLocation|
                            analysis_location_set(*cfg).contains(q) && #[trigger] is_predecessor(
                                *cfg,
                                q,
                                locv,
                            ) implies exists|j: int|
                            0 <= j < preds@.len() && locations@[#[trigger] preds@[j] as int]
                                == q by {
                            assert(q == p);
                            assert(locations@[preds@[0] as int] == q);
                        }
                        assert(pred_seq_exact(*cfg, locations@, locv, preds@));
                    }
                } else {
                    preds = incoming_edge_indices(cfg, locations, block_index);
                    proof {
                        assert forall|q: AnalysisLocation|
                            analysis_location_set(*cfg).contains(q) && #[trigger] is_predecessor(
                                *cfg,
                                q,
                                locv,
                            ) implies exists|j: int|
                            0 <= j < preds@.len() && locations@[#[trigger] preds@[j] as int]
                                == q by {
                            let e2 = choose|e2: int|
                                0 <= e2 < cfg.edges@.len() && (#[trigger] cfg.edges@[e2]).head
                                    == q->head && cfg.edges@[e2].tail == q->tail;
                            assert(cfg.edges@[e2].tail == block_index);
                            let j = choose|j: int|
                                0 <= j < preds@.len() && locations@[(#[trigger] preds@[j]) as int]
                                    == (AnalysisLocation::Edge {
                                    head: cfg.edges@[e2].head,
                                    tail: cfg.edges@[e2].tail,
                                });
                            assert(locations@[preds@[j] as int] == q);
                        }
                        assert forall|j1: int, j2: int| 0 <= j1 < j2 < preds@.len() implies preds@[
                            j1] != preds@[j2] by {
                            assert(locations@[(preds@[j1]) as int] != locations@[(
                            preds@[j2]) as int]);
                        }
                        assert(pred_seq_exact(*cfg, locations@, locv, preds@));
                    }
                }
            },
            AnalysisLocation::EmptyBlock { block_index } => {
                preds = incoming_edge_indices(cfg, locations, block_index);
                proof {
                    assert forall|q: AnalysisLocation|
                        analysis_location_set(*cfg).contains(q) && #[trigger] is_predecessor(
                            *cfg,
                            q,
                            locv,
                        ) implies exists|j: int|
                        0 <= j < preds@.len() && locations@[#[trigger] preds@[j] as int] == q by {
                        let e2 = choose|e2: int|
                            0 <= e2 < cfg.edges@.len() && (#[trigger] cfg.edges@[e2]).head
                                == q->head && cfg.edges@[e2].tail == q->tail;
                        assert(cfg.edges@[e2].tail == block_index);
                        let j = choose|j: int|
                            0 <= j < preds@.len() && locations@[(#[trigger] preds@[j]) as int]
                                == (AnalysisLocation::Edge {
                                head: cfg.edges@[e2].head,
                                tail: cfg.edges@[e2].tail,
                            });
                        assert(locations@[preds@[j] as int] == q);
                    }
                    assert forall|j1: int, j2: int| 0 <= j1 < j2 < preds@.len() implies preds@[j1]
                        != preds@[j2] by {
                        assert(locations@[(preds@[j1]) as int] != locations@[(preds@[j2]) as int]);
                    }
                    assert(pred_seq_exact(*cfg, locations@, locv, preds@));
                }
            },
            AnalysisLocation::Edge { head, tail } => {
                proof {
                    let e2 = choose|e2: int|
                        0 <= e2 < cfg.edges@.len() && (#[trigger] cfg.edges@[e2]).head == head
                            && cfg.edges@[e2].tail == tail;
                    assert(cfg.edges@[e2].wf(cfg.blocks@.len()));
                }
                let block = match cfg.block(head) {
                    Some(b) => b,
                    None => {
                        proof {
                            assert(false);
                        }
                        return out;
                    },
                };
                let n = block.instructions.len();
                let p = if n == 0 {
                    AnalysisLocation::EmptyBlock { block_index: head }
                } else {
                    AnalysisLocation::Instruction { block_index: head, instruction_index: n - 1 }
                };
                proof {
                    assert(analysis_location_set(*cfg).contains(p));
                }
                match find_location(locations, p) {
                    Some(pi) => {
                        preds.push(pi);
                    },
                    None => {
                        proof {
                            assert(false);
                        }
                    },
                }
                proof {
                    assert forall|q: AnalysisLocation|
                        analysis_location_set(*cfg).contains(q) && #[trigger] is_predecessor(
                            *cfg,
                            q,
                            locv,
                        ) implies exists|j: int|
                        0 <= j < preds@.len() && locations@[#[trigger] preds@[j] as int] == q by {
                        assert(q == p);
                        assert(locations@[preds@[0] as int] == q);
                    }
                    assert(pred_seq_exact(*cfg, locations@, locv, preds@));
                }
            },
        }
        out.push(preds);
        li = li + 1;
    }
    out
}

/// Run the analysis to a fixed point over the control-flow graph: seed
/// every location with `initial`, then repeatedly recompute every
/// location's state as `trans` of the join of its predecessors' states,
/// until a full pass changes nothing. On success the result covers
/// every analysis location of the graph and solves the dataflow
/// equations: each location's state is the transfer of the join of its
/// predecessors' states. A run that still changes states after
/// `iteration_cap` passes fails with `DidNotConverge`; the only other
/// failures are the analysis's own transfer failures, which abort the
/// whole computation.
pub fn fixed_point<A: FixedPointAnalysis>(
    analysis: &A,
    cfg: &ControlFlowGraph,
    iteration_cap: usize,
) -> (r: Result<AnalysisResult, Error>)
    requires
        analysis.inv(),
        cfg.wf(),
    ensures
        r matches Ok(res) ==> res.wf() && res.dom() == analysis_location_set(*cfg) && (forall|
            i: int,
        |
            0 <= i < res.states@.len() ==> (#[trigger] res.states@[i]).max as nat
                == analysis.bound()) && (exists|pt: Seq<Seq<usize>>|
            #[trigger] dataflow_solution(analysis, *cfg, res.locations@, res.states@, pt)) && (
        exists|pt: Seq<Seq<usize>>, k: nat|
            #![trigger iterate_views(analysis, *cfg, res.locations@, pt, k)]
            pred_table_exact(*cfg, res.locations@, pt) && k <= iteration_cap && iterate_views(
                analysis,
                *cfg,
                res.locations@,
                pt,
                k,
            ) == Some(result_views(res.states@)) && stable_at(
                analysis,
                *cfg,
                res.locations@,
                pt,
                k,
            )),
        r matches Err(e) ==> (exists|loc: AnalysisLocation, sv: Option<AssignView>|
            analysis_location_set(*cfg).contains(loc) && (#[trigger] analysis.spec_trans(
                loc,
                *cfg,
                sv,
            )) is None && analysis.trans_error_ok(loc, *cfg, e)) || (e == Error::DidNotConverge && (
        exists|locs2: Seq<AnalysisLocation>, pt: Seq<Seq<usize>>|
            #![trigger pred_table_exact(*cfg, locs2, pt)]
            locations_exact(*cfg, locs2) && pred_table_exact(*cfg, locs2, pt) && (forall|k: nat|
                k < iteration_cap ==> !(#[trigger] stable_at(analysis, *cfg, locs2, pt, k))))),
{
    let locations = analysis_locations(cfg);
    proof {
        assert forall|loc: AnalysisLocation| locations@.to_set().contains(loc) implies
            analysis_location_set(*cfg).contains(loc) by {
            let k = choose|k: int| 0 <= k < locations@.len() && locations@[k] == loc;
            assert(analysis_location_set(*cfg).contains(locations@[k]));
        }
        assert(locations@.to_set() =~= analysis_location_set(*cfg));
        assert forall|loc: AnalysisLocation| #[trigger] analysis_location_set(*cfg).contains(
            loc,
        ) implies locations@.contains(loc) by {
            assert(locations@.to_set().contains(loc));
        }
        assert forall|loc: AnalysisLocation| locations@.contains(loc) implies #[trigger]
            analysis_location_set(*cfg).contains(loc) by {
            assert(locations@.to_set().contains(loc));
        }
    }
    let mut states: Vec<LatticeAssignments> = Vec::new();
    let mut li: usize = 0;
    while li < locations.len()
        invariant
            0 <= li <= locations@.len(),
            analysis.inv(),
            states@.len() == li,
            forall|k: int|
                0 <= k < states@.len() ==> (#[trigger] states@[k]).wf() && states@[k].max as nat
                    == analysis.bound() && states@[k]@ == analysis.spec_initial(locations@[k]),
        decreases locations@.len() - li,
    {
        let s = match analysis.initial(&locations[li]) {
            Ok(s) => s,
            Err(e) => {
                proof {
                    assert(false);
                }
                return Err(e);
            },
        };
        states.push(s);
        li = li + 1;
    }
    let preds = predecessor_indices(cfg, &locations);
    let ghost ptab = Seq::new(preds@.len() as nat, |i: int| preds@[i]@);
    proof {
        assert(pred_table_exact(*cfg, locations@, ptab)) by {
            assert forall|i: int| 0 <= i < locations@.len() implies pred_seq_exact(
                *cfg,
                locations@,
                locations@[i],
                #[trigger] ptab[i],
            ) by {
                assert(ptab[i] == preds@[i]@);
            }
        }
        assert(iterate_views(analysis, *cfg, locations@, ptab, 0nat) == Some(
            result_views(states@),
        )) by {
            assert forall|i: int| 0 <= i < locations@.len() implies initial_views(
                analysis,
                locations@,
            )[i] == result_views(states@)[i] by {
                assert(states@[i]@ == analysis.spec_initial(locations@[i]));
            }
            assert(initial_views(analysis, locations@) =~= result_views(states@));
        }
    }
    let mut round: usize = 0;
    let mut converged = false;
    while !converged
        invariant
            analysis.inv(),
            cfg.wf(),
            round <= iteration_cap,
            locations@.no_duplicates(),
            forall|loc: AnalysisLocation|
                #[trigger] analysis_location_set(*cfg).contains(loc) <==> locations@.contains(loc),
            locations@.to_set() == analysis_location_set(*cfg),
            states@.len() == locations@.len(),
            preds@.len() == locations@.len(),
            forall|i: int|
                0 <= i < preds@.len() ==> pred_seq_exact(*cfg, locations@, locations@[i], (
                #[trigger] preds@[i])@),
            forall|k: int|
                0 <= k < states@.len() ==> (#[trigger] states@[k]).wf() && states@[k].max as nat
                    == analysis.bound(),
            ptab == Seq::new(preds@.len() as nat, |i: int| preds@[i]@),
            pred_table_exact(*cfg, locations@, ptab),
            iterate_views(analysis, *cfg, locations@, ptab, round as nat) == Some(
                result_views(states@),
            ),
            forall|k: nat|
                k < round ==> !(#[trigger] stable_at(analysis, *cfg, locations@, ptab, k)),
            converged ==> stable_at(analysis, *cfg, locations@, ptab, round as nat),
            converged ==> dataflow_solution(analysis, *cfg, locations@, states@, ptab),
        decreases iteration_cap - round, (if converged { 0int } else { 1int }),
    {
        if round >= iteration_cap {
            proof {
                assert(locations_exact(*cfg, locations@));
                assert(pred_table_exact(*cfg, locations@, ptab));
                assert forall|k: nat| k < iteration_cap implies !(#[trigger] stable_at(
                    analysis,
                    *cfg,
                    locations@,
                    ptab,
                    k,
                )) by {
                    assert(k < round);
                }
            }
            return Err(Error::DidNotConverge);
        }
        let ghost start_views = result_views(states@);
        let mut next: Vec<LatticeAssignments> = Vec::new();
        let mut changed = false;
        let mut li: usize = 0;
        while li < locations.len()
            invariant
                0 <= li <= locations@.len(),
                analysis.inv(),
                cfg.wf(),
                locations@.no_duplicates(),
                forall|loc: AnalysisLocation|
                    #[trigger] analysis_location_set(*cfg).contains(loc) <==> locations@.contains(
                        loc,
                    ),
                states@.len() == locations@.len(),
                preds@.len() == locations@.len(),
                start_views == result_views(states@),
                forall|i: int|
                    0 <= i < preds@.len() ==> pred_seq_exact(*cfg, locations@, locations@[i], (
                    #[trigger] preds@[i])@),
                forall|k: int|
                    0 <= k < states@.len() ==> (#[trigger] states@[k]).wf() && states@[k].max as nat
                        == analysis.bound(),
                next@.len() == li,
                forall|k: int|
                    0 <= k < next@.len() ==> (#[trigger] next@[k]).wf() && next@[k].max as nat
                        == analysis.bound(),
                forall|k: int|
                    0 <= k < next@.len() ==> analysis.spec_trans(
                        locations@[k],
                        *cfg,
                        folded_input(analysis, start_views, (#[trigger] preds@[k])@),
                    ) is Some && next@[k]@ == analysis.spec_trans(
                        locations@[k],
                        *cfg,
                        folded_input(analysis, start_views, preds@[k]@),
                    )->Some_0,
                !changed ==> forall|k: int|
                    0 <= k < next@.len() ==> (#[trigger] next@[k])@ == start_views[k],
                changed ==> exists|kk: int|
                    0 <= kk < next@.len() && (#[trigger] next@[kk])@ != start_views[kk],
            decreases locations@.len() - li,
        {
            let mut state_in: Option<LatticeAssignments> = None;
            let mut pj: usize = 0;
            let plen = preds[li].len();
            proof {
                assert(preds@[li as int]@.take(0) =~= Seq::<usize>::empty());
            }
            while pj < plen
                invariant
                    0 <= pj <= plen,
                    0 <= li < locations@.len(),
                    analysis.inv(),
                    states@.len() == locations@.len(),
                    preds@.len() == locations@.len(),
                    start_views == result_views(states@),
                    plen == preds@[li as int]@.len(),
                    forall|j: int|
                        0 <= j < preds@[li as int]@.len() ==> (#[trigger] preds@[li as int]@[j])
                            < locations@.len(),
                    forall|k: int|
                        0 <= k < states@.len() ==> (#[trigger] states@[k]).wf() && states@[
                            k].max as nat == analysis.bound(),
                    state_in matches Some(s) ==> s.wf() && s.max as nat == analysis.bound(),
                    view_opt_owned(state_in) == folded_input(
                        analysis,
                        start_views,
                        preds@[li as int]@.take(pj as int),
                    ),
                decreases plen - pj,
            {
                let pi = preds[li][pj];
                let pred_state = states[pi].clone();
                proof {
                    assert(pred_state@ == start_views[pi as int]);
                    assert(preds@[li as int]@.take(pj + 1).drop_last() =~= preds@[
                        li as int]@.take(pj as int));
                    assert(preds@[li as int]@.take(pj + 1).last() == preds@[li as int]@[pj as int]);
                }
                state_in = match state_in {
                    None => Some(pred_state),
                    Some(acc) => {
                        let joined = match analysis.join(acc, &pred_state) {
                            Ok(s) => s,
                            Err(e) => {
                                proof {
                                    assert(false);
                                }
                                return Err(e);
                            },
                        };
                        Some(joined)
                    },
                };
                pj = pj + 1;
            }
            proof {
                assert(preds@[li as int]@.take(plen as int) =~= preds@[li as int]@);
            }
            let state_in_ref: Option<&LatticeAssignments> = match &state_in {
                Some(s) => Some(s),
                None => None,
            };
            proof {
                assert(view_opt(state_in_ref) == view_opt_owned(state_in));
            }
            let new_state = match analysis.trans(&locations[li], cfg, state_in_ref) {
                Ok(s) => s,
                Err(e) => {
                    proof {
                        assert(locations@.contains(locations@[li as int]));
                        assert(analysis_location_set(*cfg).contains(locations@[li as int]));
                        assert(analysis.spec_trans(
                            locations@[li as int],
                            *cfg,
                            view_opt(state_in_ref),
                        ) is None);
                        assert(analysis.trans_error_ok(locations@[li as int], *cfg, e));
                    }
                    return Err(e);
                },
            };
            let ghost prev_changed = changed;
            let ghost prev_next = next@;
            if !new_state.same_as(&states[li]) {
                proof {
                    if new_state@ == states@[li as int]@ {
                        crate::assignments::lemma_view_entries_equal(
                            new_state,
                            states@[li as int],
                        );
                    }
                    assert(new_state@ != start_views[li as int]);
                }
                changed = true;
            } else {
                proof {
                    assert(new_state@ == states@[li as int]@);
                    assert(states@[li as int]@ == start_views[li as int]);
                }
            }
            let ghost new_view_differs = new_state@ != start_views[li as int];
            next.push(new_state);
            proof {
                if changed {
                    if prev_changed {
                        let kk = choose|kk: int|
                            0 <= kk < prev_next.len() && (#[trigger] prev_next[kk])@
                                != start_views[kk];
                        assert(next@[kk] == prev_next[kk]);
                        assert(next@[kk]@ != start_views[kk]);
                    } else {
                        assert(new_view_differs);
                        assert(next@[next@.len() - 1]@ != start_views[li as int]);
                    }
                }
            }
            li = li + 1;
        }
        if !changed {
            let ghost nextv = next@;
            states = next;
            proof {
                assert(states@ == nextv);
                assert forall|k: int| 0 <= k < states@.len() implies result_views(states@)[k]
                    == start_views[k] by {
                    assert(nextv[k]@ == start_views[k]);
                }
                assert(result_views(states@) =~= start_views);
                assert(dataflow_solution(analysis, *cfg, locations@, states@, ptab)) by {
                    assert(ptab.len() == locations@.len());
                    assert forall|i: int| 0 <= i < locations@.len() implies pred_seq_exact(
                        *cfg,
                        locations@,
                        locations@[i],
                        #[trigger] ptab[i],
                    ) by {
                        assert(ptab[i] == preds@[i]@);
                        assert(pred_seq_exact(*cfg, locations@, locations@[i], preds@[i]@));
                    }
                    assert forall|i: int| 0 <= i < locations@.len() implies analysis.spec_trans(
                        #[trigger] locations@[i],
                        *cfg,
                        folded_input(analysis, result_views(states@), ptab[i]),
                    ) is Some && states@[i]@ == analysis.spec_trans(
                        locations@[i],
                        *cfg,
                        folded_input(analysis, result_views(states@), ptab[i]),
                    )->Some_0 by {
                        assert(ptab[i] == preds@[i]@);
                        assert(result_views(states@) == start_views);
                        assert(analysis.spec_trans(
                            locations@[i],
                            *cfg,
                            folded_input(analysis, start_views, preds@[i]@),
                        ) is Some && nextv[i]@ == analysis.spec_trans(
                            locations@[i],
                            *cfg,
                            folded_input(analysis, start_views, preds@[i]@),
                        )->Some_0);
                        assert(states@[i]@ == nextv[i]@);
                    }
                }
            }
            proof {
                assert(stable_at(analysis, *cfg, locations@, ptab, round as nat)) by {
                    assert(pass_views(analysis, *cfg, locations@, ptab, start_views) == Some(
                        start_views,
                    )) by {
                        assert forall|i: int| 0 <= i < locations@.len() implies (
                        #[trigger] analysis.spec_trans(
                            locations@[i],
                            *cfg,
                            folded_input(analysis, start_views, ptab[i]),
                        )) is Some && analysis.spec_trans(
                            locations@[i],
                            *cfg,
                            folded_input(analysis, start_views, ptab[i]),
                        )->Some_0 == start_views[i] by {
                            assert(ptab[i] == preds@[i]@);
                            assert(nextv[i]@ == analysis.spec_trans(
                                locations@[i],
                                *cfg,
                                folded_input(analysis, start_views, preds@[i]@),
                            )->Some_0);
                            assert(nextv[i]@ == start_views[i]);
                        }
                        assert(Seq::new(
                            locations@.len(),
                            |i: int|
                                analysis.spec_trans(
                                    locations@[i],
                                    *cfg,
                                    folded_input(analysis, start_views, ptab[i]),
                                )->Some_0,
                        ) =~= start_views);
                    }
                    assert(iterate_views(analysis, *cfg, locations@, ptab, round as nat) == Some(
                        start_views,
                    ));
                }
            }
            converged = true;
        } else {
            let ghost nviews = result_views(next@);
            proof {
                assert forall|i: int| 0 <= i < locations@.len() implies (
                #[trigger] analysis.spec_trans(
                    locations@[i],
                    *cfg,
                    folded_input(analysis, start_views, ptab[i]),
                )) is Some && analysis.spec_trans(
                    locations@[i],
                    *cfg,
                    folded_input(analysis, start_views, ptab[i]),
                )->Some_0 == nviews[i] by {
                    assert(ptab[i] == preds@[i]@);
                    assert(next@[i]@ == analysis.spec_trans(
                        locations@[i],
                        *cfg,
                        folded_input(analysis, start_views, preds@[i]@),
                    )->Some_0);
                    assert(nviews[i] == next@[i]@);
                }
                assert(pass_views(analysis, *cfg, locations@, ptab, start_views) == Some(
                    nviews,
                )) by {
                    assert(Seq::new(
                        locations@.len(),
                        |i: int|
                            analysis.spec_trans(
                                locations@[i],
                                *cfg,
                                folded_input(analysis, start_views, ptab[i]),
                            )->Some_0,
                    ) =~= nviews);
                }
                assert(iterate_views(analysis, *cfg, locations@, ptab, round as nat) == Some(
                    start_views,
                ));
                assert(iterate_views(analysis, *cfg, locations@, ptab, (round + 1) as nat) == Some(
                    nviews,
                ));
                let kk = choose|kk: int|
                    0 <= kk < next@.len() && (#[trigger] next@[kk])@ != start_views[kk];
                assert(nviews[kk] != start_views[kk]);
                assert(nviews != start_views);
                assert(!stable_at(analysis, *cfg, locations@, ptab, round as nat));
                assert forall|k: nat| k < round + 1 implies !(#[trigger] stable_at(
                    analysis,
                    *cfg,
                    locations@,
                    ptab,
                    k,
                )) by {}
            }
            states = next;
            round = round + 1;
        }
    }
    proof {
        assert(dataflow_solution(analysis, *cfg, locations@, states@, ptab));
        assert(pred_table_exact(*cfg, locations@, ptab));
        assert(iterate_views(analysis, *cfg, locations@, ptab, round as nat) == Some(
            result_views(states@),
        ));
        assert(stable_at(analysis, *cfg, locations@, ptab, round as nat));
        assert(round <= iteration_cap);
    }
    Ok(AnalysisResult { locations, states })
}

} // verus!
