//! Relative pose graphs: which graphs can be optimized, which nodes are free
//! to move and how the damped descent decides.
//!
//! Every window stays in its local frame; the local-to-global transforms are
//! moved against sequential and verified loop edges. Loops are not proposed
//! or measured here.

use vstd::prelude::*;

use crate::ieee;
use crate::world::SimilarityTransform;

verus! {

/// A measured constraint between two windows. The measurement maps `to` local
/// coordinates into `from` local coordinates.
#[derive(Debug, Clone, Copy, PartialEq, Eq)]
pub struct PoseGraphEdge {
    pub from: usize,
    pub to: usize,
    pub measurement: SimilarityTransform,
    /// Isotropic information weight; finite and positive.
    pub information: u32,
    /// A verified revisit in place of a sequential seam.
    pub loop_closure: bool,
}

/// Windows and the constraints between them.
#[derive(Debug, Clone, PartialEq, Eq)]
pub struct RelativePoseGraph {
    pub nodes: Vec<SimilarityTransform>,
    pub edges: Vec<PoseGraphEdge>,
    /// Gauge locks. A list of another length than the nodes locks node zero.
    pub fixed: Vec<bool>,
}

/// Bounds of the descent. All but the count are binary64 patterns.
#[derive(Debug, Clone, Copy, PartialEq, Eq)]
pub struct PoseGraphSettings {
    pub max_iterations: usize,
    pub initial_damping: u64,
    pub convergence_relative_cost: u64,
    pub finite_difference_step: u64,
}

impl Default for PoseGraphSettings {
    fn default() -> (settings: Self)
        ensures
            settings == (PoseGraphSettings {
                max_iterations: 50,
                initial_damping: 0x3f1a_36e2_eb1c_432d,
                convergence_relative_cost: 0x3ddb_7cdf_d9d7_bdbb,
                finite_difference_step: 0x3eb0_c6f7_a0b5_ed8d,
            }),
    {
        PoseGraphSettings {
            max_iterations: 50,
            initial_damping: 0x3f1a_36e2_eb1c_432d,
            convergence_relative_cost: 0x3ddb_7cdf_d9d7_bdbb,
            finite_difference_step: 0x3eb0_c6f7_a0b5_ed8d,
        }
    }
}

/// How a descent ended. Costs are binary64 patterns.
#[derive(Debug, Clone, Copy, PartialEq, Eq)]
pub struct PoseGraphReport {
    pub initial_cost: u64,
    pub final_cost: u64,
    pub iterations: usize,
    pub free_degrees_of_freedom: usize,
    pub loop_edges: usize,
}

/// Why a graph cannot be optimized.
#[derive(Debug, Clone, Copy, PartialEq, Eq, Structural)]
pub enum PoseGraphError {
    InvalidEdge,
    InvalidMeasurement,
    SingularSystem,
}

impl PoseGraphError {
    /// The reason in words.
    pub fn message(&self) -> (text: &'static str)
        ensures
            text@ == match *self {
                PoseGraphError::InvalidEdge => "pose graph edge references a missing node"@,
                PoseGraphError::InvalidMeasurement =>
                    "pose graph edge has invalid information or similarity scale"@,
                PoseGraphError::SingularSystem => "pose graph linear system is singular"@,
            },
    {
        match self {
            PoseGraphError::InvalidEdge => "pose graph edge references a missing node",
            PoseGraphError::InvalidMeasurement =>
                "pose graph edge has invalid information or similarity scale",
            PoseGraphError::SingularSystem => "pose graph linear system is singular",
        }
    }
}

/// Unknowns of one free node: translation, rotation and log scale.
pub const NODE_VARIABLES: usize = 7;

/// Damping values tried before a step is given up.
pub const STEP_ATTEMPTS: usize = 12;

/// What is wrong with an edge of a graph of `nodes` nodes, if anything is.
pub open spec fn edge_fault(edge: PoseGraphEdge, nodes: int) -> Option<PoseGraphError> {
    if edge.from >= nodes || edge.to >= nodes {
        Some(PoseGraphError::InvalidEdge)
    } else if !ieee::f32_positive(edge.information) || !ieee::f32_positive(
        edge.measurement.scale,
    ) {
        Some(PoseGraphError::InvalidMeasurement)
    } else {
        None
    }
}

/// The fault of the first faulty edge from place `start` on.
pub open spec fn graph_fault(
    edges: Seq<PoseGraphEdge>,
    nodes: int,
    start: int,
) -> Option<PoseGraphError>
    decreases edges.len() - start,
{
    if start >= edges.len() {
        None
    } else if edge_fault(edges[start], nodes) is Some {
        edge_fault(edges[start], nodes)
    } else {
        graph_fault(edges, nodes, start + 1)
    }
}

/// Refuses a graph with an edge to a missing node or with an unusable
/// measurement.
pub fn validate_graph(graph: &RelativePoseGraph) -> (result: Result<(), PoseGraphError>)
    ensures
        match result {
            Ok(_) => graph_fault(graph.edges@, graph.nodes@.len() as int, 0) is None,
            Err(e) => graph_fault(graph.edges@, graph.nodes@.len() as int, 0) == Some(e),
        },
{
    for i in 0..graph.edges.len()
        invariant
            graph_fault(graph.edges@, graph.nodes@.len() as int, 0) == graph_fault(
                graph.edges@,
                graph.nodes@.len() as int,
                i as int,
            ),
    {
        let edge = graph.edges[i];
        if edge.from >= graph.nodes.len() || edge.to >= graph.nodes.len() {
            return Err(PoseGraphError::InvalidEdge);
        }
        if !ieee::f32_is_positive(edge.information) || !ieee::f32_is_positive(
            edge.measurement.scale,
        ) {
            return Err(PoseGraphError::InvalidMeasurement);
        }
    }
    Ok(())
}

/// A node is locked: as configured, or node zero where nothing is.
pub open spec fn is_fixed(graph: RelativePoseGraph, node: int) -> bool {
    if graph.fixed@.len() == graph.nodes@.len() {
        graph.fixed@[node]
    } else {
        node == 0
    }
}

/// The gauge locks of a graph.
pub fn fixed_nodes(graph: &RelativePoseGraph) -> (fixed: Vec<bool>)
    ensures
        fixed@ == Seq::new(graph.nodes@.len(), |i: int| is_fixed(*graph, i)),
{
    let mut fixed: Vec<bool> = Vec::new();
    let configured = graph.fixed.len() == graph.nodes.len();
    for i in 0..graph.nodes.len()
        invariant
            configured == (graph.fixed@.len() == graph.nodes@.len()),
            fixed@ == Seq::new(graph.nodes@.len(), |i: int| is_fixed(*graph, i)).take(i as int),
    {
        fixed.push(
            if configured {
                graph.fixed[i]
            } else {
                i == 0
            },
        );
        assert(fixed@ =~= Seq::new(graph.nodes@.len(), |i: int| is_fixed(*graph, i)).take(i + 1));
    }
    assert(fixed@ =~= Seq::new(graph.nodes@.len(), |i: int| is_fixed(*graph, i)));
    fixed
}

/// How many of the first `count` nodes are free.
pub open spec fn free_before(fixed: Seq<bool>, count: int) -> nat
    decreases count,
{
    if count <= 0 {
        0
    } else {
        free_before(fixed, count - 1) + if fixed[count - 1] {
            0nat
        } else {
            1nat
        }
    }
}

proof fn lemma_free_bounded(fixed: Seq<bool>, count: int)
    requires
        0 <= count,
    ensures
        free_before(fixed, count) <= count,
    decreases count,
{
    if count > 0 {
        lemma_free_bounded(fixed, count - 1);
    }
}

proof fn lemma_free_grows(fixed: Seq<bool>, count: int, end: int)
    requires
        count <= end,
    ensures
        free_before(fixed, count) <= free_before(fixed, end),
    decreases end - count,
{
    if count < end {
        lemma_free_grows(fixed, count, end - 1);
    }
}

/// Where the unknowns of a node start in the vector of all unknowns.
pub open spec fn offset_of(fixed: Seq<bool>, node: int) -> Option<usize> {
    if fixed[node] {
        None
    } else {
        Some((free_before(fixed, node) * NODE_VARIABLES) as usize)
    }
}

/// What the descent works on.
#[derive(Debug, Clone, PartialEq, Eq)]
pub struct GraphPlan {
    pub fixed: Vec<bool>,
    pub offsets: Vec<Option<usize>>,
    pub variables: usize,
    pub loop_edges: usize,
}

/// How many of the first `count` edges close a loop.
pub open spec fn loops_among(edges: Seq<PoseGraphEdge>, count: int) -> nat
    decreases count,
{
    if count <= 0 {
        0
    } else {
        loops_among(edges, count - 1) + if edges[count - 1].loop_closure {
            1nat
        } else {
            0nat
        }
    }
}

/// How many edges close a loop.
pub fn count_loops(edges: &Vec<PoseGraphEdge>) -> (loops: usize)
    ensures
        loops == loops_among(edges@, edges@.len() as int),
{
    let mut loops: usize = 0;
    for i in 0..edges.len()
        invariant
            loops == loops_among(edges@, i as int),
            loops <= i,
    {
        if edges[i].loop_closure {
            loops = loops + 1;
        }
    }
    loops
}

/// The plan of a graph: its locks, the unknowns of its free nodes and its
/// loops.
pub open spec fn is_plan(graph: RelativePoseGraph, plan: GraphPlan) -> bool {
    let nodes = graph.nodes@.len();
    let fixed = Seq::new(nodes, |i: int| is_fixed(graph, i));
    &&& plan.fixed@ == fixed
    &&& plan.offsets@ == Seq::new(nodes, |i: int| offset_of(fixed, i))
    &&& plan.variables == free_before(fixed, nodes as int) * NODE_VARIABLES
    &&& plan.loop_edges == (if nodes == 0 {
        0
    } else {
        loops_among(graph.edges@, graph.edges@.len() as int)
    })
}

/// Checks a graph and lays out its unknowns.
pub fn plan_pose_graph(graph: &RelativePoseGraph) -> (result: Result<GraphPlan, PoseGraphError>)
    requires
        graph.nodes@.len() * NODE_VARIABLES <= usize::MAX,
    ensures
        match result {
            Ok(plan) => graph_fault(graph.edges@, graph.nodes@.len() as int, 0) is None && is_plan(
                *graph,
                plan,
            ),
            Err(e) => graph_fault(graph.edges@, graph.nodes@.len() as int, 0) == Some(e),
        },
{
    if let Err(e) = validate_graph(graph) {
        return Err(e);
    }
    let fixed: Vec<bool> = fixed_nodes(graph);
    let ghost layout = Seq::new(graph.nodes@.len(), |i: int| offset_of(fixed@, i));
    let mut offsets: Vec<Option<usize>> = Vec::new();
    let mut variables: usize = 0;
    for i in 0..fixed.len()
        invariant
            fixed@.len() == graph.nodes@.len(),
            graph.nodes@.len() * NODE_VARIABLES <= usize::MAX,
            layout == Seq::new(graph.nodes@.len(), |i: int| offset_of(fixed@, i)),
            offsets@ == layout.take(i as int),
            variables == free_before(fixed@, i as int) * NODE_VARIABLES,
    {
        proof {
            lemma_free_bounded(fixed@, i as int);
        }
        if fixed[i] {
            offsets.push(None);
        } else {
            offsets.push(Some(variables));
            variables = variables + NODE_VARIABLES;
        }
        assert(offsets@ =~= layout.take(i + 1));
    }
    assert(layout.take(fixed@.len() as int) =~= layout);
    let loop_edges: usize = if graph.nodes.len() == 0 {
        0
    } else {
        count_loops(&graph.edges)
    };
    Ok(GraphPlan { fixed, offsets, variables, loop_edges })
}

/// The unknowns of two free nodes do not overlap, and all lie within the
/// vector of unknowns.
pub proof fn law_unknowns_are_disjoint(fixed: Seq<bool>, a: int, b: int)
    requires
        0 <= a < b < fixed.len(),
        fixed.len() * NODE_VARIABLES <= usize::MAX,
        !fixed[a],
        !fixed[b],
    ensures
        offset_of(fixed, a).unwrap() + NODE_VARIABLES <= offset_of(fixed, b).unwrap(),
        offset_of(fixed, b).unwrap() + NODE_VARIABLES <= free_before(fixed, fixed.len() as int)
            * NODE_VARIABLES,
{
    lemma_free_grows(fixed, a + 1, b);
    lemma_free_grows(fixed, b + 1, fixed.len() as int);
    lemma_free_bounded(fixed, fixed.len() as int);
}

/// Takes the moved transforms of the free nodes and keeps the locked ones.
pub fn retract_nodes(
    nodes: &Vec<SimilarityTransform>,
    moved: &Vec<SimilarityTransform>,
    plan: &GraphPlan,
) -> (result: Vec<SimilarityTransform>)
    requires
        moved@.len() == nodes@.len(),
        plan.offsets@.len() == nodes@.len(),
    ensures
        result@ == Seq::new(
            nodes@.len(),
            |i: int|
                if plan.offsets@[i] is Some {
                    moved@[i]
                } else {
                    nodes@[i]
                },
        ),
{
    let ghost whole = Seq::new(
        nodes@.len(),
        |i: int|
            if plan.offsets@[i] is Some {
                moved@[i]
            } else {
                nodes@[i]
            },
    );
    let mut result: Vec<SimilarityTransform> = Vec::new();
    for i in 0..nodes.len()
        invariant
            moved@.len() == nodes@.len(),
            plan.offsets@.len() == nodes@.len(),
            whole == Seq::new(
                nodes@.len(),
                |i: int|
                    if plan.offsets@[i] is Some {
                        moved@[i]
                    } else {
                        nodes@[i]
                    },
            ),
            result@ == whole.take(i as int),
    {
        if plan.offsets[i].is_some() {
            result.push(moved[i]);
        } else {
            result.push(nodes[i]);
        }
        assert(result@ =~= whole.take(i + 1));
    }
    assert(whole.take(nodes@.len() as int) =~= whole);
    result
}

/// Where a descent stands: the outer round, the damping values tried in it,
/// the last round that moved the graph and the cost reached.
#[derive(Debug, Clone, Copy, PartialEq, Eq, Structural)]
pub struct Descent {
    pub round: usize,
    pub attempt: usize,
    pub iterations: usize,
    pub cost: u64,
}

/// What one damping value brought: no step, or a graph of some cost. The step
/// is small where its improvement is within the convergence limit.
#[derive(Debug, Clone, Copy, PartialEq, Eq, Structural)]
pub enum Trial {
    Unsolved,
    Solved { cost: u64, small: bool },
}

/// What to do next.
#[derive(Debug, Clone, Copy, PartialEq, Eq, Structural)]
pub enum Verdict {
    /// Drop the step and raise the damping.
    Retry,
    /// Take the step, lower the damping and start the next round.
    Accept,
    /// Take the step and finish.
    AcceptAndFinish,
    /// Drop the step and finish.
    Finish,
}

/// A descent at its start. No round is left where none is allowed.
pub open spec fn begins(settings: PoseGraphSettings, variables: usize) -> bool {
    variables > 0 && settings.max_iterations > 0
}

/// Whether a descent has anything to do.
pub fn descent_begins(settings: &PoseGraphSettings, plan: &GraphPlan) -> (answer: bool)
    ensures
        answer == begins(*settings, plan.variables),
{
    plan.variables > 0 && settings.max_iterations > 0
}

/// A descent that may take another trial.
pub open spec fn in_progress(state: Descent, settings: PoseGraphSettings) -> bool {
    state.round < settings.max_iterations && state.attempt < STEP_ATTEMPTS
}

/// The step after a trial. A step counts only where it lowers the cost; twelve
/// trials without one end the descent, and so does a small improvement.
pub open spec fn next_step(
    state: Descent,
    trial: Trial,
    settings: PoseGraphSettings,
) -> (Descent, Verdict) {
    let improved = trial matches Trial::Solved { cost, .. } && ieee::f64_less(cost, state.cost);
    if improved {
        let moved = Descent {
            round: (state.round + 1) as usize,
            attempt: 0,
            iterations: (state.round + 1) as usize,
            cost: trial->cost,
        };
        if trial->small || state.round + 1 >= settings.max_iterations {
            (moved, Verdict::AcceptAndFinish)
        } else {
            (moved, Verdict::Accept)
        }
    } else {
        let tried = Descent { attempt: (state.attempt + 1) as usize, ..state };
        if state.attempt + 1 >= STEP_ATTEMPTS {
            (tried, Verdict::Finish)
        } else {
            (tried, Verdict::Retry)
        }
    }
}

/// Decides on one trial of the descent.
pub fn descend(state: Descent, trial: Trial, settings: &PoseGraphSettings) -> (next: (
    Descent,
    Verdict,
))
    requires
        in_progress(state, *settings),
    ensures
        next == next_step(state, trial, *settings),
{
    if let Trial::Solved { cost, small } = trial {
        if ieee::f64_lt(cost, state.cost) {
            let moved = Descent {
                round: state.round + 1,
                attempt: 0,
                iterations: state.round + 1,
                cost,
            };
            let verdict = if small || state.round + 1 >= settings.max_iterations {
                Verdict::AcceptAndFinish
            } else {
                Verdict::Accept
            };
            return (moved, verdict);
        }
    }
    let tried = Descent { attempt: state.attempt + 1, ..state };
    let verdict = if state.attempt + 1 >= STEP_ATTEMPTS {
        Verdict::Finish
    } else {
        Verdict::Retry
    };
    (tried, verdict)
}

/// The graph moves only where that lowers its cost.
pub proof fn law_descent_only_lowers_cost(state: Descent, trial: Trial, settings: PoseGraphSettings)
    requires
        in_progress(state, settings),
    ensures
        ({
            let (next, verdict) = next_step(state, trial, settings);
            if verdict is Accept || verdict is AcceptAndFinish {
                ieee::f64_less(next.cost, state.cost)
            } else {
                next.cost == state.cost && next.iterations == state.iterations
            }
        }),
{
}

/// A descent goes on only with fewer trials left than before, so it ends: no
/// more than twelve trials fall to each allowed round.
pub proof fn law_descent_ends(state: Descent, trial: Trial, settings: PoseGraphSettings)
    requires
        in_progress(state, settings),
    ensures
        ({
            let (next, verdict) = next_step(state, trial, settings);
            let left = (settings.max_iterations - state.round) * STEP_ATTEMPTS - state.attempt;
            let left_next = (settings.max_iterations - next.round) * STEP_ATTEMPTS - next.attempt;
            verdict is Retry || verdict is Accept ==> in_progress(next, settings) && 0 < left_next
                < left
        }),
{
}

/// The report of a finished descent.
pub fn descent_report(initial_cost: u64, state: &Descent, plan: &GraphPlan) -> (report:
    PoseGraphReport)
    ensures
        report == (PoseGraphReport {
            initial_cost,
            final_cost: state.cost,
            iterations: state.iterations,
            free_degrees_of_freedom: plan.variables,
            loop_edges: plan.loop_edges,
        }),
{
    PoseGraphReport {
        initial_cost,
        final_cost: state.cost,
        iterations: state.iterations,
        free_degrees_of_freedom: plan.variables,
        loop_edges: plan.loop_edges,
    }
}

/// A graph is refused for its first bad edge: one that leads to a window that is not
/// there, or one whose information or scale is not a number above zero. A graph with no
/// such edge is not refused.
pub proof fn law_first_bad_edge_refuses(edges: Seq<PoseGraphEdge>, nodes: int, start: int)
    requires
        0 <= start <= edges.len(),
    ensures
        ({
            let lost = |i: int| edges[i].from >= nodes || edges[i].to >= nodes;
            let senseless = |i: int|
                !(0 < ieee::f32_rank(edges[i].information) < 0x7f80_0000) || !(0 < ieee::f32_rank(
                    edges[i].measurement.scale,
                ) < 0x7f80_0000);
            match graph_fault(edges, nodes, start) {
                None => forall|i: int|
                    start <= i < edges.len() ==> !lost(i) && !senseless(i) && #[trigger] edges[i]
                        == edges[i],
                Some(fault) => exists|k: int|
                    {
                        &&& start <= k < edges.len() && #[trigger] edges[k] == edges[k]
                        &&& lost(k) || senseless(k)
                        &&& fault == (if lost(k) {
                            PoseGraphError::InvalidEdge
                        } else {
                            PoseGraphError::InvalidMeasurement
                        })
                        &&& forall|i: int|
                            start <= i < k ==> !lost(i) && !senseless(i) && #[trigger] edges[i]
                                == edges[i]
                    },
            }
        }),
    decreases edges.len() - start,
{
    if start < edges.len() {
        if edge_fault(edges[start], nodes) is None {
            law_first_bad_edge_refuses(edges, nodes, start + 1);
        } else {
            assert(edges[start] == edges[start]);
        }
    }
}

/// The unknowns of a graph are those of its free nodes, seven each, in node order; and
/// its loops are its edges that close one.
pub proof fn law_plan_counts(fixed: Seq<bool>, edges: Seq<PoseGraphEdge>, count: int)
    requires
        0 <= count <= fixed.len(),
        count <= edges.len(),
    ensures
        free_before(fixed, count) == fixed.take(count).filter(|locked: bool| !locked).len(),
        loops_among(edges, count) == edges.take(count).filter(
            |edge: PoseGraphEdge| edge.loop_closure,
        ).len(),
        NODE_VARIABLES == 7,
    decreases count,
{
    reveal(Seq::filter);
    if count > 0 {
        law_plan_counts(fixed, edges, count - 1);
        assert(fixed.take(count).drop_last() =~= fixed.take(count - 1));
        assert(edges.take(count).drop_last() =~= edges.take(count - 1));
    }
}

/// A trial is accepted exactly where its cost is numerically less than the least so
/// far, which it then becomes; a descent is over after a small step, after its last
/// round, or after twelve trials in a row that did not lower the cost.
pub proof fn law_trials_are_accepted_for_less(
    state: Descent,
    cost: u64,
    small: bool,
    settings: PoseGraphSettings,
)
    requires
        in_progress(state, settings),
        !ieee::f64_nan(cost),
        !ieee::f64_nan(state.cost),
    ensures
        ({
            let (next, verdict) = next_step(state, Trial::Solved { cost, small }, settings);
            let less = ieee::f64_rank(cost) < ieee::f64_rank(state.cost);
            &&& less <==> verdict is Accept || verdict is AcceptAndFinish
            &&& next.cost == (if less { cost } else { state.cost })
            &&& less ==> (verdict is AcceptAndFinish <==> small || state.round + 1
                >= settings.max_iterations)
            &&& !less ==> (verdict is Finish <==> state.attempt + 1 >= 12)
        }),
        ({
            let (next, verdict) = next_step(state, Trial::Unsolved, settings);
            &&& next.cost == state.cost
            &&& verdict is Finish <==> state.attempt + 1 >= 12
            &&& verdict is Finish || verdict is Retry
        }),
{
}

} // verus!
