use vestra::pose_graph::{
    descend, descent_begins, descent_report, fixed_nodes, plan_pose_graph, retract_nodes,
    validate_graph, Descent, PoseGraphEdge, PoseGraphError, PoseGraphSettings, RelativePoseGraph,
    Trial, Verdict,
};
use vestra::world::SimilarityTransform;

fn translation(x: f32) -> SimilarityTransform {
    SimilarityTransform {
        scale: 1.0_f32.to_bits(),
        rotation: [1.0_f32, 0.0, 0.0, 0.0, 1.0, 0.0, 0.0, 0.0, 1.0].map(f32::to_bits),
        translation: [x, 0.0, 0.0].map(f32::to_bits),
    }
}

fn edge(from: usize, to: usize, x: f32, loop_closure: bool) -> PoseGraphEdge {
    PoseGraphEdge {
        from,
        to,
        measurement: translation(x),
        information: 1.0_f32.to_bits(),
        loop_closure,
    }
}

#[test]
fn invalid_edges_are_rejected_before_optimization() {
    let graph = RelativePoseGraph {
        nodes: vec![translation(0.0)],
        edges: vec![PoseGraphEdge {
            from: 0,
            to: 1,
            measurement: translation(0.0),
            information: 1.0_f32.to_bits(),
            loop_closure: true,
        }],
        fixed: Vec::new(),
    };
    assert_eq!(validate_graph(&graph), Err(PoseGraphError::InvalidEdge));
    assert!(matches!(
        plan_pose_graph(&graph),
        Err(PoseGraphError::InvalidEdge)
    ));
}

#[test]
fn unusable_measurements_are_rejected() {
    let mut broken = edge(0, 1, 1.0, false);
    broken.information = f32::NAN.to_bits();
    let graph = RelativePoseGraph {
        nodes: vec![translation(0.0), translation(1.0)],
        edges: vec![broken],
        fixed: Vec::new(),
    };
    assert_eq!(
        validate_graph(&graph),
        Err(PoseGraphError::InvalidMeasurement)
    );
}

fn chain() -> RelativePoseGraph {
    RelativePoseGraph {
        nodes: vec![translation(0.0), translation(1.0), translation(2.4)],
        edges: vec![
            edge(0, 1, 1.0, false),
            edge(1, 2, 1.0, false),
            edge(0, 2, 2.0, true),
        ],
        fixed: vec![true, false, false],
    }
}

#[test]
fn each_free_node_has_its_own_unknowns() {
    let plan = plan_pose_graph(&chain()).unwrap();
    assert_eq!(plan.fixed, vec![true, false, false]);
    assert_eq!(plan.offsets, vec![None, Some(0), Some(7)]);
    assert_eq!(plan.variables, 14);
    assert_eq!(plan.loop_edges, 1);
    let mut loose = chain();
    loose.fixed = Vec::new();
    assert_eq!(fixed_nodes(&loose), vec![true, false, false]);
}

#[test]
fn only_free_nodes_move() {
    let graph = chain();
    let plan = plan_pose_graph(&graph).unwrap();
    let moved = vec![translation(9.0); 3];
    let next = retract_nodes(&graph.nodes, &moved, &plan);
    assert_eq!(next, vec![translation(0.0), moved[1], moved[2]]);
}

#[test]
fn a_descent_keeps_the_lowest_cost() {
    let settings = PoseGraphSettings::default();
    let plan = plan_pose_graph(&chain()).unwrap();
    assert!(descent_begins(&settings, &plan));
    let start = Descent {
        round: 0,
        attempt: 0,
        iterations: 0,
        cost: 4.0_f64.to_bits(),
    };
    let worse = Trial::Solved {
        cost: 5.0_f64.to_bits(),
        small: false,
    };
    let (state, verdict) = descend(start, worse, &settings);
    assert_eq!(verdict, Verdict::Retry);
    assert_eq!(state.cost, 4.0_f64.to_bits());
    let better = Trial::Solved {
        cost: 1.0_f64.to_bits(),
        small: false,
    };
    let (state, verdict) = descend(state, better, &settings);
    assert_eq!(verdict, Verdict::Accept);
    let last = Trial::Solved {
        cost: 0.5_f64.to_bits(),
        small: true,
    };
    let (state, verdict) = descend(state, last, &settings);
    assert_eq!(verdict, Verdict::AcceptAndFinish);
    let report = descent_report(4.0_f64.to_bits(), &state, &plan);
    assert_eq!(report.final_cost, 0.5_f64.to_bits());
    assert_eq!(report.free_degrees_of_freedom, 14);
    assert_eq!(report.loop_edges, 1);
}

#[test]
fn a_descent_gives_up_after_its_attempts() {
    let settings = PoseGraphSettings::default();
    let mut state = Descent {
        round: 0,
        attempt: 0,
        iterations: 0,
        cost: 4.0_f64.to_bits(),
    };
    for _ in 0..11 {
        let (next, verdict) = descend(state, Trial::Unsolved, &settings);
        assert_eq!(verdict, Verdict::Retry);
        state = next;
    }
    let (_, verdict) = descend(state, Trial::Unsolved, &settings);
    assert_eq!(verdict, Verdict::Finish);
}
