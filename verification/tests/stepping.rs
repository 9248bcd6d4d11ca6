use markovgen::{
    GraphConstructor, GraphStepper, GraphStepperConfiguration, GraphStepperError, GraphStepperOut,
    InvalidConfigurationParameter,
};
use std::sync::Arc;

const SEQUENCE_START: char = '\x01';
const SEQUENCE_END: char = '\x02';

fn register_word(constructor: &mut GraphConstructor, word: &str) {
    let mut last = SEQUENCE_START;
    for c in word.chars() {
        constructor.register_sequence(last, c);
        last = c;
    }
    constructor.register_sequence(last, SEQUENCE_END);
}

/// A two-vertex cycle: 'a' -> 'b' -> 'a', every step deterministic.
fn cycle_graph() -> Arc<markovgen::Graph> {
    let mut constructor = GraphConstructor::new();
    constructor.register_sequence('a', 'b');
    constructor.register_sequence('b', 'a');
    Arc::new(constructor.construct())
}

#[test]
fn steps_append_symbols_in_order_and_flush_returns_them() {
    let graph = cycle_graph();
    let start = graph.find_position('a').unwrap();
    let mut stepper = GraphStepper::new(
        graph.clone(),
        GraphStepperConfiguration { start_char: Some('a'), min_length: None },
    )
    .unwrap();
    assert_eq!(stepper.current_position(), start);
    stepper.step().unwrap();
    stepper.step().unwrap();
    stepper.step().unwrap();
    let out = stepper.flush();
    assert_eq!(out, vec!['b', 'a', 'b']);
    // After the flush the buffer is empty and the position is back at the
    // configured start symbol.
    assert_eq!(stepper.current_position(), start);
    assert_eq!(stepper.flush(), Vec::<char>::new());
}

#[test]
fn stepper_on_empty_graph_without_start_fails() {
    let graph = Arc::new(GraphConstructor::new().construct());
    assert_eq!(graph.vertex_count(), 0);
    let result = GraphStepper::new(
        graph,
        GraphStepperConfiguration { start_char: None, min_length: None },
    );
    match result {
        Err(GraphStepperError::InvalidParameter(InvalidConfigurationParameter::StartChar)) => {}
        _ => panic!("stepper on an empty graph must fail deterministically"),
    }
}

#[test]
fn stepper_with_absent_start_symbol_fails() {
    let graph = cycle_graph();
    let result = GraphStepper::new(
        graph,
        GraphStepperConfiguration { start_char: Some('z'), min_length: None },
    );
    match result {
        Err(GraphStepperError::InvalidParameter(InvalidConfigurationParameter::StartChar)) => {}
        _ => panic!("absent start symbol must be rejected"),
    }
}

#[test]
fn step_from_dead_end_is_edge_exhaustion() {
    let mut constructor = GraphConstructor::new();
    constructor.register_sequence('a', 'b');
    let graph = Arc::new(constructor.construct());
    // 'b' is a terminal vertex; pin the stepper there.
    let mut stepper = GraphStepper::new(
        graph,
        GraphStepperConfiguration { start_char: Some('b'), min_length: None },
    )
    .unwrap();
    assert_eq!(stepper.step(), Err(GraphStepperError::EdgeExhaustion));
}

#[test]
fn min_length_excludes_terminal_targets() {
    // Vertex 'A' has two equally weighted edges: one to terminal 'B', one
    // back to 'A'. With a minimum length of two, the first two steps must
    // stay on 'A'.
    let mut constructor = GraphConstructor::new();
    constructor.register_sequence('A', 'B');
    constructor.register_sequence('A', 'A');
    let graph = Arc::new(constructor.construct());
    for _ in 0..50 {
        let mut stepper = GraphStepper::new(
            graph.clone(),
            GraphStepperConfiguration { start_char: Some('A'), min_length: Some(2) },
        )
        .unwrap();
        stepper.step().unwrap();
        stepper.step().unwrap();
        let out = stepper.flush();
        assert_eq!(out, vec!['A', 'A']);
    }
}

#[test]
fn min_length_with_only_terminal_targets_is_exhaustion() {
    // Every edge of 'a' leads to a dead end; with an unmet minimum length
    // the redistribution has no candidate left, which is reported as
    // EdgeExhaustion rather than dividing by zero.
    let mut constructor = GraphConstructor::new();
    constructor.register_sequence('a', 'b');
    let graph = Arc::new(constructor.construct());
    let mut stepper = GraphStepper::new(
        graph,
        GraphStepperConfiguration { start_char: Some('a'), min_length: Some(3) },
    )
    .unwrap();
    assert_eq!(stepper.step(), Err(GraphStepperError::EdgeExhaustion));
}

#[test]
fn step_until_reaches_target() {
    let graph = cycle_graph();
    let mut stepper = GraphStepper::new(
        graph,
        GraphStepperConfiguration { start_char: Some('a'), min_length: None },
    )
    .unwrap();
    match stepper.step_until('b', 5).unwrap() {
        GraphStepperOut::Reached(s) => assert_eq!(s, vec!['b']),
        other => panic!("expected Reached, got {other:?}"),
    }
}

#[test]
fn step_until_times_out_at_exact_budget() {
    // 'c' exists in the graph but is unreachable from 'a'.
    let mut constructor = GraphConstructor::new();
    constructor.register_sequence('a', 'b');
    constructor.register_sequence('b', 'a');
    constructor.register_sequence('c', 'a');
    let graph = Arc::new(constructor.construct());
    let mut stepper = GraphStepper::new(
        graph,
        GraphStepperConfiguration { start_char: Some('a'), min_length: None },
    )
    .unwrap();
    match stepper.step_until('c', 4).unwrap() {
        GraphStepperOut::Timeout(s) => {
            assert_eq!(s.len(), 4);
            assert_eq!(s, vec!['b', 'a', 'b', 'a']);
        }
        other => panic!("expected Timeout, got {other:?}"),
    }
}

#[test]
fn step_until_reports_exhaustion_at_dead_end() {
    let mut constructor = GraphConstructor::new();
    constructor.register_sequence('a', 'b');
    let graph = Arc::new(constructor.construct());
    let mut stepper = GraphStepper::new(
        graph,
        GraphStepperConfiguration { start_char: Some('a'), min_length: None },
    )
    .unwrap();
    match stepper.step_until('a', 5).unwrap() {
        GraphStepperOut::Exhausted(s) => assert_eq!(s, vec!['b']),
        other => panic!("expected Exhausted, got {other:?}"),
    }
}

#[test]
fn step_until_rejects_absent_target() {
    let graph = cycle_graph();
    let mut stepper = GraphStepper::new(
        graph,
        GraphStepperConfiguration { start_char: Some('a'), min_length: None },
    )
    .unwrap();
    match stepper.step_until('z', 5) {
        Err(GraphStepperError::InvalidParameter(InvalidConfigurationParameter::EndChar)) => {}
        other => panic!("expected InvalidParameter(EndChar), got {other:?}"),
    }
}

#[test]
fn step_until_end_state_stops_at_dead_end() {
    let mut constructor = GraphConstructor::new();
    constructor.register_sequence('a', 'b');
    let graph = Arc::new(constructor.construct());
    let mut stepper = GraphStepper::new(
        graph,
        GraphStepperConfiguration { start_char: Some('a'), min_length: None },
    )
    .unwrap();
    match stepper.step_until_end_state(10).unwrap() {
        GraphStepperOut::Reached(s) => assert_eq!(s, vec!['b']),
        other => panic!("expected Reached, got {other:?}"),
    }
}

#[test]
fn step_until_end_state_times_out_on_cycle() {
    let graph = cycle_graph();
    let mut stepper = GraphStepper::new(
        graph,
        GraphStepperConfiguration { start_char: Some('a'), min_length: None },
    )
    .unwrap();
    match stepper.step_until_end_state(6).unwrap() {
        GraphStepperOut::Timeout(s) => assert_eq!(s, vec!['b', 'a', 'b', 'a', 'b', 'a']),
        other => panic!("expected Timeout, got {other:?}"),
    }
}

#[test]
fn named_training_data_respects_min_length_and_budget() {
    let mut constructor = GraphConstructor::new();
    for word in ["Tim", "Tom", "Thomas"] {
        register_word(&mut constructor, word);
    }
    let graph = Arc::new(constructor.construct());
    for _ in 0..50 {
        let mut stepper = GraphStepper::new(
            graph.clone(),
            GraphStepperConfiguration { start_char: Some(SEQUENCE_START), min_length: Some(3) },
        )
        .unwrap();
        match stepper.step_until_end_state(16).unwrap() {
            GraphStepperOut::Reached(s) => {
                assert!(s.len() >= 3, "min length violated: {s:?}");
                assert!(s.len() <= 16);
            }
            GraphStepperOut::Timeout(s) => assert_eq!(s.len(), 16),
            other => panic!("unexpected outcome {other:?}"),
        }
    }
}

#[test]
fn random_start_lands_on_a_valid_vertex() {
    // A single-vertex graph: a uniformly drawn start position must be that
    // vertex, and stepping from it must work.
    let mut constructor = GraphConstructor::new();
    constructor.register_sequence('a', 'a');
    let graph = Arc::new(constructor.construct());
    assert_eq!(graph.vertex_count(), 1);
    let mut stepper = GraphStepper::new(
        graph,
        GraphStepperConfiguration { start_char: None, min_length: None },
    )
    .unwrap();
    assert_eq!(stepper.current_position(), 0);
    stepper.step().unwrap();
    assert_eq!(stepper.flush(), vec!['a']);
}

#[test]
fn select_edge_picks_first_cumulative_winner() {
    // Weights 2 then 3: draws 0 and 1 pick the first edge, draws 2 to 4 the
    // second.
    let weights: Vec<(usize, u128)> = vec![(7, 2), (9, 3)];
    assert_eq!(markovgen::stepper::select_edge(&weights, 0), 0);
    assert_eq!(markovgen::stepper::select_edge(&weights, 1), 0);
    assert_eq!(markovgen::stepper::select_edge(&weights, 2), 1);
    assert_eq!(markovgen::stepper::select_edge(&weights, 4), 1);
}

#[test]
fn step_until_with_zero_budget_times_out_empty() {
    let graph = cycle_graph();
    let mut stepper = GraphStepper::new(
        graph,
        GraphStepperConfiguration { start_char: Some('a'), min_length: None },
    )
    .unwrap();
    match stepper.step_until('b', 0).unwrap() {
        GraphStepperOut::Timeout(s) => assert_eq!(s, Vec::<char>::new()),
        other => panic!("expected Timeout of the empty output, got {other:?}"),
    }
}

#[test]
fn step_until_returns_buffer_already_ending_with_target() {
    let graph = cycle_graph();
    let mut stepper = GraphStepper::new(
        graph,
        GraphStepperConfiguration { start_char: Some('a'), min_length: None },
    )
    .unwrap();
    stepper.step().unwrap();
    // The buffer is now exactly ['b']; even with the budget already spent the
    // drive must return it unchanged as Reached, without stepping further.
    match stepper.step_until('b', 0).unwrap() {
        GraphStepperOut::Reached(s) => assert_eq!(s, vec!['b']),
        other => panic!("expected Reached of the unchanged buffer, got {other:?}"),
    }
}
