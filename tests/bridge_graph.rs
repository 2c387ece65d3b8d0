use modsynth::bridge::{drain_block, trigger_value, ControlInput, InputError, InputKind, QueueFull};
use modsynth::graph::{plan, Connection, Graph, GraphError, Wire};

fn continuous(init: i32, range: Option<(i32, i32)>, window: u32, capacity: usize) -> ControlInput {
    ControlInput::new(init, range, window, InputKind::Continuous, capacity).unwrap()
}

#[test]
fn bridge_burst_accepts_exactly_capacity() {
    let mut c = continuous(0, None, 0, 4);
    let results: Vec<Result<(), QueueFull>> = (1..=7).map(|v| c.try_write(v * 10)).collect();
    assert_eq!(results.iter().filter(|r| r.is_ok()).count(), 4);
    assert_eq!(results.iter().filter(|r| **r == Err(QueueFull)).count(), 3);
    assert!(results[..4].iter().all(|r| r.is_ok()));
    assert_eq!(c.pending(), 4);
    assert_eq!(c.drain(), Some(40));
    assert_eq!(c.value(), 40);
    assert_eq!(c.pending(), 0);
    assert_eq!(c.try_write(5), Ok(()));
}

#[test]
fn bridge_clamps_into_range() {
    let mut c = continuous(5000, Some((16, 880)), 0, 8);
    assert_eq!(c.value(), 880);
    c.try_write(2).unwrap();
    assert_eq!(c.drain(), Some(16));
    assert_eq!(c.value(), 16);
    c.try_write(440).unwrap();
    c.drain();
    assert_eq!(c.value(), 440);
}

#[test]
fn bridge_smoothing_moves_a_tenth_per_block() {
    let mut c = continuous(0, None, 10, 2);
    c.try_write(1000).unwrap();
    assert_eq!(c.drain(), Some(1000));
    assert_eq!(c.value(), 100);
    assert_eq!(c.drain(), None);
    assert_eq!(c.value(), 190);
    c.try_write(0).unwrap();
    c.drain();
    assert_eq!(c.value(), 171);
}

#[test]
fn bridge_empty_drain_keeps_value() {
    let mut c = continuous(7, None, 0, 1);
    assert_eq!(c.drain(), None);
    assert_eq!(c.value(), 7);
}

#[test]
fn bridge_trigger_exposes_at_once() {
    let mut c = ControlInput::new(0, None, 10, InputKind::Trigger, 2).unwrap();
    assert_eq!(c.kind(), InputKind::Trigger);
    c.try_write(1_000_000).unwrap();
    assert_eq!(c.drain(), Some(1_000_000));
    assert_eq!(c.value(), 1_000_000);
}

#[test]
fn bridge_rejects_bad_configuration() {
    assert!(matches!(
        ControlInput::new(0, Some((5, 1)), 0, InputKind::Continuous, 4),
        Err(InputError::EmptyRange)
    ));
    assert!(matches!(
        ControlInput::new(0, None, 0, InputKind::Continuous, 0),
        Err(InputError::BadCapacity)
    ));
}

#[test]
fn bridge_ring_wraps_around() {
    let mut c = continuous(0, None, 0, 3);
    for round in 0..10 {
        c.try_write(round).unwrap();
        c.try_write(round + 100).unwrap();
        assert_eq!(c.drain(), Some(round + 100));
    }
}

#[test]
fn drain_block_drains_each_input_in_order() {
    let mut inputs = vec![continuous(0, None, 0, 2), continuous(3, None, 0, 2), continuous(0, None, 2, 2)];
    inputs[0].try_write(11).unwrap();
    inputs[2].try_write(100).unwrap();
    let taken = drain_block(&mut inputs);
    assert_eq!(taken, vec![Some(11), None, Some(100)]);
    assert_eq!(inputs[0].value(), 11);
    assert_eq!(inputs[1].value(), 3);
    assert_eq!(inputs[2].value(), 50);
}

fn edge(from: usize, to: usize) -> Connection {
    Connection { from, to }
}

#[test]
fn plan_orders_the_patch() {
    // 0 freq, 1 fm, 2 env, 3 sine, 4 dist, 5 dly, 6 out
    let edges = vec![edge(0, 3), edge(2, 3), edge(1, 3), edge(3, 4), edge(4, 5), edge(5, 6)];
    assert_eq!(plan(7, &edges), Ok(vec![0, 1, 2, 3, 4, 5, 6]));
}

#[test]
fn plan_breaks_ties_by_declaration_order() {
    let edges = vec![edge(3, 0), edge(2, 1)];
    assert_eq!(plan(4, &edges), Ok(vec![2, 1, 3, 0]));
    assert_eq!(plan(3, &vec![]), Ok(vec![0, 1, 2]));
}

#[test]
fn plan_rejects_dangling_connection() {
    assert_eq!(plan(3, &vec![edge(0, 3)]), Err(GraphError::Dangling));
    assert_eq!(plan(3, &vec![edge(7, 1)]), Err(GraphError::Dangling));
}

#[test]
fn plan_rejects_cycles() {
    assert_eq!(plan(3, &vec![edge(0, 1), edge(1, 2), edge(2, 0)]), Err(GraphError::Cycle));
    assert_eq!(plan(2, &vec![edge(1, 1)]), Err(GraphError::Cycle));
}

#[test]
fn graph_routes_outputs_to_input_slots() {
    let wires = vec![
        Wire { from: 0, to: 2, port: 1 },
        Wire { from: 1, to: 2, port: 0 },
        Wire { from: 3, to: 2, port: 0 },
        Wire { from: 2, to: 3, port: 0 },
    ];
    assert_eq!(Graph::build(4, wires.clone()).err(), Some(GraphError::Cycle));
    let mut g = Graph::build(4, wires[..2].to_vec()).unwrap();
    assert_eq!(g.nodes(), 4);
    assert_eq!(g.steps(), 4);
    let order: Vec<usize> = (0..g.steps()).map(|k| g.node_at(k)).collect();
    assert_eq!(order, vec![0, 1, 2, 3]);
    assert_eq!(g.input(2, 0), 0);
    g.set_output(0, 5);
    g.set_output(1, -9);
    assert_eq!(g.output(0), 5);
    assert_eq!(g.input(2, 1), 5);
    assert_eq!(g.input(2, 0), -9);
    assert_eq!(g.input(2, 2), 0);
    assert_eq!(g.input(3, 0), 0);
}

#[test]
fn graph_first_wire_into_a_slot_wins() {
    let wires = vec![Wire { from: 0, to: 2, port: 0 }, Wire { from: 1, to: 2, port: 0 }];
    let mut g = Graph::build(3, wires).unwrap();
    g.set_output(0, 1);
    g.set_output(1, 2);
    assert_eq!(g.input(2, 0), 1);
    assert_eq!(Graph::build(2, vec![Wire { from: 0, to: 2, port: 0 }]).err(), Some(GraphError::Dangling));
}

#[test]
fn bridge_smoothing_reaches_target_from_below_and_above() {
    let mut c = continuous(95, None, 10, 2);
    c.try_write(100).unwrap();
    c.drain();
    assert_eq!(c.value(), 96);
    for _ in 0..10 {
        c.drain();
    }
    assert_eq!(c.value(), 100);
    c.try_write(95).unwrap();
    c.drain();
    assert_eq!(c.value(), 99);
    for _ in 0..10 {
        c.drain();
    }
    assert_eq!(c.value(), 95);
}

#[test]
fn trigger_value_hands_event_once() {
    assert_eq!(trigger_value(InputKind::Trigger, 0, Some(1_000_000), 1_000_000), 1_000_000);
    assert_eq!(trigger_value(InputKind::Trigger, 1, Some(1_000_000), 1_000_000), 0);
    assert_eq!(trigger_value(InputKind::Trigger, 0, None, 1_000_000), 0);
    assert_eq!(trigger_value(InputKind::Continuous, 3, None, 42), 42);
    assert_eq!(trigger_value(InputKind::Continuous, 0, Some(7), 42), 42);
}
