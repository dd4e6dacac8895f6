use std::collections::HashMap;
use wiggles::network::{Inputs, Network, NetworkError, NodeId};
use wiggles::ids::{ClockId, WiggleId};

type TestNodeId = ClockId;

#[derive(Debug)]
struct EmptyNode;

impl Inputs<()> for EmptyNode {
    fn default_input_count(&self) -> u32 {
        1
    }
    fn try_push_input(&mut self) -> Result<(), ()> {
        Ok(())
    }
    fn try_pop_input(&mut self) -> Result<(), ()> {
        Ok(())
    }
}

type TestNetwork = Network<EmptyNode, TestNodeId, ()>;

fn expect_no_cycle<I: NodeId + std::fmt::Debug + PartialEq>(
    src: I,
    dest: I,
    result: Result<(), NetworkError<I>>,
) {
    match result.expect_err("Network did not return an error.") {
        NetworkError::WouldCycle { source, sink } => {
            assert_eq!(source, src);
            assert_eq!(sink, dest);
        }
        x => panic!("Network returned unexpected error: {:?}", x),
    }
}

fn add_node_get_id(net: &mut TestNetwork) -> TestNodeId {
    let (id, _) = net.add(EmptyNode);
    id
}

#[test]
fn test_no_cycles() {
    let mut net: TestNetwork = Network::new();
    let end = add_node_get_id(&mut net);

    expect_no_cycle(end, end, net.swap_input(end, 0, Some(end)));

    let head = add_node_get_id(&mut net);
    net.swap_input(end, 0, Some(head)).unwrap();
    {
        let mut expected_listeners = HashMap::new();
        expected_listeners.insert(end.index(), 1);
        assert_eq!(net.node(head).unwrap().listener_counts(), &expected_listeners);

        assert_eq!(net.node(end).unwrap().inputs(), vec!(Some(head)).as_slice());
    }

    assert!(net.node(head).unwrap().has_listeners());
    assert!(net.node_among_listeners(head.index(), end.index()));
    assert!(net.check_would_cycle(end, head).is_err());
    expect_no_cycle(end, head, net.swap_input(head, 0, Some(end)));

    let middle = add_node_get_id(&mut net);

    net.swap_input(end, 0, Some(middle)).unwrap();
    net.swap_input(middle, 0, Some(head)).unwrap();

    assert!(net.node(head).unwrap().has_listeners());
    assert!(net.node_among_listeners(head.index(), end.index()));
    assert!(net.check_would_cycle(end, head).is_err());
    expect_no_cycle(end, head, net.swap_input(head, 0, Some(end)));
}

#[test]
fn removed_slot_is_reused_with_next_generation() {
    let mut net: TestNetwork = Network::new();
    let a = add_node_get_id(&mut net);
    let b = add_node_get_id(&mut net);
    assert_eq!(a, TestNodeId::new(0, 0));
    assert_eq!(b, TestNodeId::new(1, 0));
    net.remove(a, false).unwrap();
    let c = add_node_get_id(&mut net);
    assert_eq!(c, TestNodeId::new(0, 1));
    // The old identifier no longer reaches the slot.
    match net.node(a) {
        Err(NetworkError::OldGenId(id)) => assert_eq!(id, a),
        Err(e) => panic!("unexpected error {:?}", e),
        Ok(_) => panic!("stale identifier reached a node"),
    }
    match net.node(TestNodeId::new(7, 0)) {
        Err(NetworkError::NoNodeAt(id)) => assert_eq!(id, TestNodeId::new(7, 0)),
        _ => panic!("expected NoNodeAt"),
    }
}

#[test]
fn cannot_remove_node_with_listeners_unless_forced() {
    let mut net: TestNetwork = Network::new();
    let source = add_node_get_id(&mut net);
    let sink = add_node_get_id(&mut net);
    net.swap_input(sink, 0, Some(source)).unwrap();
    match net.remove(source, false) {
        Err(NetworkError::HasListeners(id)) => assert_eq!(id, source),
        _ => panic!("expected HasListeners"),
    }
    assert!(net.remove(source, true).is_ok());
    // The listener was disconnected.
    assert_eq!(net.node(sink).unwrap().inputs(), vec!(None).as_slice());
}

#[test]
fn push_and_pop_inputs() {
    let mut net: TestNetwork = Network::new();
    let a = add_node_get_id(&mut net);
    let b = add_node_get_id(&mut net);
    let (input, _) = net.push_input(a, Some(b)).unwrap();
    assert_eq!(input, 1);
    assert_eq!(net.node(a).unwrap().inputs(), vec!(None, Some(b)).as_slice());
    assert!(net.node(b).unwrap().has_listeners());
    net.pop_input(a).unwrap();
    assert_eq!(net.node(a).unwrap().inputs(), vec!(None).as_slice());
    assert!(!net.node(b).unwrap().has_listeners());
    match net.swap_input(a, 3, None) {
        Err(NetworkError::InvalidInputId(3)) => {}
        _ => panic!("expected InvalidInputId"),
    }
}

#[test]
fn typed_identifiers_round_trip() {
    let c = ClockId::new(3, 4);
    assert_eq!((c.index(), c.gen_id()), (3, 4));
    let w = WiggleId::new(5, 6);
    assert_eq!((w.index(), w.gen_id()), (5, 6));
}

#[derive(Debug)]
struct Counter(u32);

impl Inputs<()> for Counter {
    fn default_input_count(&self) -> u32 {
        0
    }
    fn try_push_input(&mut self) -> Result<(), ()> {
        Err(())
    }
    fn try_pop_input(&mut self) -> Result<(), ()> {
        Err(())
    }
}

#[test]
fn map_inner_visits_every_node_with_its_id() {
    let mut net: Network<Counter, ClockId, ()> = Network::new();
    let (a, _) = net.add(Counter(10));
    let (b, _) = net.add(Counter(20));
    let mut seen = Vec::new();
    net.map_inner(|id: ClockId, n: &mut Counter| {
        seen.push(id);
        n.0 += 1;
    });
    assert_eq!(seen, vec![a, b]);
    assert_eq!(net.node_inner(a).unwrap().0, 11);
    assert_eq!(net.node_inner(b).unwrap().0, 21);
    match net.push_input(a, None) {
        Err(NetworkError::CantAddInput(id)) => assert_eq!(id, a),
        _ => panic!("expected CantAddInput"),
    }
    match net.pop_input(a) {
        Err(NetworkError::CantRemoveInput(id)) => assert_eq!(id, a),
        _ => panic!("expected CantRemoveInput"),
    }
}

#[derive(Debug)]
struct Limited {
    inputs: u32,
    max: u32,
}

impl Inputs<u32> for Limited {
    fn default_input_count(&self) -> u32 {
        2
    }
    fn try_push_input(&mut self) -> Result<u32, ()> {
        if self.inputs < self.max {
            self.inputs += 1;
            Ok(self.inputs)
        } else {
            Err(())
        }
    }
    fn try_pop_input(&mut self) -> Result<u32, ()> {
        if self.inputs > 0 {
            self.inputs -= 1;
            Ok(self.inputs)
        } else {
            Err(())
        }
    }
}

#[test]
fn payload_decides_input_changes_and_default_count() {
    let mut net: Network<Limited, ClockId, u32> = Network::new();
    let (a, node) = net.add(Limited { inputs: 2, max: 3 });
    assert_eq!(node.inputs().len(), 2);
    assert_eq!(net.push_input(a, None).ok(), Some((2, 3)));
    assert_eq!(net.node_inner(a).unwrap().inputs, 3);
    match net.push_input(a, None) {
        Err(NetworkError::CantAddInput(id)) => assert_eq!(id, a),
        _ => panic!("expected CantAddInput"),
    }
    assert_eq!(net.node(a).unwrap().inputs().len(), 3);
    assert_eq!(net.pop_input(a).ok(), Some(2));
    assert_eq!(net.node(a).unwrap().inputs().len(), 2);
}
