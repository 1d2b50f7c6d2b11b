use parasol_runtime::backend::Clear;
use parasol_runtime::circuits::insert_mux_circuit;
use parasol_runtime::engine::run_graph_blocking;
use parasol_runtime::graph::{ConstructionError, FheCircuit, NodeRef};
use parasol_runtime::mux::{
    multiplier_fits, multiplier_parts, signed_comparator_parts, unsigned_comparator_parts,
    CircuitParts, MuxGate, MuxNet, MuxNode, MuxPin, MuxWire,
};

fn wire(source: usize, target: usize, pin: MuxPin) -> Option<MuxWire> {
    Some(MuxWire { source, target, pin })
}

/// out0 = if v0 { 1 } else { 0 }, with the nodes stored against their order.
fn selector() -> CircuitParts {
    CircuitParts {
        gates: vec![
            Some(MuxGate::Output(0)),
            Some(MuxGate::Mux),
            Some(MuxGate::Zero),
            Some(MuxGate::One),
            Some(MuxGate::Variable(0)),
        ],
        wires: vec![
            wire(1, 0, MuxPin::Output),
            wire(2, 1, MuxPin::Low),
            wire(3, 1, MuxPin::High),
            wire(4, 1, MuxPin::Select),
        ],
        order: Some(vec![4, 3, 2, 1, 0]),
    }
}

fn error_of(parts: &CircuitParts) -> ConstructionError {
    match MuxNet::build(parts) {
        Ok(_) => panic!("the circuit was accepted"),
        Err(e) => e,
    }
}

#[test]
fn a_circuit_is_laid_out_in_its_order() {
    let net = MuxNet::build(&selector()).unwrap();
    assert_eq!(net.len(), 5);
    assert_eq!(net.num_inputs(), 1);
    assert_eq!(net.num_outputs(), 1);
    assert_eq!(net.node(0), MuxNode::Variable(0));
    assert_eq!(net.node(1), MuxNode::One);
    assert_eq!(net.node(2), MuxNode::Zero);
    assert_eq!(net.node(3), MuxNode::Mux { select: 0, low: 2, high: 1 });
    assert_eq!(net.node(4), MuxNode::Output { index: 0, source: 3 });
    assert_eq!(net.output(0), 4);
}

#[test]
fn a_circuit_without_an_order_is_refused() {
    let mut parts = selector();
    parts.order = None;
    assert_eq!(error_of(&parts), ConstructionError::ForeignNode);
}

#[test]
fn an_order_that_is_no_permutation_is_refused() {
    let mut parts = selector();
    parts.order = Some(vec![4, 3, 2, 1]);
    assert_eq!(error_of(&parts), ConstructionError::ForeignNode);
    parts.order = Some(vec![4, 3, 2, 1, 1]);
    assert_eq!(error_of(&parts), ConstructionError::ForeignNode);
    parts.order = Some(vec![4, 3, 2, 1, 5]);
    assert_eq!(error_of(&parts), ConstructionError::ForeignNode);
}

#[test]
fn a_vacant_node_or_wire_is_refused() {
    let mut parts = selector();
    parts.gates[2] = None;
    assert_eq!(error_of(&parts), ConstructionError::ForeignNode);
    let mut parts = selector();
    parts.wires.push(None);
    assert_eq!(error_of(&parts), ConstructionError::ForeignNode);
}

#[test]
fn a_wire_that_leaves_the_circuit_is_refused() {
    let mut parts = selector();
    parts.wires[1] = wire(7, 1, MuxPin::Low);
    assert_eq!(error_of(&parts), ConstructionError::ForeignNode);
    let mut parts = selector();
    parts.wires.push(wire(1, 9, MuxPin::Low));
    assert_eq!(error_of(&parts), ConstructionError::ForeignNode);
}

#[test]
fn a_node_with_the_wrong_wires_is_refused() {
    // a multiplexer without its select line
    let mut parts = selector();
    parts.wires.pop();
    assert_eq!(error_of(&parts), ConstructionError::ArityMismatch);
    // two wires into one pin
    let mut parts = selector();
    parts.wires.push(wire(2, 1, MuxPin::Low));
    assert_eq!(error_of(&parts), ConstructionError::ArityMismatch);
    // a wire into a variable
    let mut parts = selector();
    parts.wires.push(wire(2, 4, MuxPin::Low));
    assert_eq!(error_of(&parts), ConstructionError::ArityMismatch);
    // an output without a source
    let mut parts = selector();
    parts.wires[0] = wire(1, 0, MuxPin::Low);
    assert_eq!(error_of(&parts), ConstructionError::ArityMismatch);
}

#[test]
fn an_order_against_a_wire_is_refused() {
    let mut parts = selector();
    parts.order = Some(vec![0, 1, 2, 3, 4]);
    assert_eq!(error_of(&parts), ConstructionError::ForeignNode);
    let mut parts = selector();
    parts.order = Some(vec![4, 3, 1, 2, 0]);
    assert_eq!(error_of(&parts), ConstructionError::ForeignNode);
}

#[test]
fn a_cycle_is_refused_whatever_the_order() {
    let parts = CircuitParts {
        gates: vec![Some(MuxGate::Mux), Some(MuxGate::Mux), Some(MuxGate::Variable(0))],
        wires: vec![
            wire(1, 0, MuxPin::Low),
            wire(1, 0, MuxPin::High),
            wire(2, 0, MuxPin::Select),
            wire(0, 1, MuxPin::Low),
            wire(0, 1, MuxPin::High),
            wire(2, 1, MuxPin::Select),
        ],
        order: Some(vec![2, 0, 1]),
    };
    assert_eq!(error_of(&parts), ConstructionError::ForeignNode);
}

#[test]
fn badly_numbered_variables_and_outputs_are_refused() {
    let mut parts = selector();
    parts.gates[4] = Some(MuxGate::Variable(1));
    assert_eq!(error_of(&parts), ConstructionError::ForeignNode);
    let mut parts = selector();
    parts.gates[0] = Some(MuxGate::Output(1));
    assert_eq!(error_of(&parts), ConstructionError::ForeignNode);
    // two outputs with one number
    let mut parts = selector();
    parts.gates.push(Some(MuxGate::Output(0)));
    parts.wires.push(wire(1, 5, MuxPin::Output));
    parts.order = Some(vec![4, 3, 2, 1, 0, 5]);
    assert_eq!(error_of(&parts), ConstructionError::ForeignNode);
}

fn count(parts: &CircuitParts, f: fn(&MuxGate) -> bool) -> usize {
    parts.gates.iter().filter(|g| g.as_ref().map_or(false, f)).count()
}

fn is_variable(g: &MuxGate) -> bool {
    matches!(g, MuxGate::Variable(_))
}

fn is_output(g: &MuxGate) -> bool {
    matches!(g, MuxGate::Output(_))
}

fn is_mux(g: &MuxGate) -> bool {
    matches!(g, MuxGate::Mux)
}

#[test]
fn a_comparator_is_read_as_it_was_built() {
    for n in [1usize, 2, 5] {
        let parts = signed_comparator_parts(n, true, false);
        assert_eq!(count(&parts, is_variable), 2 * n);
        assert_eq!(count(&parts, is_output), 1);
        assert!(count(&parts, is_mux) >= 1);
        // each multiplexer has three wires, the output one
        assert_eq!(parts.wires.len(), 3 * count(&parts, is_mux) + 1);
        assert!(parts.wires.iter().all(|w| w.is_some()));
        assert_eq!(parts.order.as_ref().unwrap().len(), parts.gates.len());
        let net = MuxNet::build(&parts).unwrap();
        assert_eq!(net.num_inputs(), 2 * n);
        assert_eq!(net.num_outputs(), 1);
        assert_eq!(net.len(), parts.gates.len());

        let parts = unsigned_comparator_parts(n, false, true);
        let net = MuxNet::build(&parts).unwrap();
        assert_eq!(net.num_inputs(), 2 * n);
        assert_eq!(net.num_outputs(), 1);
    }
}

#[test]
fn the_same_request_gives_the_same_circuit() {
    let a = signed_comparator_parts(4, false, true);
    let b = signed_comparator_parts(4, false, true);
    assert_eq!(a.gates, b.gates);
    assert_eq!(a.wires, b.wires);
    assert_eq!(a.order, b.order);
    let a = multiplier_parts(3, 2);
    let b = multiplier_parts(3, 2);
    assert_eq!(a.gates, b.gates);
    assert_eq!(a.wires, b.wires);
    assert_eq!(a.order, b.order);
}

#[test]
fn a_multiplier_has_an_output_for_each_bit_of_the_product() {
    for (n, m) in [(1usize, 1usize), (2, 3), (3, 2), (4, 4), (8, 8)] {
        let parts = multiplier_parts(n, m);
        let net = MuxNet::build(&parts).unwrap();
        assert_eq!(net.num_inputs(), n + m);
        assert_eq!(net.num_outputs(), n + m);
    }
}

#[test]
fn the_largest_ready_made_multiplier_is_a_network() {
    let parts = multiplier_parts(32, 32);
    let net = MuxNet::build(&parts).unwrap();
    assert_eq!(net.num_inputs(), 64);
    assert_eq!(net.num_outputs(), 64);
}

#[test]
fn multiplier_fits_knows_the_widths() {
    assert!(!multiplier_fits(0, 4));
    assert!(!multiplier_fits(4, 0));
    assert!(multiplier_fits(1, 1));
    assert!(multiplier_fits(8, 8));
    assert!(multiplier_fits(16, 16));
    assert!(multiplier_fits(32, 32));
    assert!(multiplier_fits(180, 181));
    assert!(multiplier_fits(181, 181)); // 2 * 181 * 181 = 65522
    assert!(!multiplier_fits(181, 182)); // 2 * 181 * 182 = 65884
    assert!(multiplier_fits(1, 32766));
    assert!(!multiplier_fits(1, 32767));
    assert!(!multiplier_fits(usize::MAX, usize::MAX));
}

#[test]
fn a_network_is_lowered_onto_its_operands() {
    let enc = Clear;
    let net = MuxNet::build(&selector()).unwrap();
    let mut g = FheCircuit::new();
    let a = g.add_input();
    let before = g.len();
    assert_eq!(
        insert_mux_circuit(&mut g, &net, &[]),
        Err(ConstructionError::ArityMismatch)
    );
    assert_eq!(
        insert_mux_circuit(&mut g, &net, &[NodeRef { index: 3 }]),
        Err(ConstructionError::ForeignNode)
    );
    assert_eq!(g.len(), before);
    let outs = insert_mux_circuit(&mut g, &net, &[a]).unwrap();
    assert_eq!(outs.len(), 1);
    // a constant each and the multiplexer
    assert_eq!(g.len(), before + 3);
    g.mark_output(outs[0]);
    for x in [false, true] {
        let got = run_graph_blocking(&g, &vec![vec![x]], &enc).unwrap();
        assert_eq!(got, vec![vec![x]]);
    }
}
