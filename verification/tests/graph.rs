use parasol_runtime::backend::{Backend, Clear, Leveled, LeveledBits};
use parasol_runtime::engine::{run_graph_blocking, RunError, Scheduler, Stage};
use parasol_runtime::graph::{ConstructionError, FheCircuit, GateOp, Node, NodeRef};

fn bit(b: bool) -> Vec<bool> {
    vec![b]
}

fn low(ct: &Vec<bool>) -> bool {
    !ct.is_empty() && ct[0]
}

#[test]
fn nodes_are_numbered_in_insertion_order() {
    let mut g = FheCircuit::new();
    assert_eq!(g.len(), 0);
    let a = g.add_input();
    let b = g.add_input();
    let c = g.add_gate(GateOp::And, &[a, b]).unwrap();
    let k = g.mark_output(c);
    assert_eq!((a.index, b.index, c.index), (0, 1, 2));
    assert_eq!(k, 0);
    assert_eq!(g.len(), 4);
    assert_eq!(g.num_inputs(), 2);
    assert_eq!(g.num_outputs(), 1);
    assert_eq!(g.output(0), NodeRef { index: 3 });
    assert!(g.contains(c));
    assert!(!g.contains(NodeRef { index: 4 }));
    assert!(matches!(g.node(0), Node::Input(0)));
    assert!(matches!(g.node(1), Node::Input(1)));
    assert!(matches!(g.node(3), Node::Output(NodeRef { index: 2 })));
}

#[test]
fn a_gate_with_the_wrong_number_of_operands_is_refused() {
    let mut g = FheCircuit::new();
    let a = g.add_input();
    assert_eq!(g.add_gate(GateOp::And, &[a]), Err(ConstructionError::ArityMismatch));
    assert_eq!(g.add_gate(GateOp::Not, &[a, a]), Err(ConstructionError::ArityMismatch));
    assert_eq!(g.add_gate(GateOp::Zero, &[a]), Err(ConstructionError::ArityMismatch));
    assert_eq!(g.add_gate(GateOp::Mux, &[a, a]), Err(ConstructionError::ArityMismatch));
    assert_eq!(g.add_gate(GateOp::Extract(0), &[]), Err(ConstructionError::ArityMismatch));
    assert_eq!(g.len(), 1);
}

#[test]
fn a_gate_on_a_foreign_node_is_refused() {
    let mut g = FheCircuit::new();
    let a = g.add_input();
    let foreign = NodeRef { index: 1 };
    assert_eq!(g.add_gate(GateOp::And, &[a, foreign]), Err(ConstructionError::ForeignNode));
    assert_eq!(g.add_gate(GateOp::Pack, &[foreign]), Err(ConstructionError::ForeignNode));
    // the arity is looked at first
    assert_eq!(g.add_gate(GateOp::Not, &[foreign, foreign]), Err(ConstructionError::ArityMismatch));
    assert_eq!(g.len(), 1);
}

#[test]
fn every_gate_computes_what_it_says() {
    let enc = Clear;
    for x in [false, true] {
        for y in [false, true] {
            for z in [false, true] {
                let mut g = FheCircuit::new();
                let a = g.add_input();
                let b = g.add_input();
                let c = g.add_input();
                let gates = vec![
                    g.add_gate(GateOp::Zero, &[]).unwrap(),
                    g.add_gate(GateOp::One, &[]).unwrap(),
                    g.add_gate(GateOp::Not, &[a]).unwrap(),
                    g.add_gate(GateOp::And, &[a, b]).unwrap(),
                    g.add_gate(GateOp::Or, &[a, b]).unwrap(),
                    g.add_gate(GateOp::Xor, &[a, b]).unwrap(),
                    g.add_gate(GateOp::Mux, &[a, b, c]).unwrap(),
                ];
                for r in gates {
                    g.mark_output(r);
                }
                let outs = run_graph_blocking(&g, &vec![bit(x), bit(y), bit(z)], &enc).unwrap();
                let got: Vec<bool> = outs.iter().map(low).collect();
                assert_eq!(
                    got,
                    vec![false, true, !x, x && y, x || y, x != y, if x { z } else { y }]
                );
            }
        }
    }
}

#[test]
fn pack_and_extract_are_inverse() {
    let enc = Clear;
    let mut g = FheCircuit::new();
    let a = g.add_input();
    let b = g.add_input();
    let c = g.add_input();
    let word = g.add_gate(GateOp::Pack, &[a, b, c]).unwrap();
    g.mark_output(word);
    for k in 0..4 {
        let r = g.add_gate(GateOp::Extract(k), &[word]).unwrap();
        g.mark_output(r);
    }
    let outs = run_graph_blocking(&g, &vec![bit(true), bit(false), bit(true)], &enc).unwrap();
    assert_eq!(enc.decrypt(&outs[0], 3), vec![true, false, true]);
    let got: Vec<bool> = outs[1..].iter().map(low).collect();
    assert_eq!(got, vec![true, false, true, false]);
}

#[test]
fn an_output_that_names_no_node_is_rejected_before_evaluation() {
    let enc = Clear;
    let mut g = FheCircuit::new();
    let a = g.add_input();
    g.mark_output(a);
    g.mark_output(NodeRef { index: 17 });
    assert!(!g.check_outputs());
    assert_eq!(
        run_graph_blocking(&g, &vec![bit(true)], &enc),
        Err(RunError::Construction(ConstructionError::ForeignNode))
    );
}

#[test]
fn an_output_that_names_itself_is_rejected() {
    let enc = Clear;
    let mut g = FheCircuit::new();
    g.mark_output(NodeRef { index: 0 });
    assert_eq!(
        run_graph_blocking(&g, &vec![], &enc),
        Err(RunError::Construction(ConstructionError::ForeignNode))
    );
}

#[test]
fn the_inputs_must_fill_the_slots() {
    let enc = Clear;
    let mut g = FheCircuit::new();
    let a = g.add_input();
    g.mark_output(a);
    assert!(g.check_outputs());
    assert_eq!(
        run_graph_blocking(&g, &vec![], &enc),
        Err(RunError::Construction(ConstructionError::ArityMismatch))
    );
    assert_eq!(
        run_graph_blocking(&g, &vec![bit(true), bit(true)], &enc),
        Err(RunError::Construction(ConstructionError::ArityMismatch))
    );
    assert_eq!(run_graph_blocking(&g, &vec![bit(true)], &enc), Ok(vec![bit(true)]));
}

#[test]
fn an_empty_graph_evaluates_to_nothing() {
    let g = FheCircuit::new();
    assert_eq!(run_graph_blocking(&g, &vec![], &Clear), Ok(vec![]));
}

#[test]
fn evaluation_is_deterministic_and_a_graph_can_be_run_again() {
    let enc = Clear;
    let mut g = FheCircuit::new();
    let a = g.add_input();
    let b = g.add_input();
    let x = g.add_gate(GateOp::Xor, &[a, b]).unwrap();
    let y = g.add_gate(GateOp::And, &[a, x]).unwrap();
    g.mark_output(x);
    g.mark_output(y);
    let inputs = vec![bit(true), bit(false)];
    let first = run_graph_blocking(&g, &inputs, &enc).unwrap();
    let second = run_graph_blocking(&g, &inputs, &enc).unwrap();
    assert_eq!(first, second);
    assert_eq!(first, vec![bit(true), bit(true)]);
    let other = run_graph_blocking(&g, &vec![bit(true), bit(true)], &enc).unwrap();
    assert_eq!(other, vec![bit(false), bit(false)]);
}

#[test]
fn the_scheduler_hands_out_a_node_after_what_it_reads() {
    let mut g = FheCircuit::new();
    let a = g.add_input();
    let b = g.add_input();
    let x = g.add_gate(GateOp::And, &[a, b]).unwrap();
    let y = g.add_gate(GateOp::Not, &[x]).unwrap();
    g.mark_output(y);
    let mut s = Scheduler::new(&g);
    assert_eq!(s.stage(0), Stage::Ready);
    assert_eq!(s.stage(1), Stage::Ready);
    assert_eq!(s.stage(2), Stage::Waiting);
    assert_eq!(s.stage(3), Stage::Waiting);
    assert_eq!(s.stage(4), Stage::Waiting);
    let first = s.next().unwrap();
    let second = s.next().unwrap();
    assert_eq!(s.next(), None);
    let mut both = vec![first, second];
    both.sort();
    assert_eq!(both, vec![0, 1]);
    assert_eq!(s.stage(first), Stage::Running);
    s.complete(first);
    assert_eq!(s.stage(first), Stage::Done);
    assert_eq!(s.stage(2), Stage::Waiting);
    assert_eq!(s.next(), None);
    s.complete(second);
    assert_eq!(s.stage(2), Stage::Ready);
    assert_eq!(s.next(), Some(2));
    s.complete(2);
    assert_eq!(s.next(), Some(3));
    s.complete(3);
    assert!(!s.finished());
    assert_eq!(s.next(), Some(4));
    s.complete(4);
    assert!(s.finished());
    assert_eq!(s.next(), None);
}

#[test]
fn the_scheduler_hands_out_each_node_once() {
    let mut g = FheCircuit::new();
    let a = g.add_input();
    let x = g.add_gate(GateOp::And, &[a, a]).unwrap();
    let y = g.add_gate(GateOp::Or, &[a, x]).unwrap();
    let z = g.add_gate(GateOp::Mux, &[x, y, a]).unwrap();
    g.mark_output(z);
    g.mark_output(z);
    let mut s = Scheduler::new(&g);
    let mut seen = vec![0usize; g.len()];
    while let Some(k) = s.next() {
        seen[k] += 1;
        s.complete(k);
    }
    assert!(s.finished());
    assert_eq!(seen, vec![1; g.len()]);
}

#[test]
fn a_failing_gate_ends_the_evaluation() {
    let enc = Leveled { depth: 1 };
    let mut g = FheCircuit::new();
    let a = g.add_input();
    let x = g.add_gate(GateOp::Not, &[a]).unwrap();
    g.mark_output(x);
    let inputs = vec![enc.encrypt(&vec![true])];
    let outs = run_graph_blocking(&g, &inputs, &enc).unwrap();
    assert_eq!(outs, vec![LeveledBits { bits: vec![false], level: 1 }]);
    let y = g.add_gate(GateOp::And, &[a, x]).unwrap();
    g.mark_output(y);
    assert_eq!(
        run_graph_blocking(&g, &inputs, &enc),
        Err(RunError::EvaluationFailed)
    );
    let deeper = Leveled { depth: 2 };
    let outs = run_graph_blocking(&g, &inputs, &deeper).unwrap();
    assert_eq!(deeper.decrypt(&outs[1], 1), vec![false]);
}
