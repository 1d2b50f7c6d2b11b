//! Multiplexer networks: the circuits that `mux_circuits` synthesises for
//! comparison and multiplication, brought into a form that can be checked and
//! lowered into a circuit graph.
//!
//! `mux_circuits` hands out a `MuxCircuit`, a `petgraph` graph whose node
//! order says nothing about dependencies. It is read into plain parts
//! ([`CircuitParts`]), and the parts are checked and put in topological order
//! ([`MuxNet`]). Nothing is believed of a circuit's shape: a malformed one is
//! refused with a construction error.

use mux_circuits::comparisons::{compare_or_maybe_equal, compare_or_maybe_equal_signed};
use mux_circuits::mul::unsigned_multiplier;
use mux_circuits::{MuxCircuit, MuxEdgeInfo, MuxOp};
use petgraph::algo::toposort;
use petgraph::stable_graph::{EdgeIndex, NodeIndex};
use petgraph::visit::{EdgeIndexable, NodeIndexable};
use crate::graph::ConstructionError;
use vstd::prelude::*;

verus! {

/// A multiplexer circuit of `mux_circuits`. Nothing inside it is visible here.
#[verifier::external_type_specification]
#[verifier::external_body]
pub struct ExMuxCircuit(MuxCircuit);

/// The operation of one node of a multiplexer circuit.
#[derive(Clone, Copy, Debug, PartialEq, Eq, Structural)]
pub enum MuxGate {
    /// The constant 0.
    Zero,
    /// The constant 1.
    One,
    /// A multiplexer.
    Mux,
    /// The input with this number.
    Variable(u32),
    /// The output with this number.
    Output(u32),
}

/// The operand of its target that a wire feeds.
#[derive(Clone, Copy, Debug, PartialEq, Eq, Structural)]
pub enum MuxPin {
    /// What a multiplexer gives when its select line is 0.
    Low,
    /// What a multiplexer gives when its select line is 1.
    High,
    /// The select line of a multiplexer.
    Select,
    /// The source of an output.
    Output,
}

/// A wire from node `source` to node `target`.
#[derive(Clone, Copy, Debug, PartialEq, Eq, Structural)]
pub struct MuxWire {
    pub source: usize,
    pub target: usize,
    pub pin: MuxPin,
}

/// A multiplexer circuit as plain values: the node at each node index, the
/// wire at each edge index (`None` where the index is vacant), and the
/// topological order that `petgraph` proposes (`None` where it found a cycle).
pub struct CircuitParts {
    pub gates: Vec<Option<MuxGate>>,
    pub wires: Vec<Option<MuxWire>>,
    pub order: Option<Vec<usize>>,
}

/// The mathematical content of [`CircuitParts`].
pub struct PartsView {
    pub gates: Seq<Option<MuxGate>>,
    pub wires: Seq<Option<MuxWire>>,
    pub order: Option<Seq<usize>>,
}

impl View for CircuitParts {
    type V = PartsView;

    open spec fn view(&self) -> PartsView {
        PartsView {
            gates: self.gates@,
            wires: self.wires@,
            order: match self.order {
                Some(order) => Some(order@),
                None => None,
            },
        }
    }
}

/// The node at each node index of a circuit's graph.
pub uninterp spec fn circuit_gates(c: MuxCircuit) -> Seq<Option<MuxGate>>;

/// The wire at each edge index of a circuit's graph.
pub uninterp spec fn circuit_wires(c: MuxCircuit) -> Seq<Option<MuxWire>>;

/// The order in which `petgraph::algo::toposort` lists the nodes of a
/// circuit's graph.
pub uninterp spec fn circuit_order(c: MuxCircuit) -> Option<Seq<usize>>;

/// The parts of the circuit that `compare_or_maybe_equal_signed` builds.
pub uninterp spec fn signed_comparator(n: usize, greater: bool, or_equal: bool) -> PartsView;

/// The parts of the circuit that `compare_or_maybe_equal` builds.
pub uninterp spec fn unsigned_comparator(n: usize, greater: bool, or_equal: bool) -> PartsView;

/// The parts of the circuit that `unsigned_multiplier` builds.
pub uninterp spec fn multiplier(n: usize, m: usize) -> PartsView;

/// The parts of a circuit.
pub open spec fn parts_of(c: MuxCircuit) -> PartsView {
    PartsView { gates: circuit_gates(c), wires: circuit_wires(c), order: circuit_order(c) }
}

/// The widths for which `mux_circuits` builds a comparator: it numbers two
/// variables per bit with a `u16`, and its decision diagrams take fewer than
/// 65534 variables.
pub open spec fn comparator_width(n: usize) -> bool {
    1 <= n <= 32766
}

/// The widths for which `mux_circuits` has a multiplier: three sizes come
/// ready made, and any other is built over `2 * n * m` variables, which must
/// stay below 65534.
pub open spec fn multiplier_widths(n: usize, m: usize) -> bool {
    n >= 1 && m >= 1 && ((n == m && (n == 8 || n == 16 || n == 32)) || 2 * n * m < 65534)
}

/// Whether `mux_circuits` has a multiplier for operands of `n` and `m` bits.
pub fn multiplier_fits(n: usize, m: usize) -> (ok: bool)
    ensures
        ok == multiplier_widths(n, m),
{
    if n == 0 || m == 0 {
        return false;
    }
    if n == m && (n == 8 || n == 16 || n == 32) {
        return true;
    }
    if n > 32766 || m > 32766 {
        assert(2 * n * m >= 65534) by (nonlinear_arith)
            requires
                n >= 1,
                m >= 1,
                n > 32766 || m > 32766,
        ;
        return false;
    }
    assert(n * m <= 32766 * 32766) by (nonlinear_arith)
        requires
            n <= 32766,
            m <= 32766,
    ;
    assert(2 * n * m == 2 * (n * m)) by (nonlinear_arith);
    let product: u64 = (n as u64) * (m as u64);
    2 * product < 65534
}

/// Calls `mux_circuits::comparisons::compare_or_maybe_equal_signed`, which
/// panics outside [`comparator_width`]. The circuit depends on the arguments
/// alone; nothing else is claimed of it.
#[verifier::external_body]
fn signed_comparator_circuit(n: usize, greater: bool, or_equal: bool) -> (c: MuxCircuit)
    requires
        comparator_width(n),
    ensures
        parts_of(c) == signed_comparator(n, greater, or_equal),
{
    compare_or_maybe_equal_signed(n, greater, or_equal)
}

/// Calls `mux_circuits::comparisons::compare_or_maybe_equal`, which panics
/// outside [`comparator_width`]. The circuit depends on the arguments alone;
/// nothing else is claimed of it.
#[verifier::external_body]
fn unsigned_comparator_circuit(n: usize, greater: bool, or_equal: bool) -> (c: MuxCircuit)
    requires
        comparator_width(n),
    ensures
        parts_of(c) == unsigned_comparator(n, greater, or_equal),
{
    compare_or_maybe_equal(n, greater, or_equal)
}

/// Calls `mux_circuits::mul::unsigned_multiplier`, which panics outside
/// [`multiplier_widths`]. The circuit depends on the arguments alone; nothing
/// else is claimed of it.
#[verifier::external_body]
fn multiplier_circuit(n: usize, m: usize) -> (c: MuxCircuit)
    requires
        multiplier_widths(n, m),
    ensures
        parts_of(c) == multiplier(n, m),
{
    unsigned_multiplier(n, m)
}

/// Calls `NodeIndexable::node_bound` of `petgraph` on the circuit's graph: one
/// more than the highest node index in use.
#[verifier::external_body]
fn node_bound(c: &MuxCircuit) -> (n: usize)
    ensures
        n == circuit_gates(*c).len(),
{
    c.graph.node_bound()
}

/// Calls `StableGraph::node_weight` of `petgraph`: the node at index `i`, if
/// there is one.
#[verifier::external_body]
fn gate_at(c: &MuxCircuit, i: usize) -> (gate: Option<MuxGate>)
    requires
        i < circuit_gates(*c).len(),
    ensures
        gate == circuit_gates(*c)[i as int],
{
    c.graph.node_weight(NodeIndex::new(i)).map(
        |op| match op {
            MuxOp::Zero => MuxGate::Zero,
            MuxOp::One => MuxGate::One,
            MuxOp::Mux => MuxGate::Mux,
            MuxOp::Variable(v) => MuxGate::Variable(*v),
            MuxOp::Output(v) => MuxGate::Output(*v),
        },
    )
}

/// Calls `EdgeIndexable::edge_bound` of `petgraph` on the circuit's graph: one
/// more than the highest edge index in use.
#[verifier::external_body]
fn wire_bound(c: &MuxCircuit) -> (n: usize)
    ensures
        n == circuit_wires(*c).len(),
{
    c.graph.edge_bound()
}

/// Calls `StableGraph::edge_endpoints` and `StableGraph::edge_weight` of
/// `petgraph`: the wire at edge index `j`, if there is one.
#[verifier::external_body]
fn wire_at(c: &MuxCircuit, j: usize) -> (wire: Option<MuxWire>)
    requires
        j < circuit_wires(*c).len(),
    ensures
        wire == circuit_wires(*c)[j as int],
{
    let e = EdgeIndex::new(j);
    let (source, target) = c.graph.edge_endpoints(e)?;
    let pin = match c.graph.edge_weight(e)? {
        MuxEdgeInfo::Low => MuxPin::Low,
        MuxEdgeInfo::High => MuxPin::High,
        MuxEdgeInfo::Select => MuxPin::Select,
        MuxEdgeInfo::Output => MuxPin::Output,
    };
    Some(MuxWire { source: source.index(), target: target.index(), pin })
}

/// Calls `petgraph::algo::toposort` on the circuit's graph. `None` stands for
/// its error, a cycle. That the order is topological is not claimed: the
/// library checks it.
#[verifier::external_body]
fn sorted_nodes(c: &MuxCircuit) -> (order: Option<Vec<usize>>)
    ensures
        order is Some <==> circuit_order(*c) is Some,
        order matches Some(o) ==> o@ == circuit_order(*c)->Some_0,
{
    toposort(&c.graph, None).ok().map(|nodes| nodes.iter().map(|x| x.index()).collect())
}

/// Reads a circuit into plain parts.
fn read_parts(c: &MuxCircuit) -> (parts: CircuitParts)
    ensures
        parts@ == parts_of(*c),
{
    let mut gates: Vec<Option<MuxGate>> = Vec::new();
    let n = node_bound(c);
    let mut i: usize = 0;
    while i < n
        invariant
            n == circuit_gates(*c).len(),
            i <= n,
            gates@ == circuit_gates(*c).take(i as int),
        decreases n - i,
    {
        gates.push(gate_at(c, i));
        i += 1;
        assert(gates@ =~= circuit_gates(*c).take(i as int));
    }
    assert(gates@ =~= circuit_gates(*c));
    let mut wires: Vec<Option<MuxWire>> = Vec::new();
    let m = wire_bound(c);
    let mut j: usize = 0;
    while j < m
        invariant
            m == circuit_wires(*c).len(),
            j <= m,
            wires@ == circuit_wires(*c).take(j as int),
        decreases m - j,
    {
        wires.push(wire_at(c, j));
        j += 1;
        assert(wires@ =~= circuit_wires(*c).take(j as int));
    }
    assert(wires@ =~= circuit_wires(*c));
    let order = sorted_nodes(c);
    CircuitParts { gates, wires, order }
}

/// The parts of the comparator of two signed `n`-bit integers.
pub fn signed_comparator_parts(n: usize, greater: bool, or_equal: bool) -> (parts: CircuitParts)
    requires
        comparator_width(n),
    ensures
        parts@ == signed_comparator(n, greater, or_equal),
{
    let c = signed_comparator_circuit(n, greater, or_equal);
    read_parts(&c)
}

/// The parts of the comparator of two unsigned `n`-bit integers.
pub fn unsigned_comparator_parts(n: usize, greater: bool, or_equal: bool) -> (parts: CircuitParts)
    requires
        comparator_width(n),
    ensures
        parts@ == unsigned_comparator(n, greater, or_equal),
{
    let c = unsigned_comparator_circuit(n, greater, or_equal);
    read_parts(&c)
}

/// The parts of the multiplier of an unsigned `n`-bit by an unsigned `m`-bit
/// integer.
pub fn multiplier_parts(n: usize, m: usize) -> (parts: CircuitParts)
    requires
        multiplier_widths(n, m),
    ensures
        parts@ == multiplier(n, m),
{
    let c = multiplier_circuit(n, m);
    read_parts(&c)
}

/// Whether `t` occurs in `order`.
pub open spec fn occurs(order: Seq<usize>, t: int) -> bool {
    exists|k: int| 0 <= k < order.len() && #[trigger] order[k] == t
}

/// Whether `order` lists each of the numbers below `n` once.
pub open spec fn is_permutation(order: Seq<usize>, n: nat) -> bool {
    &&& order.len() == n
    &&& forall|k: int| 0 <= k < order.len() ==> #[trigger] order[k] < n
    &&& forall|k1: int, k2: int|
        0 <= k1 < k2 < order.len() ==> #[trigger] order[k1] != #[trigger] order[k2]
    &&& forall|t: int| 0 <= t < n ==> #[trigger] occurs(order, t)
}

/// The place of node `t` in `order`.
pub open spec fn position(order: Seq<usize>, t: usize) -> usize {
    choose|k: usize| k < order.len() && order[k as int] == t
}

/// The number of wires into pin `pin` of node `t`.
pub open spec fn wire_count(wires: Seq<Option<MuxWire>>, t: int, pin: MuxPin) -> nat
    decreases wires.len(),
{
    if wires.len() == 0 {
        0
    } else {
        wire_count(wires.drop_last(), t, pin) + match wires.last() {
            Some(w) => if w.target == t && w.pin == pin {
                1nat
            } else {
                0nat
            },
            None => 0nat,
        }
    }
}

/// The source of the last wire into pin `pin` of node `t`: of the only one,
/// where there is one.
pub open spec fn wire_source(wires: Seq<Option<MuxWire>>, t: int, pin: MuxPin) -> usize
    decreases wires.len(),
{
    if wires.len() == 0 {
        0
    } else {
        match wires.last() {
            Some(w) => if w.target == t && w.pin == pin {
                w.source
            } else {
                wire_source(wires.drop_last(), t, pin)
            },
            None => wire_source(wires.drop_last(), t, pin),
        }
    }
}

/// Whether node `t` gets the wires that its operation takes: a multiplexer one
/// into each of low, high and select, an output one into its source, a
/// constant or a variable none.
pub open spec fn fed(gate: MuxGate, wires: Seq<Option<MuxWire>>, t: int) -> bool {
    let lows = wire_count(wires, t, MuxPin::Low);
    let highs = wire_count(wires, t, MuxPin::High);
    let selects = wire_count(wires, t, MuxPin::Select);
    let outputs = wire_count(wires, t, MuxPin::Output);
    match gate {
        MuxGate::Mux => lows == 1 && highs == 1 && selects == 1 && outputs == 0,
        MuxGate::Output(_) => lows == 0 && highs == 0 && selects == 0 && outputs == 1,
        _ => lows == 0 && highs == 0 && selects == 0 && outputs == 0,
    }
}

/// The first thing asked of a circuit: the proposed order lists every node
/// once, no node index and no edge index is vacant, and every wire joins two
/// nodes of the circuit.
pub open spec fn references_ok(parts: PartsView) -> bool {
    &&& parts.order matches Some(order) && is_permutation(order, parts.gates.len())
    &&& forall|t: int| 0 <= t < parts.gates.len() ==> #[trigger] parts.gates[t] is Some
    &&& forall|j: int|
        0 <= j < parts.wires.len() ==> match #[trigger] parts.wires[j] {
            Some(w) => w.source < parts.gates.len() && w.target < parts.gates.len(),
            None => false,
        }
}

/// The second: every node gets the wires that its operation takes.
pub open spec fn arities_ok(parts: PartsView) -> bool {
    forall|t: int|
        0 <= t < parts.gates.len() ==> fed((#[trigger] parts.gates[t])->Some_0, parts.wires, t)
}

/// One node of a multiplexer network. An operand is the position of an
/// earlier node of the network.
#[derive(Clone, Copy, Debug, PartialEq, Eq, Structural)]
pub enum MuxNode {
    /// The constant 0.
    Zero,
    /// The constant 1.
    One,
    /// The input with this number.
    Variable(u32),
    /// `high` where `select` is 1, else `low`.
    Mux { select: usize, low: usize, high: usize },
    /// The output with number `index`, which hands on `source`.
    Output { index: u32, source: usize },
}

/// The node that stands at place `k` once the circuit is laid out in its
/// order, with each wire replaced by the place of its source.
pub open spec fn normal_node(parts: PartsView, k: int) -> MuxNode {
    let order = parts.order->Some_0;
    let t = order[k] as int;
    match parts.gates[t]->Some_0 {
        MuxGate::Zero => MuxNode::Zero,
        MuxGate::One => MuxNode::One,
        MuxGate::Variable(v) => MuxNode::Variable(v),
        MuxGate::Mux => MuxNode::Mux {
            select: position(order, wire_source(parts.wires, t, MuxPin::Select)),
            low: position(order, wire_source(parts.wires, t, MuxPin::Low)),
            high: position(order, wire_source(parts.wires, t, MuxPin::High)),
        },
        MuxGate::Output(index) => MuxNode::Output {
            index,
            source: position(order, wire_source(parts.wires, t, MuxPin::Output)),
        },
    }
}

/// The circuit laid out in its order.
pub open spec fn normal_nodes(parts: PartsView) -> Seq<MuxNode> {
    Seq::new(parts.gates.len(), |k: int| normal_node(parts, k))
}

/// Whether a node at place `k` reads earlier places only.
pub open spec fn backward(node: MuxNode, k: int) -> bool {
    match node {
        MuxNode::Mux { select, low, high } => select < k && low < k && high < k,
        MuxNode::Output { source, .. } => source < k,
        _ => true,
    }
}

/// The number of variables among `nodes`.
pub open spec fn variable_count(nodes: Seq<MuxNode>) -> nat
    decreases nodes.len(),
{
    if nodes.len() == 0 {
        0
    } else {
        variable_count(nodes.drop_last()) + if nodes.last() is Variable {
            1nat
        } else {
            0nat
        }
    }
}

/// The number of outputs among `nodes`.
pub open spec fn output_count(nodes: Seq<MuxNode>) -> nat
    decreases nodes.len(),
{
    if nodes.len() == 0 {
        0
    } else {
        output_count(nodes.drop_last()) + if nodes.last() is Output {
            1nat
        } else {
            0nat
        }
    }
}

/// Whether some node is the output with number `i`.
pub open spec fn has_output(nodes: Seq<MuxNode>, i: int) -> bool {
    exists|k: int| 0 <= k < nodes.len() && (#[trigger] nodes[k] matches MuxNode::Output { index, .. }
        && index == i)
}

/// Whether the variables and outputs are numbered as `mux_circuits` asks: a
/// variable's number is below the number of variables, and the outputs carry
/// the numbers below their count, each once.
pub open spec fn numbering_ok(nodes: Seq<MuxNode>) -> bool {
    &&& forall|k: int|
        0 <= k < nodes.len() ==> (#[trigger] nodes[k] matches MuxNode::Variable(v) ==> v
            < variable_count(nodes))
    &&& forall|k: int|
        0 <= k < nodes.len() ==> (#[trigger] nodes[k] matches MuxNode::Output { index, .. }
            ==> index < output_count(nodes))
    &&& forall|k1: int, k2: int|
        0 <= k1 < k2 < nodes.len() ==> (#[trigger] nodes[k1] matches MuxNode::Output {
            index: i1,
            ..
        } ==> (#[trigger] nodes[k2] matches MuxNode::Output { index: i2, .. } ==> i1 != i2))
    &&& forall|i: int| 0 <= i < output_count(nodes) ==> #[trigger] has_output(nodes, i)
}

/// The third thing asked of a circuit: in the proposed order every wire runs
/// forward, and variables and outputs are numbered as they should be.
pub open spec fn wiring_ok(parts: PartsView) -> bool {
    &&& forall|k: int|
        0 <= k < parts.gates.len() ==> backward(#[trigger] normal_node(parts, k), k)
    &&& numbering_ok(normal_nodes(parts))
}

/// The value of the node at place `p` of a network on the given inputs.
pub open spec fn net_value(nodes: Seq<MuxNode>, inputs: Seq<bool>, p: int) -> bool
    decreases p,
{
    if 0 <= p < nodes.len() {
        match nodes[p] {
            MuxNode::Zero => false,
            MuxNode::One => true,
            MuxNode::Variable(v) => v < inputs.len() && inputs[v as int],
            MuxNode::Mux { select, low, high } => if select < p && low < p && high < p {
                if net_value(nodes, inputs, select as int) {
                    net_value(nodes, inputs, high as int)
                } else {
                    net_value(nodes, inputs, low as int)
                }
            } else {
                false
            },
            MuxNode::Output { source, .. } => source < p && net_value(nodes, inputs, source as int),
        }
    } else {
        false
    }
}

/// The place of the output with number `i`.
pub open spec fn output_place(nodes: Seq<MuxNode>, i: int) -> int {
    choose|k: int|
        0 <= k < nodes.len() && (#[trigger] nodes[k] matches MuxNode::Output { index, .. } && index
            == i)
}

/// What laid-out nodes compute: the value of each output, by its number.
pub open spec fn nodes_eval(nodes: Seq<MuxNode>, inputs: Seq<bool>) -> Seq<bool> {
    Seq::new(output_count(nodes), |i: int| net_value(nodes, inputs, output_place(nodes, i)))
}

/// A multiplexer network: a checked circuit in topological order.
pub struct MuxNet {
    nodes: Vec<MuxNode>,
    inputs: usize,
    outputs: Vec<usize>,
}

impl MuxNet {
    /// The nodes, each after the nodes that it reads.
    pub closed spec fn nodes(&self) -> Seq<MuxNode> {
        self.nodes@
    }

    /// The number of inputs.
    pub closed spec fn inputs(&self) -> nat {
        self.inputs as nat
    }

    /// The place of each output, by its number.
    pub closed spec fn outputs(&self) -> Seq<usize> {
        self.outputs@
    }

    /// The invariant of a network: every node reads earlier nodes, every
    /// variable names an input, and the output with number `i` stands at
    /// `outputs()[i]`.
    pub open spec fn wf(&self) -> bool {
        &&& self.inputs() == variable_count(self.nodes())
        &&& self.outputs().len() == output_count(self.nodes())
        &&& forall|k: int|
            0 <= k < self.nodes().len() ==> backward(#[trigger] self.nodes()[k], k)
        &&& forall|k: int|
            0 <= k < self.nodes().len() ==> (#[trigger] self.nodes()[k] matches MuxNode::Variable(
                v,
            ) ==> v < self.inputs())
        &&& forall|k: int|
            0 <= k < self.nodes().len() ==> (#[trigger] self.nodes()[k] matches MuxNode::Output {
                index,
                ..
            } ==> index < self.outputs().len() && self.outputs()[index as int] == k)
        &&& forall|i: int|
            0 <= i < self.outputs().len() ==> #[trigger] self.outputs()[i] < self.nodes().len()
                && (self.nodes()[self.outputs()[i] as int] matches MuxNode::Output { index, .. }
                && index == i)
    }

    /// What the network computes: the value of each output, by its number.
    pub open spec fn eval(&self, inputs: Seq<bool>) -> Seq<bool> {
        nodes_eval(self.nodes(), inputs)
    }

    /// The output with number `i` stands where the table says.
    pub proof fn lemma_output_place(&self, i: int)
        requires
            self.wf(),
            0 <= i < self.outputs().len(),
        ensures
            output_place(self.nodes(), i) == self.outputs()[i],
    {
        let k = self.outputs()[i] as int;
        assert(self.nodes()[k] matches MuxNode::Output { index, .. } && index == i);
        let chosen = output_place(self.nodes(), i);
        assert(0 <= chosen < self.nodes().len() && (self.nodes()[chosen] matches MuxNode::Output {
            index,
            ..
        } && index == i));
    }

    /// The number of inputs.
    pub fn num_inputs(&self) -> (n: usize)
        ensures
            n == self.inputs(),
    {
        self.inputs
    }

    /// The number of outputs.
    pub fn num_outputs(&self) -> (n: usize)
        ensures
            n == self.outputs().len(),
    {
        self.outputs.len()
    }

    /// The number of nodes.
    pub fn len(&self) -> (n: usize)
        ensures
            n == self.nodes().len(),
    {
        self.nodes.len()
    }

    /// The node at place `k`.
    pub fn node(&self, k: usize) -> (node: MuxNode)
        requires
            k < self.nodes().len(),
        ensures
            node == self.nodes()[k as int],
    {
        self.nodes[k]
    }

    /// The place of the output with number `i`.
    pub fn output(&self, i: usize) -> (k: usize)
        requires
            i < self.outputs().len(),
        ensures
            k == self.outputs()[i as int],
    {
        self.outputs[i]
    }
}

/// What [`MuxNet::build`] owes for `parts`: the three things are asked in
/// turn, the first that fails names the error, and a circuit that passes
/// becomes the network that holds it laid out in its order.
pub open spec fn builds(parts: PartsView, r: Result<MuxNet, ConstructionError>) -> bool {
    if !references_ok(parts) {
        r is Err && r->Err_0 == ConstructionError::ForeignNode
    } else if !arities_ok(parts) {
        r is Err && r->Err_0 == ConstructionError::ArityMismatch
    } else if !wiring_ok(parts) {
        r is Err && r->Err_0 == ConstructionError::ForeignNode
    } else {
        r matches Ok(net) && net.wf() && net.nodes() == normal_nodes(parts)
    }
}

/// Why a circuit cannot serve where `inputs` operand bits are at hand and
/// `outputs` result bits are wanted: whatever keeps it from becoming a
/// network, or else a number of variables or of outputs that differs. `None`
/// where it can serve.
pub open spec fn circuit_outcome(parts: PartsView, inputs: nat, outputs: nat) -> Option<
    ConstructionError,
> {
    if !references_ok(parts) {
        Some(ConstructionError::ForeignNode)
    } else if !arities_ok(parts) {
        Some(ConstructionError::ArityMismatch)
    } else if !wiring_ok(parts) {
        Some(ConstructionError::ForeignNode)
    } else if variable_count(normal_nodes(parts)) != inputs || output_count(normal_nodes(parts))
        != outputs {
        Some(ConstructionError::ArityMismatch)
    } else {
        None
    }
}

/// The wires that come into one node: for each pin their number, and the
/// source of the last of them.
#[derive(Clone, Copy)]
struct Incoming {
    lows: usize,
    low: usize,
    highs: usize,
    high: usize,
    selects: usize,
    select: usize,
    outputs: usize,
    output: usize,
}

spec fn tallied(inc: Incoming, wires: Seq<Option<MuxWire>>, t: int) -> bool {
    &&& inc.lows == wire_count(wires, t, MuxPin::Low)
    &&& inc.low == wire_source(wires, t, MuxPin::Low)
    &&& inc.highs == wire_count(wires, t, MuxPin::High)
    &&& inc.high == wire_source(wires, t, MuxPin::High)
    &&& inc.selects == wire_count(wires, t, MuxPin::Select)
    &&& inc.select == wire_source(wires, t, MuxPin::Select)
    &&& inc.outputs == wire_count(wires, t, MuxPin::Output)
    &&& inc.output == wire_source(wires, t, MuxPin::Output)
}

spec fn placed(parts: PartsView, pos: Seq<usize>) -> bool {
    &&& pos.len() == parts.gates.len()
    &&& forall|t: int|
        0 <= t < pos.len() ==> #[trigger] pos[t] == position(parts.order->Some_0, t as usize)
            && pos[t] < pos.len() && parts.order->Some_0[pos[t] as int] == t
}

proof fn lemma_count_bound(wires: Seq<Option<MuxWire>>, t: int, pin: MuxPin)
    ensures
        wire_count(wires, t, pin) <= wires.len(),
    decreases wires.len(),
{
    if wires.len() > 0 {
        lemma_count_bound(wires.drop_last(), t, pin);
    }
}

proof fn lemma_source_bound(wires: Seq<Option<MuxWire>>, t: int, pin: MuxPin, n: nat)
    requires
        n > 0,
        forall|j: int|
            0 <= j < wires.len() ==> (#[trigger] wires[j] matches Some(w) ==> w.source < n),
    ensures
        wire_source(wires, t, pin) < n,
    decreases wires.len(),
{
    if wires.len() > 0 {
        assert forall|j: int| 0 <= j < wires.drop_last().len() implies (
        #[trigger] wires.drop_last()[j] matches Some(w) ==> w.source < n) by {
            assert(wires.drop_last()[j] == wires[j]);
        }
        lemma_source_bound(wires.drop_last(), t, pin, n);
        assert(wires.last() == wires[wires.len() - 1]);
    }
}

/// Asks the first thing of a circuit, and gives the place of each node in the
/// proposed order.
fn check_references(parts: &CircuitParts) -> (r: Option<Vec<usize>>)
    ensures
        r is Some <==> references_ok(parts@),
        r matches Some(pos) ==> placed(parts@, pos@),
{
    let n = parts.gates.len();
    let order = match &parts.order {
        None => {
            return None;
        },
        Some(order) => order,
    };
    if order.len() != n {
        return None;
    }
    let mut pos: Vec<usize> = Vec::new();
    let mut i: usize = 0;
    while i < n
        invariant
            i <= n,
            pos@.len() == i,
            forall|a: int| 0 <= a < i ==> #[trigger] pos@[a] == n,
        decreases n - i,
    {
        pos.push(n);
        i += 1;
    }
    let mut k: usize = 0;
    while k < n
        invariant
            parts@.order == Some(order@),
            n == parts@.gates.len(),
            order@.len() == n,
            pos@.len() == n,
            k <= n,
            forall|a: int|
                0 <= a < k ==> #[trigger] order@[a] < n && pos@[order@[a] as int] == a,
            forall|t: int|
                0 <= t < n ==> #[trigger] pos@[t] == n || (pos@[t] < k && order@[pos@[t] as int]
                    == t),
        decreases n - k,
    {
        let t = order[k];
        if t >= n {
            return None;
        }
        if pos[t] != n {
            assert(order@[pos@[t as int] as int] == order@[k as int]);
            return None;
        }
        pos.set(t, k);
        k += 1;
    }
    let mut t: usize = 0;
    while t < n
        invariant
            parts@.order == Some(order@),
            n == parts@.gates.len(),
            order@.len() == n,
            pos@.len() == n,
            t <= n,
            forall|a: int|
                0 <= a < n ==> #[trigger] order@[a] < n && pos@[order@[a] as int] == a,
            forall|b: int|
                0 <= b < n ==> #[trigger] pos@[b] == n || (pos@[b] < n && order@[pos@[b] as int]
                    == b),
            forall|b: int| 0 <= b < t ==> #[trigger] pos@[b] < n,
        decreases n - t,
    {
        if pos[t] == n {
            proof {
                if occurs(order@, t as int) {
                    let a = choose|a: int| 0 <= a < order@.len() && #[trigger] order@[a] == t;
                    assert(pos@[order@[a] as int] == a);
                }
            }
            return None;
        }
        t += 1;
    }
    proof {
        assert forall|b: int| 0 <= b < n implies #[trigger] occurs(order@, b) by {
            assert(order@[pos@[b] as int] == b);
        }
        assert forall|k1: int, k2: int| 0 <= k1 < k2 < order@.len() implies #[trigger] order@[k1]
            != #[trigger] order@[k2] by {
            assert(pos@[order@[k1] as int] == k1);
            assert(pos@[order@[k2] as int] == k2);
        }
        assert(is_permutation(order@, n as nat));
        assert forall|b: int| 0 <= b < n implies #[trigger] pos@[b] == position(order@, b as usize) by {
            let chosen = position(order@, b as usize);
            assert(pos@[b] < order@.len() && order@[pos@[b] as int] == b as usize);
            assert(chosen < order@.len() && order@[chosen as int] == b as usize);
            assert(pos@[order@[chosen as int] as int] == chosen);
        }
    }
    let mut g: usize = 0;
    while g < n
        invariant
            n == parts@.gates.len(),
            g <= n,
            forall|b: int| 0 <= b < g ==> #[trigger] parts@.gates[b] is Some,
        decreases n - g,
    {
        if parts.gates[g].is_none() {
            return None;
        }
        g += 1;
    }
    let mut j: usize = 0;
    while j < parts.wires.len()
        invariant
            n == parts@.gates.len(),
            j <= parts@.wires.len(),
            forall|b: int|
                0 <= b < j ==> match #[trigger] parts@.wires[b] {
                    Some(w) => w.source < n && w.target < n,
                    None => false,
                },
        decreases parts@.wires.len() - j,
    {
        match parts.wires[j] {
            None => {
                return None;
            },
            Some(w) => {
                if w.source >= n || w.target >= n {
                    return None;
                }
            },
        }
        j += 1;
    }
    Some(pos)
}

/// Counts the wires into each pin of each node.
fn tally(parts: &CircuitParts) -> (table: Vec<Incoming>)
    requires
        references_ok(parts@),
    ensures
        table@.len() == parts@.gates.len(),
        forall|t: int| 0 <= t < table@.len() ==> tallied(#[trigger] table@[t], parts@.wires, t),
{
    let n = parts.gates.len();
    let mut table: Vec<Incoming> = Vec::new();
    let mut i: usize = 0;
    while i < n
        invariant
            i <= n,
            table@.len() == i,
            forall|t: int|
                0 <= t < i ==> tallied(#[trigger] table@[t], Seq::<Option<MuxWire>>::empty(), t),
        decreases n - i,
    {
        table.push(
            Incoming {
                lows: 0,
                low: 0,
                highs: 0,
                high: 0,
                selects: 0,
                select: 0,
                outputs: 0,
                output: 0,
            },
        );
        i += 1;
    }
    let mut j: usize = 0;
    assert(parts@.wires.take(0) =~= Seq::<Option<MuxWire>>::empty());
    while j < parts.wires.len()
        invariant
            references_ok(parts@),
            n == parts@.gates.len(),
            table@.len() == n,
            j <= parts@.wires.len(),
            forall|t: int|
                0 <= t < n ==> tallied(#[trigger] table@[t], parts@.wires.take(j as int), t),
        decreases parts@.wires.len() - j,
    {
        let ghost seen = parts@.wires.take(j as int);
        let ghost more = parts@.wires.take(j + 1);
        let ghost before = table@;
        proof {
            assert(more.drop_last() =~= seen);
            assert(more.last() == parts@.wires[j as int]);
            assert(parts@.wires[j as int] is Some);
        }
        match parts.wires[j] {
            None => {},
            Some(w) => {
                let inc = table[w.target];
                proof {
                    assert(tallied(before[w.target as int], seen, w.target as int));
                    lemma_count_bound(seen, w.target as int, MuxPin::Low);
                    lemma_count_bound(seen, w.target as int, MuxPin::High);
                    lemma_count_bound(seen, w.target as int, MuxPin::Select);
                    lemma_count_bound(seen, w.target as int, MuxPin::Output);
                }
                let next = match w.pin {
                    MuxPin::Low => Incoming { lows: inc.lows + 1, low: w.source, ..inc },
                    MuxPin::High => Incoming { highs: inc.highs + 1, high: w.source, ..inc },
                    MuxPin::Select => Incoming {
                        selects: inc.selects + 1,
                        select: w.source,
                        ..inc
                    },
                    MuxPin::Output => Incoming {
                        outputs: inc.outputs + 1,
                        output: w.source,
                        ..inc
                    },
                };
                table.set(w.target, next);
            },
        }
        proof {
            assert forall|t: int| 0 <= t < n implies tallied(#[trigger] table@[t], more, t) by {
                assert(tallied(before[t], seen, t));
            }
        }
        j += 1;
    }
    assert(parts@.wires.take(parts@.wires.len() as int) =~= parts@.wires);
    table
}

/// Asks the second thing of a circuit.
fn check_arities(parts: &CircuitParts, table: &Vec<Incoming>) -> (ok: bool)
    requires
        references_ok(parts@),
        table@.len() == parts@.gates.len(),
        forall|t: int| 0 <= t < table@.len() ==> tallied(#[trigger] table@[t], parts@.wires, t),
    ensures
        ok == arities_ok(parts@),
{
    let n = parts.gates.len();
    let mut t: usize = 0;
    while t < n
        invariant
            references_ok(parts@),
            n == parts@.gates.len(),
            table@.len() == n,
            forall|a: int| 0 <= a < n ==> tallied(#[trigger] table@[a], parts@.wires, a),
            t <= n,
            forall|a: int|
                0 <= a < t ==> fed((#[trigger] parts@.gates[a])->Some_0, parts@.wires, a),
        decreases n - t,
    {
        let inc = table[t];
        assert(tallied(table@[t as int], parts@.wires, t as int));
        assert(parts@.gates[t as int] is Some);
        let fits = match parts.gates[t] {
            Some(MuxGate::Mux) => inc.lows == 1 && inc.highs == 1 && inc.selects == 1
                && inc.outputs == 0,
            Some(MuxGate::Output(_)) => inc.lows == 0 && inc.highs == 0 && inc.selects == 0
                && inc.outputs == 1,
            _ => inc.lows == 0 && inc.highs == 0 && inc.selects == 0 && inc.outputs == 0,
        };
        if !fits {
            assert(!fed(parts@.gates[t as int]->Some_0, parts@.wires, t as int));
            return false;
        }
        t += 1;
    }
    true
}

/// Lays the circuit out in its order, and asks whether every wire runs
/// forward.
fn arrange(parts: &CircuitParts, pos: &Vec<usize>, table: &Vec<Incoming>) -> (r: Option<
    Vec<MuxNode>,
>)
    requires
        references_ok(parts@),
        placed(parts@, pos@),
        table@.len() == parts@.gates.len(),
        forall|t: int| 0 <= t < table@.len() ==> tallied(#[trigger] table@[t], parts@.wires, t),
    ensures
        r is Some <==> (forall|k: int|
            0 <= k < parts@.gates.len() ==> backward(#[trigger] normal_node(parts@, k), k)),
        r matches Some(nodes) ==> nodes@ == normal_nodes(parts@),
{
    let n = parts.gates.len();
    let order = match &parts.order {
        None => {
            return None;
        },
        Some(order) => order,
    };
    let mut nodes: Vec<MuxNode> = Vec::new();
    let mut k: usize = 0;
    while k < n
        invariant
            references_ok(parts@),
            placed(parts@, pos@),
            parts@.order == Some(order@),
            n == parts@.gates.len(),
            table@.len() == n,
            forall|t: int| 0 <= t < n ==> tallied(#[trigger] table@[t], parts@.wires, t),
            k <= n,
            nodes@.len() == k,
            forall|a: int| 0 <= a < k ==> #[trigger] nodes@[a] == normal_node(parts@, a),
            forall|a: int| 0 <= a < k ==> backward(#[trigger] normal_node(parts@, a), a),
        decreases n - k,
    {
        let t = order[k];
        let inc = table[t];
        proof {
            assert(order@[k as int] < n);
            assert(tallied(table@[t as int], parts@.wires, t as int));
            assert(parts@.gates[t as int] is Some);
            assert forall|j: int| 0 <= j < parts@.wires.len() implies (
            #[trigger] parts@.wires[j] matches Some(w) ==> w.source < n) by {}
            lemma_source_bound(parts@.wires, t as int, MuxPin::Low, n as nat);
            lemma_source_bound(parts@.wires, t as int, MuxPin::High, n as nat);
            lemma_source_bound(parts@.wires, t as int, MuxPin::Select, n as nat);
            lemma_source_bound(parts@.wires, t as int, MuxPin::Output, n as nat);
            assert(pos@[inc.low as int] == position(order@, inc.low));
            assert(pos@[inc.high as int] == position(order@, inc.high));
            assert(pos@[inc.select as int] == position(order@, inc.select));
            assert(pos@[inc.output as int] == position(order@, inc.output));
        }
        let node = match parts.gates[t] {
            Some(MuxGate::Zero) => MuxNode::Zero,
            Some(MuxGate::One) => MuxNode::One,
            Some(MuxGate::Variable(v)) => MuxNode::Variable(v),
            Some(MuxGate::Mux) => MuxNode::Mux {
                select: pos[inc.select],
                low: pos[inc.low],
                high: pos[inc.high],
            },
            Some(MuxGate::Output(index)) => MuxNode::Output { index, source: pos[inc.output] },
            None => MuxNode::Zero,
        };
        assert(node == normal_node(parts@, k as int));
        let forward = match node {
            MuxNode::Mux { select, low, high } => select < k && low < k && high < k,
            MuxNode::Output { source, .. } => source < k,
            _ => true,
        };
        if !forward {
            assert(!backward(normal_node(parts@, k as int), k as int));
            return None;
        }
        nodes.push(node);
        k += 1;
    }
    assert(nodes@ =~= normal_nodes(parts@));
    Some(nodes)
}

proof fn lemma_counts_push(nodes: Seq<MuxNode>, node: MuxNode)
    ensures
        variable_count(nodes.push(node)) == variable_count(nodes) + if node is Variable {
            1nat
        } else {
            0nat
        },
        output_count(nodes.push(node)) == output_count(nodes) + if node is Output {
            1nat
        } else {
            0nat
        },
        variable_count(nodes) <= nodes.len(),
        output_count(nodes) <= nodes.len(),
    decreases nodes.len(),
{
    assert(nodes.push(node).drop_last() =~= nodes);
    if nodes.len() > 0 {
        assert(nodes.drop_last().push(nodes.last()) =~= nodes);
        lemma_counts_push(nodes.drop_last(), nodes.last());
    }
}

/// Asks whether variables and outputs are numbered as they should be, and
/// gives the number of inputs and the place of each output.
fn number(nodes: &Vec<MuxNode>) -> (r: Option<(usize, Vec<usize>)>)
    ensures
        r is Some <==> numbering_ok(nodes@),
        r matches Some((inputs, outputs)) ==> inputs == variable_count(nodes@) && outputs@.len()
            == output_count(nodes@) && (forall|k: int|
            0 <= k < nodes@.len() ==> (#[trigger] nodes@[k] matches MuxNode::Output { index, .. }
                ==> index < outputs@.len() && outputs@[index as int] == k)) && (forall|i: int|
            0 <= i < outputs@.len() ==> #[trigger] outputs@[i] < nodes@.len()
                && (nodes@[outputs@[i] as int] matches MuxNode::Output { index, .. } && index
                == i)),
{
    let n = nodes.len();
    let mut inputs: usize = 0;
    let mut m: usize = 0;
    let mut k: usize = 0;
    assert(nodes@.take(0) =~= Seq::<MuxNode>::empty());
    while k < n
        invariant
            n == nodes@.len(),
            k <= n,
            inputs == variable_count(nodes@.take(k as int)),
            m == output_count(nodes@.take(k as int)),
            inputs <= k,
            m <= k,
        decreases n - k,
    {
        proof {
            assert(nodes@.take(k + 1) =~= nodes@.take(k as int).push(nodes@[k as int]));
            lemma_counts_push(nodes@.take(k as int), nodes@[k as int]);
        }
        match nodes[k] {
            MuxNode::Variable(_) => {
                inputs += 1;
            },
            MuxNode::Output { .. } => {
                m += 1;
            },
            _ => {},
        }
        k += 1;
    }
    assert(nodes@.take(n as int) =~= nodes@);
    k = 0;
    while k < n
        invariant
            n == nodes@.len(),
            k <= n,
            inputs == variable_count(nodes@),
            forall|a: int|
                0 <= a < k ==> (#[trigger] nodes@[a] matches MuxNode::Variable(v) ==> v < inputs),
        decreases n - k,
    {
        match nodes[k] {
            MuxNode::Variable(v) => {
                if v as usize >= inputs {
                    return None;
                }
            },
            _ => {},
        }
        k += 1;
    }
    let mut outputs: Vec<usize> = Vec::new();
    let mut i: usize = 0;
    while i < m
        invariant
            i <= m,
            outputs@.len() == i,
            forall|a: int| 0 <= a < i ==> #[trigger] outputs@[a] == n,
        decreases m - i,
    {
        outputs.push(n);
        i += 1;
    }
    k = 0;
    while k < n
        invariant
            n == nodes@.len(),
            m == output_count(nodes@),
            outputs@.len() == m,
            k <= n,
            forall|a: int|
                0 <= a < k ==> (#[trigger] nodes@[a] matches MuxNode::Output { index, .. }
                    ==> index < m && outputs@[index as int] == a),
            forall|b: int|
                0 <= b < m ==> #[trigger] outputs@[b] == n || (outputs@[b] < k
                    && (nodes@[outputs@[b] as int] matches MuxNode::Output { index, .. } && index
                    == b)),
        decreases n - k,
    {
        match nodes[k] {
            MuxNode::Output { index, .. } => {
                if index as usize >= m {
                    return None;
                }
                if outputs[index as usize] != n {
                    proof {
                        let first = outputs@[index as int] as int;
                        assert(nodes@[first] is Output);
                        assert(nodes@[k as int] is Output);
                    }
                    return None;
                }
                outputs.set(index as usize, k);
            },
            _ => {},
        }
        k += 1;
    }
    i = 0;
    while i < m
        invariant
            n == nodes@.len(),
            m == output_count(nodes@),
            outputs@.len() == m,
            i <= m,
            forall|a: int|
                0 <= a < n ==> (#[trigger] nodes@[a] matches MuxNode::Output { index, .. }
                    ==> index < m && outputs@[index as int] == a),
            forall|b: int|
                0 <= b < m ==> #[trigger] outputs@[b] == n || (outputs@[b] < n
                    && (nodes@[outputs@[b] as int] matches MuxNode::Output { index, .. } && index
                    == b)),
            forall|b: int| 0 <= b < i ==> #[trigger] outputs@[b] < n,
        decreases m - i,
    {
        if outputs[i] == n {
            proof {
                if has_output(nodes@, i as int) {
                    let a = choose|a: int|
                        0 <= a < nodes@.len() && (#[trigger] nodes@[a] matches MuxNode::Output {
                            index,
                            ..
                        } && index == i);
                    assert(outputs@[i as int] == a);
                }
            }
            return None;
        }
        i += 1;
    }
    proof {
        assert forall|b: int| 0 <= b < m implies #[trigger] has_output(nodes@, b) by {
            let a = outputs@[b] as int;
            assert(nodes@[a] matches MuxNode::Output { index, .. } && index == b);
        }
    }
    Some((inputs, outputs))
}

impl MuxNet {
    /// Checks a circuit and lays it out as a network.
    pub fn build(parts: &CircuitParts) -> (r: Result<MuxNet, ConstructionError>)
        ensures
            builds(parts@, r),
    {
        let pos = match check_references(parts) {
            None => {
                return Err(ConstructionError::ForeignNode);
            },
            Some(pos) => pos,
        };
        let table = tally(parts);
        if !check_arities(parts, &table) {
            return Err(ConstructionError::ArityMismatch);
        }
        let nodes = match arrange(parts, &pos, &table) {
            None => {
                return Err(ConstructionError::ForeignNode);
            },
            Some(nodes) => nodes,
        };
        match number(&nodes) {
            None => Err(ConstructionError::ForeignNode),
            Some((inputs, outputs)) => {
                let net = MuxNet { nodes, inputs, outputs };
                assert forall|k: int| 0 <= k < net.nodes().len() implies backward(
                    #[trigger] net.nodes()[k],
                    k,
                ) by {
                    assert(net.nodes()[k] == normal_node(parts@, k));
                }
                Ok(net)
            },
        }
    }
}

} // verus!
