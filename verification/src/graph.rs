//! The circuit graph: an append-only arena of inputs, gates and outputs.
//!
//! A node is named by the position at which it was inserted, and a gate may
//! only name nodes that are already there. Insertion order is therefore a
//! topological order, and the graph has no cycle by construction.

use crate::bits;
use vstd::prelude::*;

verus! {

/// The name of a node: its position in the graph that issued it.
#[derive(Clone, Copy, Debug, PartialEq, Eq, Hash, Structural)]
pub struct NodeRef {
    pub index: usize,
}

/// The elementary operations on ciphertexts.
///
/// A ciphertext stands for a natural number. A bit is the number 0 or 1; a
/// packed ciphertext holds one bit per binary digit. Gates on bits read the
/// lowest digit of each operand.
#[derive(Clone, Copy, Debug, PartialEq, Eq, Structural)]
pub enum GateOp {
    /// The constant bit 0. No operand.
    Zero,
    /// The constant bit 1. No operand.
    One,
    /// Negation of one bit.
    Not,
    /// Conjunction of two bits.
    And,
    /// Disjunction of two bits.
    Or,
    /// Exclusive or of two bits.
    Xor,
    /// A multiplexer. Operands: select, low, high. Gives low when select is
    /// 0 and high when it is 1.
    Mux,
    /// Folds any number of bits into one packed ciphertext, first operand lowest.
    Pack,
    /// Bit `k` of a packed ciphertext.
    Extract(usize),
}

/// One node of a circuit graph.
#[derive(Debug)]
pub enum Node {
    /// The ciphertext bound to an input slot.
    Input(usize),
    /// A gate and the nodes it reads, in order.
    Gate(GateOp, Vec<NodeRef>),
    /// A designated output, which hands on the value of its source.
    Output(NodeRef),
}

/// Why a graph, or a request to extend one, is refused.
#[derive(Clone, Copy, Debug, PartialEq, Eq, Structural)]
pub enum ConstructionError {
    /// A reference names no node that it may name: a node of another graph,
    /// or one that does not exist.
    ForeignNode,
    /// An operation was given a number of operands that it does not take.
    ArityMismatch,
}

/// Whether `op` takes `n` operands.
pub open spec fn arity_ok(op: GateOp, n: nat) -> bool {
    match op {
        GateOp::Zero | GateOp::One => n == 0,
        GateOp::Not | GateOp::Extract(_) => n == 1,
        GateOp::And | GateOp::Or | GateOp::Xor => n == 2,
        GateOp::Mux => n == 3,
        GateOp::Pack => true,
    }
}

/// The bit that a value carries in its lowest digit.
pub open spec fn low_bit(v: nat) -> bool {
    v % 2 == 1
}

/// A bit as a number.
pub open spec fn unit(b: bool) -> nat {
    if b {
        1
    } else {
        0
    }
}

/// The lowest digit of each value.
pub open spec fn low_bits(values: Seq<nat>) -> Seq<bool> {
    Seq::new(values.len(), |j: int| low_bit(values[j]))
}

/// What `op` computes from the values of its operands.
pub open spec fn gate_value(op: GateOp, args: Seq<nat>) -> nat
    recommends
        arity_ok(op, args.len()),
{
    match op {
        GateOp::Zero => 0,
        GateOp::One => 1,
        GateOp::Not => unit(!low_bit(args[0])),
        GateOp::And => unit(low_bit(args[0]) && low_bit(args[1])),
        GateOp::Or => unit(low_bit(args[0]) || low_bit(args[1])),
        GateOp::Xor => unit(low_bit(args[0]) != low_bit(args[1])),
        GateOp::Mux => unit(
            if low_bit(args[0]) {
                low_bit(args[2])
            } else {
                low_bit(args[1])
            },
        ),
        GateOp::Pack => bits::bits_value(low_bits(args)),
        GateOp::Extract(k) => unit(bits::bit_at(args[0], k as nat)),
    }
}

/// The value of node `i` when input slot `s` is bound to `inputs[s]`.
///
/// A reference that does not point backwards reads as 0, so that the value is
/// defined for every graph; a well-formed graph holds no such reference in a
/// gate.
pub open spec fn node_value(nodes: Seq<Node>, inputs: Seq<nat>, i: int) -> nat
    decreases i, 1nat, 0nat,
{
    if 0 <= i < nodes.len() {
        match nodes[i] {
            Node::Input(slot) => if slot < inputs.len() {
                inputs[slot as int]
            } else {
                0
            },
            Node::Gate(op, args) => gate_value(op, operand_values(nodes, inputs, i, args@)),
            Node::Output(source) => if source.index < i {
                node_value(nodes, inputs, source.index as int)
            } else {
                0
            },
        }
    } else {
        0
    }
}

/// The values that a gate at position `bound` reads through `args`.
pub open spec fn operand_values(
    nodes: Seq<Node>,
    inputs: Seq<nat>,
    bound: int,
    args: Seq<NodeRef>,
) -> Seq<nat>
    decreases bound, 0nat, args.len(),
{
    if args.len() == 0 {
        Seq::empty()
    } else {
        operand_values(nodes, inputs, bound, args.drop_last()).push(
            if args.last().index < bound {
                node_value(nodes, inputs, args.last().index as int)
            } else {
                0
            },
        )
    }
}

/// The values of the nodes that `refs` name.
pub open spec fn refs_values(nodes: Seq<Node>, inputs: Seq<nat>, refs: Seq<NodeRef>) -> Seq<nat> {
    Seq::new(refs.len(), |j: int| node_value(nodes, inputs, refs[j].index as int))
}

/// Whether every reference names a node before position `bound`.
pub open spec fn refs_below(refs: Seq<NodeRef>, bound: int) -> bool {
    forall|j: int| 0 <= j < refs.len() ==> (#[trigger] refs[j]).index < bound
}

/// Whether a node may stand at position `p`: a gate has the operands that its
/// operation takes, and each of them was inserted before it.
pub open spec fn node_ok(node: Node, p: int) -> bool {
    match node {
        Node::Gate(op, args) => arity_ok(op, args@.len()) && refs_below(args@, p),
        _ => true,
    }
}

/// Whether every gate reads only earlier nodes, with the right arity.
pub open spec fn gates_ok(nodes: Seq<Node>) -> bool {
    forall|p: int| 0 <= p < nodes.len() ==> node_ok(#[trigger] nodes[p], p)
}

/// Whether every output names a node that was there when it was marked.
pub open spec fn outputs_ok(nodes: Seq<Node>) -> bool {
    forall|p: int|
        0 <= p < nodes.len() ==> (#[trigger] nodes[p] matches Node::Output(source)
            ==> source.index < p)
}

/// The operands of a gate, one by one.
pub proof fn lemma_operand_values(
    nodes: Seq<Node>,
    inputs: Seq<nat>,
    bound: int,
    args: Seq<NodeRef>,
)
    ensures
        operand_values(nodes, inputs, bound, args).len() == args.len(),
        forall|j: int|
            0 <= j < args.len() ==> #[trigger] operand_values(nodes, inputs, bound, args)[j] == (
            if args[j].index < bound {
                node_value(nodes, inputs, args[j].index as int)
            } else {
                0
            }),
    decreases args.len(),
{
    if args.len() > 0 {
        lemma_operand_values(nodes, inputs, bound, args.drop_last());
    }
}

/// Extending a graph does not change the value of a node that was there.
pub proof fn lemma_value_stable(a: Seq<Node>, b: Seq<Node>, inputs: Seq<nat>, i: int)
    requires
        a.is_prefix_of(b),
    ensures
        0 <= i < a.len() ==> node_value(a, inputs, i) == node_value(b, inputs, i),
    decreases i,
{
    if 0 <= i < a.len() {
        assert(a[i] == b[i]);
        match a[i] {
            Node::Input(slot) => {},
            Node::Gate(op, args) => {
                let va = operand_values(a, inputs, i, args@);
                let vb = operand_values(b, inputs, i, args@);
                lemma_operand_values(a, inputs, i, args@);
                lemma_operand_values(b, inputs, i, args@);
                assert forall|j: int| 0 <= j < args@.len() implies va[j] == vb[j] by {
                    if args@[j].index < i {
                        lemma_value_stable(a, b, inputs, args@[j].index as int);
                    }
                }
                assert(va =~= vb);
            },
            Node::Output(source) => {
                if source.index < i {
                    lemma_value_stable(a, b, inputs, source.index as int);
                }
            },
        }
    }
}

/// The value of a gate whose operands all precede it is its operation applied
/// to their values.
pub proof fn lemma_gate_value(nodes: Seq<Node>, inputs: Seq<nat>, i: int)
    requires
        0 <= i < nodes.len(),
        nodes[i] is Gate,
        refs_below(nodes[i]->Gate_1@, i),
    ensures
        node_value(nodes, inputs, i) == gate_value(
            nodes[i]->Gate_0,
            refs_values(nodes, inputs, nodes[i]->Gate_1@),
        ),
{
    match nodes[i] {
        Node::Gate(op, args) => {
            lemma_operand_values(nodes, inputs, i, args@);
            assert(operand_values(nodes, inputs, i, args@) =~= refs_values(nodes, inputs, args@));
        },
        _ => {},
    }
}

/// A circuit graph.
pub struct FheCircuit {
    nodes: Vec<Node>,
    slots: usize,
    outputs: Vec<NodeRef>,
}

impl FheCircuit {
    /// The nodes, in insertion order.
    pub closed spec fn nodes(&self) -> Seq<Node> {
        self.nodes@
    }

    /// The number of input slots.
    pub closed spec fn slots(&self) -> nat {
        self.slots as nat
    }

    /// The output nodes, in the order in which they were marked.
    pub closed spec fn outputs(&self) -> Seq<NodeRef> {
        self.outputs@
    }

    /// The invariant of a graph: gates read earlier nodes with the right
    /// arity, every input names a slot of the graph, and the output list names
    /// output nodes.
    pub open spec fn wf(&self) -> bool {
        &&& gates_ok(self.nodes())
        &&& forall|p: int|
            0 <= p < self.nodes().len() ==> (#[trigger] self.nodes()[p] matches Node::Input(slot)
                ==> slot < self.slots())
        &&& forall|k: int|
            0 <= k < self.outputs().len() ==> (#[trigger] self.outputs()[k]).index
                < self.nodes().len() && self.nodes()[self.outputs()[k].index as int] is Output
    }

    /// Whether `other` is this graph after more insertions.
    pub open spec fn grows_to(&self, other: &FheCircuit) -> bool {
        &&& self.nodes().is_prefix_of(other.nodes())
        &&& self.outputs().is_prefix_of(other.outputs())
        &&& self.slots() <= other.slots()
    }

    /// Whether `other` is this graph after gates were added: the graph grew,
    /// and its input slots and outputs are the same.
    pub open spec fn adds_gates_to(&self, other: &FheCircuit) -> bool {
        &&& self.grows_to(other)
        &&& self.slots() == other.slots()
        &&& self.outputs() == other.outputs()
    }

    /// The value of the node that `r` names.
    pub open spec fn value(&self, inputs: Seq<nat>, r: NodeRef) -> nat {
        node_value(self.nodes(), inputs, r.index as int)
    }

    /// The lowest digit of the value of the node that `r` names.
    pub open spec fn bit(&self, inputs: Seq<nat>, r: NodeRef) -> bool {
        low_bit(self.value(inputs, r))
    }

    /// An empty graph.
    pub fn new() -> (g: FheCircuit)
        ensures
            g.wf(),
            g.nodes().len() == 0,
            g.slots() == 0,
            g.outputs().len() == 0,
    {
        FheCircuit { nodes: Vec::new(), slots: 0, outputs: Vec::new() }
    }

    /// The number of nodes.
    pub fn len(&self) -> (n: usize)
        ensures
            n == self.nodes().len(),
    {
        self.nodes.len()
    }

    /// The number of input slots.
    pub fn num_inputs(&self) -> (n: usize)
        ensures
            n == self.slots(),
    {
        self.slots
    }

    /// The number of outputs.
    pub fn num_outputs(&self) -> (n: usize)
        ensures
            n == self.outputs().len(),
    {
        self.outputs.len()
    }

    /// The node that holds output `k`.
    pub fn output(&self, k: usize) -> (r: NodeRef)
        requires
            k < self.outputs().len(),
        ensures
            r == self.outputs()[k as int],
    {
        self.outputs[k]
    }

    /// Whether `r` names a node of this graph.
    pub fn contains(&self, r: NodeRef) -> (b: bool)
        ensures
            b == (r.index < self.nodes().len()),
    {
        r.index < self.nodes.len()
    }

    /// The node at position `i`.
    pub fn node(&self, i: usize) -> (node: &Node)
        requires
            i < self.nodes().len(),
        ensures
            *node == self.nodes()[i as int],
    {
        &self.nodes[i]
    }

    /// Whether every output names a node that was there when it was marked.
    pub fn check_outputs(&self) -> (ok: bool)
        ensures
            ok == outputs_ok(self.nodes()),
    {
        let mut p: usize = 0;
        while p < self.nodes.len()
            invariant
                p <= self.nodes@.len(),
                forall|q: int|
                    0 <= q < p ==> (#[trigger] self.nodes@[q] matches Node::Output(source)
                        ==> source.index < q),
            decreases self.nodes@.len() - p,
        {
            match &self.nodes[p] {
                Node::Output(source) => {
                    if source.index >= p {
                        return false;
                    }
                },
                _ => {},
            }
            p += 1;
        }
        true
    }

    /// Adds an input slot and the node that reads it.
    pub fn add_input(&mut self) -> (r: NodeRef)
        requires
            old(self).wf(),
            old(self).slots() < usize::MAX,
        ensures
            final(self).wf(),
            r.index == old(self).nodes().len(),
            final(self).nodes().len() == old(self).nodes().len() + 1,
            old(self).nodes().is_prefix_of(final(self).nodes()),
            final(self).nodes().last() matches Node::Input(slot) && slot == old(self).slots(),
            final(self).slots() == old(self).slots() + 1,
            final(self).outputs() == old(self).outputs(),
    {
        let r = NodeRef { index: self.nodes.len() };
        self.nodes.push(Node::Input(self.slots));
        self.slots = self.slots + 1;
        r
    }

    /// Adds a gate that applies `op` to the nodes in `inputs`.
    ///
    /// The request is refused, and the graph left as it was, when `op` does
    /// not take that many operands or when a reference names no node of this
    /// graph. The arity is looked at first.
    pub fn add_gate(&mut self, op: GateOp, inputs: &[NodeRef]) -> (r: Result<
        NodeRef,
        ConstructionError,
    >)
        requires
            old(self).wf(),
        ensures
            final(self).wf(),
            final(self).slots() == old(self).slots(),
            final(self).outputs() == old(self).outputs(),
            !arity_ok(op, inputs@.len()) ==> r == Err::<NodeRef, ConstructionError>(
                ConstructionError::ArityMismatch,
            ),
            arity_ok(op, inputs@.len()) && !refs_below(inputs@, old(self).nodes().len() as int)
                ==> r == Err::<NodeRef, ConstructionError>(ConstructionError::ForeignNode),
            arity_ok(op, inputs@.len()) && refs_below(inputs@, old(self).nodes().len() as int)
                ==> (r matches Ok(x) && x.index == old(self).nodes().len()),
            r is Err ==> final(self).nodes() == old(self).nodes(),
            r is Ok ==> final(self).nodes().len() == old(self).nodes().len() + 1 && old(
                self,
            ).nodes().is_prefix_of(final(self).nodes()),
            r is Ok ==> (final(self).nodes().last() matches Node::Gate(o, a) && o == op && a@
                == inputs@),
            r matches Ok(x) ==> old(self).adds_gates_to(final(self)) && forall|ins: Seq<nat>| #[trigger]
                final(self).value(ins, x) == gate_value(
                    op,
                    refs_values(old(self).nodes(), ins, inputs@),
                ),
    {
        let arity_fits = match op {
            GateOp::Zero | GateOp::One => inputs.len() == 0,
            GateOp::Not | GateOp::Extract(_) => inputs.len() == 1,
            GateOp::And | GateOp::Or | GateOp::Xor => inputs.len() == 2,
            GateOp::Mux => inputs.len() == 3,
            GateOp::Pack => true,
        };
        if !arity_fits {
            return Err(ConstructionError::ArityMismatch);
        }
        let bound = self.nodes.len();
        let mut args: Vec<NodeRef> = Vec::new();
        let mut j: usize = 0;
        while j < inputs.len()
            invariant
                *self == *old(self),
                self.wf(),
                bound == self.nodes().len(),
                arity_ok(op, inputs@.len()),
                j <= inputs@.len(),
                args@ == inputs@.take(j as int),
                refs_below(args@, bound as int),
            decreases inputs@.len() - j,
        {
            let r = inputs[j];
            if r.index >= bound {
                return Err(ConstructionError::ForeignNode);
            }
            args.push(r);
            j += 1;
            assert(args@ =~= inputs@.take(j as int));
        }
        assert(args@ =~= inputs@);
        Ok(self.append(op, args))
    }

    /// Adds a gate that applies `op` to the nodes in `args`, which are known
    /// to fit: the same as [`FheCircuit::add_gate`] where that cannot fail.
    pub fn append(&mut self, op: GateOp, args: Vec<NodeRef>) -> (r: NodeRef)
        requires
            old(self).wf(),
            arity_ok(op, args@.len()),
            refs_below(args@, old(self).nodes().len() as int),
        ensures
            final(self).wf(),
            old(self).adds_gates_to(final(self)),
            r.index == old(self).nodes().len(),
            final(self).nodes() == old(self).nodes().push(Node::Gate(op, args)),
            final(self).slots() == old(self).slots(),
            final(self).outputs() == old(self).outputs(),
            forall|ins: Seq<nat>| #[trigger]
                final(self).value(ins, r) == gate_value(
                    op,
                    refs_values(old(self).nodes(), ins, args@),
                ),
    {
        let ghost before = self.nodes@;
        let r = NodeRef { index: self.nodes.len() };
        self.nodes.push(Node::Gate(op, args));
        proof {
            let after = self.nodes@;
            assert(before.is_prefix_of(after));
            assert forall|ins: Seq<nat>| #[trigger]
                node_value(after, ins, r.index as int) == gate_value(
                    op,
                    refs_values(before, ins, args@),
                ) by {
                lemma_gate_value(after, ins, r.index as int);
                assert forall|j: int| 0 <= j < args@.len() implies refs_values(after, ins, args@)[j]
                    == refs_values(before, ins, args@)[j] by {
                    lemma_value_stable(before, after, ins, args@[j].index as int);
                }
                assert(refs_values(after, ins, args@) =~= refs_values(before, ins, args@));
            }
        }
        r
    }

    /// Designates `source` as the next output and returns the output's number.
    ///
    /// Any reference is taken. One that names no node of the graph is found
    /// when the graph is submitted for evaluation.
    pub fn mark_output(&mut self, source: NodeRef) -> (k: usize)
        requires
            old(self).wf(),
        ensures
            final(self).wf(),
            k == old(self).outputs().len(),
            final(self).nodes() == old(self).nodes().push(Node::Output(source)),
            final(self).outputs().len() == k + 1,
            old(self).outputs().is_prefix_of(final(self).outputs()),
            final(self).outputs()[k as int].index == old(self).nodes().len(),
            final(self).slots() == old(self).slots(),
    {
        let k = self.outputs.len();
        let r = NodeRef { index: self.nodes.len() };
        self.nodes.push(Node::Output(source));
        self.outputs.push(r);
        k
    }
}

/// A graph grows to itself.
pub proof fn lemma_grows_refl(a: &FheCircuit)
    ensures
        a.grows_to(a),
{
}

/// Growth goes on: what grew from `a` to `b` and from `b` to `c` grew from `a`
/// to `c`.
pub proof fn lemma_grows_trans(a: &FheCircuit, b: &FheCircuit, c: &FheCircuit)
    requires
        a.grows_to(b),
        b.grows_to(c),
    ensures
        a.grows_to(c),
{
    assert(a.nodes() =~= c.nodes().subrange(0, a.nodes().len() as int)) by {
        assert forall|i: int| 0 <= i < a.nodes().len() implies a.nodes()[i] == c.nodes()[i] by {
            assert(a.nodes()[i] == b.nodes()[i]);
            assert(b.nodes()[i] == c.nodes()[i]);
        }
    }
    assert(a.outputs() =~= c.outputs().subrange(0, a.outputs().len() as int)) by {
        assert forall|i: int| 0 <= i < a.outputs().len() implies a.outputs()[i] == c.outputs()[i] by {
            assert(a.outputs()[i] == b.outputs()[i]);
            assert(b.outputs()[i] == c.outputs()[i]);
        }
    }
}

/// A node keeps its value while the graph grows.
pub proof fn lemma_grows_keeps(a: &FheCircuit, b: &FheCircuit, ins: Seq<nat>, r: NodeRef)
    requires
        a.grows_to(b),
        r.index < a.nodes().len(),
    ensures
        b.value(ins, r) == a.value(ins, r),
        b.bit(ins, r) == a.bit(ins, r),
{
    lemma_value_stable(a.nodes(), b.nodes(), ins, r.index as int);
}

} // verus!
