//! Word-level operations as graph fragments.
//!
//! An integer in the graph is a vector of node references, one per bit, least
//! significant first. Each function here appends the gates of one operation
//! and says what the new nodes stand for, for every binding of the inputs.
//! Nothing is evaluated.

use crate::bits::{
    bits_of, bits_value, lemma_value_bound, lemma_value_push, repeat_bit, weight,
};
use crate::graph::{
    gate_value, lemma_grows_keeps, lemma_grows_refl, lemma_grows_trans, low_bits, refs_below,
    refs_values, ConstructionError, FheCircuit, GateOp, NodeRef,
};
use crate::mux::{
    builds, circuit_outcome, net_value, nodes_eval, normal_nodes, CircuitParts, MuxNet, MuxNode,
};
use crate::sign::{resize_plan, Sign};
use vstd::arithmetic::div_mod::*;
use vstd::arithmetic::power2::*;
use vstd::prelude::*;

verus! {

/// The bits that the nodes `refs` carry.
pub open spec fn bits_at(g: &FheCircuit, ins: Seq<nat>, refs: Seq<NodeRef>) -> Seq<bool> {
    Seq::new(refs.len(), |j: int| g.bit(ins, refs[j]))
}

/// The number that the nodes `refs` spell, least significant bit first.
pub open spec fn number_at(g: &FheCircuit, ins: Seq<nat>, refs: Seq<NodeRef>) -> nat {
    bits_value(bits_at(g, ins, refs))
}

/// Whether every reference names a node of `g`.
pub open spec fn within(g: &FheCircuit, refs: Seq<NodeRef>) -> bool {
    refs_below(refs, g.nodes().len() as int)
}

/// The bits of an integer keep their values while the graph grows.
pub proof fn lemma_bits_keep(a: &FheCircuit, b: &FheCircuit, ins: Seq<nat>, refs: Seq<NodeRef>)
    requires
        a.adds_gates_to(b),
        within(a, refs),
    ensures
        bits_at(b, ins, refs) == bits_at(a, ins, refs),
        within(b, refs),
{
    assert forall|j: int| 0 <= j < refs.len() implies bits_at(b, ins, refs)[j] == bits_at(
        a,
        ins,
        refs,
    )[j] by {
        lemma_grows_keeps(a, b, ins, refs[j]);
    }
    assert(bits_at(b, ins, refs) =~= bits_at(a, ins, refs));
}

/// What a gate on two bits computes.
pub open spec fn bit_op(op: GateOp, x: bool, y: bool) -> bool {
    match op {
        GateOp::And => x && y,
        GateOp::Or => x || y,
        GateOp::Xor => x != y,
        _ => false,
    }
}

/// Appends a constant bit.
pub fn append_constant(graph: &mut FheCircuit, b: bool) -> (r: NodeRef)
    requires
        old(graph).wf(),
    ensures
        final(graph).wf(),
        old(graph).adds_gates_to(final(graph)),
        r.index == old(graph).nodes().len(),
        final(graph).nodes().len() == old(graph).nodes().len() + 1,
        forall|ins: Seq<nat>| #[trigger] final(graph).bit(ins, r) == b,
{
    let args: Vec<NodeRef> = Vec::new();
    if b {
        graph.append(GateOp::One, args)
    } else {
        graph.append(GateOp::Zero, args)
    }
}

fn gate2(graph: &mut FheCircuit, op: GateOp, a: NodeRef, b: NodeRef) -> (r: NodeRef)
    requires
        old(graph).wf(),
        op == GateOp::And || op == GateOp::Or || op == GateOp::Xor,
        a.index < old(graph).nodes().len(),
        b.index < old(graph).nodes().len(),
    ensures
        final(graph).wf(),
        old(graph).adds_gates_to(final(graph)),
        r.index == old(graph).nodes().len(),
        final(graph).nodes().len() == old(graph).nodes().len() + 1,
        forall|ins: Seq<nat>| #[trigger]
            final(graph).bit(ins, r) == bit_op(op, old(graph).bit(ins, a), old(graph).bit(ins, b)),
{
    let mut args: Vec<NodeRef> = Vec::new();
    args.push(a);
    args.push(b);
    let ghost refs = args@;
    let r = graph.append(op, args);
    proof {
        assert forall|ins: Seq<nat>| #[trigger]
            final(graph).bit(ins, r) == bit_op(
                op,
                old(graph).bit(ins, a),
                old(graph).bit(ins, b),
            ) by {
            let values = refs_values(old(graph).nodes(), ins, refs);
            assert(final(graph).value(ins, r) == gate_value(op, values));
            assert(values[0] == old(graph).value(ins, a));
            assert(values[1] == old(graph).value(ins, b));
        }
    }
    r
}

fn gate_not(graph: &mut FheCircuit, a: NodeRef) -> (r: NodeRef)
    requires
        old(graph).wf(),
        a.index < old(graph).nodes().len(),
    ensures
        final(graph).wf(),
        old(graph).adds_gates_to(final(graph)),
        r.index == old(graph).nodes().len(),
        final(graph).nodes().len() == old(graph).nodes().len() + 1,
        forall|ins: Seq<nat>| #[trigger] final(graph).bit(ins, r) == !old(graph).bit(ins, a),
{
    let mut args: Vec<NodeRef> = Vec::new();
    args.push(a);
    let ghost refs = args@;
    let r = graph.append(GateOp::Not, args);
    proof {
        assert forall|ins: Seq<nat>| #[trigger]
            final(graph).bit(ins, r) == !old(graph).bit(ins, a) by {
            let values = refs_values(old(graph).nodes(), ins, refs);
            assert(final(graph).value(ins, r) == gate_value(GateOp::Not, values));
            assert(values[0] == old(graph).value(ins, a));
        }
    }
    r
}

/// The sum bit and the carry of three bits.
pub open spec fn sum_bit(x: bool, y: bool, z: bool) -> bool {
    (x != y) != z
}

/// The carry of three bits: whether at least two are set.
pub open spec fn carry_bit(x: bool, y: bool, z: bool) -> bool {
    (x && y) || ((x != y) && z)
}

/// The borrow of `x - y - z`: whether the subtrahends outweigh `x`.
pub open spec fn borrow_bit(x: bool, y: bool, z: bool) -> bool {
    (!x && y) || (!(x != y) && z)
}

fn full_adder(graph: &mut FheCircuit, a: NodeRef, b: NodeRef, c: NodeRef) -> (r: (
    NodeRef,
    NodeRef,
))
    requires
        old(graph).wf(),
        a.index < old(graph).nodes().len(),
        b.index < old(graph).nodes().len(),
        c.index < old(graph).nodes().len(),
    ensures
        final(graph).wf(),
        old(graph).adds_gates_to(final(graph)),
        r.0.index < final(graph).nodes().len(),
        r.1.index < final(graph).nodes().len(),
        forall|ins: Seq<nat>|
            #![trigger final(graph).bit(ins, r.0)]
            #![trigger final(graph).bit(ins, r.1)]
            final(graph).bit(ins, r.0) == sum_bit(
                old(graph).bit(ins, a),
                old(graph).bit(ins, b),
                old(graph).bit(ins, c),
            ) && final(graph).bit(ins, r.1) == carry_bit(
                old(graph).bit(ins, a),
                old(graph).bit(ins, b),
                old(graph).bit(ins, c),
            ),
{
    let ghost g0 = *graph;
    let x = gate2(graph, GateOp::Xor, a, b);
    let ghost g1 = *graph;
    let s = gate2(graph, GateOp::Xor, x, c);
    let ghost g2 = *graph;
    let both = gate2(graph, GateOp::And, a, b);
    let ghost g3 = *graph;
    let through = gate2(graph, GateOp::And, x, c);
    let ghost g4 = *graph;
    let carry = gate2(graph, GateOp::Or, both, through);
    proof {
        let g5 = *graph;
        lemma_grows_trans(&g0, &g1, &g2);
        lemma_grows_trans(&g0, &g2, &g3);
        lemma_grows_trans(&g0, &g3, &g4);
        lemma_grows_trans(&g0, &g4, &g5);
        lemma_grows_trans(&g1, &g2, &g3);
        lemma_grows_trans(&g1, &g3, &g4);
        lemma_grows_trans(&g2, &g3, &g4);
        lemma_grows_trans(&g2, &g4, &g5);
        lemma_grows_trans(&g3, &g4, &g5);
        assert forall|ins: Seq<nat>|
            #![trigger g5.bit(ins, s)]
            #![trigger g5.bit(ins, carry)]
            g5.bit(ins, s) == sum_bit(g0.bit(ins, a), g0.bit(ins, b), g0.bit(ins, c)) && g5.bit(
                ins,
                carry,
            ) == carry_bit(g0.bit(ins, a), g0.bit(ins, b), g0.bit(ins, c)) by {
            assert(g1.bit(ins, x) == bit_op(GateOp::Xor, g0.bit(ins, a), g0.bit(ins, b)));
            lemma_grows_keeps(&g0, &g1, ins, c);
            assert(g2.bit(ins, s) == bit_op(GateOp::Xor, g1.bit(ins, x), g1.bit(ins, c)));
            lemma_grows_keeps(&g0, &g2, ins, a);
            lemma_grows_keeps(&g0, &g2, ins, b);
            assert(g3.bit(ins, both) == bit_op(GateOp::And, g2.bit(ins, a), g2.bit(ins, b)));
            lemma_grows_keeps(&g1, &g3, ins, x);
            lemma_grows_keeps(&g0, &g3, ins, c);
            assert(g4.bit(ins, through) == bit_op(GateOp::And, g3.bit(ins, x), g3.bit(ins, c)));
            lemma_grows_keeps(&g3, &g4, ins, both);
            assert(g5.bit(ins, carry) == bit_op(
                GateOp::Or,
                g4.bit(ins, both),
                g4.bit(ins, through),
            ));
            lemma_grows_keeps(&g2, &g5, ins, s);
        }
    }
    (s, carry)
}

fn full_subtractor(graph: &mut FheCircuit, a: NodeRef, b: NodeRef, c: NodeRef) -> (r: (
    NodeRef,
    NodeRef,
))
    requires
        old(graph).wf(),
        a.index < old(graph).nodes().len(),
        b.index < old(graph).nodes().len(),
        c.index < old(graph).nodes().len(),
    ensures
        final(graph).wf(),
        old(graph).adds_gates_to(final(graph)),
        r.0.index < final(graph).nodes().len(),
        r.1.index < final(graph).nodes().len(),
        forall|ins: Seq<nat>|
            #![trigger final(graph).bit(ins, r.0)]
            #![trigger final(graph).bit(ins, r.1)]
            final(graph).bit(ins, r.0) == sum_bit(
                old(graph).bit(ins, a),
                old(graph).bit(ins, b),
                old(graph).bit(ins, c),
            ) && final(graph).bit(ins, r.1) == borrow_bit(
                old(graph).bit(ins, a),
                old(graph).bit(ins, b),
                old(graph).bit(ins, c),
            ),
{
    let ghost g0 = *graph;
    let x = gate2(graph, GateOp::Xor, a, b);
    let ghost g1 = *graph;
    let d = gate2(graph, GateOp::Xor, x, c);
    let ghost g2 = *graph;
    let na = gate_not(graph, a);
    let ghost g3 = *graph;
    let under = gate2(graph, GateOp::And, na, b);
    let ghost g4 = *graph;
    let nx = gate_not(graph, x);
    let ghost g5 = *graph;
    let through = gate2(graph, GateOp::And, nx, c);
    let ghost g6 = *graph;
    let borrow = gate2(graph, GateOp::Or, under, through);
    proof {
        let g7 = *graph;
        lemma_grows_trans(&g0, &g1, &g2);
        lemma_grows_trans(&g0, &g2, &g3);
        lemma_grows_trans(&g0, &g3, &g4);
        lemma_grows_trans(&g0, &g4, &g5);
        lemma_grows_trans(&g0, &g5, &g6);
        lemma_grows_trans(&g0, &g6, &g7);
        lemma_grows_trans(&g1, &g2, &g3);
        lemma_grows_trans(&g1, &g3, &g4);
        lemma_grows_trans(&g2, &g3, &g4);
        lemma_grows_trans(&g2, &g4, &g5);
        lemma_grows_trans(&g2, &g5, &g6);
        lemma_grows_trans(&g2, &g6, &g7);
        lemma_grows_trans(&g4, &g5, &g6);
        assert forall|ins: Seq<nat>|
            #![trigger g7.bit(ins, d)]
            #![trigger g7.bit(ins, borrow)]
            g7.bit(ins, d) == sum_bit(g0.bit(ins, a), g0.bit(ins, b), g0.bit(ins, c)) && g7.bit(
                ins,
                borrow,
            ) == borrow_bit(g0.bit(ins, a), g0.bit(ins, b), g0.bit(ins, c)) by {
            assert(g1.bit(ins, x) == bit_op(GateOp::Xor, g0.bit(ins, a), g0.bit(ins, b)));
            lemma_grows_keeps(&g0, &g1, ins, c);
            assert(g2.bit(ins, d) == bit_op(GateOp::Xor, g1.bit(ins, x), g1.bit(ins, c)));
            lemma_grows_keeps(&g0, &g2, ins, a);
            assert(g3.bit(ins, na) == !g2.bit(ins, a));
            lemma_grows_keeps(&g0, &g3, ins, b);
            assert(g4.bit(ins, under) == bit_op(GateOp::And, g3.bit(ins, na), g3.bit(ins, b)));
            lemma_grows_keeps(&g1, &g4, ins, x);
            assert(g5.bit(ins, nx) == !g4.bit(ins, x));
            lemma_grows_keeps(&g0, &g5, ins, c);
            assert(g6.bit(ins, through) == bit_op(GateOp::And, g5.bit(ins, nx), g5.bit(ins, c)));
            lemma_grows_keeps(&g4, &g6, ins, under);
            assert(g7.bit(ins, borrow) == bit_op(
                GateOp::Or,
                g6.bit(ins, under),
                g6.bit(ins, through),
            ));
            lemma_grows_keeps(&g2, &g7, ins, d);
        }
    }
    (d, borrow)
}

proof fn lemma_add_step(sum: Seq<bool>, a: Seq<bool>, b: Seq<bool>, c: bool, x: bool, y: bool)
    requires
        sum.len() == a.len(),
        sum.len() == b.len(),
        bits_value(sum) + weight(c, sum.len()) == bits_value(a) + bits_value(b),
    ensures
        bits_value(sum.push(sum_bit(x, y, c))) + weight(carry_bit(x, y, c), sum.len() + 1)
            == bits_value(a.push(x)) + bits_value(b.push(y)),
{
    lemma_value_push(sum, sum_bit(x, y, c));
    lemma_value_push(a, x);
    lemma_value_push(b, y);
    lemma_pow2_unfold(sum.len() + 1);
}

proof fn lemma_sub_step(diff: Seq<bool>, a: Seq<bool>, b: Seq<bool>, c: bool, x: bool, y: bool)
    requires
        diff.len() == a.len(),
        diff.len() == b.len(),
        bits_value(diff) - weight(c, diff.len()) == bits_value(a) - bits_value(b),
    ensures
        bits_value(diff.push(sum_bit(x, y, c))) - weight(borrow_bit(x, y, c), diff.len() + 1)
            == bits_value(a.push(x)) - bits_value(b.push(y)),
{
    lemma_value_push(diff, sum_bit(x, y, c));
    lemma_value_push(a, x);
    lemma_value_push(b, y);
    lemma_pow2_unfold(diff.len() + 1);
}

proof fn lemma_wrap(low: Seq<bool>, c: bool, sign: int, total: int)
    requires
        sign == 1 || sign == -1,
        bits_value(low) + sign * weight(c, low.len()) == total,
    ensures
        bits_value(low) == total % (pow2(low.len()) as int),
{
    lemma_value_bound(low);
    lemma_pow2_pos(low.len());
    let p = pow2(low.len()) as int;
    let q: int = if c {
        sign
    } else {
        0
    };
    assert(total == q * p + bits_value(low)) by (nonlinear_arith)
        requires
            bits_value(low) + sign * weight(c, low.len()) == total,
            weight(c, low.len()) == if c {
                p
            } else {
                0
            },
            q == if c {
                sign
            } else {
                0
            },
    ;
    lemma_fundamental_div_mod_converse(total, p, q, bits_value(low) as int);
}

/// Appends a ripple-carry adder. The sum has the width of the operands and
/// wraps around.
pub fn append_add(graph: &mut FheCircuit, a: &Vec<NodeRef>, b: &Vec<NodeRef>) -> (sum: Vec<
    NodeRef,
>)
    requires
        old(graph).wf(),
        a@.len() == b@.len(),
        within(old(graph), a@),
        within(old(graph), b@),
    ensures
        final(graph).wf(),
        old(graph).adds_gates_to(final(graph)),
        sum@.len() == a@.len(),
        within(final(graph), sum@),
        forall|ins: Seq<nat>| #[trigger]
            number_at(final(graph), ins, sum@) == (number_at(old(graph), ins, a@) + number_at(
                old(graph),
                ins,
                b@,
            )) % pow2(a@.len()),
{
    let ghost g0 = *graph;
    let mut carry = append_constant(graph, false);
    let mut sum: Vec<NodeRef> = Vec::new();
    let mut i: usize = 0;
    proof {
        assert(a@.take(0) =~= Seq::<NodeRef>::empty());
        assert(b@.take(0) =~= Seq::<NodeRef>::empty());
        assert forall|ins: Seq<nat>| #[trigger]
            number_at(graph, ins, sum@) + weight(graph.bit(ins, carry), 0) == number_at(
                &g0,
                ins,
                a@.take(0),
            ) + number_at(&g0, ins, b@.take(0)) by {
            assert(bits_at(graph, ins, sum@) =~= Seq::<bool>::empty());
            assert(bits_at(&g0, ins, a@.take(0)) =~= Seq::<bool>::empty());
            assert(bits_at(&g0, ins, b@.take(0)) =~= Seq::<bool>::empty());
        }
    }
    while i < a.len()
        invariant
            graph.wf(),
            g0.adds_gates_to(graph),
            a@.len() == b@.len(),
            within(&g0, a@),
            within(&g0, b@),
            i <= a@.len(),
            sum@.len() == i,
            within(graph, sum@),
            carry.index < graph.nodes().len(),
            forall|ins: Seq<nat>| #[trigger]
                number_at(graph, ins, sum@) + weight(graph.bit(ins, carry), i as nat)
                    == number_at(&g0, ins, a@.take(i as int)) + number_at(
                    &g0,
                    ins,
                    b@.take(i as int),
                ),
        decreases a@.len() - i,
    {
        let ghost g1 = *graph;
        let ghost prev = sum@;
        let ghost c1 = carry;
        let x = a[i];
        let y = b[i];
        let (s, c) = full_adder(graph, x, y, carry);
        sum.push(s);
        carry = c;
        proof {
            lemma_grows_trans(&g0, &g1, graph);
            assert forall|ins: Seq<nat>| #[trigger]
                number_at(graph, ins, sum@) + weight(graph.bit(ins, carry), (i + 1) as nat)
                    == number_at(&g0, ins, a@.take(i + 1)) + number_at(
                    &g0,
                    ins,
                    b@.take(i + 1),
                ) by {
                lemma_bits_keep(&g1, graph, ins, prev);
                lemma_grows_keeps(&g0, &g1, ins, x);
                lemma_grows_keeps(&g0, &g1, ins, y);
                assert(number_at(&g1, ins, prev) + weight(g1.bit(ins, c1), i as nat) == number_at(
                    &g0,
                    ins,
                    a@.take(i as int),
                ) + number_at(&g0, ins, b@.take(i as int)));
                assert(bits_at(graph, ins, sum@) =~= bits_at(&g1, ins, prev).push(
                    graph.bit(ins, s),
                ));
                assert(bits_at(&g0, ins, a@.take(i + 1)) =~= bits_at(
                    &g0,
                    ins,
                    a@.take(i as int),
                ).push(g0.bit(ins, x)));
                assert(bits_at(&g0, ins, b@.take(i + 1)) =~= bits_at(
                    &g0,
                    ins,
                    b@.take(i as int),
                ).push(g0.bit(ins, y)));
                lemma_add_step(
                    bits_at(&g1, ins, prev),
                    bits_at(&g0, ins, a@.take(i as int)),
                    bits_at(&g0, ins, b@.take(i as int)),
                    g1.bit(ins, c1),
                    g0.bit(ins, x),
                    g0.bit(ins, y),
                );
            }
            assert forall|j: int| 0 <= j < sum@.len() implies (#[trigger] sum@[j]).index
                < graph.nodes().len() by {
                if j < prev.len() {
                    assert(prev[j].index < g1.nodes().len());
                }
            }
        }
        i += 1;
    }
    proof {
        assert(a@.take(a@.len() as int) =~= a@);
        assert(b@.take(b@.len() as int) =~= b@);
        assert forall|ins: Seq<nat>| #[trigger]
            number_at(graph, ins, sum@) == (number_at(&g0, ins, a@) + number_at(&g0, ins, b@))
                % pow2(a@.len()) by {
            let total = number_at(&g0, ins, a@) + number_at(&g0, ins, b@);
            assert(number_at(graph, ins, sum@) + weight(graph.bit(ins, carry), i as nat)
                == total);
            lemma_wrap(bits_at(graph, ins, sum@), graph.bit(ins, carry), 1, total as int);
        }
    }
    sum
}

/// Appends a ripple-borrow subtractor. The difference has the width of the
/// operands and wraps around.
pub fn append_sub(graph: &mut FheCircuit, a: &Vec<NodeRef>, b: &Vec<NodeRef>) -> (diff: Vec<
    NodeRef,
>)
    requires
        old(graph).wf(),
        a@.len() == b@.len(),
        within(old(graph), a@),
        within(old(graph), b@),
    ensures
        final(graph).wf(),
        old(graph).adds_gates_to(final(graph)),
        diff@.len() == a@.len(),
        within(final(graph), diff@),
        forall|ins: Seq<nat>| #[trigger]
            number_at(final(graph), ins, diff@) as int == (number_at(old(graph), ins, a@)
                - number_at(old(graph), ins, b@)) % (pow2(a@.len()) as int),
{
    let ghost g0 = *graph;
    let mut borrow = append_constant(graph, false);
    let mut diff: Vec<NodeRef> = Vec::new();
    let mut i: usize = 0;
    proof {
        assert(a@.take(0) =~= Seq::<NodeRef>::empty());
        assert(b@.take(0) =~= Seq::<NodeRef>::empty());
        assert forall|ins: Seq<nat>| #[trigger]
            number_at(graph, ins, diff@) - weight(graph.bit(ins, borrow), 0) == number_at(
                &g0,
                ins,
                a@.take(0),
            ) - number_at(&g0, ins, b@.take(0)) by {
            assert(bits_at(graph, ins, diff@) =~= Seq::<bool>::empty());
            assert(bits_at(&g0, ins, a@.take(0)) =~= Seq::<bool>::empty());
            assert(bits_at(&g0, ins, b@.take(0)) =~= Seq::<bool>::empty());
        }
    }
    while i < a.len()
        invariant
            graph.wf(),
            g0.adds_gates_to(graph),
            a@.len() == b@.len(),
            within(&g0, a@),
            within(&g0, b@),
            i <= a@.len(),
            diff@.len() == i,
            within(graph, diff@),
            borrow.index < graph.nodes().len(),
            forall|ins: Seq<nat>| #[trigger]
                number_at(graph, ins, diff@) - weight(graph.bit(ins, borrow), i as nat)
                    == number_at(&g0, ins, a@.take(i as int)) - number_at(
                    &g0,
                    ins,
                    b@.take(i as int),
                ),
        decreases a@.len() - i,
    {
        let ghost g1 = *graph;
        let ghost prev = diff@;
        let ghost c1 = borrow;
        let x = a[i];
        let y = b[i];
        let (d, c) = full_subtractor(graph, x, y, borrow);
        diff.push(d);
        borrow = c;
        proof {
            lemma_grows_trans(&g0, &g1, graph);
            assert forall|ins: Seq<nat>| #[trigger]
                number_at(graph, ins, diff@) - weight(graph.bit(ins, borrow), (i + 1) as nat)
                    == number_at(&g0, ins, a@.take(i + 1)) - number_at(
                    &g0,
                    ins,
                    b@.take(i + 1),
                ) by {
                lemma_bits_keep(&g1, graph, ins, prev);
                lemma_grows_keeps(&g0, &g1, ins, x);
                lemma_grows_keeps(&g0, &g1, ins, y);
                assert(number_at(&g1, ins, prev) - weight(g1.bit(ins, c1), i as nat) == number_at(
                    &g0,
                    ins,
                    a@.take(i as int),
                ) - number_at(&g0, ins, b@.take(i as int)));
                assert(bits_at(graph, ins, diff@) =~= bits_at(&g1, ins, prev).push(
                    graph.bit(ins, d),
                ));
                assert(bits_at(&g0, ins, a@.take(i + 1)) =~= bits_at(
                    &g0,
                    ins,
                    a@.take(i as int),
                ).push(g0.bit(ins, x)));
                assert(bits_at(&g0, ins, b@.take(i + 1)) =~= bits_at(
                    &g0,
                    ins,
                    b@.take(i as int),
                ).push(g0.bit(ins, y)));
                lemma_sub_step(
                    bits_at(&g1, ins, prev),
                    bits_at(&g0, ins, a@.take(i as int)),
                    bits_at(&g0, ins, b@.take(i as int)),
                    g1.bit(ins, c1),
                    g0.bit(ins, x),
                    g0.bit(ins, y),
                );
            }
            assert forall|j: int| 0 <= j < diff@.len() implies (#[trigger] diff@[j]).index
                < graph.nodes().len() by {
                if j < prev.len() {
                    assert(prev[j].index < g1.nodes().len());
                }
            }
        }
        i += 1;
    }
    proof {
        assert(a@.take(a@.len() as int) =~= a@);
        assert(b@.take(b@.len() as int) =~= b@);
        assert forall|ins: Seq<nat>| #[trigger]
            number_at(graph, ins, diff@) as int == (number_at(&g0, ins, a@) - number_at(
                &g0,
                ins,
                b@,
            )) % (pow2(a@.len()) as int) by {
            let total = number_at(&g0, ins, a@) - number_at(&g0, ins, b@);
            assert(number_at(graph, ins, diff@) - weight(graph.bit(ins, borrow), i as nat)
                == total);
            lemma_wrap(bits_at(graph, ins, diff@), graph.bit(ins, borrow), -1, total);
        }
    }
    diff
}

/// The bits of an integer after a resize to `new_size` bits: the low bits
/// that the plan keeps, then as many copies of the fill bit as the plan
/// appends. The fill bit is the sign bit of a signed integer and 0 for an
/// unsigned one.
pub open spec fn resized(bits: Seq<bool>, new_size: int, signed: bool) -> Seq<bool> {
    let plan = resize_plan(signed, bits.len() as int, new_size);
    bits.take(plan.0) + repeat_bit(signed && bits.last(), plan.1 as nat)
}

/// Resizes an integer to `new_size` bits under the sign policy `U`. Kept bits
/// are the same nodes; no gate is added but a constant 0 where an unsigned
/// integer grows.
pub fn append_resize<U: Sign>(graph: &mut FheCircuit, a: &Vec<NodeRef>, new_size: usize) -> (out:
    Vec<NodeRef>)
    requires
        old(graph).wf(),
        within(old(graph), a@),
        U::signed() ==> a@.len() >= 1 && new_size >= 1,
    ensures
        final(graph).wf(),
        old(graph).adds_gates_to(final(graph)),
        out@.len() == new_size,
        within(final(graph), out@),
        forall|ins: Seq<nat>| #[trigger]
            bits_at(final(graph), ins, out@) == resized(
                bits_at(old(graph), ins, a@),
                new_size as int,
                U::signed(),
            ),
{
    let ghost g0 = *graph;
    let (keep, extend, sign_extend) = U::resize_config(a.len(), new_size);
    let mut out: Vec<NodeRef> = Vec::new();
    let mut i: usize = 0;
    while i < keep
        invariant
            keep <= a@.len(),
            i <= keep,
            out@ == a@.take(i as int),
        decreases keep - i,
    {
        out.push(a[i]);
        i += 1;
        assert(out@ =~= a@.take(i as int));
    }
    proof {
        lemma_grows_refl(&g0);
    }
    if extend > 0 {
        let fill = if sign_extend {
            a[a.len() - 1]
        } else {
            append_constant(graph, false)
        };
        let mut j: usize = 0;
        while j < extend
            invariant
                j <= extend,
                out@.len() == keep + j,
                out@.take(keep as int) == a@.take(keep as int),
                forall|b: int| keep <= b < keep + j ==> #[trigger] out@[b] == fill,
            decreases extend - j,
        {
            out.push(fill);
            j += 1;
            assert(out@.take(keep as int) =~= a@.take(keep as int));
        }
        proof {
            assert forall|b: int| 0 <= b < out@.len() implies (#[trigger] out@[b]).index
                < graph.nodes().len() by {
                if b < keep {
                    assert(out@[b] == out@.take(keep as int)[b]);
                    assert(a@[b].index < g0.nodes().len());
                }
            }
            assert forall|ins: Seq<nat>| #[trigger]
                bits_at(graph, ins, out@) == resized(
                    bits_at(&g0, ins, a@),
                    new_size as int,
                    U::signed(),
                ) by {
                let want = resized(bits_at(&g0, ins, a@), new_size as int, U::signed());
                assert forall|b: int| 0 <= b < out@.len() implies bits_at(graph, ins, out@)[b]
                    == want[b] by {
                    if b < keep {
                        assert(out@[b] == out@.take(keep as int)[b]);
                        lemma_grows_keeps(&g0, graph, ins, a@[b]);
                    } else {
                        if sign_extend {
                            lemma_grows_keeps(&g0, graph, ins, fill);
                        }
                    }
                }
                assert(bits_at(graph, ins, out@) =~= want);
            }
        }
    } else {
        proof {
            assert forall|ins: Seq<nat>| #[trigger]
                bits_at(graph, ins, out@) == resized(
                    bits_at(&g0, ins, a@),
                    new_size as int,
                    U::signed(),
                ) by {
                assert(bits_at(graph, ins, out@) =~= resized(
                    bits_at(&g0, ins, a@),
                    new_size as int,
                    U::signed(),
                ));
            }
        }
    }
    out
}

/// Folds the bits of an integer into one packed node.
pub fn append_pack(graph: &mut FheCircuit, bits: &Vec<NodeRef>) -> (word: NodeRef)
    requires
        old(graph).wf(),
        within(old(graph), bits@),
    ensures
        final(graph).wf(),
        old(graph).adds_gates_to(final(graph)),
        word.index < final(graph).nodes().len(),
        forall|ins: Seq<nat>| #[trigger]
            final(graph).value(ins, word) == number_at(old(graph), ins, bits@),
{
    let mut args: Vec<NodeRef> = Vec::new();
    let mut i: usize = 0;
    while i < bits.len()
        invariant
            i <= bits@.len(),
            args@ == bits@.take(i as int),
        decreases bits@.len() - i,
    {
        args.push(bits[i]);
        i += 1;
        assert(args@ =~= bits@.take(i as int));
    }
    assert(args@ =~= bits@);
    let word = graph.append(GateOp::Pack, args);
    proof {
        assert forall|ins: Seq<nat>| #[trigger]
            final(graph).value(ins, word) == number_at(old(graph), ins, bits@) by {
            assert(low_bits(refs_values(old(graph).nodes(), ins, bits@)) =~= bits_at(
                old(graph),
                ins,
                bits@,
            ));
        }
    }
    word
}

/// Takes the lowest `width` bits of a packed node apart.
pub fn append_unpack(graph: &mut FheCircuit, word: NodeRef, width: usize) -> (bits: Vec<NodeRef>)
    requires
        old(graph).wf(),
        word.index < old(graph).nodes().len(),
    ensures
        final(graph).wf(),
        old(graph).adds_gates_to(final(graph)),
        bits@.len() == width,
        within(final(graph), bits@),
        forall|ins: Seq<nat>| #[trigger]
            bits_at(final(graph), ins, bits@) == bits_of(old(graph).value(ins, word), width as nat),
{
    let ghost g0 = *graph;
    let mut bits: Vec<NodeRef> = Vec::new();
    let mut i: usize = 0;
    proof {
        lemma_grows_refl(&g0);
    }
    while i < width
        invariant
            graph.wf(),
            g0.adds_gates_to(graph),
            word.index < g0.nodes().len(),
            i <= width,
            bits@.len() == i,
            within(graph, bits@),
            forall|ins: Seq<nat>| #[trigger]
                bits_at(graph, ins, bits@) == bits_of(g0.value(ins, word), i as nat),
        decreases width - i,
    {
        let ghost g1 = *graph;
        let ghost prev = bits@;
        let mut args: Vec<NodeRef> = Vec::new();
        args.push(word);
        let ghost refs = args@;
        let r = graph.append(GateOp::Extract(i), args);
        bits.push(r);
        proof {
            lemma_grows_trans(&g0, &g1, graph);
            assert forall|ins: Seq<nat>| #[trigger]
                bits_at(graph, ins, bits@) == bits_of(g0.value(ins, word), (i + 1) as nat) by {
                lemma_bits_keep(&g1, graph, ins, prev);
                lemma_grows_keeps(&g0, &g1, ins, word);
                let values = refs_values(g1.nodes(), ins, refs);
                assert(values[0] == g1.value(ins, word));
                assert(graph.value(ins, r) == gate_value(GateOp::Extract(i), values));
                assert(bits_at(&g1, ins, prev) == bits_of(g0.value(ins, word), i as nat));
                assert(graph.bit(ins, r) == crate::bits::bit_at(g0.value(ins, word), i as nat));
                assert forall|j: int| 0 <= j < i + 1 implies bits_at(graph, ins, bits@)[j]
                    == bits_of(g0.value(ins, word), (i + 1) as nat)[j] by {
                    if j < i {
                        assert(bits_at(graph, ins, prev)[j] == bits_of(
                            g0.value(ins, word),
                            i as nat,
                        )[j]);
                        assert(bits@[j] == prev[j]);
                    }
                }
                assert(bits_at(graph, ins, bits@) =~= bits_of(
                    g0.value(ins, word),
                    (i + 1) as nat,
                ));
            }
            assert forall|j: int| 0 <= j < bits@.len() implies (#[trigger] bits@[j]).index
                < graph.nodes().len() by {
                if j < prev.len() {
                    assert(prev[j].index < g1.nodes().len());
                }
            }
        }
        i += 1;
    }
    bits
}

/// Whether every reference names a node of the graph.
pub fn all_within(graph: &FheCircuit, refs: &[NodeRef]) -> (ok: bool)
    ensures
        ok == within(graph, refs@),
{
    let n = graph.len();
    let mut j: usize = 0;
    while j < refs.len()
        invariant
            n == graph.nodes().len(),
            j <= refs@.len(),
            forall|b: int| 0 <= b < j ==> (#[trigger] refs@[b]).index < n,
        decreases refs@.len() - j,
    {
        if refs[j].index >= n {
            return false;
        }
        j += 1;
    }
    true
}

/// Lowers a multiplexer network into the graph, with the nodes `operands` in
/// the place of its variables, and returns the node of each output.
///
/// A constant becomes a constant gate and a multiplexer a multiplexer gate; a
/// variable and an output add nothing. The request is refused, and the graph
/// left as it was, when the number of operands is not the number of inputs of
/// the network, or when an operand names no node of the graph.
pub fn insert_mux_circuit(graph: &mut FheCircuit, net: &MuxNet, operands: &[NodeRef]) -> (r:
    Result<Vec<NodeRef>, ConstructionError>)
    requires
        old(graph).wf(),
        net.wf(),
    ensures
        final(graph).wf(),
        old(graph).adds_gates_to(final(graph)),
        r is Err ==> *final(graph) == *old(graph),
        operands@.len() != net.inputs() ==> r is Err && r->Err_0
            == ConstructionError::ArityMismatch,
        operands@.len() == net.inputs() && !within(old(graph), operands@) ==> r is Err && r->Err_0
            == ConstructionError::ForeignNode,
        operands@.len() == net.inputs() && within(old(graph), operands@) ==> (r matches Ok(outs)
            && outs@.len() == net.outputs().len() && within(final(graph), outs@) && forall|
            ins: Seq<nat>,
        | #[trigger]
            bits_at(final(graph), ins, outs@) == net.eval(bits_at(old(graph), ins, operands@))),
{
    proof {
        lemma_grows_refl(graph);
    }
    if operands.len() != net.num_inputs() {
        return Err(ConstructionError::ArityMismatch);
    }
    if !all_within(graph, operands) {
        return Err(ConstructionError::ForeignNode);
    }
    let ghost g0 = *graph;
    let n = net.len();
    let mut map: Vec<NodeRef> = Vec::new();
    let mut k: usize = 0;
    while k < n
        invariant
            graph.wf(),
            net.wf(),
            g0.adds_gates_to(graph),
            within(&g0, operands@),
            operands@.len() == net.inputs(),
            n == net.nodes().len(),
            k <= n,
            map@.len() == k,
            within(graph, map@),
            forall|ins: Seq<nat>, p: int|
                0 <= p < k ==> #[trigger] graph.bit(ins, map@[p]) == net_value(
                    net.nodes(),
                    bits_at(&g0, ins, operands@),
                    p,
                ),
        decreases n - k,
    {
        let ghost g1 = *graph;
        let ghost prev = map@;
        let node = net.node(k);
        assert(crate::mux::backward(net.nodes()[k as int], k as int));
        let r = match node {
            MuxNode::Zero => append_constant(graph, false),
            MuxNode::One => append_constant(graph, true),
            MuxNode::Variable(v) => operands[v as usize],
            MuxNode::Output { source, .. } => map[source],
            MuxNode::Mux { select, low, high } => {
                let mut args: Vec<NodeRef> = Vec::new();
                args.push(map[select]);
                args.push(map[low]);
                args.push(map[high]);
                let ghost refs = args@;
                let r = graph.append(GateOp::Mux, args);
                proof {
                    assert forall|ins: Seq<nat>| #[trigger]
                        graph.bit(ins, r) == (if g1.bit(ins, prev[select as int]) {
                            g1.bit(ins, prev[high as int])
                        } else {
                            g1.bit(ins, prev[low as int])
                        }) by {
                        let values = refs_values(g1.nodes(), ins, refs);
                        assert(graph.value(ins, r) == gate_value(GateOp::Mux, values));
                        assert(values[0] == g1.value(ins, prev[select as int]));
                        assert(values[1] == g1.value(ins, prev[low as int]));
                        assert(values[2] == g1.value(ins, prev[high as int]));
                    }
                }
                r
            },
        };
        map.push(r);
        proof {
            lemma_grows_trans(&g0, &g1, graph);
            assert(r.index < graph.nodes().len()) by {
                match node {
                    MuxNode::Variable(v) => {
                        assert(operands@[v as int].index < g0.nodes().len());
                    },
                    MuxNode::Output { source, .. } => {
                        assert(prev[source as int].index < g1.nodes().len());
                    },
                    _ => {},
                }
            }
            assert forall|j: int| 0 <= j < map@.len() implies (#[trigger] map@[j]).index
                < graph.nodes().len() by {
                if j < prev.len() {
                    assert(prev[j].index < g1.nodes().len());
                }
            }
            assert forall|ins: Seq<nat>, p: int| 0 <= p < k + 1 implies #[trigger] graph.bit(
                ins,
                map@[p],
            ) == net_value(net.nodes(), bits_at(&g0, ins, operands@), p) by {
                let fed = bits_at(&g0, ins, operands@);
                if p < k {
                    assert(map@[p] == prev[p]);
                    lemma_grows_keeps(&g1, graph, ins, prev[p]);
                    assert(g1.bit(ins, prev[p]) == net_value(net.nodes(), fed, p));
                } else {
                    match node {
                        MuxNode::Zero => {},
                        MuxNode::One => {},
                        MuxNode::Variable(v) => {
                            lemma_grows_keeps(&g0, graph, ins, operands@[v as int]);
                            assert(fed[v as int] == g0.bit(ins, operands@[v as int]));
                        },
                        MuxNode::Output { source, .. } => {
                            lemma_grows_keeps(&g1, graph, ins, prev[source as int]);
                            assert(g1.bit(ins, prev[source as int]) == net_value(
                                net.nodes(),
                                fed,
                                source as int,
                            ));
                        },
                        MuxNode::Mux { select, low, high } => {
                            assert(g1.bit(ins, prev[select as int]) == net_value(
                                net.nodes(),
                                fed,
                                select as int,
                            ));
                            assert(g1.bit(ins, prev[low as int]) == net_value(
                                net.nodes(),
                                fed,
                                low as int,
                            ));
                            assert(g1.bit(ins, prev[high as int]) == net_value(
                                net.nodes(),
                                fed,
                                high as int,
                            ));
                        },
                    }
                }
            }
        }
        k += 1;
    }
    let mut outs: Vec<NodeRef> = Vec::new();
    let m = net.num_outputs();
    let mut i: usize = 0;
    while i < m
        invariant
            net.wf(),
            n == net.nodes().len(),
            m == net.outputs().len(),
            map@.len() == n,
            within(graph, map@),
            i <= m,
            outs@.len() == i,
            forall|b: int| 0 <= b < i ==> #[trigger] outs@[b] == map@[net.outputs()[b] as int],
        decreases m - i,
    {
        let place = net.output(i);
        assert(net.outputs()[i as int] < net.nodes().len());
        outs.push(map[place]);
        i += 1;
    }
    proof {
        assert forall|b: int| 0 <= b < outs@.len() implies (#[trigger] outs@[b]).index
            < graph.nodes().len() by {
            assert(net.outputs()[b] < net.nodes().len());
            assert(map@[net.outputs()[b] as int].index < graph.nodes().len());
        }
        assert forall|ins: Seq<nat>| #[trigger]
            bits_at(graph, ins, outs@) == net.eval(bits_at(&g0, ins, operands@)) by {
            let fed = bits_at(&g0, ins, operands@);
            assert forall|b: int| 0 <= b < m implies bits_at(graph, ins, outs@)[b] == net.eval(
                fed,
            )[b] by {
                net.lemma_output_place(b);
                assert(net.outputs()[b] < net.nodes().len());
                assert(graph.bit(ins, map@[net.outputs()[b] as int]) == net_value(
                    net.nodes(),
                    fed,
                    net.outputs()[b] as int,
                ));
            }
            assert(bits_at(graph, ins, outs@) =~= net.eval(fed));
        }
    }
    Ok(outs)
}

/// Why an operation does not fit the widths it was given.
#[derive(Clone, Copy, Debug, PartialEq, Eq, Structural)]
pub enum WidthError {
    /// The operands differ in width; resize one of them first.
    Unequal,
    /// No circuit exists for this width.
    Unsupported,
}

/// Why an operation on integers added nothing to the graph.
#[derive(Clone, Copy, Debug, PartialEq, Eq, Structural)]
pub enum CircuitError {
    /// The widths do not fit.
    Width(WidthError),
    /// A reference or a circuit is malformed.
    Construction(ConstructionError),
}

/// The bits of two integers of one width in turn: `a[0], b[0], a[1], b[1]` and
/// so on.
pub open spec fn interleave(a: Seq<bool>, b: Seq<bool>) -> Seq<bool> {
    Seq::new(
        2 * a.len(),
        |j: int|
            if j % 2 == 0 {
                a[j / 2]
            } else {
                b[j / 2]
            },
    )
}

/// Lowers a comparator network onto two integers of one width and returns the
/// node of its one output.
///
/// The network must take two inputs per bit and give one output, else the
/// arity does not match. The operands are wired in turn, low bits first.
pub fn append_compare_with(
    graph: &mut FheCircuit,
    net: &MuxNet,
    a: &Vec<NodeRef>,
    b: &Vec<NodeRef>,
) -> (r: Result<NodeRef, ConstructionError>)
    requires
        old(graph).wf(),
        net.wf(),
        a@.len() == b@.len(),
    ensures
        final(graph).wf(),
        old(graph).adds_gates_to(final(graph)),
        r is Err ==> *final(graph) == *old(graph),
        net.inputs() != 2 * a@.len() || net.outputs().len() != 1 ==> r is Err && r->Err_0
            == ConstructionError::ArityMismatch,
        net.inputs() == 2 * a@.len() && net.outputs().len() == 1 && !(within(old(graph), a@)
            && within(old(graph), b@)) ==> r is Err && r->Err_0 == ConstructionError::ForeignNode,
        net.inputs() == 2 * a@.len() && net.outputs().len() == 1 && within(old(graph), a@)
            && within(old(graph), b@) ==> (r matches Ok(x) && x.index < final(graph).nodes().len()
            && forall|ins: Seq<nat>| #[trigger]
            final(graph).bit(ins, x) == net.eval(
                interleave(bits_at(old(graph), ins, a@), bits_at(old(graph), ins, b@)),
            )[0]),
{
    proof {
        lemma_grows_refl(graph);
    }
    let n = a.len();
    let inputs = net.num_inputs();
    if n > usize::MAX / 2 || inputs != 2 * n || net.num_outputs() != 1 {
        return Err(ConstructionError::ArityMismatch);
    }
    let mut operands: Vec<NodeRef> = Vec::new();
    let mut i: usize = 0;
    while i < n
        invariant
            n == a@.len(),
            n == b@.len(),
            n <= usize::MAX / 2,
            i <= n,
            operands@.len() == 2 * i,
            forall|j: int|
                0 <= j < 2 * i ==> #[trigger] operands@[j] == (if j % 2 == 0 {
                    a@[j / 2]
                } else {
                    b@[j / 2]
                }),
        decreases n - i,
    {
        operands.push(a[i]);
        operands.push(b[i]);
        i += 1;
    }
    proof {
        if within(graph, a@) && within(graph, b@) {
            assert forall|j: int| 0 <= j < operands@.len() implies (#[trigger] operands@[j]).index
                < graph.nodes().len() by {
                if j % 2 == 0 {
                    assert(a@[j / 2].index < graph.nodes().len());
                } else {
                    assert(b@[j / 2].index < graph.nodes().len());
                }
            }
        } else {
            if !within(graph, a@) {
                let j = choose|j: int|
                    0 <= j < a@.len() && !((#[trigger] a@[j]).index < graph.nodes().len());
                assert(operands@[2 * j] == a@[j]);
            } else {
                let j = choose|j: int|
                    0 <= j < b@.len() && !((#[trigger] b@[j]).index < graph.nodes().len());
                assert(operands@[2 * j + 1] == b@[j]);
            }
        }
        assert forall|ins: Seq<nat>| #[trigger]
            bits_at(graph, ins, operands@) == interleave(
                bits_at(graph, ins, a@),
                bits_at(graph, ins, b@),
            ) by {
            assert(bits_at(graph, ins, operands@) =~= interleave(
                bits_at(graph, ins, a@),
                bits_at(graph, ins, b@),
            ));
        }
    }
    let ghost g0 = *graph;
    match insert_mux_circuit(graph, net, operands.as_slice()) {
        Err(e) => Err(e),
        Ok(outs) => {
            let x = outs[0];
            proof {
                assert forall|ins: Seq<nat>| #[trigger]
                    graph.bit(ins, x) == net.eval(
                        interleave(bits_at(&g0, ins, a@), bits_at(&g0, ins, b@)),
                    )[0] by {
                    assert(bits_at(graph, ins, outs@)[0] == graph.bit(ins, x));
                    assert(bits_at(&g0, ins, operands@) == interleave(
                        bits_at(&g0, ins, a@),
                        bits_at(&g0, ins, b@),
                    ));
                }
            }
            Ok(x)
        },
    }
}

/// Whether two integers of `n` and `m` bits can be compared: neither is
/// empty, and a comparator exists for the wider.
pub open spec fn comparable(n: nat, m: nat) -> bool {
    n >= 1 && m >= 1 && n <= 32766 && m <= 32766
}

/// What [`append_compare`] owes, given the parts of the comparator that
/// `mux_circuits` builds for the wider width.
pub open spec fn compared(
    before: &FheCircuit,
    after: &FheCircuit,
    parts: crate::mux::PartsView,
    a: Seq<NodeRef>,
    b: Seq<NodeRef>,
    signed: bool,
    r: Result<NodeRef, CircuitError>,
) -> bool {
    let w = if a.len() < b.len() {
        b.len()
    } else {
        a.len()
    };
    match circuit_outcome(parts, 2 * w, 1) {
        Some(e) => r is Err && r->Err_0 == CircuitError::Construction(e),
        None => if !(within(before, a) && within(before, b)) {
            r is Err && r->Err_0 == CircuitError::Construction(ConstructionError::ForeignNode)
        } else {
            r matches Ok(x) && x.index < after.nodes().len() && forall|ins: Seq<nat>| #[trigger]
                after.bit(ins, x) == nodes_eval(
                    normal_nodes(parts),
                    interleave(
                        resized(bits_at(before, ins, a), w as int, signed),
                        resized(bits_at(before, ins, b), w as int, signed),
                    ),
                )[0]
        },
    }
}

/// Compares two integers under the sign policy `U` and returns the node of
/// the answer, one bit: whether `a > b` (`greater`) or `a < b` (else), or
/// also `a == b` where `or_equal` is set.
///
/// The narrower operand is first resized to the width of the wider. The
/// comparator comes from `mux_circuits`; what it computes is known here only
/// as the value of that circuit. On an error the graph is left as it was.
pub fn append_compare<U: Sign>(
    graph: &mut FheCircuit,
    a: &Vec<NodeRef>,
    b: &Vec<NodeRef>,
    greater: bool,
    or_equal: bool,
) -> (r: Result<NodeRef, CircuitError>)
    requires
        old(graph).wf(),
    ensures
        final(graph).wf(),
        old(graph).adds_gates_to(final(graph)),
        r is Err ==> *final(graph) == *old(graph),
        !comparable(a@.len(), b@.len()) ==> r is Err && r->Err_0 == CircuitError::Width(
            WidthError::Unsupported,
        ),
        comparable(a@.len(), b@.len()) ==> compared(
            old(graph),
            final(graph),
            U::comparator(
                if a@.len() < b@.len() {
                    b@.len() as usize
                } else {
                    a@.len() as usize
                },
                greater,
                or_equal,
            ),
            a@,
            b@,
            U::signed(),
            r,
        ),
{
    proof {
        lemma_grows_refl(graph);
    }
    let w = if a.len() < b.len() {
        b.len()
    } else {
        a.len()
    };
    if a.len() == 0 || b.len() == 0 || w > 32766 {
        return Err(CircuitError::Width(WidthError::Unsupported));
    }
    let ghost parts = U::comparator(w, greater, or_equal);
    let net = match U::gen_compare_circuit(w, greater, or_equal) {
        Err(e) => {
            return Err(CircuitError::Construction(e));
        },
        Ok(net) => net,
    };
    if net.num_inputs() != 2 * w || net.num_outputs() != 1 {
        return Err(CircuitError::Construction(ConstructionError::ArityMismatch));
    }
    if !all_within(graph, a.as_slice()) || !all_within(graph, b.as_slice()) {
        return Err(CircuitError::Construction(ConstructionError::ForeignNode));
    }
    let ghost g0 = *graph;
    let wide_a = append_resize::<U>(graph, a, w);
    let ghost g1 = *graph;
    proof {
        lemma_bits_keep(&g0, &g1, Seq::empty(), b@);
    }
    let wide_b = append_resize::<U>(graph, b, w);
    let ghost g2 = *graph;
    proof {
        lemma_grows_trans(&g0, &g1, &g2);
        lemma_bits_keep(&g1, &g2, Seq::empty(), wide_a@);
    }
    match append_compare_with(graph, &net, &wide_a, &wide_b) {
        Err(e) => {
            // the operands were looked over above, so this cannot be
            assert(false);
            Err(CircuitError::Construction(e))
        },
        Ok(x) => {
            proof {
                lemma_grows_trans(&g0, &g2, graph);
                assert forall|ins: Seq<nat>| #[trigger]
                    graph.bit(ins, x) == nodes_eval(
                        normal_nodes(parts),
                        interleave(
                            resized(bits_at(&g0, ins, a@), w as int, U::signed()),
                            resized(bits_at(&g0, ins, b@), w as int, U::signed()),
                        ),
                    )[0] by {
                    lemma_bits_keep(&g0, &g1, ins, b@);
                    lemma_bits_keep(&g1, &g2, ins, wide_a@);
                    assert(bits_at(&g2, ins, wide_a@) == resized(
                        bits_at(&g0, ins, a@),
                        w as int,
                        U::signed(),
                    ));
                    assert(bits_at(&g2, ins, wide_b@) == resized(
                        bits_at(&g0, ins, b@),
                        w as int,
                        U::signed(),
                    ));
                }
            }
            Ok(x)
        },
    }
}

/// The bits that go into a multiplier for operands `a` and `b`: both as they
/// are for unsigned integers, and each extended with its sign to the width
/// of the product for signed ones.
pub open spec fn product_inputs(signed: bool, a: Seq<bool>, b: Seq<bool>) -> Seq<bool> {
    if signed {
        resized(a, (a.len() + b.len()) as int, true) + resized(
            b,
            (a.len() + b.len()) as int,
            true,
        )
    } else {
        a + b
    }
}

/// The number of inputs, and of outputs, of the multiplier that serves
/// operands of `n` and `m` bits.
pub open spec fn product_fan(signed: bool, n: nat, m: nat) -> nat {
    if signed {
        2 * (n + m)
    } else {
        n + m
    }
}

/// What a multiplication owes, given the parts of the multiplier: the low
/// `n + m` output bits of that circuit on [`product_inputs`], the first `n`
/// as the low half and the other `m` as the high half.
pub open spec fn multiplied(
    before: &FheCircuit,
    after: &FheCircuit,
    parts: crate::mux::PartsView,
    a: Seq<NodeRef>,
    b: Seq<NodeRef>,
    signed: bool,
    r: Result<(Vec<NodeRef>, Vec<NodeRef>), ConstructionError>,
) -> bool {
    let fan = product_fan(signed, a.len(), b.len());
    match circuit_outcome(parts, fan, fan) {
        Some(e) => r is Err && r->Err_0 == e,
        None => if !(within(before, a) && within(before, b)) {
            r is Err && r->Err_0 == ConstructionError::ForeignNode
        } else {
            r matches Ok(halves) && halves.0@.len() == a.len() && halves.1@.len() == b.len()
                && within(after, halves.0@) && within(after, halves.1@) && forall|ins: Seq<nat>| #[trigger]
                bits_at(after, ins, halves.0@ + halves.1@) == nodes_eval(
                    normal_nodes(parts),
                    product_inputs(signed, bits_at(before, ins, a), bits_at(before, ins, b)),
                ).take((a.len() + b.len()) as int)
        },
    }
}

/// Lowers a multiplier circuit onto two integers and returns the low and the
/// high half of the product. On an error the graph is left as it was.
pub fn append_product(
    graph: &mut FheCircuit,
    parts: &CircuitParts,
    a: &[NodeRef],
    b: &[NodeRef],
    signed: bool,
) -> (r: Result<(Vec<NodeRef>, Vec<NodeRef>), ConstructionError>)
    requires
        old(graph).wf(),
        signed ==> a@.len() >= 1 && b@.len() >= 1,
        product_fan(signed, a@.len(), b@.len()) <= usize::MAX,
    ensures
        final(graph).wf(),
        old(graph).adds_gates_to(final(graph)),
        r is Err ==> *final(graph) == *old(graph),
        multiplied(old(graph), final(graph), parts@, a@, b@, signed, r),
{
    proof {
        lemma_grows_refl(graph);
    }
    let n = a.len();
    let m = b.len();
    let w = n + m;
    let fan = if signed {
        2 * w
    } else {
        w
    };
    let net = match MuxNet::build(parts) {
        Err(e) => {
            return Err(e);
        },
        Ok(net) => net,
    };
    if net.num_inputs() != fan || net.num_outputs() != fan {
        return Err(ConstructionError::ArityMismatch);
    }
    if !all_within(graph, a) || !all_within(graph, b) {
        return Err(ConstructionError::ForeignNode);
    }
    let mut operands: Vec<NodeRef> = Vec::new();
    if signed {
        let mut i: usize = 0;
        while i < w
            invariant
                n == a@.len(),
                n >= 1,
                i <= w,
                operands@.len() == i,
                forall|j: int|
                    0 <= j < i ==> #[trigger] operands@[j] == (if j < n {
                        a@[j]
                    } else {
                        a@[n - 1]
                    }),
            decreases w - i,
        {
            operands.push(
                if i < n {
                    a[i]
                } else {
                    a[n - 1]
                },
            );
            i += 1;
        }
        i = 0;
        while i < w
            invariant
                n == a@.len(),
                m == b@.len(),
                m >= 1,
                w == n + m,
                i <= w,
                operands@.len() == w + i,
                forall|j: int|
                    0 <= j < w ==> #[trigger] operands@[j] == (if j < n {
                        a@[j]
                    } else {
                        a@[n - 1]
                    }),
                forall|j: int|
                    0 <= j < i ==> #[trigger] operands@[w + j] == (if j < m {
                        b@[j]
                    } else {
                        b@[m - 1]
                    }),
            decreases w - i,
        {
            operands.push(
                if i < m {
                    b[i]
                } else {
                    b[m - 1]
                },
            );
            i += 1;
        }
    } else {
        let mut i: usize = 0;
        while i < n
            invariant
                n == a@.len(),
                i <= n,
                operands@ == a@.take(i as int),
            decreases n - i,
        {
            operands.push(a[i]);
            i += 1;
            assert(operands@ =~= a@.take(i as int));
        }
        assert(operands@ =~= a@);
        i = 0;
        while i < m
            invariant
                m == b@.len(),
                i <= m,
                operands@ == a@ + b@.take(i as int),
            decreases m - i,
        {
            operands.push(b[i]);
            i += 1;
            assert(operands@ =~= a@ + b@.take(i as int));
        }
        assert(operands@ =~= a@ + b@);
    }
    let ghost g0 = *graph;
    proof {
        assert forall|j: int| 0 <= j < operands@.len() implies (#[trigger] operands@[j]).index
            < graph.nodes().len() by {
            if signed {
                if j < w {
                    if j < n {
                        assert(a@[j].index < graph.nodes().len());
                    } else {
                        assert(a@[n - 1].index < graph.nodes().len());
                    }
                } else {
                    assert(operands@[w + (j - w)] == operands@[j]);
                    if j - w < m {
                        assert(b@[j - w].index < graph.nodes().len());
                    } else {
                        assert(b@[m - 1].index < graph.nodes().len());
                    }
                }
            } else {
                if j < n {
                    assert(a@[j].index < graph.nodes().len());
                } else {
                    assert(b@[j - n].index < graph.nodes().len());
                }
            }
        }
        assert forall|ins: Seq<nat>| #[trigger]
            bits_at(&g0, ins, operands@) == product_inputs(
                signed,
                bits_at(&g0, ins, a@),
                bits_at(&g0, ins, b@),
            ) by {
            let want = product_inputs(signed, bits_at(&g0, ins, a@), bits_at(&g0, ins, b@));
            assert(want.len() == operands@.len());
            assert forall|j: int| 0 <= j < operands@.len() implies bits_at(
                &g0,
                ins,
                operands@,
            )[j] == want[j] by {
                if signed && j >= w {
                    assert(operands@[w + (j - w)] == operands@[j]);
                }
            }
            assert(bits_at(&g0, ins, operands@) =~= want);
        }
    }
    match insert_mux_circuit(graph, &net, operands.as_slice()) {
        Err(e) => {
            // the operands were looked over above, so this cannot be
            assert(false);
            Err(e)
        },
        Ok(outs) => {
            let mut low: Vec<NodeRef> = Vec::new();
            let mut high: Vec<NodeRef> = Vec::new();
            let mut i: usize = 0;
            while i < n
                invariant
                    w == n + m,
                    w <= outs@.len(),
                    i <= n,
                    low@ == outs@.take(i as int),
                decreases n - i,
            {
                low.push(outs[i]);
                i += 1;
                assert(low@ =~= outs@.take(i as int));
            }
            i = 0;
            while i < m
                invariant
                    w == n + m,
                    w <= outs@.len(),
                    i <= m,
                    high@ == outs@.subrange(n as int, n + i),
                decreases m - i,
            {
                high.push(outs[n + i]);
                i += 1;
                assert(high@ =~= outs@.subrange(n as int, n + i));
            }
            proof {
                assert(low@ + high@ =~= outs@.take(w as int));
                assert forall|j: int| 0 <= j < low@.len() implies (#[trigger] low@[j]).index
                    < graph.nodes().len() by {
                    assert(low@[j] == outs@[j]);
                }
                assert forall|j: int| 0 <= j < high@.len() implies (#[trigger] high@[j]).index
                    < graph.nodes().len() by {
                    assert(high@[j] == outs@[n + j]);
                }
                assert forall|ins: Seq<nat>| #[trigger]
                    bits_at(graph, ins, low@ + high@) == nodes_eval(
                        normal_nodes(parts@),
                        product_inputs(signed, bits_at(&g0, ins, a@), bits_at(&g0, ins, b@)),
                    ).take(w as int) by {
                    assert(bits_at(graph, ins, outs@.take(w as int)) =~= bits_at(
                        graph,
                        ins,
                        outs@,
                    ).take(w as int));
                }
            }
            Ok((low, high))
        },
    }
}

} // verus!
