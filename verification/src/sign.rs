//! The sign policy of an encrypted integer.
//!
//! Whether an integer is signed is no stored data. It is a type, [`Signed`] or
//! [`Unsigned`], that decides how the integer is resized, compared and
//! multiplied.

use crate::circuits::{append_product, multiplied};
use crate::graph::{ConstructionError, FheCircuit, NodeRef};
use crate::mux::{
    builds, comparator_width, multiplier, multiplier_fits, multiplier_parts, multiplier_widths,
    signed_comparator, signed_comparator_parts, unsigned_comparator, unsigned_comparator_parts,
    MuxNet, PartsView,
};
use vstd::prelude::*;

verus! {

/// How many of the low bits a resize keeps, how many bits it then appends, and
/// whether the appended bits repeat the sign bit (else they are zero).
///
/// An unsigned integer keeps its low `min(old, new)` bits and is padded with
/// `max(0, new - old)` zeros. A signed integer keeps one bit less, which leaves
/// room for the sign, and appends one bit more, which puts the sign back on
/// top.
pub open spec fn resize_plan(signed: bool, old_size: int, new_size: int) -> (int, int, bool) {
    let keep = if new_size < old_size {
        new_size
    } else {
        old_size
    };
    let extend = if new_size > old_size {
        new_size - old_size
    } else {
        0
    };
    if signed {
        (keep - 1, extend + 1, true)
    } else {
        (keep, extend, false)
    }
}

/// A sign policy.
pub trait Sign {
    /// Whether integers of this policy are in two's complement.
    spec fn signed() -> bool;

    /// The parts of the comparator that `mux_circuits` builds for this policy.
    spec fn comparator(n: usize, greater: bool, or_equal: bool) -> PartsView;

    /// Whether `mux_circuits` has the multiplier that this policy needs for
    /// operands of `n` and `m` bits.
    spec fn multiply_widths(n: nat, m: nat) -> bool;

    /// The parts of the multiplier that this policy uses for operands of `n`
    /// and `m` bits.
    spec fn multiplier_for(n: nat, m: nat) -> PartsView;

    /// Whether this policy can multiply operands of `n` and `m` bits.
    fn can_multiply(n: usize, m: usize) -> (ok: bool)
        ensures
            ok == Self::multiply_widths(n as nat, m as nat),
            ok && Self::signed() ==> n >= 1 && m >= 1,
    ;

    /// The comparator of two integers of `max_len` bits: whether the first is
    /// greater (`gt`) or smaller (else) than the second, or also equal where
    /// `eq` is set. It takes the bits of both in turn, low bits first.
    fn gen_compare_circuit(max_len: usize, gt: bool, eq: bool) -> (r: Result<
        MuxNet,
        ConstructionError,
    >)
        requires
            comparator_width(max_len),
        ensures
            builds(Self::comparator(max_len, gt, eq), r),
    ;

    /// Appends the product of two integers to the graph and returns its low
    /// half, as wide as `a`, and its high half, as wide as `b`.
    fn append_multiply(graph: &mut FheCircuit, a: &[NodeRef], b: &[NodeRef]) -> (r: Result<
        (Vec<NodeRef>, Vec<NodeRef>),
        ConstructionError,
    >)
        requires
            old(graph).wf(),
            Self::multiply_widths(a@.len(), b@.len()),
        ensures
            final(graph).wf(),
            old(graph).adds_gates_to(final(graph)),
            r is Err ==> *final(graph) == *old(graph),
            multiplied(
                old(graph),
                final(graph),
                Self::multiplier_for(a@.len(), b@.len()),
                a@,
                b@,
                Self::signed(),
                r,
            ),
    ;

    /// The plan for a resize from `old_size` to `new_size` bits.
    ///
    /// A signed integer has a sign bit, so neither width may be zero.
    fn resize_config(old_size: usize, new_size: usize) -> (r: (usize, usize, bool))
        requires
            Self::signed() ==> old_size >= 1 && new_size >= 1,
        ensures
            r.0 == resize_plan(Self::signed(), old_size as int, new_size as int).0,
            r.1 == resize_plan(Self::signed(), old_size as int, new_size as int).1,
            r.2 == Self::signed(),
    ;
}

/// Marks an integer as signed.
#[derive(Clone, Copy)]
pub struct Signed;

/// Marks an integer as unsigned.
#[derive(Clone, Copy)]
pub struct Unsigned;

proof fn lemma_widths_small(n: usize, m: usize)
    requires
        multiplier_widths(n, m),
    ensures
        n <= 32766,
        m <= 32766,
{
    if !(n == m && (n == 8 || n == 16 || n == 32)) {
        assert(n <= 32766 && m <= 32766) by (nonlinear_arith)
            requires
                n >= 1,
                m >= 1,
                2 * n * m < 65534,
        ;
    }
}

impl Sign for Signed {
    open spec fn signed() -> bool {
        true
    }

    open spec fn comparator(n: usize, greater: bool, or_equal: bool) -> PartsView {
        signed_comparator(n, greater, or_equal)
    }

    /// The operands are extended with their signs to the width of the
    /// product, so the multiplier is square and that wide.
    open spec fn multiply_widths(n: nat, m: nat) -> bool {
        n >= 1 && m >= 1 && n + m <= usize::MAX && multiplier_widths(
            (n + m) as usize,
            (n + m) as usize,
        )
    }

    open spec fn multiplier_for(n: nat, m: nat) -> PartsView {
        multiplier((n + m) as usize, (n + m) as usize)
    }

    fn can_multiply(n: usize, m: usize) -> (ok: bool) {
        n >= 1 && m >= 1 && n <= usize::MAX - m && multiplier_fits(n + m, n + m)
    }

    fn gen_compare_circuit(max_len: usize, gt: bool, eq: bool) -> (r: Result<
        MuxNet,
        ConstructionError,
    >) {
        let parts = signed_comparator_parts(max_len, gt, eq);
        MuxNet::build(&parts)
    }

    fn append_multiply(graph: &mut FheCircuit, a: &[NodeRef], b: &[NodeRef]) -> (r: Result<
        (Vec<NodeRef>, Vec<NodeRef>),
        ConstructionError,
    >) {
        let w = a.len() + b.len();
        proof {
            lemma_widths_small(w, w);
        }
        let parts = multiplier_parts(w, w);
        append_product(graph, &parts, a, b, true)
    }

    fn resize_config(old_size: usize, new_size: usize) -> (r: (usize, usize, bool)) {
        (
            // the low bits without the place of the sign
            new_size.min(old_size) - 1,
            // the growth, and the sign on top
            new_size.saturating_sub(old_size) + 1,
            true,
        )
    }
}

impl Sign for Unsigned {
    open spec fn signed() -> bool {
        false
    }

    open spec fn comparator(n: usize, greater: bool, or_equal: bool) -> PartsView {
        unsigned_comparator(n, greater, or_equal)
    }

    open spec fn multiply_widths(n: nat, m: nat) -> bool {
        n <= usize::MAX && m <= usize::MAX && multiplier_widths(n as usize, m as usize)
    }

    open spec fn multiplier_for(n: nat, m: nat) -> PartsView {
        multiplier(n as usize, m as usize)
    }

    fn can_multiply(n: usize, m: usize) -> (ok: bool) {
        multiplier_fits(n, m)
    }

    fn gen_compare_circuit(max_len: usize, gt: bool, eq: bool) -> (r: Result<
        MuxNet,
        ConstructionError,
    >) {
        let parts = unsigned_comparator_parts(max_len, gt, eq);
        MuxNet::build(&parts)
    }

    fn append_multiply(graph: &mut FheCircuit, a: &[NodeRef], b: &[NodeRef]) -> (r: Result<
        (Vec<NodeRef>, Vec<NodeRef>),
        ConstructionError,
    >) {
        proof {
            lemma_widths_small(a.len(), b.len());
        }
        let parts = multiplier_parts(a.len(), b.len());
        append_product(graph, &parts, a, b, false)
    }

    fn resize_config(old_size: usize, new_size: usize) -> (r: (usize, usize, bool)) {
        (new_size.min(old_size), new_size.saturating_sub(old_size), false)
    }
}

} // verus!
