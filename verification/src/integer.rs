//! Encrypted integers and the integers of a graph under construction.
//!
//! An encrypted integer is either unpacked, one ciphertext per bit, or packed,
//! all bits in one ciphertext. Its width is fixed by the type
//! ([`GenericInt`], [`PackedGenericInt`]) or carried at run time
//! ([`DynamicGenericInt`], [`PackedDynamicGenericInt`]); the fixed-width types
//! are the dynamic ones with the width pinned. Bound to the inputs of a
//! graph, an integer becomes a handful of node references, on which the
//! operations of [`crate::circuits`] are offered as methods.

use crate::backend::Backend;
use crate::bits::{
    bits_of, bits_value, from_bits, lemma_value_bound, lemma_value_of_bits, lemma_value_take,
    signed_value, to_bits,
};
use crate::circuits::{
    all_within, append_add, append_compare, append_pack, append_resize, append_sub,
    append_unpack, bits_at, comparable, compared, number_at, product_fan, product_inputs,
    resized, within, CircuitError, WidthError,
};
use crate::graph::{
    lemma_grows_keeps, lemma_grows_refl, lemma_grows_trans, low_bit, outputs_ok,
    ConstructionError, FheCircuit, Node, NodeRef,
};
use crate::mux::{circuit_outcome, nodes_eval, normal_nodes};
use crate::serial::{frame, parse, read_frame, strings, write_frame, DeserializeError};
use crate::sign::{Sign, Signed, Unsigned};
use std::marker::PhantomData;
use vstd::arithmetic::div_mod::*;
use vstd::arithmetic::power2::*;
use vstd::bytes::*;
use vstd::prelude::*;

verus! {

/// A graph under construction together with the ciphertexts bound to its
/// input slots.
pub struct FheCircuitCtx<C> {
    pub circuit: FheCircuit,
    pub inputs: Vec<C>,
}

impl<C> FheCircuitCtx<C> {
    /// The invariant of a context: the graph is well formed and every slot
    /// has its ciphertext.
    pub open spec fn wf(&self) -> bool {
        self.circuit.wf() && self.inputs@.len() == self.circuit.slots()
    }

    /// Whether `later` is this context after more gates were added: the
    /// graph grew and the bound inputs are the same.
    pub open spec fn extends_to(&self, later: &Self) -> bool {
        later.wf() && self.circuit.adds_gates_to(&later.circuit) && later.inputs == self.inputs
    }

    /// An empty context.
    pub fn new() -> (ctx: FheCircuitCtx<C>)
        ensures
            ctx.wf(),
            ctx.circuit.nodes().len() == 0,
            ctx.inputs@.len() == 0,
    {
        FheCircuitCtx { circuit: FheCircuit::new(), inputs: Vec::new() }
    }

    /// Binds `ct` to a new input slot and returns the node that reads it.
    pub fn bind(&mut self, ct: C) -> (r: NodeRef)
        requires
            old(self).wf(),
            old(self).circuit.slots() < usize::MAX,
        ensures
            final(self).wf(),
            old(self).circuit.grows_to(&final(self).circuit),
            final(self).inputs@ == old(self).inputs@.push(ct),
            r.index == old(self).circuit.nodes().len(),
            final(self).circuit.nodes().len() == old(self).circuit.nodes().len() + 1,
            forall|ins: Seq<nat>| #[trigger]
                final(self).circuit.value(ins, r) == (if old(self).inputs@.len() < ins.len() {
                    ins[old(self).inputs@.len() as int]
                } else {
                    0
                }),
    {
        let r = self.circuit.add_input();
        self.inputs.push(ct);
        r
    }
}

/// How a value is encrypted.
#[derive(Clone, Copy, Debug, PartialEq, Eq, Structural)]
enum Mode {
    Public,
    Secret,
    Trivial,
}

fn seal<B: Backend>(bits: &Vec<bool>, backend: &B, mode: Mode) -> (ct: B::Ciphertext)
    ensures
        backend.plain(&ct) == bits_value(bits@),
{
    match mode {
        Mode::Public => backend.encrypt(bits),
        Mode::Secret => backend.encrypt_secret(bits),
        Mode::Trivial => backend.trivial_encrypt(bits),
    }
}

/// The lowest digit of the plain value of each ciphertext.
pub open spec fn plain_bits<B: Backend>(backend: &B, cts: Seq<B::Ciphertext>) -> Seq<bool> {
    Seq::new(cts.len(), |i: int| low_bit(backend.plain(&cts[i])))
}

fn seal_each<B: Backend>(value: u64, backend: &B, width: usize, mode: Mode) -> (cts: Vec<
    B::Ciphertext,
>)
    ensures
        cts@.len() == width,
        plain_bits(backend, cts@) == bits_of(value as nat, width as nat),
{
    let bits = to_bits(value, width);
    let mut cts: Vec<B::Ciphertext> = Vec::new();
    let mut i: usize = 0;
    while i < width
        invariant
            bits@ == bits_of(value as nat, width as nat),
            i <= width,
            cts@.len() == i,
            forall|j: int| 0 <= j < i ==> low_bit(backend.plain(&#[trigger] cts@[j])) == bits@[j],
        decreases width - i,
    {
        let mut one: Vec<bool> = Vec::new();
        one.push(bits[i]);
        proof {
            lemma2_to64();
            assert(one@.drop_last() =~= Seq::<bool>::empty());
            assert(bits_value(one@.drop_last()) == 0);
        }
        cts.push(seal(&one, backend, mode));
        i += 1;
    }
    assert(plain_bits(backend, cts@) =~= bits_of(value as nat, width as nat));
    cts
}

fn open_each<B: Backend>(cts: &Vec<B::Ciphertext>, backend: &B) -> (bits: Vec<bool>)
    ensures
        bits@ == plain_bits(backend, cts@),
{
    let mut bits: Vec<bool> = Vec::new();
    let mut i: usize = 0;
    while i < cts.len()
        invariant
            i <= cts@.len(),
            bits@ == plain_bits(backend, cts@).take(i as int),
        decreases cts@.len() - i,
    {
        let one = backend.decrypt(&cts[i], 1);
        proof {
            lemma2_to64();
            assert(one@[0] == low_bit(backend.plain(&cts@[i as int])));
        }
        bits.push(one[0]);
        i += 1;
        assert(bits@ =~= plain_bits(backend, cts@).take(i as int));
    }
    assert(bits@ =~= plain_bits(backend, cts@));
    bits
}

/// Reading up to 64 bits of a number below `2^n` gives the number modulo
/// `2^64`.
proof fn lemma_read_back(bits: Seq<bool>)
    ensures
        bits_value(
            bits.take(
                if bits.len() < 64 {
                    bits.len() as int
                } else {
                    64
                },
            ),
        ) == bits_value(bits) % pow2(64),
{
    lemma_value_bound(bits);
    if bits.len() < 64 {
        assert(bits.take(bits.len() as int) =~= bits);
        lemma_pow2_strictly_increases(bits.len(), 64);
        lemma_small_mod(bits_value(bits), pow2(64));
    } else {
        lemma_value_take(bits, 64);
    }
}

/// The number that a bit pattern stands for under a sign policy: in two's
/// complement where the policy is signed.
pub open spec fn reading(signed: bool, bits: Seq<bool>) -> int {
    if signed {
        signed_value(bits)
    } else {
        bits_value(bits) as int
    }
}

fn power_of_two(n: usize) -> (p: u128)
    requires
        n <= 64,
    ensures
        p == pow2(n as nat),
{
    let mut p: u128 = 1;
    let mut i: usize = 0;
    proof {
        lemma2_to64();
    }
    while i < n
        invariant
            i <= n <= 64,
            p == pow2(i as nat),
        decreases n - i,
    {
        proof {
            lemma2_to64();
            lemma_pow2_unfold((i + 1) as nat);
            lemma_pow2_strictly_increases(i as nat, 64);
        }
        p = p * 2;
        i += 1;
    }
    p
}

fn interpret<U: Sign>(bits: &Vec<bool>) -> (value: Option<i128>)
    ensures
        bits@.len() > 64 ==> value is None,
        bits@.len() <= 64 ==> (value matches Some(v) && v == reading(U::signed(), bits@)),
{
    let n = bits.len();
    if n > 64 {
        return None;
    }
    let pattern = from_bits(bits);
    proof {
        assert(bits@.take(n as int) =~= bits@);
        lemma_value_bound(bits@);
        lemma2_to64();
        if n < 64 {
            lemma_pow2_strictly_increases(n as nat, 64);
        }
    }
    let (_, _, signed) = U::resize_config(1, 1);
    if signed && n > 0 && bits[n - 1] {
        Some(pattern as i128 - power_of_two(n) as i128)
    } else {
        Some(pattern as i128)
    }
}

/// An unpacked encrypted integer whose width is known at run time.
pub struct DynamicGenericInt<B: Backend, U: Sign> {
    bits: Vec<B::Ciphertext>,
    sign: PhantomData<U>,
}

impl<B: Backend, U: Sign> DynamicGenericInt<B, U> {
    /// The ciphertexts, least significant bit first.
    pub closed spec fn cts(&self) -> Seq<B::Ciphertext> {
        self.bits@
    }

    /// The number of bits.
    pub open spec fn spec_width(&self) -> nat {
        self.cts().len()
    }

    /// The bit pattern under the keys of `backend`, as a number.
    pub open spec fn plain(&self, backend: &B) -> nat {
        bits_value(plain_bits(backend, self.cts()))
    }

    /// The number of bits.
    pub fn width(&self) -> (w: usize)
        ensures
            w == self.spec_width(),
    {
        self.bits.len()
    }

    /// Encrypts the lowest `width` bits of `value` under the public key.
    pub fn encrypt(value: u64, backend: &B, width: usize) -> (r: Self)
        ensures
            r.spec_width() == width,
            plain_bits(backend, r.cts()) == bits_of(value as nat, width as nat),
            r.plain(backend) == value as nat % pow2(width as nat),
    {
        proof {
            lemma_value_of_bits(value as nat, width as nat);
        }
        DynamicGenericInt { bits: seal_each(value, backend, width, Mode::Public), sign: PhantomData }
    }

    /// Encrypts the lowest `width` bits of `value` under the secret key.
    pub fn encrypt_secret(value: u64, backend: &B, width: usize) -> (r: Self)
        ensures
            r.spec_width() == width,
            plain_bits(backend, r.cts()) == bits_of(value as nat, width as nat),
            r.plain(backend) == value as nat % pow2(width as nat),
    {
        proof {
            lemma_value_of_bits(value as nat, width as nat);
        }
        DynamicGenericInt { bits: seal_each(value, backend, width, Mode::Secret), sign: PhantomData }
    }

    /// Wraps the lowest `width` bits of a public `value`, without any key.
    pub fn trivial_encrypt(value: u64, backend: &B, width: usize) -> (r: Self)
        ensures
            r.spec_width() == width,
            plain_bits(backend, r.cts()) == bits_of(value as nat, width as nat),
            r.plain(backend) == value as nat % pow2(width as nat),
    {
        proof {
            lemma_value_of_bits(value as nat, width as nat);
        }
        DynamicGenericInt {
            bits: seal_each(value, backend, width, Mode::Trivial),
            sign: PhantomData,
        }
    }

    /// Decrypts to the bit pattern as a number; of an integer wider than 64
    /// bits, to its lowest 64 bits.
    pub fn decrypt(&self, backend: &B) -> (value: u64)
        ensures
            value as nat == self.plain(backend) % pow2(64),
    {
        let bits = open_each(&self.bits, backend);
        proof {
            lemma_read_back(bits@);
        }
        from_bits(&bits)
    }

    /// Decrypts to the number that the integer stands for under its sign
    /// policy. `None` where the integer is wider than 64 bits.
    pub fn decrypt_value(&self, backend: &B) -> (value: Option<i128>)
        ensures
            self.spec_width() > 64 ==> value is None,
            self.spec_width() <= 64 ==> (value matches Some(v) && v == reading(
                U::signed(),
                plain_bits(backend, self.cts()),
            )),
    {
        let bits = open_each(&self.bits, backend);
        interpret::<U>(&bits)
    }

    /// Binds the integer to new inputs of the graph, one per bit.
    pub fn graph_inputs(&self, ctx: &mut FheCircuitCtx<B::Ciphertext>, backend: &B) -> (r:
        DynamicGenericIntGraphNodes<U>)
        requires
            old(ctx).wf(),
            old(ctx).circuit.slots() + self.spec_width() <= usize::MAX,
        ensures
            final(ctx).wf(),
            old(ctx).circuit.grows_to(&final(ctx).circuit),
            old(ctx).inputs@.is_prefix_of(final(ctx).inputs@),
            final(ctx).inputs@.len() == old(ctx).inputs@.len() + self.spec_width(),
            r.refs().len() == self.spec_width(),
            crate::circuits::within(&final(ctx).circuit, r.refs()),
            crate::circuits::bits_at(
                &final(ctx).circuit,
                crate::engine::plain_inputs(backend, final(ctx).inputs@),
                r.refs(),
            ) == plain_bits(backend, self.cts()),
    {
        let ghost c0 = *ctx;
        let mut refs: Vec<NodeRef> = Vec::new();
        let mut i: usize = 0;
        proof {
            crate::graph::lemma_grows_refl(&c0.circuit);
        }
        while i < self.bits.len()
            invariant
                ctx.wf(),
                c0.wf(),
                c0.circuit.grows_to(&ctx.circuit),
                c0.circuit.slots() + self.bits@.len() <= usize::MAX,
                ctx.circuit.slots() == c0.circuit.slots() + i,
                c0.inputs@.is_prefix_of(ctx.inputs@),
                i <= self.bits@.len(),
                refs@.len() == i,
                crate::circuits::within(&ctx.circuit, refs@),
                forall|j: int|
                    0 <= j < i ==> backend.plain(&#[trigger] ctx.inputs@[c0.inputs@.len() + j])
                        == backend.plain(&self.bits@[j]),
                forall|ins: Seq<nat>, j: int|
                    0 <= j < i ==> #[trigger] ctx.circuit.value(ins, refs@[j]) == (if c0.inputs@.len()
                        + j < ins.len() {
                        ins[c0.inputs@.len() + j]
                    } else {
                        0
                    }),
            decreases self.bits@.len() - i,
        {
            let ghost c1 = *ctx;
            let ghost prev = refs@;
            let copy = backend.duplicate(&self.bits[i]);
            let r = ctx.bind(copy);
            refs.push(r);
            proof {
                crate::graph::lemma_grows_trans(&c0.circuit, &c1.circuit, &ctx.circuit);
                assert forall|j: int| 0 <= j < refs@.len() implies (#[trigger] refs@[j]).index
                    < ctx.circuit.nodes().len() by {
                    if j < prev.len() {
                        assert(prev[j].index < c1.circuit.nodes().len());
                    }
                }
                assert forall|j: int| 0 <= j < i + 1 implies backend.plain(
                    &#[trigger] ctx.inputs@[c0.inputs@.len() + j],
                ) == backend.plain(&self.bits@[j]) by {
                    if j < i {
                        assert(ctx.inputs@[c0.inputs@.len() + j] == c1.inputs@[c0.inputs@.len()
                            + j]);
                    }
                }
                assert forall|ins: Seq<nat>, j: int| 0 <= j < i + 1 implies #[trigger] ctx.circuit.value(
                    ins,
                    refs@[j],
                ) == (if c0.inputs@.len() + j < ins.len() {
                    ins[c0.inputs@.len() + j]
                } else {
                    0
                }) by {
                    if j < i {
                        assert(refs@[j] == prev[j]);
                        crate::graph::lemma_grows_keeps(&c1.circuit, &ctx.circuit, ins, prev[j]);
                    }
                }
            }
            i += 1;
        }
        proof {
            let ins = crate::engine::plain_inputs(backend, ctx.inputs@);
            assert forall|j: int| 0 <= j < refs@.len() implies crate::circuits::bits_at(
                &ctx.circuit,
                ins,
                refs@,
            )[j] == plain_bits(backend, self.bits@)[j] by {
                assert(ctx.circuit.value(ins, refs@[j]) == ins[c0.inputs@.len() + j]);
                assert(ins[c0.inputs@.len() + j] == backend.plain(
                    &ctx.inputs@[c0.inputs@.len() + j],
                ));
            }
            assert(crate::circuits::bits_at(&ctx.circuit, ins, refs@) =~= plain_bits(
                backend,
                self.bits@,
            ));
        }
        DynamicGenericIntGraphNodes { bits: refs, sign: PhantomData }
    }
}

/// An unpacked integer of a graph: one node per bit, least significant first.
pub struct DynamicGenericIntGraphNodes<U: Sign> {
    bits: Vec<NodeRef>,
    sign: PhantomData<U>,
}

impl<U: Sign> DynamicGenericIntGraphNodes<U> {
    /// The nodes, least significant bit first.
    pub closed spec fn refs(&self) -> Seq<NodeRef> {
        self.bits@
    }

    /// The number of bits.
    pub fn width(&self) -> (w: usize)
        ensures
            w == self.refs().len(),
    {
        self.bits.len()
    }

    /// The nodes, least significant bit first.
    pub fn nodes(&self) -> (bits: &Vec<NodeRef>)
        ensures
            bits@ == self.refs(),
    {
        &self.bits
    }

    /// An integer made of the given nodes.
    pub fn from_nodes(bits: Vec<NodeRef>) -> (r: Self)
        ensures
            r.refs() == bits@,
    {
        DynamicGenericIntGraphNodes { bits, sign: PhantomData }
    }

    /// The sum of two integers of one width, which wraps around.
    ///
    /// Operands of unequal width are a width error; an operand that names no
    /// node of the graph is a construction error. The width is looked at
    /// first. On an error the graph is left as it was.
    pub fn add<C>(&self, other: &Self, ctx: &mut FheCircuitCtx<C>) -> (r: Result<
        Self,
        CircuitError,
    >)
        requires
            old(ctx).wf(),
        ensures
            old(ctx).extends_to(final(ctx)),
            r is Err ==> final(ctx).circuit == old(ctx).circuit,
            self.refs().len() != other.refs().len() ==> r is Err && r->Err_0 == CircuitError::Width(
                WidthError::Unequal,
            ),
            self.refs().len() == other.refs().len() && !(within(&old(ctx).circuit, self.refs())
                && within(&old(ctx).circuit, other.refs())) ==> r is Err && r->Err_0
                == CircuitError::Construction(ConstructionError::ForeignNode),
            self.refs().len() == other.refs().len() && within(&old(ctx).circuit, self.refs())
                && within(&old(ctx).circuit, other.refs()) ==> (r matches Ok(sum)
                && sum.refs().len() == self.refs().len() && within(
                &final(ctx).circuit,
                sum.refs(),
            ) && forall|ins: Seq<nat>| #[trigger]
                number_at(&final(ctx).circuit, ins, sum.refs()) == (number_at(
                    &old(ctx).circuit,
                    ins,
                    self.refs(),
                ) + number_at(&old(ctx).circuit, ins, other.refs())) % pow2(self.refs().len())),
    {
        proof {
            lemma_grows_refl(&ctx.circuit);
        }
        if self.bits.len() != other.bits.len() {
            return Err(CircuitError::Width(WidthError::Unequal));
        }
        if !all_within(&ctx.circuit, self.bits.as_slice()) || !all_within(
            &ctx.circuit,
            other.bits.as_slice(),
        ) {
            return Err(CircuitError::Construction(ConstructionError::ForeignNode));
        }
        let bits = append_add(&mut ctx.circuit, &self.bits, &other.bits);
        Ok(DynamicGenericIntGraphNodes { bits, sign: PhantomData })
    }

    /// The difference of two integers of one width, which wraps around.
    ///
    /// Errors as for [`DynamicGenericIntGraphNodes::add`].
    pub fn sub<C>(&self, other: &Self, ctx: &mut FheCircuitCtx<C>) -> (r: Result<
        Self,
        CircuitError,
    >)
        requires
            old(ctx).wf(),
        ensures
            old(ctx).extends_to(final(ctx)),
            r is Err ==> final(ctx).circuit == old(ctx).circuit,
            self.refs().len() != other.refs().len() ==> r is Err && r->Err_0 == CircuitError::Width(
                WidthError::Unequal,
            ),
            self.refs().len() == other.refs().len() && !(within(&old(ctx).circuit, self.refs())
                && within(&old(ctx).circuit, other.refs())) ==> r is Err && r->Err_0
                == CircuitError::Construction(ConstructionError::ForeignNode),
            self.refs().len() == other.refs().len() && within(&old(ctx).circuit, self.refs())
                && within(&old(ctx).circuit, other.refs()) ==> (r matches Ok(diff)
                && diff.refs().len() == self.refs().len() && within(
                &final(ctx).circuit,
                diff.refs(),
            ) && forall|ins: Seq<nat>| #[trigger]
                number_at(&final(ctx).circuit, ins, diff.refs()) as int == (number_at(
                    &old(ctx).circuit,
                    ins,
                    self.refs(),
                ) - number_at(&old(ctx).circuit, ins, other.refs())) % (pow2(
                    self.refs().len(),
                ) as int)),
    {
        proof {
            lemma_grows_refl(&ctx.circuit);
        }
        if self.bits.len() != other.bits.len() {
            return Err(CircuitError::Width(WidthError::Unequal));
        }
        if !all_within(&ctx.circuit, self.bits.as_slice()) || !all_within(
            &ctx.circuit,
            other.bits.as_slice(),
        ) {
            return Err(CircuitError::Construction(ConstructionError::ForeignNode));
        }
        let bits = append_sub(&mut ctx.circuit, &self.bits, &other.bits);
        Ok(DynamicGenericIntGraphNodes { bits, sign: PhantomData })
    }

    /// The integer resized to `new_width` bits under its sign policy.
    ///
    /// A signed integer cannot be resized from or to no bits at all, which is
    /// a width error; an operand that names no node of the graph is a
    /// construction error. On an error the graph is left as it was.
    pub fn resize<C>(&self, ctx: &mut FheCircuitCtx<C>, new_width: usize) -> (r: Result<
        Self,
        CircuitError,
    >)
        requires
            old(ctx).wf(),
        ensures
            old(ctx).extends_to(final(ctx)),
            r is Err ==> final(ctx).circuit == old(ctx).circuit,
            U::signed() && (self.refs().len() == 0 || new_width == 0) ==> r is Err && r->Err_0
                == CircuitError::Width(WidthError::Unsupported),
            !(U::signed() && (self.refs().len() == 0 || new_width == 0)) && !within(
                &old(ctx).circuit,
                self.refs(),
            ) ==> r is Err && r->Err_0 == CircuitError::Construction(
                ConstructionError::ForeignNode,
            ),
            !(U::signed() && (self.refs().len() == 0 || new_width == 0)) && within(
                &old(ctx).circuit,
                self.refs(),
            ) ==> (r matches Ok(out) && out.refs().len() == new_width && within(
                &final(ctx).circuit,
                out.refs(),
            ) && forall|ins: Seq<nat>| #[trigger]
                bits_at(&final(ctx).circuit, ins, out.refs()) == resized(
                    bits_at(&old(ctx).circuit, ins, self.refs()),
                    new_width as int,
                    U::signed(),
                )),
    {
        proof {
            lemma_grows_refl(&ctx.circuit);
        }
        let (_, _, signed) = U::resize_config(1, 1);
        if signed && (self.bits.len() == 0 || new_width == 0) {
            return Err(CircuitError::Width(WidthError::Unsupported));
        }
        if !all_within(&ctx.circuit, self.bits.as_slice()) {
            return Err(CircuitError::Construction(ConstructionError::ForeignNode));
        }
        let bits = append_resize::<U>(&mut ctx.circuit, &self.bits, new_width);
        Ok(DynamicGenericIntGraphNodes { bits, sign: PhantomData })
    }

    /// One bit that says how this integer compares with `other`: whether it
    /// is greater (`greater`) or smaller (else), or also equal where
    /// `or_equal` is set. See [`append_compare`].
    pub fn compare<C>(
        &self,
        other: &Self,
        ctx: &mut FheCircuitCtx<C>,
        greater: bool,
        or_equal: bool,
    ) -> (r: Result<NodeRef, CircuitError>)
        requires
            old(ctx).wf(),
        ensures
            old(ctx).extends_to(final(ctx)),
            r is Err ==> final(ctx).circuit == old(ctx).circuit,
            !comparable(self.refs().len(), other.refs().len()) ==> r is Err && r->Err_0
                == CircuitError::Width(WidthError::Unsupported),
            comparable(self.refs().len(), other.refs().len()) ==> compared(
                &old(ctx).circuit,
                &final(ctx).circuit,
                U::comparator(
                    if self.refs().len() < other.refs().len() {
                        other.refs().len() as usize
                    } else {
                        self.refs().len() as usize
                    },
                    greater,
                    or_equal,
                ),
                self.refs(),
                other.refs(),
                U::signed(),
                r,
            ),
    {
        append_compare::<U>(&mut ctx.circuit, &self.bits, &other.bits, greater, or_equal)
    }

    /// What [`DynamicGenericIntGraphNodes::mul`] owes where the widths fit,
    /// given the parts of the multiplier: the product bits of that circuit,
    /// resized to the width asked for.
    pub open spec fn product(
        before: &FheCircuit,
        after: &FheCircuit,
        parts: crate::mux::PartsView,
        a: Seq<NodeRef>,
        b: Seq<NodeRef>,
        result_width: usize,
        r: Result<Self, CircuitError>,
    ) -> bool {
        let fan = product_fan(U::signed(), a.len(), b.len());
        match circuit_outcome(parts, fan, fan) {
            Some(e) => r is Err && r->Err_0 == CircuitError::Construction(e),
            None => if !(within(before, a) && within(before, b)) {
                r is Err && r->Err_0 == CircuitError::Construction(ConstructionError::ForeignNode)
            } else {
                r matches Ok(out) && out.refs().len() == result_width && within(after, out.refs())
                    && forall|ins: Seq<nat>| #[trigger]
                    bits_at(after, ins, out.refs()) == resized(
                        nodes_eval(
                            normal_nodes(parts),
                            product_inputs(U::signed(), bits_at(before, ins, a), bits_at(
                                before,
                                ins,
                                b,
                            )),
                        ).take((a.len() + b.len()) as int),
                        result_width as int,
                        U::signed(),
                    )
            },
        }
    }

    /// The product of two integers, resized to `result_width` bits under the
    /// sign policy.
    ///
    /// The multiplier comes from `mux_circuits`; what it computes is known
    /// here only as the value of that circuit. Widths for which there is no
    /// multiplier, and a signed result of no bits, are a width error. On an
    /// error the graph is left as it was.
    pub fn mul<C>(&self, other: &Self, ctx: &mut FheCircuitCtx<C>, result_width: usize) -> (r:
        Result<Self, CircuitError>)
        requires
            old(ctx).wf(),
        ensures
            old(ctx).extends_to(final(ctx)),
            r is Err ==> final(ctx).circuit == old(ctx).circuit,
            !U::multiply_widths(self.refs().len(), other.refs().len()) || (U::signed()
                && result_width == 0) ==> r is Err && r->Err_0 == CircuitError::Width(
                WidthError::Unsupported,
            ),
            U::multiply_widths(self.refs().len(), other.refs().len()) && !(U::signed()
                && result_width == 0) ==> Self::product(
                &old(ctx).circuit,
                &final(ctx).circuit,
                U::multiplier_for(self.refs().len(), other.refs().len()),
                self.refs(),
                other.refs(),
                result_width,
                r,
            ),
    {
        proof {
            lemma_grows_refl(&ctx.circuit);
        }
        let (_, _, signed) = U::resize_config(1, 1);
        if !U::can_multiply(self.bits.len(), other.bits.len()) || (signed && result_width == 0) {
            return Err(CircuitError::Width(WidthError::Unsupported));
        }
        let ghost c0 = *ctx;
        match U::append_multiply(&mut ctx.circuit, self.bits.as_slice(), other.bits.as_slice()) {
            Err(e) => Err(CircuitError::Construction(e)),
            Ok((low, high)) => {
                let ghost c1 = *ctx;
                let mut product: Vec<NodeRef> = low;
                let ghost lows = product@;
                let mut i: usize = 0;
                while i < high.len()
                    invariant
                        i <= high@.len(),
                        product@ == lows + high@.take(i as int),
                    decreases high@.len() - i,
                {
                    product.push(high[i]);
                    i += 1;
                    assert(product@ =~= lows + high@.take(i as int));
                }
                proof {
                    assert(high@.take(high@.len() as int) =~= high@);
                    assert forall|j: int| 0 <= j < product@.len() implies (
                    #[trigger] product@[j]).index < ctx.circuit.nodes().len() by {
                        if j < lows.len() {
                            assert(lows[j].index < ctx.circuit.nodes().len());
                        } else {
                            assert(high@[j - lows.len()].index < ctx.circuit.nodes().len());
                        }
                    }
                    if signed {
                        assert(product@.len() >= 1);
                    }
                }
                let bits = append_resize::<U>(&mut ctx.circuit, &product, result_width);
                proof {
                    lemma_grows_trans(&c0.circuit, &c1.circuit, &ctx.circuit);
                }
                Ok(DynamicGenericIntGraphNodes { bits, sign: PhantomData })
            },
        }
    }

    /// Folds the integer into one packed node.
    pub fn pack<C>(&self, ctx: &mut FheCircuitCtx<C>) -> (r: Result<
        PackedDynamicGenericIntGraphNode<U>,
        CircuitError,
    >)
        requires
            old(ctx).wf(),
        ensures
            old(ctx).extends_to(final(ctx)),
            r is Err ==> final(ctx).circuit == old(ctx).circuit,
            !within(&old(ctx).circuit, self.refs()) ==> r is Err && r->Err_0
                == CircuitError::Construction(ConstructionError::ForeignNode),
            within(&old(ctx).circuit, self.refs()) ==> (r matches Ok(packed) && packed.spec_width()
                == self.refs().len() && packed.node().index < final(ctx).circuit.nodes().len()
                && forall|ins: Seq<nat>| #[trigger]
                final(ctx).circuit.value(ins, packed.node()) == number_at(
                    &old(ctx).circuit,
                    ins,
                    self.refs(),
                )),
    {
        proof {
            lemma_grows_refl(&ctx.circuit);
        }
        if !all_within(&ctx.circuit, self.bits.as_slice()) {
            return Err(CircuitError::Construction(ConstructionError::ForeignNode));
        }
        let node = append_pack(&mut ctx.circuit, &self.bits);
        Ok(PackedDynamicGenericIntGraphNode { node, width: self.bits.len(), sign: PhantomData })
    }

    /// Designates each bit as an output of the graph, and returns where the
    /// outputs of an evaluation will hold the integer.
    ///
    /// Any reference is taken. One that names no node of the graph leaves a
    /// graph that no evaluation accepts.
    pub fn collect_outputs<C>(&self, ctx: &mut FheCircuitCtx<C>) -> (out: DynamicGenericIntOutputs<
        U,
    >)
        requires
            old(ctx).wf(),
        ensures
            final(ctx).wf(),
            old(ctx).circuit.grows_to(&final(ctx).circuit),
            final(ctx).inputs == old(ctx).inputs,
            out.slots().len() == self.refs().len(),
            final(ctx).circuit.outputs().len() == old(ctx).circuit.outputs().len()
                + self.refs().len(),
            forall|i: int|
                0 <= i < self.refs().len() ==> #[trigger] out.slots()[i] == old(
                    ctx,
                ).circuit.outputs().len() + i,
            within(&old(ctx).circuit, self.refs()) ==> forall|ins: Seq<nat>, i: int|
                0 <= i < self.refs().len() ==> #[trigger] final(ctx).circuit.value(
                    ins,
                    final(ctx).circuit.outputs()[out.slots()[i] as int],
                ) == old(ctx).circuit.value(ins, self.refs()[i]),
            outputs_ok(final(ctx).circuit.nodes()) <==> outputs_ok(old(ctx).circuit.nodes())
                && forall|i: int|
                0 <= i < self.refs().len() ==> (#[trigger] self.refs()[i]).index < old(
                    ctx,
                ).circuit.nodes().len() + i,
    {
        let ghost c0 = *ctx;
        let mut slots: Vec<usize> = Vec::new();
        let mut i: usize = 0;
        proof {
            lemma_grows_refl(&c0.circuit);
        }
        while i < self.bits.len()
            invariant
                c0.wf(),
                ctx.wf(),
                c0.circuit.grows_to(&ctx.circuit),
                ctx.inputs == c0.inputs,
                i <= self.bits@.len(),
                slots@.len() == i,
                ctx.circuit.outputs().len() == c0.circuit.outputs().len() + i,
                ctx.circuit.nodes().len() == c0.circuit.nodes().len() + i,
                forall|j: int|
                    0 <= j < i ==> #[trigger] slots@[j] == c0.circuit.outputs().len() + j,
                forall|j: int|
                    0 <= j < i ==> (#[trigger] ctx.circuit.outputs()[c0.circuit.outputs().len()
                        + j]).index == c0.circuit.nodes().len() + j,
                forall|j: int|
                    0 <= j < i ==> #[trigger] ctx.circuit.nodes()[c0.circuit.nodes().len() + j]
                        == Node::Output(self.bits@[j]),
            decreases self.bits@.len() - i,
        {
            let ghost c1 = *ctx;
            let k = ctx.circuit.mark_output(self.bits[i]);
            slots.push(k);
            proof {
                lemma_grows_trans(&c0.circuit, &c1.circuit, &ctx.circuit);
                assert forall|j: int| 0 <= j < i + 1 implies (
                #[trigger] ctx.circuit.outputs()[c0.circuit.outputs().len() + j]).index
                    == c0.circuit.nodes().len() + j by {
                    if j < i {
                        assert(ctx.circuit.outputs()[c0.circuit.outputs().len() + j]
                            == c1.circuit.outputs()[c0.circuit.outputs().len() + j]);
                    }
                }
            }
            i += 1;
        }
        proof {
            let before = c0.circuit.nodes();
            let after = ctx.circuit.nodes();
            if within(&c0.circuit, self.bits@) {
                assert forall|ins: Seq<nat>, j: int|
                    0 <= j < self.bits@.len() implies #[trigger] ctx.circuit.value(
                    ins,
                    ctx.circuit.outputs()[slots@[j] as int],
                ) == c0.circuit.value(ins, self.bits@[j]) by {
                    let p = before.len() + j;
                    assert(after[p] == Node::Output(self.bits@[j]));
                    assert(self.bits@[j].index < before.len());
                    lemma_grows_keeps(&c0.circuit, &ctx.circuit, ins, self.bits@[j]);
                }
            }
            let fitting = forall|j: int|
                0 <= j < self.bits@.len() ==> (#[trigger] self.bits@[j]).index < before.len() + j;
            if outputs_ok(before) && fitting {
                assert forall|p: int| 0 <= p < after.len() implies (
                #[trigger] after[p] matches Node::Output(source) ==> source.index < p) by {
                    if p < before.len() {
                        assert(after[p] == before[p]);
                    } else {
                        let j = p - before.len();
                        assert(after[before.len() + j] == Node::Output(self.bits@[j]));
                        assert(self.bits@[j].index < before.len() + j);
                    }
                }
            }
            if outputs_ok(after) {
                assert forall|p: int| 0 <= p < before.len() implies (
                #[trigger] before[p] matches Node::Output(source) ==> source.index < p) by {
                    assert(after[p] == before[p]);
                }
                assert forall|j: int| 0 <= j < self.bits@.len() implies (
                #[trigger] self.bits@[j]).index < before.len() + j by {
                    assert(after[before.len() + j] == Node::Output(self.bits@[j]));
                }
            }
        }
        DynamicGenericIntOutputs { slots, sign: PhantomData }
    }
}

/// Where the outputs of an evaluation hold an unpacked integer.
pub struct DynamicGenericIntOutputs<U: Sign> {
    slots: Vec<usize>,
    sign: PhantomData<U>,
}

impl<U: Sign> DynamicGenericIntOutputs<U> {
    /// The number of the output that holds each bit.
    pub closed spec fn slots(&self) -> Seq<usize> {
        self.slots@
    }

    /// Takes the integer out of the outputs of an evaluation. `None` where
    /// the outputs are too few to hold it.
    pub fn resolve<B: Backend>(&self, outs: &Vec<B::Ciphertext>, backend: &B) -> (r: Option<
        DynamicGenericInt<B, U>,
    >)
        ensures
            r is Some <==> (forall|i: int|
                0 <= i < self.slots().len() ==> #[trigger] self.slots()[i] < outs@.len()),
            r matches Some(value) ==> value.cts().len() == self.slots().len() && forall|i: int|
                0 <= i < self.slots().len() ==> backend.plain(&#[trigger] value.cts()[i])
                    == backend.plain(&outs@[self.slots()[i] as int]),
    {
        let mut bits: Vec<B::Ciphertext> = Vec::new();
        let mut i: usize = 0;
        while i < self.slots.len()
            invariant
                i <= self.slots@.len(),
                bits@.len() == i,
                forall|j: int| 0 <= j < i ==> #[trigger] self.slots@[j] < outs@.len(),
                forall|j: int|
                    0 <= j < i ==> backend.plain(&#[trigger] bits@[j]) == backend.plain(
                        &outs@[self.slots@[j] as int],
                    ),
            decreases self.slots@.len() - i,
        {
            let k = self.slots[i];
            if k >= outs.len() {
                assert(!(self.slots()[i as int] < outs@.len()));
                return None;
            }
            bits.push(backend.duplicate(&outs[k]));
            i += 1;
        }
        Some(DynamicGenericInt { bits, sign: PhantomData })
    }
}

/// A packed encrypted integer whose width is known at run time.
pub struct PackedDynamicGenericInt<B: Backend, U: Sign> {
    word: B::Ciphertext,
    width: usize,
    sign: PhantomData<U>,
}

impl<B: Backend, U: Sign> PackedDynamicGenericInt<B, U> {
    /// The ciphertext that holds all bits.
    pub closed spec fn ct(&self) -> B::Ciphertext {
        self.word
    }

    /// The number of bits.
    pub closed spec fn spec_width(&self) -> nat {
        self.width as nat
    }

    /// The bit pattern under the keys of `backend`, as a number.
    pub open spec fn plain(&self, backend: &B) -> nat {
        backend.plain(&self.ct()) % pow2(self.spec_width())
    }

    /// The number of bits.
    pub fn width(&self) -> (w: usize)
        ensures
            w == self.spec_width(),
    {
        self.width
    }

    /// Encrypts the lowest `width` bits of `value` under the public key.
    pub fn encrypt(value: u64, backend: &B, width: usize) -> (r: Self)
        ensures
            r.spec_width() == width,
            backend.plain(&r.ct()) == value as nat % pow2(width as nat),
            r.plain(backend) == value as nat % pow2(width as nat),
    {
        let bits = to_bits(value, width);
        proof {
            lemma_value_of_bits(value as nat, width as nat);
            lemma_pow2_pos(width as nat);
            lemma_mod_twice(value as int, pow2(width as nat) as int);
        }
        PackedDynamicGenericInt { word: backend.encrypt(&bits), width, sign: PhantomData }
    }

    /// Encrypts the lowest `width` bits of `value` under the secret key.
    pub fn encrypt_secret(value: u64, backend: &B, width: usize) -> (r: Self)
        ensures
            r.spec_width() == width,
            backend.plain(&r.ct()) == value as nat % pow2(width as nat),
            r.plain(backend) == value as nat % pow2(width as nat),
    {
        let bits = to_bits(value, width);
        proof {
            lemma_value_of_bits(value as nat, width as nat);
            lemma_pow2_pos(width as nat);
            lemma_mod_twice(value as int, pow2(width as nat) as int);
        }
        PackedDynamicGenericInt { word: backend.encrypt_secret(&bits), width, sign: PhantomData }
    }

    /// Wraps the lowest `width` bits of a public `value`, without any key.
    pub fn trivial_encrypt(value: u64, backend: &B, width: usize) -> (r: Self)
        ensures
            r.spec_width() == width,
            backend.plain(&r.ct()) == value as nat % pow2(width as nat),
            r.plain(backend) == value as nat % pow2(width as nat),
    {
        let bits = to_bits(value, width);
        proof {
            lemma_value_of_bits(value as nat, width as nat);
            lemma_pow2_pos(width as nat);
            lemma_mod_twice(value as int, pow2(width as nat) as int);
        }
        PackedDynamicGenericInt { word: backend.trivial_encrypt(&bits), width, sign: PhantomData }
    }

    /// Decrypts to the bit pattern as a number; of an integer wider than 64
    /// bits, to its lowest 64 bits.
    pub fn decrypt(&self, backend: &B) -> (value: u64)
        ensures
            value as nat == self.plain(backend) % pow2(64),
    {
        let bits = backend.decrypt(&self.word, self.width);
        proof {
            lemma_value_of_bits(backend.plain(&self.word), self.width as nat);
            lemma_read_back(bits@);
        }
        from_bits(&bits)
    }

    /// Decrypts to the number that the integer stands for under its sign
    /// policy. `None` where the integer is wider than 64 bits.
    pub fn decrypt_value(&self, backend: &B) -> (value: Option<i128>)
        ensures
            self.spec_width() > 64 ==> value is None,
            self.spec_width() <= 64 ==> (value matches Some(v) && v == reading(
                U::signed(),
                bits_of(backend.plain(&self.ct()), self.spec_width()),
            )),
    {
        let bits = backend.decrypt(&self.word, self.width);
        interpret::<U>(&bits)
    }

    /// Binds the integer to one new input of the graph.
    pub fn graph_input(&self, ctx: &mut FheCircuitCtx<B::Ciphertext>, backend: &B) -> (r:
        PackedDynamicGenericIntGraphNode<U>)
        requires
            old(ctx).wf(),
            old(ctx).circuit.slots() < usize::MAX,
        ensures
            final(ctx).wf(),
            old(ctx).circuit.grows_to(&final(ctx).circuit),
            old(ctx).inputs@.is_prefix_of(final(ctx).inputs@),
            final(ctx).inputs@.len() == old(ctx).inputs@.len() + 1,
            r.spec_width() == self.spec_width(),
            r.node().index < final(ctx).circuit.nodes().len(),
            final(ctx).circuit.value(
                crate::engine::plain_inputs(backend, final(ctx).inputs@),
                r.node(),
            ) == backend.plain(&self.ct()),
    {
        let copy = backend.duplicate(&self.word);
        let node = ctx.bind(copy);
        PackedDynamicGenericIntGraphNode { node, width: self.width, sign: PhantomData }
    }
}

/// A packed integer of a graph: one node that holds all bits.
pub struct PackedDynamicGenericIntGraphNode<U: Sign> {
    node: NodeRef,
    width: usize,
    sign: PhantomData<U>,
}

impl<U: Sign> PackedDynamicGenericIntGraphNode<U> {
    /// The node.
    pub closed spec fn node(&self) -> NodeRef {
        self.node
    }

    /// The number of bits.
    pub closed spec fn spec_width(&self) -> nat {
        self.width as nat
    }

    /// The number of bits.
    pub fn width(&self) -> (w: usize)
        ensures
            w == self.spec_width(),
    {
        self.width
    }

    /// Takes the integer apart into one node per bit.
    pub fn unpack<C>(&self, ctx: &mut FheCircuitCtx<C>) -> (r: Result<
        DynamicGenericIntGraphNodes<U>,
        CircuitError,
    >)
        requires
            old(ctx).wf(),
        ensures
            old(ctx).extends_to(final(ctx)),
            r is Err ==> final(ctx).circuit == old(ctx).circuit,
            self.node().index >= old(ctx).circuit.nodes().len() ==> r is Err && r->Err_0
                == CircuitError::Construction(ConstructionError::ForeignNode),
            self.node().index < old(ctx).circuit.nodes().len() ==> (r matches Ok(bits)
                && bits.refs().len() == self.spec_width() && within(
                &final(ctx).circuit,
                bits.refs(),
            ) && forall|ins: Seq<nat>| #[trigger]
                bits_at(&final(ctx).circuit, ins, bits.refs()) == bits_of(
                    old(ctx).circuit.value(ins, self.node()),
                    self.spec_width(),
                )),
    {
        proof {
            lemma_grows_refl(&ctx.circuit);
        }
        if !ctx.circuit.contains(self.node) {
            return Err(CircuitError::Construction(ConstructionError::ForeignNode));
        }
        let bits = append_unpack(&mut ctx.circuit, self.node, self.width);
        Ok(DynamicGenericIntGraphNodes { bits, sign: PhantomData })
    }

    /// Designates the node as an output of the graph, and returns where the
    /// outputs of an evaluation will hold the integer.
    pub fn collect_output<C>(&self, ctx: &mut FheCircuitCtx<C>) -> (out:
        PackedDynamicGenericIntOutput<U>)
        requires
            old(ctx).wf(),
        ensures
            final(ctx).wf(),
            old(ctx).circuit.grows_to(&final(ctx).circuit),
            final(ctx).inputs == old(ctx).inputs,
            out.spec_width() == self.spec_width(),
            out.slot() == old(ctx).circuit.outputs().len(),
            final(ctx).circuit.outputs().len() == old(ctx).circuit.outputs().len() + 1,
            self.node().index < old(ctx).circuit.nodes().len() ==> forall|ins: Seq<nat>| #[trigger]
                final(ctx).circuit.value(ins, final(ctx).circuit.outputs()[out.slot() as int])
                    == old(ctx).circuit.value(ins, self.node()),
            self.node().index < old(ctx).circuit.nodes().len() && outputs_ok(
                old(ctx).circuit.nodes(),
            ) ==> outputs_ok(final(ctx).circuit.nodes()),
            self.node().index >= old(ctx).circuit.nodes().len() ==> !outputs_ok(
                final(ctx).circuit.nodes(),
            ),
    {
        let ghost c0 = *ctx;
        let slot = ctx.circuit.mark_output(self.node);
        proof {
            let before = c0.circuit.nodes();
            let after = ctx.circuit.nodes();
            assert(after[before.len() as int] == Node::Output(self.node));
            if self.node.index < before.len() {
                assert forall|ins: Seq<nat>| #[trigger]
                    ctx.circuit.value(ins, ctx.circuit.outputs()[slot as int])
                        == c0.circuit.value(ins, self.node) by {
                    lemma_grows_keeps(&c0.circuit, &ctx.circuit, ins, self.node);
                }
                if outputs_ok(before) {
                    assert forall|p: int| 0 <= p < after.len() implies (
                    #[trigger] after[p] matches Node::Output(source) ==> source.index < p) by {
                        if p < before.len() {
                            assert(after[p] == before[p]);
                        }
                    }
                }
            }
        }
        PackedDynamicGenericIntOutput { slot, width: self.width, sign: PhantomData }
    }
}

/// Where the outputs of an evaluation hold a packed integer.
pub struct PackedDynamicGenericIntOutput<U: Sign> {
    slot: usize,
    width: usize,
    sign: PhantomData<U>,
}

impl<U: Sign> PackedDynamicGenericIntOutput<U> {
    /// The number of the output that holds the integer.
    pub closed spec fn slot(&self) -> usize {
        self.slot
    }

    /// The number of bits.
    pub closed spec fn spec_width(&self) -> nat {
        self.width as nat
    }

    /// Takes the integer out of the outputs of an evaluation. `None` where
    /// the outputs are too few to hold it.
    pub fn resolve<B: Backend>(&self, outs: &Vec<B::Ciphertext>, backend: &B) -> (r: Option<
        PackedDynamicGenericInt<B, U>,
    >)
        ensures
            r is Some <==> self.slot() < outs@.len(),
            r matches Some(value) ==> value.spec_width() == self.spec_width() && backend.plain(
                &value.ct(),
            ) == backend.plain(&outs@[self.slot() as int]),
    {
        if self.slot >= outs.len() {
            return None;
        }
        Some(
            PackedDynamicGenericInt {
                word: backend.duplicate(&outs[self.slot]),
                width: self.width,
                sign: PhantomData,
            },
        )
    }
}

/// An unpacked encrypted integer of `N` bits.
pub struct GenericInt<const N: usize, B: Backend, U: Sign> {
    inner: DynamicGenericInt<B, U>,
}

impl<const N: usize, B: Backend, U: Sign> GenericInt<N, B, U> {
    /// The same integer with its width at run time.
    pub closed spec fn dynamic(&self) -> DynamicGenericInt<B, U> {
        self.inner
    }

    /// The invariant of the type: the integer has `N` bits.
    pub open spec fn wf(&self) -> bool {
        self.dynamic().spec_width() == N
    }

    /// The bit pattern under the keys of `backend`, as a number.
    pub open spec fn plain(&self, backend: &B) -> nat {
        self.dynamic().plain(backend)
    }

    /// Encrypts the lowest `N` bits of `value` under the public key.
    pub fn encrypt(value: u64, backend: &B) -> (r: Self)
        ensures
            r.wf(),
            r.plain(backend) == value as nat % pow2(N as nat),
    {
        GenericInt { inner: DynamicGenericInt::encrypt(value, backend, N) }
    }

    /// Encrypts the lowest `N` bits of `value` under the secret key.
    pub fn encrypt_secret(value: u64, backend: &B) -> (r: Self)
        ensures
            r.wf(),
            r.plain(backend) == value as nat % pow2(N as nat),
    {
        GenericInt { inner: DynamicGenericInt::encrypt_secret(value, backend, N) }
    }

    /// Wraps the lowest `N` bits of a public `value`, without any key.
    pub fn trivial_encrypt(value: u64, backend: &B) -> (r: Self)
        ensures
            r.wf(),
            r.plain(backend) == value as nat % pow2(N as nat),
    {
        GenericInt { inner: DynamicGenericInt::trivial_encrypt(value, backend, N) }
    }

    /// Decrypts to the bit pattern as a number; of an integer wider than 64
    /// bits, to its lowest 64 bits.
    pub fn decrypt(&self, backend: &B) -> (value: u64)
        ensures
            value as nat == self.plain(backend) % pow2(64),
    {
        self.inner.decrypt(backend)
    }

    /// Decrypts to the number that the integer stands for under its sign
    /// policy. `None` where the integer is wider than 64 bits.
    pub fn decrypt_value(&self, backend: &B) -> (value: Option<i128>)
        requires
            self.wf(),
        ensures
            N > 64 ==> value is None,
            N <= 64 ==> (value matches Some(v) && v == reading(
                U::signed(),
                plain_bits(backend, self.dynamic().cts()),
            )),
    {
        self.inner.decrypt_value(backend)
    }

    /// Binds the integer to new inputs of the graph, one per bit.
    pub fn graph_inputs(&self, ctx: &mut FheCircuitCtx<B::Ciphertext>, backend: &B) -> (r:
        GenericIntGraphNodes<N, U>)
        requires
            self.wf(),
            old(ctx).wf(),
            old(ctx).circuit.slots() + N <= usize::MAX,
        ensures
            final(ctx).wf(),
            old(ctx).circuit.grows_to(&final(ctx).circuit),
            old(ctx).inputs@.is_prefix_of(final(ctx).inputs@),
            final(ctx).inputs@.len() == old(ctx).inputs@.len() + N,
            r.wf(),
            within(&final(ctx).circuit, r.refs()),
            number_at(
                &final(ctx).circuit,
                crate::engine::plain_inputs(backend, final(ctx).inputs@),
                r.refs(),
            ) == self.plain(backend),
    {
        GenericIntGraphNodes { inner: self.inner.graph_inputs(ctx, backend) }
    }
}

/// A packed encrypted integer of `N` bits.
pub struct PackedGenericInt<const N: usize, B: Backend, U: Sign> {
    inner: PackedDynamicGenericInt<B, U>,
}

impl<const N: usize, B: Backend, U: Sign> PackedGenericInt<N, B, U> {
    /// The same integer with its width at run time.
    pub closed spec fn dynamic(&self) -> PackedDynamicGenericInt<B, U> {
        self.inner
    }

    /// The invariant of the type: the integer has `N` bits.
    pub open spec fn wf(&self) -> bool {
        self.dynamic().spec_width() == N
    }

    /// The bit pattern under the keys of `backend`, as a number.
    pub open spec fn plain(&self, backend: &B) -> nat {
        self.dynamic().plain(backend)
    }

    /// Encrypts the lowest `N` bits of `value` under the public key.
    pub fn encrypt(value: u64, backend: &B) -> (r: Self)
        ensures
            r.wf(),
            r.plain(backend) == value as nat % pow2(N as nat),
    {
        PackedGenericInt { inner: PackedDynamicGenericInt::encrypt(value, backend, N) }
    }

    /// Encrypts the lowest `N` bits of `value` under the secret key.
    pub fn encrypt_secret(value: u64, backend: &B) -> (r: Self)
        ensures
            r.wf(),
            r.plain(backend) == value as nat % pow2(N as nat),
    {
        PackedGenericInt { inner: PackedDynamicGenericInt::encrypt_secret(value, backend, N) }
    }

    /// Wraps the lowest `N` bits of a public `value`, without any key.
    pub fn trivial_encrypt(value: u64, backend: &B) -> (r: Self)
        ensures
            r.wf(),
            r.plain(backend) == value as nat % pow2(N as nat),
    {
        PackedGenericInt { inner: PackedDynamicGenericInt::trivial_encrypt(value, backend, N) }
    }

    /// Decrypts to the bit pattern as a number; of an integer wider than 64
    /// bits, to its lowest 64 bits.
    pub fn decrypt(&self, backend: &B) -> (value: u64)
        ensures
            value as nat == self.plain(backend) % pow2(64),
    {
        self.inner.decrypt(backend)
    }

    /// Decrypts to the number that the integer stands for under its sign
    /// policy. `None` where the integer is wider than 64 bits.
    pub fn decrypt_value(&self, backend: &B) -> (value: Option<i128>)
        requires
            self.wf(),
        ensures
            N > 64 ==> value is None,
            N <= 64 ==> (value matches Some(v) && v == reading(
                U::signed(),
                bits_of(backend.plain(&self.dynamic().ct()), N as nat),
            )),
    {
        self.inner.decrypt_value(backend)
    }

    /// Binds the integer to one new input of the graph.
    pub fn graph_input(&self, ctx: &mut FheCircuitCtx<B::Ciphertext>, backend: &B) -> (r:
        PackedGenericIntGraphNode<N, U>)
        requires
            self.wf(),
            old(ctx).wf(),
            old(ctx).circuit.slots() < usize::MAX,
        ensures
            final(ctx).wf(),
            old(ctx).circuit.grows_to(&final(ctx).circuit),
            old(ctx).inputs@.is_prefix_of(final(ctx).inputs@),
            final(ctx).inputs@.len() == old(ctx).inputs@.len() + 1,
            r.wf(),
            r.node().index < final(ctx).circuit.nodes().len(),
            final(ctx).circuit.value(
                crate::engine::plain_inputs(backend, final(ctx).inputs@),
                r.node(),
            ) % pow2(N as nat) == self.plain(backend),
    {
        PackedGenericIntGraphNode { inner: self.inner.graph_input(ctx, backend) }
    }
}

/// An unpacked integer of `N` bits in a graph.
pub struct GenericIntGraphNodes<const N: usize, U: Sign> {
    inner: DynamicGenericIntGraphNodes<U>,
}

impl<const N: usize, U: Sign> GenericIntGraphNodes<N, U> {
    /// The same integer with its width at run time.
    pub closed spec fn dynamic(&self) -> DynamicGenericIntGraphNodes<U> {
        self.inner
    }

    /// The nodes, least significant bit first.
    pub open spec fn refs(&self) -> Seq<NodeRef> {
        self.dynamic().refs()
    }

    /// The invariant of the type: the integer has `N` bits.
    pub open spec fn wf(&self) -> bool {
        self.refs().len() == N
    }

    /// The same integer with its width at run time.
    pub fn as_dynamic(&self) -> (d: &DynamicGenericIntGraphNodes<U>)
        ensures
            *d == self.dynamic(),
    {
        &self.inner
    }

    /// The integer of `N` bits that `d` is. `None` where `d` has another
    /// width.
    pub fn from_dynamic(d: DynamicGenericIntGraphNodes<U>) -> (r: Option<Self>)
        ensures
            r is Some <==> d.refs().len() == N,
            r matches Some(x) ==> x.dynamic() == d && x.wf(),
    {
        if d.width() == N {
            Some(GenericIntGraphNodes { inner: d })
        } else {
            None
        }
    }

    /// The sum of two integers, which wraps around. An operand that names no
    /// node of the graph is a construction error, on which the graph is left
    /// as it was.
    pub fn add<C>(&self, other: &Self, ctx: &mut FheCircuitCtx<C>) -> (r: Result<
        Self,
        CircuitError,
    >)
        requires
            self.wf(),
            other.wf(),
            old(ctx).wf(),
        ensures
            old(ctx).extends_to(final(ctx)),
            r is Err ==> final(ctx).circuit == old(ctx).circuit,
            !(within(&old(ctx).circuit, self.refs()) && within(&old(ctx).circuit, other.refs()))
                ==> r is Err && r->Err_0 == CircuitError::Construction(
                ConstructionError::ForeignNode,
            ),
            within(&old(ctx).circuit, self.refs()) && within(&old(ctx).circuit, other.refs()) ==> (
            r matches Ok(sum) && sum.wf() && within(&final(ctx).circuit, sum.refs()) && forall|
                ins: Seq<nat>,
            | #[trigger]
                number_at(&final(ctx).circuit, ins, sum.refs()) == (number_at(
                    &old(ctx).circuit,
                    ins,
                    self.refs(),
                ) + number_at(&old(ctx).circuit, ins, other.refs())) % pow2(N as nat)),
    {
        match self.inner.add(&other.inner, ctx) {
            Ok(inner) => Ok(GenericIntGraphNodes { inner }),
            Err(e) => Err(e),
        }
    }

    /// The difference of two integers, which wraps around. Errors as for
    /// [`GenericIntGraphNodes::add`].
    pub fn sub<C>(&self, other: &Self, ctx: &mut FheCircuitCtx<C>) -> (r: Result<
        Self,
        CircuitError,
    >)
        requires
            self.wf(),
            other.wf(),
            old(ctx).wf(),
        ensures
            old(ctx).extends_to(final(ctx)),
            r is Err ==> final(ctx).circuit == old(ctx).circuit,
            !(within(&old(ctx).circuit, self.refs()) && within(&old(ctx).circuit, other.refs()))
                ==> r is Err && r->Err_0 == CircuitError::Construction(
                ConstructionError::ForeignNode,
            ),
            within(&old(ctx).circuit, self.refs()) && within(&old(ctx).circuit, other.refs()) ==> (
            r matches Ok(diff) && diff.wf() && within(&final(ctx).circuit, diff.refs())
                && forall|ins: Seq<nat>| #[trigger]
                number_at(&final(ctx).circuit, ins, diff.refs()) as int == (number_at(
                    &old(ctx).circuit,
                    ins,
                    self.refs(),
                ) - number_at(&old(ctx).circuit, ins, other.refs())) % (pow2(N as nat) as int)),
    {
        match self.inner.sub(&other.inner, ctx) {
            Ok(inner) => Ok(GenericIntGraphNodes { inner }),
            Err(e) => Err(e),
        }
    }

    /// The integer resized to `M` bits under its sign policy. See
    /// [`DynamicGenericIntGraphNodes::resize`].
    pub fn resize<const M: usize, C>(&self, ctx: &mut FheCircuitCtx<C>) -> (r: Result<
        GenericIntGraphNodes<M, U>,
        CircuitError,
    >)
        requires
            self.wf(),
            old(ctx).wf(),
        ensures
            old(ctx).extends_to(final(ctx)),
            r is Err ==> final(ctx).circuit == old(ctx).circuit,
            U::signed() && (N == 0 || M == 0) ==> r is Err && r->Err_0 == CircuitError::Width(
                WidthError::Unsupported,
            ),
            !(U::signed() && (N == 0 || M == 0)) && !within(&old(ctx).circuit, self.refs())
                ==> r is Err && r->Err_0 == CircuitError::Construction(
                ConstructionError::ForeignNode,
            ),
            !(U::signed() && (N == 0 || M == 0)) && within(&old(ctx).circuit, self.refs()) ==> (
            r matches Ok(out) && out.wf() && within(&final(ctx).circuit, out.refs()) && forall|
                ins: Seq<nat>,
            | #[trigger]
                bits_at(&final(ctx).circuit, ins, out.refs()) == resized(
                    bits_at(&old(ctx).circuit, ins, self.refs()),
                    M as int,
                    U::signed(),
                )),
    {
        match self.inner.resize(ctx, M) {
            Ok(inner) => Ok(GenericIntGraphNodes { inner }),
            Err(e) => Err(e),
        }
    }

    /// One bit that says how this integer compares with `other`. See
    /// [`DynamicGenericIntGraphNodes::compare`].
    pub fn compare<C>(
        &self,
        other: &Self,
        ctx: &mut FheCircuitCtx<C>,
        greater: bool,
        or_equal: bool,
    ) -> (r: Result<NodeRef, CircuitError>)
        requires
            self.wf(),
            other.wf(),
            old(ctx).wf(),
        ensures
            old(ctx).extends_to(final(ctx)),
            r is Err ==> final(ctx).circuit == old(ctx).circuit,
            !comparable(N as nat, N as nat) ==> r is Err && r->Err_0 == CircuitError::Width(
                WidthError::Unsupported,
            ),
            comparable(N as nat, N as nat) ==> compared(
                &old(ctx).circuit,
                &final(ctx).circuit,
                U::comparator(N, greater, or_equal),
                self.refs(),
                other.refs(),
                U::signed(),
                r,
            ),
    {
        self.inner.compare(&other.inner, ctx, greater, or_equal)
    }

    /// The product of two integers, resized to `M` bits under the sign
    /// policy. See [`DynamicGenericIntGraphNodes::mul`].
    pub fn mul<const M: usize, C>(&self, other: &Self, ctx: &mut FheCircuitCtx<C>) -> (r: Result<
        GenericIntGraphNodes<M, U>,
        CircuitError,
    >)
        requires
            self.wf(),
            other.wf(),
            old(ctx).wf(),
        ensures
            old(ctx).extends_to(final(ctx)),
            r is Err ==> final(ctx).circuit == old(ctx).circuit,
            !U::multiply_widths(N as nat, N as nat) || (U::signed() && M == 0) ==> r is Err
                && r->Err_0 == CircuitError::Width(WidthError::Unsupported),
            U::multiply_widths(N as nat, N as nat) && !(U::signed() && M == 0) ==> (match r {
                Ok(out) => out.wf() && DynamicGenericIntGraphNodes::<U>::product(
                    &old(ctx).circuit,
                    &final(ctx).circuit,
                    U::multiplier_for(N as nat, N as nat),
                    self.refs(),
                    other.refs(),
                    M,
                    Ok(out.dynamic()),
                ),
                Err(e) => DynamicGenericIntGraphNodes::<U>::product(
                    &old(ctx).circuit,
                    &final(ctx).circuit,
                    U::multiplier_for(N as nat, N as nat),
                    self.refs(),
                    other.refs(),
                    M,
                    Err(e),
                ),
            }),
    {
        match self.inner.mul(&other.inner, ctx, M) {
            Ok(inner) => Ok(GenericIntGraphNodes { inner }),
            Err(e) => Err(e),
        }
    }

    /// Folds the integer into one packed node.
    pub fn pack<C>(&self, ctx: &mut FheCircuitCtx<C>) -> (r: Result<
        PackedGenericIntGraphNode<N, U>,
        CircuitError,
    >)
        requires
            self.wf(),
            old(ctx).wf(),
        ensures
            old(ctx).extends_to(final(ctx)),
            r is Err ==> final(ctx).circuit == old(ctx).circuit,
            !within(&old(ctx).circuit, self.refs()) ==> r is Err && r->Err_0
                == CircuitError::Construction(ConstructionError::ForeignNode),
            within(&old(ctx).circuit, self.refs()) ==> (r matches Ok(packed) && packed.wf()
                && packed.node().index < final(ctx).circuit.nodes().len() && forall|ins: Seq<nat>| #[trigger]
                final(ctx).circuit.value(ins, packed.node()) == number_at(
                    &old(ctx).circuit,
                    ins,
                    self.refs(),
                )),
    {
        match self.inner.pack(ctx) {
            Ok(inner) => Ok(PackedGenericIntGraphNode { inner }),
            Err(e) => Err(e),
        }
    }

    /// Designates each bit as an output of the graph. See
    /// [`DynamicGenericIntGraphNodes::collect_outputs`].
    pub fn collect_outputs<C>(&self, ctx: &mut FheCircuitCtx<C>) -> (out: GenericIntOutputs<N, U>)
        requires
            self.wf(),
            old(ctx).wf(),
        ensures
            final(ctx).wf(),
            old(ctx).circuit.grows_to(&final(ctx).circuit),
            final(ctx).inputs == old(ctx).inputs,
            out.slots().len() == N,
            final(ctx).circuit.outputs().len() == old(ctx).circuit.outputs().len() + N,
            forall|i: int|
                0 <= i < N ==> #[trigger] out.slots()[i] == old(ctx).circuit.outputs().len() + i,
            within(&old(ctx).circuit, self.refs()) ==> forall|ins: Seq<nat>, i: int|
                0 <= i < N ==> #[trigger] final(ctx).circuit.value(
                    ins,
                    final(ctx).circuit.outputs()[out.slots()[i] as int],
                ) == old(ctx).circuit.value(ins, self.refs()[i]),
            outputs_ok(final(ctx).circuit.nodes()) <==> outputs_ok(old(ctx).circuit.nodes())
                && forall|i: int|
                0 <= i < N ==> (#[trigger] self.refs()[i]).index < old(ctx).circuit.nodes().len()
                    + i,
    {
        GenericIntOutputs { inner: self.inner.collect_outputs(ctx) }
    }
}

/// A packed integer of `N` bits in a graph.
pub struct PackedGenericIntGraphNode<const N: usize, U: Sign> {
    inner: PackedDynamicGenericIntGraphNode<U>,
}

impl<const N: usize, U: Sign> PackedGenericIntGraphNode<N, U> {
    /// The same integer with its width at run time.
    pub closed spec fn dynamic(&self) -> PackedDynamicGenericIntGraphNode<U> {
        self.inner
    }

    /// The node.
    pub open spec fn node(&self) -> NodeRef {
        self.dynamic().node()
    }

    /// The invariant of the type: the integer has `N` bits.
    pub open spec fn wf(&self) -> bool {
        self.dynamic().spec_width() == N
    }

    /// Takes the integer apart into one node per bit.
    pub fn unpack<C>(&self, ctx: &mut FheCircuitCtx<C>) -> (r: Result<
        GenericIntGraphNodes<N, U>,
        CircuitError,
    >)
        requires
            self.wf(),
            old(ctx).wf(),
        ensures
            old(ctx).extends_to(final(ctx)),
            r is Err ==> final(ctx).circuit == old(ctx).circuit,
            self.node().index >= old(ctx).circuit.nodes().len() ==> r is Err && r->Err_0
                == CircuitError::Construction(ConstructionError::ForeignNode),
            self.node().index < old(ctx).circuit.nodes().len() ==> (r matches Ok(bits) && bits.wf()
                && within(&final(ctx).circuit, bits.refs()) && forall|ins: Seq<nat>| #[trigger]
                bits_at(&final(ctx).circuit, ins, bits.refs()) == bits_of(
                    old(ctx).circuit.value(ins, self.node()),
                    N as nat,
                )),
    {
        match self.inner.unpack(ctx) {
            Ok(inner) => Ok(GenericIntGraphNodes { inner }),
            Err(e) => Err(e),
        }
    }

    /// Designates the node as an output of the graph. See
    /// [`PackedDynamicGenericIntGraphNode::collect_output`].
    pub fn collect_output<C>(&self, ctx: &mut FheCircuitCtx<C>) -> (out: PackedGenericIntOutput<
        N,
        U,
    >)
        requires
            self.wf(),
            old(ctx).wf(),
        ensures
            final(ctx).wf(),
            old(ctx).circuit.grows_to(&final(ctx).circuit),
            final(ctx).inputs == old(ctx).inputs,
            out.wf(),
            out.slot() == old(ctx).circuit.outputs().len(),
            final(ctx).circuit.outputs().len() == old(ctx).circuit.outputs().len() + 1,
            self.node().index < old(ctx).circuit.nodes().len() ==> forall|ins: Seq<nat>| #[trigger]
                final(ctx).circuit.value(ins, final(ctx).circuit.outputs()[out.slot() as int])
                    == old(ctx).circuit.value(ins, self.node()),
            self.node().index < old(ctx).circuit.nodes().len() && outputs_ok(
                old(ctx).circuit.nodes(),
            ) ==> outputs_ok(final(ctx).circuit.nodes()),
            self.node().index >= old(ctx).circuit.nodes().len() ==> !outputs_ok(
                final(ctx).circuit.nodes(),
            ),
    {
        PackedGenericIntOutput { inner: self.inner.collect_output(ctx) }
    }
}

/// Where the outputs of an evaluation hold an unpacked integer of `N` bits.
pub struct GenericIntOutputs<const N: usize, U: Sign> {
    inner: DynamicGenericIntOutputs<U>,
}

impl<const N: usize, U: Sign> GenericIntOutputs<N, U> {
    /// The number of the output that holds each bit.
    pub closed spec fn slots(&self) -> Seq<usize> {
        self.inner.slots()
    }

    /// Takes the integer out of the outputs of an evaluation. `None` where
    /// the outputs are too few to hold it.
    pub fn resolve<B: Backend>(&self, outs: &Vec<B::Ciphertext>, backend: &B) -> (r: Option<
        GenericInt<N, B, U>,
    >)
        requires
            self.slots().len() == N,
        ensures
            r is Some <==> (forall|i: int|
                0 <= i < self.slots().len() ==> #[trigger] self.slots()[i] < outs@.len()),
            r matches Some(value) ==> value.wf() && forall|i: int|
                0 <= i < N ==> backend.plain(&#[trigger] value.dynamic().cts()[i])
                    == backend.plain(&outs@[self.slots()[i] as int]),
    {
        match self.inner.resolve(outs, backend) {
            Some(inner) => Some(GenericInt { inner }),
            None => None,
        }
    }
}

/// Where the outputs of an evaluation hold a packed integer of `N` bits.
pub struct PackedGenericIntOutput<const N: usize, U: Sign> {
    inner: PackedDynamicGenericIntOutput<U>,
}

impl<const N: usize, U: Sign> PackedGenericIntOutput<N, U> {
    /// The number of the output that holds the integer.
    pub closed spec fn slot(&self) -> usize {
        self.inner.slot()
    }

    /// The invariant of the type: the integer has `N` bits.
    pub closed spec fn wf(&self) -> bool {
        self.inner.spec_width() == N
    }

    /// Takes the integer out of the outputs of an evaluation. `None` where
    /// the outputs are too few to hold it.
    pub fn resolve<B: Backend>(&self, outs: &Vec<B::Ciphertext>, backend: &B) -> (r: Option<
        PackedGenericInt<N, B, U>,
    >)
        requires
            self.wf(),
        ensures
            r is Some <==> self.slot() < outs@.len(),
            r matches Some(value) ==> value.wf() && backend.plain(&value.dynamic().ct())
                == backend.plain(&outs@[self.slot() as int]),
    {
        match self.inner.resolve(outs, backend) {
            Some(inner) => Some(PackedGenericInt { inner }),
            None => None,
        }
    }
}

/// The byte form of each ciphertext.
pub open spec fn encodings<B: Backend>(backend: &B, cts: Seq<B::Ciphertext>) -> Seq<Seq<u8>> {
    Seq::new(cts.len(), |i: int| backend.encoding(&cts[i]))
}

/// Whether every record is the byte form of a ciphertext.
pub open spec fn decodable<B: Backend>(backend: &B, items: Seq<Seq<u8>>) -> bool {
    forall|i: int| 0 <= i < items.len() ==> backend.decodes(#[trigger] items[i])
}

/// Whether the ciphertext with this byte form fits the parameters of the
/// cipher.
pub open spec fn admitted<B: Backend>(backend: &B, item: Seq<u8>) -> bool {
    forall|ct: B::Ciphertext| #[trigger] backend.encoding(&ct) == item ==> backend.admits(&ct)
}

/// Whether every ciphertext fits the parameters of the cipher.
pub open spec fn all_admitted<B: Backend>(backend: &B, items: Seq<Seq<u8>>) -> bool {
    forall|i: int| 0 <= i < items.len() ==> admitted(backend, #[trigger] items[i])
}

/// What reading an unpacked integer from `bytes` gives: the byte forms of
/// its ciphertexts, or the error.
///
/// A stream that is no run of ciphertexts is malformed. After that, a width
/// other than the one asked for is a mismatch, and so is, where the
/// parameters are to be looked at, a ciphertext that does not fit them.
pub open spec fn unpacked_outcome<B: Backend>(
    backend: &B,
    bytes: Seq<u8>,
    validated: bool,
    width: Option<usize>,
) -> Result<Seq<Seq<u8>>, DeserializeError> {
    match parse(bytes) {
        None => Err(DeserializeError::Malformed),
        Some(items) => if !decodable(backend, items) {
            Err(DeserializeError::Malformed)
        } else if (width matches Some(n) && items.len() != n) || (validated && !all_admitted(
            backend,
            items,
        )) {
            Err(DeserializeError::ParameterMismatch)
        } else {
            Ok(items)
        },
    }
}

/// What reading a packed integer from `bytes` gives: its width and the byte
/// form of its ciphertext, or the error.
///
/// The stream holds two records, the width in eight bytes and the
/// ciphertext; anything else is malformed. After that, errors as for
/// [`unpacked_outcome`].
pub open spec fn packed_outcome<B: Backend>(
    backend: &B,
    bytes: Seq<u8>,
    validated: bool,
    width: Option<usize>,
) -> Result<(usize, Seq<u8>), DeserializeError> {
    match parse(bytes) {
        None => Err(DeserializeError::Malformed),
        Some(items) => if items.len() != 2 || items[0].len() != 8 || spec_u64_from_le_bytes(
            items[0],
        ) > usize::MAX || !backend.decodes(items[1]) {
            Err(DeserializeError::Malformed)
        } else if (width matches Some(n) && spec_u64_from_le_bytes(items[0]) != n) || (validated
            && !admitted(backend, items[1])) {
            Err(DeserializeError::ParameterMismatch)
        } else {
            Ok((spec_u64_from_le_bytes(items[0]) as usize, items[1]))
        },
    }
}

fn read_unpacked<B: Backend>(
    bytes: &[u8],
    backend: &B,
    validated: bool,
    width: Option<usize>,
) -> (r: Result<Vec<B::Ciphertext>, DeserializeError>)
    ensures
        match unpacked_outcome(backend, bytes@, validated, width) {
            Ok(items) => r matches Ok(cts) && encodings(backend, cts@) == items,
            Err(e) => r is Err && r->Err_0 == e,
        },
{
    let items = match read_frame(bytes) {
        None => {
            return Err(DeserializeError::Malformed);
        },
        Some(items) => items,
    };
    let mut cts: Vec<B::Ciphertext> = Vec::new();
    let mut i: usize = 0;
    while i < items.len()
        invariant
            parse(bytes@) == Some(strings(items@)),
            i <= items@.len(),
            cts@.len() == i,
            forall|j: int| 0 <= j < i ==> backend.decodes(#[trigger] strings(items@)[j]),
            forall|j: int| 0 <= j < i ==> backend.encoding(&#[trigger] cts@[j]) == items@[j]@,
        decreases items@.len() - i,
    {
        match backend.from_bytes(items[i].as_slice()) {
            None => {
                assert(!backend.decodes(strings(items@)[i as int]));
                return Err(DeserializeError::Malformed);
            },
            Some(ct) => {
                cts.push(ct);
            },
        }
        i += 1;
    }
    assert(encodings(backend, cts@) =~= strings(items@));
    match width {
        Some(n) => {
            if cts.len() != n {
                return Err(DeserializeError::ParameterMismatch);
            }
        },
        None => {},
    }
    if validated {
        let mut k: usize = 0;
        while k < cts.len()
            invariant
                validated,
                parse(bytes@) == Some(strings(items@)),
                decodable(backend, strings(items@)),
                width matches Some(n) ==> strings(items@).len() == n,
                k <= cts@.len(),
                encodings(backend, cts@) == strings(items@),
                forall|j: int| 0 <= j < k ==> admitted(backend, #[trigger] strings(items@)[j]),
            decreases cts@.len() - k,
        {
            let ghost item = strings(items@)[k as int];
            assert(encodings(backend, cts@)[k as int] == item);
            if !backend.conforms(&cts[k]) {
                assert(!admitted(backend, item));
                return Err(DeserializeError::ParameterMismatch);
            }
            proof {
                assert forall|ct: B::Ciphertext| #[trigger]
                    backend.encoding(&ct) == item implies backend.admits(&ct) by {
                    backend.lemma_encoding(&ct, &cts@[k as int]);
                }
            }
            k += 1;
        }
    }
    Ok(cts)
}

fn read_packed<B: Backend>(
    bytes: &[u8],
    backend: &B,
    validated: bool,
    width: Option<usize>,
) -> (r: Result<(usize, B::Ciphertext), DeserializeError>)
    ensures
        match packed_outcome(backend, bytes@, validated, width) {
            Ok(parts) => r matches Ok(read) && read.0 == parts.0 && backend.encoding(&read.1)
                == parts.1,
            Err(e) => r is Err && r->Err_0 == e,
        },
{
    let items = match read_frame(bytes) {
        None => {
            return Err(DeserializeError::Malformed);
        },
        Some(items) => items,
    };
    if items.len() != 2 || items[0].len() != 8 {
        return Err(DeserializeError::Malformed);
    }
    let n = u64_from_le_bytes(items[0].as_slice());
    if n > usize::MAX as u64 {
        return Err(DeserializeError::Malformed);
    }
    let word = match backend.from_bytes(items[1].as_slice()) {
        None => {
            return Err(DeserializeError::Malformed);
        },
        Some(word) => word,
    };
    match width {
        Some(w) => {
            if n as usize != w {
                return Err(DeserializeError::ParameterMismatch);
            }
        },
        None => {},
    }
    if validated {
        if !backend.conforms(&word) {
            assert(!admitted(backend, items@[1]@));
            return Err(DeserializeError::ParameterMismatch);
        }
        proof {
            assert forall|ct: B::Ciphertext| #[trigger]
                backend.encoding(&ct) == items@[1]@ implies backend.admits(&ct) by {
                backend.lemma_encoding(&ct, &word);
            }
        }
    }
    Ok((n as usize, word))
}

impl<B: Backend, U: Sign> DynamicGenericInt<B, U> {
    /// Writes the integer as bytes: one record per ciphertext.
    pub fn serialize(&self, backend: &B) -> (bytes: Vec<u8>)
        ensures
            bytes@ == frame(encodings(backend, self.cts())),
    {
        let mut items: Vec<Vec<u8>> = Vec::new();
        let mut i: usize = 0;
        while i < self.bits.len()
            invariant
                i <= self.bits@.len(),
                items@.len() == i,
                forall|j: int| 0 <= j < i ==> (#[trigger] items@[j])@ == backend.encoding(
                    &self.bits@[j],
                ),
            decreases self.bits@.len() - i,
        {
            items.push(backend.to_bytes(&self.bits[i]));
            i += 1;
        }
        assert(strings(items@) =~= encodings(backend, self.bits@));
        write_frame(&items)
    }

    /// Reads an integer, and makes sure that its ciphertexts fit the
    /// parameters of the cipher.
    pub fn deserialize(bytes: &[u8], backend: &B) -> (r: Result<Self, DeserializeError>)
        ensures
            match unpacked_outcome(backend, bytes@, true, None) {
                Ok(items) => r matches Ok(x) && encodings(backend, x.cts()) == items,
                Err(e) => r is Err && r->Err_0 == e,
            },
    {
        match read_unpacked(bytes, backend, true, None) {
            Ok(bits) => Ok(DynamicGenericInt { bits, sign: PhantomData }),
            Err(e) => Err(e),
        }
    }

    /// Reads an integer that is trusted: the parameters of its ciphertexts
    /// are not looked at.
    pub fn deserialize_unchecked(bytes: &[u8], backend: &B) -> (r: Result<Self, DeserializeError>)
        ensures
            match unpacked_outcome(backend, bytes@, false, None) {
                Ok(items) => r matches Ok(x) && encodings(backend, x.cts()) == items,
                Err(e) => r is Err && r->Err_0 == e,
            },
    {
        match read_unpacked(bytes, backend, false, None) {
            Ok(bits) => Ok(DynamicGenericInt { bits, sign: PhantomData }),
            Err(e) => Err(e),
        }
    }
}

impl<B: Backend, U: Sign> PackedDynamicGenericInt<B, U> {
    /// Writes the integer as bytes: its width, then its ciphertext.
    pub fn serialize(&self, backend: &B) -> (bytes: Vec<u8>)
        ensures
            bytes@ == frame(
                seq![spec_u64_to_le_bytes(self.spec_width() as u64), backend.encoding(&self.ct())],
            ),
    {
        let mut items: Vec<Vec<u8>> = Vec::new();
        items.push(u64_to_le_bytes(self.width as u64));
        items.push(backend.to_bytes(&self.word));
        assert(strings(items@) =~= seq![
            spec_u64_to_le_bytes(self.width as u64),
            backend.encoding(&self.word),
        ]);
        write_frame(&items)
    }

    /// Reads an integer, and makes sure that its ciphertext fits the
    /// parameters of the cipher.
    pub fn deserialize(bytes: &[u8], backend: &B) -> (r: Result<Self, DeserializeError>)
        ensures
            match packed_outcome(backend, bytes@, true, None) {
                Ok(parts) => r matches Ok(x) && x.spec_width() == parts.0 && backend.encoding(
                    &x.ct(),
                ) == parts.1,
                Err(e) => r is Err && r->Err_0 == e,
            },
    {
        match read_packed(bytes, backend, true, None) {
            Ok((width, word)) => Ok(PackedDynamicGenericInt { word, width, sign: PhantomData }),
            Err(e) => Err(e),
        }
    }

    /// Reads an integer that is trusted: the parameters of its ciphertext are
    /// not looked at.
    pub fn deserialize_unchecked(bytes: &[u8], backend: &B) -> (r: Result<Self, DeserializeError>)
        ensures
            match packed_outcome(backend, bytes@, false, None) {
                Ok(parts) => r matches Ok(x) && x.spec_width() == parts.0 && backend.encoding(
                    &x.ct(),
                ) == parts.1,
                Err(e) => r is Err && r->Err_0 == e,
            },
    {
        match read_packed(bytes, backend, false, None) {
            Ok((width, word)) => Ok(PackedDynamicGenericInt { word, width, sign: PhantomData }),
            Err(e) => Err(e),
        }
    }
}

impl<const N: usize, B: Backend, U: Sign> GenericInt<N, B, U> {
    /// Writes the integer as bytes: one record per ciphertext.
    pub fn serialize(&self, backend: &B) -> (bytes: Vec<u8>)
        ensures
            bytes@ == frame(encodings(backend, self.dynamic().cts())),
    {
        self.inner.serialize(backend)
    }

    /// Reads an integer of `N` bits, and makes sure that its ciphertexts fit
    /// the parameters of the cipher.
    pub fn deserialize(bytes: &[u8], backend: &B) -> (r: Result<Self, DeserializeError>)
        ensures
            match unpacked_outcome(backend, bytes@, true, Some(N)) {
                Ok(items) => r matches Ok(x) && x.wf() && encodings(backend, x.dynamic().cts())
                    == items,
                Err(e) => r is Err && r->Err_0 == e,
            },
    {
        match read_unpacked(bytes, backend, true, Some(N)) {
            Ok(bits) => Ok(GenericInt { inner: DynamicGenericInt { bits, sign: PhantomData } }),
            Err(e) => Err(e),
        }
    }

    /// Reads an integer of `N` bits that is trusted: the parameters of its
    /// ciphertexts are not looked at.
    pub fn deserialize_unchecked(bytes: &[u8], backend: &B) -> (r: Result<Self, DeserializeError>)
        ensures
            match unpacked_outcome(backend, bytes@, false, Some(N)) {
                Ok(items) => r matches Ok(x) && x.wf() && encodings(backend, x.dynamic().cts())
                    == items,
                Err(e) => r is Err && r->Err_0 == e,
            },
    {
        match read_unpacked(bytes, backend, false, Some(N)) {
            Ok(bits) => Ok(GenericInt { inner: DynamicGenericInt { bits, sign: PhantomData } }),
            Err(e) => Err(e),
        }
    }
}

impl<const N: usize, B: Backend, U: Sign> PackedGenericInt<N, B, U> {
    /// Writes the integer as bytes: its width, then its ciphertext.
    pub fn serialize(&self, backend: &B) -> (bytes: Vec<u8>)
        ensures
            bytes@ == frame(
                seq![
                    spec_u64_to_le_bytes(self.dynamic().spec_width() as u64),
                    backend.encoding(&self.dynamic().ct()),
                ],
            ),
    {
        self.inner.serialize(backend)
    }

    /// Reads an integer of `N` bits, and makes sure that its ciphertext fits
    /// the parameters of the cipher.
    pub fn deserialize(bytes: &[u8], backend: &B) -> (r: Result<Self, DeserializeError>)
        ensures
            match packed_outcome(backend, bytes@, true, Some(N)) {
                Ok(parts) => r matches Ok(x) && x.wf() && backend.encoding(&x.dynamic().ct())
                    == parts.1,
                Err(e) => r is Err && r->Err_0 == e,
            },
    {
        match read_packed(bytes, backend, true, Some(N)) {
            Ok((width, word)) => Ok(
                PackedGenericInt {
                    inner: PackedDynamicGenericInt { word, width, sign: PhantomData },
                },
            ),
            Err(e) => Err(e),
        }
    }

    /// Reads an integer of `N` bits that is trusted: the parameters of its
    /// ciphertext are not looked at.
    pub fn deserialize_unchecked(bytes: &[u8], backend: &B) -> (r: Result<Self, DeserializeError>)
        ensures
            match packed_outcome(backend, bytes@, false, Some(N)) {
                Ok(parts) => r matches Ok(x) && x.wf() && backend.encoding(&x.dynamic().ct())
                    == parts.1,
                Err(e) => r is Err && r->Err_0 == e,
            },
    {
        match read_packed(bytes, backend, false, Some(N)) {
            Ok((width, word)) => Ok(
                PackedGenericInt {
                    inner: PackedDynamicGenericInt { word, width, sign: PhantomData },
                },
            ),
            Err(e) => Err(e),
        }
    }
}

/// A signed integer of `N` bits in a graph.
pub type IntGraphNodes<const N: usize> = GenericIntGraphNodes<N, Signed>;

/// A packed signed integer of `N` bits in a graph.
pub type PackedIntGraphNode<const N: usize> = PackedGenericIntGraphNode<N, Signed>;

/// A signed encrypted integer of `N` bits.
pub type Int<const N: usize, B> = GenericInt<N, B, Signed>;

/// A packed signed encrypted integer of `N` bits.
pub type PackedInt<const N: usize, B> = PackedGenericInt<N, B, Signed>;

/// A signed encrypted integer whose width is known at run time.
pub type DynamicInt<B> = DynamicGenericInt<B, Signed>;

/// A packed signed encrypted integer whose width is known at run time.
pub type PackedDynamicInt<B> = PackedDynamicGenericInt<B, Signed>;

/// An unsigned integer of `N` bits in a graph.
pub type UIntGraphNodes<const N: usize> = GenericIntGraphNodes<N, Unsigned>;

/// An unsigned encrypted integer of `N` bits.
pub type UInt<const N: usize, B> = GenericInt<N, B, Unsigned>;

/// A packed unsigned encrypted integer of `N` bits.
pub type PackedUInt<const N: usize, B> = PackedGenericInt<N, B, Unsigned>;

/// An unsigned encrypted integer whose width is known at run time.
pub type DynamicUInt<B> = DynamicGenericInt<B, Unsigned>;

/// A packed unsigned encrypted integer whose width is known at run time.
pub type PackedDynamicUInt<B> = PackedDynamicGenericInt<B, Unsigned>;

} // verus!
