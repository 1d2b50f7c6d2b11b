//! The interface to a cipher, and a cipher that hides nothing.
//!
//! The engine and the integer types never look inside a ciphertext. What they
//! need of a cipher is stated here: a ciphertext stands for a natural number,
//! its plain value, and each operation says what it does to plain values.

use crate::bits::{bits_of, bits_value, lemma_bit_at_value};
use crate::graph::{arity_ok, gate_value, low_bit, low_bits, unit, GateOp};
use vstd::arithmetic::power2::*;
use vstd::bytes::*;
use vstd::prelude::*;
use vstd::slice::*;

verus! {

/// The cipher could not evaluate a gate.
#[derive(Clone, Copy, Debug, PartialEq, Eq, Structural)]
pub struct GateFailure;

/// A cipher with its keys.
pub trait Backend {
    /// An encrypted value.
    type Ciphertext;

    /// The natural number that `ct` stands for under the keys of this cipher.
    spec fn plain(&self, ct: &Self::Ciphertext) -> nat;

    /// Encrypts the number that `bits` spells, under the public key.
    fn encrypt(&self, bits: &Vec<bool>) -> (ct: Self::Ciphertext)
        ensures
            self.plain(&ct) == bits_value(bits@),
    ;

    /// Encrypts the number that `bits` spells, under the secret key.
    fn encrypt_secret(&self, bits: &Vec<bool>) -> (ct: Self::Ciphertext)
        ensures
            self.plain(&ct) == bits_value(bits@),
    ;

    /// Wraps a public constant as a ciphertext, without any key.
    fn trivial_encrypt(&self, bits: &Vec<bool>) -> (ct: Self::Ciphertext)
        ensures
            self.plain(&ct) == bits_value(bits@),
    ;

    /// The lowest `width` bits of the plain value of `ct`.
    fn decrypt(&self, ct: &Self::Ciphertext, width: usize) -> (bits: Vec<bool>)
        ensures
            bits@ == bits_of(self.plain(ct), width as nat),
    ;

    /// A second ciphertext with the plain value of `ct`.
    fn duplicate(&self, ct: &Self::Ciphertext) -> (copy: Self::Ciphertext)
        ensures
            self.plain(&copy) == self.plain(ct),
    ;

    /// The byte form of a ciphertext.
    spec fn encoding(&self, ct: &Self::Ciphertext) -> Seq<u8>;

    /// Whether `bytes` are the byte form of a ciphertext.
    spec fn decodes(&self, bytes: Seq<u8>) -> bool;

    /// Whether a ciphertext fits the parameters of this cipher.
    spec fn admits(&self, ct: &Self::Ciphertext) -> bool;

    /// The byte form of a ciphertext can be read again, and it determines
    /// what the ciphertext stands for and whether it fits the parameters.
    proof fn lemma_encoding(&self, a: &Self::Ciphertext, b: &Self::Ciphertext)
        ensures
            self.decodes(self.encoding(a)),
            self.encoding(a) == self.encoding(b) ==> self.plain(a) == self.plain(b) && self.admits(
                a,
            ) == self.admits(b),
    ;

    /// Writes a ciphertext as bytes.
    fn to_bytes(&self, ct: &Self::Ciphertext) -> (bytes: Vec<u8>)
        ensures
            bytes@ == self.encoding(ct),
    ;

    /// Reads a ciphertext from its byte form. `None` where the bytes are no
    /// ciphertext. Whether the ciphertext fits the parameters is not looked
    /// at.
    fn from_bytes(&self, bytes: &[u8]) -> (r: Option<Self::Ciphertext>)
        ensures
            r is Some <==> self.decodes(bytes@),
            r matches Some(ct) ==> self.encoding(&ct) == bytes@,
    ;

    /// Whether a ciphertext fits the parameters of this cipher.
    fn conforms(&self, ct: &Self::Ciphertext) -> (ok: bool)
        ensures
            ok == self.admits(ct),
    ;

    /// Whether this cipher evaluates every gate that it is given.
    spec fn reliable(&self) -> bool;

    /// Evaluates one gate. When it succeeds, the result stands for what the
    /// operation computes from the plain values of the operands. A reliable
    /// cipher always succeeds.
    fn gate(&self, op: GateOp, args: &Vec<&Self::Ciphertext>) -> (r: Result<
        Self::Ciphertext,
        GateFailure,
    >)
        requires
            arity_ok(op, args@.len()),
        ensures
            r matches Ok(ct) ==> self.plain(&ct) == gate_value(
                op,
                Seq::new(args@.len(), |j: int| self.plain(args@[j])),
            ),
            self.reliable() ==> r is Ok,
    ;
}

/// The cipher that hides nothing: a ciphertext is the bit string itself.
///
/// It gives every circuit its plain meaning, and so serves to try a circuit
/// out before a real cipher runs it.
#[derive(Clone, Copy, Debug)]
pub struct Clear;

fn copy_bits(bits: &Vec<bool>) -> (copy: Vec<bool>)
    ensures
        copy@ == bits@,
{
    let mut copy: Vec<bool> = Vec::new();
    let mut i: usize = 0;
    while i < bits.len()
        invariant
            i <= bits@.len(),
            copy@ == bits@.take(i as int),
        decreases bits@.len() - i,
    {
        copy.push(bits[i]);
        i += 1;
        assert(copy@ =~= bits@.take(i as int));
    }
    assert(copy@ =~= bits@);
    copy
}

fn clear_low(ct: &Vec<bool>) -> (b: bool)
    ensures
        b == low_bit(bits_value(ct@)),
{
    proof {
        lemma_bit_at_value(ct@, 0);
        lemma2_to64();
    }
    ct.len() > 0 && ct[0]
}

fn clear_bit(b: bool) -> (ct: Vec<bool>)
    ensures
        bits_value(ct@) == unit(b),
{
    let mut ct: Vec<bool> = Vec::new();
    ct.push(b);
    proof {
        lemma2_to64();
        assert(ct@.drop_last() =~= Seq::<bool>::empty());
        assert(bits_value(ct@.drop_last()) == 0);
    }
    ct
}

/// One byte per bit, 0 or 1.
pub open spec fn bit_bytes(bits: Seq<bool>) -> Seq<u8> {
    Seq::new(
        bits.len(),
        |i: int|
            if bits[i] {
                1u8
            } else {
                0u8
            },
    )
}

/// Whether every byte is 0 or 1.
pub open spec fn is_bit_bytes(bytes: Seq<u8>) -> bool {
    forall|i: int| 0 <= i < bytes.len() ==> #[trigger] bytes[i] <= 1
}

proof fn lemma_bit_bytes(a: Seq<bool>, b: Seq<bool>)
    ensures
        is_bit_bytes(bit_bytes(a)),
        bit_bytes(a) == bit_bytes(b) ==> a == b,
{
    if bit_bytes(a) == bit_bytes(b) {
        assert(a.len() == bit_bytes(a).len());
        assert(b.len() == bit_bytes(b).len());
        assert forall|i: int| 0 <= i < a.len() implies a[i] == b[i] by {
            assert(bit_bytes(a)[i] == bit_bytes(b)[i]);
        }
        assert(a =~= b);
    }
}

fn write_bits(bits: &Vec<bool>, bytes: &mut Vec<u8>)
    ensures
        final(bytes)@ == old(bytes)@ + bit_bytes(bits@),
{
    let mut i: usize = 0;
    while i < bits.len()
        invariant
            i <= bits@.len(),
            bytes@ == old(bytes)@ + bit_bytes(bits@).take(i as int),
        decreases bits@.len() - i,
    {
        bytes.push(
            if bits[i] {
                1u8
            } else {
                0u8
            },
        );
        i += 1;
        assert(bytes@ =~= old(bytes)@ + bit_bytes(bits@).take(i as int));
    }
    assert(bit_bytes(bits@).take(bits@.len() as int) =~= bit_bytes(bits@));
}

fn read_bits(bytes: &[u8], from: usize) -> (r: Option<Vec<bool>>)
    requires
        from <= bytes@.len(),
    ensures
        r is Some <==> is_bit_bytes(bytes@.skip(from as int)),
        r matches Some(bits) ==> bit_bytes(bits@) == bytes@.skip(from as int),
{
    let ghost tail = bytes@.skip(from as int);
    let mut bits: Vec<bool> = Vec::new();
    let mut i: usize = from;
    while i < bytes.len()
        invariant
            from <= i <= bytes@.len(),
            tail == bytes@.skip(from as int),
            bits@.len() == i - from,
            forall|j: int| 0 <= j < i - from ==> #[trigger] tail[j] <= 1,
            bit_bytes(bits@) == tail.take(i - from),
        decreases bytes@.len() - i,
    {
        let b = bytes[i];
        assert(tail[i - from] == b);
        if b > 1 {
            return None;
        }
        bits.push(b == 1);
        i += 1;
        assert(bit_bytes(bits@) =~= tail.take(i - from));
    }
    assert(tail.take(tail.len() as int) =~= tail);
    Some(bits)
}

impl Backend for Clear {
    type Ciphertext = Vec<bool>;

    open spec fn plain(&self, ct: &Vec<bool>) -> nat {
        bits_value(ct@)
    }

    open spec fn encoding(&self, ct: &Vec<bool>) -> Seq<u8> {
        bit_bytes(ct@)
    }

    open spec fn decodes(&self, bytes: Seq<u8>) -> bool {
        is_bit_bytes(bytes)
    }

    /// The clear cipher has no parameters.
    open spec fn admits(&self, ct: &Vec<bool>) -> bool {
        true
    }

    open spec fn reliable(&self) -> bool {
        true
    }

    proof fn lemma_encoding(&self, a: &Vec<bool>, b: &Vec<bool>) {
        lemma_bit_bytes(a@, b@);
    }

    fn to_bytes(&self, ct: &Vec<bool>) -> (bytes: Vec<u8>) {
        let mut bytes: Vec<u8> = Vec::new();
        write_bits(ct, &mut bytes);
        assert(Seq::<u8>::empty() + bit_bytes(ct@) =~= bit_bytes(ct@));
        bytes
    }

    fn from_bytes(&self, bytes: &[u8]) -> (r: Option<Vec<bool>>) {
        assert(bytes@.skip(0) =~= bytes@);
        read_bits(bytes, 0)
    }

    fn conforms(&self, ct: &Vec<bool>) -> (ok: bool) {
        true
    }

    fn encrypt(&self, bits: &Vec<bool>) -> (ct: Vec<bool>)
        ensures
            ct@ == bits@,
    {
        copy_bits(bits)
    }

    fn encrypt_secret(&self, bits: &Vec<bool>) -> (ct: Vec<bool>)
        ensures
            ct@ == bits@,
    {
        copy_bits(bits)
    }

    fn trivial_encrypt(&self, bits: &Vec<bool>) -> (ct: Vec<bool>)
        ensures
            ct@ == bits@,
    {
        copy_bits(bits)
    }

    fn decrypt(&self, ct: &Vec<bool>, width: usize) -> (bits: Vec<bool>) {
        let mut bits: Vec<bool> = Vec::new();
        let mut i: usize = 0;
        while i < width
            invariant
                i <= width,
                bits@ == bits_of(bits_value(ct@), i as nat),
            decreases width - i,
        {
            proof {
                lemma_bit_at_value(ct@, i as nat);
            }
            bits.push(i < ct.len() && ct[i]);
            i += 1;
            assert(bits@ =~= bits_of(bits_value(ct@), i as nat));
        }
        bits
    }

    fn duplicate(&self, ct: &Vec<bool>) -> (copy: Vec<bool>)
        ensures
            copy@ == ct@,
    {
        copy_bits(ct)
    }

    fn gate(&self, op: GateOp, args: &Vec<&Vec<bool>>) -> (r: Result<Vec<bool>, GateFailure>) {
        let ghost plains = Seq::new(args@.len(), |j: int| self.plain(args@[j]));
        match op {
            GateOp::Zero => Ok(clear_bit(false)),
            GateOp::One => Ok(clear_bit(true)),
            GateOp::Not => Ok(clear_bit(!clear_low(args[0]))),
            GateOp::And => {
                let a = clear_low(args[0]);
                let b = clear_low(args[1]);
                Ok(clear_bit(a && b))
            },
            GateOp::Or => {
                let a = clear_low(args[0]);
                let b = clear_low(args[1]);
                Ok(clear_bit(a || b))
            },
            GateOp::Xor => {
                let a = clear_low(args[0]);
                let b = clear_low(args[1]);
                Ok(clear_bit(a != b))
            },
            GateOp::Mux => {
                let select = clear_low(args[0]);
                let low = clear_low(args[1]);
                let high = clear_low(args[2]);
                Ok(
                    clear_bit(
                        if select {
                            high
                        } else {
                            low
                        },
                    ),
                )
            },
            GateOp::Pack => {
                let mut word: Vec<bool> = Vec::new();
                let mut j: usize = 0;
                while j < args.len()
                    invariant
                        j <= args@.len(),
                        plains == Seq::new(args@.len(), |j: int| self.plain(args@[j])),
                        word@ == low_bits(plains).take(j as int),
                    decreases args@.len() - j,
                {
                    word.push(clear_low(args[j]));
                    j += 1;
                    assert(word@ =~= low_bits(plains).take(j as int));
                }
                assert(word@ =~= low_bits(plains));
                Ok(word)
            },
            GateOp::Extract(k) => {
                let word = args[0];
                proof {
                    lemma_bit_at_value(word@, k as nat);
                }
                Ok(clear_bit(k < word.len() && word[k]))
            },
        }
    }
}

/// A clear cipher with a budget of depth, as a levelled scheme has it: a
/// fresh ciphertext is at level 0, a gate gives a ciphertext one level above
/// the highest of its operands, and a gate that would pass `depth` fails.
///
/// It serves to try out whether a circuit fits a budget, and how an
/// evaluation ends when the cipher gives up.
#[derive(Clone, Copy, Debug)]
pub struct Leveled {
    pub depth: usize,
}

/// A ciphertext of [`Leveled`]: the bit string and its level.
#[derive(Debug, PartialEq, Eq)]
pub struct LeveledBits {
    pub bits: Vec<bool>,
    pub level: usize,
}

/// The highest level among `args`, 0 where there is none.
pub open spec fn top_level(args: Seq<&LeveledBits>) -> nat
    decreases args.len(),
{
    if args.len() == 0 {
        0
    } else {
        let rest = top_level(args.drop_last());
        if args.last().level > rest {
            args.last().level as nat
        } else {
            rest
        }
    }
}

impl Backend for Leveled {
    type Ciphertext = LeveledBits;

    open spec fn plain(&self, ct: &LeveledBits) -> nat {
        bits_value(ct.bits@)
    }

    /// The level in eight bytes, then the bits.
    open spec fn encoding(&self, ct: &LeveledBits) -> Seq<u8> {
        spec_u64_to_le_bytes(ct.level as u64) + bit_bytes(ct.bits@)
    }

    open spec fn decodes(&self, bytes: Seq<u8>) -> bool {
        bytes.len() >= 8 && spec_u64_from_le_bytes(bytes.take(8)) <= usize::MAX && is_bit_bytes(
            bytes.skip(8),
        )
    }

    /// A ciphertext fits where its level is within the depth.
    open spec fn admits(&self, ct: &LeveledBits) -> bool {
        ct.level <= self.depth
    }

    open spec fn reliable(&self) -> bool {
        false
    }

    proof fn lemma_encoding(&self, a: &LeveledBits, b: &LeveledBits) {
        lemma_auto_spec_u64_to_from_le_bytes();
        lemma_bit_bytes(a.bits@, b.bits@);
        let ea = self.encoding(a);
        assert(ea.take(8) =~= spec_u64_to_le_bytes(a.level as u64));
        assert(ea.skip(8) =~= bit_bytes(a.bits@));
        if ea == self.encoding(b) {
            let eb = self.encoding(b);
            assert(eb.take(8) =~= spec_u64_to_le_bytes(b.level as u64));
            assert(eb.skip(8) =~= bit_bytes(b.bits@));
            assert(a.level as u64 == b.level as u64);
        }
    }

    fn to_bytes(&self, ct: &LeveledBits) -> (bytes: Vec<u8>) {
        let mut bytes = u64_to_le_bytes(ct.level as u64);
        write_bits(&ct.bits, &mut bytes);
        bytes
    }

    fn from_bytes(&self, bytes: &[u8]) -> (r: Option<LeveledBits>) {
        if bytes.len() < 8 {
            return None;
        }
        let level = u64_from_le_bytes(slice_subrange(bytes, 0, 8));
        assert(bytes@.take(8) =~= bytes@.subrange(0, 8));
        if level > usize::MAX as u64 {
            return None;
        }
        match read_bits(bytes, 8) {
            None => None,
            Some(bits) => {
                proof {
                    lemma_auto_spec_u64_to_from_le_bytes();
                    assert(bytes@ =~= bytes@.take(8) + bytes@.skip(8));
                }
                Some(LeveledBits { bits, level: level as usize })
            },
        }
    }

    fn conforms(&self, ct: &LeveledBits) -> (ok: bool) {
        ct.level <= self.depth
    }

    fn encrypt(&self, bits: &Vec<bool>) -> (ct: LeveledBits)
        ensures
            ct.bits@ == bits@,
            ct.level == 0,
    {
        LeveledBits { bits: copy_bits(bits), level: 0 }
    }

    fn encrypt_secret(&self, bits: &Vec<bool>) -> (ct: LeveledBits)
        ensures
            ct.bits@ == bits@,
            ct.level == 0,
    {
        LeveledBits { bits: copy_bits(bits), level: 0 }
    }

    fn trivial_encrypt(&self, bits: &Vec<bool>) -> (ct: LeveledBits)
        ensures
            ct.bits@ == bits@,
            ct.level == 0,
    {
        LeveledBits { bits: copy_bits(bits), level: 0 }
    }

    fn decrypt(&self, ct: &LeveledBits, width: usize) -> (bits: Vec<bool>) {
        Clear.decrypt(&ct.bits, width)
    }

    fn duplicate(&self, ct: &LeveledBits) -> (copy: LeveledBits)
        ensures
            copy.bits@ == ct.bits@,
            copy.level == ct.level,
    {
        LeveledBits { bits: copy_bits(&ct.bits), level: ct.level }
    }

    /// A gate fails exactly where an operand has used up the depth; else its
    /// result is one level above the highest operand.
    fn gate(&self, op: GateOp, args: &Vec<&LeveledBits>) -> (r: Result<LeveledBits, GateFailure>)
        ensures
            r is Ok <==> top_level(args@) < self.depth,
            r matches Ok(ct) ==> ct.level == top_level(args@) + 1,
    {
        let mut inner: Vec<&Vec<bool>> = Vec::new();
        let mut level: usize = 0;
        let mut j: usize = 0;
        assert(args@.take(0) =~= Seq::<&LeveledBits>::empty());
        while j < args.len()
            invariant
                j <= args@.len(),
                inner@.len() == j,
                level == top_level(args@.take(j as int)),
                forall|b: int| 0 <= b < j ==> *#[trigger] inner@[b] == args@[b].bits,
            decreases args@.len() - j,
        {
            let ct = args[j];
            assert(args@.take(j + 1).drop_last() =~= args@.take(j as int));
            if ct.level > level {
                level = ct.level;
            }
            inner.push(&ct.bits);
            j += 1;
        }
        assert(args@.take(args@.len() as int) =~= args@);
        if level >= self.depth {
            return Err(GateFailure);
        }
        match Clear.gate(op, &inner) {
            Err(e) => Err(e),
            Ok(bits) => {
                assert(Seq::new(inner@.len(), |j: int| Clear.plain(inner@[j])) =~= Seq::new(
                    args@.len(),
                    |j: int| self.plain(args@[j]),
                ));
                Ok(LeveledBits { bits, level: level + 1 })
            },
        }
    }
}

} // verus!
