//! What holds of the library as a whole, proved from the contracts of its
//! functions.

use crate::backend::Backend;
use crate::bits::{
    bits_of, bits_value, lemma_bits_of_value, lemma_value_concat,
    lemma_value_of_bits, lemma_value_push, lemma_value_repeat, lemma_value_take, repeat_bit,
    signed_value,
};
use crate::circuits::resized;
use crate::engine::{evaluates, plain_inputs};
use crate::graph::FheCircuit;
use crate::integer::{
    admitted, encodings, packed_outcome, plain_bits, unpacked_outcome,
};
use crate::serial::{framable, frame, law_parse_frame, DeserializeError};
use vstd::arithmetic::div_mod::*;
use vstd::arithmetic::power2::*;
use vstd::bytes::*;
use vstd::prelude::*;

verus! {

/// Encryption writes the lowest `width` bits of a value and decryption reads
/// a bit pattern as a number, so a value that fits `width` bits comes back as
/// it was. Where `width` is at most 64, the cut to 64 bits that decryption
/// makes changes nothing.
pub proof fn law_decrypt_encrypt(value: nat, width: nat)
    requires
        value < pow2(width),
    ensures
        bits_value(bits_of(value, width)) == value,
        width <= 64 ==> bits_value(bits_of(value, width)) % pow2(64) == value,
{
    lemma_value_of_bits(value, width);
    lemma_small_mod(value, pow2(width));
    if width <= 64 {
        if width < 64 {
            lemma_pow2_strictly_increases(width, 64);
        }
        lemma_small_mod(value, pow2(64));
    }
}

/// Unpacking what was packed gives the bits back: a pack gate holds the
/// number that the bits spell, and the extract gates read its digits.
pub proof fn law_unpack_pack(bits: Seq<bool>)
    ensures
        bits_of(bits_value(bits), bits.len()) == bits,
{
    lemma_bits_of_value(bits);
}

/// Packing what was unpacked gives the packed integer back: the `width` low
/// digits of a number spell the number modulo `2^width`, which is all that a
/// packed integer of that width stands for.
pub proof fn law_pack_unpack(value: nat, width: nat)
    ensures
        bits_value(bits_of(value, width)) == value % pow2(width),
{
    lemma_value_of_bits(value, width);
}

/// Growing a signed integer keeps its value in two's complement.
pub proof fn law_sign_extension(bits: Seq<bool>, new_size: nat)
    requires
        1 <= bits.len() <= new_size,
    ensures
        resized(bits, new_size as int, true).len() == new_size,
        signed_value(resized(bits, new_size as int, true)) == signed_value(bits),
{
    let n = bits.len();
    let low = bits.take(n - 1);
    let s = bits.last();
    let fill = repeat_bit(s, (new_size - n + 1) as nat);
    let wide = resized(bits, new_size as int, true);
    assert(wide =~= low + fill);
    assert(bits =~= low.push(s));
    lemma_value_push(low, s);
    lemma_value_concat(low, fill);
    lemma_value_repeat(s, (new_size - n + 1) as nat);
    lemma_pow2_adds((n - 1) as nat, (new_size - n + 1) as nat);
    lemma_pow2_unfold(n);
    assert(wide.last() == s);
    if s {
        let p = pow2((n - 1) as nat);
        let q = pow2((new_size - n + 1) as nat);
        assert(p * (q - 1) == p * q - p) by (nonlinear_arith);
    } else {
        assert(pow2((n - 1) as nat) * 0 == 0);
    }
}

/// Growing an unsigned integer keeps its value.
pub proof fn law_zero_extension(bits: Seq<bool>, new_size: nat)
    requires
        bits.len() <= new_size,
    ensures
        resized(bits, new_size as int, false).len() == new_size,
        bits_value(resized(bits, new_size as int, false)) == bits_value(bits),
{
    let fill = repeat_bit(false, (new_size - bits.len()) as nat);
    assert(bits.take(bits.len() as int) =~= bits);
    assert(resized(bits, new_size as int, false) =~= bits + fill);
    lemma_value_concat(bits, fill);
    lemma_value_repeat(false, (new_size - bits.len()) as nat);
    assert(pow2(bits.len()) * 0 == 0);
}

/// Shrinking an unsigned integer keeps its low bits: the value wraps modulo
/// `2^new_size`.
pub proof fn law_unsigned_truncation(bits: Seq<bool>, new_size: nat)
    requires
        new_size <= bits.len(),
    ensures
        resized(bits, new_size as int, false) == bits.take(new_size as int),
        bits_value(resized(bits, new_size as int, false)) == bits_value(bits) % pow2(new_size),
{
    assert(resized(bits, new_size as int, false) =~= bits.take(new_size as int));
    lemma_value_take(bits, new_size);
}

/// Shrinking a signed integer keeps its lowest `new_size - 1` bits and puts
/// the old sign on top. Where the bit that the sign displaces
/// equals the sign, these are the low `new_size` bits, and where the value
/// fits `new_size` bits it is kept.
pub proof fn law_signed_truncation(bits: Seq<bool>, new_size: nat)
    requires
        1 <= new_size <= bits.len(),
    ensures
        resized(bits, new_size as int, true) == bits.take(new_size - 1).push(bits.last()),
        bits[new_size - 1] == bits.last() ==> resized(bits, new_size as int, true) == bits.take(
            new_size as int,
        ),
{
    assert(resized(bits, new_size as int, true) =~= bits.take(new_size - 1).push(bits.last()));
    if bits[new_size - 1] == bits.last() {
        assert(bits.take(new_size - 1).push(bits.last()) =~= bits.take(new_size as int));
    }
}

/// Evaluation is deterministic: two evaluations of one graph on inputs that
/// stand for the same values give outputs that stand for the same values,
/// whatever the order in which the nodes were evaluated.
pub proof fn law_evaluation_deterministic<B: Backend>(
    backend: &B,
    graph: &FheCircuit,
    first_inputs: Seq<B::Ciphertext>,
    second_inputs: Seq<B::Ciphertext>,
    first_outs: Seq<B::Ciphertext>,
    second_outs: Seq<B::Ciphertext>,
)
    requires
        evaluates(backend, graph, first_inputs, first_outs),
        evaluates(backend, graph, second_inputs, second_outs),
        plain_inputs(backend, first_inputs) == plain_inputs(backend, second_inputs),
    ensures
        first_outs.len() == second_outs.len(),
        forall|k: int|
            0 <= k < first_outs.len() ==> backend.plain(&#[trigger] first_outs[k])
                == backend.plain(&second_outs[k]),
{
    assert forall|k: int| 0 <= k < first_outs.len() implies backend.plain(
        &#[trigger] first_outs[k],
    ) == backend.plain(&second_outs[k]) by {
        assert(backend.plain(&second_outs[k]) == graph.value(
            plain_inputs(backend, second_inputs),
            graph.outputs()[k],
        ));
    }
}

/// Shrinking a signed integer whose value fits the new width keeps the
/// value: it fits where every bit from the new sign place upward equals the
/// sign.
pub proof fn law_signed_truncation_fits(bits: Seq<bool>, new_size: nat)
    requires
        1 <= new_size <= bits.len(),
        forall|j: int| new_size - 1 <= j < bits.len() ==> bits[j] == bits.last(),
    ensures
        signed_value(resized(bits, new_size as int, true)) == signed_value(bits),
{
    let narrow = resized(bits, new_size as int, true);
    law_signed_truncation(bits, new_size);
    assert(narrow == bits.take(new_size as int));
    assert(resized(narrow, bits.len() as int, true) =~= bits);
    law_sign_extension(narrow, bits.len());
}

/// An unpacked integer that was written reads back, in either mode, as the
/// same ciphertexts byte for byte; the validated mode asks in addition that
/// they fit the parameters of the cipher.
pub proof fn law_deserialize_serialize<B: Backend>(
    backend: &B,
    cts: Seq<B::Ciphertext>,
    validated: bool,
)
    requires
        framable(encodings(backend, cts)),
        validated ==> forall|i: int| 0 <= i < cts.len() ==> backend.admits(&#[trigger] cts[i]),
    ensures
        unpacked_outcome(backend, frame(encodings(backend, cts)), validated, None) == Ok::<
            Seq<Seq<u8>>,
            DeserializeError,
        >(encodings(backend, cts)),
        cts.len() <= usize::MAX ==> unpacked_outcome(
            backend,
            frame(encodings(backend, cts)),
            validated,
            Some(cts.len() as usize),
        ) == Ok::<Seq<Seq<u8>>, DeserializeError>(encodings(backend, cts)),
{
    let items = encodings(backend, cts);
    law_parse_frame(items);
    assert forall|i: int| 0 <= i < items.len() implies backend.decodes(#[trigger] items[i]) by {
        backend.lemma_encoding(&cts[i], &cts[i]);
    }
    if validated {
        assert forall|i: int| 0 <= i < items.len() implies admitted(
            backend,
            #[trigger] items[i],
        ) by {
            assert forall|ct: B::Ciphertext| #[trigger]
                backend.encoding(&ct) == items[i] implies backend.admits(&ct) by {
                backend.lemma_encoding(&ct, &cts[i]);
                assert(backend.admits(&cts[i]));
            }
        }
    }
}

/// A packed integer that was written reads back, in either mode, with its
/// width and its ciphertext byte for byte.
pub proof fn law_deserialize_serialize_packed<B: Backend>(
    backend: &B,
    width: usize,
    ct: B::Ciphertext,
    validated: bool,
)
    requires
        backend.encoding(&ct).len() <= u64::MAX,
        validated ==> backend.admits(&ct),
    ensures
        packed_outcome(
            backend,
            frame(seq![spec_u64_to_le_bytes(width as u64), backend.encoding(&ct)]),
            validated,
            Some(width),
        ) == Ok::<(usize, Seq<u8>), DeserializeError>((width, backend.encoding(&ct))),
        packed_outcome(
            backend,
            frame(seq![spec_u64_to_le_bytes(width as u64), backend.encoding(&ct)]),
            validated,
            None,
        ) == Ok::<(usize, Seq<u8>), DeserializeError>((width, backend.encoding(&ct))),
{
    lemma_auto_spec_u64_to_from_le_bytes();
    let items = seq![spec_u64_to_le_bytes(width as u64), backend.encoding(&ct)];
    assert(framable(items)) by {
        assert forall|i: int| 0 <= i < items.len() implies (#[trigger] items[i]).len()
            <= u64::MAX by {}
    }
    law_parse_frame(items);
    backend.lemma_encoding(&ct, &ct);
    if validated {
        assert forall|other: B::Ciphertext| #[trigger]
            backend.encoding(&other) == items[1] implies backend.admits(&other) by {
            backend.lemma_encoding(&other, &ct);
        }
    }
}

/// Ciphertexts with the same byte form stand for the same bits, so an
/// integer that was written and read stands for the value that it stood for.
pub proof fn law_same_bytes_same_value<B: Backend>(
    backend: &B,
    written: Seq<B::Ciphertext>,
    read: Seq<B::Ciphertext>,
)
    requires
        encodings(backend, written) == encodings(backend, read),
    ensures
        plain_bits(backend, written) == plain_bits(backend, read),
{
    assert(written.len() == encodings(backend, written).len());
    assert(read.len() == encodings(backend, read).len());
    assert forall|i: int| 0 <= i < written.len() implies plain_bits(backend, written)[i]
        == plain_bits(backend, read)[i] by {
        assert(encodings(backend, written)[i] == encodings(backend, read)[i]);
        backend.lemma_encoding(&written[i], &read[i]);
    }
    assert(plain_bits(backend, written) =~= plain_bits(backend, read));
}

} // verus!
