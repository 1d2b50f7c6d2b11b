//! Bit strings and the numbers they stand for.
//!
//! A bit string is a `Seq<bool>` with the least significant bit first.

use vstd::arithmetic::div_mod::*;
use vstd::arithmetic::power2::*;
use vstd::prelude::*;

verus! {

/// What a bit contributes at position `k`.
pub open spec fn weight(b: bool, k: nat) -> nat {
    if b {
        pow2(k)
    } else {
        0
    }
}

/// The natural number that `bits` spells, least significant bit first.
pub open spec fn bits_value(bits: Seq<bool>) -> nat
    decreases bits.len(),
{
    if bits.len() == 0 {
        0
    } else {
        bits_value(bits.drop_last()) + weight(bits.last(), (bits.len() - 1) as nat)
    }
}

/// Bit `k` of the binary expansion of `v`.
pub open spec fn bit_at(v: nat, k: nat) -> bool {
    (v / pow2(k)) % 2 == 1
}

/// The lowest `n` bits of `v`.
pub open spec fn bits_of(v: nat, n: nat) -> Seq<bool> {
    Seq::new(n, |i: int| bit_at(v, i as nat))
}

/// The two's complement reading of `bits`: the top bit counts negatively.
pub open spec fn signed_value(bits: Seq<bool>) -> int {
    if bits.len() > 0 && bits.last() {
        bits_value(bits) - pow2(bits.len())
    } else {
        bits_value(bits) as int
    }
}

/// `n` copies of one bit.
pub open spec fn repeat_bit(b: bool, n: nat) -> Seq<bool> {
    Seq::new(n, |i: int| b)
}

/// Appending a bit adds its weight.
pub proof fn lemma_value_push(bits: Seq<bool>, b: bool)
    ensures
        bits_value(bits.push(b)) == bits_value(bits) + weight(b, bits.len()),
{
    assert(bits.push(b).drop_last() =~= bits);
}

/// A string of `n` bits spells a number below `2^n`.
pub proof fn lemma_value_bound(bits: Seq<bool>)
    ensures
        bits_value(bits) < pow2(bits.len()),
    decreases bits.len(),
{
    if bits.len() == 0 {
        lemma_pow2_pos(0);
    } else {
        lemma_value_bound(bits.drop_last());
        lemma_pow2_unfold(bits.len());
    }
}

proof fn lemma_quotient_shifted(v: nat, low: nat, p: nat, m: nat)
    requires
        p > 0,
        v == low + p * (2 * m),
    ensures
        (v / p) % 2 == (low / p) % 2,
{
    let q = low as int / p as int;
    let r = low as int % p as int;
    lemma_fundamental_div_mod(low as int, p as int);
    assert(v as int == (q + 2 * m) * p + r) by (nonlinear_arith)
        requires
            low as int == p * q + r,
            v == low + p * (2 * m),
    ;
    lemma_fundamental_div_mod_converse(v as int, p as int, q + 2 * m, r);
}

/// Bit `k` of the number that `bits` spells is `bits[k]`, and zero past the end.
pub proof fn lemma_bit_at_value(bits: Seq<bool>, k: nat)
    ensures
        bit_at(bits_value(bits), k) == (k < bits.len() && bits[k as int]),
    decreases bits.len(),
{
    let v = bits_value(bits);
    let n = bits.len();
    lemma_pow2_pos(k);
    lemma_value_bound(bits);
    if k >= n {
        if k > n {
            lemma_pow2_strictly_increases(n, k);
        }
        lemma_basic_div(v as int, pow2(k) as int);
    } else {
        let rest = bits.drop_last();
        let low = bits_value(rest);
        lemma_value_bound(rest);
        if k == n - 1 {
            if bits.last() {
                lemma_fundamental_div_mod_converse(v as int, pow2(k) as int, 1, low as int);
            } else {
                lemma_basic_div(v as int, pow2(k) as int);
            }
        } else {
            lemma_bit_at_value(rest, k);
            if bits.last() {
                let gap = (n - 1 - k) as nat;
                lemma_pow2_adds(k, gap);
                lemma_pow2_unfold(gap);
                let m = pow2((gap - 1) as nat);
                assert(pow2((n - 1) as nat) == pow2(k) * (2 * m));
                lemma_quotient_shifted(v, low, pow2(k), m);
            }
        }
    }
}

/// Reading the lowest `n` bits of `v` and spelling them again gives `v` modulo `2^n`.
pub proof fn lemma_value_of_bits(v: nat, n: nat)
    ensures
        bits_value(bits_of(v, n)) == v % pow2(n),
    decreases n,
{
    if n == 0 {
        lemma2_to64();
    } else {
        let p = pow2((n - 1) as nat);
        lemma_pow2_pos((n - 1) as nat);
        lemma_pow2_unfold(n);
        assert(bits_of(v, n).drop_last() =~= bits_of(v, (n - 1) as nat));
        lemma_value_of_bits(v, (n - 1) as nat);
        lemma_mod_breakdown(v as int, p as int, 2);
        let top = (v as int / p as int) % 2;
        assert(p * top == weight(bit_at(v, (n - 1) as nat), (n - 1) as nat)) by (nonlinear_arith)
            requires
                top == 0 || top == 1,
                top == 1 <==> bit_at(v, (n - 1) as nat),
                p == pow2((n - 1) as nat),
        ;
        assert(p * 2 == pow2(n));
    }
}

/// Spelling a bit string and reading back as many bits gives the string.
pub proof fn lemma_bits_of_value(bits: Seq<bool>)
    ensures
        bits_of(bits_value(bits), bits.len()) == bits,
{
    assert forall|i: int| 0 <= i < bits.len() implies bits_of(bits_value(bits), bits.len())[i]
        == bits[i] by {
        lemma_bit_at_value(bits, i as nat);
    }
    assert(bits_of(bits_value(bits), bits.len()) =~= bits);
}

/// The value of a concatenation: the second part is shifted past the first.
pub proof fn lemma_value_concat(a: Seq<bool>, b: Seq<bool>)
    ensures
        bits_value(a + b) == bits_value(a) + pow2(a.len()) * bits_value(b),
    decreases b.len(),
{
    if b.len() == 0 {
        assert(a + b =~= a);
        assert(pow2(a.len()) * 0 == 0);
    } else {
        let rest = b.drop_last();
        assert((a + b).drop_last() =~= a + rest);
        lemma_value_concat(a, rest);
        lemma_pow2_adds(a.len(), rest.len());
        let p = pow2(a.len());
        let w = weight(b.last(), rest.len());
        assert(weight(b.last(), (a.len() + rest.len()) as nat) == p * w) by (nonlinear_arith)
            requires
                pow2(a.len() + rest.len()) == p * pow2(rest.len()),
                w == weight(b.last(), rest.len()),
        ;
        assert(p * (bits_value(rest) + w) == p * bits_value(rest) + p * w) by (nonlinear_arith);
    }
}

/// The first `m` bits spell the value modulo `2^m`.
pub proof fn lemma_value_take(bits: Seq<bool>, m: nat)
    requires
        m <= bits.len(),
    ensures
        bits_value(bits.take(m as int)) == bits_value(bits) % pow2(m),
{
    let low = bits.take(m as int);
    let high = bits.skip(m as int);
    assert(low + high =~= bits);
    lemma_value_concat(low, high);
    lemma_value_bound(low);
    lemma_pow2_pos(m);
    assert(bits_value(bits) as int == bits_value(high) * pow2(m) + bits_value(low)) by (nonlinear_arith)
        requires
            bits_value(bits) == bits_value(low) + pow2(m) * bits_value(high),
    ;
    lemma_fundamental_div_mod_converse(
        bits_value(bits) as int,
        pow2(m) as int,
        bits_value(high) as int,
        bits_value(low) as int,
    );
}

/// `n` zero bits spell zero; `n` one bits spell `2^n - 1`.
pub proof fn lemma_value_repeat(b: bool, n: nat)
    ensures
        bits_value(repeat_bit(b, n)) == if b {
            pow2(n) - 1
        } else {
            0
        },
    decreases n,
{
    if n == 0 {
        lemma2_to64();
    } else {
        assert(repeat_bit(b, n).drop_last() =~= repeat_bit(b, (n - 1) as nat));
        lemma_value_repeat(b, (n - 1) as nat);
        lemma_pow2_unfold(n);
    }
}

/// The lowest `width` bits of `value`, least significant first.
pub fn to_bits(value: u64, width: usize) -> (bits: Vec<bool>)
    ensures
        bits@ == bits_of(value as nat, width as nat),
{
    let mut bits: Vec<bool> = Vec::new();
    let mut rest: u64 = value;
    let mut i: usize = 0;
    proof {
        lemma2_to64();
    }
    while i < width
        invariant
            i <= width,
            bits@ == bits_of(value as nat, i as nat),
            rest as nat == (value as nat) / pow2(i as nat),
        decreases width - i,
    {
        proof {
            lemma_pow2_pos(i as nat);
            lemma_pow2_unfold((i + 1) as nat);
            lemma_div_denominator(value as int, pow2(i as nat) as int, 2);
        }
        bits.push(rest % 2 == 1);
        rest = rest / 2;
        i += 1;
        assert(bits@ =~= bits_of(value as nat, i as nat));
    }
    bits
}

/// The number that the first 64 bits of `bits` spell.
pub fn from_bits(bits: &Vec<bool>) -> (value: u64)
    ensures
        value as nat == bits_value(
            bits@.take(
                if bits@.len() < 64 {
                    bits@.len() as int
                } else {
                    64
                },
            ),
        ),
{
    let n: usize = if bits.len() < 64 {
        bits.len()
    } else {
        64
    };
    let mut value: u64 = 0;
    let mut unit: u64 = 1;
    let mut i: usize = 0;
    proof {
        lemma2_to64();
    }
    while i < n
        invariant
            i <= n <= 64,
            n <= bits@.len(),
            value as nat == bits_value(bits@.take(i as int)),
            i < 64 ==> unit as nat == pow2(i as nat),
        decreases n - i,
    {
        proof {
            lemma_value_bound(bits@.take(i as int));
            lemma_pow2_unfold((i + 1) as nat);
            lemma2_to64();
            if i + 1 < 64 {
                lemma_pow2_strictly_increases((i + 1) as nat, 64);
            }
            assert(bits@.take(i + 1) =~= bits@.take(i as int).push(bits@[i as int]));
            lemma_value_push(bits@.take(i as int), bits@[i as int]);
        }
        if bits[i] {
            value = value + unit;
        }
        if i + 1 < 64 {
            unit = unit * 2;
        }
        i += 1;
    }
    value
}

} // verus!
