use parasol_runtime::backend::{Backend, Clear};
use parasol_runtime::bits::{from_bits, to_bits};
use parasol_runtime::circuits::{CircuitError, WidthError};
use parasol_runtime::engine::run_graph_blocking;
use parasol_runtime::graph::{ConstructionError, NodeRef};
use parasol_runtime::integer::{
    DynamicGenericInt, DynamicGenericIntGraphNodes, DynamicInt, DynamicUInt, FheCircuitCtx, UInt,
    UIntGraphNodes,
};
use parasol_runtime::sign::{Sign, Signed, Unsigned};

type Ctx = FheCircuitCtx<Vec<bool>>;

/// One clear ciphertext per bit of each value.
fn bind(values: &[(u64, usize)]) -> Vec<Vec<bool>> {
    let mut inputs = Vec::new();
    for (v, width) in values {
        for b in to_bits(*v, *width) {
            inputs.push(vec![b]);
        }
    }
    inputs
}

fn read(outs: &[Vec<bool>]) -> u64 {
    let bits: Vec<bool> = outs.iter().map(|ct| !ct.is_empty() && ct[0]).collect();
    from_bits(&bits)
}

fn as_signed(v: u64, width: usize) -> i64 {
    if width > 0 && (v >> (width - 1)) & 1 == 1 {
        v as i64 - (1i64 << width)
    } else {
        v as i64
    }
}

fn pattern(v: i64, width: usize) -> u64 {
    (v as u64) & ((1u64 << width) - 1)
}

fn two<U: Sign>(
    n: usize,
    m: usize,
) -> (Ctx, DynamicGenericIntGraphNodes<U>, DynamicGenericIntGraphNodes<U>) {
    let enc = Clear;
    let mut ctx = Ctx::new();
    let a = DynamicGenericInt::<Clear, U>::encrypt(0, &enc, n).graph_inputs(&mut ctx, &enc);
    let b = DynamicGenericInt::<Clear, U>::encrypt(0, &enc, m).graph_inputs(&mut ctx, &enc);
    (ctx, a, b)
}

#[test]
fn addition_wraps_around() {
    let (mut ctx, a, b) = two::<Unsigned>(4, 4);
    let sum = a.add(&b, &mut ctx).unwrap();
    assert_eq!(sum.width(), 4);
    sum.collect_outputs(&mut ctx);
    for x in 0..16u64 {
        for y in 0..16u64 {
            let outs = run_graph_blocking(&ctx.circuit, &bind(&[(x, 4), (y, 4)]), &Clear).unwrap();
            assert_eq!(read(&outs), (x + y) % 16);
        }
    }
}

#[test]
fn subtraction_wraps_around() {
    let (mut ctx, a, b) = two::<Signed>(4, 4);
    let diff = a.sub(&b, &mut ctx).unwrap();
    assert_eq!(diff.width(), 4);
    diff.collect_outputs(&mut ctx);
    for x in 0..16u64 {
        for y in 0..16u64 {
            let outs = run_graph_blocking(&ctx.circuit, &bind(&[(x, 4), (y, 4)]), &Clear).unwrap();
            assert_eq!(read(&outs), (16 + x - y) % 16);
        }
    }
}

#[test]
fn addition_of_wide_integers() {
    let (mut ctx, a, b) = two::<Unsigned>(64, 64);
    a.add(&b, &mut ctx).unwrap().collect_outputs(&mut ctx);
    let x = 0xdead_beef_0123_4567u64;
    let y = 0x7777_0000_ffff_ffffu64;
    let outs = run_graph_blocking(&ctx.circuit, &bind(&[(x, 64), (y, 64)]), &Clear).unwrap();
    assert_eq!(read(&outs), x.wrapping_add(y));
}

#[test]
fn operands_of_unequal_width_are_a_width_error() {
    let (mut ctx, a, b) = two::<Unsigned>(4, 5);
    let before = ctx.circuit.len();
    assert_eq!(a.add(&b, &mut ctx).err(), Some(CircuitError::Width(WidthError::Unequal)));
    assert_eq!(a.sub(&b, &mut ctx).err(), Some(CircuitError::Width(WidthError::Unequal)));
    assert_eq!(ctx.circuit.len(), before);
    let wider = a.resize(&mut ctx, 5).unwrap();
    assert!(wider.add(&b, &mut ctx).is_ok());
}

#[test]
fn an_operand_of_another_graph_is_a_construction_error() {
    let (_, a, _) = two::<Unsigned>(4, 4);
    let mut other = Ctx::new();
    let foreign = CircuitError::Construction(ConstructionError::ForeignNode);
    assert_eq!(a.add(&a, &mut other).err(), Some(foreign));
    assert_eq!(a.sub(&a, &mut other).err(), Some(foreign));
    assert_eq!(a.resize(&mut other, 8).err(), Some(foreign));
    assert_eq!(a.pack(&mut other).err(), Some(foreign));
    assert_eq!(a.compare(&a, &mut other, true, false).err(), Some(foreign));
    assert_eq!(a.mul(&a, &mut other, 4).err(), Some(foreign));
    assert_eq!(other.circuit.len(), 0);
    let made = DynamicGenericIntGraphNodes::<Signed>::from_nodes(vec![NodeRef { index: 0 }]);
    assert_eq!(made.nodes(), &vec![NodeRef { index: 0 }]);
    assert_eq!(made.resize(&mut other, 2).err(), Some(foreign));
}

fn resize_of<U: Sign>(v: u64, old: usize, new: usize) -> u64 {
    let enc = Clear;
    let mut ctx = Ctx::new();
    let a = DynamicGenericInt::<Clear, U>::encrypt(v, &enc, old).graph_inputs(&mut ctx, &enc);
    let out = a.resize(&mut ctx, new).unwrap();
    assert_eq!(out.width(), new);
    let handle = out.collect_outputs(&mut ctx);
    let outs = run_graph_blocking(&ctx.circuit, &ctx.inputs, &enc).unwrap();
    handle.resolve(&outs, &enc).unwrap().decrypt(&enc)
}

#[test]
fn growing_a_signed_integer_keeps_its_value() {
    for v in 0..16u64 {
        let wide = resize_of::<Signed>(v, 4, 9);
        assert_eq!(as_signed(wide, 9), as_signed(v, 4));
    }
    assert_eq!(resize_of::<Signed>(0b1000, 4, 8), 0b1111_1000);
    assert_eq!(resize_of::<Signed>(0b0111, 4, 8), 0b0000_0111);
    assert_eq!(resize_of::<Signed>(1, 1, 3), 0b111);
    assert_eq!(resize_of::<Signed>(0b101, 3, 3), 0b101);
}

#[test]
fn growing_an_unsigned_integer_pads_with_zeros() {
    for v in 0..16u64 {
        assert_eq!(resize_of::<Unsigned>(v, 4, 9), v);
    }
    assert_eq!(resize_of::<Unsigned>(0, 0, 3), 0);
}

#[test]
fn shrinking_an_unsigned_integer_keeps_the_low_bits() {
    for v in 0..64u64 {
        assert_eq!(resize_of::<Unsigned>(v, 6, 4), v % 16);
    }
    assert_eq!(resize_of::<Unsigned>(0b1111, 4, 0), 0);
}

#[test]
fn shrinking_a_signed_integer_keeps_the_sign_on_top() {
    // the low two bits, then the old sign
    assert_eq!(resize_of::<Signed>(0b0110, 4, 3), 0b010);
    assert_eq!(resize_of::<Signed>(0b1001, 4, 3), 0b101);
    assert_eq!(resize_of::<Signed>(0b1000, 4, 1), 0b1);
    // where the value fits the new width, it is kept
    for v in -4i64..4 {
        let narrow = resize_of::<Signed>(pattern(v, 6), 6, 3);
        assert_eq!(as_signed(narrow, 3), v);
    }
}

#[test]
fn a_signed_integer_has_at_least_its_sign() {
    let enc = Clear;
    let mut ctx = Ctx::new();
    let a = DynamicInt::<Clear>::encrypt(1, &enc, 2).graph_inputs(&mut ctx, &enc);
    let none = DynamicInt::<Clear>::encrypt(0, &enc, 0).graph_inputs(&mut ctx, &enc);
    let unsupported = CircuitError::Width(WidthError::Unsupported);
    assert_eq!(a.resize(&mut ctx, 0).err(), Some(unsupported));
    assert_eq!(none.resize(&mut ctx, 4).err(), Some(unsupported));
    assert_eq!(a.mul(&a, &mut ctx, 0).err(), Some(unsupported));
    assert_eq!(a.compare(&none, &mut ctx, true, true).err(), Some(unsupported));
    assert_eq!(none.mul(&a, &mut ctx, 4).err(), Some(unsupported));
}

fn compare_all<U: Sign>(n: usize, m: usize, signed: bool) {
    for (greater, or_equal) in [(false, false), (false, true), (true, false), (true, true)] {
        let (mut ctx, a, b) = two::<U>(n, m);
        let answer = a.compare(&b, &mut ctx, greater, or_equal).unwrap();
        ctx.circuit.mark_output(answer);
        for x in 0..(1u64 << n) {
            for y in 0..(1u64 << m) {
                let outs =
                    run_graph_blocking(&ctx.circuit, &bind(&[(x, n), (y, m)]), &Clear).unwrap();
                let (l, r) = if signed {
                    (as_signed(x, n), as_signed(y, m))
                } else {
                    (x as i64, y as i64)
                };
                let expected = if greater { l > r } else { l < r } || (or_equal && l == r);
                assert_eq!(outs[0], vec![expected], "{l} vs {r}, {greater} {or_equal}");
            }
        }
    }
}

#[test]
fn unsigned_comparison_is_right_on_every_pair() {
    compare_all::<Unsigned>(1, 1, false);
    compare_all::<Unsigned>(4, 4, false);
}

#[test]
fn signed_comparison_is_right_on_every_pair() {
    compare_all::<Signed>(1, 1, true);
    compare_all::<Signed>(4, 4, true);
}

#[test]
fn comparison_resizes_the_narrower_operand() {
    compare_all::<Unsigned>(2, 4, false);
    compare_all::<Signed>(4, 2, true);
}

#[test]
fn comparison_of_wide_integers() {
    let (mut ctx, a, b) = two::<Signed>(32, 32);
    let answer = a.compare(&b, &mut ctx, true, false).unwrap();
    ctx.circuit.mark_output(answer);
    let cases: [(i64, i64); 6] = [
        (0, 0),
        (-1, 0),
        (123456789, 123456788),
        (-2147483648, 2147483647),
        (2147483647, -2147483648),
        (-5, -6),
    ];
    for (x, y) in cases {
        let inputs = bind(&[(pattern(x, 32), 32), (pattern(y, 32), 32)]);
        let outs = run_graph_blocking(&ctx.circuit, &inputs, &Clear).unwrap();
        assert_eq!(outs[0], vec![x > y]);
    }
}

#[test]
fn comparison_is_refused_where_there_is_no_comparator() {
    let unsupported = CircuitError::Width(WidthError::Unsupported);
    let (mut ctx, a, b) = two::<Unsigned>(0, 4);
    assert_eq!(a.compare(&b, &mut ctx, true, true).err(), Some(unsupported));
    assert_eq!(b.compare(&a, &mut ctx, true, true).err(), Some(unsupported));
    let wide = DynamicGenericIntGraphNodes::<Unsigned>::from_nodes(vec![NodeRef { index: 0 }; 32767]);
    assert_eq!(wide.compare(&b, &mut ctx, true, true).err(), Some(unsupported));
}

fn multiply_all<U: Sign>(n: usize, m: usize, out: usize, signed: bool) {
    let (mut ctx, a, b) = two::<U>(n, m);
    let product = a.mul(&b, &mut ctx, out).unwrap();
    assert_eq!(product.width(), out);
    product.collect_outputs(&mut ctx);
    for x in 0..(1u64 << n) {
        for y in 0..(1u64 << m) {
            let outs = run_graph_blocking(&ctx.circuit, &bind(&[(x, n), (y, m)]), &Clear).unwrap();
            let expected = if signed {
                pattern(as_signed(x, n) * as_signed(y, m), out)
            } else {
                pattern((x * y) as i64, out)
            };
            assert_eq!(read(&outs), expected, "{x} * {y}");
        }
    }
}

#[test]
fn unsigned_multiplication_is_right_on_every_pair() {
    multiply_all::<Unsigned>(1, 1, 2, false);
    multiply_all::<Unsigned>(3, 3, 6, false);
    multiply_all::<Unsigned>(2, 3, 5, false);
    multiply_all::<Unsigned>(4, 4, 8, false);
    multiply_all::<Unsigned>(1, 4, 5, false);
    multiply_all::<Unsigned>(5, 2, 7, false);
}

#[test]
fn signed_multiplication_is_right_on_every_pair() {
    multiply_all::<Signed>(1, 1, 2, true);
    multiply_all::<Signed>(2, 2, 4, true);
    multiply_all::<Signed>(3, 2, 5, true);
    multiply_all::<Signed>(4, 4, 8, true);
}

#[test]
fn a_product_is_cut_or_extended_to_the_width_asked_for() {
    multiply_all::<Unsigned>(3, 3, 3, false);
    multiply_all::<Unsigned>(3, 3, 9, false);
    multiply_all::<Signed>(2, 2, 7, true);
    multiply_all::<Unsigned>(3, 3, 0, false);
}

#[test]
fn multiplication_of_bytes() {
    let (mut ctx, a, b) = two::<Unsigned>(8, 8);
    a.mul(&b, &mut ctx, 16).unwrap().collect_outputs(&mut ctx);
    for (x, y) in [(0u64, 0u64), (255, 255), (1, 200), (17, 13), (128, 2), (99, 101)] {
        let outs = run_graph_blocking(&ctx.circuit, &bind(&[(x, 8), (y, 8)]), &Clear).unwrap();
        assert_eq!(read(&outs), x * y);
    }
}

#[test]
fn multiplication_is_refused_where_there_is_no_multiplier() {
    let unsupported = CircuitError::Width(WidthError::Unsupported);
    let (mut ctx, a, b) = two::<Unsigned>(0, 4);
    assert_eq!(a.mul(&b, &mut ctx, 4).err(), Some(unsupported));
    let wide = DynamicGenericIntGraphNodes::<Unsigned>::from_nodes(vec![NodeRef { index: 0 }; 200]);
    assert_eq!(wide.mul(&wide, &mut ctx, 4).err(), Some(unsupported));
    assert!(!Unsigned::can_multiply(200, 200));
    assert!(Unsigned::can_multiply(16, 16));
    assert!(Signed::can_multiply(8, 8));
    assert!(!Signed::can_multiply(0, 8));
    assert!(!Signed::can_multiply(100, 100));
}

#[test]
fn chi_squared_on_sixteen_bit_integers() {
    let enc = Clear;
    let mut ctx = Ctx::new();
    let n0 = UInt::<16, Clear>::encrypt_secret(2, &enc).graph_inputs(&mut ctx, &enc);
    let n1 = UInt::<16, Clear>::encrypt_secret(7, &enc).graph_inputs(&mut ctx, &enc);
    let n2 = UInt::<16, Clear>::encrypt_secret(9, &enc).graph_inputs(&mut ctx, &enc);
    let four = UInt::<16, Clear>::trivial_encrypt(4, &enc).graph_inputs(&mut ctx, &enc);
    let two = UInt::<16, Clear>::trivial_encrypt(2, &enc).graph_inputs(&mut ctx, &enc);

    let mul = |x: &UIntGraphNodes<16>, y: &UIntGraphNodes<16>, ctx: &mut Ctx| {
        x.mul::<16, Vec<bool>>(y, ctx).unwrap()
    };

    // a = 4 * n0 * n2 - n1 * n1
    let t0 = mul(&four, &n0, &mut ctx);
    let t0 = mul(&t0, &n2, &mut ctx);
    let t1 = mul(&n1, &n1, &mut ctx);
    let a = t0.sub(&t1, &mut ctx).unwrap();
    // x = 2 * n0 + n1
    let t1 = mul(&two, &n0, &mut ctx);
    let x = t1.add(&n1, &mut ctx).unwrap();
    // y = 2 * n2 + n1
    let t2 = mul(&two, &n2, &mut ctx);
    let y = t2.add(&n1, &mut ctx).unwrap();

    let alpha = mul(&a, &a, &mut ctx);
    let xx = mul(&x, &x, &mut ctx);
    let b1 = mul(&xx, &two, &mut ctx);
    let b2 = mul(&x, &y, &mut ctx);
    let yy = mul(&y, &y, &mut ctx);
    let b3 = mul(&two, &yy, &mut ctx);

    let alpha = alpha.collect_outputs(&mut ctx);
    let b1 = b1.collect_outputs(&mut ctx);
    let b2 = b2.collect_outputs(&mut ctx);
    let b3 = b3.collect_outputs(&mut ctx);

    let outs = run_graph_blocking(&ctx.circuit, &ctx.inputs, &enc).unwrap();

    assert_eq!(alpha.resolve(&outs, &enc).unwrap().decrypt(&enc), 529);
    assert_eq!(b1.resolve(&outs, &enc).unwrap().decrypt(&enc), 242);
    assert_eq!(b2.resolve(&outs, &enc).unwrap().decrypt(&enc), 275);
    assert_eq!(b3.resolve(&outs, &enc).unwrap().decrypt(&enc), 1250);

    let again = run_graph_blocking(&ctx.circuit, &ctx.inputs, &enc).unwrap();
    assert_eq!(outs, again);
}

#[test]
fn fixed_and_dynamic_integers_share_their_circuits() {
    let enc = Clear;
    let mut ctx = Ctx::new();
    let a = UInt::<4, Clear>::encrypt(11, &enc).graph_inputs(&mut ctx, &enc);
    let b = UInt::<4, Clear>::encrypt(6, &enc).graph_inputs(&mut ctx, &enc);
    let sum = a.add(&b, &mut ctx).unwrap();
    let wide = sum.resize::<8, Vec<bool>>(&mut ctx).unwrap();
    let less = a.compare(&b, &mut ctx, false, false).unwrap();
    let same = UIntGraphNodes::<4>::from_dynamic(
        DynamicGenericIntGraphNodes::from_nodes(a.as_dynamic().nodes().clone()),
    )
    .unwrap();
    assert!(UIntGraphNodes::<5>::from_dynamic(
        DynamicGenericIntGraphNodes::from_nodes(a.as_dynamic().nodes().clone())
    )
    .is_none());
    let diff = same.sub(&b, &mut ctx).unwrap();
    let wide = wide.collect_outputs(&mut ctx);
    let diff = diff.collect_outputs(&mut ctx);
    ctx.circuit.mark_output(less);
    let outs = run_graph_blocking(&ctx.circuit, &ctx.inputs, &enc).unwrap();
    assert_eq!(wide.resolve(&outs, &enc).unwrap().decrypt(&enc), 1);
    assert_eq!(diff.resolve(&outs, &enc).unwrap().decrypt(&enc), 5);
    assert_eq!(enc.decrypt(&outs[12], 1), vec![false]);
    let d = DynamicUInt::<Clear>::encrypt(3, &enc, 4);
    assert_eq!(d.width(), 4);
}
