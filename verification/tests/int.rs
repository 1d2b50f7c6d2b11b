use parasol_runtime::backend::Clear;
use parasol_runtime::circuits::CircuitError;
use parasol_runtime::engine::{run_graph_blocking, RunError};
use parasol_runtime::graph::ConstructionError;
use parasol_runtime::integer::{
    DynamicInt, FheCircuitCtx, Int, PackedDynamicInt, PackedInt, PackedUInt, UInt,
};

#[test]
fn can_roundtrip_packed_int() {
    let enc = Clear;

    let val = PackedInt::<16, Clear>::encrypt(2u64.pow(16) - 42, &enc);

    assert_eq!(val.decrypt(&enc), 2u64.pow(16) - 42);
}

#[test]
fn can_roundtrip_packed_dyn_int() {
    let enc = Clear;

    let val = PackedDynamicInt::<Clear>::encrypt(2u64.pow(16) - 42, &enc, 16);

    assert_eq!(val.decrypt(&enc), 2u64.pow(16) - 42);
}

#[test]
fn can_unpack_int() {
    let enc = Clear;

    let val = PackedInt::<16, Clear>::encrypt(2u64.pow(16) - 42, &enc);

    let mut ctx = FheCircuitCtx::new();

    let as_unpacked = val
        .graph_input(&mut ctx, &enc)
        .unpack(&mut ctx)
        .unwrap()
        .collect_outputs(&mut ctx);

    let outs = run_graph_blocking(&ctx.circuit, &ctx.inputs, &enc).unwrap();

    assert_eq!(
        as_unpacked.resolve(&outs, &enc).unwrap().decrypt(&enc),
        2u64.pow(16) - 42
    );
}

#[test]
fn can_unpack_dyn_int() {
    let enc = Clear;

    let val = PackedDynamicInt::<Clear>::encrypt(2u64.pow(16) - 42, &enc, 16);

    let mut ctx = FheCircuitCtx::new();

    let as_unpacked = val
        .graph_input(&mut ctx, &enc)
        .unpack(&mut ctx)
        .unwrap()
        .collect_outputs(&mut ctx);

    let outs = run_graph_blocking(&ctx.circuit, &ctx.inputs, &enc).unwrap();

    assert_eq!(
        as_unpacked.resolve(&outs, &enc).unwrap().decrypt(&enc),
        2u64.pow(16) - 42
    );
}

#[test]
fn can_pack_int() {
    let enc = Clear;

    let val = Int::<15, Clear>::encrypt_secret(2u64.pow(15) - 42, &enc);

    let mut ctx = FheCircuitCtx::new();

    let actual = val
        .graph_inputs(&mut ctx, &enc)
        .pack(&mut ctx)
        .unwrap()
        .collect_output(&mut ctx);

    let outs = run_graph_blocking(&ctx.circuit, &ctx.inputs, &enc).unwrap();

    assert_eq!(
        actual.resolve(&outs, &enc).unwrap().decrypt(&enc),
        2u64.pow(15) - 42
    );
}

#[test]
fn can_pack_dyn_int() {
    let enc = Clear;

    let val = DynamicInt::<Clear>::encrypt_secret(2u64.pow(15) - 42, &enc, 15);

    let mut ctx = FheCircuitCtx::new();

    let actual = val
        .graph_inputs(&mut ctx, &enc)
        .pack(&mut ctx)
        .unwrap()
        .collect_output(&mut ctx);

    let outs = run_graph_blocking(&ctx.circuit, &ctx.inputs, &enc).unwrap();

    assert_eq!(
        actual.resolve(&outs, &enc).unwrap().decrypt(&enc),
        2u64.pow(15) - 42
    );
}

#[test]
fn can_trivial_encrypt_packed_int() {
    let enc = Clear;

    let val = PackedInt::<15, Clear>::trivial_encrypt(2u64.pow(15) - 42, &enc);

    assert_eq!(val.decrypt(&enc), 2u64.pow(15) - 42);
}

#[test]
fn can_trivial_encrypt_packed_dyn_int() {
    let enc = Clear;

    let val = PackedDynamicInt::<Clear>::trivial_encrypt(2u64.pow(15) - 42, &enc, 15);

    assert_eq!(val.decrypt(&enc), 2u64.pow(15) - 42);
}

#[test]
fn unpacked_integers_round_trip_at_every_small_width() {
    let enc = Clear;
    for width in 0..=10usize {
        for v in 0..(1u64 << width) {
            let signed = DynamicInt::<Clear>::encrypt(v, &enc, width);
            assert_eq!(signed.width(), width);
            assert_eq!(signed.decrypt(&enc), v);
            let packed = PackedDynamicInt::<Clear>::encrypt_secret(v, &enc, width);
            assert_eq!(packed.decrypt(&enc), v);
        }
    }
}

#[test]
fn encryption_keeps_the_low_bits_of_a_value_that_is_too_wide() {
    let enc = Clear;
    assert_eq!(UInt::<8, Clear>::encrypt(0x1234, &enc).decrypt(&enc), 0x34);
    assert_eq!(PackedUInt::<8, Clear>::encrypt(0x1234, &enc).decrypt(&enc), 0x34);
    assert_eq!(Int::<4, Clear>::trivial_encrypt(0xff, &enc).decrypt(&enc), 0xf);
}

#[test]
fn wide_integers_decrypt_to_their_low_64_bits() {
    let enc = Clear;
    let val = UInt::<80, Clear>::encrypt(u64::MAX - 5, &enc);
    assert_eq!(val.decrypt(&enc), u64::MAX - 5);
    let val = Int::<64, Clear>::encrypt(u64::MAX, &enc);
    assert_eq!(val.decrypt(&enc), u64::MAX);
}

#[test]
fn pack_then_unpack_gives_the_integer_back() {
    let enc = Clear;
    for v in [0u64, 1, 2, 0x55, 0xaa, 0xff] {
        let val = UInt::<8, Clear>::encrypt(v, &enc);
        let mut ctx = FheCircuitCtx::new();
        let out = val
            .graph_inputs(&mut ctx, &enc)
            .pack(&mut ctx)
            .unwrap()
            .unpack(&mut ctx)
            .unwrap()
            .collect_outputs(&mut ctx);
        let outs = run_graph_blocking(&ctx.circuit, &ctx.inputs, &enc).unwrap();
        assert_eq!(out.resolve(&outs, &enc).unwrap().decrypt(&enc), v);
    }
}

#[test]
fn unpack_then_pack_gives_the_integer_back() {
    let enc = Clear;
    for v in [0u64, 1, 2, 0x1555, 0x2aaa, 0x7fff] {
        let val = PackedInt::<15, Clear>::encrypt(v, &enc);
        let mut ctx = FheCircuitCtx::new();
        let out = val
            .graph_input(&mut ctx, &enc)
            .unpack(&mut ctx)
            .unwrap()
            .pack(&mut ctx)
            .unwrap()
            .collect_output(&mut ctx);
        let outs = run_graph_blocking(&ctx.circuit, &ctx.inputs, &enc).unwrap();
        assert_eq!(out.resolve(&outs, &enc).unwrap().decrypt(&enc), v);
    }
}

#[test]
fn resolve_needs_enough_outputs() {
    let enc = Clear;
    let val = UInt::<4, Clear>::encrypt(9, &enc);
    let mut ctx = FheCircuitCtx::new();
    let out = val.graph_inputs(&mut ctx, &enc).collect_outputs(&mut ctx);
    let outs = run_graph_blocking(&ctx.circuit, &ctx.inputs, &enc).unwrap();
    assert_eq!(outs.len(), 4);
    assert!(out.resolve(&outs, &enc).is_some());
    let short: Vec<Vec<bool>> = vec![vec![true]];
    assert!(out.resolve(&short, &enc).is_none());
}

#[test]
fn a_packed_integer_of_another_graph_is_a_construction_error() {
    let enc = Clear;
    let mut ctx = FheCircuitCtx::new();
    let packed = PackedUInt::<4, Clear>::encrypt(3, &enc).graph_input(&mut ctx, &enc);
    let mut other: FheCircuitCtx<Vec<bool>> = FheCircuitCtx::new();
    assert_eq!(
        packed.unpack(&mut other).err(),
        Some(CircuitError::Construction(ConstructionError::ForeignNode))
    );
    assert_eq!(other.circuit.len(), 0);
}

#[test]
fn an_output_of_another_graph_is_found_at_submission() {
    let enc = Clear;
    let mut ctx = FheCircuitCtx::new();
    let a = UInt::<4, Clear>::encrypt(3, &enc).graph_inputs(&mut ctx, &enc);
    let packed = PackedUInt::<4, Clear>::encrypt(3, &enc).graph_input(&mut ctx, &enc);
    let mut other: FheCircuitCtx<Vec<bool>> = FheCircuitCtx::new();
    a.collect_outputs(&mut other);
    assert!(!other.circuit.check_outputs());
    assert_eq!(
        run_graph_blocking(&other.circuit, &other.inputs, &enc),
        Err(RunError::Construction(ConstructionError::ForeignNode))
    );
    let mut other: FheCircuitCtx<Vec<bool>> = FheCircuitCtx::new();
    packed.collect_output(&mut other);
    assert_eq!(
        run_graph_blocking(&other.circuit, &other.inputs, &enc),
        Err(RunError::Construction(ConstructionError::ForeignNode))
    );
}

#[test]
fn a_signed_integer_decrypts_to_its_value_in_twos_complement() {
    let enc = Clear;
    assert_eq!(Int::<4, Clear>::encrypt(0b1010, &enc).decrypt_value(&enc), Some(-6));
    assert_eq!(Int::<4, Clear>::encrypt(0b0101, &enc).decrypt_value(&enc), Some(5));
    assert_eq!(UInt::<4, Clear>::encrypt(0b1010, &enc).decrypt_value(&enc), Some(10));
    assert_eq!(PackedInt::<16, Clear>::encrypt(2u64.pow(16) - 42, &enc).decrypt_value(&enc), Some(-42));
    assert_eq!(PackedUInt::<16, Clear>::encrypt(65494, &enc).decrypt_value(&enc), Some(65494));
    assert_eq!(Int::<64, Clear>::encrypt(u64::MAX, &enc).decrypt_value(&enc), Some(-1));
    assert_eq!(
        Int::<64, Clear>::encrypt(1 << 63, &enc).decrypt_value(&enc),
        Some(i64::MIN as i128)
    );
    assert_eq!(
        UInt::<64, Clear>::encrypt(u64::MAX, &enc).decrypt_value(&enc),
        Some(u64::MAX as i128)
    );
    assert_eq!(DynamicInt::<Clear>::encrypt(0, &enc, 0).decrypt_value(&enc), Some(0));
    assert_eq!(DynamicInt::<Clear>::encrypt(1, &enc, 1).decrypt_value(&enc), Some(-1));
    assert_eq!(PackedDynamicInt::<Clear>::encrypt(5, &enc, 3).decrypt_value(&enc), Some(-3));
    assert_eq!(Int::<65, Clear>::encrypt(1, &enc).decrypt_value(&enc), None);
    assert_eq!(PackedDynamicInt::<Clear>::encrypt(1, &enc, 65).decrypt_value(&enc), None);
}

#[test]
fn growing_a_signed_integer_keeps_what_it_decrypts_to() {
    let enc = Clear;
    for v in 0..32u64 {
        let val = Int::<5, Clear>::encrypt(v, &enc);
        let mut ctx = FheCircuitCtx::new();
        let wide = val
            .graph_inputs(&mut ctx, &enc)
            .resize::<11, Vec<bool>>(&mut ctx)
            .unwrap()
            .collect_outputs(&mut ctx);
        let outs = run_graph_blocking(&ctx.circuit, &ctx.inputs, &enc).unwrap();
        assert_eq!(
            wide.resolve(&outs, &enc).unwrap().decrypt_value(&enc),
            val.decrypt_value(&enc)
        );
    }
}
