use parasol_runtime::backend::{Backend, Clear, Leveled, LeveledBits};
use parasol_runtime::engine::run_graph_blocking;
use parasol_runtime::graph::{FheCircuit, GateOp};
use parasol_runtime::integer::{
    DynamicInt, DynamicUInt, Int, PackedDynamicInt, PackedInt, PackedUInt, UInt,
};
use parasol_runtime::serial::{read_frame, write_frame, DeserializeError};

#[test]
fn can_safe_deserialize_int() {
    let enc = Clear;
    let val = Int::<15, Clear>::encrypt_secret(2u64.pow(15) - 42, &enc);
    let ser = val.serialize(&enc);
    let back = Int::<15, Clear>::deserialize(&ser, &enc).unwrap();
    assert_eq!(back.decrypt(&enc), 2u64.pow(15) - 42);

    let enc = Leveled { depth: 3 };
    let val = Int::<15, Leveled>::encrypt_secret(2u64.pow(15) - 42, &enc);
    let ser = val.serialize(&enc);
    let back = Int::<15, Leveled>::deserialize(&ser, &enc).unwrap();
    assert_eq!(back.decrypt(&enc), 2u64.pow(15) - 42);
}

#[test]
fn can_unsafe_deserialize_dyn_int() {
    let enc = Clear;
    let val = DynamicInt::<Clear>::encrypt_secret(2u64.pow(15) - 42, &enc, 15);
    let ser = val.serialize(&enc);
    let back = DynamicInt::<Clear>::deserialize_unchecked(&ser, &enc).unwrap();
    assert_eq!(back.width(), 15);
    assert_eq!(back.decrypt(&enc), 2u64.pow(15) - 42);

    let enc = Leveled { depth: 3 };
    let val = DynamicInt::<Leveled>::encrypt_secret(2u64.pow(15) - 42, &enc, 15);
    let ser = val.serialize(&enc);
    let back = DynamicInt::<Leveled>::deserialize_unchecked(&ser, &enc).unwrap();
    assert_eq!(back.decrypt(&enc), 2u64.pow(15) - 42);
}

#[test]
fn can_safe_deserialize_packed_int() {
    let enc = Clear;
    let val = PackedInt::<15, Clear>::encrypt(2u64.pow(15) - 42, &enc);
    let ser = val.serialize(&enc);
    let back = PackedInt::<15, Clear>::deserialize(&ser, &enc).unwrap();
    assert_eq!(back.decrypt(&enc), 2u64.pow(15) - 42);
}

#[test]
fn can_safe_deserialize_packed_dyn_int() {
    let enc = Clear;
    let val = PackedDynamicInt::<Clear>::encrypt(2u64.pow(15) - 42, &enc, 15);
    let ser = val.serialize(&enc);
    let back = PackedDynamicInt::<Clear>::deserialize(&ser, &enc).unwrap();
    assert_eq!(back.width(), 15);
    assert_eq!(back.decrypt(&enc), 2u64.pow(15) - 42);
}

#[test]
fn records_are_a_length_and_the_bytes() {
    let items = vec![vec![7u8, 8, 9], vec![], vec![1]];
    let bytes = write_frame(&items);
    assert_eq!(
        bytes,
        vec![3, 0, 0, 0, 0, 0, 0, 0, 7, 8, 9, 0, 0, 0, 0, 0, 0, 0, 0, 1, 0, 0, 0, 0, 0, 0, 0, 1]
    );
    assert_eq!(read_frame(&bytes), Some(items));
    assert_eq!(write_frame(&vec![]), Vec::<u8>::new());
    assert_eq!(read_frame(&[]), Some(vec![]));
}

#[test]
fn a_stream_that_breaks_off_is_no_stream() {
    let bytes = write_frame(&vec![vec![7u8, 8, 9]]);
    for cut in 1..bytes.len() {
        assert_eq!(read_frame(&bytes[..cut]), None);
    }
    let mut long = bytes.clone();
    long.push(0);
    assert_eq!(read_frame(&long), None);
    // a length that no stream can hold
    assert_eq!(read_frame(&[255; 8]), None);
}

#[test]
fn the_byte_form_of_an_integer_is_exact() {
    let enc = Clear;
    let val = UInt::<2, Clear>::encrypt(1, &enc);
    assert_eq!(
        val.serialize(&enc),
        vec![1, 0, 0, 0, 0, 0, 0, 0, 1, 1, 0, 0, 0, 0, 0, 0, 0, 0]
    );
    let val = PackedUInt::<3, Clear>::encrypt(6, &enc);
    assert_eq!(
        val.serialize(&enc),
        vec![8, 0, 0, 0, 0, 0, 0, 0, 3, 0, 0, 0, 0, 0, 0, 0, 3, 0, 0, 0, 0, 0, 0, 0, 0, 1, 1]
    );
    let enc = Leveled { depth: 1 };
    let ct = enc.encrypt(&vec![true, false]);
    assert_eq!(enc.to_bytes(&ct), vec![0, 0, 0, 0, 0, 0, 0, 0, 1, 0]);
    assert_eq!(enc.from_bytes(&[2, 0, 0, 0, 0, 0, 0, 0, 0, 1]), Some(LeveledBits {
        bits: vec![false, true],
        level: 2,
    }));
    assert_eq!(enc.from_bytes(&[0, 0, 0, 0, 0, 0, 0]), None);
    assert_eq!(enc.from_bytes(&[0, 0, 0, 0, 0, 0, 0, 0, 2]), None);
    assert_eq!(Clear.from_bytes(&[0, 1, 1]), Some(vec![false, true, true]));
    assert_eq!(Clear.from_bytes(&[0, 3]), None);
    assert!(Clear.conforms(&vec![true]));
}

#[test]
fn every_integer_reads_back_in_both_modes() {
    let enc = Clear;
    for width in 0..6usize {
        for v in 0..(1u64 << width) {
            let val = DynamicUInt::<Clear>::encrypt(v, &enc, width);
            let ser = val.serialize(&enc);
            let safe = DynamicUInt::<Clear>::deserialize(&ser, &enc).unwrap();
            let fast = DynamicUInt::<Clear>::deserialize_unchecked(&ser, &enc).unwrap();
            assert_eq!(safe.decrypt(&enc), v);
            assert_eq!(fast.decrypt(&enc), v);
            assert_eq!(safe.serialize(&enc), ser);
            let val = PackedDynamicInt::<Clear>::trivial_encrypt(v, &enc, width);
            let ser = val.serialize(&enc);
            let safe = PackedDynamicInt::<Clear>::deserialize(&ser, &enc).unwrap();
            let fast = PackedDynamicInt::<Clear>::deserialize_unchecked(&ser, &enc).unwrap();
            assert_eq!((safe.width(), safe.decrypt(&enc)), (width, v));
            assert_eq!((fast.width(), fast.decrypt(&enc)), (width, v));
        }
    }
}

#[test]
fn a_malformed_stream_is_refused() {
    let enc = Clear;
    let ser = UInt::<4, Clear>::encrypt(5, &enc).serialize(&enc);
    let cut = &ser[..ser.len() - 1];
    assert_eq!(UInt::<4, Clear>::deserialize(cut, &enc).err(), Some(DeserializeError::Malformed));
    assert_eq!(
        DynamicUInt::<Clear>::deserialize_unchecked(cut, &enc).err(),
        Some(DeserializeError::Malformed)
    );
    // a record that is no ciphertext
    let mut bad = ser.clone();
    bad[8] = 9;
    assert_eq!(UInt::<4, Clear>::deserialize(&bad, &enc).err(), Some(DeserializeError::Malformed));
    assert_eq!(
        UInt::<4, Clear>::deserialize_unchecked(&bad, &enc).err(),
        Some(DeserializeError::Malformed)
    );
    // an unpacked integer is no packed one
    assert_eq!(
        PackedUInt::<4, Clear>::deserialize(&ser, &enc).err(),
        Some(DeserializeError::Malformed)
    );
    let packed = PackedUInt::<4, Clear>::encrypt(5, &enc).serialize(&enc);
    let mut bad = packed.clone();
    let last = bad.len() - 1;
    bad[last] = 7;
    assert_eq!(
        PackedDynamicInt::<Clear>::deserialize(&bad, &enc).err(),
        Some(DeserializeError::Malformed)
    );
    assert_eq!(
        PackedUInt::<4, Clear>::deserialize_unchecked(&packed[..10], &enc).err(),
        Some(DeserializeError::Malformed)
    );
}

#[test]
fn another_width_is_a_parameter_mismatch() {
    let enc = Clear;
    let ser = UInt::<4, Clear>::encrypt(5, &enc).serialize(&enc);
    assert_eq!(
        UInt::<5, Clear>::deserialize(&ser, &enc).err(),
        Some(DeserializeError::ParameterMismatch)
    );
    assert_eq!(
        Int::<3, Clear>::deserialize_unchecked(&ser, &enc).err(),
        Some(DeserializeError::ParameterMismatch)
    );
    let packed = PackedUInt::<4, Clear>::encrypt(5, &enc).serialize(&enc);
    assert_eq!(
        PackedUInt::<8, Clear>::deserialize(&packed, &enc).err(),
        Some(DeserializeError::ParameterMismatch)
    );
    assert_eq!(
        PackedInt::<8, Clear>::deserialize_unchecked(&packed, &enc).err(),
        Some(DeserializeError::ParameterMismatch)
    );
    assert!(PackedUInt::<4, Clear>::deserialize(&packed, &enc).is_ok());
}

#[test]
fn a_ciphertext_beyond_the_depth_is_a_parameter_mismatch() {
    // two gates deep, read by a cipher with a depth of one
    let deep = Leveled { depth: 2 };
    let mut g = FheCircuit::new();
    let a = g.add_input();
    let x = g.add_gate(GateOp::Not, &[a]).unwrap();
    let y = g.add_gate(GateOp::Not, &[x]).unwrap();
    g.mark_output(y);
    let outs = run_graph_blocking(&g, &vec![deep.encrypt(&vec![true])], &deep).unwrap();
    assert_eq!(outs[0].level, 2);
    assert!(deep.conforms(&outs[0]));
    let mut ser = Vec::new();
    let ct = deep.to_bytes(&outs[0]);
    ser.extend_from_slice(&(ct.len() as u64).to_le_bytes());
    ser.extend_from_slice(&ct);

    let shallow = Leveled { depth: 1 };
    assert!(!shallow.conforms(&outs[0]));
    assert_eq!(
        UInt::<1, Leveled>::deserialize(&ser, &shallow).err(),
        Some(DeserializeError::ParameterMismatch)
    );
    assert_eq!(
        DynamicUInt::<Leveled>::deserialize(&ser, &shallow).err(),
        Some(DeserializeError::ParameterMismatch)
    );
    let trusted = UInt::<1, Leveled>::deserialize_unchecked(&ser, &shallow).unwrap();
    assert_eq!(trusted.decrypt(&shallow), 1);
    assert!(UInt::<1, Leveled>::deserialize(&ser, &deep).is_ok());

    let mut packed = Vec::new();
    packed.extend_from_slice(&8u64.to_le_bytes());
    packed.extend_from_slice(&1u64.to_le_bytes());
    packed.extend_from_slice(&(ct.len() as u64).to_le_bytes());
    packed.extend_from_slice(&ct);
    assert_eq!(
        PackedUInt::<1, Leveled>::deserialize(&packed, &shallow).err(),
        Some(DeserializeError::ParameterMismatch)
    );
    assert!(PackedUInt::<1, Leveled>::deserialize_unchecked(&packed, &shallow).is_ok());
}
