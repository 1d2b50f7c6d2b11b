use parasol_runtime::bits::{from_bits, to_bits};

#[test]
fn to_bits_is_least_significant_first() {
    assert_eq!(to_bits(6, 4), vec![false, true, true, false]);
    assert_eq!(to_bits(1, 1), vec![true]);
    assert_eq!(to_bits(5, 0), Vec::<bool>::new());
    assert_eq!(to_bits(0b1011, 2), vec![true, true]);
}

#[test]
fn to_bits_pads_with_zeros_past_64() {
    let bits = to_bits(u64::MAX, 70);
    assert_eq!(bits.len(), 70);
    assert!(bits[..64].iter().all(|b| *b));
    assert!(bits[64..].iter().all(|b| !*b));
}

#[test]
fn from_bits_reads_a_number() {
    assert_eq!(from_bits(&vec![false, true, true, false]), 6);
    assert_eq!(from_bits(&vec![]), 0);
    assert_eq!(from_bits(&vec![true; 64]), u64::MAX);
}

#[test]
fn from_bits_reads_the_first_64_bits_only() {
    let mut bits = vec![false; 64];
    bits.push(true);
    assert_eq!(from_bits(&bits), 0);
    bits[63] = true;
    assert_eq!(from_bits(&bits), 1u64 << 63);
}

#[test]
fn bits_round_trip() {
    for v in [0u64, 1, 42, 65494, u64::MAX, 1 << 63] {
        assert_eq!(from_bits(&to_bits(v, 64)), v);
        assert_eq!(from_bits(&to_bits(v, 16)), v % 65536);
    }
}
