use turboquant::error::{ErrorKind, TurboError};
use turboquant::packing::{
    pack_1bit, pack_2bit, pack_4bit, pack_codes, pack_generic, packed_len, unpack_1bit,
    unpack_2bit, unpack_4bit, unpack_codes, unpack_generic,
};

#[test]
fn test_pack_unpack_roundtrip_1bit() {
    let codes: Vec<u8> = (0..128).map(|i| (i % 2) as u8).collect();
    let packed = pack_codes(&codes, 1).unwrap();
    assert_eq!(packed.len(), packed_len(128, 1));
    let unpacked = unpack_codes(&packed, 128, 1).unwrap();
    assert_eq!(codes, unpacked);
}

#[test]
fn test_pack_unpack_roundtrip_2bit() {
    let codes: Vec<u8> = (0..256).map(|i| (i % 4) as u8).collect();
    let packed = pack_codes(&codes, 2).unwrap();
    assert_eq!(packed.len(), packed_len(256, 2));
    let unpacked = unpack_codes(&packed, 256, 2).unwrap();
    assert_eq!(codes, unpacked);
}

#[test]
fn test_pack_unpack_roundtrip_3bit() {
    let codes: Vec<u8> = (0..200).map(|i| (i % 8) as u8).collect();
    let packed = pack_codes(&codes, 3).unwrap();
    assert_eq!(packed.len(), packed_len(200, 3));
    let unpacked = unpack_codes(&packed, 200, 3).unwrap();
    assert_eq!(codes, unpacked);
}

#[test]
fn test_pack_unpack_roundtrip_4bit() {
    let codes: Vec<u8> = (0..768).map(|i| (i % 16) as u8).collect();
    let packed = pack_codes(&codes, 4).unwrap();
    assert_eq!(packed.len(), packed_len(768, 4));
    let unpacked = unpack_codes(&packed, 768, 4).unwrap();
    assert_eq!(codes, unpacked);
}

#[test]
fn test_pack_unpack_roundtrip_8bit() {
    let codes: Vec<u8> = (0..128).map(|i| i as u8).collect();
    let packed = pack_codes(&codes, 8).unwrap();
    assert_eq!(packed.len(), 128);
    let unpacked = unpack_codes(&packed, 128, 8).unwrap();
    assert_eq!(codes, unpacked);
}

#[test]
fn test_packed_len() {
    // d=768, b=4: 768*4/8 = 384
    assert_eq!(packed_len(768, 4), 384);
    // d=768, b=2: 768*2/8 = 192
    assert_eq!(packed_len(768, 2), 192);
    // d=768, b=1: 768/8 = 96
    assert_eq!(packed_len(768, 1), 96);
    // d=768, b=3: ceil(768*3/8) = 288
    assert_eq!(packed_len(768, 3), 288);
    // d=768, b=8: 768
    assert_eq!(packed_len(768, 8), 768);
}

#[test]
fn test_4bit_nibble_layout() {
    // Verify that 4-bit packing stores low nibble first
    let codes = vec![0x0A, 0x05]; // two codes: 10, 5
    let packed = pack_4bit(&codes);
    assert_eq!(packed.len(), 1);
    assert_eq!(packed[0], 0x5A); // 0x0A in low nibble, 0x05 in high nibble
}

#[test]
fn test_odd_length_codes() {
    // Test with non-multiple-of-group-size code counts
    for b in [1, 2, 3, 4] {
        let dim = 13; // intentionally odd
        let max_val = (1u16 << b) - 1;
        let codes: Vec<u8> = (0..dim).map(|i| (i as u16 % (max_val + 1)) as u8).collect();
        let packed = pack_codes(&codes, b).unwrap();
        let unpacked = unpack_codes(&packed, dim, b).unwrap();
        assert_eq!(codes, unpacked, "roundtrip failed for b={}, dim={}", b, dim);
    }
}

#[test]
fn test_all_zeros() {
    let codes = vec![0u8; 100];
    for b in [1, 2, 3, 4, 8] {
        let packed = pack_codes(&codes, b).unwrap();
        let unpacked = unpack_codes(&packed, 100, b).unwrap();
        assert_eq!(codes, unpacked, "all-zeros roundtrip failed for b={}", b);
    }
}

#[test]
fn test_all_max_values() {
    for b in [1u32, 2, 3, 4, 8] {
        let max_val = ((1u16 << b) - 1) as u8;
        let codes = vec![max_val; 100];
        let packed = pack_codes(&codes, b).unwrap();
        let unpacked = unpack_codes(&packed, 100, b).unwrap();
        assert_eq!(codes, unpacked, "all-max roundtrip failed for b={}", b);
    }
}

#[test]
fn round_trip_at_every_width() {
    for b in 1u32..=8 {
        for dim in 0usize..40 {
            let codes: Vec<u8> = (0..dim)
                .map(|i| ((i * 37 + 11) % (1usize << b)) as u8)
                .collect();
            let packed = pack_codes(&codes, b).unwrap();
            assert_eq!(packed.len(), packed_len(dim, b));
            assert_eq!(unpack_codes(&packed, dim, b).unwrap(), codes);
        }
    }
}

#[test]
fn packing_keeps_the_low_bits() {
    let codes = vec![0xFF, 0x12, 0x34, 0x56, 0x78, 0x9A, 0xBC, 0xDE, 0xF1];
    for b in 1u32..=8 {
        let low: Vec<u8> = codes
            .iter()
            .map(|c| (*c as u16 & ((1u16 << b) - 1)) as u8)
            .collect();
        let packed = pack_codes(&codes, b).unwrap();
        assert_eq!(packed, pack_codes(&low, b).unwrap());
        assert_eq!(unpack_codes(&packed, codes.len(), b).unwrap(), low);
    }
}

#[test]
fn packing_undoes_unpacking() {
    let packed = vec![0xE4, 0x1B, 0x3F];
    for (b, dim) in [(1u32, 24usize), (2, 12), (3, 8), (4, 6), (6, 4), (8, 3)] {
        let codes = unpack_codes(&packed, dim, b).unwrap();
        assert!(codes.iter().all(|c| (*c as u16) < (1u16 << b)));
        assert_eq!(pack_codes(&codes, b).unwrap(), packed);
    }
}

#[test]
fn different_codes_pack_differently() {
    for b in 1u32..=8 {
        let x = vec![0u8, 1, 0, 1, 1];
        let y = vec![0u8, 1, 0, 0, 1];
        assert_ne!(pack_codes(&x, b).unwrap(), pack_codes(&y, b).unwrap());
    }
}

#[test]
fn exact_layouts() {
    assert_eq!(pack_1bit(&[1, 0, 1, 1, 0, 0, 0, 1, 1]), vec![0x8D, 0x01]);
    assert_eq!(pack_2bit(&[0, 1, 2, 3, 2]), vec![0xE4, 0x02]);
    assert_eq!(pack_4bit(&[1, 2, 3]), vec![0x21, 0x03]);
    // 101 | 011 << 3 | 110 << 6: the third code spans two bytes.
    assert_eq!(pack_generic(&[5, 3, 6], 3), vec![0x9D, 0x01]);
    assert_eq!(pack_codes(&[7, 200], 8).unwrap(), vec![7, 200]);
    assert_eq!(unpack_1bit(&[0x8D, 0x01], 9), vec![1, 0, 1, 1, 0, 0, 0, 1, 1]);
    assert_eq!(unpack_2bit(&[0xE4, 0x02], 5), vec![0, 1, 2, 3, 2]);
    assert_eq!(unpack_4bit(&[0x21, 0x03], 3), vec![1, 2, 3]);
    assert_eq!(unpack_generic(&[0x9D, 0x01], 3, 3), vec![5, 3, 6]);
}

#[test]
fn widths_outside_of_one_to_eight_are_refused() {
    let e = pack_codes(&[1, 2], 9).unwrap_err();
    assert!(matches!(e, TurboError::PackedBits { num_bits: 9 }));
    assert_eq!(e.message(), "num_bits must be 1-8, got 9");
    assert_eq!(e.kind(), ErrorKind::InvalidInput);
    let e = unpack_codes(&[1, 2], 2, 12).unwrap_err();
    assert!(matches!(e, TurboError::PackedBits { num_bits: 12 }));
    let e = pack_codes(&[1], 0).unwrap_err();
    assert!(matches!(e, TurboError::PackedBits { num_bits: 0 }));
    assert_eq!(e.message(), "num_bits must be 1-8, got 0");
    assert!(pack_codes(&[], 0).is_err());
    assert!(unpack_codes(&[1], 1, 0).is_err());
    assert!(unpack_codes(&[], 0, 0).is_err());
    assert!(pack_codes(&[1], 5).is_ok());
}

#[test]
fn nothing_packs_to_nothing() {
    for b in 1u32..=8 {
        assert_eq!(packed_len(0, b), 0);
        assert!(pack_codes(&[], b).unwrap().is_empty());
        assert!(unpack_codes(&[], 0, b).unwrap().is_empty());
    }
}
