use bm25::key::{bits_of_key, key_of_bits};

#[test]
fn zero_has_the_middle_key() {
    assert_eq!(key_of_bits(0), 0x8000_0000);
    assert_eq!(key_of_bits(0x8000_0000), 0x7fff_ffff);
}

#[test]
fn keys_of_the_ends() {
    assert_eq!(key_of_bits(0x7fff_ffff), 0xffff_ffff);
    assert_eq!(key_of_bits(0xffff_ffff), 0);
}

#[test]
fn key_of_one_and_of_minus_one() {
    assert_eq!(key_of_bits(1.0f32.to_bits()), 0x8000_0000 + 0x3f80_0000);
    assert_eq!(key_of_bits((-1.0f32).to_bits()), 0xffff_ffff - 0xbf80_0000);
}

#[test]
fn bits_of_key_undoes_key_of_bits() {
    for bits in [0u32, 1, 0x3f80_0000, 0x7f7f_ffff, 0x7fff_ffff, 0x8000_0000, 0x8000_0001, 0xffff_ffff] {
        assert_eq!(bits_of_key(key_of_bits(bits)), Some(bits));
    }
}

#[test]
fn key_of_bits_undoes_bits_of_key() {
    for key in [0u64, 1, 0x7fff_ffff, 0x8000_0000, 0x8000_0001, 0xffff_ffff] {
        assert_eq!(bits_of_key(key).map(key_of_bits), Some(key));
    }
}

#[test]
fn a_number_above_every_key_has_no_bits() {
    assert_eq!(bits_of_key(0x1_0000_0000), None);
    assert_eq!(bits_of_key(u64::MAX), None);
}

#[test]
fn keys_order_as_the_numbers_do() {
    let numbers = [
        f32::NEG_INFINITY,
        -3.5e10,
        -1.0,
        -1.0e-30,
        -0.0,
        0.0,
        1.0e-30,
        0.47,
        0.5666,
        1.0,
        2.5,
        3.5e10,
        f32::INFINITY,
    ];
    for pair in numbers.windows(2) {
        assert!(key_of_bits(pair[0].to_bits()) < key_of_bits(pair[1].to_bits()));
    }
    for a in numbers.iter() {
        for b in numbers.iter() {
            if a < b {
                assert!(key_of_bits(a.to_bits()) < key_of_bits(b.to_bits()));
            }
        }
    }
}
