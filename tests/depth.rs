use depth_drawer::Depth;

#[test]
fn nan_is_refused() {
    assert_eq!(Depth::from_bits(f32::NAN.to_bits()), None);
    assert_eq!(Depth::from_bits(0x7FC0_0001), None);
    assert_eq!(Depth::from_bits(0xFF80_0001), None);
}

#[test]
fn key_order_is_float_order() {
    let values = [
        f32::NEG_INFINITY,
        -1.0e30,
        -2.5,
        -1.0,
        -1.0e-40,
        -0.0,
        0.0,
        1.0e-40,
        0.5,
        1.0,
        3.0,
        1.0e30,
        f32::INFINITY,
    ];
    for a in values.iter() {
        for b in values.iter() {
            let ka = Depth::from_bits(a.to_bits()).unwrap().key();
            let kb = Depth::from_bits(b.to_bits()).unwrap().key();
            assert_eq!(a < b, ka < kb, "{} {}", a, b);
            assert_eq!(a == b, ka == kb, "{} {}", a, b);
        }
    }
}

#[test]
fn known_keys() {
    assert_eq!(Depth::from_bits(0.0f32.to_bits()).unwrap().key(), 0x8000_0000);
    assert_eq!(Depth::from_bits((-0.0f32).to_bits()).unwrap().key(), 0x8000_0000);
    assert_eq!(Depth::from_bits(1.0f32.to_bits()).unwrap().key(), 0x8000_0000 + 0x3F80_0000);
    assert_eq!(Depth::from_bits((-1.0f32).to_bits()).unwrap().key(), 0x7FFF_FFFF - 0x3F80_0000);
    assert_eq!(Depth::from_key(9).key(), 9);
}
