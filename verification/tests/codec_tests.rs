use morton_octree::Morton;

#[test]
fn from_coords_known_bits() {
    assert_eq!(Morton::from_coords(0, 0, 0).0, 0);
    assert_eq!(Morton::from_coords(1, 0, 0).0, 1);
    assert_eq!(Morton::from_coords(0, 1, 0).0, 2);
    assert_eq!(Morton::from_coords(0, 0, 1).0, 4);
    assert_eq!(Morton::from_coords(1, 1, 1).0, 7);
    assert_eq!(Morton::from_coords(2, 0, 0).0, 8);
    assert_eq!(Morton::from_coords(0, 2, 0).0, 16);
    assert_eq!(Morton::from_coords(3, 2, 1).0, 29);
}

#[test]
fn from_coords_full_range_top_bit_clear() {
    let m = Morton::from_coords(0x1F_FFFF, 0x1F_FFFF, 0x1F_FFFF);
    assert_eq!(m.0, 0x7FFF_FFFF_FFFF_FFFF);
}

#[test]
fn from_coords_ignores_high_bits() {
    let a = Morton::from_coords(0x20_0005, 0x40_0002, 0x80_0001);
    let b = Morton::from_coords(5, 2, 1);
    assert_eq!(a, b);
}

#[test]
fn coords_round_trip_exact() {
    let samples = [
        (0u64, 0u64, 0u64),
        (1, 2, 3),
        (0x1F_FFFF, 0, 0x10_0000),
        (123_456, 654_321, 2_000_000),
        (0x15_5555, 0xA_AAAA, 0x1F_FFFF),
    ];
    for &(x, y, z) in samples.iter() {
        let m = Morton::from_coords(x, y, z);
        assert_eq!(m.to_coords(), (x, y, z));
    }
}

#[test]
fn decode_returns_cell_center_within_half_cell() {
    let scale = (1u64 << 21) as f64;
    let points = [
        (0.0f64, 0.0f64, 0.0f64),
        (0.5, 0.25, 0.75),
        (0.999_999, 0.123_456, 0.5),
        (0.333_333_333, 0.666_666_666, 0.111_111_111),
    ];
    for &(px, py, pz) in points.iter() {
        let x: u64 = (px * scale) as u64;
        let y: u64 = (py * scale) as u64;
        let z: u64 = (pz * scale) as u64;
        let m = Morton::from_coords(x, y, z);
        let (dx, dy, dz) = m.to_coords();
        let cx = (dx as f64 + 0.5) / scale;
        let cy = (dy as f64 + 0.5) / scale;
        let cz = (dz as f64 + 0.5) / scale;
        let half_cell = 0.5 / scale;
        assert!((cx - px).abs() <= half_cell);
        assert!((cy - py).abs() <= half_cell);
        assert!((cz - pz).abs() <= half_cell);
    }
}

#[test]
fn morton_bit_algebra() {
    let m = Morton(0x7000_0000_0000_0005);
    assert_eq!(m.bit_not().0, !0x7000_0000_0000_0005u64);
    assert_eq!(m.bit_and(Morton(0xF)).0, 5);
    assert_eq!(m.bit_or(Morton(0x70)).0, 0x7000_0000_0000_0075);
    assert_eq!(Morton(0x7000_0000_0000_0000).shr(3 * 20).0, 7);
    assert_eq!(Morton(7).shl(60).0, 0x7000_0000_0000_0000);
    // the mask "all triplets at or above level k", as the navigation builds it
    let highest = Morton(0x7000_0000_0000_0000);
    assert_eq!(highest.shr(3 * 2).bit_not().0, !0x01C0_0000_0000_0000u64);
}

#[test]
fn morton_bit_level_accessors() {
    let mut m = Morton(0);
    m.set_level(0, 5);
    assert_eq!(m.0, 5u64 << 60);
    assert_eq!(m.get_level(0), 5);
    assert_eq!(m.get_significant_bits(1), 5);
    m.set_level(20, 7);
    assert_eq!(m.get_level(20), 7);
    assert_eq!(m.get_level(10), 0);
    assert_eq!(m.get_significant_bits(21), (5u64 << 60) | 7);
    m.set_level(0, 2);
    assert_eq!(m.get_level(0), 2);
    m.reset_level(0);
    assert_eq!(m.0, 7);
    m.reset_level(20);
    assert_eq!(m.0, 0);
}
